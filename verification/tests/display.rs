//! Rendering: columns, cells, tables, records and JSON.

use taska::config::{DisplayConfig, Layout};
use taska::display::{
    deps_cell, emit, full_columns, human_cell, print_tasks, referenced_columns, render,
    render_human, render_json, render_record, render_records, resolve_columns, sort_tasks,
    truncate, truncation_caps, DisplayArgs, OutputArgs, OutputFormat,
};
use taska::json::{cmp_json, compact_text, parse_json, Json};
use taska::model::TaskState;
use taska::order::cell_value;
use taska::strmap::{Data, StrMap, StrSet};
use taska::text::Order;

fn js(t: &str) -> Json {
    parse_json(t).unwrap()
}

/// The default readiness-gating type set the human renderers style by.
fn blockers() -> StrSet {
    let mut s = StrSet::new();
    s.insert("depends_on".to_string());
    s
}

fn task(id: &str, deps: &[&str], fields: &[(&str, &str)]) -> TaskState {
    let mut t = TaskState::blank(id);
    if !deps.is_empty() {
        t.relationships
            .insert("depends_on".to_string(), deps.iter().map(|s| s.to_string()).collect());
    }
    for (k, v) in fields {
        t.custom_fields.insert(k.to_string(), js(v));
    }
    t
}

/// A task with both a gating (`depends_on`) and an info (`relates_to`) edge.
fn mixed_edges_task() -> TaskState {
    let mut t = task("api", &["db", "web"], &[]);
    t.relationships.insert("relates_to".to_string(), vec!["x".to_string()]);
    t
}

fn display(format: OutputFormat, full: bool, columns: Option<&[&str]>) -> DisplayArgs {
    DisplayArgs {
        output: OutputArgs { format, no_color: false },
        full,
        columns: columns.map(|c| c.iter().map(|s| s.to_string()).collect()),
        sort: None,
        reverse: false,
        layout: None,
    }
}

fn config(columns: &[&str], max_width: usize) -> DisplayConfig {
    DisplayConfig {
        columns: columns.iter().map(|s| s.to_string()).collect(),
        max_width,
        column_max_width: StrMap::new(),
        sort: String::new(),
        list_layout: Layout::Table,
        show_layout: Layout::List,
    }
}

fn cell(t: &TaskState, column: &str) -> Option<String> {
    cell_value(t, column).map(|v| compact_text(&v))
}

#[test]
fn full_columns_keeps_present_configured_then_alphabetical() {
    let t = task("api", &[], &[("status", "\"open\""), ("priority", "3")]);
    let tasks = vec![t];
    let cols = full_columns(&tasks, &DisplayConfig::default());
    assert_eq!(
        cols,
        ["id", "status", "deps", "priority"],
        "canonical present-only set: {cols:?}"
    );
    let json = render_json(&tasks, &cols);
    assert!(json.contains(r#""status":"open""#), "json: {json}");
    assert!(json.contains(r#""priority":3"#), "json: {json}");
}

fn canonical_full_order() {
    let cfg = config(&["id", "status", "deps"], 0);
    let t = task("api", &["db"], &[("zeta", "1"), ("status", "\"open\""), ("alpha", "2")]);
    let tasks = vec![t];
    let cols = full_columns(&tasks, &cfg);
    assert_eq!(
        cols,
        ["id", "status", "deps", "alpha", "zeta"],
        "configured order then alphabetical extras: {cols:?}"
    );

    // The human header tokens are exactly the columns, in order.
    let full = display(OutputFormat::Human, true, None);
    let human =
        render_human(&tasks, &cols, &truncation_caps(&cols, &full, &cfg), false, &blockers());
    let header: Vec<String> =
        human.lines().next().unwrap().split_whitespace().map(str::to_string).collect();
    let expected: Vec<String> = cols.iter().map(|c| c.to_uppercase()).collect();
    assert_eq!(header, expected, "human header follows canonical order");

    // The JSON keys appear in the identical order.
    let json = render_json(&tasks, &cols);
    let mut last = 0;
    for c in &cols {
        let at = json.find(&format!("\"{c}\"")).unwrap();
        assert!(at >= last, "json key `{c}` out of canonical order: {json}");
        last = at;
    }
}

#[test]
fn format_canonical_full_order_shared_by_human_and_json() {
    canonical_full_order();
}

#[test]
fn cli_canonical_full_order_shared_by_human_and_json() {
    canonical_full_order();
}

fn sort_orders_by_column() {
    let pri3 = || task("a", &[], &[("priority", "3")]);
    let pri1 = || task("b", &[], &[("priority", "1")]);
    let pri2 = || task("c", &[], &[("priority", "2")]);
    let none = || task("d", &[], &[]); // no priority -> sorts last (ascending)
    let cfg = DisplayConfig::default();
    let args = |sort: &str, reverse: bool| DisplayArgs {
        output: OutputArgs { format: OutputFormat::Human, no_color: false },
        full: false,
        columns: None,
        sort: Some(sort.to_string()),
        reverse,
        layout: None,
    };
    let ids = |tasks: &[TaskState]| -> Vec<String> { tasks.iter().map(|t| t.id.clone()).collect() };

    // Numeric ascending, with the missing-value task last.
    let list = vec![pri3(), pri1(), pri2(), none()];
    let sorted = sort_tasks(&list, &args("priority", false), &cfg);
    assert_eq!(ids(&sorted), ["b", "c", "a", "d"], "asc, missing last");

    // --reverse flips the whole order.
    let list = vec![pri3(), pri1(), pri2(), none()];
    let sorted = sort_tasks(&list, &args("priority", true), &cfg);
    assert_eq!(ids(&sorted), ["d", "a", "c", "b"], "reversed");

    // An unknown column leaves only the id tiebreak (orders by id).
    let list = vec![pri2(), pri3(), pri1()];
    let sorted = sort_tasks(&list, &args("nope", false), &cfg);
    assert_eq!(ids(&sorted), ["a", "b", "c"], "unknown column -> by id");
}

#[test]
fn format_sort_tasks_orders_by_column_missing_last_and_reverse() {
    sort_orders_by_column();
}

#[test]
fn cli_sort_tasks_orders_by_column_missing_last_and_reverse() {
    sort_orders_by_column();
}

#[test]
fn format_cell_value_unifies_columns_and_human_joins_arrays() {
    let mut t = task("api", &["db", "web"], &[("tags", "[\"x\", \"y\"]"), ("priority", "3")]);
    t.relationships.insert("relates_to".to_string(), vec!["infra".to_string()]);

    assert_eq!(cell(&t, "id").as_deref(), Some("\"api\""));
    assert_eq!(
        cell(&t, "deps").as_deref(),
        Some(r#"{"depends_on":["db","web"],"relates_to":["infra"]}"#)
    );
    assert_eq!(cell(&t, "priority").as_deref(), Some("3"));
    assert_eq!(cell(&t, "missing"), None);

    // Human cells: bare string, deps as labeled type groups, arrays joined,
    // numbers as their text, empty for a missing column.
    assert_eq!(human_cell(&t, "id"), "api");
    assert_eq!(human_cell(&t, "deps"), "depends_on: db, web; relates_to: infra");
    assert_eq!(human_cell(&t, "tags"), "x, y", "custom arrays join");
    assert_eq!(human_cell(&t, "priority"), "3");
    assert_eq!(human_cell(&t, "missing"), "");
}

#[test]
fn deps_cell_styles_groups_by_kind_and_truncates_plainly() {
    let t = mixed_edges_task();

    // Plain, uncapped: groups joined by `; `, width = visible chars.
    let plain = "depends_on: db, web; relates_to: x";
    let (cell, w) = deps_cell(&t, &blockers(), 0, false);
    assert_eq!(cell, plain);
    assert_eq!(w, plain.chars().count());

    // Colored: the gating group is bold, the info group dim, width unchanged.
    let (cell, w) = deps_cell(&t, &blockers(), 0, true);
    assert_eq!(cell, "\x1b[1mdepends_on: db, web\x1b[0m; \x1b[2mrelates_to: x\x1b[0m");
    assert_eq!(w, plain.chars().count(), "width counts only visible chars");

    // Truncation cuts on the PLAIN text, never mid-escape; the cut group keeps
    // its styling.
    let (cell, w) = deps_cell(&t, &blockers(), 10, false);
    assert_eq!(cell, "depends_o…");
    assert_eq!(w, 10);
    let (cell, w) = deps_cell(&t, &blockers(), 25, true);
    assert_eq!(cell, "\x1b[1mdepends_on: db, web\x1b[0m; \x1b[2mrel\x1b[0m…");
    assert_eq!(w, 25);

    // No edges at all: empty cell, zero width.
    assert_eq!(deps_cell(&task("t", &[], &[]), &blockers(), 0, true), (String::new(), 0));
}

#[test]
fn record_view_puts_one_deps_type_group_per_line() {
    let t = mixed_edges_task();
    let cols = vec!["id".to_string(), "deps".to_string()];
    let out = render_record(&t, &cols, false, &blockers());
    let lines: Vec<&str> = out.lines().collect();
    assert_eq!(lines[1], "deps: depends_on: db, web", "first group: {out}");
    assert_eq!(lines[2].trim(), "relates_to: x", "next group continues indented: {out}");
    // Colored: bold gating group on the label line, dim info continuation.
    let colored = render_record(&t, &cols, true, &blockers());
    assert!(
        colored.contains("\x1b[1mdepends_on: db, web\x1b[0m"),
        "bold group: {colored:?}"
    );
    assert!(colored.contains("\x1b[2mrelates_to: x\x1b[0m"), "dim group: {colored:?}");
}

fn cmp_json_orders() {
    assert_eq!(cmp_json(&js("2"), &js("10")), Order::Less, "numeric, not lexical");
    assert_eq!(cmp_json(&js("\"a\""), &js("\"b\"")), Order::Less);
    // Mixed types fall back to a stable per-type rank (number < string).
    assert_eq!(cmp_json(&js("1"), &js("\"1\"")), Order::Less);
}

#[test]
fn format_cmp_json_orders_numbers_strings_and_mixed_types() {
    cmp_json_orders();
}

#[test]
fn cli_cmp_json_orders_numbers_strings_and_mixed_types() {
    cmp_json_orders();
}

fn header_and_unquoted_values(deps: &str) {
    let t = task("api", &["db"], &[("status", "\"open\"")]);
    let d = display(OutputFormat::Human, false, Some(&["id", "status", "deps"]));
    let out = render(&vec![t], &d, &DisplayConfig::default(), &blockers(), false, "(none)");
    assert!(out.contains("ID") && out.contains("STATUS"), "header: {out}");
    assert!(out.lines().any(|l| l.starts_with("api")), "row: {out}");
    // value is bare `open`, not JSON-quoted.
    assert!(out.contains("open") && !out.contains("\"open\""), "unquoted: {out}");
    assert!(out.contains(deps), "deps: {out}");
}

#[test]
fn format_human_has_header_and_unquoted_values() {
    header_and_unquoted_values("depends_on: db");
}

#[test]
fn cli_human_has_header_and_unquoted_values() {
    header_and_unquoted_values("db");
}

#[test]
fn color_wraps_human_output_only_when_enabled() {
    let mut t = task("api", &["db"], &[("status", "\"open\"")]);
    t.relationships.insert("relates_to".to_string(), vec!["x".to_string()]);
    let cols = vec!["id".to_string(), "status".to_string(), "deps".to_string()];
    let caps = vec![0, 0, 0];
    let tasks = vec![t];

    // color=true: id cyan (36), status green (32), headers + gating deps
    // groups bold (1), info groups dim (2), reset.
    let colored = render_human(&tasks, &cols, &caps, true, &blockers());
    assert!(colored.contains("\x1b[36m"), "id cyan: {colored:?}");
    assert!(colored.contains("\x1b[32m"), "status green: {colored:?}");
    assert!(
        colored.contains("\x1b[1mdepends_on: db\x1b[0m"),
        "gating deps group bold: {colored:?}"
    );
    assert!(
        colored.contains("\x1b[2mrelates_to: x\x1b[0m"),
        "info deps group dim: {colored:?}"
    );
    assert!(colored.contains("\x1b[0m"), "reset: {colored:?}");
    // The values themselves survive (color only wraps, never replaces).
    assert!(colored.contains("api") && colored.contains("open"));

    // color=false: not a single escape byte.
    let plain = render_human(&tasks, &cols, &caps, false, &blockers());
    assert!(!plain.contains('\x1b'), "no escapes when off: {plain:?}");

    // The record view colors too, and stays clean when off.
    assert!(render_record(&tasks[0], &cols, true, &blockers()).contains('\x1b'));
    assert!(!render_record(&tasks[0], &cols, false, &blockers()).contains('\x1b'));

    // JSON is never colored, even via the shared render path.
    let json = render(
        &tasks,
        &display(OutputFormat::Json, false, Some(&["id", "status"])),
        &DisplayConfig::default(),
        &blockers(),
        true,
        "(none)",
    );
    assert!(!json.contains('\x1b'), "json never colored: {json:?}");
}

fn json_array_in_column_order() {
    let item = task("api", &[], &[("status", "\"open\""), ("priority", "3")]);
    let args = display(OutputFormat::Json, false, Some(&["id", "priority", "status"]));
    let out = render(&vec![item], &args, &DisplayConfig::default(), &blockers(), false, "(none)");
    assert!(out.trim_start().starts_with('['), "array: {out}");
    let id_at = out.find("\"id\"").unwrap();
    let pri_at = out.find("\"priority\"").unwrap();
    let status_at = out.find("\"status\"").unwrap();
    assert!(id_at < pri_at && pri_at < status_at, "keys follow column order: {out}");
    assert!(out.contains("\"priority\":3"), "number stays a number: {out}");
}

#[test]
fn format_json_is_array_in_column_order() {
    json_array_in_column_order();
}

#[test]
fn cli_json_is_array_in_column_order() {
    json_array_in_column_order();
}

fn unions_but_omits_absent() {
    let a = task("a", &[], &[("x", "1")]);
    let b = task("b", &[], &[("y", "2")]);
    let d = display(OutputFormat::Json, true, None);
    let cfg = DisplayConfig::default();
    let out = render(&vec![a, b], &d, &cfg, &blockers(), false, "(none)");
    // --full unions the column set: both x and y appear across the array.
    assert!(out.contains("\"x\"") && out.contains("\"y\""), "union: {out}");
    // But an absent field is OMITTED, never emitted as null.
    assert!(!out.contains("null"), "absent fields omitted, not null: {out}");

    let empty = render(&Vec::new(), &d, &cfg, &blockers(), false, "(none)");
    assert_eq!(empty, "[]", "empty json is []");
}

#[test]
fn format_all_unions_fields_but_each_object_omits_absent_ones() {
    unions_but_omits_absent();
}

#[test]
fn cli_all_unions_fields_but_each_object_omits_absent_ones() {
    unions_but_omits_absent();
}

#[test]
fn format_jsonl_is_one_object_per_line_omitting_absent_fields() {
    let a = task("a", &["d"], &[("x", "1")]);
    let b = task("b", &[], &[("y", "2")]);
    let d = display(OutputFormat::Jsonl, true, None);
    let cfg = DisplayConfig::default();
    let out = render(&vec![a, b], &d, &cfg, &blockers(), false, "(none)");
    let lines: Vec<&str> = out.lines().collect();
    assert_eq!(lines.len(), 2, "one object per line: {out}");
    // Each line is a standalone object (no array brackets), absent keys gone.
    for line in &lines {
        let v: serde_json::Value = serde_json::from_str(line).unwrap();
        assert!(v.is_object(), "each line is a JSON object: {line}");
    }
    assert!(lines[0].contains(r#""x":1"#) && !lines[0].contains("\"y\""), "a: {}", lines[0]);
    assert!(lines[1].contains(r#""y":2"#) && !lines[1].contains("\"x\""), "b: {}", lines[1]);
    // deps is a built-in: always present as the typed map, {} when empty.
    assert!(
        lines[0].contains(r#""deps":{"depends_on":["d"]}"#) && lines[1].contains(r#""deps":{}"#)
    );

    // Empty input yields no lines.
    assert_eq!(render(&Vec::new(), &d, &cfg, &blockers(), false, "(none)"), "");
}

fn truncate_caps() {
    assert_eq!(truncate("hello", 0), "hello");
    assert_eq!(truncate("hello", 10), "hello");
    assert_eq!(truncate("hello world", 5), "hell…");
}

#[test]
fn format_truncate_caps_long_values() {
    truncate_caps();
}

#[test]
fn cli_truncate_caps_long_values() {
    truncate_caps();
}

fn full_disables_truncation() {
    let long = "a value that is definitely longer than the configured max width";
    let tasks = vec![task("api", &[], &[("notes", &format!("\"{long}\""))])];
    let cfg = config(&["id", "notes"], 20);
    let shown = |d: &DisplayArgs| render(&tasks, d, &cfg, &blockers(), false, "(none)");

    // --full: the full value survives, no ellipsis.
    let full = shown(&display(OutputFormat::Human, true, None));
    assert!(full.contains(long), "--full prints untruncated: {full}");
    assert!(!full.contains('…'), "--full adds no ellipsis: {full}");

    // Default (config columns) still truncates per max_width.
    let default = shown(&display(OutputFormat::Human, false, None));
    assert!(!default.contains(long), "default truncates: {default}");
    assert!(default.contains('…'), "default shows ellipsis: {default}");

    // An explicit --columns view also still truncates.
    let cols = shown(&display(OutputFormat::Human, false, Some(&["id", "notes"])));
    assert!(cols.contains('…'), "--columns still truncates: {cols}");
}

#[test]
fn format_full_disables_truncation_but_default_and_columns_still_truncate() {
    full_disables_truncation();
}

#[test]
fn cli_full_disables_truncation_but_default_and_columns_still_truncate() {
    full_disables_truncation();
}

fn per_column_max_width() {
    // `notes` gets a wide override (60); `summary` falls back to max_width (10).
    let long = "0123456789abcdefghij"; // 20 chars
    let quoted = format!("\"{long}\"");
    let tasks = vec![task("api", &[], &[("notes", &quoted), ("summary", &quoted)])];
    let mut cfg = config(&["id", "notes", "summary"], 10);
    cfg.column_max_width.insert("notes".to_string(), 60);
    let shown = |d: &DisplayArgs| render(&tasks, d, &cfg, &blockers(), false, "(none)");
    let out = shown(&display(OutputFormat::Human, false, None));
    // notes keeps all 20 chars (override 60 > 20, no ellipsis); summary is cut.
    assert!(out.contains(long), "notes column not truncated: {out}");
    assert!(out.contains('…'), "summary column truncated to max_width: {out}");

    // --full ignores the per-column map entirely: both survive intact.
    let full = shown(&display(OutputFormat::Human, true, None));
    assert!(!full.contains('…'), "--full disables truncation: {full}");
}

#[test]
fn format_per_column_max_width_overrides_the_global() {
    per_column_max_width();
}

#[test]
fn cli_per_column_max_width_overrides_the_global() {
    per_column_max_width();
}

#[test]
fn record_view_is_vertical_untruncated_and_keeps_multiline() {
    let long = "a value that is definitely much longer than any default max width";
    let t = task(
        "api",
        &["db"],
        &[
            ("status", "\"open\""),
            ("notes", "\"line one\\nline two\""),
            ("blurb", &format!("\"{long}\"")),
        ],
    );
    let tasks = vec![t];
    let cols = full_columns(&tasks, &DisplayConfig::default());
    let out = render_record(&tasks[0], &cols, false, &blockers());

    // One field per line: `id` value is `api`, status its own line.
    assert!(
        out.lines()
            .any(|l| l.starts_with("id:") && l.split_whitespace().last() == Some("api")),
        "vertical id line: {out}"
    );
    assert!(
        out.lines().any(|l| l.starts_with("status:") && l.ends_with("open")),
        "status line: {out}"
    );
    // Long values are never truncated (the whole point of the record view).
    assert!(out.contains(long) && !out.contains('…'), "untruncated: {out}");
    // A multi-line value continues under its label, with no second `notes:`.
    assert!(out.contains("line one"), "first notes line: {out}");
    assert!(
        out.lines().any(|l| l.trim() == "line two" && l.starts_with(' ')),
        "continuation line indented: {out}"
    );
}

#[test]
fn a_table_is_laid_out_exactly() {
    let tasks = vec![
        task("api", &[], &[("status", "\"open\"")]),
        task("b", &[], &[("status", "\"x\"")]),
    ];
    let cols = vec!["id".to_string(), "status".to_string()];
    let out = render_human(&tasks, &cols, &vec![0, 0], false, &blockers());
    assert_eq!(out, "ID   STATUS\napi  open\nb    x");
}

#[test]
fn headers_are_upper_cased_beyond_ascii() {
    // The upper case of `ß` is two letters.
    let tasks = vec![task("a", &[], &[("straße", "1")])];
    let cols = vec!["straße".to_string()];
    let out = render_human(&tasks, &cols, &vec![0], false, &blockers());
    assert_eq!(out.lines().next(), Some("STRASSE"));
}

#[test]
fn emit_prints_one_value_by_format() {
    let value = js("{\"a\": [1, 2]}");
    let out = |format: OutputFormat| emit(&OutputArgs { format, no_color: true }, "two\nlines", &value);
    assert_eq!(out(OutputFormat::Human), vec!["two\nlines".to_string()]);
    assert_eq!(out(OutputFormat::Jsonl), vec![r#"{"a":[1,2]}"#.to_string()]);
    assert_eq!(
        out(OutputFormat::Json),
        vec!["{\n  \"a\": [\n    1,\n    2\n  ]\n}".to_string()]
    );
}

#[test]
fn empty_views_say_so_in_human_format() {
    let cfg = DisplayConfig::default();
    let shown = |f: OutputFormat| {
        render(&Vec::new(), &display(f, false, None), &cfg, &blockers(), false, "(none)")
    };
    assert_eq!(shown(OutputFormat::Human), "(none)");
    assert_eq!(shown(OutputFormat::Json), "[]");
    assert_eq!(shown(OutputFormat::Jsonl), "");
}

#[test]
fn records_are_separated_by_a_blank_line() {
    let tasks = vec![task("a", &[], &[]), task("b", &[], &[])];
    let cols = vec!["id".to_string()];
    assert_eq!(render_records(&tasks, &cols, false, &blockers()), "id: a\n\nid: b");
}

#[test]
fn layouts_choose_between_table_and_records() {
    let tasks = vec![task("a", &[], &[("status", "\"x\"")])];
    let cfg = DisplayConfig::default();
    let mut d = display(OutputFormat::Human, false, Some(&["id", "status"]));
    assert_eq!(render(&tasks, &d, &cfg, &blockers(), false, ""), "ID  STATUS\na   x");
    d.layout = Some(Layout::List);
    assert_eq!(render(&tasks, &d, &cfg, &blockers(), false, ""), "id:     a\nstatus: x");
}

#[test]
fn the_columns_come_from_the_request_or_the_config() {
    let cfg = config(&["id", "title"], 7);
    let tasks = vec![task("a", &[], &[("extra", "1")])];
    let asked = display(OutputFormat::Human, false, Some(&["id", "extra"]));
    let plain = display(OutputFormat::Human, false, None);
    let full = display(OutputFormat::Human, true, None);
    assert_eq!(resolve_columns(&asked, &cfg, &tasks), ["id", "extra"]);
    assert_eq!(resolve_columns(&plain, &cfg, &tasks), ["id", "title"]);
    assert_eq!(resolve_columns(&full, &cfg, &tasks), ["id", "deps", "extra"]);
    assert_eq!(truncation_caps(&cfg.columns, &plain, &cfg), [7, 7]);
    assert_eq!(truncation_caps(&cfg.columns, &full, &cfg), [0, 0]);
    assert!(referenced_columns(&asked, &cfg).contains(&"extra".to_string()));
    // Sorting happens before rendering.
    let two = vec![task("b", &[], &[]), task("a", &[], &[])];
    assert_eq!(
        print_tasks(&two, &display(OutputFormat::Human, false, Some(&["id"])), &cfg, &blockers(), false, ""),
        "ID\na\nb"
    );
    assert_eq!(two[0].id.copy(), "b");
}

#[test]
fn the_width_of_a_deps_cell_is_that_of_its_plain_text() {
    let t = mixed_edges_task();
    for cap in 0..40 {
        let (plain, w) = deps_cell(&t, &blockers(), cap, false);
        let (_, colored) = deps_cell(&t, &blockers(), cap, true);
        assert_eq!(w, plain.chars().count());
        assert_eq!(w, colored);
        assert!(cap == 0 || w <= cap);
    }
}

/// The text without its style codes.
fn unstyled(s: &str) -> String {
    let mut out = String::new();
    let mut styled = false;
    for c in s.chars() {
        match c {
            '\x1b' => styled = true,
            'm' if styled => styled = false,
            _ if !styled => out.push(c),
            _ => {}
        }
    }
    out
}

#[test]
fn a_colored_deps_cell_shows_the_plain_text() {
    let t = mixed_edges_task();
    for cap in 0..40 {
        let (plain, _) = deps_cell(&t, &blockers(), cap, false);
        let (colored, _) = deps_cell(&t, &blockers(), cap, true);
        assert_eq!(unstyled(&colored), plain);
    }
    assert_ne!(deps_cell(&t, &blockers(), 0, true).0, deps_cell(&t, &blockers(), 0, false).0);
}
