//! The configuration file that a new store starts with.

use crate::config::{Config, RelationshipConfig, RelationshipDef, TypesV, MIN_KEEP_EVENTS};
use crate::strmap::{self, StrMap};
use crate::text;
use vstd::prelude::*;

verus! {

/// The template up to the value of `min_keep`.
pub const BEFORE_MIN_KEEP: &'static str = "# taska configuration\n#\n# Created by `ta init`. Edit freely - `ta init` will not overwrite this file\n# once it exists. Missing keys fall back to the defaults shown below.\n\n[compaction]\n# `ta compact` folds old events into the baseline snapshot to keep the log\n# small. These settings control how much recent history stays in the log.\n#\n# Recent events must be retained: the git merge driver reconciles divergent\n# branches from the events still in the log, so anything already folded into the\n# baseline can no longer be reconciled. Keep enough history to cover your\n# longest-lived branch.\n#\n# Keep at least this many of the most recent events (minimum ";

/// The template up to the value of `keep_events`.
pub const BEFORE_KEEP_EVENTS: &'static str = "); also\n# the minimum log size before compaction does anything.\nkeep_events = ";

/// The template up to the value of `keep_days`.
pub const BEFORE_KEEP_DAYS: &'static str = "\n# Also keep every event from at least this many days back (0 disables the time\n# window). An event is retained if it is recent by either rule.\nkeep_days = ";

/// The template up to the value of `status_field`.
pub const BEFORE_STATUS_FIELD: &'static str = "\n\n[workflow]\n# The DISPLAY name of the status field, and the value that marks a task\n# complete. `ta list --ready` treats a dependency as satisfied once it reaches\n# `done_status`. On disk the status always lives under the canonical key\n# `status`, so renaming this is free at any time (no data migration) - just\n# update [display] columns to the new name too.\nstatus_field = \"";

/// The template up to the value of `done_status`.
pub const BEFORE_DONE_STATUS: &'static str = "\"\ndone_status = \"";

/// The template up to the value of `default_status`.
pub const BEFORE_DEFAULT_STATUS: &'static str = "\"\n# Status stamped onto a new task when `ta create` doesn't set one. Set to \"\" to\n# create statusless tasks (the status field stays absent until you set it).\ndefault_status = \"";

/// The template up to the value of `type_field`.
pub const BEFORE_TYPE_FIELD: &'static str = "\"\n# DISPLAY name of the task-type discriminator used by [task_types] schemas\n# (`ta create x type=bug`). Stored canonically as `task_type`, so renaming this\n# is free, like status_field.\ntype_field = \"";

/// The template up to the value of `warn_nonconforming`.
pub const BEFORE_WARN_NONCONFORMING: &'static str = "\"\n# Read commands print ONE warning when the store holds tasks that don't conform\n# to their [task_types] schema (old data is read-tolerated by design; writes to\n# such a task must bring it into conformance). Set false to silence.\nwarn_nonconforming = ";

/// The template up to the value of `untyped_tasks`.
pub const BEFORE_UNTYPED_TASKS: &'static str = "\n# Tasks WITHOUT a type while [task_types] schemas are declared: \"allow\"\n# (sanctioned - untouched by schemas, never reported), \"warn\" (tolerated, but\n# counted in the non-conformance warning), or \"deny\" (a type is mandatory: any\n# write to an untyped task is rejected until one is set). A long migration\n# typically walks allow -> warn -> deny.\nuntyped_tasks = \"";

/// The template up to the value of `on_conflict`.
pub const BEFORE_ON_CONFLICT: &'static str = "\"\n\n[merge]\n# What to do when concurrent branches change the SAME field (or dependency) to\n# incompatible values. Non-overlapping changes always merge cleanly; this only\n# governs genuine contradictions, and it resolves them per-field:\n#   \"surface\" - stop the merge and let a human resolve it (run `ta resolve`)\n#   \"latest\"  - keep the most recently written value (by timestamp)\n#   \"ours\"    - keep the value on the branch being merged INTO\n#   \"theirs\"  - keep the value from the branch being merged IN\non_conflict = \"";

/// The template up to the value of `columns`.
pub const BEFORE_COLUMNS: &'static str = "\"\n\n[display]\n# Columns shown by list/ready in human format - and the field set and\n# order used by `--format json`. \"id\" and \"deps\" are built-ins; any other name\n# is a task field (blank when a task lacks it). Override per command with\n# `--columns a,b,c` or `--full`.\ncolumns = [";

/// The template up to the value of `max_width`.
pub const BEFORE_MAX_WIDTH: &'static str = "]\n# Truncate long human cell values to this many characters (0 = no limit). This\n# is the global fallback for any column not overridden below.\nmax_width = ";

/// The template up to the value of `sort`.
pub const BEFORE_SORT: &'static str = "\n# Default column to sort list/ready by (ascending; --sort overrides,\n# --reverse flips). Any field, \"id\", or \"deps\"; empty/unknown falls back to id.\nsort = \"";

/// The template up to the value of `list_layout`.
pub const BEFORE_LIST_LAYOUT: &'static str = "\"\n# Default human layout per command: \"table\" (aligned columns, one task per row)\n# or \"list\" (a vertical `field: value` record per task). `--layout` overrides.\nlist_layout = \"";

/// The template up to the value of `show_layout`.
pub const BEFORE_SHOW_LAYOUT: &'static str = "\"\nshow_layout = \"";

/// The template up to the value of `column_max_width`.
pub const BEFORE_COLUMN_MAX_WIDTH: &'static str = "\"\n\n# Per-column truncation overrides. A column listed here is truncated to its own\n# width instead of max_width (0 = no limit). `--full` ignores these entirely.\ncolumn_max_width = { ";

/// The template up to the value of `create_time`.
pub const BEFORE_CREATE_TIME: &'static str = " }\n\n[timestamps]\n# Computed timestamp fields materialized onto every task from the event log\n# (never user-set). These name the columns they surface under; set a name to \"\"\n# to disable that timestamp. create_time = the Create event's time; update_time\n# = the latest touching event's time; close_time = the most recent time status\n# reached done_status (cleared while the task is currently not done). They are\n# available to --columns/--full/show and as a --sort key.\ncreate_time = \"";

/// The template up to the value of `update_time`.
pub const BEFORE_UPDATE_TIME: &'static str = "\"\nupdate_time = \"";

/// The template up to the value of `close_time`.
pub const BEFORE_CLOSE_TIME: &'static str = "\"\nclose_time = \"";

/// The template up to the value of `relationships_toml`.
pub const BEFORE_RELATIONSHIPS_TOML: &'static str = "\"\n\n# Relationship types. `ta dep <a> <type>=<b>` adds an edge; an undeclared type is\n# rejected. Each type's `kind` says how it behaves: \"blocker\" makes the target a\n# prerequisite (feeds `ta list --ready` and cycle detection); \"hierarchy\" is a\n# parent/child (subtask) edge that gates like a blocker but renders distinctly;\n# \"info\" is informational. inverse names the reverse direction and is OPTIONAL -\n# omit it for a one-way type; the type's own name makes it symmetric\n# (`a relates_to b` reads both ways); else it labels the inverse.\n";

/// The template up to the next value of `done_status`.
pub const BEFORE_DONE_STATUS_2: &'static str = "\n\n# Per-type task schemas - OFF while no [task_types.<name>] is declared (the\n# store stays fully schema-agnostic). Once declared, the `type` field (see\n# workflow.type_field) selects a task's schema, enforced on every create/update\n# (whole-task: every violation reported in one error). Field kinds: string,\n# bool, int, uint, float, datetime, enum, any, array<T>, set<T>. Long-form\n# constraints: required, default (stamped at create, healed onto writes,\n# substituted at read), min/max, pattern, min_len/max_len, min_items/max_items,\n# transitions (enum only - see below).\n# This file is TOML 1.1: `fields` reads best as one multi-line inline table\n# (trailing comma allowed), one line per field. Example:\n# [task_types.bug]\n# closed = true                       # no fields beyond the declared ones\n# fields = {\n#   points   = \"uint\",                # shorthand: just the kind\n#   tags     = \"array<string>\",\n#   severity = { type = \"enum\", values = [\"low\", \"medium\", \"high\"], required = true, default = \"low\" },\n#   estimate = { type = \"uint\", min = 1, max = 13 },\n# }\n#\n# WORKFLOWS. An enum field can declare `transitions` - the values each value may\n# change into - turning it into a state machine enforced on every write (a\n# rejected move exits 2). Cycles are fine: that is how `implement <-> review`\n# works. The map must be TOTAL (every declared value present as a key), and a\n# terminal state is written `state = []` rather than left out, so no state is\n# ever frozen by accident. For the STATUS field every state must additionally\n# reach `workflow.done_status`, or tasks could never be completed. Creating a\n# task, setting a previously-absent value, and unsetting are not transitions.\n# [task_types.feature]\n# fields = {\n#   status = { type = \"enum\", values = [\"todo\", \"plan\", \"implement\", \"review\", \"";

/// The template up to the next value of `done_status`.
pub const BEFORE_DONE_STATUS_3: &'static str = "\"],\n#              transitions = {\n#                todo      = [\"plan\"],\n#                plan      = [\"implement\", \"review\"],\n#                implement = [\"review\"],\n#                review    = [\"implement\", \"";

/// The template up to the next value of `done_status`.
pub const BEFORE_DONE_STATUS_4: &'static str = "\"],   # bounce until review passes\n#                ";

/// The end of the template.
pub const AT_THE_END: &'static str = "    = [\"todo\"],                  # reopen, or [] to seal\n#              } },\n# }\n";

/// A flag in the configuration file.
pub open spec fn flag(b: bool) -> Seq<char> {
    if b {
        "true"@
    } else {
        "false"@
    }
}

fn flag_text(b: bool) -> (r: String)
    ensures
        r@ == flag(b),
{
    if b {
        String::from_str("true")
    } else {
        String::from_str("false")
    }
}

/// Column names, quoted, with commas between them.
pub open spec fn columns_toml(columns: Seq<Seq<char>>) -> Seq<char> {
    text::joined(columns.map_values(|c: Seq<char>| "\""@ + c + "\""@), ", "@)
}

fn render_columns(columns: &Vec<String>) -> (r: String)
    ensures
        r@ == columns_toml(columns.deep_view()),
{
    let mut parts: Vec<String> = Vec::new();
    let mut i: usize = 0;
    while i < columns.len()
        invariant
            i <= columns.len(),
            parts.len() == i,
            forall|k: int| 0 <= k < i ==> #[trigger] parts@[k]@ == "\""@ + columns@[k]@ + "\""@,
        decreases columns.len() - i,
    {
        parts.push(text::cat3("\"", columns[i].as_str(), "\""));
        i += 1;
    }
    assert(parts.deep_view() =~= columns.deep_view().map_values(
        |c: Seq<char>| "\""@ + c + "\""@,
    ));
    text::join(&parts, ", ")
}

/// Column widths, each behind its quoted column, with commas between them.
pub open spec fn widths_toml(widths: Map<Seq<char>, usize>) -> Seq<char> {
    text::joined(
        strmap::sorted_of(widths.dom()).map_values(
            |k: Seq<char>| "\""@ + k + "\" = "@ + text::decimal(widths[k] as nat),
        ),
        ", "@,
    )
}

fn render_column_widths(widths: &StrMap<usize>) -> (r: String)
    ensures
        r@ == widths_toml(widths@),
{
    let n = widths.len();
    let ghost keys = widths.keys_view();
    let mut parts: Vec<String> = Vec::new();
    let mut i: usize = 0;
    while i < n
        invariant
            i <= n,
            n == keys.len(),
            keys == widths.keys_view(),
            parts.len() == i,
            forall|k: int|
                0 <= k < i ==> #[trigger] parts@[k]@ == "\""@ + keys[k] + "\" = "@ + text::decimal(
                    widths@[keys[k]] as nat,
                ),
        decreases n - i,
    {
        let mut part = text::cat3("\"", widths.key_at(i).as_str(), "\" = ");
        part.append(text::decimal_text(*widths.value_at(i) as u64).as_str());
        parts.push(part);
        i += 1;
    }
    assert(parts.deep_view() =~= keys.map_values(
        |k: Seq<char>| "\""@ + k + "\" = "@ + text::decimal(widths@[k] as nat),
    ));
    text::join(&parts, ", ")
}

/// The number of bytes of the longest of `names`.
pub open spec fn widest(names: Seq<Seq<char>>) -> nat
    decreases names.len(),
{
    if names.len() == 0 {
        0
    } else {
        let rest = widest(names.drop_last());
        let n = vstd::utf8::encode_utf8(names.last()).len();
        if n > rest {
            n
        } else {
            rest
        }
    }
}

/// One relationship type in the configuration file, its name padded to `width`.
pub open spec fn relationship_line(types: TypesV, name: Seq<char>, width: nat) -> Seq<char> {
    text::padded(name, width) + " = { kind = \""@ + types[name].kind.name() + "\""@ + (
    if types[name].inverse.len() == 0 {
        ""@
    } else {
        ", inverse = \""@ + types[name].inverse + "\""@
    }) + " }"@
}

/// The table of relationship types in the configuration file.
pub open spec fn relationships_toml(types: TypesV) -> Seq<char> {
    let names = strmap::sorted_of(types.dom());
    "[relationships]\n"@ + text::joined(
        names.map_values(|n: Seq<char>| relationship_line(types, n, widest(names))),
        "\n"@,
    )
}

fn relationship_text(
    def: &RelationshipDef,
    name: &str,
    width: usize,
    Ghost(types): Ghost<TypesV>,
) -> (r:
    String)
    requires
        types[name@] == def.deep_view(),
    ensures
        r@ == relationship_line(types, name@, width as nat),
{
    let inverse = if def.inverse.as_str().is_empty() {
        String::from_str("")
    } else {
        text::cat3(", inverse = \"", def.inverse.as_str(), "\"")
    };
    text::cat6(
        text::pad(name, width).as_str(),
        " = { kind = \"",
        def.kind.as_str(),
        "\"",
        inverse.as_str(),
        " }",
    )
}

fn render_relationships(relationships: &RelationshipConfig) -> (r: String)
    ensures
        r@ == relationships_toml(relationships.types@),
{
    let types = &relationships.types;
    let n = types.len();
    let ghost names = types.keys_view();
    let mut width: usize = 0;
    let mut i: usize = 0;
    assert(names.take(0) =~= Seq::empty());
    while i < n
        invariant
            i <= n,
            n == names.len(),
            names == types.keys_view(),
            width == widest(names.take(i as int)),
        decreases n - i,
    {
        let ghost longer = names.take(i as int + 1);
        assert(longer.drop_last() =~= names.take(i as int));
        let size: usize = types.key_at(i).as_str().as_bytes().len();
        assert(longer.last() == names[i as int]);
        if size > width {
            width = size;
        }
        i += 1;
    }
    assert(names.take(n as int) =~= names);
    let mut lines: Vec<String> = Vec::new();
    let mut j: usize = 0;
    while j < n
        invariant
            j <= n,
            n == names.len(),
            names == types.keys_view(),
            width == widest(names),
            lines.len() == j,
            forall|k: int|
                0 <= k < j ==> #[trigger] lines@[k]@ == relationship_line(
                    types@,
                    names[k],
                    width as nat,
                ),
        decreases n - j,
    {
        lines.push(
            relationship_text(types.value_at(j), types.key_at(j).as_str(), width, Ghost(types@)),
        );
        j += 1;
    }
    assert(lines.deep_view() =~= names.map_values(
        |k: Seq<char>| relationship_line(types@, k, widest(names)),
    ));
    text::cat2("[relationships]\n", text::join(&lines, "\n").as_str())
}

/// The pieces of the configuration file for `cfg`.
pub open spec fn toml_parts(cfg: Config) -> Seq<Seq<char>> {
    seq![
        BEFORE_MIN_KEEP@,
        text::decimal(MIN_KEEP_EVENTS as nat),
        BEFORE_KEEP_EVENTS@,
        text::decimal(cfg.compaction.keep_events as nat),
        BEFORE_KEEP_DAYS@,
        text::decimal(cfg.compaction.keep_days as nat),
        BEFORE_STATUS_FIELD@,
        cfg.workflow.status_field@,
        BEFORE_DONE_STATUS@,
        cfg.workflow.done_status@,
        BEFORE_DEFAULT_STATUS@,
        cfg.workflow.default_status@,
        BEFORE_TYPE_FIELD@,
        cfg.workflow.type_field@,
        BEFORE_WARN_NONCONFORMING@,
        flag(cfg.workflow.warn_nonconforming),
        BEFORE_UNTYPED_TASKS@,
        cfg.workflow.untyped_tasks.name(),
        BEFORE_ON_CONFLICT@,
        cfg.merge.on_conflict.name(),
        BEFORE_COLUMNS@,
        columns_toml(cfg.display.columns.deep_view()),
        BEFORE_MAX_WIDTH@,
        text::decimal(cfg.display.max_width as nat),
        BEFORE_SORT@,
        cfg.display.sort@,
        BEFORE_LIST_LAYOUT@,
        cfg.display.list_layout.name(),
        BEFORE_SHOW_LAYOUT@,
        cfg.display.show_layout.name(),
        BEFORE_COLUMN_MAX_WIDTH@,
        widths_toml(cfg.display.column_max_width@),
        BEFORE_CREATE_TIME@,
        cfg.timestamps.create_time@,
        BEFORE_UPDATE_TIME@,
        cfg.timestamps.update_time@,
        BEFORE_CLOSE_TIME@,
        cfg.timestamps.close_time@,
        BEFORE_RELATIONSHIPS_TOML@,
        relationships_toml(cfg.relationships.types@),
        BEFORE_DONE_STATUS_2@,
        cfg.workflow.done_status@,
        BEFORE_DONE_STATUS_3@,
        cfg.workflow.done_status@,
        BEFORE_DONE_STATUS_4@,
        cfg.workflow.done_status@,
        AT_THE_END@,
    ]
}

/// The configuration file for `cfg`: its values within explanations.
pub open spec fn toml_text(cfg: Config) -> Seq<char> {
    text::joined(toml_parts(cfg), ""@)
}

/// Writes the configuration file for `cfg`.
pub fn render_toml(cfg: &Config) -> (r: String)
    ensures
        r@ == toml_text(*cfg),
{
    let mut parts: Vec<String> = Vec::new();
    parts.push(String::from_str(BEFORE_MIN_KEEP));
    parts.push(text::decimal_text(MIN_KEEP_EVENTS as u64));
    parts.push(String::from_str(BEFORE_KEEP_EVENTS));
    parts.push(text::decimal_text(cfg.compaction.keep_events as u64));
    parts.push(String::from_str(BEFORE_KEEP_DAYS));
    parts.push(text::decimal_text(cfg.compaction.keep_days));
    parts.push(String::from_str(BEFORE_STATUS_FIELD));
    parts.push(cfg.workflow.status_field.clone());
    parts.push(String::from_str(BEFORE_DONE_STATUS));
    parts.push(cfg.workflow.done_status.clone());
    parts.push(String::from_str(BEFORE_DEFAULT_STATUS));
    parts.push(cfg.workflow.default_status.clone());
    parts.push(String::from_str(BEFORE_TYPE_FIELD));
    parts.push(cfg.workflow.type_field.clone());
    parts.push(String::from_str(BEFORE_WARN_NONCONFORMING));
    parts.push(flag_text(cfg.workflow.warn_nonconforming));
    parts.push(String::from_str(BEFORE_UNTYPED_TASKS));
    parts.push(String::from_str(cfg.workflow.untyped_tasks.as_str()));
    parts.push(String::from_str(BEFORE_ON_CONFLICT));
    parts.push(String::from_str(cfg.merge.on_conflict.as_str()));
    parts.push(String::from_str(BEFORE_COLUMNS));
    parts.push(render_columns(&cfg.display.columns));
    parts.push(String::from_str(BEFORE_MAX_WIDTH));
    parts.push(text::decimal_text(cfg.display.max_width as u64));
    parts.push(String::from_str(BEFORE_SORT));
    parts.push(cfg.display.sort.clone());
    parts.push(String::from_str(BEFORE_LIST_LAYOUT));
    parts.push(String::from_str(cfg.display.list_layout.as_str()));
    parts.push(String::from_str(BEFORE_SHOW_LAYOUT));
    parts.push(String::from_str(cfg.display.show_layout.as_str()));
    parts.push(String::from_str(BEFORE_COLUMN_MAX_WIDTH));
    parts.push(render_column_widths(&cfg.display.column_max_width));
    parts.push(String::from_str(BEFORE_CREATE_TIME));
    parts.push(cfg.timestamps.create_time.clone());
    parts.push(String::from_str(BEFORE_UPDATE_TIME));
    parts.push(cfg.timestamps.update_time.clone());
    parts.push(String::from_str(BEFORE_CLOSE_TIME));
    parts.push(cfg.timestamps.close_time.clone());
    parts.push(String::from_str(BEFORE_RELATIONSHIPS_TOML));
    parts.push(render_relationships(&cfg.relationships));
    parts.push(String::from_str(BEFORE_DONE_STATUS_2));
    parts.push(cfg.workflow.done_status.clone());
    parts.push(String::from_str(BEFORE_DONE_STATUS_3));
    parts.push(cfg.workflow.done_status.clone());
    parts.push(String::from_str(BEFORE_DONE_STATUS_4));
    parts.push(cfg.workflow.done_status.clone());
    parts.push(String::from_str(AT_THE_END));
    assert(parts.deep_view() =~= toml_parts(*cfg));
    text::join(&parts, "")
}

/// The configuration file of a new store: the defaults, explained.
pub fn default_toml() -> (r: String)
    ensures
        exists|cfg: Config|
            r@ == #[trigger] toml_text(cfg) && call_ensures(Config::default, (), cfg),
{
    let cfg = Config::default();
    render_toml(&cfg)
}

proof fn lemma_spliced(parts: Seq<Seq<char>>, k: int)
    requires
        0 <= k,
        k + 2 < parts.len(),
    ensures
        exists|a: Seq<char>, b: Seq<char>|
            #![trigger a + parts[k] + parts[k + 1] + parts[k + 2] + b]
            text::joined(parts, ""@) == a + parts[k] + parts[k + 1] + parts[k + 2] + b,
    decreases parts.len(),
{
    reveal_strlit("");
    let front = parts.drop_last();
    let last = parts.last();
    let all = text::joined(parts, ""@);
    let some = text::joined(front, ""@);
    assert(all =~= some + last);
    if k + 2 < front.len() {
        lemma_spliced(front, k);
        let (a, b) = choose|a: Seq<char>, b: Seq<char>|
            #![trigger a + front[k] + front[k + 1] + front[k + 2] + b]
            some == a + front[k] + front[k + 1] + front[k + 2] + b;
        assert(all =~= a + parts[k] + parts[k + 1] + parts[k + 2] + (b + last));
    } else {
        let less = front.drop_last();
        let least = less.drop_last();
        assert(some =~= text::joined(less, ""@) + parts[k + 1]);
        assert(less.last() == parts[k]);
        if least.len() == 0 {
            assert(less =~= seq![parts[k]]);
            assert(text::joined(less, ""@) =~= parts[k]);
            let none = Seq::<char>::empty();
            assert(all =~= none + parts[k] + parts[k + 1] + parts[k + 2] + none);
        } else {
            let none = Seq::<char>::empty();
            let a = text::joined(least, ""@);
            assert(text::joined(less, ""@) =~= a + parts[k]);
            assert(all =~= a + parts[k] + parts[k + 1] + parts[k + 2] + none);
        }
    }
}

/// Whether a setting stands in a file: its value between these texts.
pub open spec fn stands_between(
    t: Seq<char>,
    before: Seq<char>,
    value: Seq<char>,
    after: Seq<char>,
) -> bool {
    exists|a: Seq<char>, b: Seq<char>|
        #![trigger a + before + value + after + b]
        t == a + before + value + after + b
}

/// The file of a configuration holds its settings, each after the text that names
/// it.
pub proof fn files_hold_the_settings(cfg: Config)
    ensures
        ({
            let t = toml_text(cfg);
            let w = cfg.workflow;
            let d = cfg.display;
            let ts = cfg.timestamps;
            let number = |n: int| text::decimal(n as nat);
            &&& stands_between(
                t,
                BEFORE_KEEP_EVENTS@,
                number(cfg.compaction.keep_events as int),
                BEFORE_KEEP_DAYS@,
            )
            &&& stands_between(
                t,
                BEFORE_KEEP_DAYS@,
                number(cfg.compaction.keep_days as int),
                BEFORE_STATUS_FIELD@,
            )
            &&& stands_between(t, BEFORE_STATUS_FIELD@, w.status_field@, BEFORE_DONE_STATUS@)
            &&& stands_between(t, BEFORE_DONE_STATUS@, w.done_status@, BEFORE_DEFAULT_STATUS@)
            &&& stands_between(t, BEFORE_DEFAULT_STATUS@, w.default_status@, BEFORE_TYPE_FIELD@)
            &&& stands_between(t, BEFORE_TYPE_FIELD@, w.type_field@, BEFORE_WARN_NONCONFORMING@)
            &&& w.warn_nonconforming ==> stands_between(
                t,
                BEFORE_WARN_NONCONFORMING@,
                "true"@,
                BEFORE_UNTYPED_TASKS@,
            )
            &&& !w.warn_nonconforming ==> stands_between(
                t,
                BEFORE_WARN_NONCONFORMING@,
                "false"@,
                BEFORE_UNTYPED_TASKS@,
            )
            &&& stands_between(t, BEFORE_MAX_WIDTH@, number(d.max_width as int), BEFORE_SORT@)
            &&& stands_between(t, BEFORE_SORT@, d.sort@, BEFORE_LIST_LAYOUT@)
            &&& stands_between(t, BEFORE_CREATE_TIME@, ts.create_time@, BEFORE_UPDATE_TIME@)
            &&& stands_between(t, BEFORE_UPDATE_TIME@, ts.update_time@, BEFORE_CLOSE_TIME@)
            &&& stands_between(t, BEFORE_CLOSE_TIME@, ts.close_time@, BEFORE_RELATIONSHIPS_TOML@)
        }),
{
    let parts = toml_parts(cfg);
    lemma_spliced(parts, 2);
    lemma_spliced(parts, 4);
    lemma_spliced(parts, 6);
    lemma_spliced(parts, 8);
    lemma_spliced(parts, 10);
    lemma_spliced(parts, 12);
    lemma_spliced(parts, 14);
    lemma_spliced(parts, 22);
    lemma_spliced(parts, 24);
    lemma_spliced(parts, 32);
    lemma_spliced(parts, 34);
    lemma_spliced(parts, 36);
}

} // verus!
