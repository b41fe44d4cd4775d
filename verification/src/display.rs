//! How tasks are turned into text: columns, tables, records and JSON lines.
//!
//! The selected columns decide which fields appear; the format decides only
//! how they print, and every format keeps the same column order.

use crate::config::{DisplayConfig, Layout};
use crate::json::{self, Json, JsonV};
use crate::model::{RelsV, TaskState, TaskV, DEPS_KEY, ID_KEY};
use crate::order;
use crate::strmap::{self, Data, StrSet};
use crate::text;
use vstd::prelude::*;

verus! {

/// `s` in an ANSI style, or left alone when styling is off.
pub open spec fn styled(s: Seq<char>, code: Seq<char>, on: bool) -> Seq<char> {
    if on {
        "\x1b["@ + code + "m"@ + s + "\x1b[0m"@
    } else {
        s
    }
}

/// Wraps `text` in an ANSI style when `on`.
pub fn sgr(text: &str, code: &str, on: bool) -> (r: String)
    ensures
        r@ == styled(text@, code@, on),
{
    if on {
        text::cat5("\x1b[", code, "m", text, "\x1b[0m")
    } else {
        String::from_str(text)
    }
}

/// The style of a column's values: ids are cyan, the status green.
pub open spec fn column_code(column: Seq<char>) -> Option<Seq<char>> {
    if column == "id"@ {
        Some("36"@)
    } else if column == "status"@ {
        Some("32"@)
    } else {
        None
    }
}

/// The style of the values of `column`, if it has one.
pub fn column_sgr(column: &str) -> (r: Option<&'static str>)
    ensures
        r.deep_view() == column_code(column@),
{
    if text::same_text(column, "id") {
        Some("36")
    } else if text::same_text(column, "status") {
        Some("32")
    } else {
        None
    }
}

/// Edges that gate readiness are bold, the others dim.
pub open spec fn group_code(gates: bool) -> Seq<char> {
    if gates {
        "1"@
    } else {
        "2"@
    }
}

/// The style of one group of edges.
pub fn group_sgr(gates: bool) -> (r: &'static str)
    ensures
        r@ == group_code(gates),
{
    if gates {
        "1"
    } else {
        "2"
    }
}

/// How rows are printed.
#[derive(Clone, Copy, Debug, PartialEq, Eq, Structural)]
pub enum OutputFormat {
    /// An aligned table, or one record per task.
    Human,
    /// A JSON array.
    Json,
    /// One JSON object per line.
    Jsonl,
}

/// The flags every printing command has.
#[derive(Clone, Copy, Debug, PartialEq, Eq, Structural)]
pub struct OutputArgs {
    pub format: OutputFormat,
    pub no_color: bool,
}

/// The flags of the commands that print rows.
pub struct DisplayArgs {
    pub output: OutputArgs,
    /// Show every field, whole.
    pub full: bool,
    pub columns: Option<Vec<String>>,
    pub sort: Option<String>,
    pub reverse: bool,
    pub layout: Option<Layout>,
}

/// The indented JSON text `serde_json` writes for a value.
pub uninterp spec fn pretty(v: JsonV) -> Seq<char>;

/// `serde_json::to_string_pretty`. The text depends on what the value holds
/// alone; nothing is claimed of the layout. Writing a value to a string does not
/// fail.
#[verifier::external_body]
fn write_pretty(v: &serde_json::Value) -> (r: String)
    ensures
        r@ == pretty(json::json_content(*v)),
{
    serde_json::to_string_pretty(v).unwrap_or_default()
}

/// Writes a value as indented JSON.
pub(crate) fn pretty_text(v: &Json) -> (r: String)
    ensures
        r@ == pretty(v@),
{
    write_pretty(&json::value_of(v))
}

/// The lines printed for a result: the human text, the indented value, or one
/// compact line per item of a list.
pub open spec fn emitted(format: OutputFormat, human: Seq<char>, v: JsonV) -> Seq<Seq<char>> {
    match format {
        OutputFormat::Human => seq![human],
        OutputFormat::Json => seq![pretty(v)],
        OutputFormat::Jsonl => match v {
            JsonV::List(items) => Seq::new(items.len(), |i: int| json::compact(items[i])),
            _ => seq![json::compact(v)],
        },
    }
}

/// The lines to print for `value` in the chosen format.
pub fn emit(out: &OutputArgs, human: &str, value: &Json) -> (r: Vec<String>)
    ensures
        r.deep_view() == emitted(out.format, human@, value@),
{
    let mut lines: Vec<String> = Vec::new();
    match out.format {
        OutputFormat::Human => {
            lines.push(String::from_str(human));
        },
        OutputFormat::Json => {
            lines.push(pretty_text(value));
        },
        OutputFormat::Jsonl => match value {
            Json::List(items) => {
                proof {
                    json::lemma_list_view(*items);
                }
                let mut i: usize = 0;
                while i < items.len()
                    invariant
                        i <= items.len(),
                        lines@.len() == i,
                        forall|k: int|
                            0 <= k < i ==> (#[trigger] lines@[k])@ == json::compact(items@[k]@),
                    decreases items.len() - i,
                {
                    lines.push(json::compact_text(&items[i]));
                    i += 1;
                }
            },
            _ => {
                lines.push(json::compact_text(value));
            },
        },
    }
    assert(lines.deep_view() =~= emitted(out.format, human@, value@));
    lines
}

/// The edge groups of a task in the order of the relationship types: each
/// type with the text `type: target, target`.
pub open spec fn groups(rels: RelsV) -> Seq<(Seq<char>, Seq<char>)> {
    let keys = strmap::sorted_of(rels.dom());
    Seq::new(
        keys.len(),
        |i: int| (keys[i], keys[i] + ": "@ + text::joined(rels[keys[i]], ", "@)),
    )
}

/// The edge groups of `task`.
pub fn deps_groups(task: &TaskState) -> (r: Vec<(String, String)>)
    ensures
        r.deep_view() == groups(task@.relationships),
{
    let rels = &task.relationships;
    let n = rels.len();
    let mut out: Vec<(String, String)> = Vec::new();
    let mut i: usize = 0;
    while i < n
        invariant
            i <= n,
            n == rels.keys_view().len(),
            rels.keys_view() == strmap::sorted_of(rels@.dom()),
            out@.len() == i,
            forall|k: int|
                0 <= k < i ==> (#[trigger] out@[k]).deep_view() == groups(rels@)[k],
        decreases n - i,
    {
        let rel = rels.key_at(i);
        let targets = text::join(rels.value_at(i), ", ");
        let line = text::cat3(rel.as_str(), ": ", targets.as_str());
        out.push((rel.clone(), line));
        i += 1;
    }
    assert(out.deep_view() =~= groups(rels@));
    out
}

/// The plain texts of edge groups.
pub open spec fn group_texts(g: Seq<(Seq<char>, Seq<char>)>) -> Seq<Seq<char>> {
    Seq::new(g.len(), |i: int| g[i].1)
}

/// The texts of edge groups, each styled by whether its type gates.
pub open spec fn styled_groups(
    g: Seq<(Seq<char>, Seq<char>)>,
    gating: Set<Seq<char>>,
    color: bool,
) -> Seq<Seq<char>> {
    Seq::new(g.len(), |i: int| styled(g[i].1, group_code(gating.contains(g[i].0)), color))
}

fn texts_of(g: &Vec<(String, String)>) -> (r: Vec<String>)
    ensures
        r.deep_view() == group_texts(g.deep_view()),
{
    let mut out: Vec<String> = Vec::new();
    let mut i: usize = 0;
    while i < g.len()
        invariant
            i <= g.len(),
            out@.len() == i,
            forall|k: int| 0 <= k < i ==> (#[trigger] out@[k])@ == g@[k].1@,
        decreases g.len() - i,
    {
        out.push(g[i].1.clone());
        i += 1;
    }
    assert(out.deep_view() =~= group_texts(g.deep_view()));
    out
}

fn style_groups(g: &Vec<(String, String)>, blockers: &StrSet, color: bool) -> (r: Vec<String>)
    ensures
        r.deep_view() == styled_groups(g.deep_view(), blockers@, color),
{
    let mut out: Vec<String> = Vec::new();
    let mut i: usize = 0;
    while i < g.len()
        invariant
            i <= g.len(),
            out@.len() == i,
            forall|k: int|
                0 <= k < i ==> (#[trigger] out@[k])@ == styled(
                    g@[k].1@,
                    group_code(blockers@.contains(g@[k].0@)),
                    color,
                ),
        decreases g.len() - i,
    {
        let code = group_sgr(blockers.contains(g[i].0.as_str()));
        out.push(sgr(g[i].1.as_str(), code, color));
        i += 1;
    }
    assert(out.deep_view() =~= styled_groups(g.deep_view(), blockers@, color));
    out
}

/// Groups from the `i`th on, written after `cell` while `budget` characters
/// last: the group that crosses the budget is cut and the rest dropped.
pub open spec fn spent(
    g: Seq<(Seq<char>, Seq<char>)>,
    gating: Set<Seq<char>>,
    color: bool,
    budget: int,
    i: int,
    used: int,
    cell: Seq<char>,
) -> (Seq<char>, int)
    decreases g.len() - i,
{
    let gap: int = if i == 0 { 0 } else { 2 };
    if i >= g.len() || used + gap >= budget {
        (cell, used)
    } else {
        let before = if i == 0 { cell } else { cell + "; "@ };
        let room = budget - used - gap;
        let line = g[i].1;
        let piece = if line.len() <= room { line } else { line.take(room) };
        let after = before + styled(piece, group_code(gating.contains(g[i].0)), color);
        if line.len() <= room {
            spent(g, gating, color, budget, i + 1, used + gap + piece.len(), after)
        } else {
            (after, used + gap + piece.len())
        }
    }
}

/// The table cell of a task's edges with its visible width: all groups joined
/// when they fit `cap` (0 is no limit), else cut to `cap - 1` characters and an
/// ellipsis. The cut counts visible characters only.
pub open spec fn deps_text(
    rels: RelsV,
    gating: Set<Seq<char>>,
    cap: nat,
    color: bool,
) -> (Seq<char>, int) {
    let g = groups(rels);
    let total = text::joined(group_texts(g), "; "@).len();
    if cap == 0 || total <= cap {
        (text::joined(styled_groups(g, gating, color), "; "@), total as int)
    } else {
        let (cell, used) = spent(g, gating, color, cap - 1, 0, 0, Seq::empty());
        (cell.push('\u{2026}'), used + 1)
    }
}

/// The table cell of the edges of `task`, and its visible width.
pub fn deps_cell(task: &TaskState, blockers: &StrSet, cap: usize, color: bool) -> (r: (
    String,
    usize,
))
    ensures
        (r.0@, r.1 as int) == deps_text(task@.relationships, blockers@, cap as nat, color),
{
    let list = deps_groups(task);
    let ghost g = groups(task@.relationships);
    let total = text::chars_of(text::join(&texts_of(&list), "; ").as_str()).len();
    if cap == 0 || total <= cap {
        return (text::join(&style_groups(&list, blockers, color), "; "), total);
    }
    let budget: usize = cap - 1;
    let mut used: usize = 0;
    let mut cell = String::new();
    let mut i: usize = 0;
    let mut open = true;
    assert(cell@ =~= Seq::<char>::empty());
    while open && i < list.len()
        invariant
            i <= list.len(),
            g == list.deep_view(),
            budget < usize::MAX,
            used <= budget,
            open ==> spent(g, blockers@, color, budget as int, 0, 0, Seq::empty()) == spent(
                g,
                blockers@,
                color,
                budget as int,
                i as int,
                used as int,
                cell@,
            ),
            !open ==> spent(g, blockers@, color, budget as int, 0, 0, Seq::empty()) == (
                cell@,
                used as int,
            ),
        decreases list.len() - i, if open { 1int } else { 0 },
    {
        let gap: usize = if i == 0 { 0 } else { 2 };
        if budget - used <= gap {
            open = false;
        } else {
            if i > 0 {
                cell.append("; ");
            }
            let line = text::chars_of(list[i].1.as_str());
            let room: usize = budget - used - gap;
            let len = if line.len() <= room { line.len() } else { room };
            let piece = text::text_of(&line, 0, len);
            proof {
                assert(line@.subrange(0, len as int) =~= if line@.len() <= room { line@ } else {
                    line@.take(room as int)
                });
                assert(g[i as int].1 == line@);
            }
            let code = group_sgr(blockers.contains(list[i].0.as_str()));
            cell.append(sgr(piece.as_str(), code, color).as_str());
            used = used + gap + len;
            if len < line.len() {
                open = false;
            } else {
                i += 1;
            }
        }
    }
    cell.push('\u{2026}');
    (cell, used + 1)
}

/// A value as one line of text: a string is bare, a list is joined by `, `,
/// anything else is compact JSON.
pub open spec fn shown(v: JsonV) -> Seq<char>
    decreases v, 1nat, 0nat,
{
    match v {
        JsonV::Str(s) => s,
        JsonV::List(items) => shown_items(items, items.len()),
        _ => json::compact(v),
    }
}

/// The first `n` items of a list, joined by `, `.
pub open spec fn shown_items(items: Seq<JsonV>, n: nat) -> Seq<char>
    decreases items, 0nat, n,
{
    if n == 0 || n > items.len() {
        Seq::empty()
    } else if n == 1 {
        shown(items[0])
    } else {
        shown_items(items, (n - 1) as nat) + ", "@ + shown(items[n - 1])
    }
}

/// `value` as one line of text.
pub fn human_display(value: &Json) -> (r: String)
    ensures
        r@ == shown(value@),
    decreases value@,
{
    match value {
        Json::Str(s) => s.clone(),
        Json::List(items) => {
            let mut out = String::new();
            let ghost all = value@->List_0;
            let mut i: usize = 0;
            assert(out@ =~= Seq::<char>::empty());
            while i < items.len()
                invariant
                    i <= items.len(),
                    *value == Json::List(*items),
                    all == value@->List_0,
                    all.len() == items.len(),
                    out@ == shown_items(all, i as nat),
                decreases items.len() - i,
            {
                assert(all[i as int] == items@[i as int]@);
                assert(decreases_to!(all => all[i as int]));
                let next = human_display(&items[i]);
                if i > 0 {
                    out.append(", ");
                }
                out.append(next.as_str());
                assert(i == 0 ==> out@ =~= next@);
                i += 1;
            }
            out
        },
        _ => json::compact_text(value),
    }
}

/// The text of a column of a task: the edge groups joined by `; `, or the value
/// as one line; empty when the task lacks the column.
pub open spec fn cell_text(t: TaskV, column: Seq<char>) -> Seq<char> {
    if column == DEPS_KEY@ {
        text::joined(group_texts(groups(t.relationships)), "; "@)
    } else {
        match order::cell(t, column) {
            Some(v) => shown(v),
            None => Seq::empty(),
        }
    }
}

/// The text of `col` of `task`.
pub fn human_cell(task: &TaskState, col: &str) -> (r: String)
    ensures
        r@ == cell_text(task@, col@),
{
    if text::same_text(col, DEPS_KEY) {
        return text::join(&texts_of(&deps_groups(task)), "; ");
    }
    match order::cell_value(task, col) {
        Some(v) => human_display(&v),
        None => {
            let r = String::new();
            assert(r@ =~= Seq::<char>::empty());
            r
        },
    }
}

/// `s` cut to `max` characters, the last an ellipsis, when it is longer; 0 is
/// no limit.
pub open spec fn truncated(s: Seq<char>, max: nat) -> Seq<char> {
    if max == 0 || s.len() <= max {
        s
    } else {
        s.take(max - 1).push('\u{2026}')
    }
}

/// Cuts `s` to `max_width` characters.
pub fn truncate(s: &str, max_width: usize) -> (r: String)
    ensures
        r@ == truncated(s@, max_width as nat),
{
    let chars = text::chars_of(s);
    if max_width == 0 || chars.len() <= max_width {
        return String::from_str(s);
    }
    let mut out = text::text_of(&chars, 0, max_width - 1);
    out.push('\u{2026}');
    assert(out@ =~= truncated(s@, max_width as nat));
    out
}

/// The columns of `columns` that are in `keep`, in order.
pub open spec fn only(columns: Seq<Seq<char>>, keep: Set<Seq<char>>) -> Seq<Seq<char>>
    decreases columns.len(),
{
    if columns.len() == 0 {
        Seq::empty()
    } else {
        let rest = only(columns.drop_last(), keep);
        if keep.contains(columns.last()) {
            rest.push(columns.last())
        } else {
            rest
        }
    }
}

/// Every field some task of the view has, and the two built-in columns.
pub open spec fn present(tasks: Seq<TaskV>) -> Set<Seq<char>>
    decreases tasks.len(),
{
    if tasks.len() == 0 {
        set!["id"@, "deps"@]
    } else {
        present(tasks.drop_last()).union(tasks.last().custom_fields.dom())
    }
}

/// The columns of a view of all fields: the configured ones that are present,
/// in their order, then every other present one by name.
pub open spec fn all_columns(tasks: Seq<TaskV>, configured: Seq<Seq<char>>) -> Seq<Seq<char>> {
    let there = present(tasks);
    let front = only(configured, there);
    front + only(strmap::sorted_of(there), front.to_set().complement())
}

/// Adds the names of the fields of `task`.
pub fn add_keys(set: &mut StrSet, task: &TaskState)
    ensures
        final(set)@ == old(set)@.union(task@.custom_fields.dom()),
{
    let fields = &task.custom_fields;
    let n = fields.len();
    let ghost keys = fields.keys_view();
    let ghost before = set@;
    let mut i: usize = 0;
    assert(set@ =~= before.union(keys.take(0).to_set()));
    while i < n
        invariant
            i <= n,
            n == keys.len(),
            keys == fields.keys_view(),
            set@ == before.union(keys.take(i as int).to_set()),
        decreases n - i,
    {
        set.insert(fields.key_at(i).clone());
        proof {
            let shorter = keys.take(i as int);
            let longer = keys.take(i as int + 1);
            assert forall|k: Seq<char>| #[trigger]
                before.union(longer.to_set()).contains(k) <==> set@.contains(k) by {
                strmap::lemma_take_one_more(keys, i as int, k);
            }
            assert(set@ =~= before.union(longer.to_set()));
        }
        i += 1;
    }
    assert(keys.take(n as int) =~= keys);
}

/// The columns of a view of all the fields of `tasks`.
pub fn full_columns(tasks: &Vec<TaskState>, cfg: &DisplayConfig) -> (r: Vec<String>)
    ensures
        r.deep_view() == all_columns(tasks.deep_view(), cfg.columns.deep_view()),
{
    let ghost all = tasks.deep_view();
    let mut there = StrSet::new();
    there.insert(String::from_str("id"));
    there.insert(String::from_str("deps"));
    assert(there@ =~= set!["id"@, "deps"@]);
    assert(all.take(0) =~= Seq::empty());
    let mut i: usize = 0;
    while i < tasks.len()
        invariant
            i <= tasks.len(),
            all == tasks.deep_view(),
            there@ == present(all.take(i as int)),
        decreases tasks.len() - i,
    {
        let ghost longer = all.take(i as int + 1);
        assert(longer.drop_last() =~= all.take(i as int));
        assert(longer.last() == tasks@[i as int]@);
        add_keys(&mut there, &tasks[i]);
        i += 1;
    }
    assert(all.take(all.len() as int) =~= all);
    let ghost configured = cfg.columns.deep_view();
    let mut out: Vec<String> = Vec::new();
    let mut listed = StrSet::new();
    let mut j: usize = 0;
    assert(configured.take(0) =~= Seq::empty());
    assert(out.deep_view() =~= Seq::empty());
    assert(listed@ =~= out.deep_view().to_set());
    while j < cfg.columns.len()
        invariant
            j <= cfg.columns.len(),
            configured == cfg.columns.deep_view(),
            out.deep_view() == only(configured.take(j as int), there@),
            listed@ == out.deep_view().to_set(),
        decreases cfg.columns.len() - j,
    {
        let ghost longer = configured.take(j as int + 1);
        assert(longer.drop_last() =~= configured.take(j as int));
        let c = &cfg.columns[j];
        assert(longer.last() == c@);
        if there.contains(c.as_str()) {
            let ghost had = out.deep_view();
            listed.insert(c.clone());
            out.push(c.clone());
            assert(out.deep_view() =~= had.push(c@));
            assert(had.push(c@).to_set() =~= had.to_set().insert(c@)) by {
                assert forall|k: Seq<char>|
                    #[trigger] had.push(c@).contains(k) <==> had.contains(k) || k == c@ by {
                    strmap::lemma_contains_last(had.push(c@), k);
                    assert(had.push(c@).drop_last() =~= had);
                }
            }
        }
        j += 1;
    }
    assert(configured.take(configured.len() as int) =~= configured);
    let ghost front = out.deep_view();
    let n = there.len();
    let ghost names = there.members();
    let ghost rest = front.to_set().complement();
    let mut k: usize = 0;
    assert(names.take(0) =~= Seq::empty());
    assert(out.deep_view() =~= front + only(names.take(0), rest));
    while k < n
        invariant
            k <= n,
            n == names.len(),
            names == there.members(),
            listed@ == front.to_set(),
            rest == front.to_set().complement(),
            out.deep_view() == front + only(names.take(k as int), rest),
        decreases n - k,
    {
        let ghost longer = names.take(k as int + 1);
        assert(longer.drop_last() =~= names.take(k as int));
        let name = there.at(k);
        assert(longer.last() == name@);
        if !listed.contains(name.as_str()) {
            let ghost had = out.deep_view();
            out.push(name.clone());
            assert(out.deep_view() =~= had.push(name@));
            assert(out.deep_view() =~= front + only(longer, rest));
        }
        k += 1;
    }
    assert(names.take(n as int) =~= names);
    out
}

/// The width each column is cut to: none in a full view, else the column's own
/// width, else the general one.
pub open spec fn cap_of(
    column: Seq<char>,
    full: bool,
    widths: Map<Seq<char>, usize>,
    general: usize,
) -> usize {
    if full {
        0
    } else if widths.contains_key(column) {
        widths[column]
    } else {
        general
    }
}

/// The cut of each of `columns`.
pub open spec fn caps(columns: Seq<Seq<char>>, full: bool, cfg: DisplayConfig) -> Seq<usize> {
    Seq::new(columns.len(), |i: int| cap_of(columns[i], full, cfg.column_max_width@, cfg.max_width))
}

/// The width each of `columns` is cut to.
pub fn truncation_caps(
    columns: &Vec<String>,
    display: &DisplayArgs,
    cfg: &DisplayConfig,
) -> (r: Vec<
    usize,
>)
    ensures
        r@ == caps(columns.deep_view(), display.full, *cfg),
{
    let mut out: Vec<usize> = Vec::new();
    let mut i: usize = 0;
    while i < columns.len()
        invariant
            i <= columns.len(),
            out@.len() == i,
            forall|k: int|
                0 <= k < i ==> #[trigger] out@[k] == cap_of(
                    columns@[k]@,
                    display.full,
                    cfg.column_max_width@,
                    cfg.max_width,
                ),
        decreases columns.len() - i,
    {
        let cap: usize = if display.full {
            0
        } else {
            match cfg.column_max_width.get(columns[i].as_str()) {
                Some(w) => *w,
                None => cfg.max_width,
            }
        };
        out.push(cap);
        i += 1;
    }
    assert(out@ =~= caps(columns.deep_view(), display.full, *cfg));
    out
}

/// The column rows are sorted by.
pub open spec fn sort_key(display: DisplayArgs, cfg: DisplayConfig) -> Seq<char> {
    match display.sort {
        Some(s) => s@,
        None => cfg.sort@,
    }
}

/// The columns a view refers to: the sort key, then the chosen columns, else
/// (unless all fields are shown) the configured ones.
pub open spec fn referred(display: DisplayArgs, cfg: DisplayConfig) -> Seq<Seq<char>> {
    seq![sort_key(display, cfg)] + match display.columns {
        Some(c) => c.deep_view(),
        None => if display.full {
            Seq::empty()
        } else {
            cfg.columns.deep_view()
        },
    }
}

/// The columns the view refers to.
pub fn referenced_columns(display: &DisplayArgs, cfg: &DisplayConfig) -> (r: Vec<String>)
    ensures
        r.deep_view() == referred(*display, *cfg),
{
    let mut refs: Vec<String> = Vec::new();
    match &display.sort {
        Some(s) => refs.push(s.clone()),
        None => refs.push(cfg.sort.clone()),
    }
    assert(refs.deep_view() =~= seq![sort_key(*display, *cfg)]);
    match &display.columns {
        Some(cols) => text::extend(&mut refs, cols.copy()),
        None => if !display.full {
            text::extend(&mut refs, cfg.columns.copy());
        } else {
            assert(refs.deep_view() =~= referred(*display, *cfg));
        },
    }
    refs
}

/// The columns shown: all of them, else the chosen, else the configured ones.
pub open spec fn resolved(display: DisplayArgs, cfg: DisplayConfig, tasks: Seq<TaskV>) -> Seq<
    Seq<char>,
> {
    if display.full {
        all_columns(tasks, cfg.columns.deep_view())
    } else {
        match display.columns {
            Some(c) => c.deep_view(),
            None => cfg.columns.deep_view(),
        }
    }
}

/// The columns to show.
pub fn resolve_columns(
    display: &DisplayArgs,
    cfg: &DisplayConfig,
    tasks: &Vec<TaskState>,
) -> (r: Vec<
    String,
>)
    ensures
        r.deep_view() == resolved(*display, *cfg, tasks.deep_view()),
{
    if display.full {
        full_columns(tasks, cfg)
    } else {
        match &display.columns {
            Some(cols) => cols.copy(),
            None => cfg.columns.copy(),
        }
    }
}

/// The upper-case form of `s` by the Unicode case mappings.
pub uninterp spec fn uppercase(s: Seq<char>) -> Seq<char>;

/// `str::to_uppercase`: what it returns depends on the text alone. The mapping
/// itself is not stated.
#[verifier::external_body]
fn upper(s: &str) -> (r: String)
    ensures
        r@ == uppercase(s@),
{
    s.to_uppercase()
}

/// A cell and its visible width.
pub type CellV = (Seq<char>, int);

/// The cell of `column` in the row of `t`.
pub open spec fn row_cell(
    t: TaskV,
    column: Seq<char>,
    cap: nat,
    gating: Set<Seq<char>>,
    color: bool,
) -> CellV {
    if column == DEPS_KEY@ {
        deps_text(t.relationships, gating, cap, color)
    } else {
        let cut = truncated(cell_text(t, column), cap);
        (cut, cut.len() as int)
    }
}

/// The cells of the row of `t`.
pub open spec fn row_cells(
    t: TaskV,
    columns: Seq<Seq<char>>,
    cuts: Seq<usize>,
    gating: Set<Seq<char>>,
    color: bool,
) -> Seq<CellV> {
    Seq::new(columns.len(), |i: int| row_cell(t, columns[i], cuts[i] as nat, gating, color))
}

/// The cells of the header row.
pub open spec fn header_cells(columns: Seq<Seq<char>>) -> Seq<CellV> {
    Seq::new(
        columns.len(),
        |i: int| (uppercase(columns[i]), uppercase(columns[i]).len() as int),
    )
}

/// The width of the widest `i`th cell of `rows`.
pub open spec fn widest(rows: Seq<Seq<CellV>>, i: int) -> int
    decreases rows.len(),
{
    if rows.len() == 0 {
        0
    } else {
        let rest = widest(rows.drop_last(), i);
        let here = rows.last()[i].1;
        if here > rest {
            here
        } else {
            rest
        }
    }
}

/// A cell filled up with blanks to `width`, in `code`'s style.
pub open spec fn filled(c: CellV, width: int, code: Option<Seq<char>>, color: bool) -> Seq<char> {
    let wide = c.0 + text::blanks((if width > c.1 { width - c.1 } else { 0 }) as nat);
    match code {
        Some(code) => styled(wide, code, color),
        None => wide,
    }
}

/// One line of a table: the filled cells two blanks apart, with no blanks at
/// the end.
pub open spec fn row_line(
    cells: Seq<CellV>,
    widths: Seq<int>,
    codes: Seq<Option<Seq<char>>>,
    color: bool,
) -> Seq<char> {
    text::trimmed_end(
        text::joined(
            Seq::new(cells.len(), |i: int| filled(cells[i], widths[i], codes[i], color)),
            "  "@,
        ),
    )
}

/// The model of a row of cells.
pub open spec fn cells_view(cells: Seq<(String, usize)>) -> Seq<CellV> {
    Seq::new(cells.len(), |i: int| (cells[i].0@, cells[i].1 as int))
}

/// One line of a table.
pub fn emit_row(
    cells: &Vec<(String, usize)>,
    widths: &Vec<usize>,
    color: bool,
    codes: &Vec<Option<&'static str>>,
) -> (r: String)
    requires
        widths.len() == cells.len(),
        codes.len() == cells.len(),
    ensures
        r@ == row_line(
            cells_view(cells@),
            Seq::new(widths@.len(), |i: int| widths@[i] as int),
            codes.deep_view(),
            color,
        ),
{
    let ghost wide = Seq::new(widths@.len(), |i: int| widths@[i] as int);
    let mut out: Vec<String> = Vec::new();
    let mut i: usize = 0;
    while i < cells.len()
        invariant
            i <= cells.len(),
            widths.len() == cells.len(),
            codes.len() == cells.len(),
            wide == Seq::new(widths@.len(), |i: int| widths@[i] as int),
            out@.len() == i,
            forall|k: int|
                0 <= k < i ==> (#[trigger] out@[k])@ == filled(
                    cells_view(cells@)[k],
                    wide[k],
                    codes.deep_view()[k],
                    color,
                ),
        decreases cells.len() - i,
    {
        let cell = &cells[i];
        let gap: usize = if widths[i] > cell.1 { widths[i] - cell.1 } else { 0 };
        let wide_cell = text::cat2(cell.0.as_str(), text::spaces(gap).as_str());
        let code = codes[i];
        assert(code.deep_view() == codes.deep_view()[i as int]);
        let done = match code {
            Some(code) => sgr(wide_cell.as_str(), code, color),
            None => wide_cell,
        };
        out.push(done);
        i += 1;
    }
    assert(out.deep_view() =~= Seq::new(
        cells@.len(),
        |i: int| filled(cells_view(cells@)[i], wide[i], codes.deep_view()[i], color),
    ));
    text::trim_end(text::join(&out, "  ").as_str())
}

/// The rows of a table.
pub open spec fn table_rows(
    tasks: Seq<TaskV>,
    columns: Seq<Seq<char>>,
    cuts: Seq<usize>,
    gating: Set<Seq<char>>,
    color: bool,
) -> Seq<Seq<CellV>> {
    Seq::new(tasks.len(), |i: int| row_cells(tasks[i], columns, cuts, gating, color))
}

/// The widths of the columns of a table: each wide enough for its header and
/// every cell below it.
pub open spec fn table_widths(columns: Seq<Seq<char>>, rows: Seq<Seq<CellV>>) -> Seq<int> {
    Seq::new(
        columns.len(),
        |i: int|
            {
                let head = header_cells(columns)[i].1;
                if widest(rows, i) > head {
                    widest(rows, i)
                } else {
                    head
                }
            },
    )
}

/// An aligned table: a bold header line, then one line per task.
pub open spec fn table(
    tasks: Seq<TaskV>,
    columns: Seq<Seq<char>>,
    cuts: Seq<usize>,
    color: bool,
    gating: Set<Seq<char>>,
) -> Seq<char> {
    let rows = table_rows(tasks, columns, cuts, gating, color);
    let widths = table_widths(columns, rows);
    let bold = Seq::new(columns.len(), |i: int| Some("1"@));
    let codes = Seq::new(columns.len(), |i: int| column_code(columns[i]));
    text::joined(
        seq![row_line(header_cells(columns), widths, bold, color)] + Seq::new(
            rows.len(),
            |i: int| row_line(rows[i], widths, codes, color),
        ),
        "\n"@,
    )
}

fn cells_of(
    task: &TaskState,
    columns: &Vec<String>,
    cuts: &Vec<usize>,
    color: bool,
    blockers: &StrSet,
) -> (r: Vec<(String, usize)>)
    requires
        cuts.len() == columns.len(),
    ensures
        cells_view(r@) == row_cells(task@, columns.deep_view(), cuts@, blockers@, color),
{
    let mut out: Vec<(String, usize)> = Vec::new();
    let mut i: usize = 0;
    while i < columns.len()
        invariant
            i <= columns.len(),
            cuts.len() == columns.len(),
            out@.len() == i,
            forall|k: int|
                0 <= k < i ==> ((#[trigger] out@[k]).0@, out@[k].1 as int) == row_cell(
                    task@,
                    columns@[k]@,
                    cuts@[k] as nat,
                    blockers@,
                    color,
                ),
        decreases columns.len() - i,
    {
        let c = columns[i].as_str();
        if text::same_text(c, DEPS_KEY) {
            out.push(deps_cell(task, blockers, cuts[i], color));
        } else {
            let cell = truncate(human_cell(task, c).as_str(), cuts[i]);
            let w = text::chars_of(cell.as_str()).len();
            out.push((cell, w));
        }
        i += 1;
    }
    assert(cells_view(out@) =~= row_cells(task@, columns.deep_view(), cuts@, blockers@, color));
    out
}

/// The model of the rows of a table.
pub open spec fn rows_view(rows: Seq<Vec<(String, usize)>>) -> Seq<Seq<CellV>> {
    Seq::new(rows.len(), |i: int| cells_view(rows[i]@))
}

fn widest_cell(rows: &Vec<Vec<(String, usize)>>, i: usize, least: usize) -> (r: usize)
    requires
        forall|k: int| 0 <= k < rows.len() ==> i < (#[trigger] rows@[k]).len(),
    ensures
        r == (if widest(rows_view(rows@), i as int) > least {
            widest(rows_view(rows@), i as int)
        } else {
            least as int
        }),
{
    let ghost all = rows_view(rows@);
    let mut most: usize = 0;
    let mut k: usize = 0;
    assert(all.take(0) =~= Seq::empty());
    while k < rows.len()
        invariant
            k <= rows.len(),
            all == rows_view(rows@),
            forall|k: int| 0 <= k < rows.len() ==> i < (#[trigger] rows@[k]).len(),
            most == widest(all.take(k as int), i as int),
        decreases rows.len() - k,
    {
        let ghost longer = all.take(k as int + 1);
        assert(longer.drop_last() =~= all.take(k as int));
        let row = &rows[k];
        assert(longer.last()[i as int].1 == row@[i as int].1);
        if row[i].1 > most {
            most = row[i].1;
        }
        k += 1;
    }
    assert(all.take(all.len() as int) =~= all);
    if most > least {
        most
    } else {
        least
    }
}

/// The aligned table of `tasks`.
pub fn render_human(
    tasks: &Vec<TaskState>,
    columns: &Vec<String>,
    cuts: &Vec<usize>,
    color: bool,
    blockers: &StrSet,
) -> (r: String)
    requires
        cuts.len() == columns.len(),
    ensures
        r@ == table(tasks.deep_view(), columns.deep_view(), cuts@, color, blockers@),
{
    let ghost cols = columns.deep_view();
    let mut headers: Vec<(String, usize)> = Vec::new();
    let mut bold: Vec<Option<&'static str>> = Vec::new();
    let mut codes: Vec<Option<&'static str>> = Vec::new();
    let mut i: usize = 0;
    while i < columns.len()
        invariant
            i <= columns.len(),
            headers@.len() == i,
            bold@.len() == i,
            codes@.len() == i,
            forall|k: int|
                0 <= k < i ==> (#[trigger] headers@[k]).0@ == uppercase(columns@[k]@)
                    && headers@[k].1 == uppercase(columns@[k]@).len(),
            forall|k: int| 0 <= k < i ==> (#[trigger] bold@[k]).deep_view() == Some("1"@),
            forall|k: int|
                0 <= k < i ==> (#[trigger] codes@[k]).deep_view() == column_code(columns@[k]@),
        decreases columns.len() - i,
    {
        let h = upper(columns[i].as_str());
        let w = text::chars_of(h.as_str()).len();
        headers.push((h, w));
        bold.push(Some("1"));
        codes.push(column_sgr(columns[i].as_str()));
        i += 1;
    }
    assert(cells_view(headers@) =~= header_cells(cols));
    assert(bold.deep_view() =~= Seq::new(cols.len(), |i: int| Some("1"@)));
    assert(codes.deep_view() =~= Seq::new(cols.len(), |i: int| column_code(cols[i])));
    let mut rows: Vec<Vec<(String, usize)>> = Vec::new();
    let mut j: usize = 0;
    while j < tasks.len()
        invariant
            j <= tasks.len(),
            cols == columns.deep_view(),
            cuts.len() == columns.len(),
            rows@.len() == j,
            forall|k: int|
                0 <= k < j ==> cells_view((#[trigger] rows@[k])@) == row_cells(
                    tasks@[k]@,
                    cols,
                    cuts@,
                    blockers@,
                    color,
                ),
        decreases tasks.len() - j,
    {
        rows.push(cells_of(&tasks[j], columns, cuts, color, blockers));
        j += 1;
    }
    let ghost all = table_rows(tasks.deep_view(), cols, cuts@, blockers@, color);
    assert(rows_view(rows@) =~= all);
    assert forall|k: int| 0 <= k < rows.len() implies (#[trigger] rows@[k]).len() == cols.len() by {
        assert(cells_view(rows@[k]@).len() == rows@[k]@.len());
    }
    let mut widths: Vec<usize> = Vec::new();
    let mut c: usize = 0;
    while c < columns.len()
        invariant
            c <= columns.len(),
            cols == columns.deep_view(),
            cols.len() == columns.len(),
            headers.len() == columns.len(),
            cells_view(headers@) == header_cells(cols),
            rows_view(rows@) == all,
            forall|k: int| 0 <= k < rows.len() ==> (#[trigger] rows@[k]).len() == cols.len(),
            widths@.len() == c,
            forall|k: int| 0 <= k < c ==> #[trigger] widths@[k] == table_widths(cols, all)[k],
        decreases columns.len() - c,
    {
        assert(header_cells(cols)[c as int].1 == headers@[c as int].1) by {
            assert(cells_view(headers@)[c as int].1 == headers@[c as int].1);
        }
        widths.push(widest_cell(&rows, c, headers[c].1));
        c += 1;
    }
    let ghost wide = Seq::new(widths@.len(), |i: int| widths@[i] as int);
    assert(wide =~= table_widths(cols, all));
    let mut lines: Vec<String> = Vec::new();
    lines.push(emit_row(&headers, &widths, color, &bold));
    let ghost code_texts = codes.deep_view();
    let mut l: usize = 0;
    while l < rows.len()
        invariant
            l <= rows.len(),
            rows_view(rows@) == all,
            forall|k: int| 0 <= k < rows.len() ==> (#[trigger] rows@[k]).len() == cols.len(),
            widths.len() == cols.len(),
            codes.len() == cols.len(),
            code_texts == codes.deep_view(),
            wide == Seq::new(widths@.len(), |i: int| widths@[i] as int),
            lines@.len() == l + 1,
            lines@[0]@ == row_line(header_cells(cols), wide, bold.deep_view(), color),
            forall|k: int|
                1 <= k <= l ==> (#[trigger] lines@[k])@ == row_line(all[k - 1], wide, code_texts, color),
        decreases rows.len() - l,
    {
        assert(all[l as int] == cells_view(rows@[l as int]@)) by {
            assert(rows_view(rows@)[l as int] == cells_view(rows@[l as int]@));
        }
        lines.push(emit_row(&rows[l], &widths, color, &codes));
        l += 1;
    }
    assert(lines.deep_view() =~= seq![
        row_line(header_cells(cols), wide, bold.deep_view(), color),
    ] + Seq::new(all.len(), |i: int| row_line(all[i], wide, code_texts, color)));
    text::join(&lines, "\n")
}

/// The lines of a column's value in a record: one edge group per line, or the
/// value's own lines, the first in the column's style.
pub open spec fn value_lines(
    t: TaskV,
    column: Seq<char>,
    color: bool,
    gating: Set<Seq<char>>,
) -> Seq<Seq<char>> {
    if column == DEPS_KEY@ {
        styled_groups(groups(t.relationships), gating, color)
    } else {
        let parts = text::split_at(cell_text(t, column), '\n');
        match column_code(column) {
            Some(code) => if parts[0].len() > 0 {
                parts.update(0, styled(parts[0], code, color))
            } else {
                parts
            },
            None => parts,
        }
    }
}

/// The byte length of the longest name.
pub open spec fn longest(names: Seq<Seq<char>>) -> nat
    decreases names.len(),
{
    if names.len() == 0 {
        0
    } else {
        let rest = longest(names.drop_last());
        let here = vstd::utf8::encode_utf8(names.last()).len();
        if here > rest {
            here
        } else {
            rest
        }
    }
}

/// The lines of one column of a record: the label and the first line of the
/// value, then its other lines indented.
pub open spec fn column_lines(
    label: Seq<char>,
    parts: Seq<Seq<char>>,
    width: nat,
    color: bool,
) -> Seq<Seq<char>> {
    let first = if parts.len() > 0 { parts[0] } else { Seq::empty() };
    let head = styled(text::padded(label + ":"@, width), "1"@, color) + " "@ + first;
    Seq::new(
        if parts.len() > 0 { parts.len() } else { 1 },
        |i: int|
            text::trimmed_end(
                if i == 0 {
                    head
                } else {
                    text::blanks(width + 1) + parts[i]
                },
            ),
    )
}

/// The lines of the first columns of a record.
pub open spec fn record_lines(
    t: TaskV,
    columns: Seq<Seq<char>>,
    width: nat,
    color: bool,
    gating: Set<Seq<char>>,
) -> Seq<Seq<char>>
    decreases columns.len(),
{
    if columns.len() == 0 {
        Seq::empty()
    } else {
        record_lines(t, columns.drop_last(), width, color, gating) + column_lines(
            columns.last(),
            value_lines(t, columns.last(), color, gating),
            width,
            color,
        )
    }
}

/// A task as a record: a labelled line per column, nothing cut.
pub open spec fn record(
    t: TaskV,
    columns: Seq<Seq<char>>,
    color: bool,
    gating: Set<Seq<char>>,
) -> Seq<char> {
    text::joined(record_lines(t, columns, longest(columns) + 1, color, gating), "\n"@)
}

fn lines_of(task: &TaskState, col: &str, color: bool, blockers: &StrSet) -> (r: Vec<String>)
    ensures
        r.deep_view() == value_lines(task@, col@, color, blockers@),
{
    if text::same_text(col, DEPS_KEY) {
        return style_groups(&deps_groups(task), blockers, color);
    }
    let mut parts = text::split(human_cell(task, col).as_str(), '\n');
    let ghost had = parts.deep_view();
    match column_sgr(col) {
        Some(code) => if !text::is_blank(parts[0].as_str()) {
            let first = sgr(parts[0].as_str(), code, color);
            parts.set(0, first);
            assert(parts.deep_view() =~= had.update(0, first@));
        },
        None => {},
    }
    parts
}

pub fn longest_name(names: &Vec<String>) -> (r: usize)
    ensures
        r == longest(names.deep_view()),
{
    let ghost all = names.deep_view();
    let mut most: usize = 0;
    let mut i: usize = 0;
    assert(all.take(0) =~= Seq::empty());
    while i < names.len()
        invariant
            i <= names.len(),
            all == names.deep_view(),
            most == longest(all.take(i as int)),
        decreases names.len() - i,
    {
        let ghost longer = all.take(i as int + 1);
        assert(longer.drop_last() =~= all.take(i as int));
        let size: usize = names[i].as_str().as_bytes().len();
        assert(longer.last() == names@[i as int]@);
        if size > most {
            most = size;
        }
        i += 1;
    }
    assert(all.take(all.len() as int) =~= all);
    most
}

/// The lines of one column, `width` being one less than the label's.
fn push_column(lines: &mut Vec<String>, label: &str, parts: &Vec<String>, width: usize, color: bool)
    ensures
        final(lines).deep_view() == old(lines).deep_view() + column_lines(
            label@,
            parts.deep_view(),
            width as nat + 1,
            color,
        ),
{
    let ghost had = lines.deep_view();
    let ghost full = column_lines(label@, parts.deep_view(), width as nat + 1, color);
    let named = text::cat2(label, ":");
    let size = text::chars_of(named.as_str()).len();
    let padded = if size <= width {
        text::cat3(named.as_str(), text::spaces(width - size).as_str(), " ")
    } else {
        named
    };
    proof {
        reveal_strlit(" ");
        assert(padded@ =~= text::padded(label@ + ":"@, width as nat + 1));
    }
    let head = sgr(padded.as_str(), "1", color);
    let first = if parts.len() > 0 { parts[0].clone() } else { String::new() };
    proof {
        if parts.len() == 0 {
            assert(first@ =~= Seq::<char>::empty());
        } else {
            assert(parts.deep_view()[0] == first@);
        }
    }
    lines.push(text::trim_end(text::cat3(head.as_str(), " ", first.as_str()).as_str()));
    let indent = text::cat2(text::spaces(width).as_str(), "  ");
    proof {
        reveal_strlit("  ");
        assert(indent@ =~= text::blanks(width as nat + 2));
        assert(lines.deep_view() =~= had.push(full[0]));
        assert(lines.deep_view() =~= had + full.take(1));
    }
    let mut i: usize = 1;
    while i < parts.len()
        invariant
            1 <= i,
            i <= full.len(),
            full.len() == (if parts.len() > 0 { parts.len() as int } else { 1 }),
            indent@ == text::blanks(width as nat + 2),
            full == column_lines(label@, parts.deep_view(), width as nat + 1, color),
            lines.deep_view() == had + full.take(i as int),
        decreases parts.len() - i,
    {
        let ghost before = lines.deep_view();
        lines.push(text::trim_end(text::cat2(indent.as_str(), parts[i].as_str()).as_str()));
        proof {
            assert(parts.deep_view()[i as int] == parts@[i as int]@);
            assert(lines.deep_view() =~= before.push(full[i as int]));
            assert(lines.deep_view() =~= had + full.take(i as int + 1));
        }
        i += 1;
    }
    assert(full.take(full.len() as int) =~= full);
}

/// `task` as a record.
pub fn render_record(task: &TaskState, columns: &Vec<String>, color: bool, blockers: &StrSet) -> (r:
    String)
    ensures
        r@ == record(task@, columns.deep_view(), color, blockers@),
{
    let ghost all = columns.deep_view();
    let width = longest_name(columns);
    let mut lines: Vec<String> = Vec::new();
    let mut i: usize = 0;
    assert(all.take(0) =~= Seq::empty());
    assert(lines.deep_view() =~= Seq::empty());
    while i < columns.len()
        invariant
            i <= columns.len(),
            all == columns.deep_view(),
            lines.deep_view() == record_lines(
                task@,
                all.take(i as int),
                width as nat + 1,
                color,
                blockers@,
            ),
        decreases columns.len() - i,
    {
        let ghost longer = all.take(i as int + 1);
        assert(longer.drop_last() =~= all.take(i as int));
        assert(longer.last() == columns@[i as int]@);
        let parts = lines_of(task, columns[i].as_str(), color, blockers);
        push_column(&mut lines, columns[i].as_str(), &parts, width, color);
        i += 1;
    }
    assert(all.take(all.len() as int) =~= all);
    text::join(&lines, "\n")
}

/// The records of tasks, a blank line between them.
pub open spec fn records(
    tasks: Seq<TaskV>,
    columns: Seq<Seq<char>>,
    color: bool,
    gating: Set<Seq<char>>,
) -> Seq<char> {
    text::joined(
        Seq::new(tasks.len(), |i: int| record(tasks[i], columns, color, gating)),
        "\n\n"@,
    )
}

/// The records of `tasks`.
pub fn render_records(
    tasks: &Vec<TaskState>,
    columns: &Vec<String>,
    color: bool,
    blockers: &StrSet,
) -> (r: String)
    ensures
        r@ == records(tasks.deep_view(), columns.deep_view(), color, blockers@),
{
    let mut out: Vec<String> = Vec::new();
    let mut i: usize = 0;
    while i < tasks.len()
        invariant
            i <= tasks.len(),
            out@.len() == i,
            forall|k: int|
                0 <= k < i ==> (#[trigger] out@[k])@ == record(
                    tasks@[k]@,
                    columns.deep_view(),
                    color,
                    blockers@,
                ),
        decreases tasks.len() - i,
    {
        out.push(render_record(&tasks[i], columns, color, blockers));
        i += 1;
    }
    assert(out.deep_view() =~= Seq::new(
        tasks@.len(),
        |i: int| record(tasks.deep_view()[i], columns.deep_view(), color, blockers@),
    ));
    text::join(&out, "\n\n")
}

/// The `"column":value` pairs of a task; a column it lacks is left out.
pub open spec fn json_pairs(t: TaskV, columns: Seq<Seq<char>>) -> Seq<Seq<char>>
    decreases columns.len(),
{
    if columns.len() == 0 {
        Seq::empty()
    } else {
        let rest = json_pairs(t, columns.drop_last());
        match order::cell(t, columns.last()) {
            Some(v) => rest.push(json::quoted(columns.last()) + ":"@ + json::compact(v)),
            None => rest,
        }
    }
}

/// A task as one compact JSON object over `columns`, in their order.
pub open spec fn object_text(t: TaskV, columns: Seq<Seq<char>>) -> Seq<char> {
    "{"@ + text::joined(json_pairs(t, columns), ","@) + "}"@
}

/// `task` as one JSON object.
pub fn json_object(task: &TaskState, columns: &Vec<String>) -> (r: String)
    ensures
        r@ == object_text(task@, columns.deep_view()),
{
    let ghost all = columns.deep_view();
    let mut pairs: Vec<String> = Vec::new();
    let mut i: usize = 0;
    assert(all.take(0) =~= Seq::empty());
    assert(pairs.deep_view() =~= Seq::empty());
    while i < columns.len()
        invariant
            i <= columns.len(),
            all == columns.deep_view(),
            pairs.deep_view() == json_pairs(task@, all.take(i as int)),
        decreases columns.len() - i,
    {
        let ghost longer = all.take(i as int + 1);
        assert(longer.drop_last() =~= all.take(i as int));
        assert(longer.last() == columns@[i as int]@);
        match order::cell_value(task, columns[i].as_str()) {
            Some(v) => {
                let ghost had = pairs.deep_view();
                let pair = text::cat3(
                    json::quote(columns[i].as_str()).as_str(),
                    ":",
                    json::compact_text(&v).as_str(),
                );
                pairs.push(pair);
                assert(pairs.deep_view() =~= had.push(pair@));
            },
            None => {},
        }
        i += 1;
    }
    assert(all.take(all.len() as int) =~= all);
    text::cat3("{", text::join(&pairs, ",").as_str(), "}")
}

/// The objects of tasks.
pub open spec fn object_texts(tasks: Seq<TaskV>, columns: Seq<Seq<char>>) -> Seq<Seq<char>> {
    Seq::new(tasks.len(), |i: int| object_text(tasks[i], columns))
}

/// A JSON array with one indented object per line.
pub open spec fn json_rows(tasks: Seq<TaskV>, columns: Seq<Seq<char>>) -> Seq<char> {
    if tasks.len() == 0 {
        "[]"@
    } else {
        "[\n"@ + text::joined(
            Seq::new(tasks.len(), |i: int| "  "@ + object_text(tasks[i], columns)),
            ",\n"@,
        ) + "\n]"@
    }
}

/// `tasks` as a JSON array.
pub fn render_json(tasks: &Vec<TaskState>, columns: &Vec<String>) -> (r: String)
    ensures
        r@ == json_rows(tasks.deep_view(), columns.deep_view()),
{
    if tasks.len() == 0 {
        return String::from_str("[]");
    }
    let ghost cols = columns.deep_view();
    let mut out: Vec<String> = Vec::new();
    let mut i: usize = 0;
    while i < tasks.len()
        invariant
            i <= tasks.len(),
            cols == columns.deep_view(),
            out@.len() == i,
            forall|k: int|
                0 <= k < i ==> (#[trigger] out@[k])@ == "  "@ + object_text(tasks@[k]@, cols),
        decreases tasks.len() - i,
    {
        out.push(text::cat2("  ", json_object(&tasks[i], columns).as_str()));
        i += 1;
    }
    assert(out.deep_view() =~= Seq::new(
        tasks@.len(),
        |i: int| "  "@ + object_text(tasks.deep_view()[i], cols),
    ));
    text::cat3("[\n", text::join(&out, ",\n").as_str(), "\n]")
}

/// `tasks` as one JSON object per line.
pub fn render_jsonl(tasks: &Vec<TaskState>, columns: &Vec<String>) -> (r: String)
    ensures
        r@ == text::joined(object_texts(tasks.deep_view(), columns.deep_view()), "\n"@),
{
    let mut out: Vec<String> = Vec::new();
    let mut i: usize = 0;
    while i < tasks.len()
        invariant
            i <= tasks.len(),
            out@.len() == i,
            forall|k: int|
                0 <= k < i ==> (#[trigger] out@[k])@ == object_text(
                    tasks@[k]@,
                    columns.deep_view(),
                ),
        decreases tasks.len() - i,
    {
        out.push(json_object(&tasks[i], columns));
        i += 1;
    }
    assert(out.deep_view() =~= object_texts(tasks.deep_view(), columns.deep_view()));
    text::join(&out, "\n")
}

/// The rows of a view over columns that are already chosen.
pub open spec fn rows_text(
    tasks: Seq<TaskV>,
    columns: Seq<Seq<char>>,
    display: DisplayArgs,
    cfg: DisplayConfig,
    gating: Set<Seq<char>>,
    color: bool,
) -> Seq<char> {
    match display.output.format {
        OutputFormat::Json => json_rows(tasks, columns),
        OutputFormat::Jsonl => text::joined(object_texts(tasks, columns), "\n"@),
        OutputFormat::Human => if display.layout == Some(Layout::List) {
            records(tasks, columns, color, gating)
        } else {
            table(tasks, columns, caps(columns, display.full, cfg), color, gating)
        },
    }
}

/// Renders `tasks` over `columns` in the chosen format and layout; only human
/// output is ever styled.
pub fn render_rows(
    tasks: &Vec<TaskState>,
    columns: &Vec<String>,
    display: &DisplayArgs,
    cfg: &DisplayConfig,
    blockers: &StrSet,
    color: bool,
) -> (r: String)
    ensures
        r@ == rows_text(
            tasks.deep_view(),
            columns.deep_view(),
            *display,
            *cfg,
            blockers@,
            color,
        ),
{
    match display.output.format {
        OutputFormat::Json => render_json(tasks, columns),
        OutputFormat::Jsonl => render_jsonl(tasks, columns),
        OutputFormat::Human => {
            let list = match display.layout {
                Some(Layout::List) => true,
                _ => false,
            };
            if list {
                render_records(tasks, columns, color, blockers)
            } else {
                let cuts = truncation_caps(columns, display, cfg);
                render_human(tasks, columns, &cuts, color, blockers)
            }
        },
    }
}

/// A whole view: the placeholder for no rows in human output, else the rows
/// over the chosen columns.
pub open spec fn view_text(
    tasks: Seq<TaskV>,
    display: DisplayArgs,
    cfg: DisplayConfig,
    gating: Set<Seq<char>>,
    color: bool,
    empty: Seq<char>,
) -> Seq<char> {
    if display.output.format == OutputFormat::Human && tasks.len() == 0 {
        empty
    } else {
        rows_text(tasks, resolved(display, cfg, tasks), display, cfg, gating, color)
    }
}

/// Renders `tasks` as the flags say.
pub fn render(
    tasks: &Vec<TaskState>,
    display: &DisplayArgs,
    cfg: &DisplayConfig,
    blockers: &StrSet,
    color: bool,
    empty: &str,
) -> (r: String)
    ensures
        r@ == view_text(tasks.deep_view(), *display, *cfg, blockers@, color, empty@),
{
    if display.output.format == OutputFormat::Human && tasks.len() == 0 {
        return String::from_str(empty);
    }
    let columns = resolve_columns(display, cfg, tasks);
    render_rows(tasks, &columns, display, cfg, blockers, color)
}

/// Sorts `tasks` by the chosen column, else the configured one.
pub fn sort_tasks(tasks: &Vec<TaskState>, display: &DisplayArgs, cfg: &DisplayConfig) -> (r: Vec<
    TaskState,
>)
    ensures
        order::in_column_order(r.deep_view(), sort_key(*display, *cfg), display.reverse),
        r.deep_view().to_multiset() == tasks.deep_view().to_multiset(),
{
    let column = match &display.sort {
        Some(s) => s.as_str(),
        None => cfg.sort.as_str(),
    };
    order::sort_tasks(tasks, column, display.reverse)
}

/// What `list` prints: the tasks in their order, as the flags say.
pub fn print_tasks(
    tasks: &Vec<TaskState>,
    display: &DisplayArgs,
    cfg: &DisplayConfig,
    blockers: &StrSet,
    color: bool,
    empty: &str,
) -> (r: String)
    ensures
        exists|sorted: Seq<TaskV>|
            {
                &&& order::in_column_order(sorted, sort_key(*display, *cfg), display.reverse)
                &&& sorted.to_multiset() == tasks.deep_view().to_multiset()
                &&& r@ == #[trigger] view_text(sorted, *display, *cfg, blockers@, color, empty@)
            },
{
    let sorted = sort_tasks(tasks, display, cfg);
    render(&sorted, display, cfg, blockers, color, empty)
}

/// A cut text is no longer than its limit, starts as the text does, and is the
/// whole text where that fits.
pub proof fn cut_texts_fit(s: Seq<char>, max: nat)
    ensures
        max > 0 ==> truncated(s, max).len() <= max,
        max == 0 || s.len() <= max ==> truncated(s, max) == s,
        max > 0 && s.len() > max ==> truncated(s, max).take(max - 1) == s.take(max - 1),
{
    if max > 0 && s.len() > max {
        assert(truncated(s, max).take(max - 1) =~= s.take(max - 1));
    }
}

proof fn lemma_joined_longer(parts: Seq<Seq<char>>, sep: Seq<char>, n: int)
    requires
        0 <= n <= parts.len(),
    ensures
        text::joined(parts.take(n), sep).is_prefix_of(text::joined(parts, sep)),
    decreases parts.len() - n,
{
    if n == parts.len() {
        assert(parts.take(n) =~= parts);
    } else {
        let longer = parts.take(n + 1);
        assert(longer.drop_last() =~= parts.take(n));
        lemma_joined_longer(parts, sep, n + 1);
        assert(text::joined(parts.take(n), sep).is_prefix_of(text::joined(longer, sep)));
    }
}

proof fn lemma_spent(
    g: Seq<(Seq<char>, Seq<char>)>,
    gating: Set<Seq<char>>,
    budget: int,
    i: int,
    used: int,
    plain: Seq<char>,
    colored: Seq<char>,
)
    requires
        0 <= i <= g.len(),
        0 <= used <= budget,
        plain == text::joined(group_texts(g).take(i), "; "@),
        plain.len() == used,
    ensures
        ({
            let (cell, width) = spent(g, gating, false, budget, i, used, plain);
            &&& cell.len() == width
            &&& width <= budget
            &&& cell.is_prefix_of(text::joined(group_texts(g), "; "@))
            &&& spent(g, gating, true, budget, i, used, colored).1 == width
        }),
    decreases g.len() - i,
{
    reveal_strlit("; ");
    let texts = group_texts(g);
    let gap: int = if i == 0 {
        0
    } else {
        2
    };
    lemma_joined_longer(texts, "; "@, i);
    if i < g.len() && used + gap < budget {
        let longer = texts.take(i + 1);
        assert(longer.drop_last() =~= texts.take(i));
        let before = if i == 0 {
            plain
        } else {
            plain + "; "@
        };
        let room = budget - used - gap;
        let line = g[i].1;
        assert(longer.last() == line);
        assert(plain.len() == 0 <== i == 0);
        let after = before + line;
        assert(after =~= text::joined(longer, "; "@)) by {
            if i == 0 {
                assert(longer =~= seq![line]);
            }
        }
        if line.len() <= room {
            lemma_spent(
                g,
                gating,
                budget,
                i + 1,
                used + gap + line.len() as int,
                after,
                (if i == 0 {
                    colored
                } else {
                    colored + "; "@
                }) + styled(line, group_code(gating.contains(g[i].0)), true),
            );
        } else {
            lemma_joined_longer(texts, "; "@, i + 1);
            assert((before + line.take(room)).is_prefix_of(after));
        }
    }
}

/// The width of an edges cell is that of its plain text whatever the colors,
/// and keeps within its limit. Without colors the cell is the front of the text
/// of all edges, with a mark behind it where the text goes on.
pub proof fn edges_cells_fit(rels: RelsV, gating: Set<Seq<char>>, cap: nat)
    ensures
        ({
            let all = text::joined(group_texts(groups(rels)), "; "@);
            let (plain, width) = deps_text(rels, gating, cap, false);
            &&& plain.len() == width
            &&& deps_text(rels, gating, cap, true).1 == width
            &&& cap > 0 ==> width <= cap
            &&& if cap == 0 || all.len() <= cap {
                plain == all
            } else {
                &&& plain.drop_last().is_prefix_of(all)
                &&& plain.drop_last().len() < all.len()
                &&& plain.last() == '\u{2026}'
            }
        }),
{
    let g = groups(rels);
    let texts = group_texts(g);
    let all = text::joined(texts, "; "@);
    if cap == 0 || all.len() <= cap {
        assert(styled_groups(g, gating, false) =~= texts);
    } else {
        assert(texts.take(0) =~= Seq::empty());
        let none = Seq::<char>::empty();
        lemma_spent(g, gating, cap - 1, 0, 0, none, none);
        let (cell, _) = spent(g, gating, false, cap - 1, 0, 0, none);
        assert(cell.push('\u{2026}').drop_last() =~= cell);
    }
}

/// Whether a text holds no escape character.
pub open spec fn no_escape(s: Seq<char>) -> bool {
    forall|i: int| 0 <= i < s.len() ==> #[trigger] s[i] != '\u{1b}'
}

/// The place behind the first `m` at or after place `i`, or the end.
pub open spec fn style_end(s: Seq<char>, i: nat) -> nat
    decreases s.len() - i,
{
    if i >= s.len() {
        i
    } else if s[i as int] == 'm' {
        i + 1
    } else {
        style_end(s, i + 1)
    }
}

/// A text without its ANSI styles: each from its escape character to its `m`.
pub open spec fn unstyled(s: Seq<char>) -> Seq<char>
    decreases s.len(),
{
    if s.len() == 0 {
        Seq::empty()
    } else if s.len() > 1 && s[0] == '\u{1b}' && s[1] == '[' {
        proof {
            lemma_style_end(s, 2);
        }
        unstyled(s.skip(style_end(s, 2) as int))
    } else {
        seq![s[0]] + unstyled(s.drop_first())
    }
}

/// A style ends behind its start.
pub proof fn lemma_style_end(s: Seq<char>, i: nat)
    requires
        i <= s.len(),
    ensures
        i <= style_end(s, i) <= s.len(),
    decreases s.len() - i,
{
    if i < s.len() && s[i as int] != 'm' {
        lemma_style_end(s, i + 1);
    }
}

/// Whether `c` shows as `p` in front of any text.
spec fn shows_as(c: Seq<char>, p: Seq<char>) -> bool {
    forall|t: Seq<char>| #[trigger] unstyled(c + t) == p + unstyled(t)
}

proof fn lemma_plain_shows(q: Seq<char>, t: Seq<char>)
    requires
        no_escape(q),
    ensures
        unstyled(q + t) == q + unstyled(t),
    decreases q.len(),
{
    if q.len() == 0 {
        assert(q + t =~= t);
        assert(q + unstyled(t) =~= unstyled(t));
    } else {
        let rest = q.drop_first();
        assert forall|i: int| 0 <= i < rest.len() implies #[trigger] rest[i] != '\u{1b}' by {
            assert(rest[i] == q[i + 1]);
        }
        lemma_plain_shows(rest, t);
        assert((q + t).drop_first() =~= rest + t);
        assert((q + t)[0] == q[0]);
        assert(seq![q[0]] + (rest + unstyled(t)) =~= q + unstyled(t));
    }
}

proof fn lemma_style_is_hidden(c: char, t: Seq<char>)
    requires
        c != 'm',
    ensures
        unstyled(seq!['\u{1b}', '[', c, 'm'] + t) == unstyled(t),
{
    let s = seq!['\u{1b}', '[', c, 'm'] + t;
    reveal_with_fuel(style_end, 3);
    assert(s[2] == c && s[3] == 'm');
    assert(style_end(s, 2) == 4);
    assert(s.skip(4) =~= t);
}

proof fn lemma_then_plain(c: Seq<char>, p: Seq<char>, q: Seq<char>)
    requires
        shows_as(c, p),
        no_escape(q),
    ensures
        shows_as(c + q, p + q),
{
    assert forall|t: Seq<char>| #[trigger] unstyled((c + q) + t) == (p + q) + unstyled(t) by {
        assert((c + q) + t =~= c + (q + t));
        lemma_plain_shows(q, t);
        assert(p + (q + unstyled(t)) =~= (p + q) + unstyled(t));
    }
}

proof fn lemma_then_styled(c: Seq<char>, p: Seq<char>, q: Seq<char>, gates: bool)
    requires
        shows_as(c, p),
        no_escape(q),
    ensures
        shows_as(c + styled(q, group_code(gates), true), p + q),
{
    reveal_strlit("\x1b[");
    reveal_strlit("\x1b[0m");
    reveal_strlit("m");
    reveal_strlit("1");
    reveal_strlit("2");
    let code = group_code(gates)[0];
    let on = seq!['\u{1b}', '[', code, 'm'];
    let off = seq!['\u{1b}', '[', '0', 'm'];
    let wide = styled(q, group_code(gates), true);
    assert(wide =~= on + q + off);
    assert forall|t: Seq<char>| #[trigger] unstyled((c + wide) + t) == (p + q) + unstyled(t) by {
        assert((c + wide) + t =~= c + (on + (q + (off + t))));
        lemma_style_is_hidden(code, q + (off + t));
        lemma_plain_shows(q, off + t);
        lemma_style_is_hidden('0', t);
        assert(p + (q + unstyled(t)) =~= (p + q) + unstyled(t));
    }
}

proof fn lemma_joined_plain(parts: Seq<Seq<char>>, sep: Seq<char>)
    requires
        no_escape(sep),
        forall|i: int| 0 <= i < parts.len() ==> no_escape(#[trigger] parts[i]),
    ensures
        no_escape(text::joined(parts, sep)),
    decreases parts.len(),
{
    if parts.len() > 1 {
        let rest = parts.drop_last();
        assert forall|i: int| 0 <= i < rest.len() implies no_escape(#[trigger] rest[i]) by {
            assert(rest[i] == parts[i]);
        }
        lemma_joined_plain(rest, sep);
        assert(no_escape(parts[parts.len() - 1]));
    }
}

proof fn lemma_joined_shows(
    g: Seq<(Seq<char>, Seq<char>)>,
    gating: Set<Seq<char>>,
    n: int,
)
    requires
        0 <= n <= g.len(),
        forall|i: int| 0 <= i < g.len() ==> no_escape((#[trigger] g[i]).1),
    ensures
        shows_as(
            text::joined(styled_groups(g, gating, true).take(n), "; "@),
            text::joined(group_texts(g).take(n), "; "@),
        ),
    decreases n,
{
    reveal_strlit("; ");
    let wide = styled_groups(g, gating, true).take(n);
    let thin = group_texts(g).take(n);
    let none = Seq::<char>::empty();
    assert(shows_as(none, none)) by {
        assert forall|t: Seq<char>| #[trigger] unstyled(none + t) == none + unstyled(t) by {
            assert(none + t =~= t);
            assert(none + unstyled(t) =~= unstyled(t));
        }
    }
    if n > 0 {
        let gates = gating.contains(g[n - 1].0);
        let line = g[n - 1].1;
        assert(no_escape(g[n - 1].1));
        if n == 1 {
            lemma_then_styled(none, none, line, gates);
            assert(none + wide[0] =~= wide[0]);
            assert(none + line =~= line);
        } else {
            lemma_joined_shows(g, gating, n - 1);
            assert(wide.drop_last() =~= styled_groups(g, gating, true).take(n - 1));
            assert(thin.drop_last() =~= group_texts(g).take(n - 1));
            let (c, p) = (text::joined(wide.drop_last(), "; "@), text::joined(thin.drop_last(), "; "@));
            lemma_then_plain(c, p, "; "@);
            lemma_then_styled(c + "; "@, p + "; "@, line, gates);
        }
    }
}

proof fn lemma_spent_shows(
    g: Seq<(Seq<char>, Seq<char>)>,
    gating: Set<Seq<char>>,
    budget: int,
    i: int,
    used: int,
    plain: Seq<char>,
    colored: Seq<char>,
)
    requires
        0 <= i,
        forall|i: int| 0 <= i < g.len() ==> no_escape((#[trigger] g[i]).1),
        shows_as(colored, plain),
    ensures
        shows_as(
            spent(g, gating, true, budget, i, used, colored).0,
            spent(g, gating, false, budget, i, used, plain).0,
        ),
    decreases g.len() - i,
{
    reveal_strlit("; ");
    let gap: int = if i == 0 {
        0
    } else {
        2
    };
    if i < g.len() && used + gap < budget {
        lemma_then_plain(colored, plain, "; "@);
        let (c, p) = if i == 0 {
            (colored, plain)
        } else {
            (colored + "; "@, plain + "; "@)
        };
        let room = budget - used - gap;
        let line = g[i].1;
        assert(no_escape(g[i].1));
        let piece = if line.len() <= room {
            line
        } else {
            line.take(room)
        };
        lemma_then_styled(c, p, piece, gating.contains(g[i].0));
        if line.len() <= room {
            lemma_spent_shows(
                g,
                gating,
                budget,
                i + 1,
                used + gap + piece.len(),
                p + piece,
                c + styled(piece, group_code(gating.contains(g[i].0)), true),
            );
        }
    }
}

/// Colors do not change what an edges cell shows: without its styles, the
/// colored cell is the plain one.
pub proof fn colored_cells_show_the_plain_text(rels: RelsV, gating: Set<Seq<char>>, cap: nat)
    requires
        rels.dom().finite(),
        forall|r: Seq<char>| #[trigger]
            rels.contains_key(r) ==> no_escape(r) && forall|i: int|
                0 <= i < rels[r].len() ==> no_escape(#[trigger] rels[r][i]),
    ensures
        unstyled(deps_text(rels, gating, cap, true).0) == deps_text(rels, gating, cap, false).0,
{
    let g = groups(rels);
    let keys = strmap::sorted_of(rels.dom());
    strmap::sorted_of_finite(rels.dom());
    reveal_strlit(": ");
    reveal_strlit(", ");
    reveal_strlit("; ");
    assert forall|i: int| 0 <= i < g.len() implies no_escape((#[trigger] g[i]).1) by {
        let k = keys[i];
        assert(keys.to_set().contains(k));
        assert(rels.contains_key(k));
        lemma_joined_plain(rels[k], ", "@);
    }
    let none = Seq::<char>::empty();
    let (wide, thin) = (
        deps_text(rels, gating, cap, true).0,
        deps_text(rels, gating, cap, false).0,
    );
    let all = text::joined(group_texts(g), "; "@);
    if cap == 0 || all.len() <= cap {
        lemma_joined_shows(g, gating, g.len() as int);
        assert(styled_groups(g, gating, true).take(g.len() as int) =~= styled_groups(
            g,
            gating,
            true,
        ));
        assert(group_texts(g).take(g.len() as int) =~= group_texts(g));
        assert(styled_groups(g, gating, false) =~= group_texts(g));
    } else {
        assert(shows_as(none, none)) by {
            assert forall|t: Seq<char>| #[trigger] unstyled(none + t) == none + unstyled(t) by {
                assert(none + t =~= t);
                assert(none + unstyled(t) =~= unstyled(t));
            }
        }
        lemma_spent_shows(g, gating, cap - 1, 0, 0, none, none);
        let (c, _) = spent(g, gating, true, cap - 1, 0, 0, none);
        let (p, _) = spent(g, gating, false, cap - 1, 0, 0, none);
        let dots = seq!['\u{2026}'];
        lemma_then_plain(c, p, dots);
        assert(c + dots =~= wide);
        assert(p + dots =~= thin);
    }
    assert(shows_as(wide, thin));
    assert(wide + none =~= wide);
    assert(unstyled(wide + none) == thin + unstyled(none));
    assert(thin + unstyled(none) =~= thin);
}

proof fn lemma_only(columns: Seq<Seq<char>>, keep: Set<Seq<char>>)
    ensures
        forall|c: Seq<char>| #[trigger]
            only(columns, keep).contains(c) <==> columns.contains(c) && keep.contains(c),
        columns.no_duplicates() ==> only(columns, keep).no_duplicates(),
        strmap::ascending(columns) ==> strmap::ascending(only(columns, keep)),
    decreases columns.len(),
{
    if columns.len() > 0 {
        let shorter = columns.drop_last();
        let last = columns.last();
        let rest = only(shorter, keep);
        lemma_only(shorter, keep);
        assert forall|c: Seq<char>| #[trigger] only(columns, keep).contains(c) <==>
            columns.contains(c) && keep.contains(c) by {
            strmap::lemma_contains_last(columns, c);
            strmap::lemma_contains_last(rest.push(last), c);
            assert(rest.push(last).drop_last() =~= rest);
            assert(rest.contains(c) <==> shorter.contains(c) && keep.contains(c));
        }
        if columns.no_duplicates() {
            assert(shorter.no_duplicates());
            assert(!shorter.contains(last)) by {
                if shorter.contains(last) {
                    let j = choose|j: int| 0 <= j < shorter.len() && shorter[j] == last;
                    assert(columns[j] == columns[columns.len() - 1]);
                }
            }
            assert(!rest.contains(last));
            assert(rest.push(last).no_duplicates()) by {
                assert forall|i: int, j: int|
                    0 <= i < j < rest.push(last).len() implies rest.push(last)[i] != rest.push(
                    last,
                )[j] by {
                    if j == rest.len() {
                        assert(rest.contains(rest[i]));
                    }
                }
            }
        }
        if strmap::ascending(columns) {
            assert(strmap::ascending(shorter)) by {
                assert forall|i: int, j: int|
                    0 <= i < j < shorter.len() implies #[trigger] text::text_lt(
                    shorter[i],
                    shorter[j],
                ) by {
                    assert(text::text_lt(columns[i], columns[j]));
                }
            }
            assert(strmap::ascending(rest.push(last))) by {
                assert forall|i: int, j: int|
                    0 <= i < j < rest.push(last).len() implies #[trigger] text::text_lt(
                    rest.push(last)[i],
                    rest.push(last)[j],
                ) by {
                    if j == rest.len() {
                        assert(rest.contains(rest[i]));
                        assert(shorter.contains(rest[i]));
                        let k = choose|k: int| 0 <= k < shorter.len() && shorter[k] == rest[i];
                        assert(text::text_lt(columns[k], columns[columns.len() - 1]));
                    } else {
                        assert(text::text_lt(rest[i], rest[j]));
                    }
                }
            }
        }
    }
}

/// A view of all fields has a column for every field that a task has, and for
/// nothing else; each once, as long as the configuration names none twice. The
/// configured ones stand in their order, and the others follow by name.
pub proof fn full_views_show_every_field(tasks: Seq<TaskV>, configured: Seq<Seq<char>>)
    requires
        present(tasks).finite(),
    ensures
        forall|c: Seq<char>| #[trigger]
            all_columns(tasks, configured).contains(c) <==> present(tasks).contains(c),
        configured.no_duplicates() ==> all_columns(tasks, configured).no_duplicates(),
        ({
            let front = only(configured, present(tasks));
            &&& all_columns(tasks, configured).take(front.len() as int) == front
            &&& strmap::ascending(all_columns(tasks, configured).skip(front.len() as int))
        }),
{
    let there = present(tasks);
    let front = only(configured, there);
    let names = strmap::sorted_of(there);
    let others = front.to_set().complement();
    let back = only(names, others);
    let all = all_columns(tasks, configured);
    strmap::sorted_of_finite(there);
    strmap::lemma_ascending_distinct(names);
    lemma_only(configured, there);
    lemma_only(names, others);
    assert(all == front + back);
    assert(all.take(front.len() as int) =~= front);
    assert(all.skip(front.len() as int) =~= back);
    assert forall|c: Seq<char>| #[trigger] all.contains(c) <==> there.contains(c) by {
        assert(names.to_set().contains(c) <==> names.contains(c));
        assert(front.contains(c) <==> configured.contains(c) && there.contains(c));
        assert(back.contains(c) <==> names.contains(c) && others.contains(c));
        assert(others.contains(c) <==> !front.contains(c));
        if front.contains(c) {
            let i = choose|i: int| 0 <= i < front.len() && front[i] == c;
            assert(all[i] == c);
        }
        if back.contains(c) {
            let i = choose|i: int| 0 <= i < back.len() && back[i] == c;
            assert(all[front.len() + i] == c);
        }
        if all.contains(c) {
            let i = choose|i: int| 0 <= i < all.len() && all[i] == c;
            if i < front.len() {
                assert(front[i] == c);
            } else {
                assert(back[i - front.len()] == c);
            }
        }
    }
    if configured.no_duplicates() {
        assert forall|i: int, j: int| 0 <= i < j < all.len() implies all[i] != all[j] by {
            if j < front.len() {
                assert(front[i] != front[j]);
            } else {
                let q = back[j - front.len()];
                assert(back.contains(q));
                assert(others.contains(q));
                if i < front.len() {
                    assert(front.contains(front[i]));
                } else {
                    assert(back[i - front.len()] != q);
                }
            }
        }
    }
}

/// What a cell shows: the id; a text field as it is; the items of a list one
/// after the other; other values as JSON; nothing where the field is missing.
pub proof fn cells_show_values(t: TaskV, column: Seq<char>)
    requires
        column != DEPS_KEY@,
    ensures
        column == ID_KEY@ ==> cell_text(t, column) == t.id,
        column != ID_KEY@ && !t.custom_fields.contains_key(column) ==> cell_text(t, column).len()
            == 0,
        column != ID_KEY@ && t.custom_fields.contains_key(column) ==> {
            let v = t.custom_fields[column];
            &&& v is Str ==> cell_text(t, column) == v->Str_0
            &&& v is Num || v is Bool || v is Null || v is Obj ==> cell_text(t, column)
                == json::compact(v)
            &&& v is List && v->List_0.len() == 0 ==> cell_text(t, column).len() == 0
            &&& v is List && v->List_0.len() == 1 ==> cell_text(t, column) == shown(v->List_0[0])
            &&& v is List && v->List_0.len() > 1 ==> cell_text(t, column) == shown(
                JsonV::List(v->List_0.drop_last()),
            ) + ", "@ + shown(v->List_0.last())
        },
{
    if column != ID_KEY@ && t.custom_fields.contains_key(column) {
        if let JsonV::List(items) = t.custom_fields[column] {
            if items.len() > 1 {
                lemma_shown_front(items, (items.len() - 1) as nat);
            }
        }
    }
}

proof fn lemma_shown_front(items: Seq<JsonV>, n: nat)
    requires
        n <= items.len() - 1,
    ensures
        shown_items(items, n) == shown_items(items.drop_last(), n),
    decreases n,
{
    if n > 1 {
        lemma_shown_front(items, (n - 1) as nat);
    }
}

/// The columns that are kept of a list of columns are those in a set, in order
/// and as often.
pub proof fn kept_columns(columns: Seq<Seq<char>>, keep: Set<Seq<char>>, x: Seq<char>)
    ensures
        only(columns, keep).contains(x) <==> columns.contains(x) && keep.contains(x),
        only(columns, keep) == columns.filter(|c: Seq<char>| keep.contains(c)),
    decreases columns.len(),
{
    reveal(Seq::filter);
    if columns.len() > 0 {
        let rest = columns.drop_last();
        kept_columns(rest, keep, x);
        strmap::lemma_contains_last(columns, x);
        if keep.contains(columns.last()) {
            let all = only(columns, keep);
            assert(all.drop_last() =~= only(rest, keep));
            strmap::lemma_contains_last(all, x);
        }
    }
}

/// Which columns a view has: with `--full` all that any task has, else those
/// that are asked for, else the configured ones.
pub proof fn views_have_columns(display: DisplayArgs, cfg: DisplayConfig, tasks: Seq<TaskV>)
    ensures
        !display.full && display.columns is Some ==> resolved(display, cfg, tasks)
            == display.columns->0.deep_view(),
        !display.full && display.columns is None ==> resolved(display, cfg, tasks)
            == cfg.columns.deep_view(),
        display.full ==> forall|i: int, k: Seq<char>|
            0 <= i < tasks.len() && #[trigger] tasks[i].custom_fields.contains_key(k) ==> present(
                tasks,
            ).contains(k),
        display.sort is Some ==> sort_key(display, cfg) == display.sort->0@,
        display.sort is None ==> sort_key(display, cfg) == cfg.sort@,
{
    assert forall|i: int, k: Seq<char>|
        0 <= i < tasks.len() && #[trigger] tasks[i].custom_fields.contains_key(k) implies present(
        tasks,
    ).contains(k) by {
        lemma_present(tasks, i, k);
    }
}

proof fn lemma_present(tasks: Seq<TaskV>, i: int, k: Seq<char>)
    requires
        0 <= i < tasks.len(),
        tasks[i].custom_fields.contains_key(k),
    ensures
        present(tasks).contains(k),
    decreases tasks.len(),
{
    if i < tasks.len() - 1 {
        lemma_present(tasks.drop_last(), i, k);
    }
}

/// How wide a cell may be: with `--full` as wide as it is, else the width of its
/// own column where there is one, else the general width.
pub proof fn widths_go_by_column(columns: Seq<Seq<char>>, full: bool, cfg: DisplayConfig, i: int)
    requires
        0 <= i < columns.len(),
    ensures
        caps(columns, full, cfg).len() == columns.len(),
        full ==> caps(columns, full, cfg)[i] == 0,
        !full && cfg.column_max_width@.contains_key(columns[i]) ==> caps(columns, full, cfg)[i]
            == cfg.column_max_width@[columns[i]],
        !full && !cfg.column_max_width@.contains_key(columns[i]) ==> caps(columns, full, cfg)[i]
            == cfg.max_width,
{
}

proof fn lemma_widest(rows: Seq<Seq<CellV>>, i: int)
    ensures
        widest(rows, i) >= 0,
        forall|r: int| 0 <= r < rows.len() ==> (#[trigger] rows[r])[i].1 <= widest(rows, i),
        widest(rows, i) > 0 ==> exists|r: int|
            0 <= r < rows.len() && (#[trigger] rows[r])[i].1 == widest(rows, i),
    decreases rows.len(),
{
    if rows.len() > 0 {
        let rest = rows.drop_last();
        lemma_widest(rest, i);
        assert forall|r: int| 0 <= r < rows.len() implies (#[trigger] rows[r])[i].1 <= widest(
            rows,
            i,
        ) by {
            if r < rest.len() {
                assert(rest[r] == rows[r]);
            }
        }
        if widest(rows, i) > 0 {
            if rows.last()[i].1 == widest(rows, i) {
                assert(rows[rows.len() - 1][i].1 == widest(rows, i));
            } else {
                let r = choose|r: int|
                    0 <= r < rest.len() && (#[trigger] rest[r])[i].1 == widest(rest, i);
                assert(rows[r][i].1 == widest(rows, i));
            }
        }
    }
}

/// A column of a table is as wide as its widest cell: no cell and no heading is
/// wider, and one of them is as wide.
pub proof fn columns_are_as_wide_as_needed(
    columns: Seq<Seq<char>>,
    rows: Seq<Seq<CellV>>,
    i: int,
)
    requires
        0 <= i < columns.len(),
    ensures
        ({
            let w = table_widths(columns, rows)[i];
            let head = uppercase(columns[i]).len() as int;
            &&& head <= w
            &&& forall|r: int| 0 <= r < rows.len() ==> (#[trigger] rows[r])[i].1 <= w
            &&& w == head || exists|r: int| 0 <= r < rows.len() && (#[trigger] rows[r])[i].1 == w
        }),
{
    lemma_widest(rows, i);
}

/// The JSON of a task has a member for each column in which it has a value, with
/// that value, and no others.
pub proof fn objects_hold_the_columns(t: TaskV, columns: Seq<Seq<char>>, m: Seq<char>)
    ensures
        json_pairs(t, columns).contains(m) <==> exists|i: int|
            0 <= i < columns.len() && has_member(t, #[trigger] columns[i], m),
    decreases columns.len(),
{
    if columns.len() > 0 {
        let rest = columns.drop_last();
        let last = columns.last();
        objects_hold_the_columns(t, rest, m);
        let few = json_pairs(t, rest);
        let all = json_pairs(t, columns);
        if order::cell(t, last) is Some {
            assert(all.drop_last() =~= few);
            strmap::lemma_contains_last(all, m);
        }
        if exists|i: int| 0 <= i < rest.len() && has_member(t, #[trigger] rest[i], m) {
            let i = choose|i: int| 0 <= i < rest.len() && has_member(t, #[trigger] rest[i], m);
            assert(has_member(t, columns[i], m));
        }
        if has_member(t, last, m) {
            assert(has_member(t, columns[columns.len() - 1], m));
        }
        if exists|i: int| 0 <= i < columns.len() && has_member(t, #[trigger] columns[i], m) {
            let i = choose|i: int| 0 <= i < columns.len() && has_member(t, #[trigger] columns[i], m);
            if i < rest.len() {
                assert(has_member(t, rest[i], m));
            }
        }
    }
}

/// Whether `m` is the JSON member of a task for a column.
pub open spec fn has_member(t: TaskV, column: Seq<char>, m: Seq<char>) -> bool {
    ||| column == ID_KEY@ && m == json::quoted(column) + ":"@ + json::compact(JsonV::Str(t.id))
    ||| column == DEPS_KEY@ && column != ID_KEY@ && m == json::quoted(column) + ":"@
        + json::compact(order::deps_value(t.relationships))
    ||| column != ID_KEY@ && column != DEPS_KEY@ && t.custom_fields.contains_key(column) && m
        == json::quoted(column) + ":"@ + json::compact(t.custom_fields[column])
}

/// The lines that a command prints: for people the text, else JSON, which is one
/// object to a line where lines are asked for.
pub proof fn output_goes_by_format(human: Seq<char>, items: Seq<JsonV>, i: int)
    requires
        0 <= i < items.len(),
    ensures
        emitted(OutputFormat::Human, human, JsonV::List(items)) == seq![human],
        emitted(OutputFormat::Json, human, JsonV::List(items)) == seq![pretty(JsonV::List(items))],
        emitted(OutputFormat::Jsonl, human, JsonV::List(items)).len() == items.len(),
        emitted(OutputFormat::Jsonl, human, JsonV::List(items))[i] == json::compact(items[i]),
{
}

/// Colors only surround a text; without them it stays as it is.
pub proof fn styles_surround(s: Seq<char>, code: Seq<char>)
    ensures
        styled(s, code, false) == s,
        styled(s, code, true) == "\x1b["@ + code + "m"@ + s + "\x1b[0m"@,
        no_escape(s) && no_escape(code) && !code.contains('m') ==> styled(s, code, true).len()
            == s.len() + code.len() + 7,
{
    reveal_strlit("\x1b[");
    reveal_strlit("m");
    reveal_strlit("\x1b[0m");
}

/// How tasks are printed: as a JSON array, as a JSON object to a line, as records
/// where that layout is asked for, else as a table. For people an empty view
/// prints its own text.
pub proof fn views_go_by_format(
    tasks: Seq<TaskV>,
    display: DisplayArgs,
    cfg: DisplayConfig,
    gating: Set<Seq<char>>,
    color: bool,
    empty: Seq<char>,
)
    ensures
        ({
            let columns = resolved(display, cfg, tasks);
            let t = view_text(tasks, display, cfg, gating, color, empty);
            let human = display.output.format == OutputFormat::Human;
            &&& human && tasks.len() == 0 ==> t == empty
            &&& human && tasks.len() > 0 && display.layout == Some(Layout::List) ==> t == records(
                tasks,
                columns,
                color,
                gating,
            )
            &&& human && tasks.len() > 0 && display.layout != Some(Layout::List) ==> t == table(
                tasks,
                columns,
                caps(columns, display.full, cfg),
                color,
                gating,
            )
            &&& display.output.format == OutputFormat::Json ==> t == json_rows(tasks, columns)
            &&& display.output.format == OutputFormat::Jsonl ==> t == text::joined(
                Seq::new(tasks.len(), |i: int| object_text(tasks[i], columns)),
                seq!['\n'],
            )
        }),
{
    reveal_strlit("\n");
    assert("\n"@ =~= seq!['\n']);
    let columns = resolved(display, cfg, tasks);
    assert(object_texts(tasks, columns) =~= Seq::new(
        tasks.len(),
        |i: int| object_text(tasks[i], columns),
    ));
}

/// A cell of a row shows the value of its column, cut to the width that the
/// column may have; the cell of an empty row is empty.
pub proof fn rows_show_their_columns(
    t: TaskV,
    columns: Seq<Seq<char>>,
    cuts: Seq<usize>,
    gating: Set<Seq<char>>,
    color: bool,
    i: int,
)
    requires
        0 <= i < columns.len(),
        cuts.len() == columns.len(),
        columns[i] != DEPS_KEY@,
    ensures
        ({
            let c = row_cells(t, columns, cuts, gating, color)[i];
            let whole = cell_text(t, columns[i]);
            &&& row_cells(t, columns, cuts, gating, color).len() == columns.len()
            &&& c.1 == c.0.len()
            &&& cuts[i] == 0 || whole.len() <= cuts[i] ==> c.0 == whole
            &&& cuts[i] > 0 && whole.len() > cuts[i] ==> c.0.len() == cuts[i] && c.0.take(
                cuts[i] - 1,
            ) == whole.take(cuts[i] - 1) && c.0.last() == '\u{2026}'
        }),
{
    let whole = cell_text(t, columns[i]);
    if cuts[i] > 0 && whole.len() > cuts[i] {
        let cut = truncated(whole, cuts[i] as nat);
        assert(cut.take(cuts[i] - 1) =~= whole.take(cuts[i] - 1));
    }
}

/// A record shows every column: a line with its name and the first line of its
/// value, and the further lines of the value below that one.
pub proof fn records_show_every_column(
    t: TaskV,
    columns: Seq<Seq<char>>,
    width: nat,
    gating: Set<Seq<char>>,
    c: Seq<char>,
    k: int,
)
    requires
        columns.contains(c),
        c != DEPS_KEY@,
    ensures
        ({
            let lines = record_lines(t, columns, width, false, gating);
            let parts = text::split_at(cell_text(t, c), '\n');
            &&& lines.contains(
                text::trimmed_end(text::padded(c + ":"@, width) + " "@ + parts[0]),
            )
            &&& 0 < k < parts.len() ==> lines.contains(
                text::trimmed_end(text::blanks(width + 1) + parts[k]),
            )
        }),
    decreases columns.len(),
{
    let rest = columns.drop_last();
    let some = record_lines(t, rest, width, false, gating);
    let lines = record_lines(t, columns, width, false, gating);
    let parts = text::split_at(cell_text(t, c), '\n');
    let first = text::trimmed_end(text::padded(c + ":"@, width) + " "@ + parts[0]);
    let next = text::trimmed_end(text::blanks(width + 1) + parts[k]);
    if rest.contains(c) {
        records_show_every_column(t, rest, width, gating, c, k);
        let i = choose|i: int| 0 <= i < some.len() && some[i] == first;
        assert(lines[i] == first);
        if 0 < k < parts.len() {
            let j = choose|j: int| 0 <= j < some.len() && some[j] == next;
            assert(lines[j] == next);
        }
    } else {
        let n = choose|n: int| 0 <= n < columns.len() && columns[n] == c;
        assert(n == columns.len() - 1) by {
            if n < rest.len() {
                assert(rest[n] == c);
            }
        }
        let said = value_lines(t, c, false, gating);
        if column_code(c) is Some && parts[0].len() > 0 {
            styles_surround(parts[0], column_code(c)->0);
            assert(parts.update(0, parts[0]) =~= parts);
        }
        assert(said =~= parts);
        let own = column_lines(c, said, width, false);
        styles_surround(text::padded(c + ":"@, width), "1"@);
        assert(parts.len() > 0);
        assert(lines[some.len() as int] == own[0]);
        assert(own[0] == first);
        if 0 < k < parts.len() {
            assert(lines[some.len() + k] == own[k]);
            assert(own[k] == next);
        }
    }
}

/// A table has a line of headings and a line for each task, in order; the cells of
/// a line stand apart by two spaces, and none stand behind the last.
pub proof fn tables_have_a_line_per_task(
    tasks: Seq<TaskV>,
    columns: Seq<Seq<char>>,
    cuts: Seq<usize>,
    gating: Set<Seq<char>>,
    i: int,
)
    requires
        0 <= i < tasks.len(),
    ensures
        exists|lines: Seq<Seq<char>>|
            {
                let rows = table_rows(tasks, columns, cuts, gating, false);
                let widths = table_widths(columns, rows);
                let codes = Seq::new(columns.len(), |k: int| column_code(columns[k]));
                &&& table(tasks, columns, cuts, false, gating) == #[trigger] text::joined(
                    lines,
                    "\n"@,
                )
                &&& lines.len() == tasks.len() + 1
                &&& lines[i + 1] == row_line(
                    row_cells(tasks[i], columns, cuts, gating, false),
                    widths,
                    codes,
                    false,
                )
            },
{
    let rows = table_rows(tasks, columns, cuts, gating, false);
    let widths = table_widths(columns, rows);
    let bold = Seq::new(columns.len(), |k: int| Some("1"@));
    let codes = Seq::new(columns.len(), |k: int| column_code(columns[k]));
    let lines = seq![row_line(header_cells(columns), widths, bold, false)] + Seq::new(
        rows.len(),
        |k: int| row_line(rows[k], widths, codes, false),
    );
    assert(table(tasks, columns, cuts, false, gating) == text::joined(lines, "\n"@));
    assert(lines[i + 1] == row_line(rows[i], widths, codes, false));
}

} // verus!
