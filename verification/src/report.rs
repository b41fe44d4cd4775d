//! What the commands print: their results as text for people and as JSON.

use crate::dep::{CyclesOutcome, PlanOutcome, PlanStep};
use crate::display;
use crate::json::{self, Json, JsonV, JsonNumber, NumberV};
use crate::model::{ID_KEY, STATUS_KEY};
use crate::order;
use crate::read::{Warning, WarningV};
use crate::resolve;
use crate::status::StatusSummary;
use crate::strmap::{self, StrMap};
use crate::text;
use crate::watch::{ChangedTask, ChangedV};
use vstd::prelude::*;

verus! {

/// The counts by status, each under its indented label, then the tasks without
/// one, if there are any.
pub open spec fn status_rows(s: StatusSummary) -> Seq<(Seq<char>, usize)> {
    let keys = strmap::sorted_of(s.by_status@.dom());
    Seq::new(keys.len(), |i: int| ("  "@ + keys[i], s.by_status@[keys[i]])) + if s.no_status > 0 {
        seq![("  (unset)"@, s.no_status)]
    } else {
        Seq::empty()
    }
}

/// The larger of two numbers.
pub open spec fn larger(a: nat, b: nat) -> nat {
    if a > b {
        a
    } else {
        b
    }
}

/// The width of the labels: at least that of `Blocked`.
pub open spec fn label_width(rows: Seq<(Seq<char>, usize)>) -> nat
    decreases rows.len(),
{
    if rows.len() == 0 {
        "Blocked"@.len()
    } else {
        larger(label_width(rows.drop_last()), rows.last().0.len())
    }
}

/// The width of the counts of the rows, at least `least`.
pub open spec fn count_width(rows: Seq<(Seq<char>, usize)>, least: nat) -> nat
    decreases rows.len(),
{
    if rows.len() == 0 {
        least
    } else {
        larger(count_width(rows.drop_last(), least), text::decimal(rows.last().1 as nat).len())
    }
}

/// The width of the widest of the fixed counts.
pub open spec fn fixed_width(s: StatusSummary, seq: u64) -> nat {
    larger(
        larger(
            larger(text::decimal(s.total as nat).len(), text::decimal(s.ready as nat).len()),
            larger(text::decimal(s.blocked as nat).len(), text::decimal(s.closed as nat).len()),
        ),
        text::decimal(seq as nat).len(),
    )
}

/// One line: the label in bold, padded, and the count flush right.
pub open spec fn count_line(label: Seq<char>, n: nat, lw: nat, cw: nat, color: bool) -> Seq<char> {
    display::styled(text::padded(label, lw), "1"@, color) + "  "@ + text::padded_left(
        text::decimal(n),
        cw,
    )
}

/// The counts as an aligned block: the total, the counts by status, what is
/// ready, blocked and closed, and the number of the last event.
pub open spec fn status_text(s: StatusSummary, seq: u64, color: bool) -> Seq<char> {
    let rows = status_rows(s);
    let lw = label_width(rows);
    let cw = count_width(rows, fixed_width(s, seq));
    text::joined(
        seq![
            count_line("Total"@, s.total as nat, lw, cw, color),
            ""@,
            display::styled("By status:"@, "1"@, color),
        ] + Seq::new(
            rows.len(),
            |i: int| count_line(rows[i].0, rows[i].1 as nat, lw, cw, color),
        ) + seq![
            ""@,
            count_line("Ready"@, s.ready as nat, lw, cw, color),
            count_line("Blocked"@, s.blocked as nat, lw, cw, color),
            count_line("Closed"@, s.closed as nat, lw, cw, color),
            ""@,
            count_line("Seq"@, seq as nat, lw, cw, color),
        ],
        "\n"@,
    )
}

fn more(a: usize, b: usize) -> (r: usize)
    ensures
        r == larger(a as nat, b as nat),
{
    if a > b {
        a
    } else {
        b
    }
}

fn digits_of(n: u64) -> (r: usize)
    ensures
        r == text::decimal(n as nat).len(),
{
    text::chars_of(text::decimal_text(n).as_str()).len()
}

fn line_of(label: &str, n: u64, lw: usize, cw: usize, color: bool) -> (r: String)
    ensures
        r@ == count_line(label@, n as nat, lw as nat, cw as nat, color),
{
    let name = display::sgr(text::pad(label, lw).as_str(), "1", color);
    let value = text::pad_left(text::decimal_text(n).as_str(), cw);
    text::cat3(name.as_str(), "  ", value.as_str())
}

fn rows_of(s: &StatusSummary) -> (r: Vec<(String, usize)>)
    ensures
        r.deep_view() == status_rows(*s),
{
    let n = s.by_status.len();
    let ghost keys = s.by_status.keys_view();
    let mut rows: Vec<(String, usize)> = Vec::new();
    let mut i: usize = 0;
    while i < n
        invariant
            i <= n,
            n == keys.len(),
            keys == s.by_status.keys_view(),
            rows@.len() == i,
            forall|k: int|
                0 <= k < i ==> (#[trigger] rows@[k]).deep_view() == (
                    "  "@ + keys[k],
                    s.by_status@[keys[k]],
                ),
        decreases n - i,
    {
        rows.push((text::cat2("  ", s.by_status.key_at(i).as_str()), *s.by_status.value_at(i)));
        i += 1;
    }
    if s.no_status > 0 {
        rows.push((String::from_str("  (unset)"), s.no_status));
    }
    assert(rows.deep_view() =~= status_rows(*s));
    rows
}

/// The counts as an aligned block.
pub fn render_status_human(s: &StatusSummary, seq: u64, color: bool) -> (r: String)
    ensures
        r@ == status_text(*s, seq, color),
{
    let rows = rows_of(s);
    let ghost all = rows.deep_view();
    let mut lw = text::chars_of("Blocked").len();
    let mut cw = more(
        more(
            more(digits_of(s.total as u64), digits_of(s.ready as u64)),
            more(digits_of(s.blocked as u64), digits_of(s.closed as u64)),
        ),
        digits_of(seq),
    );
    let ghost least = fixed_width(*s, seq);
    let mut i: usize = 0;
    assert(all.take(0) =~= Seq::empty());
    while i < rows.len()
        invariant
            i <= rows.len(),
            all == rows.deep_view(),
            lw == label_width(all.take(i as int)),
            cw == count_width(all.take(i as int), least),
        decreases rows.len() - i,
    {
        let ghost longer = all.take(i as int + 1);
        assert(longer.drop_last() =~= all.take(i as int));
        assert(longer.last() == rows@[i as int].deep_view());
        lw = more(lw, text::chars_of(rows[i].0.as_str()).len());
        cw = more(cw, digits_of(rows[i].1 as u64));
        i += 1;
    }
    assert(all.take(all.len() as int) =~= all);
    let mut lines: Vec<String> = Vec::new();
    lines.push(line_of("Total", s.total as u64, lw, cw, color));
    lines.push(String::from_str(""));
    lines.push(display::sgr("By status:", "1", color));
    let ghost head = lines.deep_view();
    let mut j: usize = 0;
    let ghost middle = Seq::new(
        all.len(),
        |i: int| count_line(all[i].0, all[i].1 as nat, lw as nat, cw as nat, color),
    );
    assert(lines.deep_view() =~= head + middle.take(0));
    while j < rows.len()
        invariant
            j <= rows.len(),
            all == rows.deep_view(),
            middle == Seq::new(
                all.len(),
                |i: int| count_line(all[i].0, all[i].1 as nat, lw as nat, cw as nat, color),
            ),
            lines.deep_view() == head + middle.take(j as int),
        decreases rows.len() - j,
    {
        let ghost had = lines.deep_view();
        lines.push(line_of(rows[j].0.as_str(), rows[j].1 as u64, lw, cw, color));
        assert(all[j as int] == rows@[j as int].deep_view());
        assert(lines.deep_view() =~= had.push(middle[j as int]));
        assert(lines.deep_view() =~= head + middle.take(j as int + 1));
        j += 1;
    }
    assert(middle.take(middle.len() as int) =~= middle);
    let ghost upper = lines.deep_view();
    lines.push(String::from_str(""));
    lines.push(line_of("Ready", s.ready as u64, lw, cw, color));
    lines.push(line_of("Blocked", s.blocked as u64, lw, cw, color));
    lines.push(line_of("Closed", s.closed as u64, lw, cw, color));
    lines.push(String::from_str(""));
    lines.push(line_of("Seq", seq, lw, cw, color));
    assert(lines.deep_view() =~= upper + seq![
        ""@,
        count_line("Ready"@, s.ready as nat, lw as nat, cw as nat, color),
        count_line("Blocked"@, s.blocked as nat, lw as nat, cw as nat, color),
        count_line("Closed"@, s.closed as nat, lw as nat, cw as nat, color),
        ""@,
        count_line("Seq"@, seq as nat, lw as nat, cw as nat, color),
    ]);
    assert(head =~= seq![
        count_line("Total"@, s.total as nat, lw as nat, cw as nat, color),
        ""@,
        display::styled("By status:"@, "1"@, color),
    ]);
    text::join(&lines, "\n")
}

/// A count as a JSON value.
pub open spec fn number(n: u64) -> JsonV {
    JsonV::Num(NumberV::Pos(n))
}

/// The counts by status as JSON values.
pub open spec fn counts_by_status(m: Map<Seq<char>, usize>) -> Map<Seq<char>, JsonV> {
    Map::new(|k: Seq<char>| m.contains_key(k), |k: Seq<char>| number(m[k] as u64))
}

/// The counts as an object.
pub open spec fn status_value(s: StatusSummary, seq: u64) -> JsonV {
    json::object(
        map![
            "total"@ => number(s.total as u64),
            "by_status"@ => json::object(counts_by_status(s.by_status@)),
            "no_status"@ => number(s.no_status as u64),
            "ready"@ => number(s.ready as u64),
            "blocked"@ => number(s.blocked as u64),
            "closed"@ => number(s.closed as u64),
            "seq"@ => number(seq),
        ],
    )
}

/// The counts as an object.
pub fn status_to_json_value(s: &StatusSummary, seq: u64) -> (r: Json)
    ensures
        r@ == status_value(*s, seq),
{
    let n = s.by_status.len();
    let ghost keys = s.by_status.keys_view();
    let ghost want = counts_by_status(s.by_status@);
    let mut by_status: StrMap<Json> = StrMap::new();
    let mut i: usize = 0;
    proof {
        assert(want.dom() =~= s.by_status@.dom());
        strmap::lemma_prefix(want, keys, 0);
    }
    while i < n
        invariant
            i <= n,
            n == keys.len(),
            keys == s.by_status.keys_view(),
            strmap::ascending(keys),
            keys.to_set() == want.dom(),
            want == counts_by_status(s.by_status@),
            by_status@ == strmap::prefix(want, keys, i as nat),
        decreases n - i,
    {
        proof {
            strmap::lemma_prefix(want, keys, i as nat);
        }
        by_status.insert(s.by_status.key_at(i).clone(), json::count(*s.by_status.value_at(i)));
        i += 1;
    }
    proof {
        strmap::lemma_prefix(want, keys, n as nat);
    }
    let mut m: StrMap<Json> = StrMap::new();
    m.insert(String::from_str("total"), json::count(s.total));
    m.insert(String::from_str("by_status"), json::make_object(by_status));
    m.insert(String::from_str("no_status"), json::count(s.no_status));
    m.insert(String::from_str("ready"), json::count(s.ready));
    m.insert(String::from_str("blocked"), json::count(s.blocked));
    m.insert(String::from_str("closed"), json::count(s.closed));
    m.insert(String::from_str("seq"), Json::Num(JsonNumber::from_u64(seq)));
    json::make_object(m)
}

/// The lines of the warnings of a read; one without a line in its report says
/// nothing.
pub open spec fn warning_lines(warnings: Seq<WarningV>) -> Seq<Seq<char>>
    decreases warnings.len(),
{
    if warnings.len() == 0 {
        Seq::empty()
    } else {
        let rest = warning_lines(warnings.drop_last());
        match warnings.last() {
            WarningV::Orphans(n) => rest.push(
                "taska: warning: "@ + text::decimal(n)
                    + " orphaned event(s) in the log (no matching task) - run `ta resolve` to clean them up."@,
            ),
            WarningV::NonConformance(report) => if report.len() == 0 {
                rest
            } else {
                rest.push(
                    "taska: warning: "@ + text::decimal(report.len())
                        + " task(s) do not conform to their task-type schema (e.g. "@ + report[0]
                        + ") - `ta config validate` lists them, `ta repair --schema` applies the lossless fixes; writes to such a task must bring it into conformance. Silence with `workflow.warn_nonconforming = false`."@,
                )
            },
        }
    }
}

/// The lines of the warnings of a read.
pub fn render_warnings(warnings: &Vec<Warning>) -> (r: Vec<String>)
    ensures
        r.deep_view() == warning_lines(warnings.deep_view()),
{
    let ghost all = warnings.deep_view();
    let mut lines: Vec<String> = Vec::new();
    let mut i: usize = 0;
    assert(all.take(0) =~= Seq::empty());
    assert(lines.deep_view() =~= Seq::empty());
    while i < warnings.len()
        invariant
            i <= warnings.len(),
            all == warnings.deep_view(),
            lines.deep_view() == warning_lines(all.take(i as int)),
        decreases warnings.len() - i,
    {
        let ghost longer = all.take(i as int + 1);
        assert(longer.drop_last() =~= all.take(i as int));
        assert(longer.last() == warnings@[i as int].deep_view());
        let ghost had = lines.deep_view();
        match &warnings[i] {
            Warning::Orphans(n) => {
                let line = text::cat3(
                    "taska: warning: ",
                    text::decimal_text(*n as u64).as_str(),
                    " orphaned event(s) in the log (no matching task) - run `ta resolve` to clean them up.",
                );
                lines.push(line);
                assert(lines.deep_view() =~= had.push(line@));
            },
            Warning::NonConformance(report) => if report.len() > 0 {
                let line = text::cat5(
                    "taska: warning: ",
                    text::decimal_text(report.len() as u64).as_str(),
                    " task(s) do not conform to their task-type schema (e.g. ",
                    report[0].as_str(),
                    ") - `ta config validate` lists them, `ta repair --schema` applies the lossless fixes; writes to such a task must bring it into conformance. Silence with `workflow.warn_nonconforming = false`.",
                );
                lines.push(line);
                assert(report.deep_view()[0] == report@[0]@);
                assert(lines.deep_view() =~= had.push(line@));
            },
        }
        i += 1;
    }
    assert(all.take(all.len() as int) =~= all);
    lines
}

/// What a change of edges reports: how many were written, if any.
pub open spec fn edges_text(task: Seq<char>, verb: Seq<char>, written: nat) -> Seq<char> {
    if written == 0 {
        "no changes on `"@ + task + "`"@
    } else {
        verb + " "@ + text::decimal(written) + " edge(s) on `"@ + task + "`"@
    }
}

/// Reports a change of edges.
pub fn dep_write(task: &str, verb: &str, written: usize) -> (r: String)
    ensures
        r@ == edges_text(task@, verb@, written as nat),
{
    if written == 0 {
        text::cat3("no changes on `", task, "`")
    } else {
        text::cat6(
            verb,
            " ",
            text::decimal_text(written as u64).as_str(),
            " edge(s) on `",
            task,
            "`",
        )
    }
}

/// The line of one cycle: a task that waits for itself, or its members.
pub open spec fn cycle_line(cycle: Seq<Seq<char>>) -> Seq<char> {
    if cycle.len() == 1 {
        "  "@ + cycle[0] + " (depends on itself)"@
    } else {
        "  "@ + text::joined(cycle, " <-> "@)
    }
}

/// The cycles as text: a bold count, then a line each.
pub open spec fn cycles_text(cycles: Seq<Seq<Seq<char>>>, color: bool) -> Seq<char> {
    if cycles.len() == 0 {
        "No dependency cycles."@
    } else {
        text::joined(
            seq![
                display::styled(
                    text::decimal(cycles.len()) + " dependency cycle(s):"@,
                    "1"@,
                    color,
                ),
            ] + Seq::new(cycles.len(), |i: int| cycle_line(cycles[i])),
            "\n"@,
        )
    }
}

/// The cycles as text.
pub fn cycles_human(outcome: &CyclesOutcome, color: bool) -> (r: String)
    ensures
        r@ == cycles_text(outcome.cycles.deep_view(), color),
{
    let cycles = &outcome.cycles;
    if cycles.len() == 0 {
        return String::from_str("No dependency cycles.");
    }
    let mut lines: Vec<String> = Vec::new();
    let count = text::cat2(text::decimal_text(cycles.len() as u64).as_str(), " dependency cycle(s):");
    lines.push(display::sgr(count.as_str(), "1", color));
    let ghost all = cycles.deep_view();
    let ghost head = lines@[0]@;
    let mut i: usize = 0;
    while i < cycles.len()
        invariant
            i <= cycles.len(),
            all == cycles.deep_view(),
            lines@.len() == i + 1,
            lines@[0]@ == head,
            forall|k: int| 1 <= k <= i ==> (#[trigger] lines@[k])@ == cycle_line(all[k - 1]),
        decreases cycles.len() - i,
    {
        let cycle = &cycles[i];
        assert(all[i as int] == cycle.deep_view());
        if cycle.len() == 1 {
            assert(cycle.deep_view()[0] == cycle@[0]@);
            lines.push(text::cat3("  ", cycle[0].as_str(), " (depends on itself)"));
        } else {
            lines.push(text::cat2("  ", text::join(cycle, " <-> ").as_str()));
        }
        i += 1;
    }
    assert(lines.deep_view() =~= seq![head] + Seq::new(all.len(), |i: int| cycle_line(all[i])));
    text::join(&lines, "\n")
}

/// The cycles as a list of lists of ids.
pub open spec fn cycles_value(cycles: Seq<Seq<Seq<char>>>) -> JsonV {
    JsonV::List(Seq::new(cycles.len(), |i: int| order::text_list(cycles[i])))
}

/// The cycles as JSON.
pub fn cycles_json(outcome: &CyclesOutcome) -> (r: Json)
    ensures
        r@ == cycles_value(outcome.cycles.deep_view()),
{
    let cycles = &outcome.cycles;
    let ghost all = cycles.deep_view();
    let mut out: Vec<Json> = Vec::new();
    let mut i: usize = 0;
    while i < cycles.len()
        invariant
            i <= cycles.len(),
            all == cycles.deep_view(),
            out@.len() == i,
            forall|k: int| 0 <= k < i ==> (#[trigger] out@[k])@ == order::text_list(all[k]),
        decreases cycles.len() - i,
    {
        assert(all[i as int] == cycles@[i as int].deep_view());
        out.push(order::text_array(&cycles[i]));
        i += 1;
    }
    assert(out.deep_view() =~= Seq::new(all.len(), |i: int| order::text_list(all[i])));
    json::make_list(out)
}

/// The ids of the steps of a plan.
pub open spec fn step_ids(steps: Seq<PlanStep>) -> Seq<Seq<char>> {
    Seq::new(steps.len(), |i: int| steps[i].id@)
}

/// One step of a plan: its number, its padded id and its status.
pub open spec fn step_line(step: PlanStep, place: nat, width: nat, color: bool) -> Seq<char> {
    text::padded_left(text::decimal(place), 2) + ". "@ + display::styled(
        text::padded(step.id@, width),
        "36"@,
        color,
    ) + "  "@ + step.status@
}

/// A plan as text: the numbered steps and a closing line.
pub open spec fn plan_text(
    steps: Seq<PlanStep>,
    total: nat,
    critical: bool,
    color: bool,
) -> Seq<char> {
    if steps.len() == 0 {
        "Nothing to do - every prerequisite is already done."@
    } else {
        let width = display::longest(step_ids(steps));
        text::joined(
            Seq::new(
                steps.len(),
                |i: int| step_line(steps[i], (i + 1) as nat, width, color),
            ).push(
                if critical {
                    "(critical path: "@ + text::decimal(steps.len()) + " of "@ + text::decimal(total)
                        + " remaining task(s))"@
                } else {
                    "("@ + text::decimal(total) + " task(s) remaining, in order)"@
                },
            ),
            "\n"@,
        )
    }
}

fn ids_of(steps: &Vec<PlanStep>) -> (r: Vec<String>)
    ensures
        r.deep_view() == step_ids(steps@),
{
    let mut out: Vec<String> = Vec::new();
    let mut i: usize = 0;
    while i < steps.len()
        invariant
            i <= steps.len(),
            out@.len() == i,
            forall|k: int| 0 <= k < i ==> (#[trigger] out@[k])@ == steps@[k].id@,
        decreases steps.len() - i,
    {
        out.push(steps[i].id.clone());
        i += 1;
    }
    assert(out.deep_view() =~= step_ids(steps@));
    out
}

/// A plan as text.
pub fn plan_human(outcome: &PlanOutcome, color: bool) -> (r: String)
    ensures
        r@ == plan_text(outcome.steps@, outcome.total as nat, outcome.critical, color),
{
    let steps = &outcome.steps;
    if steps.len() == 0 {
        return String::from_str("Nothing to do - every prerequisite is already done.");
    }
    let width = display::longest_name(&ids_of(steps));
    let mut lines: Vec<String> = Vec::new();
    let mut i: usize = 0;
    while i < steps.len()
        invariant
            i <= steps.len(),
            lines@.len() == i,
            forall|k: int|
                0 <= k < i ==> (#[trigger] lines@[k])@ == step_line(
                    steps@[k],
                    (k + 1) as nat,
                    width as nat,
                    color,
                ),
        decreases steps.len() - i,
    {
        let place = text::pad_left(text::decimal_text((i + 1) as u64).as_str(), 2);
        let id = display::sgr(text::pad(steps[i].id.as_str(), width).as_str(), "36", color);
        lines.push(
            text::cat5(place.as_str(), ". ", id.as_str(), "  ", steps[i].status.as_str()),
        );
        i += 1;
    }
    let ghost listed = lines.deep_view();
    assert(listed =~= Seq::new(
        steps@.len(),
        |i: int| step_line(steps@[i], (i + 1) as nat, width as nat, color),
    ));
    let total = text::decimal_text(outcome.total as u64);
    let last = if outcome.critical {
        text::cat5(
            "(critical path: ",
            text::decimal_text(steps.len() as u64).as_str(),
            " of ",
            total.as_str(),
            " remaining task(s))",
        )
    } else {
        text::cat3("(", total.as_str(), " task(s) remaining, in order)")
    };
    lines.push(last);
    assert(lines.deep_view() =~= listed.push(last@));
    text::join(&lines, "\n")
}

/// One step as an object.
pub open spec fn step_value(step: PlanStep) -> JsonV {
    json::object(map![ID_KEY@ => JsonV::Str(step.id@), STATUS_KEY@ => JsonV::Str(step.status@)])
}

/// A plan as JSON.
pub fn plan_json(outcome: &PlanOutcome) -> (r: Json)
    ensures
        r@ == JsonV::List(
            Seq::new(outcome.steps@.len(), |i: int| step_value(outcome.steps@[i])),
        ),
{
    let steps = &outcome.steps;
    let mut out: Vec<Json> = Vec::new();
    let mut i: usize = 0;
    while i < steps.len()
        invariant
            i <= steps.len(),
            out@.len() == i,
            forall|k: int| 0 <= k < i ==> (#[trigger] out@[k])@ == step_value(steps@[k]),
        decreases steps.len() - i,
    {
        let mut m: StrMap<Json> = StrMap::new();
        m.insert(String::from_str(ID_KEY), Json::Str(steps[i].id.clone()));
        m.insert(String::from_str(STATUS_KEY), Json::Str(steps[i].status.clone()));
        out.push(json::make_object(m));
        i += 1;
    }
    assert(out.deep_view() =~= Seq::new(steps@.len(), |i: int| step_value(steps@[i])));
    json::make_list(out)
}

/// `lines`, each behind a sign and in a style.
pub open spec fn signed(
    lines: Seq<Seq<char>>,
    sign: Seq<char>,
    code: Seq<char>,
    color: bool,
) -> Seq<Seq<char>> {
    Seq::new(lines.len(), |i: int| display::styled(sign + lines[i], code, color))
}

/// The lines that went, red behind `- `, then those that came, green behind
/// `+ `.
pub open spec fn diff_text(
    removed: Seq<Seq<char>>,
    added: Seq<Seq<char>>,
    color: bool,
) -> Seq<char> {
    text::joined(signed(removed, "- "@, "31"@, color) + signed(added, "+ "@, "32"@, color), "\n"@)
}

fn sign_lines(lines: &Vec<String>, sign: &str, code: &str, color: bool) -> (r: Vec<String>)
    ensures
        r.deep_view() == signed(lines.deep_view(), sign@, code@, color),
{
    let mut out: Vec<String> = Vec::new();
    let mut i: usize = 0;
    while i < lines.len()
        invariant
            i <= lines.len(),
            out@.len() == i,
            forall|k: int|
                0 <= k < i ==> (#[trigger] out@[k])@ == display::styled(
                    sign@ + lines@[k]@,
                    code@,
                    color,
                ),
        decreases lines.len() - i,
    {
        out.push(display::sgr(text::cat2(sign, lines[i].as_str()).as_str(), code, color));
        i += 1;
    }
    assert(out.deep_view() =~= signed(lines.deep_view(), sign@, code@, color));
    out
}

/// The lines that went and came.
pub fn render_diff_lines(removed: &Vec<String>, added: &Vec<String>, color: bool) -> (r: String)
    ensures
        r@ == diff_text(removed.deep_view(), added.deep_view(), color),
{
    let mut lines = sign_lines(removed, "- ", "31", color);
    text::extend(&mut lines, sign_lines(added, "+ ", "32", color));
    text::join(&lines, "\n")
}

/// One changed task: its id and its lines.
pub open spec fn changed_block(c: ChangedV, color: bool) -> Seq<char> {
    c.id + ":\n"@ + diff_text(c.removed, c.added, color)
}

/// The changed tasks as text, a blank line between them.
pub fn watch_to_human(changed: &Vec<ChangedTask>, color: bool) -> (r: String)
    ensures
        r@ == text::joined(
            Seq::new(
                changed.deep_view().len(),
                |i: int| changed_block(changed.deep_view()[i], color),
            ),
            "\n\n"@,
        ),
{
    let ghost all = changed.deep_view();
    let mut out: Vec<String> = Vec::new();
    let mut i: usize = 0;
    while i < changed.len()
        invariant
            i <= changed.len(),
            all == changed.deep_view(),
            out@.len() == i,
            forall|k: int| 0 <= k < i ==> (#[trigger] out@[k])@ == changed_block(all[k], color),
        decreases changed.len() - i,
    {
        let c = &changed[i];
        assert(all[i as int] == c.deep_view());
        let diff = render_diff_lines(&c.removed, &c.added, color);
        out.push(text::cat3(c.id.as_str(), ":\n", diff.as_str()));
        i += 1;
    }
    assert(out.deep_view() =~= Seq::new(all.len(), |i: int| changed_block(all[i], color)));
    text::join(&out, "\n\n")
}

/// One changed task as an object.
pub open spec fn changed_value(c: ChangedV) -> JsonV {
    json::object(
        map![
            "id"@ => JsonV::Str(c.id),
            "removed"@ => order::text_list(c.removed),
            "added"@ => order::text_list(c.added),
        ],
    )
}

/// The changed tasks as JSON.
pub fn watch_to_json_value(changed: &Vec<ChangedTask>) -> (r: Json)
    ensures
        r@ == JsonV::List(
            Seq::new(changed.deep_view().len(), |i: int| changed_value(changed.deep_view()[i])),
        ),
{
    let ghost all = changed.deep_view();
    let mut out: Vec<Json> = Vec::new();
    let mut i: usize = 0;
    while i < changed.len()
        invariant
            i <= changed.len(),
            all == changed.deep_view(),
            out@.len() == i,
            forall|k: int| 0 <= k < i ==> (#[trigger] out@[k])@ == changed_value(all[k]),
        decreases changed.len() - i,
    {
        let c = &changed[i];
        assert(all[i as int] == c.deep_view());
        let mut m: StrMap<Json> = StrMap::new();
        m.insert(String::from_str("id"), Json::Str(c.id.clone()));
        m.insert(String::from_str("removed"), order::text_array(&c.removed));
        m.insert(String::from_str("added"), order::text_array(&c.added));
        out.push(json::make_object(m));
        i += 1;
    }
    assert(out.deep_view() =~= Seq::new(all.len(), |i: int| changed_value(all[i])));
    json::make_list(out)
}

/// The JSON of a summary holds each count under its name.
pub proof fn summaries_hold_their_counts(s: StatusSummary, seq: u64, k: Seq<char>)
    requires
        s.by_status@.dom().finite(),
    ensures
        ({
            let v = status_value(s, seq);
            let whole = |n: int| JsonV::Num(NumberV::Pos(n as u64));
            &&& resolve::member(v, "total"@) == Some(whole(s.total as int))
            &&& resolve::member(v, "no_status"@) == Some(whole(s.no_status as int))
            &&& resolve::member(v, "ready"@) == Some(whole(s.ready as int))
            &&& resolve::member(v, "blocked"@) == Some(whole(s.blocked as int))
            &&& resolve::member(v, "closed"@) == Some(whole(s.closed as int))
            &&& resolve::member(v, "seq"@) == Some(whole(seq as int))
            &&& resolve::member(v, "by_status"@) is Some
            &&& s.by_status@.contains_key(k) ==> resolve::member(
                resolve::member(v, "by_status"@)->0,
                k,
            ) == Some(whole(s.by_status@[k] as int))
            &&& !s.by_status@.contains_key(k) ==> resolve::member(
                resolve::member(v, "by_status"@)->0,
                k,
            ) is None
        }),
{
    reveal_strlit("total");
    reveal_strlit("by_status");
    reveal_strlit("no_status");
    reveal_strlit("ready");
    reveal_strlit("blocked");
    reveal_strlit("closed");
    reveal_strlit("seq");
    assert("total"@.len() == 5 && "by_status"@.len() == 9 && "no_status"@.len() == 9
        && "ready"@.len() == 5 && "blocked"@.len() == 7 && "closed"@.len() == 6 && "seq"@.len() == 3);
    assert("total"@[0] == 't' && "ready"@[0] == 'r' && "by_status"@[0] == 'b' && "no_status"@[0]
        == 'n');
    let by = counts_by_status(s.by_status@);
    assert(by.dom() =~= s.by_status@.dom());
    let m = map![
        "total"@ => number(s.total as u64),
        "by_status"@ => json::object(by),
        "no_status"@ => number(s.no_status as u64),
        "ready"@ => number(s.ready as u64),
        "blocked"@ => number(s.blocked as u64),
        "closed"@ => number(s.closed as u64),
        "seq"@ => number(seq),
    ];
    assert(status_value(s, seq) == json::object(m));
    resolve::objects_have_their_members(m, "total"@);
    resolve::objects_have_their_members(m, "no_status"@);
    resolve::objects_have_their_members(m, "ready"@);
    resolve::objects_have_their_members(m, "blocked"@);
    resolve::objects_have_their_members(m, "closed"@);
    resolve::objects_have_their_members(m, "seq"@);
    resolve::objects_have_their_members(m, "by_status"@);
    resolve::objects_have_their_members(by, k);
}

proof fn lemma_label_width(rows: Seq<(Seq<char>, usize)>)
    ensures
        label_width(rows) >= "Blocked"@.len(),
        forall|i: int| 0 <= i < rows.len() ==> (#[trigger] rows[i]).0.len() <= label_width(rows),
    decreases rows.len(),
{
    if rows.len() > 0 {
        let rest = rows.drop_last();
        lemma_label_width(rest);
        assert forall|i: int| 0 <= i < rows.len() implies (#[trigger] rows[i]).0.len()
            <= label_width(rows) by {
            if i < rest.len() {
                assert(rest[i] == rows[i]);
            }
        }
    }
}

proof fn lemma_count_width(rows: Seq<(Seq<char>, usize)>, least: nat)
    ensures
        count_width(rows, least) >= least,
        forall|i: int|
            0 <= i < rows.len() ==> text::decimal((#[trigger] rows[i]).1 as nat).len()
                <= count_width(rows, least),
    decreases rows.len(),
{
    if rows.len() > 0 {
        let rest = rows.drop_last();
        lemma_count_width(rest, least);
        assert forall|i: int| 0 <= i < rows.len() implies text::decimal(
            (#[trigger] rows[i]).1 as nat,
        ).len() <= count_width(rows, least) by {
            if i < rest.len() {
                assert(rest[i] == rows[i]);
            }
        }
    }
}

/// The lines of a summary are aligned: all labels and all counts have room in
/// their columns, so that without colors each line of a count is as long as the
/// next. There is a row for each status, and one more for tasks without any.
pub proof fn summaries_are_aligned(s: StatusSummary, seq: u64, i: int)
    requires
        0 <= i < status_rows(s).len(),
    ensures
        ({
            let rows = status_rows(s);
            let lw = label_width(rows);
            let cw = count_width(rows, fixed_width(s, seq));
            &&& count_line(rows[i].0, rows[i].1 as nat, lw, cw, false).len() == lw + 2 + cw
            &&& count_line("Total"@, s.total as nat, lw, cw, false).len() == lw + 2 + cw
            &&& count_line("Ready"@, s.ready as nat, lw, cw, false).len() == lw + 2 + cw
            &&& count_line("Blocked"@, s.blocked as nat, lw, cw, false).len() == lw + 2 + cw
            &&& count_line("Closed"@, s.closed as nat, lw, cw, false).len() == lw + 2 + cw
            &&& count_line("Seq"@, seq as nat, lw, cw, false).len() == lw + 2 + cw
            &&& s.by_status@.dom().finite() ==> rows.len() == strmap::sorted_of(
                s.by_status@.dom(),
            ).len() + if s.no_status > 0 {
                1int
            } else {
                0int
            }
        }),
{
    reveal_strlit("  ");
    reveal_strlit("Total");
    reveal_strlit("Ready");
    reveal_strlit("Blocked");
    reveal_strlit("Closed");
    reveal_strlit("Seq");
    let rows = status_rows(s);
    lemma_label_width(rows);
    lemma_count_width(rows, fixed_width(s, seq));
    assert("Total"@.len() == 5 && "Ready"@.len() == 5 && "Blocked"@.len() == 7 && "Closed"@.len()
        == 6 && "Seq"@.len() == 3 && "  "@.len() == 2);
}

/// A plan for people has a line for each step, in order and counted from one,
/// with the id and the status of the task, and a last line that counts the tasks
/// that remain.
pub proof fn plans_number_their_steps(
    steps: Seq<PlanStep>,
    total: nat,
    critical: bool,
    i: int,
)
    requires
        0 <= i < steps.len(),
    ensures
        exists|lines: Seq<Seq<char>>, width: nat|
            {
                &&& plan_text(steps, total, critical, false) == #[trigger] text::joined(
                    lines,
                    "\n"@,
                )
                &&& lines.len() == steps.len() + 1
                &&& lines[i] == #[trigger] numbered_step(i + 1, steps[i].id@, width, steps[i].status@)
                &&& !critical ==> lines.last() == "("@ + text::decimal(total)
                    + " task(s) remaining, in order)"@
                &&& critical ==> lines.last() == "(critical path: "@ + text::decimal(steps.len())
                    + " of "@ + text::decimal(total) + " remaining task(s))"@
            },
        plan_text(Seq::empty(), total, critical, false)
            == "Nothing to do - every prerequisite is already done."@,
{
    let width = display::longest(step_ids(steps));
    let lines = Seq::new(
        steps.len(),
        |k: int| step_line(steps[k], (k + 1) as nat, width, false),
    ).push(
        if critical {
            "(critical path: "@ + text::decimal(steps.len()) + " of "@ + text::decimal(total)
                + " remaining task(s))"@
        } else {
            "("@ + text::decimal(total) + " task(s) remaining, in order)"@
        },
    );
    display::styles_surround(text::padded(steps[i].id@, width), "36"@);
    assert(plan_text(steps, total, critical, false) == text::joined(lines, "\n"@));
    assert(lines[i] == numbered_step(i + 1, steps[i].id@, width, steps[i].status@));
}

/// The line of a step: its number, the id and what follows it.
pub open spec fn numbered_step(n: int, id: Seq<char>, width: nat, said: Seq<char>) -> Seq<char> {
    text::padded_left(text::decimal(n as nat), 2) + ". "@ + text::padded(id, width) + "  "@ + said
}

/// As JSON, a step has the id and the status of its task, and a change the id and
/// both sides.
pub proof fn steps_and_changes_have_members(step: PlanStep, c: ChangedV)
    ensures
        resolve::member(step_value(step), "id"@) == Some(JsonV::Str(step.id@)),
        resolve::member(step_value(step), "status"@) == Some(JsonV::Str(step.status@)),
        resolve::member(changed_value(c), "id"@) == Some(JsonV::Str(c.id)),
        resolve::member(changed_value(c), "removed"@) == Some(
            JsonV::List(c.removed.map_values(|t: Seq<char>| JsonV::Str(t))),
        ),
        resolve::member(changed_value(c), "added"@) == Some(
            JsonV::List(c.added.map_values(|t: Seq<char>| JsonV::Str(t))),
        ),
{
    reveal_strlit("id");
    reveal_strlit("status");
    reveal_strlit("removed");
    reveal_strlit("added");
    assert("id"@.len() == 2 && "status"@.len() == 6 && "removed"@.len() == 7 && "added"@.len()
        == 5);
    let m = map![ID_KEY@ => JsonV::Str(step.id@), STATUS_KEY@ => JsonV::Str(step.status@)];
    assert(step_value(step) == json::object(m));
    resolve::objects_have_their_members(m, "id"@);
    resolve::objects_have_their_members(m, "status"@);
    let n = map![
        "id"@ => JsonV::Str(c.id),
        "removed"@ => order::text_list(c.removed),
        "added"@ => order::text_list(c.added),
    ];
    assert(changed_value(c) == json::object(n));
    resolve::objects_have_their_members(n, "id"@);
    resolve::objects_have_their_members(n, "removed"@);
    resolve::objects_have_their_members(n, "added"@);
}

/// A difference shows the removed lines with a minus sign, then the added ones
/// with a plus sign.
pub proof fn differences_are_signed(removed: Seq<Seq<char>>, added: Seq<Seq<char>>, i: int)
    ensures
        exists|lines: Seq<Seq<char>>|
            {
                &&& diff_text(removed, added, false) == #[trigger] text::joined(lines, "\n"@)
                &&& lines.len() == removed.len() + added.len()
                &&& 0 <= i < removed.len() ==> lines[i] == "- "@ + removed[i]
                &&& 0 <= i < added.len() ==> lines[removed.len() + i] == "+ "@ + added[i]
            },
{
    let lines = signed(removed, "- "@, "31"@, false) + signed(added, "+ "@, "32"@, false);
    if 0 <= i < removed.len() {
        display::styles_surround("- "@ + removed[i], "31"@);
    }
    if 0 <= i < added.len() {
        display::styles_surround("+ "@ + added[i], "32"@);
        assert(lines[removed.len() + i] == signed(added, "+ "@, "32"@, false)[i]);
    }
    assert(diff_text(removed, added, false) == text::joined(lines, "\n"@));
}

/// Cycles for people: a line that counts them and a line for each, which names its
/// tasks; one of a single task says that it depends on itself.
pub proof fn cycles_have_a_line_each(cycles: Seq<Seq<Seq<char>>>, i: int)
    requires
        0 <= i < cycles.len(),
    ensures
        exists|lines: Seq<Seq<char>>|
            {
                &&& cycles_text(cycles, false) == #[trigger] text::joined(lines, "\n"@)
                &&& lines.len() == cycles.len() + 1
                &&& lines[0] == text::decimal(cycles.len()) + " dependency cycle(s):"@
                &&& cycles[i].len() == 1 ==> lines[i + 1] == "  "@ + cycles[i][0]
                    + " (depends on itself)"@
                &&& cycles[i].len() > 1 ==> lines[i + 1] == "  "@ + text::joined(
                    cycles[i],
                    " <-> "@,
                )
            },
        cycles_text(Seq::empty(), false) == "No dependency cycles."@,
        cycles_value(cycles) == JsonV::List(
            cycles.map_values(
                |g: Seq<Seq<char>>| JsonV::List(g.map_values(|t: Seq<char>| JsonV::Str(t))),
            ),
        ),
{
    let lines = seq![
        display::styled(text::decimal(cycles.len()) + " dependency cycle(s):"@, "1"@, false),
    ] + Seq::new(cycles.len(), |k: int| cycle_line(cycles[k]));
    display::styles_surround(text::decimal(cycles.len()) + " dependency cycle(s):"@, "1"@);
    assert(lines[i + 1] == cycle_line(cycles[i]));
    assert(cycles_text(cycles, false) == text::joined(lines, "\n"@));
    assert(Seq::new(cycles.len(), |k: int| order::text_list(cycles[k])) =~= cycles.map_values(
        |g: Seq<Seq<char>>| JsonV::List(g.map_values(|t: Seq<char>| JsonV::Str(t))),
    ));
}

/// What a write of edges reports: the number written, or that nothing changed.
pub proof fn written_edges_are_counted(task: Seq<char>, verb: Seq<char>, written: nat)
    ensures
        written > 0 ==> edges_text(task, verb, written) == verb + " "@ + text::decimal(written)
            + " edge(s) on `"@ + task + "`"@,
        written == 0 ==> edges_text(task, verb, written) == "no changes on `"@ + task + "`"@,
{
}

} // verus!
