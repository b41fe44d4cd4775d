//! What a repair is asked for, and the report on what it did.

use crate::text;
use vstd::prelude::*;

verus! {

/// A field that moved to another name: how many records it moved on, and how
/// many kept the old one.
pub struct RenameOutcome {
    pub old: String,
    pub new: String,
    pub moved: usize,
    pub kept: usize,
}

/// What the fixes toward the task-type schemas did: the tasks that got a type,
/// the values that were fixed, and the tasks that still do not conform.
pub struct SchemaRepairReport {
    pub rename: Option<RenameOutcome>,
    pub typed: Vec<String>,
    pub fixes: Vec<String>,
    pub remaining: Vec<String>,
    pub changed: bool,
}

/// What a repair runs.
#[derive(Clone, Copy, Debug, PartialEq, Eq, Structural)]
pub struct RepairSteps {
    /// Bring the files to the current format.
    pub migrate: bool,
    /// Fix the data toward the task-type schemas.
    pub schema: bool,
}

/// What is said when a repair is asked for nothing.
pub const NOTHING_ASKED: &'static str = "Nothing to do. Pass `--migrate` (on-disk format), `--schema` (lossless fixes toward the declared task types), `--rename new=old`, and/or `--set-type-if-none TYPE`.";

/// What a repair runs. A rename, and a type for the tasks without one, go with
/// the fixes toward the schemas; asked for nothing it runs nothing.
pub fn repair_steps(migrate: bool, schema: bool, rename: bool, set_type: bool) -> (r: Option<
    RepairSteps,
>)
    ensures
        r == if migrate || schema || rename || set_type {
            Some((RepairSteps { migrate, schema: schema || rename || set_type }))
        } else {
            None
        },
{
    if migrate || schema || rename || set_type {
        Some(RepairSteps { migrate, schema: schema || rename || set_type })
    } else {
        None
    }
}

/// Each of `items` behind `lead`.
pub open spec fn led(lead: Seq<char>, items: Seq<Seq<char>>) -> Seq<Seq<char>> {
    Seq::new(items.len(), |i: int| lead + items[i])
}

fn lead_with(lead: &str, items: &Vec<String>) -> (r: Vec<String>)
    ensures
        r.deep_view() == led(lead@, items.deep_view()),
{
    let ghost all = items.deep_view();
    let mut out: Vec<String> = Vec::new();
    let mut i: usize = 0;
    while i < items.len()
        invariant
            i <= items.len(),
            all == items.deep_view(),
            out@.len() == i,
            forall|k: int| 0 <= k < i ==> (#[trigger] out@[k])@ == lead@ + all[k],
        decreases items.len() - i,
    {
        out.push(text::cat2(lead, items[i].as_str()));
        i += 1;
    }
    assert(out.deep_view() =~= led(lead@, all));
    out
}

/// The report on a change of format: a line for each migration, by name and the
/// number of events.
pub open spec fn migration_lines(done: Seq<(Seq<char>, usize)>) -> Seq<Seq<char>> {
    if done.len() == 0 {
        seq!["Already up to date; nothing to migrate."@]
    } else {
        Seq::new(
            done.len(),
            |i: int|
                "migrated `"@ + done[i].0 + "`: "@ + text::decimal(done[i].1 as nat)
                    + " event(s)"@,
        ).push("Done."@)
    }
}

/// The report on a change of format.
pub fn render_migrate(done: &Vec<(String, usize)>) -> (r: Vec<String>)
    ensures
        r.deep_view() == migration_lines(done.deep_view()),
{
    let ghost all = done.deep_view();
    let mut out: Vec<String> = Vec::new();
    assert(all.len() == done.len());
    if done.len() == 0 {
        out.push(String::from_str("Already up to date; nothing to migrate."));
        assert(out.deep_view() =~= migration_lines(all));
        return out;
    }
    let mut i: usize = 0;
    while i < done.len()
        invariant
            i <= done.len(),
            all == done.deep_view(),
            out@.len() == i,
            forall|k: int|
                0 <= k < i ==> (#[trigger] out@[k])@ == "migrated `"@ + all[k].0 + "`: "@
                    + text::decimal(all[k].1 as nat) + " event(s)"@,
        decreases done.len() - i,
    {
        let (name, events) = &done[i];
        assert(all[i as int] == done@[i as int].deep_view());
        out.push(
            text::cat5(
                "migrated `",
                name.as_str(),
                "`: ",
                text::decimal_text(*events as u64).as_str(),
                " event(s)",
            ),
        );
        i += 1;
    }
    out.push(String::from_str("Done."));
    assert(out.deep_view() =~= migration_lines(all));
    out
}

/// The lines on a renamed field.
pub open spec fn rename_lines(rename: Option<RenameOutcome>) -> Seq<Seq<char>> {
    match rename {
        None => Seq::empty(),
        Some(o) => seq![
            "renamed `"@ + o.old@ + "` -> `"@ + o.new@ + "`: "@ + text::decimal(o.moved as nat)
                + " record(s)"@,
        ] + text::listed(
            o.kept > 0,
            "kept `"@ + o.old@ + "` on "@ + text::decimal(o.kept as nat)
                + " record(s): the value doesn't name a declared task type (repair never writes data the schema would reject)"@,
        ),
    }
}

fn lines_of_rename(rename: &Option<RenameOutcome>) -> (r: Vec<String>)
    ensures
        r.deep_view() == rename_lines(*rename),
{
    let mut out: Vec<String> = Vec::new();
    assert(out.deep_view() =~= Seq::empty());
    if let Some(o) = rename {
        let moved = text::decimal_text(o.moved as u64);
        let line = text::cat7(
            "renamed `",
            o.old.as_str(),
            "` -> `",
            o.new.as_str(),
            "`: ",
            moved.as_str(),
            " record(s)",
        );
        let ghost first = line@;
        out.push(line);
        assert(out.deep_view() =~= seq![first]);
        let kept = text::cat5(
            "kept `",
            o.old.as_str(),
            "` on ",
            text::decimal_text(o.kept as u64).as_str(),
            " record(s): the value doesn't name a declared task type (repair never writes data the schema would reject)",
        );
        text::extend(&mut out, text::list_if(o.kept > 0, kept));
    }
    out
}

/// The lines on the tasks that still do not conform.
pub open spec fn remaining_lines(remaining: Seq<Seq<char>>) -> Seq<Seq<char>> {
    if remaining.len() == 0 {
        Seq::empty()
    } else {
        seq![
            text::decimal(remaining.len())
                + " task(s) still don't conform (fix each with one `ta update <id> field=value ...`, which must bring the whole task into conformance):"@,
        ] + led("  "@, remaining)
    }
}

/// The report on the fixes: what moved, what was typed and fixed, that nothing
/// was, and what is left to do by hand.
pub open spec fn schema_lines(report: SchemaRepairReport) -> Seq<Seq<char>> {
    rename_lines(report.rename) + led("typed "@, report.typed.deep_view()) + led(
        "fixed "@,
        report.fixes.deep_view(),
    ) + text::listed(!report.changed, "Nothing to fix."@) + remaining_lines(
        report.remaining.deep_view(),
    )
}

/// The report on the fixes.
pub fn render_schema(report: &SchemaRepairReport) -> (r: Vec<String>)
    ensures
        r.deep_view() == schema_lines(*report),
{
    let mut out = lines_of_rename(&report.rename);
    text::extend(&mut out, lead_with("typed ", &report.typed));
    text::extend(&mut out, lead_with("fixed ", &report.fixes));
    text::extend(&mut out, text::list_if(!report.changed, String::from_str("Nothing to fix.")));
    let n = report.remaining.len();
    assert(report.remaining.deep_view().len() == n);
    let mut tail: Vec<String> = Vec::new();
    assert(tail.deep_view() =~= Seq::empty());
    if n > 0 {
        let head = text::cat2(
            text::decimal_text(n as u64).as_str(),
            " task(s) still don't conform (fix each with one `ta update <id> field=value ...`, which must bring the whole task into conformance):",
        );
        let ghost first = head@;
        tail.push(head);
        assert(tail.deep_view() =~= seq![first]);
        text::extend(&mut tail, lead_with("  ", &report.remaining));
    }
    text::extend(&mut out, tail);
    out
}

/// A repair reports what it renamed, each task that it typed, each fix and each
/// task that remains; that there is nothing to fix where it changed nothing.
pub proof fn repairs_report_everything(report: SchemaRepairReport, i: int)
    ensures
        ({
            let lines = schema_lines(report);
            let typed = report.typed.deep_view();
            let fixes = report.fixes.deep_view();
            let rest = report.remaining.deep_view();
            &&& 0 <= i < typed.len() ==> lines.contains("typed "@ + typed[i])
            &&& 0 <= i < fixes.len() ==> lines.contains("fixed "@ + fixes[i])
            &&& 0 <= i < rest.len() ==> lines.contains("  "@ + rest[i])
            &&& !report.changed ==> lines.contains("Nothing to fix."@)
            &&& report.rename matches Some(o) ==> lines[0] == "renamed `"@ + o.old@ + "` -> `"@
                + o.new@ + "`: "@ + text::decimal(o.moved as nat) + " record(s)"@
            &&& report.rename is None && report.changed && rest.len() == 0 ==> lines.len()
                == typed.len() + fixes.len()
        }),
{
    let a = rename_lines(report.rename);
    let b = led("typed "@, report.typed.deep_view());
    let c = led("fixed "@, report.fixes.deep_view());
    let d = text::listed(!report.changed, "Nothing to fix."@);
    let e = remaining_lines(report.remaining.deep_view());
    let lines = schema_lines(report);
    assert(lines == a + b + c + d + e);
    if 0 <= i < b.len() {
        assert(lines[a.len() + i] == b[i]);
    }
    if 0 <= i < c.len() {
        assert(lines[a.len() + b.len() + i] == c[i]);
    }
    if !report.changed {
        assert(lines[(a.len() + b.len() + c.len()) as int] == d[0]);
    }
    if 0 <= i < report.remaining.deep_view().len() {
        assert(lines[a.len() + b.len() + c.len() + d.len() + 1 + i] == e[1 + i]);
    }
}

/// A migration reports each file with its events, or that there was nothing to
/// do.
pub proof fn migrations_report_each_file(done: Seq<(Seq<char>, usize)>, i: int)
    ensures
        0 <= i < done.len() ==> migration_lines(done)[i] == "migrated `"@ + done[i].0 + "`: "@
            + text::decimal(done[i].1 as nat) + " event(s)"@,
        done.len() > 0 ==> migration_lines(done).len() == done.len() + 1,
        done.len() == 0 ==> migration_lines(done) == seq!["Already up to date; nothing to migrate."@],
{
}

/// A repair does what is asked for: the files are brought to the current format
/// where that is asked for and only then, and the data where its fixes, a rename
/// or a type for tasks are; it does nothing where nothing is asked for.
pub proof fn repairs_do_what_is_asked(
    migrate: bool,
    schema: bool,
    rename: bool,
    set_type: bool,
    r: Option<RepairSteps>,
)
    requires
        call_ensures(repair_steps, (migrate, schema, rename, set_type), r),
    ensures
        r is None <==> !migrate && !schema && !rename && !set_type,
        r is Some ==> r->0.migrate == migrate,
        r is Some ==> (r->0.schema <==> schema || rename || set_type),
{
}

} // verus!
