//! The lines that commands report their work with.

use crate::compact::CompactOutcome;
use crate::json;
use crate::model::{self, OpType, TaskState, TaskV, DEPENDS_ON};
use crate::resolve::{ConflictItem, ConflictV, OrphanEvent, OrphanV};
use crate::strmap::Data;
use crate::text;
use crate::undo::{UndoChange, UndoPlan, UndoneEvent, UndoneV};
use vstd::prelude::*;

verus! {

/// The name of an operation.
pub open spec fn op_text(op: OpType) -> Seq<char> {
    match op {
        OpType::Create => "Create"@,
        OpType::Update => "Update"@,
        OpType::Append => "Append"@,
        OpType::AddEdge => "AddEdge"@,
        OpType::RemoveEdge => "RemoveEdge"@,
        OpType::Delete => "Delete"@,
    }
}

/// The name of an operation.
pub fn op_name(op: OpType) -> (r: &'static str)
    ensures
        r@ == op_text(op),
{
    match op {
        OpType::Create => "Create",
        OpType::Update => "Update",
        OpType::Append => "Append",
        OpType::AddEdge => "AddEdge",
        OpType::RemoveEdge => "RemoveEdge",
        OpType::Delete => "Delete",
    }
}

/// The line of one event behind `lead`.
pub open spec fn event_line(lead: Seq<char>, seq: u64, op: OpType, task: Seq<char>) -> Seq<char> {
    lead + text::decimal(seq as nat) + ": "@ + op_text(op) + " `"@ + task + "`"@
}

fn line_of_event(lead: &str, seq: u64, op: OpType, task: &str) -> (r: String)
    ensures
        r@ == event_line(lead@, seq, op, task@),
{
    text::cat7(lead, text::decimal_text(seq).as_str(), ": ", op_name(op), " `", task, "`")
}

/// What a compaction did.
pub open spec fn compaction_text(o: CompactOutcome) -> Seq<char> {
    match o {
        CompactOutcome::NothingToDo { log_len, keep_events } => "Nothing to compact ("@
            + text::decimal(log_len as nat) + " event(s) in log, keep_events = "@ + text::decimal(
            keep_events as nat,
        ) + ")"@,
        CompactOutcome::Compacted { folded, baseline_tasks, kept } => "Compacted "@ + text::decimal(
            folded as nat,
        ) + " event(s) into baseline ("@ + text::decimal(baseline_tasks as nat)
            + " task(s)); kept "@ + text::decimal(kept as nat) + " recent event(s)"@,
    }
}

/// What a compaction did.
pub fn compacted(o: &CompactOutcome) -> (r: String)
    ensures
        r@ == compaction_text(*o),
{
    match o {
        CompactOutcome::NothingToDo { log_len, keep_events } => text::cat5(
            "Nothing to compact (",
            text::decimal_text(*log_len as u64).as_str(),
            " event(s) in log, keep_events = ",
            text::decimal_text(*keep_events as u64).as_str(),
            ")",
        ),
        CompactOutcome::Compacted { folded, baseline_tasks, kept } => text::cat7(
            "Compacted ",
            text::decimal_text(*folded as u64).as_str(),
            " event(s) into baseline (",
            text::decimal_text(*baseline_tasks as u64).as_str(),
            " task(s)); kept ",
            text::decimal_text(*kept as u64).as_str(),
            " recent event(s)",
        ),
    }
}

/// The events an undo takes back.
pub open spec fn undone_lines(undone: Seq<UndoneV>) -> Seq<Seq<char>> {
    seq!["Undoing "@ + text::decimal(undone.len()) + " event(s):"@] + Seq::new(
        undone.len(),
        |i: int| event_line("  seq "@, undone[i].seq, undone[i].op, undone[i].task_id),
    )
}

/// The events an undo takes back, a line each.
pub fn render_undone(undone: &Vec<UndoneEvent>) -> (r: Vec<String>)
    ensures
        r.deep_view() == undone_lines(undone.deep_view()),
{
    let ghost all = undone.deep_view();
    let mut out: Vec<String> = Vec::new();
    out.push(
        text::cat3("Undoing ", text::decimal_text(undone.len() as u64).as_str(), " event(s):"),
    );
    let ghost head = out@[0]@;
    let mut i: usize = 0;
    while i < undone.len()
        invariant
            i <= undone.len(),
            all == undone.deep_view(),
            out@.len() == i + 1,
            out@[0]@ == head,
            forall|k: int|
                1 <= k <= i ==> (#[trigger] out@[k])@ == event_line(
                    "  seq "@,
                    all[k - 1].seq,
                    all[k - 1].op,
                    all[k - 1].task_id,
                ),
        decreases undone.len() - i,
    {
        let e = &undone[i];
        assert(all[i as int] == e.deep_view());
        out.push(line_of_event("  seq ", e.seq, e.op, e.task_id.as_str()));
        i += 1;
    }
    assert(out.deep_view() =~= undone_lines(all));
    out
}

/// The warning after an undo that dropped committed events.
pub const REWRITTEN: &'static str = "DANGER: --remove deleted committed event(s), rewriting shared history. Other branches will see a removal on merge; only do this if you are sure the removed events were never pushed or pulled elsewhere.";

/// The line of one conflict.
pub open spec fn conflict_line(c: ConflictV) -> Seq<char> {
    (match c.field {
        Some(f) => "  - `"@ + c.task_id + "`."@ + f,
        None => "  - `"@ + c.task_id + "` (whole task)"@,
    }) + ": ours="@ + json::compact(c.ours) + " / theirs="@ + json::compact(c.theirs) + " -> kept "@
        + c.kept
}

/// What is said after the conflicts.
pub const AFTER_CONFLICTS: &'static str = "\nThe tentative merge is already written to the log. To accept it, `git add` the files and commit; to pick differently, edit the log or re-merge with a different `on_conflict` strategy.";

/// The conflicts a merge recorded; nothing without a record.
pub open spec fn conflict_lines(conflicts: Option<Seq<ConflictV>>) -> Seq<Seq<char>> {
    match conflicts {
        None => Seq::empty(),
        Some(items) => if items.len() == 0 {
            seq!["Merge marker present but lists no conflicts."@]
        } else {
            (seq![
                text::decimal(items.len())
                    + " field conflict(s) were merged tentatively (keeping ours):"@,
            ] + Seq::new(items.len(), |i: int| conflict_line(items[i]))).push(AFTER_CONFLICTS@)
        },
    }
}

fn line_of_conflict(c: &ConflictItem) -> (r: String)
    ensures
        r@ == conflict_line(c.deep_view()),
{
    let what = match &c.field {
        Some(f) => text::cat2(
            text::cat3("  - `", c.task_id.as_str(), "`.").as_str(),
            f.as_str(),
        ),
        None => text::cat3("  - `", c.task_id.as_str(), "` (whole task)"),
    };
    text::cat7(
        what.as_str(),
        ": ours=",
        json::compact_text(&c.ours).as_str(),
        " / theirs=",
        json::compact_text(&c.theirs).as_str(),
        " -> kept ",
        c.kept.as_str(),
    )
}

/// The conflicts a merge recorded.
pub fn render_conflicts(conflicts: &Option<Vec<ConflictItem>>) -> (r: Vec<String>)
    ensures
        r.deep_view() == conflict_lines(conflicts.deep_view()),
{
    let mut out: Vec<String> = Vec::new();
    match conflicts {
        None => {
            assert(out.deep_view() =~= Seq::empty());
        },
        Some(items) => {
            let ghost all = items.deep_view();
            if items.len() == 0 {
                out.push(String::from_str("Merge marker present but lists no conflicts."));
                assert(out.deep_view() =~= conflict_lines(Some(all)));
                return out;
            }
            out.push(
                text::cat2(
                    text::decimal_text(items.len() as u64).as_str(),
                    " field conflict(s) were merged tentatively (keeping ours):",
                ),
            );
            let ghost head = out@[0]@;
            let mut i: usize = 0;
            while i < items.len()
                invariant
                    i <= items.len(),
                    all == items.deep_view(),
                    out@.len() == i + 1,
                    out@[0]@ == head,
                    forall|k: int|
                        1 <= k <= i ==> (#[trigger] out@[k])@ == conflict_line(all[k - 1]),
                decreases items.len() - i,
            {
                assert(all[i as int] == items@[i as int].deep_view());
                out.push(line_of_conflict(&items[i]));
                i += 1;
            }
            out.push(String::from_str(AFTER_CONFLICTS));
            assert(out.deep_view() =~= conflict_lines(Some(all)));
        },
    }
    out
}

/// The events that belong to no task.
pub open spec fn orphan_lines(orphans: Seq<OrphanV>) -> Seq<Seq<char>> {
    seq![
        text::decimal(orphans.len())
            + " orphaned event(s) apply to no existing task and would be dropped:"@,
    ] + Seq::new(
        orphans.len(),
        |i: int| event_line("  - seq "@, orphans[i].seq, orphans[i].op, orphans[i].task_id),
    )
}

/// The events that belong to no task, a line each.
pub fn render_orphans(orphans: &Vec<OrphanEvent>) -> (r: Vec<String>)
    ensures
        r.deep_view() == orphan_lines(orphans.deep_view()),
{
    let ghost all = orphans.deep_view();
    let mut out: Vec<String> = Vec::new();
    out.push(
        text::cat2(
            text::decimal_text(orphans.len() as u64).as_str(),
            " orphaned event(s) apply to no existing task and would be dropped:",
        ),
    );
    let ghost head = out@[0]@;
    let mut i: usize = 0;
    while i < orphans.len()
        invariant
            i <= orphans.len(),
            all == orphans.deep_view(),
            out@.len() == i + 1,
            out@[0]@ == head,
            forall|k: int|
                1 <= k <= i ==> (#[trigger] out@[k])@ == event_line(
                    "  - seq "@,
                    all[k - 1].seq,
                    all[k - 1].op,
                    all[k - 1].task_id,
                ),
        decreases orphans.len() - i,
    {
        let e = &orphans[i];
        assert(all[i as int] == e.deep_view());
        out.push(line_of_event("  - seq ", e.seq, e.op, e.task_id.as_str()));
        i += 1;
    }
    assert(out.deep_view() =~= orphan_lines(all));
    out
}

/// What is said after a clean-up: how many events went, or that there was
/// nothing to do.
pub fn resolved(cleared: bool, dropped: usize) -> (r: Vec<String>)
    ensures
        r.deep_view() == if dropped > 0 {
            seq!["Dropped "@ + text::decimal(dropped as nat) + " orphaned event(s) from the log."@]
        } else if !cleared {
            seq!["Nothing to resolve (no merge conflicts and no orphaned events)."@]
        } else {
            Seq::empty()
        },
{
    let mut out: Vec<String> = Vec::new();
    if dropped > 0 {
        let line = text::cat3(
            "Dropped ",
            text::decimal_text(dropped as u64).as_str(),
            " orphaned event(s) from the log.",
        );
        out.push(line);
        assert(out.deep_view() =~= seq![line@]);
    } else if !cleared {
        out.push(
            String::from_str("Nothing to resolve (no merge conflicts and no orphaned events)."),
        );
        assert(out.deep_view() =~= seq![
            "Nothing to resolve (no merge conflicts and no orphaned events)."@,
        ]);
    } else {
        assert(out.deep_view() =~= Seq::empty());
    }
    out
}

/// The debug form of a list of texts.
pub uninterp spec fn debug_list(items: Seq<Seq<char>>) -> Seq<char>;

/// The `Debug` form of a `Vec<String>`. It depends on the texts alone; nothing
/// else is claimed of it.
#[verifier::external_body]
fn debug_text(items: &Vec<String>) -> (r: String)
    ensures
        r@ == debug_list(items.deep_view()),
{
    format!("{items:?}")
}

/// A task on one line: its fields as JSON, and its dependencies if it has any.
pub open spec fn description(task: Option<TaskV>) -> Seq<char> {
    match task {
        None => "(absent)"@,
        Some(t) => {
            let fields = json::compact(json::object(t.custom_fields));
            let deps = model::targets(t.relationships, DEPENDS_ON@);
            if deps.len() == 0 {
                fields
            } else {
                fields + " deps="@ + debug_list(deps)
            }
        },
    }
}

/// A task on one line.
pub fn describe(task: Option<&TaskState>) -> (r: String)
    ensures
        r@ == description(task.deep_view()),
{
    match task {
        None => String::from_str("(absent)"),
        Some(t) => {
            let fields = json::compact_text(&json::make_object(t.custom_fields.copy()));
            let deps = t.depends_on();
            assert(deps.deep_view().len() == deps.len());
            if deps.len() == 0 {
                fields
            } else {
                text::cat3(fields.as_str(), " deps=", debug_text(&deps).as_str())
            }
        },
    }
}

/// The line that a task was and the line that it is; none where they are the
/// same.
pub open spec fn task_lines(before: Option<TaskV>, after: Option<TaskV>) -> (
    Seq<Seq<char>>,
    Seq<Seq<char>>,
) {
    let (was, is_now) = (description(before), description(after));
    if was == is_now {
        (Seq::empty(), Seq::empty())
    } else {
        (seq![was], seq![is_now])
    }
}

/// The line that a task was and the line that it is; none where they are the
/// same.
pub fn task_diff(before: Option<&TaskState>, after: Option<&TaskState>) -> (r: (
    Vec<String>,
    Vec<String>,
))
    ensures
        (r.0.deep_view(), r.1.deep_view()) == task_lines(before.deep_view(), after.deep_view()),
{
    let was = describe(before);
    let now = describe(after);
    let mut removed: Vec<String> = Vec::new();
    let mut added: Vec<String> = Vec::new();
    let ghost lines = (was@, now@);
    if !text::same_text(was.as_str(), now.as_str()) {
        removed.push(was);
        added.push(now);
        assert(removed.deep_view() =~= seq![lines.0]);
        assert(added.deep_view() =~= seq![lines.1]);
    } else {
        assert(removed.deep_view() =~= Seq::<Seq<char>>::empty());
        assert(added.deep_view() =~= Seq::<Seq<char>>::empty());
    }
    (removed, added)
}

/// Whether an answer to a question is a yes.
pub open spec fn yes(answer: Seq<char>) -> bool {
    let a = text::trimmed(answer);
    let low = a.map_values(|c: char| text::lower_ascii(c));
    low == "y"@ || low == "yes"@
}

/// Whether `answer` is a yes, in upper or lower case.
pub fn is_yes(answer: &str) -> (r: bool)
    ensures
        r == yes(answer@),
{
    let a = text::trim(answer);
    let low = text::to_lower_ascii(a.as_str());
    text::same_text(low.as_str(), "y") || text::same_text(low.as_str(), "yes")
}

/// What is said when there is nothing to undo.
pub const NOTHING_TO_UNDO: &'static str = "Nothing to undo.";

/// The question before an undo.
pub const APPLY_UNDO: &'static str = "Apply this undo?";

/// What is said when an undo is not wanted after all.
pub const UNDO_ABORTED: &'static str = "Aborted; nothing changed.";

/// The lines on what an undo changes: the name of each task whose lines
/// change, and those lines.
pub open spec fn change_lines(ids: Seq<Seq<char>>, diffs: Seq<Seq<char>>) -> Seq<Seq<char>>
    decreases ids.len(),
{
    if ids.len() == 0 || ids.len() != diffs.len() {
        Seq::empty()
    } else {
        change_lines(ids.drop_last(), diffs.drop_last()) + if diffs.last().len() == 0 {
            Seq::empty()
        } else {
            seq![ids.last() + ":"@, diffs.last()]
        }
    }
}

/// The ids of the tasks that a plan touches.
pub open spec fn change_ids(changes: Seq<UndoChange>) -> Seq<Seq<char>> {
    Seq::new(changes.len(), |i: int| changes[i].id@)
}

/// What is shown before an undo: the events it takes back, and for each task
/// that they touch the lines that change. `diffs` holds those lines, in the
/// order of the plan's changes.
pub fn undo_preview(plan: &UndoPlan, diffs: &Vec<String>) -> (r: Vec<String>)
    requires
        diffs.len() == plan.changes.len(),
    ensures
        r.deep_view() == undone_lines(plan.undone.deep_view()) + change_lines(
            change_ids(plan.changes@),
            diffs.deep_view(),
        ),
{
    let mut out = render_undone(&plan.undone);
    let ghost head = out.deep_view();
    let ghost ids = change_ids(plan.changes@);
    let ghost all = diffs.deep_view();
    let mut i: usize = 0;
    assert(change_lines(ids.take(0), all.take(0)) =~= Seq::empty());
    assert(out.deep_view() =~= head + change_lines(ids.take(0), all.take(0)));
    while i < diffs.len()
        invariant
            i <= diffs.len(),
            diffs.len() == plan.changes.len(),
            ids == change_ids(plan.changes@),
            all == diffs.deep_view(),
            out.deep_view() == head + change_lines(ids.take(i as int), all.take(i as int)),
        decreases diffs.len() - i,
    {
        let ghost had = out.deep_view();
        let ghost is = ids.take(i as int + 1);
        let ghost ds = all.take(i as int + 1);
        assert(is.drop_last() =~= ids.take(i as int));
        assert(ds.drop_last() =~= all.take(i as int));
        assert(ds.last() == diffs@[i as int]@);
        assert(is.last() == plan.changes@[i as int].id@);
        if !text::is_blank(diffs[i].as_str()) {
            let name = text::cat2(plan.changes[i].id.as_str(), ":");
            let ghost first = name@;
            out.push(name);
            out.push(diffs[i].clone());
            assert(out.deep_view() =~= had + seq![first, ds.last()]);
        }
        assert(out.deep_view() =~= head + change_lines(is, ds));
        i += 1;
    }
    assert(ids.take(ids.len() as int) =~= ids);
    assert(all.take(all.len() as int) =~= all);
    out
}

/// A number of an event, as it stands before what is said of it.
pub open spec fn tag(seq: u64) -> Seq<char> {
    "[seq:"@ + text::decimal(seq as nat) + "]"@
}

/// What is said once an undo is done; the number is that of the last event.
pub fn undo_done(seq: u64) -> (r: String)
    ensures
        r@ == tag(seq) + " Undone."@,
{
    let n = text::decimal_text(seq);
    let r = text::cat3("[seq:", n.as_str(), "] Undone.");
    proof {
        reveal_strlit("] Undone.");
        reveal_strlit("]");
        reveal_strlit(" Undone.");
        assert("] Undone."@ =~= "]"@ + " Undone."@);
        assert(r@ =~= tag(seq) + " Undone."@);
    }
    r
}

/// What is said of an update: the number of its last event, or that it changed
/// nothing.
pub fn updated(id: &str, last: Option<u64>) -> (r: String)
    ensures
        r@ == match last {
            Some(seq) => "[seq:"@ + text::decimal(seq as nat) + "] Updated task `"@ + id@ + "`"@,
            None => "`"@ + id@ + "` already up to date - no changes"@,
        },
{
    match last {
        Some(seq) => text::cat5(
            "[seq:",
            text::decimal_text(seq).as_str(),
            "] Updated task `",
            id,
            "`",
        ),
        None => text::cat3("`", id, "` already up to date - no changes"),
    }
}

/// What is said of a flag that lets in new field names where there were none.
pub const NO_NEW_FIELDS: &'static str = "warning: --new-field had no effect - no new field names were introduced";

/// What is said of a new task.
pub fn created(id: &str) -> (r: String)
    ensures
        r@ == "Created task `"@ + id@ + "`"@,
{
    text::cat3("Created task `", id, "`")
}

/// What is said of a deleted task; the number is that of the deletion, 0 if
/// nothing was written.
pub fn deleted(id: &str, last: Option<u64>) -> (r: String)
    ensures
        r@ == "[seq:"@ + text::decimal(
            (match last {
                Some(seq) => seq,
                None => 0,
            }) as nat,
        ) + "] Deleted task `"@ + id@ + "`"@,
{
    let seq: u64 = match last {
        Some(seq) => seq,
        None => 0,
    };
    text::cat5("[seq:", text::decimal_text(seq).as_str(), "] Deleted task `", id, "`")
}

/// An answer is a yes where it is `y` or `yes`, in letters of either case, with
/// nothing but white space around it.
pub proof fn answers_are_read(answer: Seq<char>)
    ensures
        ({
            let a = text::trimmed(answer);
            yes(answer) <==> {
                ||| a.len() == 1 && (a[0] == 'y' || a[0] == 'Y')
                ||| a.len() == 3 && (a[0] == 'y' || a[0] == 'Y') && (a[1] == 'e' || a[1] == 'E') && (
                a[2] == 's' || a[2] == 'S')
            }
        }),
{
    reveal_strlit("y");
    reveal_strlit("yes");
    let a = text::trimmed(answer);
    let low = a.map_values(|c: char| text::lower_ascii(c));
    assert forall|c: char|
        #![trigger text::lower_ascii(c)]
        (text::lower_ascii(c) == 'y' <==> c == 'y' || c == 'Y') && (text::lower_ascii(c) == 'e'
            <==> c == 'e' || c == 'E') && (text::lower_ascii(c) == 's' <==> c == 's' || c == 'S') by {
        lemma_lower(c);
    }
    if a.len() == 1 {
        assert(low[0] == text::lower_ascii(a[0]));
        assert(low[0] == 'y' ==> low =~= "y"@);
    }
    if a.len() == 3 {
        assert(low[0] == text::lower_ascii(a[0]) && low[1] == text::lower_ascii(a[1]) && low[2]
            == text::lower_ascii(a[2]));
        assert(low[0] == 'y' && low[1] == 'e' && low[2] == 's' ==> low =~= "yes"@);
    }
    if yes(answer) {
        assert(low == "y"@ || low == "yes"@);
        assert("y"@[0] == 'y' && "yes"@[0] == 'y' && "yes"@[1] == 'e' && "yes"@[2] == 's');
    }
}

proof fn lemma_lower(c: char)
    ensures
        text::lower_ascii(c) == 'y' <==> c == 'y' || c == 'Y',
        text::lower_ascii(c) == 'e' <==> c == 'e' || c == 'E',
        text::lower_ascii(c) == 's' <==> c == 's' || c == 'S',
{
}

/// The lines of a change: none where a task reads as it did, else how it read and
/// how it reads now.
pub proof fn changes_show_both_sides(before: Option<TaskV>, after: Option<TaskV>)
    ensures
        description(before) == description(after) ==> task_lines(before, after).0.len() == 0
            && task_lines(before, after).1.len() == 0,
        description(before) != description(after) ==> task_lines(before, after).0 == seq![
            description(before),
        ] && task_lines(before, after).1 == seq![description(after)],
        before == after ==> task_lines(before, after).0.len() == 0,
        description(None) == "(absent)"@,
{
}

/// The kinds of events have different names.
pub proof fn kinds_have_names(a: OpType, b: OpType)
    ensures
        op_text(a) == op_text(b) <==> a == b,
{
    reveal_strlit("Create");
    reveal_strlit("Update");
    reveal_strlit("Append");
    reveal_strlit("AddEdge");
    reveal_strlit("RemoveEdge");
    reveal_strlit("Delete");
    assert("Create"@.len() == 6 && "Update"@.len() == 6 && "Append"@.len() == 6 && "Delete"@.len()
        == 6 && "AddEdge"@.len() == 7 && "RemoveEdge"@.len() == 10);
    assert("Create"@[0] == 'C' && "Update"@[0] == 'U' && "Append"@[0] == 'A' && "Delete"@[0] == 'D');
}

/// A preview shows the difference of each task that has one, under its id, and
/// leaves the others out.
pub proof fn previews_show_differences(ids: Seq<Seq<char>>, diffs: Seq<Seq<char>>, i: int)
    requires
        ids.len() == diffs.len(),
        0 <= i < ids.len(),
        diffs[i].len() > 0,
    ensures
        exists|k: int|
            0 <= k < change_lines(ids, diffs).len() - 1 && #[trigger] change_lines(ids, diffs)[k]
                == ids[i] + ":"@ && change_lines(ids, diffs)[k + 1] == diffs[i],
    decreases ids.len(),
{
    let rest = change_lines(ids.drop_last(), diffs.drop_last());
    let all = change_lines(ids, diffs);
    if i < ids.len() - 1 {
        previews_show_differences(ids.drop_last(), diffs.drop_last(), i);
        let k = choose|k: int|
            0 <= k < rest.len() - 1 && #[trigger] rest[k] == ids[i] + ":"@ && rest[k + 1] == diffs[i];
        assert(all[k] == rest[k] && all[k + 1] == rest[k + 1]);
    } else {
        let k = rest.len() as int;
        assert(all[k] == ids[i] + ":"@);
        assert(all[k + 1] == diffs[i]);
    }
}

/// A preview of an undo names each event, with its number, kind and task, after a
/// line that counts them; so does a list of orphaned events.
pub proof fn events_are_named(undone: Seq<UndoneV>, orphans: Seq<OrphanV>, i: int)
    ensures
        undone_lines(undone).len() == undone.len() + 1,
        orphan_lines(orphans).len() == orphans.len() + 1,
        undone_lines(undone)[0] == "Undoing "@ + text::decimal(undone.len()) + " event(s):"@,
        0 <= i < undone.len() ==> undone_lines(undone)[i + 1] == "  seq "@ + text::decimal(
            undone[i].seq as nat,
        ) + ": "@ + op_text(undone[i].op) + " `"@ + undone[i].task_id + "`"@,
        0 <= i < orphans.len() ==> orphan_lines(orphans)[i + 1] == "  - seq "@ + text::decimal(
            orphans[i].seq as nat,
        ) + ": "@ + op_text(orphans[i].op) + " `"@ + orphans[i].task_id + "`"@,
{
}

/// A conflict is told with both sides and what was kept of them; one that is not
/// about a field is about the whole task.
pub proof fn conflicts_are_told(items: Seq<ConflictV>, i: int)
    requires
        0 <= i < items.len(),
    ensures
        ({
            let lines = conflict_lines(Some(items));
            let c = items[i];
            let sides = ": ours="@ + json::compact(c.ours) + " / theirs="@ + json::compact(c.theirs)
                + " -> kept "@ + c.kept;
            &&& lines.len() == items.len() + 2
            &&& c.field is None ==> lines[i + 1] == "  - `"@ + c.task_id + "` (whole task)"@ + sides
            &&& c.field is Some ==> lines[i + 1] == "  - `"@ + c.task_id + "`."@ + c.field->0 + sides
        }),
        conflict_lines(None).len() == 0,
{
    let c = items[i];
    let sides = ": ours="@ + json::compact(c.ours) + " / theirs="@ + json::compact(c.theirs)
        + " -> kept "@ + c.kept;
    if c.field is None {
        assert(conflict_line(c) =~= "  - `"@ + c.task_id + "` (whole task)"@ + sides);
    } else {
        assert(conflict_line(c) =~= "  - `"@ + c.task_id + "`."@ + c.field->0 + sides);
    }
}

/// What is said of a compaction: how many events were folded, into how many tasks,
/// and how many stay; or that there was nothing to fold.
pub proof fn compactions_are_told(a: usize, b: usize, c: usize)
    ensures
        compaction_text(CompactOutcome::Compacted { folded: a, baseline_tasks: b, kept: c })
            == "Compacted "@ + text::decimal(a as nat) + " event(s) into baseline ("@
            + text::decimal(b as nat) + " task(s)); kept "@ + text::decimal(c as nat)
            + " recent event(s)"@,
        compaction_text(CompactOutcome::NothingToDo { log_len: a, keep_events: b })
            == "Nothing to compact ("@ + text::decimal(a as nat)
            + " event(s) in log, keep_events = "@ + text::decimal(b as nat) + ")"@,
{
}

} // verus!
