//! Taking back events of the log.

use crate::compensate;
use crate::config::Config;
use crate::engine;
use crate::graph;
use crate::model::{self, EventV, MutationEvent, OpType, StateV, TaskState, TaskV, Timestamp};
use crate::store::{self, Store};
use crate::strmap::{self, Data, StrMap, StrSet};
use crate::text;
use std::collections::HashSet;
use vstd::prelude::*;

verus! {

broadcast use vstd::std_specs::hash::group_hash_axioms;

/// The sequence numbers that some event takes back.
pub open spec fn undone_seqs(events: Seq<EventV>) -> Set<u64> {
    Set::new(|s: u64| exists|j: int| 0 <= j < events.len() && #[trigger] events[j].undoes == Some(s))
}

/// Whether an event can be taken back: it is no undo itself, and not undone.
pub open spec fn undoable(events: Seq<EventV>, i: int) -> bool {
    events[i].undoes is None && !undone_seqs(events).contains(events[i].seq)
}

/// The places of the undoable events before `end`, newest first, at most
/// `count` of them.
pub open spec fn newest_undoable(events: Seq<EventV>, end: nat, count: nat) -> Seq<usize>
    decreases end,
{
    if end == 0 || count == 0 {
        Seq::empty()
    } else if undoable(events, end - 1) {
        seq![(end - 1) as usize] + newest_undoable(events, (end - 1) as nat, (count - 1) as nat)
    } else {
        newest_undoable(events, (end - 1) as nat, count)
    }
}

/// The place of the first event numbered `s`, or the number of events.
pub open spec fn place_of(events: Seq<EventV>, s: u64) -> nat
    decreases events.len(),
{
    if events.len() == 0 || events[0].seq == s {
        0
    } else {
        1 + place_of(events.drop_first(), s)
    }
}

/// The events to take back: the newest undoable ones, or those from a given
/// event on; or why the given event cannot be taken back.
pub open spec fn selection(events: Seq<EventV>, seq: Option<u64>, count: nat) -> Result<
    Seq<usize>,
    Seq<char>,
> {
    match seq {
        None => Ok(newest_undoable(events, events.len(), count)),
        Some(s) => if events.len() == 0 {
            Ok(Seq::empty())
        } else if place_of(events, s) >= events.len() {
            Err("no event with seq "@ + text::decimal(s as nat) + " in the log"@)
        } else if events[place_of(events, s) as int].undoes is Some {
            Err("seq "@ + text::decimal(s as nat) + " is itself an undo event; it can't be undone"@)
        } else if undone_seqs(events).contains(s) {
            Err("seq "@ + text::decimal(s as nat) + " is already undone"@)
        } else {
            Ok(newest_undoable(events, place_of(events, s) + 1, count))
        },
    }
}

fn undone_set(events: &Vec<MutationEvent>) -> (r: HashSet<u64>)
    ensures
        r@ == undone_seqs(events.deep_view()),
{
    let ghost all = events.deep_view();
    let mut out: HashSet<u64> = HashSet::new();
    let mut i: usize = 0;
    while i < events.len()
        invariant
            i <= events.len(),
            all == events.deep_view(),
            forall|s: u64| #[trigger]
                out@.contains(s) <==> exists|j: int|
                    0 <= j < i && #[trigger] all[j].undoes == Some(s),
        decreases events.len() - i,
    {
        let ghost had = out@;
        assert(all[i as int].undoes == events@[i as int].undoes);
        if let Some(s) = events[i].undoes {
            out.insert(s);
        }
        proof {
            assert forall|s: u64| #[trigger] out@.contains(s) <==> exists|j: int|
                0 <= j < i + 1 && #[trigger] all[j].undoes == Some(s) by {
                assert(had.contains(s) <==> exists|j: int|
                    0 <= j < i && #[trigger] all[j].undoes == Some(s));
                if exists|j: int| 0 <= j < i + 1 && #[trigger] all[j].undoes == Some(s) {
                    let j = choose|j: int| 0 <= j < i + 1 && #[trigger] all[j].undoes == Some(s);
                    if j < i {
                        assert(had.contains(s));
                    }
                }
            }
        }
        i += 1;
    }
    assert(out@ =~= undone_seqs(all));
    out
}

fn find_seq(events: &Vec<MutationEvent>, s: u64) -> (r: usize)
    ensures
        r == place_of(events.deep_view(), s),
        r <= events.len(),
        r < events.len() ==> events@[r as int].seq == s,
{
    let ghost all = events.deep_view();
    let mut i: usize = 0;
    assert(all.skip(0) =~= all);
    while i < events.len() && events[i].seq != s
        invariant
            i <= events.len(),
            all == events.deep_view(),
            i + place_of(all.skip(i as int), s) == place_of(all, s),
        decreases events.len() - i,
    {
        assert(all.skip(i as int).drop_first() =~= all.skip(i as int + 1));
        assert(all.skip(i as int)[0] == events@[i as int]@);
        i += 1;
    }
    if i < events.len() {
        assert(all.skip(i as int)[0] == events@[i as int]@);
    }
    i
}

/// Chooses the events to take back, newest first, as places in the log.
///
/// Undo events and events that are undone already are passed over. From a given
/// event on, that event has to be one that can be taken back.
pub fn select_targets(mutations: &Vec<MutationEvent>, seq: Option<u64>, count: usize) -> (r: Result<
    Vec<usize>,
    String,
>)
    ensures
        match r {
            Ok(v) => selection(mutations.deep_view(), seq, count as nat) == Ok::<
                Seq<usize>,
                Seq<char>,
            >(v@),
            Err(m) => selection(mutations.deep_view(), seq, count as nat) == Err::<
                Seq<usize>,
                Seq<char>,
            >(m@),
        },
{
    let ghost all = mutations.deep_view();
    let undone = undone_set(mutations);
    let mut end: usize = mutations.len();
    if let Some(s) = seq {
        if mutations.len() == 0 {
            return Ok(Vec::new());
        }
        let at = find_seq(mutations, s);
        if at >= mutations.len() {
            return Err(
                text::cat3("no event with seq ", text::decimal_text(s).as_str(), " in the log"),
            );
        }
        assert(all[at as int] == mutations@[at as int]@);
        if mutations[at].undoes.is_some() {
            return Err(
                text::cat3(
                    "seq ",
                    text::decimal_text(s).as_str(),
                    " is itself an undo event; it can't be undone",
                ),
            );
        }
        if undone.contains(&s) {
            return Err(text::cat3("seq ", text::decimal_text(s).as_str(), " is already undone"));
        }
        end = at + 1;
    }
    let ghost want = newest_undoable(all, end as nat, count as nat);
    let mut out: Vec<usize> = Vec::new();
    let mut i: usize = end;
    assert(out@ + want =~= want);
    while i > 0 && out.len() < count
        invariant
            i <= end <= mutations.len(),
            out.len() <= count,
            all == mutations.deep_view(),
            undone@ == undone_seqs(all),
            want == out@ + newest_undoable(all, i as nat, (count - out.len()) as nat),
        decreases i,
    {
        i -= 1;
        assert(all[i as int] == mutations@[i as int]@);
        let ghost rest = newest_undoable(all, i as nat + 1, (count - out.len()) as nat);
        if mutations[i].undoes.is_none() && !undone.contains(&mutations[i].seq) {
            let ghost had = out@;
            out.push(i);
            proof {
                let after = newest_undoable(all, i as nat, (count - had.len() - 1) as nat);
                assert(rest =~= seq![i] + after);
                assert(had + (seq![i] + after) =~= had.push(i) + after);
            }
        }
    }
    assert(out@ + Seq::<usize>::empty() =~= out@);
    Ok(out)
}

/// The tasks of `tasks` with an id in `ids`.
pub open spec fn tasks_in(tasks: Seq<TaskV>, ids: Set<Seq<char>>) -> Seq<TaskV>
    decreases tasks.len(),
{
    if tasks.len() == 0 {
        Seq::empty()
    } else {
        let rest = tasks_in(tasks.drop_last(), ids);
        if ids.contains(tasks.last().id) {
            rest.push(tasks.last())
        } else {
            rest
        }
    }
}

/// The events of the tasks in `ids`.
pub open spec fn events_in(events: Seq<EventV>, ids: Set<Seq<char>>) -> Seq<EventV>
    decreases events.len(),
{
    if events.len() == 0 {
        Seq::empty()
    } else {
        let rest = events_in(events.drop_last(), ids);
        if ids.contains(events.last().task_id) {
            rest.push(events.last())
        } else {
            rest
        }
    }
}

/// The events that are no undo and whose number is not removed.
pub open spec fn originals_without(events: Seq<EventV>, removed: Set<u64>) -> Seq<EventV>
    decreases events.len(),
{
    if events.len() == 0 {
        Seq::empty()
    } else {
        let rest = originals_without(events.drop_last(), removed);
        if events.last().undoes is None && !removed.contains(events.last().seq) {
            rest.push(events.last())
        } else {
            rest
        }
    }
}

/// The baseline tasks and the events that belong to the given tasks.
pub fn scope_to_tasks(
    baseline: &Vec<TaskState>,
    mutations: &Vec<MutationEvent>,
    affected: &StrSet,
) -> (r: (Vec<TaskState>, Vec<MutationEvent>))
    ensures
        r.0.deep_view() == tasks_in(baseline.deep_view(), affected@),
        r.1.deep_view() == events_in(mutations.deep_view(), affected@),
{
    let ghost tasks = baseline.deep_view();
    let mut kept: Vec<TaskState> = Vec::new();
    let mut i: usize = 0;
    assert(kept.deep_view() =~= tasks_in(tasks.take(0), affected@));
    while i < baseline.len()
        invariant
            i <= baseline.len(),
            tasks == baseline.deep_view(),
            kept.deep_view() == tasks_in(tasks.take(i as int), affected@),
        decreases baseline.len() - i,
    {
        let ghost longer = tasks.take(i as int + 1);
        assert(longer.drop_last() =~= tasks.take(i as int));
        assert(longer.last() == baseline@[i as int]@);
        if affected.contains(baseline[i].id.as_str()) {
            let ghost had = kept.deep_view();
            kept.push(baseline[i].copy());
            assert(kept.deep_view() =~= had.push(longer.last()));
        }
        i += 1;
    }
    assert(tasks.take(tasks.len() as int) =~= tasks);
    let ghost events = mutations.deep_view();
    let mut own: Vec<MutationEvent> = Vec::new();
    let mut j: usize = 0;
    assert(own.deep_view() =~= events_in(events.take(0), affected@));
    while j < mutations.len()
        invariant
            j <= mutations.len(),
            events == mutations.deep_view(),
            own.deep_view() == events_in(events.take(j as int), affected@),
        decreases mutations.len() - j,
    {
        let ghost longer = events.take(j as int + 1);
        assert(longer.drop_last() =~= events.take(j as int));
        assert(longer.last() == mutations@[j as int]@);
        if affected.contains(mutations[j].task_id.as_str()) {
            let ghost had = own.deep_view();
            own.push(mutations[j].copy());
            assert(own.deep_view() =~= had.push(longer.last()));
        }
        j += 1;
    }
    assert(events.take(events.len() as int) =~= events);
    (kept, own)
}

fn surviving(events: &Vec<MutationEvent>, removed: &HashSet<u64>) -> (r: Vec<MutationEvent>)
    ensures
        r.deep_view() == originals_without(events.deep_view(), removed@),
{
    let ghost all = events.deep_view();
    let mut out: Vec<MutationEvent> = Vec::new();
    let mut i: usize = 0;
    assert(out.deep_view() =~= originals_without(all.take(0), removed@));
    while i < events.len()
        invariant
            i <= events.len(),
            all == events.deep_view(),
            out.deep_view() == originals_without(all.take(i as int), removed@),
        decreases events.len() - i,
    {
        let ghost longer = all.take(i as int + 1);
        assert(longer.drop_last() =~= all.take(i as int));
        assert(longer.last() == events@[i as int]@);
        if events[i].undoes.is_none() && !removed.contains(&events[i].seq) {
            let ghost had = out.deep_view();
            out.push(events[i].copy());
            assert(out.deep_view() =~= had.push(longer.last()));
        }
        i += 1;
    }
    assert(all.take(all.len() as int) =~= all);
    out
}

/// The events, each marked as taking back the event numbered `s`.
pub open spec fn marked(events: Seq<EventV>, s: u64) -> Seq<EventV> {
    events.map_values(|e: EventV| EventV { undoes: Some(s), ..e })
}

/// The drafts that take one event back, given the task's state with and without
/// it: the changes between the two, or an update of nothing where there are
/// none, each marked with the event's number.
pub open spec fn reversal(
    with: StateV,
    without: StateV,
    id: Seq<char>,
    s: u64,
    at: Timestamp,
) -> Seq<EventV> {
    let changes = compensate::state_changes(with, without, seq![id], at);
    if changes.len() == 0 {
        marked(seq![model::draft(OpType::Update, id, Map::empty(), at)], s)
    } else {
        marked(changes, s)
    }
}

/// The drafts that take back the given events one after the other, where the
/// events numbered in `removed` are gone already.
pub open spec fn reversals(
    base: StateV,
    scoped: Seq<EventV>,
    all: Seq<EventV>,
    buried: Seq<usize>,
    removed: Set<u64>,
    done: Seq<char>,
    at: Timestamp,
) -> Seq<EventV>
    decreases buried.len(),
{
    if buried.len() == 0 {
        Seq::empty()
    } else {
        let e = all[buried[0] as int];
        let more = removed.insert(e.seq);
        reversal(
            engine::replay(base, originals_without(scoped, removed), done),
            engine::replay(base, originals_without(scoped, more), done),
            e.task_id,
            e.seq,
            at,
        ) + reversals(base, scoped, all, buried.drop_first(), more, done, at)
    }
}

fn mark_all(events: &mut Vec<MutationEvent>, s: u64)
    ensures
        final(events).deep_view() == marked(old(events).deep_view(), s),
{
    let ghost before = events.deep_view();
    let n = events.len();
    let mut i: usize = 0;
    while i < n
        invariant
            i <= n,
            n == events.len(),
            events.len() == before.len(),
            forall|j: int| 0 <= j < i ==> (#[trigger] events@[j])@ == (EventV { undoes: Some(s), ..before[j] }),
            forall|j: int| i <= j < n ==> (#[trigger] events@[j])@ == before[j],
        decreases n - i,
    {
        let mut e = events[i].copy();
        e.undoes = Some(s);
        events.set(i, e);
        i += 1;
    }
    assert(events.deep_view() =~= marked(before, s));
}

/// Appends `more` to `out`.
fn append_events(out: &mut Vec<MutationEvent>, more: Vec<MutationEvent>)
    ensures
        final(out).deep_view() == old(out).deep_view() + more.deep_view(),
{
    let ghost before = out.deep_view();
    let ghost rest = more.deep_view();
    let mut i: usize = 0;
    assert(out.deep_view() =~= before + rest.take(0));
    while i < more.len()
        invariant
            i <= more.len(),
            rest == more.deep_view(),
            out.deep_view() == before + rest.take(i as int),
        decreases more.len() - i,
    {
        let ghost had = out.deep_view();
        out.push(more[i].copy());
        proof {
            assert(out.deep_view() =~= had.push(rest[i as int]));
            assert(rest.take(i as int + 1) =~= rest.take(i as int).push(rest[i as int]));
            assert(out.deep_view() =~= before + rest.take(i as int + 1));
        }
        i += 1;
    }
    assert(rest.take(rest.len() as int) =~= rest);
}

/// The events that take back the `buried` ones, given as places in the log.
///
/// Newest first, each step removes one more event from what survives and turns
/// the change of its task into events marked with its number. A step that
/// changes nothing still leaves a mark, so that another undo moves past it.
pub fn buried_compensations(
    config: &Config,
    scoped_baseline: &Vec<TaskState>,
    scoped: &Vec<MutationEvent>,
    mutations: &Vec<MutationEvent>,
    buried: &Vec<usize>,
    seed: HashSet<u64>,
    at: Timestamp,
) -> (r: Vec<MutationEvent>)
    requires
        forall|k: int| 0 <= k < buried.len() ==> #[trigger] buried[k] < mutations.len(),
    ensures
        r.deep_view() == reversals(
            engine::baseline_state(scoped_baseline.deep_view()),
            scoped.deep_view(),
            mutations.deep_view(),
            buried@,
            seed@,
            config.workflow.done_status@,
            at,
        ),
{
    let ghost base = engine::baseline_state(scoped_baseline.deep_view());
    let ghost own = scoped.deep_view();
    let ghost all = mutations.deep_view();
    let ghost done = config.workflow.done_status@;
    let ghost want = reversals(base, own, all, buried@, seed@, done, at);
    let mut removed = seed;
    let mut with = store::materialize(config, scoped_baseline, &surviving(scoped, &removed));
    let mut out: Vec<MutationEvent> = Vec::new();
    let mut k: usize = 0;
    assert(buried@.skip(0) =~= buried@);
    assert(out.deep_view() + want =~= want);
    while k < buried.len()
        invariant
            k <= buried.len(),
            forall|k: int| 0 <= k < buried.len() ==> #[trigger] buried[k] < mutations.len(),
            base == engine::baseline_state(scoped_baseline.deep_view()),
            own == scoped.deep_view(),
            all == mutations.deep_view(),
            done == config.workflow.done_status@,
            with@ == engine::replay(base, originals_without(own, removed@), done),
            want == out.deep_view() + reversals(
                base,
                own,
                all,
                buried@.skip(k as int),
                removed@,
                done,
                at,
            ),
        decreases buried.len() - k,
    {
        let ghost left = buried@.skip(k as int);
        let ghost had = out.deep_view();
        let ghost was = removed@;
        let i = buried[k];
        let s = mutations[i].seq;
        assert(all[i as int] == mutations@[i as int]@);
        removed.insert(s);
        let without = store::materialize(config, scoped_baseline, &surviving(scoped, &removed));
        let mut ids: Vec<String> = Vec::new();
        ids.push(mutations[i].task_id.clone());
        assert(ids.deep_view() =~= seq![all[i as int].task_id]);
        let mut comps = compensate::compensate(&with, &without, &ids, at);
        if comps.len() == 0 {
            let e = MutationEvent::new(
                OpType::Update,
                mutations[i].task_id.as_str(),
                StrMap::new(),
                at,
            );
            let ghost ev = e@;
            comps.push(e);
            assert(comps.deep_view() =~= seq![ev]);
        }
        mark_all(&mut comps, s);
        let ghost one = comps.deep_view();
        append_events(&mut out, comps);
        with = without;
        proof {
            assert(left[0] == i);
            assert(left.drop_first() =~= buried@.skip(k as int + 1));
            let rest = reversals(base, own, all, left.drop_first(), removed@, done, at);
            assert(reversals(base, own, all, left, was, done, at) == one + rest);
            assert(had + (one + rest) =~= (had + one) + rest);
        }
        k += 1;
    }
    assert(out.deep_view() + Seq::<EventV>::empty() =~= out.deep_view());
    out
}

/// One event that an undo takes back.
pub struct UndoneEvent {
    pub seq: u64,
    pub op: OpType,
    pub task_id: String,
}

/// An affected task before and after an undo.
pub struct UndoChange {
    pub id: String,
    pub before: Option<TaskState>,
    pub after: Option<TaskState>,
}

/// A log that only a plan makes.
pub struct PlannedLog {
    events: Vec<MutationEvent>,
}

impl View for PlannedLog {
    type V = Seq<EventV>;

    closed spec fn view(&self) -> Seq<EventV> {
        self.events.deep_view()
    }
}

/// A planned undo: what it changes, and the log that applying it leaves.
pub struct UndoPlan {
    pub count: usize,
    pub undone: Vec<UndoneEvent>,
    pub changes: Vec<UndoChange>,
    /// Whether applying it drops events that are committed.
    pub rewrites_committed_history: bool,
    /// The log that applying leaves.
    pub new_log: PlannedLog,
}

/// The model of an [`UndoneEvent`].
pub struct UndoneV {
    pub seq: u64,
    pub op: OpType,
    pub task_id: Seq<char>,
}

/// The model of an [`UndoChange`].
pub struct ChangeV {
    pub id: Seq<char>,
    pub before: Option<TaskV>,
    pub after: Option<TaskV>,
}

/// The model of an [`UndoPlan`].
#[verifier::ext_equal]
pub struct PlanV {
    pub count: nat,
    pub undone: Seq<UndoneV>,
    pub changes: Seq<ChangeV>,
    pub rewrites_committed_history: bool,
    pub log: Seq<EventV>,
}

impl DeepView for UndoneEvent {
    type V = UndoneV;

    open spec fn deep_view(&self) -> UndoneV {
        UndoneV { seq: self.seq, op: self.op, task_id: self.task_id@ }
    }
}

impl DeepView for UndoChange {
    type V = ChangeV;

    open spec fn deep_view(&self) -> ChangeV {
        ChangeV {
            id: self.id@,
            before: self.before.deep_view(),
            after: self.after.deep_view(),
        }
    }
}

impl View for UndoPlan {
    type V = PlanV;

    open spec fn view(&self) -> PlanV {
        PlanV {
            count: self.count as nat,
            undone: self.undone.deep_view(),
            changes: self.changes.deep_view(),
            rewrites_committed_history: self.rewrites_committed_history,
            log: self.new_log@,
        }
    }
}

impl UndoPlan {
    /// The number of the last event of the resulting log, or 0 if it is empty.
    pub fn last_seq(&self) -> (r: u64)
        ensures
            r == if self@.log.len() == 0 {
                0
            } else {
                self@.log.last().seq
            },
    {
        let events = &self.new_log.events;
        let n = events.len();
        if n == 0 {
            0
        } else {
            assert(self@.log.last() == events@[n - 1]@);
            events[n - 1].seq
        }
    }
}

/// The numbers of the selected events.
pub open spec fn selected_seqs(events: Seq<EventV>, selected: Seq<usize>) -> Set<u64> {
    Set::new(
        |s: u64|
            exists|k: int|
                0 <= k < selected.len() && events[#[trigger] selected[k] as int].seq == s,
    )
}

/// The tasks of the selected events.
pub open spec fn selected_tasks(events: Seq<EventV>, selected: Seq<usize>) -> Set<Seq<char>> {
    Set::new(
        |id: Seq<char>|
            exists|k: int|
                0 <= k < selected.len() && events[#[trigger] selected[k] as int].task_id == id,
    )
}

/// Where the run of events numbered in `seqs` that ends before `n` starts.
pub open spec fn run_start(events: Seq<EventV>, seqs: Set<u64>, n: nat) -> nat
    decreases n,
{
    if n == 0 || !seqs.contains(events[n - 1].seq) {
        n
    } else {
        run_start(events, seqs, (n - 1) as nat)
    }
}

/// How many events stay in the log: those before the trailing run of selected
/// ones, and all committed ones unless they may be removed.
pub open spec fn kept_count(
    events: Seq<EventV>,
    selected: Seq<usize>,
    remove: bool,
    committed: nat,
) -> nat {
    let start = run_start(events, selected_seqs(events, selected), events.len());
    if !remove && start < committed {
        committed
    } else {
        start
    }
}

/// The places before `n`.
pub open spec fn below(places: Seq<usize>, n: nat) -> Seq<usize>
    decreases places.len(),
{
    if places.len() == 0 {
        Seq::empty()
    } else {
        let rest = below(places.drop_last(), n);
        if places.last() < n {
            rest.push(places.last())
        } else {
            rest
        }
    }
}

/// The numbers of the events from place `n` on.
pub open spec fn seqs_from(events: Seq<EventV>, n: int) -> Set<u64> {
    Set::new(|s: u64| exists|j: int| n <= j < events.len() && (#[trigger] events[j]).seq == s)
}

/// The highest number in the log, or 0.
pub open spec fn top_seq(events: Seq<EventV>) -> u64
    decreases events.len(),
{
    if events.len() == 0 {
        0
    } else {
        let rest = top_seq(events.drop_last());
        if rest < events.last().seq {
            events.last().seq
        } else {
            rest
        }
    }
}

/// The events numbered one after the other, the first just above `top`.
pub open spec fn numbered(events: Seq<EventV>, top: u64) -> Seq<EventV> {
    Seq::new(events.len(), |i: int| EventV { seq: (top + 1 + i) as u64, ..events[i] })
}

/// The tasks that selected events touch, as the log leaves them.
pub open spec fn scoped_state(
    baseline: Seq<TaskV>,
    events: Seq<EventV>,
    ids: Set<Seq<char>>,
    done: Seq<char>,
) -> StateV {
    engine::replay(engine::baseline_state(tasks_in(baseline, ids)), events_in(events, ids), done)
}

/// Those tasks as if the selected events, and all undone ones, had not happened.
pub open spec fn target_state(
    baseline: Seq<TaskV>,
    events: Seq<EventV>,
    selected: Seq<usize>,
    done: Seq<char>,
) -> StateV {
    let ids = selected_tasks(events, selected);
    let scoped = events_in(events, ids);
    engine::replay(
        engine::baseline_state(tasks_in(baseline, ids)),
        originals_without(
            scoped,
            undone_seqs(scoped).union(selected_seqs(events, selected)),
        ),
        done,
    )
}

/// The drafts that take back the selected events that stay in the log.
pub open spec fn undo_drafts(
    baseline: Seq<TaskV>,
    events: Seq<EventV>,
    selected: Seq<usize>,
    kept: nat,
    done: Seq<char>,
    at: Timestamp,
) -> Seq<EventV> {
    let ids = selected_tasks(events, selected);
    let scoped = events_in(events, ids);
    reversals(
        engine::baseline_state(tasks_in(baseline, ids)),
        scoped,
        events,
        below(selected, kept),
        undone_seqs(scoped).union(seqs_from(events, kept as int)),
        done,
        at,
    )
}

/// The changes of the affected tasks, by id.
pub open spec fn task_diffs(now: StateV, target: StateV, ids: Seq<Seq<char>>) -> Seq<ChangeV> {
    Seq::new(
        ids.len(),
        |i: int|
            ChangeV {
                id: ids[i],
                before: compensate::task_at(now, ids[i]),
                after: compensate::task_at(target, ids[i]),
            },
    )
}

/// The selected events in the plan.
pub open spec fn undone_list(events: Seq<EventV>, selected: Seq<usize>) -> Seq<UndoneV> {
    selected.map_values(
        |i: usize|
            UndoneV {
                seq: events[i as int].seq,
                op: events[i as int].op,
                task_id: events[i as int].task_id,
            },
    )
}

/// The plan for a selection.
pub open spec fn plan_for(
    baseline: Seq<TaskV>,
    events: Seq<EventV>,
    selected: Seq<usize>,
    remove: bool,
    committed: nat,
    done: Seq<char>,
    at: Timestamp,
) -> PlanV {
    let ids = selected_tasks(events, selected);
    let kept = kept_count(events, selected, remove, committed);
    let prefix = events.take(kept as int);
    PlanV {
        count: selected.len(),
        undone: undone_list(events, selected),
        changes: task_diffs(
            scoped_state(baseline, events, ids, done),
            target_state(baseline, events, selected, done),
            strmap::sorted_of(ids),
        ),
        rewrites_committed_history: remove && kept < committed,
        log: prefix + numbered(
            undo_drafts(baseline, events, selected, kept, done, at),
            top_seq(prefix),
        ),
    }
}

/// Whether the events to append still get numbers.
pub open spec fn numbers_left(
    baseline: Seq<TaskV>,
    events: Seq<EventV>,
    selected: Seq<usize>,
    remove: bool,
    committed: nat,
    done: Seq<char>,
    at: Timestamp,
) -> bool {
    let kept = kept_count(events, selected, remove, committed);
    top_seq(events.take(kept as int)) + undo_drafts(
        baseline,
        events,
        selected,
        kept,
        done,
        at,
    ).len() <= u64::MAX
}

/// What planning an undo gives: a plan, nothing to undo, or an error.
pub open spec fn planned(
    baseline: Seq<TaskV>,
    events: Seq<EventV>,
    seq: Option<u64>,
    count: nat,
    remove: bool,
    committed: nat,
    done: Seq<char>,
    at: Timestamp,
) -> Result<Option<PlanV>, Seq<char>> {
    if count == 0 || events.len() == 0 {
        Ok(None)
    } else {
        match selection(events, seq, count) {
            Err(m) => Err(m),
            Ok(selected) => if selected.len() == 0 {
                Ok(None)
            } else if !numbers_left(baseline, events, selected, remove, committed, done, at) {
                Err("the log has no sequence number left"@)
            } else {
                Ok(Some(plan_for(baseline, events, selected, remove, committed, done, at)))
            },
        }
    }
}

proof fn lemma_newest_in_range(events: Seq<EventV>, end: nat, count: nat)
    requires
        end <= events.len(),
        events.len() <= usize::MAX,
    ensures
        forall|k: int|
            0 <= k < newest_undoable(events, end, count).len() ==> #[trigger] newest_undoable(
                events,
                end,
                count,
            )[k] < end,
    decreases end,
{
    if end > 0 && count > 0 {
        let all = newest_undoable(events, end, count);
        if undoable(events, end - 1) {
            let rest = newest_undoable(events, (end - 1) as nat, (count - 1) as nat);
            lemma_newest_in_range(events, (end - 1) as nat, (count - 1) as nat);
            assert forall|k: int| 0 <= k < all.len() implies #[trigger] all[k] < end by {
                if k > 0 {
                    assert(all[k] == rest[k - 1]);
                }
            }
        } else {
            let rest = newest_undoable(events, (end - 1) as nat, count);
            lemma_newest_in_range(events, (end - 1) as nat, count);
            assert forall|k: int| 0 <= k < all.len() implies #[trigger] all[k] < end by {
                assert(all[k] == rest[k]);
            }
        }
    }
}

proof fn lemma_below_in_range(places: Seq<usize>, n: nat)
    ensures
        forall|k: int| 0 <= k < below(places, n).len() ==> #[trigger] below(places, n)[k] < n,
    decreases places.len(),
{
    if places.len() > 0 {
        let rest = below(places.drop_last(), n);
        lemma_below_in_range(places.drop_last(), n);
        assert forall|k: int| 0 <= k < below(places, n).len() implies #[trigger] below(places, n)[k] < n by {
            if k < rest.len() {
                assert(below(places, n)[k] == rest[k]);
            }
        }
    }
}

fn seqs_of(events: &Vec<MutationEvent>, selected: &Vec<usize>) -> (r: HashSet<u64>)
    requires
        forall|k: int| 0 <= k < selected.len() ==> #[trigger] selected[k] < events.len(),
    ensures
        r@ == selected_seqs(events.deep_view(), selected@),
{
    let ghost all = events.deep_view();
    let mut out: HashSet<u64> = HashSet::new();
    let mut i: usize = 0;
    while i < selected.len()
        invariant
            i <= selected.len(),
            all == events.deep_view(),
            forall|k: int| 0 <= k < selected.len() ==> #[trigger] selected[k] < events.len(),
            forall|s: u64| #[trigger]
                out@.contains(s) <==> exists|k: int|
                    0 <= k < i && all[#[trigger] selected@[k] as int].seq == s,
        decreases selected.len() - i,
    {
        let ghost had = out@;
        let place = selected[i];
        assert(all[place as int] == events@[place as int]@);
        out.insert(events[place].seq);
        proof {
            assert forall|s: u64| #[trigger] out@.contains(s) <==> exists|k: int|
                0 <= k < i + 1 && all[#[trigger] selected@[k] as int].seq == s by {
                assert(had.contains(s) <==> exists|k: int|
                    0 <= k < i && all[#[trigger] selected@[k] as int].seq == s);
                assert(selected@[i as int] == place);
            }
        }
        i += 1;
    }
    assert(out@ =~= selected_seqs(all, selected@));
    out
}

fn tasks_of(events: &Vec<MutationEvent>, selected: &Vec<usize>) -> (r: StrSet)
    requires
        forall|k: int| 0 <= k < selected.len() ==> #[trigger] selected[k] < events.len(),
    ensures
        r@ == selected_tasks(events.deep_view(), selected@),
{
    let ghost all = events.deep_view();
    let mut out = StrSet::new();
    let mut i: usize = 0;
    while i < selected.len()
        invariant
            i <= selected.len(),
            all == events.deep_view(),
            forall|k: int| 0 <= k < selected.len() ==> #[trigger] selected[k] < events.len(),
            forall|id: Seq<char>| #[trigger]
                out@.contains(id) <==> exists|k: int|
                    0 <= k < i && all[#[trigger] selected@[k] as int].task_id == id,
        decreases selected.len() - i,
    {
        let ghost had = out@;
        let place = selected[i];
        assert(all[place as int] == events@[place as int]@);
        out.insert(events[place].task_id.clone());
        proof {
            assert forall|id: Seq<char>| #[trigger] out@.contains(id) <==> exists|k: int|
                0 <= k < i + 1 && all[#[trigger] selected@[k] as int].task_id == id by {
                assert(had.contains(id) <==> exists|k: int|
                    0 <= k < i && all[#[trigger] selected@[k] as int].task_id == id);
                assert(selected@[i as int] == place);
            }
        }
        i += 1;
    }
    assert(out@ =~= selected_tasks(all, selected@));
    out
}

fn find_run_start(events: &Vec<MutationEvent>, seqs: &HashSet<u64>) -> (r: usize)
    ensures
        r == run_start(events.deep_view(), seqs@, events.len() as nat),
        r <= events.len(),
{
    let ghost all = events.deep_view();
    let mut p: usize = events.len();
    while p > 0 && seqs.contains(&events[p - 1].seq)
        invariant
            p <= events.len(),
            all == events.deep_view(),
            run_start(all, seqs@, p as nat) == run_start(all, seqs@, events.len() as nat),
        decreases p,
    {
        assert(all[p - 1] == events@[p - 1]@);
        p -= 1;
    }
    if p > 0 {
        assert(all[p - 1] == events@[p - 1]@);
    }
    p
}

fn places_below(places: &Vec<usize>, n: usize) -> (r: Vec<usize>)
    ensures
        r@ == below(places@, n as nat),
{
    let mut out: Vec<usize> = Vec::new();
    let mut i: usize = 0;
    assert(places@.take(0) =~= Seq::<usize>::empty());
    while i < places.len()
        invariant
            i <= places.len(),
            out@ == below(places@.take(i as int), n as nat),
        decreases places.len() - i,
    {
        let ghost longer = places@.take(i as int + 1);
        assert(longer.drop_last() =~= places@.take(i as int));
        if places[i] < n {
            out.push(places[i]);
        }
        i += 1;
    }
    assert(places@.take(places.len() as int) =~= places@);
    out
}

/// Adds the numbers of the events from place `from` on.
fn add_seqs_from(set: HashSet<u64>, events: &Vec<MutationEvent>, from: usize) -> (r: HashSet<u64>)
    requires
        from <= events.len(),
    ensures
        r@ == set@.union(seqs_from(events.deep_view(), from as int)),
{
    let ghost all = events.deep_view();
    let mut out = set;
    let ghost start = set@;
    let mut i: usize = from;
    while i < events.len()
        invariant
            from <= i <= events.len(),
            all == events.deep_view(),
            forall|s: u64| #[trigger]
                out@.contains(s) <==> start.contains(s) || exists|j: int|
                    from <= j < i && (#[trigger] all[j]).seq == s,
        decreases events.len() - i,
    {
        let ghost had = out@;
        assert(all[i as int] == events@[i as int]@);
        out.insert(events[i].seq);
        proof {
            assert forall|s: u64| #[trigger] out@.contains(s) <==> start.contains(s) || exists|
                j: int,
            | from <= j < i + 1 && (#[trigger] all[j]).seq == s by {
                assert(had.contains(s) <==> start.contains(s) || exists|j: int|
                    from <= j < i && (#[trigger] all[j]).seq == s);
            }
        }
        i += 1;
    }
    assert(out@ =~= start.union(seqs_from(all, from as int)));
    out
}

/// Adds the numbers of the selected events.
fn add_selected(
    set: HashSet<u64>,
    events: &Vec<MutationEvent>,
    selected: &Vec<usize>,
) -> (r: HashSet<
    u64,
>)
    requires
        forall|k: int| 0 <= k < selected.len() ==> #[trigger] selected[k] < events.len(),
    ensures
        r@ == set@.union(selected_seqs(events.deep_view(), selected@)),
{
    let ghost all = events.deep_view();
    let mut out = set;
    let ghost start = set@;
    let mut i: usize = 0;
    while i < selected.len()
        invariant
            i <= selected.len(),
            all == events.deep_view(),
            forall|k: int| 0 <= k < selected.len() ==> #[trigger] selected[k] < events.len(),
            forall|s: u64| #[trigger]
                out@.contains(s) <==> start.contains(s) || exists|k: int|
                    0 <= k < i && all[#[trigger] selected@[k] as int].seq == s,
        decreases selected.len() - i,
    {
        let ghost had = out@;
        let place = selected[i];
        assert(all[place as int] == events@[place as int]@);
        out.insert(events[place].seq);
        proof {
            assert forall|s: u64| #[trigger] out@.contains(s) <==> start.contains(s) || exists|
                k: int,
            | 0 <= k < i + 1 && all[#[trigger] selected@[k] as int].seq == s by {
                assert(had.contains(s) <==> start.contains(s) || exists|k: int|
                    0 <= k < i && all[#[trigger] selected@[k] as int].seq == s);
                assert(selected@[i as int] == place);
            }
        }
        i += 1;
    }
    assert(out@ =~= start.union(selected_seqs(all, selected@)));
    out
}

/// The first `n` events of the log, and their highest number.
pub fn kept_prefix(events: &Vec<MutationEvent>, n: usize) -> (r: (Vec<MutationEvent>, u64))
    requires
        n <= events.len(),
    ensures
        r.0.deep_view() == events.deep_view().take(n as int),
        r.1 == top_seq(events.deep_view().take(n as int)),
{
    let ghost all = events.deep_view();
    let mut out: Vec<MutationEvent> = Vec::new();
    let mut top: u64 = 0;
    let mut i: usize = 0;
    assert(out.deep_view() =~= all.take(0));
    while i < n
        invariant
            i <= n <= events.len(),
            all == events.deep_view(),
            out.deep_view() == all.take(i as int),
            top == top_seq(all.take(i as int)),
        decreases n - i,
    {
        let ghost longer = all.take(i as int + 1);
        let ghost had = out.deep_view();
        assert(longer.drop_last() =~= all.take(i as int));
        assert(longer.last() == events@[i as int]@);
        let e = events[i].copy();
        if top < e.seq {
            top = e.seq;
        }
        out.push(e);
        assert(out.deep_view() =~= had.push(longer.last()));
        assert(out.deep_view() =~= longer);
        i += 1;
    }
    (out, top)
}

/// Appends the drafts, numbered one after the other above `top`.
pub fn append_numbered(log: &mut Vec<MutationEvent>, drafts: Vec<MutationEvent>, top: u64)
    requires
        top + drafts.len() <= u64::MAX,
    ensures
        final(log).deep_view() == old(log).deep_view() + numbered(drafts.deep_view(), top),
{
    let ghost before = log.deep_view();
    let ghost all = drafts.deep_view();
    let mut i: usize = 0;
    let mut last: u64 = top;
    assert(log.deep_view() =~= before + numbered(all, top).take(0));
    while i < drafts.len()
        invariant
            i <= drafts.len(),
            all == drafts.deep_view(),
            top + drafts.len() <= u64::MAX,
            last == top + i,
            log.deep_view() == before + numbered(all, top).take(i as int),
        decreases drafts.len() - i,
    {
        let ghost had = log.deep_view();
        let mut e = drafts[i].copy();
        last += 1;
        e.seq = last;
        let ghost ev = e@;
        assert(ev == numbered(all, top)[i as int]);
        log.push(e);
        proof {
            let want = numbered(all, top);
            assert(log.deep_view() =~= had.push(ev));
            assert(want.take(i as int + 1) =~= want.take(i as int).push(want[i as int]));
            assert(log.deep_view() =~= before + want.take(i as int + 1));
        }
        i += 1;
    }
    assert(numbered(all, top).take(all.len() as int) =~= numbered(all, top));
}

fn list_undone(events: &Vec<MutationEvent>, selected: &Vec<usize>) -> (r: Vec<UndoneEvent>)
    requires
        forall|k: int| 0 <= k < selected.len() ==> #[trigger] selected[k] < events.len(),
    ensures
        r.deep_view() == undone_list(events.deep_view(), selected@),
{
    let ghost all = events.deep_view();
    let mut out: Vec<UndoneEvent> = Vec::new();
    let mut i: usize = 0;
    while i < selected.len()
        invariant
            i <= selected.len(),
            all == events.deep_view(),
            forall|k: int| 0 <= k < selected.len() ==> #[trigger] selected[k] < events.len(),
            out.len() == i,
            forall|k: int| 0 <= k < i ==> (#[trigger] out@[k]).deep_view() == undone_list(all, selected@)[k],
        decreases selected.len() - i,
    {
        let place = selected[i];
        assert(all[place as int] == events@[place as int]@);
        out.push(
            UndoneEvent {
                seq: events[place].seq,
                op: events[place].op,
                task_id: events[place].task_id.clone(),
            },
        );
        i += 1;
    }
    assert(out.deep_view() =~= undone_list(all, selected@));
    out
}

pub(crate) fn copy_task(t: Option<&TaskState>) -> (r: Option<TaskState>)
    ensures
        r.deep_view() == t.deep_view(),
{
    match t {
        Some(t) => Some(t.copy()),
        None => None,
    }
}

fn list_changes(now: &StrMap<TaskState>, target: &StrMap<TaskState>, ids: &Vec<String>) -> (r: Vec<
    UndoChange,
>)
    ensures
        r.deep_view() == task_diffs(now@, target@, ids.deep_view()),
{
    let ghost all = ids.deep_view();
    let mut out: Vec<UndoChange> = Vec::new();
    let mut i: usize = 0;
    while i < ids.len()
        invariant
            i <= ids.len(),
            all == ids.deep_view(),
            out.len() == i,
            forall|k: int|
                0 <= k < i ==> (#[trigger] out@[k]).deep_view() == task_diffs(now@, target@, all)[k],
        decreases ids.len() - i,
    {
        let id = &ids[i];
        assert(all[i as int] == id@);
        out.push(
            UndoChange {
                id: id.clone(),
                before: copy_task(now.get(id.as_str())),
                after: copy_task(target.get(id.as_str())),
            },
        );
        i += 1;
    }
    assert(out.deep_view() =~= task_diffs(now@, target@, all));
    out
}

/// Plans an undo, walking back through real history.
///
/// Without `seq` it takes back the newest undoable events, `count` of them; with
/// one it starts there. Events that are undo events themselves or undone
/// already are passed over, so that repeated undos peel back history. The
/// trailing run of selected events is dropped from the log, as far as it is not
/// among the first `committed` events or `remove` is set; every other selected
/// event is taken back by appended events that name it. There is nothing to do
/// when the log is empty, `count` is 0 or nothing can be undone.
pub fn plan(
    store: &Store,
    seq: Option<u64>,
    count: usize,
    remove: bool,
    committed: usize,
    at: Timestamp,
) -> (r: Result<Option<UndoPlan>, String>)
    requires
        remove || committed <= store.mutations.len(),
    ensures
        ({
            let want = planned(
                store.baseline.deep_view(),
                store.log(),
                seq,
                count as nat,
                remove,
                committed as nat,
                store.done(),
                at,
            );
            match r {
                Ok(Some(p)) => want == Ok::<Option<PlanV>, Seq<char>>(Some(p@)),
                Ok(None) => want == Ok::<Option<PlanV>, Seq<char>>(None),
                Err(m) => want == Err::<Option<PlanV>, Seq<char>>(m@),
            }
        }),
{
    let mutations = &store.mutations;
    let ghost events = store.log();
    if count == 0 || mutations.len() == 0 {
        return Ok(None);
    }
    let selected = match select_targets(mutations, seq, count) {
        Ok(v) => v,
        Err(m) => {
            return Err(m);
        },
    };
    if selected.len() == 0 {
        return Ok(None);
    }
    proof {
        lemma_newest_in_range(events, events.len(), count as nat);
        if let Some(s) = seq {
            if place_of(events, s) < events.len() {
                lemma_newest_in_range(events, place_of(events, s) + 1, count as nat);
            }
        }
    }
    let config = &store.config;
    let affected = tasks_of(mutations, &selected);
    let (scoped_baseline, scoped) = scope_to_tasks(&store.baseline, mutations, &affected);
    let now = store::materialize(config, &scoped_baseline, &scoped);
    let removed = add_selected(undone_set(&scoped), mutations, &selected);
    let target = store::materialize(config, &scoped_baseline, &surviving(&scoped, &removed));
    let run = find_run_start(mutations, &seqs_of(mutations, &selected));
    let kept = if !remove && run < committed {
        committed
    } else {
        run
    };
    let buried = places_below(&selected, kept);
    proof {
        lemma_below_in_range(selected@, kept as nat);
    }
    let seed = add_seqs_from(undone_set(&scoped), mutations, kept);
    let drafts = buried_compensations(
        config,
        &scoped_baseline,
        &scoped,
        mutations,
        &buried,
        seed,
        at,
    );
    let (prefix, top) = kept_prefix(mutations, kept);
    let mut log = prefix;
    assert(drafts.deep_view() == undo_drafts(
        store.baseline.deep_view(),
        events,
        selected@,
        kept as nat,
        store.done(),
        at,
    ));
    assert(drafts.deep_view().len() == drafts.len());
    if drafts.len() as u64 > u64::MAX - top {
        return Err(String::from_str("the log has no sequence number left"));
    }
    append_numbered(&mut log, drafts, top);
    let undone = list_undone(mutations, &selected);
    assert(undone.deep_view().len() == undone.len());
    let changes = list_changes(&now, &target, &graph::members_of(&affected));
    let p = UndoPlan {
        count: selected.len(),
        undone,
        changes,
        rewrites_committed_history: remove && run < committed,
        new_log: PlannedLog { events: log },
    };
    assert(p@ =~= plan_for(
        store.baseline.deep_view(),
        events,
        selected@,
        remove,
        committed as nat,
        store.done(),
        at,
    ));
    Ok(Some(p))
}

/// Applies a planned undo: the store's log becomes the planned one.
pub fn apply(store: &mut Store, plan: &UndoPlan)
    ensures
        final(store).log() == plan@.log,
        final(store).config == old(store).config,
        final(store).baseline == old(store).baseline,
{
    store.mutations = plan.new_log.events.copy();
}

/// The lines that hold more than white space.
pub open spec fn filled(lines: Seq<Seq<char>>) -> nat
    decreases lines.len(),
{
    if lines.len() == 0 {
        0
    } else {
        filled(lines.drop_last()) + if text::trimmed(lines.last()).len() > 0 {
            1nat
        } else {
            0
        }
    }
}

/// How many events are committed: the lines of the committed log, `blob`, that
/// are not blank; none where there is no committed log.
pub fn committed_mutation_count(blob: &Option<String>) -> (r: usize)
    ensures
        r == match *blob {
            Some(b) => filled(text::lines_of(b@)),
            None => 0,
        },
{
    match blob {
        None => 0,
        Some(b) => {
            let lines = text::lines(b.as_str());
            let ghost all = lines.deep_view();
            let mut n: usize = 0;
            let mut i: usize = 0;
            assert(all.take(0) =~= Seq::empty());
            while i < lines.len()
                invariant
                    i <= lines.len(),
                    n <= i,
                    all == lines.deep_view(),
                    n == filled(all.take(i as int)),
                decreases lines.len() - i,
            {
                let ghost longer = all.take(i as int + 1);
                assert(longer.drop_last() =~= all.take(i as int));
                assert(longer.last() == lines@[i as int]@);
                let bare = text::trim(lines[i].as_str());
                if !text::is_blank(bare.as_str()) {
                    n += 1;
                }
                i += 1;
            }
            assert(all.take(all.len() as int) =~= all);
            n
        },
    }
}

/// Whether an event is no undo event, and no event of the log takes it back.
pub open spec fn stands(events: Seq<EventV>, i: int) -> bool {
    &&& events[i].undoes is None
    &&& forall|j: int|
        0 <= j < events.len() ==> (#[trigger] events[j]).undoes != Some(events[i].seq)
}

/// Whether an undo starts at a place: at the last event, or at the first one with
/// the given number.
pub open spec fn starts_at(events: Seq<EventV>, seq: Option<u64>, p: int) -> bool {
    &&& 0 <= p < events.len()
    &&& match seq {
        None => p == events.len() - 1,
        Some(s) => events[p].seq == s && forall|q: int|
            0 <= q < p ==> (#[trigger] events[q]).seq != s,
    }
}

proof fn lemma_stands(events: Seq<EventV>, i: int)
    requires
        0 <= i < events.len(),
    ensures
        undoable(events, i) == stands(events, i),
{
    if undone_seqs(events).contains(events[i].seq) {
        let j = choose|j: int|
            0 <= j < events.len() && #[trigger] events[j].undoes == Some(events[i].seq);
        assert(events[j].undoes == Some(events[i].seq));
    }
}

proof fn lemma_place(events: Seq<EventV>, s: u64)
    ensures
        place_of(events, s) <= events.len(),
        forall|q: int| 0 <= q < place_of(events, s) ==> (#[trigger] events[q]).seq != s,
        place_of(events, s) < events.len() ==> events[place_of(events, s) as int].seq == s,
    decreases events.len(),
{
    if events.len() > 0 && events[0].seq != s {
        let rest = events.drop_first();
        lemma_place(rest, s);
        assert forall|q: int| 0 <= q < place_of(events, s) implies (#[trigger] events[q]).seq
            != s by {
            if q > 0 {
                assert(rest[q - 1] == events[q]);
            }
        }
        if place_of(rest, s) < rest.len() {
            assert(rest[place_of(rest, s) as int] == events[place_of(events, s) as int]);
        }
    }
}

proof fn lemma_newest(events: Seq<EventV>, end: nat, count: nat)
    requires
        end <= events.len() <= usize::MAX,
    ensures
        ({
            let v = newest_undoable(events, end, count);
            &&& v.len() <= count
            &&& forall|i: int, j: int| 0 <= i < j < v.len() ==> v[i] > v[j]
            &&& forall|i: int|
                0 <= i < v.len() ==> (#[trigger] v[i]) < end && stands(events, v[i] as int)
            &&& forall|q: int|
                0 <= q < end && #[trigger] stands(events, q) ==> v.contains(q as usize) || (v.len()
                    == count && forall|i: int| 0 <= i < v.len() ==> q < v[i])
        }),
    decreases end,
{
    let v = newest_undoable(events, end, count);
    if end > 0 && count > 0 {
        lemma_stands(events, end - 1);
        let fewer = if undoable(events, end - 1) {
            (count - 1) as nat
        } else {
            count
        };
        let rest = newest_undoable(events, (end - 1) as nat, fewer);
        lemma_newest(events, (end - 1) as nat, fewer);
        if undoable(events, end - 1) {
            assert(v =~= seq![(end - 1) as usize] + rest);
            assert forall|i: int| 0 <= i < v.len() implies (#[trigger] v[i]) < end && stands(
                events,
                v[i] as int,
            ) by {
                if i > 0 {
                    assert(v[i] == rest[i - 1]);
                }
            }
            assert forall|i: int, j: int| 0 <= i < j < v.len() implies v[i] > v[j] by {
                assert(v[j] == rest[j - 1]);
                if i > 0 {
                    assert(v[i] == rest[i - 1]);
                }
            }
            assert forall|q: int| 0 <= q < end && #[trigger] stands(events, q) implies v.contains(
                q as usize,
            ) || (v.len() == count && forall|i: int| 0 <= i < v.len() ==> q < v[i]) by {
                if q == end - 1 {
                    assert(v[0] == q as usize);
                } else if rest.contains(q as usize) {
                    let k = choose|k: int| 0 <= k < rest.len() && rest[k] == q as usize;
                    assert(v[k + 1] == q as usize);
                } else {
                    assert forall|i: int| 0 <= i < v.len() implies q < v[i] by {
                        if i > 0 {
                            assert(v[i] == rest[i - 1]);
                        }
                    }
                }
            }
        }
    }
}

/// An undo walks older from where it starts. It takes back at most `count`
/// events, newest first, each at or before the start and neither an undo event
/// nor taken back already; and it passes over none of these before it has taken
/// `count`. Only an event that was named can be refused: one that is an undo
/// event or is taken back.
pub proof fn undos_walk_older(events: Seq<EventV>, seq: Option<u64>, count: nat, p: int)
    requires
        events.len() <= usize::MAX,
        starts_at(events, seq, p),
    ensures
        match selection(events, seq, count) {
            Ok(v) => {
                &&& seq is Some ==> stands(events, p)
                &&& v.len() <= count
                &&& forall|i: int, j: int| 0 <= i < j < v.len() ==> v[i] > v[j]
                &&& forall|i: int|
                    0 <= i < v.len() ==> (#[trigger] v[i]) <= p && stands(events, v[i] as int)
                &&& forall|q: int|
                    0 <= q <= p && #[trigger] stands(events, q) ==> v.contains(q as usize) || (
                    v.len() == count && forall|i: int| 0 <= i < v.len() ==> q < v[i])
            },
            Err(m) => {
                &&& seq is Some
                &&& m == if events[p].undoes is Some {
                    "seq "@ + text::decimal(events[p].seq as nat)
                        + " is itself an undo event; it can't be undone"@
                } else {
                    "seq "@ + text::decimal(events[p].seq as nat) + " is already undone"@
                }
                &&& !stands(events, p)
            },
        },
{
    match seq {
        None => {
            lemma_newest(events, events.len(), count);
        },
        Some(s) => {
            lemma_place(events, s);
            let at = place_of(events, s) as int;
            if at < p {
                assert(events[at].seq != s);
            }
            if p < at {
                assert(events[p].seq != s);
            }
            lemma_stands(events, p);
            lemma_newest(events, (p + 1) as nat, count);
        },
    }
}

/// A number that no event of the log has is refused, unless the log is empty.
pub proof fn unknown_numbers_are_refused(events: Seq<EventV>, s: u64, count: nat)
    requires
        forall|i: int| 0 <= i < events.len() ==> (#[trigger] events[i]).seq != s,
    ensures
        events.len() == 0 ==> selection(events, Some(s), count) == Ok::<Seq<usize>, Seq<char>>(
            Seq::empty(),
        ),
        events.len() > 0 ==> selection(events, Some(s), count) == Err::<Seq<usize>, Seq<char>>(
            "no event with seq "@ + text::decimal(s as nat) + " in the log"@,
        ),
{
    lemma_place(events, s);
}

/// The top number of a log is the highest that one of its events has, and 0 for
/// an empty log.
pub proof fn the_top_number_is_the_highest(events: Seq<EventV>)
    ensures
        forall|i: int| 0 <= i < events.len() ==> (#[trigger] events[i]).seq <= top_seq(events),
        events.len() == 0 ==> top_seq(events) == 0,
        events.len() > 0 ==> exists|i: int|
            0 <= i < events.len() && (#[trigger] events[i]).seq == top_seq(events),
    decreases events.len(),
{
    if events.len() > 0 {
        let rest = events.drop_last();
        the_top_number_is_the_highest(rest);
        assert forall|i: int| 0 <= i < events.len() implies (#[trigger] events[i]).seq <= top_seq(
            events,
        ) by {
            if i < rest.len() {
                assert(rest[i].seq <= top_seq(rest));
            }
        }
        if top_seq(rest) < events.last().seq || rest.len() == 0 {
            assert(events[events.len() - 1].seq == top_seq(events));
        } else {
            let i = choose|i: int| 0 <= i < rest.len() && (#[trigger] rest[i]).seq == top_seq(rest);
            assert(events[i].seq == top_seq(events));
        }
    }
}

/// What an undo plans: nothing where none is asked for or there is no event; a
/// failure where the selection fails; else the events of the selection, each shown
/// with its number, kind and task.
pub proof fn undos_are_planned_from_the_selection(
    baseline: Seq<TaskV>,
    events: Seq<EventV>,
    seq: Option<u64>,
    count: nat,
    remove: bool,
    committed: nat,
    done: Seq<char>,
    at: Timestamp,
    k: int,
)
    ensures
        ({
            let p = planned(baseline, events, seq, count, remove, committed, done, at);
            let chosen = selection(events, seq, count);
            let asked = count > 0 && events.len() > 0;
            &&& !asked ==> p is Ok && p->Ok_0 is None
            &&& asked && chosen is Err ==> p is Err
            &&& asked && chosen is Ok && chosen->Ok_0.len() == 0 ==> p is Ok && p->Ok_0 is None
            &&& p is Ok && p->Ok_0 is Some ==> asked && chosen is Ok && p->Ok_0->0.count
                == chosen->Ok_0.len() && p->Ok_0->0.undone.len() == chosen->Ok_0.len()
            &&& p is Ok && p->Ok_0 is Some && 0 <= k < chosen->Ok_0.len() ==> {
                let e = events[chosen->Ok_0[k] as int];
                let u = p->Ok_0->0.undone[k];
                u.seq == e.seq && u.op == e.op && u.task_id == e.task_id
            }
            &&& asked && chosen is Ok && chosen->Ok_0.len() > 0 && numbers_left(
                baseline,
                events,
                chosen->Ok_0,
                remove,
                committed,
                done,
                at,
            ) ==> p is Ok && p->Ok_0 is Some
        }),
{
}

} // verus!
