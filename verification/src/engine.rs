//! Replay of the event log over a baseline.

use crate::json::{self, Json, JsonV};
use crate::model::{
    self, EventV, FieldsV, MutationEvent, OpType, RelsV, StateV, TaskState, TaskV, Timestamp,
    STATUS_KEY,
};
use crate::strmap::{self, Data, StrMap};
use crate::text;
use vstd::prelude::*;

verus! {

/// Replays events into task state.
pub struct Engine;

/// The text a value adds when it is appended: a text as it is, anything else
/// as compact JSON.
pub open spec fn plain_text(v: JsonV) -> Seq<char> {
    match v {
        JsonV::Str(s) => s,
        _ => json::compact(v),
    }
}

/// The text form of a value: a text as it is, anything else as compact JSON.
pub fn append_text(v: &Json) -> (r: String)
    ensures
        r@ == plain_text(v@),
{
    match v {
        Json::Str(s) => s.clone(),
        _ => json::compact_text(v),
    }
}

/// The fields after a payload is set on them: a null takes its field away, any
/// other value replaces it, and the rest stays.
pub open spec fn set_fields(fields: FieldsV, payload: FieldsV) -> FieldsV {
    Map::new(
        |k: Seq<char>|
            if payload.contains_key(k) {
                !(payload[k] is Null)
            } else {
                fields.contains_key(k)
            },
        |k: Seq<char>|
            if payload.contains_key(k) {
                payload[k]
            } else {
                fields[k]
            },
    )
}

/// Sets each field of `payload`, or removes it where the payload holds null.
pub fn apply_set(fields: &mut StrMap<Json>, payload: &StrMap<Json>)
    ensures
        final(fields)@ == set_fields(old(fields)@, payload@),
{
    let n = payload.len();
    let ghost keys = payload.keys_view();
    let ghost before = fields@;
    let mut i: usize = 0;
    proof {
        strmap::lemma_prefix(payload@, keys, 0);
        assert(before =~= set_fields(before, strmap::prefix(payload@, keys, 0)));
    }
    while i < n
        invariant
            i <= n,
            n == keys.len(),
            keys == payload.keys_view(),
            strmap::ascending(keys),
            keys.to_set() == payload@.dom(),
            fields@ == set_fields(before, strmap::prefix(payload@, keys, i as nat)),
        decreases n - i,
    {
        let k = payload.key_at(i);
        let v = payload.value_at(i);
        proof {
            strmap::lemma_prefix(payload@, keys, i as nat);
        }
        match v {
            Json::Null => {
                let _ = fields.remove(k.as_str());
            },
            _ => {
                fields.insert(k.clone(), v.copy());
            },
        }
        assert(fields@ =~= set_fields(before, strmap::prefix(payload@, keys, i as nat + 1)));
        i += 1;
    }
    proof {
        strmap::lemma_prefix(payload@, keys, n as nat);
    }
}

/// The fields after a payload is appended to them: each value's text goes on a
/// line of its own after what the field holds. A null adds nothing.
pub open spec fn append_fields(fields: FieldsV, payload: FieldsV) -> FieldsV {
    Map::new(
        |k: Seq<char>|
            fields.contains_key(k) || (payload.contains_key(k) && !(payload[k] is Null)),
        |k: Seq<char>|
            if payload.contains_key(k) && !(payload[k] is Null) {
                appended(fields, k, payload[k])
            } else {
                fields[k]
            },
    )
}

/// What the field `k` holds after `v` is appended to it.
pub open spec fn appended(fields: FieldsV, k: Seq<char>, v: JsonV) -> JsonV {
    if fields.contains_key(k) && plain_text(fields[k]).len() > 0 {
        JsonV::Str(plain_text(fields[k]) + "\n"@ + plain_text(v))
    } else {
        JsonV::Str(plain_text(v))
    }
}

/// Appends the text of each value in `payload` to its field.
pub fn apply_append(fields: &mut StrMap<Json>, payload: &StrMap<Json>)
    ensures
        final(fields)@ == append_fields(old(fields)@, payload@),
{
    let n = payload.len();
    let ghost keys = payload.keys_view();
    let ghost before = fields@;
    let mut i: usize = 0;
    proof {
        strmap::lemma_prefix(payload@, keys, 0);
        assert(before =~= append_fields(before, strmap::prefix(payload@, keys, 0)));
    }
    while i < n
        invariant
            i <= n,
            n == keys.len(),
            keys == payload.keys_view(),
            strmap::ascending(keys),
            keys.to_set() == payload@.dom(),
            fields@ == append_fields(before, strmap::prefix(payload@, keys, i as nat)),
        decreases n - i,
    {
        let k = payload.key_at(i);
        let v = payload.value_at(i);
        proof {
            strmap::lemma_prefix(payload@, keys, i as nat);
        }
        let skip = match v {
            Json::Null => true,
            _ => false,
        };
        if !skip {
            let added = append_text(v);
            let prev = match fields.get(k.as_str()) {
                Some(p) => append_text(p),
                None => String::new(),
            };
            let combined = if prev.as_str().is_empty() {
                added
            } else {
                text::cat3(prev.as_str(), "\n", added.as_str())
            };
            fields.insert(k.clone(), Json::Str(combined));
        }
        assert(fields@ =~= append_fields(before, strmap::prefix(payload@, keys, i as nat + 1)));
        i += 1;
    }
    proof {
        strmap::lemma_prefix(payload@, keys, n as nat);
    }
}

/// The edges after `target` is added under `rel`: once, at the end.
pub open spec fn add_edge(rels: RelsV, rel: Seq<char>, target: Seq<char>) -> RelsV {
    let now = model::targets(rels, rel);
    if now.contains(target) {
        rels
    } else {
        rels.insert(rel, now.push(target))
    }
}

/// The targets other than `target`, in order.
pub open spec fn without(targets: Seq<Seq<char>>, target: Seq<char>) -> Seq<Seq<char>>
    decreases targets.len(),
{
    if targets.len() == 0 {
        Seq::empty()
    } else if targets.last() == target {
        without(targets.drop_last(), target)
    } else {
        without(targets.drop_last(), target).push(targets.last())
    }
}

/// The edges after `target` is taken from `rel`. A type that is left without
/// targets goes too.
pub open spec fn remove_edge(rels: RelsV, rel: Seq<char>, target: Seq<char>) -> RelsV {
    if !rels.contains_key(rel) {
        rels
    } else if without(rels[rel], target).len() == 0 {
        rels.remove(rel)
    } else {
        rels.insert(rel, without(rels[rel], target))
    }
}

/// The edges after an edge payload is applied. One without a target does
/// nothing.
pub open spec fn edge_applied(rels: RelsV, payload: FieldsV, add: bool) -> RelsV {
    match model::target_of(payload) {
        None => rels,
        Some(t) => if add {
            add_edge(rels, model::rel_of(payload), t)
        } else {
            remove_edge(rels, model::rel_of(payload), t)
        },
    }
}

/// Whether `x` is among `v`.
pub fn contains_text(v: &Vec<String>, x: &str) -> (r: bool)
    ensures
        r == v.deep_view().contains(x@),
{
    let ghost all = v.deep_view();
    let mut i: usize = 0;
    while i < v.len()
        invariant
            i <= v.len(),
            all == v.deep_view(),
            forall|j: int| 0 <= j < i ==> #[trigger] all[j] != x@,
        decreases v.len() - i,
    {
        if text::same_text(v[i].as_str(), x) {
            assert(all[i as int] == x@);
            return true;
        }
        i += 1;
    }
    false
}

fn without_text(v: &Vec<String>, x: &str) -> (r: Vec<String>)
    ensures
        r.deep_view() == without(v.deep_view(), x@),
{
    let ghost all = v.deep_view();
    let mut out: Vec<String> = Vec::new();
    let mut i: usize = 0;
    assert(out.deep_view() =~= without(all.take(0), x@));
    while i < v.len()
        invariant
            i <= v.len(),
            all == v.deep_view(),
            out.deep_view() == without(all.take(i as int), x@),
        decreases v.len() - i,
    {
        let ghost longer = all.take(i as int + 1);
        let ghost had = out.deep_view();
        assert(longer.drop_last() =~= all.take(i as int));
        assert(longer.last() == v@[i as int]@);
        if !text::same_text(v[i].as_str(), x) {
            out.push(v[i].clone());
            assert(out.deep_view() =~= had.push(v@[i as int]@));
        }
        i += 1;
    }
    assert(all.take(v.len() as int) =~= all);
    out
}

/// Adds or removes the edge that `payload` names.
pub fn apply_dep(relationships: &mut StrMap<Vec<String>>, payload: &StrMap<Json>, add: bool)
    ensures
        final(relationships)@ == edge_applied(old(relationships)@, payload@, add),
{
    let ghost before = relationships@;
    let target = match model::edge_target(payload) {
        Some(t) => t,
        None => {
            return;
        },
    };
    let rel = model::edge_rel(payload);
    if add {
        let mut now: Vec<String> = match relationships.get(rel.as_str()) {
            Some(v) => v.copy(),
            None => Vec::new(),
        };
        assert(now.deep_view() =~= model::targets(before, rel@));
        if !contains_text(&now, target.as_str()) {
            let ghost had = now.deep_view();
            now.push(target.clone());
            assert(now.deep_view() =~= had.push(target@));
            relationships.insert(rel, now);
        }
    } else {
        let left = match relationships.get(rel.as_str()) {
            Some(v) => without_text(v, target.as_str()),
            None => {
                return;
            },
        };
        if left.len() == 0 {
            let _ = relationships.remove(rel.as_str());
        } else {
            relationships.insert(rel, left);
        }
    }
}

/// When a task counts as closed: the time of its last change to done, as long
/// as it is done.
pub open spec fn close_time_after(
    prev: Option<Timestamp>,
    was_done: bool,
    now_done: bool,
    at: Timestamp,
) -> Option<Timestamp> {
    if !now_done {
        None
    } else if was_done {
        prev
    } else {
        Some(at)
    }
}

/// Sets the close time on a change to done and clears it while not done.
pub fn refresh_close_time(task: &mut TaskState, was_done: bool, now_done: bool, at: Timestamp)
    ensures
        final(task)@ == (TaskV {
            close_time: close_time_after(old(task).close_time, was_done, now_done, at),
            ..old(task)@
        }),
{
    if now_done {
        if !was_done {
            task.close_time = Some(at);
        }
    } else {
        task.close_time = None;
    }
}

/// A task whose fields became `fields` at `at`.
pub open spec fn task_with(t: TaskV, fields: FieldsV, at: Timestamp, done: Seq<char>) -> TaskV {
    TaskV {
        custom_fields: fields,
        update_time: Some(at),
        close_time: close_time_after(
            t.close_time,
            model::done_in(t.custom_fields, STATUS_KEY@, done),
            model::done_in(fields, STATUS_KEY@, done),
            at,
        ),
        ..t
    }
}

/// A task after a payload is set on it at `at`.
pub open spec fn task_set(t: TaskV, payload: FieldsV, at: Timestamp, done: Seq<char>) -> TaskV {
    task_with(t, set_fields(t.custom_fields, payload), at, done)
}

/// A task after a payload is appended to it at `at`.
pub open spec fn task_appended(
    t: TaskV,
    payload: FieldsV,
    at: Timestamp,
    done: Seq<char>,
) -> TaskV {
    task_with(t, append_fields(t.custom_fields, payload), at, done)
}

/// A task after a create event: as an update, on a blank task where there was
/// none. The first create gives the create time.
pub open spec fn task_created(s: StateV, e: EventV, done: Seq<char>) -> TaskV {
    let t = if s.contains_key(e.task_id) {
        s[e.task_id]
    } else {
        model::blank_task(e.task_id)
    };
    TaskV {
        create_time: if t.create_time is None {
            Some(e.timestamp)
        } else {
            t.create_time
        },
        ..task_set(t, e.payload, e.timestamp, done)
    }
}

/// Whether an event finds no task to apply to. A create never does.
pub open spec fn is_orphan(s: StateV, e: EventV) -> bool {
    e.op != OpType::Create && !s.contains_key(e.task_id)
}

/// The tasks after one event. An orphan changes nothing.
pub open spec fn step(s: StateV, e: EventV, done: Seq<char>) -> StateV {
    if is_orphan(s, e) {
        s
    } else {
        let t = s[e.task_id];
        match e.op {
            OpType::Create => s.insert(e.task_id, task_created(s, e, done)),
            OpType::Update => s.insert(e.task_id, task_set(t, e.payload, e.timestamp, done)),
            OpType::Append => s.insert(e.task_id, task_appended(t, e.payload, e.timestamp, done)),
            OpType::AddEdge => s.insert(
                e.task_id,
                TaskV {
                    relationships: edge_applied(t.relationships, e.payload, true),
                    update_time: Some(e.timestamp),
                    ..t
                },
            ),
            OpType::RemoveEdge => s.insert(
                e.task_id,
                TaskV {
                    relationships: edge_applied(t.relationships, e.payload, false),
                    update_time: Some(e.timestamp),
                    ..t
                },
            ),
            OpType::Delete => s.remove(e.task_id),
        }
    }
}

/// The tasks after all of `events`, one after the other.
pub open spec fn replay(s: StateV, events: Seq<EventV>, done: Seq<char>) -> StateV
    decreases events.len(),
{
    if events.len() == 0 {
        s
    } else {
        step(replay(s, events.drop_last(), done), events.last(), done)
    }
}

/// The sequence numbers of the events that are orphans when their turn comes.
pub open spec fn orphans(s: StateV, events: Seq<EventV>, done: Seq<char>) -> Seq<u64>
    decreases events.len(),
{
    if events.len() == 0 {
        Seq::empty()
    } else {
        let rest = orphans(s, events.drop_last(), done);
        if is_orphan(replay(s, events.drop_last(), done), events.last()) {
            rest.push(events.last().seq)
        } else {
            rest
        }
    }
}

/// The tasks of a baseline by id. Of two with one id the later counts.
pub open spec fn baseline_state(tasks: Seq<TaskV>) -> StateV
    decreases tasks.len(),
{
    if tasks.len() == 0 {
        Map::empty()
    } else {
        baseline_state(tasks.drop_last()).insert(tasks.last().id, tasks.last())
    }
}

/// The tasks that `tasks` hold, by id.
pub fn index_tasks(tasks: &Vec<TaskState>) -> (r: StrMap<TaskState>)
    ensures
        r@ == baseline_state(tasks.deep_view()),
{
    let ghost all = tasks.deep_view();
    let mut out: StrMap<TaskState> = StrMap::new();
    let mut i: usize = 0;
    assert(all.take(0) =~= Seq::empty());
    while i < tasks.len()
        invariant
            i <= tasks.len(),
            all == tasks.deep_view(),
            out@ == baseline_state(all.take(i as int)),
        decreases tasks.len() - i,
    {
        let ghost longer = all.take(i as int + 1);
        assert(longer.drop_last() =~= all.take(i as int));
        assert(longer.last() == tasks@[i as int]@);
        out.insert(tasks[i].id.clone(), tasks[i].copy());
        i += 1;
    }
    assert(all.take(tasks.len() as int) =~= all);
    out
}

fn set_on(task: &mut TaskState, payload: &StrMap<Json>, at: Timestamp, done_status: &str)
    ensures
        final(task)@ == task_set(old(task)@, payload@, at, done_status@),
{
    let was_done = model::is_done(task, STATUS_KEY, done_status);
    apply_set(&mut task.custom_fields, payload);
    task.update_time = Some(at);
    let now_done = model::is_done(task, STATUS_KEY, done_status);
    refresh_close_time(task, was_done, now_done, at);
}

fn append_to(task: &mut TaskState, payload: &StrMap<Json>, at: Timestamp, done_status: &str)
    ensures
        final(task)@ == task_appended(old(task)@, payload@, at, done_status@),
{
    let was_done = model::is_done(task, STATUS_KEY, done_status);
    apply_append(&mut task.custom_fields, payload);
    task.update_time = Some(at);
    let now_done = model::is_done(task, STATUS_KEY, done_status);
    refresh_close_time(task, was_done, now_done, at);
}

/// Applies one event. The result says whether it was an orphan.
pub fn apply_event(state: &mut StrMap<TaskState>, event: &MutationEvent, done_status: &str) -> (r:
    bool)
    ensures
        final(state)@ == step(old(state)@, event@, done_status@),
        r == is_orphan(old(state)@, event@),
{
    let ghost before = state@;
    let id = event.task_id.as_str();
    let at = event.timestamp;
    let found = state.take(id);
    let mut task = match found {
        Some(t) => t,
        None => {
            match event.op {
                OpType::Create => TaskState::blank(id),
                _ => {
                    assert(before =~= before.remove(id@));
                    return true;
                },
            }
        },
    };
    match event.op {
        OpType::Create => {
            let first = task.create_time.is_none();
            set_on(&mut task, &event.payload, at, done_status);
            if first {
                task.create_time = Some(at);
            }
        },
        OpType::Update => {
            set_on(&mut task, &event.payload, at, done_status);
        },
        OpType::Append => {
            append_to(&mut task, &event.payload, at, done_status);
        },
        OpType::AddEdge => {
            apply_dep(&mut task.relationships, &event.payload, true);
            task.update_time = Some(at);
        },
        OpType::RemoveEdge => {
            apply_dep(&mut task.relationships, &event.payload, false);
            task.update_time = Some(at);
        },
        OpType::Delete => {
            return false;
        },
    }
    state.insert(event.task_id.clone(), task);
    assert(state@ =~= step(before, event@, done_status@));
    false
}

impl Engine {
    /// The tasks after `mutations` are replayed over `baseline`.
    pub fn materialize_state(
        baseline: &Vec<TaskState>,
        mutations: &Vec<MutationEvent>,
        done_status: &str,
    ) -> (r: StrMap<TaskState>)
        ensures
            r@ == replay(
                baseline_state(baseline.deep_view()),
                mutations.deep_view(),
                done_status@,
            ),
    {
        Engine::materialize_report(baseline, mutations, done_status).0
    }

    /// The tasks after `mutations` are replayed over `baseline`, and the
    /// sequence numbers of the events that found no task.
    pub fn materialize_report(
        baseline: &Vec<TaskState>,
        mutations: &Vec<MutationEvent>,
        done_status: &str,
    ) -> (r: (StrMap<TaskState>, Vec<u64>))
        ensures
            r.0@ == replay(
                baseline_state(baseline.deep_view()),
                mutations.deep_view(),
                done_status@,
            ),
            r.1@ == orphans(
                baseline_state(baseline.deep_view()),
                mutations.deep_view(),
                done_status@,
            ),
    {
        let mut state = index_tasks(baseline);
        let ghost start = state@;
        let ghost all = mutations.deep_view();
        let mut lost: Vec<u64> = Vec::new();
        let mut i: usize = 0;
        assert(all.take(0) =~= Seq::empty());
        while i < mutations.len()
            invariant
                i <= mutations.len(),
                all == mutations.deep_view(),
                state@ == replay(start, all.take(i as int), done_status@),
                lost@ == orphans(start, all.take(i as int), done_status@),
            decreases mutations.len() - i,
        {
            let ghost longer = all.take(i as int + 1);
            assert(longer.drop_last() =~= all.take(i as int));
            assert(longer.last() == mutations@[i as int]@);
            let event = &mutations[i];
            if apply_event(&mut state, event, done_status) {
                lost.push(event.seq);
            }
            i += 1;
        }
        assert(all.take(mutations.len() as int) =~= all);
        (state, lost)
    }

    /// How many events from the start of the log may be folded into the
    /// baseline.
    ///
    /// An event stays if it is among the last `keep_events` or, unless
    /// `keep_days` is 0, in the window of `keep_days` days before `now` or after
    /// an event that is. The last event always stays.
    pub fn retention_split(
        mutations: &Vec<MutationEvent>,
        keep_events: usize,
        keep_days: u64,
        now: Timestamp,
    ) -> (r: usize)
        ensures
            r == split_point(mutations.deep_view(), keep_events as nat, keep_days, now),
    {
        let n: usize = mutations.len();
        let by_count: usize = if keep_events < n {
            n - keep_events
        } else {
            0
        };
        let mut by_time: usize = n;
        let ghost all = mutations.deep_view();
        if keep_days > 0 {
            by_time = 0;
            assert(all.skip(0) =~= all);
            while by_time < n && !in_window(mutations[by_time].timestamp, keep_days, now)
                invariant
                    by_time <= n,
                    n == mutations.len(),
                    all == mutations.deep_view(),
                    by_time + first_recent(all.skip(by_time as int), keep_days, now)
                        == first_recent(all, keep_days, now),
                decreases n - by_time,
            {
                assert(all.skip(by_time as int).drop_first() =~= all.skip(by_time as int + 1));
                assert(all.skip(by_time as int)[0] == mutations@[by_time as int]@);
                by_time += 1;
            }
            if by_time < n {
                assert(all.skip(by_time as int)[0] == mutations@[by_time as int]@);
            }
        }
        let mut r: usize = by_count;
        if by_time < r {
            r = by_time;
        }
        if n > 0 && n - 1 < r {
            r = n - 1;
        }
        r
    }
}

/// Whether `t` lies within `keep_days` days before `now`, or after it.
pub open spec fn recent(t: Timestamp, keep_days: u64, now: Timestamp) -> bool {
    let cutoff = now.secs - keep_days * 86400;
    t.secs > cutoff || (t.secs == cutoff && t.nanos >= now.nanos)
}

/// The index of the first recent event, or the number of events.
pub open spec fn first_recent(events: Seq<EventV>, keep_days: u64, now: Timestamp) -> nat
    decreases events.len(),
{
    if events.len() == 0 || recent(events[0].timestamp, keep_days, now) {
        0
    } else {
        1 + first_recent(events.drop_first(), keep_days, now)
    }
}

/// How many events from the start of the log may be folded away.
pub open spec fn split_point(
    events: Seq<EventV>,
    keep_events: nat,
    keep_days: u64,
    now: Timestamp,
) -> int {
    let n = events.len() as int;
    let by_count = if keep_events < n {
        n - keep_events
    } else {
        0
    };
    let by_time = if keep_days == 0 {
        n
    } else {
        first_recent(events, keep_days, now) as int
    };
    let both = if by_time < by_count {
        by_time
    } else {
        by_count
    };
    if n > 0 && n - 1 < both {
        n - 1
    } else {
        both
    }
}

fn in_window(t: Timestamp, keep_days: u64, now: Timestamp) -> (r: bool)
    ensures
        r == recent(t, keep_days, now),
{
    let cutoff: i128 = now.secs as i128 - keep_days as i128 * 86400;
    let secs: i128 = t.secs as i128;
    secs > cutoff || (secs == cutoff && t.nanos >= now.nanos)
}

proof fn lemma_first_recent(events: Seq<EventV>, keep_days: u64, now: Timestamp)
    ensures
        first_recent(events, keep_days, now) <= events.len(),
        forall|i: int|
            0 <= i < first_recent(events, keep_days, now) ==> !recent(
                (#[trigger] events[i]).timestamp,
                keep_days,
                now,
            ),
        first_recent(events, keep_days, now) < events.len() ==> recent(
            events[first_recent(events, keep_days, now) as int].timestamp,
            keep_days,
            now,
        ),
    decreases events.len(),
{
    if events.len() > 0 && !recent(events[0].timestamp, keep_days, now) {
        let rest = events.drop_first();
        lemma_first_recent(rest, keep_days, now);
        let n = first_recent(rest, keep_days, now);
        assert forall|i: int| 0 <= i < n + 1 implies !recent(
            (#[trigger] events[i]).timestamp,
            keep_days,
            now,
        ) by {
            if i > 0 {
                assert(rest[i - 1] == events[i]);
            }
        }
        if n < rest.len() {
            assert(rest[n as int] == events[n as int + 1]);
        }
    }
}

/// Compaction never empties the log, never folds one of the last `keep_events`
/// events nor one in the time window, and folds everything before the first
/// event that has to stay.
pub proof fn retention_law(
    events: Seq<EventV>,
    keep_events: nat,
    keep_days: u64,
    now: Timestamp,
)
    ensures
        ({
            let split = split_point(events, keep_events, keep_days, now);
            &&& 0 <= split <= events.len()
            &&& events.len() > 0 ==> split < events.len()
            &&& split > 0 ==> split + keep_events <= events.len()
            &&& keep_days > 0 ==> forall|i: int|
                0 <= i < split ==> !recent((#[trigger] events[i]).timestamp, keep_days, now)
            &&& events.len() > 0 ==> {
                ||| split == events.len() - 1
                ||| split + keep_events >= events.len()
                ||| keep_days > 0 && recent(events[split].timestamp, keep_days, now)
            }
        }),
{
    lemma_first_recent(events, keep_days, now);
}

/// Replaying one log after another is replaying both as one.
pub proof fn replay_concat(s: StateV, first: Seq<EventV>, second: Seq<EventV>, done: Seq<char>)
    ensures
        replay(s, first + second, done) == replay(replay(s, first, done), second, done),
        orphans(s, first + second, done) == orphans(s, first, done) + orphans(
            replay(s, first, done),
            second,
            done,
        ),
    decreases second.len(),
{
    if second.len() == 0 {
        assert(first + second =~= first);
        assert(orphans(s, first, done) + Seq::<u64>::empty() =~= orphans(s, first, done));
    } else {
        let both = first + second;
        assert(both.drop_last() =~= first + second.drop_last());
        assert(both.last() == second.last());
        replay_concat(s, first, second.drop_last(), done);
        let o = orphans(replay(s, first, done), second.drop_last(), done);
        assert((orphans(s, first, done) + o).push(both.last().seq) =~= orphans(s, first, done)
            + o.push(both.last().seq));
    }
}

/// The events that are no orphans when their turn comes.
pub open spec fn effective(s: StateV, events: Seq<EventV>, done: Seq<char>) -> Seq<EventV>
    decreases events.len(),
{
    if events.len() == 0 {
        Seq::empty()
    } else {
        let rest = effective(s, events.drop_last(), done);
        if is_orphan(replay(s, events.drop_last(), done), events.last()) {
            rest
        } else {
            rest.push(events.last())
        }
    }
}

/// Dropping the orphaned events from a log changes no task, and leaves a log
/// without orphans.
pub proof fn orphans_are_neutral(s: StateV, events: Seq<EventV>, done: Seq<char>)
    ensures
        replay(s, effective(s, events, done), done) == replay(s, events, done),
        orphans(s, effective(s, events, done), done).len() == 0,
    decreases events.len(),
{
    if events.len() > 0 {
        orphans_are_neutral(s, events.drop_last(), done);
        let rest = effective(s, events.drop_last(), done);
        if !is_orphan(replay(s, events.drop_last(), done), events.last()) {
            assert(rest.push(events.last()).drop_last() =~= rest);
        }
    }
}

/// Adding an edge a second time changes nothing.
pub proof fn add_edge_is_idempotent(rels: RelsV, rel: Seq<char>, target: Seq<char>)
    ensures
        add_edge(add_edge(rels, rel, target), rel, target) == add_edge(rels, rel, target),
        model::targets(add_edge(rels, rel, target), rel).contains(target),
{
    let now = model::targets(rels, rel);
    if !now.contains(target) {
        let after = now.push(target);
        assert(after[now.len() as int] == target);
    }
}

proof fn lemma_without_absent(targets: Seq<Seq<char>>, target: Seq<char>)
    requires
        !targets.contains(target),
    ensures
        without(targets, target) == targets,
    decreases targets.len(),
{
    if targets.len() > 0 {
        assert(targets[targets.len() - 1] != target);
        assert forall|i: int| 0 <= i < targets.len() - 1 implies targets.drop_last()[i]
            != target by {
            assert(targets[i] != target);
        }
        lemma_without_absent(targets.drop_last(), target);
        assert(targets.drop_last().push(targets.last()) =~= targets);
    } else {
        assert(without(targets, target) =~= targets);
    }
}

/// Removing an edge that was just added brings the edges back, and leaves no
/// empty entry behind.
pub proof fn remove_edge_undoes_add_edge(rels: RelsV, rel: Seq<char>, target: Seq<char>)
    requires
        !model::targets(rels, rel).contains(target),
        rels.contains_key(rel) ==> rels[rel].len() > 0,
    ensures
        remove_edge(add_edge(rels, rel, target), rel, target) == rels,
{
    let now = model::targets(rels, rel);
    let after = now.push(target);
    lemma_without_absent(now, target);
    assert(after.drop_last() =~= now);
    assert(without(after, target) == now);
    if rels.contains_key(rel) {
        assert(rels.insert(rel, after).insert(rel, now) =~= rels);
    } else {
        assert(rels.insert(rel, after).remove(rel) =~= rels);
    }
}

/// Whether a task is well kept: filed under its id, without null fields and
/// without relationship types that have no target.
pub open spec fn tidy(id: Seq<char>, t: TaskV) -> bool {
    &&& t.id == id
    &&& forall|k: Seq<char>|
        t.custom_fields.contains_key(k) ==> !(#[trigger] t.custom_fields[k] is Null)
    &&& forall|r: Seq<char>|
        t.relationships.contains_key(r) ==> (#[trigger] t.relationships[r]).len() > 0
}

/// Whether every task of a state is well kept.
pub open spec fn tidy_state(s: StateV) -> bool {
    forall|id: Seq<char>| s.contains_key(id) ==> tidy(id, #[trigger] s[id])
}

/// Replay keeps a state tidy: each task under its id, no null field, no
/// relationship type without a target.
pub proof fn replay_keeps_tidy(s: StateV, events: Seq<EventV>, done: Seq<char>)
    requires
        tidy_state(s),
    ensures
        tidy_state(replay(s, events, done)),
    decreases events.len(),
{
    if events.len() > 0 {
        replay_keeps_tidy(s, events.drop_last(), done);
        let before = replay(s, events.drop_last(), done);
        let e = events.last();
        assert forall|id: Seq<char>| step(before, e, done).contains_key(id) implies tidy(
            id,
            #[trigger] step(before, e, done)[id],
        ) by {
            if before.contains_key(id) {
                assert(tidy(id, before[id]));
            }
        }
    }
}

proof fn lemma_without_once(targets: Seq<Seq<char>>, target: Seq<char>)
    requires
        targets.no_duplicates(),
    ensures
        without(targets, target).no_duplicates(),
        forall|t: Seq<char>| without(targets, target).contains(t) ==> targets.contains(t),
    decreases targets.len(),
{
    if targets.len() > 0 {
        let fewer = targets.drop_last();
        let rest = without(fewer, target);
        lemma_without_once(fewer, target);
        assert forall|t: Seq<char>| rest.contains(t) implies targets.contains(t) && t
            != targets.last() by {
            assert(fewer.contains(t));
            let i = choose|i: int| 0 <= i < fewer.len() && fewer[i] == t;
            assert(targets[i] == t);
        }
        assert(targets.contains(targets.last())) by {
            assert(targets[targets.len() - 1] == targets.last());
        }
        let now = without(targets, target);
        assert forall|i: int, j: int| 0 <= i < j < now.len() implies now[i] != now[j] by {
            if j < rest.len() {
                assert(rest[i] != rest[j]);
            } else {
                assert(rest.contains(rest[i]));
            }
        }
        assert forall|t: Seq<char>| now.contains(t) implies targets.contains(t) by {
            let i = choose|i: int| 0 <= i < now.len() && now[i] == t;
            if i < rest.len() {
                assert(rest.contains(rest[i]));
            }
        }
    }
}

/// Whether no task has an edge twice: each target stands once under its type.
pub open spec fn edges_once(s: StateV) -> bool {
    forall|id: Seq<char>, rel: Seq<char>|
        s.contains_key(id) && s[id].relationships.contains_key(rel) ==> (
        #[trigger] s[id].relationships[rel]).no_duplicates()
}

/// Replay gives no task an edge twice.
pub proof fn replay_keeps_edges_once(s: StateV, events: Seq<EventV>, done: Seq<char>)
    requires
        edges_once(s),
    ensures
        edges_once(replay(s, events, done)),
    decreases events.len(),
{
    if events.len() > 0 {
        replay_keeps_edges_once(s, events.drop_last(), done);
        let before = replay(s, events.drop_last(), done);
        let e = events.last();
        let after = step(before, e, done);
        assert forall|id: Seq<char>, rel: Seq<char>|
            after.contains_key(id) && after[id].relationships.contains_key(rel) implies (
        #[trigger] after[id].relationships[rel]).no_duplicates() by {
            if before.contains_key(id) {
                let rels = before[id].relationships;
                if rels.contains_key(rel) {
                    assert(rels[rel].no_duplicates());
                    if let Some(t) = model::target_of(e.payload) {
                        lemma_without_once(rels[rel], t);
                    }
                }
            }
        }
    }
}

/// Whether the close time of a task is there exactly while the task is done.
pub open spec fn closed_while_done(s: StateV, done: Seq<char>) -> bool {
    forall|id: Seq<char>|
        s.contains_key(id) ==> ((#[trigger] s[id]).close_time is Some <==> model::done_in(
            s[id].custom_fields,
            STATUS_KEY@,
            done,
        ))
}

/// Replay keeps the close time in step with the status: a task has one exactly
/// while it is done.
pub proof fn replay_keeps_close_time(s: StateV, events: Seq<EventV>, done: Seq<char>)
    requires
        closed_while_done(s, done),
    ensures
        closed_while_done(replay(s, events, done), done),
    decreases events.len(),
{
    if events.len() > 0 {
        replay_keeps_close_time(s, events.drop_last(), done);
        let before = replay(s, events.drop_last(), done);
        let e = events.last();
        assert forall|id: Seq<char>| step(before, e, done).contains_key(id) implies ((
        #[trigger] step(before, e, done)[id]).close_time is Some <==> model::done_in(
            step(before, e, done)[id].custom_fields,
            STATUS_KEY@,
            done,
        )) by {
            if before.contains_key(id) {
                assert(before[id].close_time is Some <==> model::done_in(
                    before[id].custom_fields,
                    STATUS_KEY@,
                    done,
                ));
            }
        }
    }
}

/// Whether a task has an edge of a type to another.
pub open spec fn linked(t: TaskV, rel: Seq<char>, target: Seq<char>) -> bool {
    t.relationships.contains_key(rel) && t.relationships[rel].contains(target)
}

/// An event concerns its own task: all others stay as they are. A create always
/// leaves its task there and a delete never does; any other event leaves the
/// tasks that there are, and does nothing at all where its task is not there.
pub proof fn events_concern_their_task(s: StateV, e: EventV, done: Seq<char>, id: Seq<char>)
    ensures
        ({
            let a = step(s, e, done);
            &&& id != e.task_id ==> (a.contains_key(id) <==> s.contains_key(id))
            &&& id != e.task_id && s.contains_key(id) ==> a[id] == s[id]
            &&& e.op == OpType::Create ==> a.contains_key(e.task_id)
            &&& e.op == OpType::Delete ==> !a.contains_key(e.task_id)
            &&& e.op != OpType::Create && e.op != OpType::Delete ==> (a.contains_key(e.task_id)
                <==> s.contains_key(e.task_id))
            &&& e.op != OpType::Create && !s.contains_key(e.task_id) ==> a =~= s
        }),
{
}

/// What the fields of a task are after an event. To create or update a task
/// writes the named fields and takes those away that are named with null. To
/// append writes after what a field holds, on a new line if it holds any text; a
/// null adds nothing. No other event changes a field.
pub proof fn events_write_fields(s: StateV, e: EventV, done: Seq<char>, k: Seq<char>)
    requires
        e.op != OpType::Delete,
        e.op == OpType::Create || s.contains_key(e.task_id),
    ensures
        ({
            let a = step(s, e, done)[e.task_id].custom_fields;
            let had = s.contains_key(e.task_id) && s[e.task_id].custom_fields.contains_key(k);
            let was = s[e.task_id].custom_fields[k];
            let named = e.payload.contains_key(k);
            let sets = e.op == OpType::Create || e.op == OpType::Update;
            let adds = e.op == OpType::Append && named && !(e.payload[k] is Null);
            &&& sets && named && e.payload[k] is Null ==> !a.contains_key(k)
            &&& sets && named && !(e.payload[k] is Null) ==> a.contains_key(k) && a[k]
                == e.payload[k]
            &&& adds ==> a.contains_key(k) && a[k] is Str
            &&& adds && e.payload[k] is Str && !had ==> a[k] == e.payload[k]
            &&& adds && e.payload[k] is Str && had && was is Str && was->Str_0.len() == 0 ==> a[k]
                == e.payload[k]
            &&& adds && e.payload[k] is Str && had && was is Str && was->Str_0.len() > 0 ==> a[k]
                == JsonV::Str(was->Str_0 + seq!['\n'] + e.payload[k]->Str_0)
            &&& adds && !(e.payload[k] is Str) && !had ==> a[k] == JsonV::Str(
                json::compact(e.payload[k]),
            )
            &&& !(sets && named) && !adds ==> (a.contains_key(k) <==> had)
            &&& !(sets && named) && !adds && had ==> a[k] == was
        }),
{
    reveal_strlit("\n");
    assert("\n"@ =~= seq!['\n']);
}

proof fn lemma_without(targets: Seq<Seq<char>>, target: Seq<char>, x: Seq<char>)
    ensures
        without(targets, target).contains(x) <==> targets.contains(x) && x != target,
    decreases targets.len(),
{
    if targets.len() > 0 {
        let rest = targets.drop_last();
        lemma_without(rest, target, x);
        strmap::lemma_contains_last(targets, x);
        if targets.last() != target {
            let longer = without(rest, target).push(targets.last());
            assert(longer.drop_last() =~= without(rest, target));
            strmap::lemma_contains_last(longer, x);
        }
    }
}

/// What the edges of a task are after an event: one edge more or less, the one
/// that the payload names, and the others as before. A relationship type that is
/// not named is `depends_on`. An event without a target, or of another kind,
/// changes no edge.
pub proof fn events_link_tasks(
    s: StateV,
    e: EventV,
    done: Seq<char>,
    rel: Seq<char>,
    target: Seq<char>,
)
    requires
        e.op != OpType::Delete,
        s.contains_key(e.task_id),
    ensures
        ({
            let a = step(s, e, done)[e.task_id];
            let b = s[e.task_id];
            let t = e.payload["target"@];
            let r = e.payload["rel"@];
            let to = e.payload.contains_key("target"@) && t is Str;
            let by = e.payload.contains_key("rel"@) && r is Str;
            let plain = !e.payload.contains_key("rel"@) && !e.payload.contains_key("type"@);
            let here = to && target == t->Str_0 && (by && rel == r->Str_0 || plain && rel
                == "depends_on"@);
            let clear = to && (by || plain);
            &&& e.op == OpType::AddEdge && clear ==> (linked(a, rel, target) <==> linked(
                b,
                rel,
                target,
            ) || here)
            &&& e.op == OpType::RemoveEdge && clear ==> (linked(a, rel, target) <==> linked(
                b,
                rel,
                target,
            ) && !here)
            &&& e.op != OpType::AddEdge && e.op != OpType::RemoveEdge ==> a.relationships
                == b.relationships
            &&& !e.payload.contains_key("target"@) && !e.payload.contains_key("dep"@)
                ==> a.relationships == b.relationships
        }),
{
    let b = s[e.task_id].relationships;
    let named = model::rel_of(e.payload);
    if let Some(to) = model::target_of(e.payload) {
        let now = model::targets(b, named);
        if e.op == OpType::AddEdge && !now.contains(to) {
            assert(now.push(to).drop_last() =~= now);
            strmap::lemma_contains_last(now.push(to), target);
        }
        if e.op == OpType::RemoveEdge && b.contains_key(named) {
            lemma_without(b[named], to, target);
            if without(b[named], to).len() > 0 {
                assert(without(b[named], to).contains(without(b[named], to)[0]));
            }
        }
    }
}

/// What the times of a task are after an event: it was changed when the event
/// happened; it was created when it was first created; and it is closed only
/// while its status is the done status, since it came to that.
pub proof fn events_tell_times(s: StateV, e: EventV, done: Seq<char>)
    requires
        e.op != OpType::Delete,
        e.op == OpType::Create || s.contains_key(e.task_id),
    ensures
        ({
            let a = step(s, e, done)[e.task_id];
            let old = s[e.task_id];
            let known = s.contains_key(e.task_id);
            let is_done = a.custom_fields.contains_key("status"@) && a.custom_fields["status"@]
                == JsonV::Str(done);
            let was_done = known && old.custom_fields.contains_key("status"@)
                && old.custom_fields["status"@] == JsonV::Str(done);
            let edges = e.op == OpType::AddEdge || e.op == OpType::RemoveEdge;
            &&& a.update_time == Some(e.timestamp)
            &&& !known ==> a.create_time == Some(e.timestamp)
            &&& known && old.create_time is Some ==> a.create_time == old.create_time
            &&& known && e.op != OpType::Create ==> a.create_time == old.create_time
            &&& !edges && !is_done ==> a.close_time is None
            &&& !edges && is_done && !was_done ==> a.close_time == Some(e.timestamp)
            &&& is_done && was_done ==> a.close_time == old.close_time
            &&& edges ==> a.close_time == old.close_time
            &&& known ==> a.id == old.id
            &&& !known ==> a.id == e.task_id
        }),
{
}

/// An event is recent where it happened not more than so many days before now,
/// to the nanosecond.
pub proof fn recent_events_are_days_old(t: Timestamp, days: u64, now: Timestamp)
    requires
        t.nanos < 1_000_000_000,
        now.nanos < 1_000_000_000,
    ensures
        recent(t, days, now) <==> (now.secs * 1_000_000_000 + now.nanos) - (t.secs * 1_000_000_000
            + t.nanos) <= days * (24 * 60 * 60) * 1_000_000_000,
{
    let gap = now.secs - t.secs;
    let span = days * 86400;
    assert(days * (24 * 60 * 60) == span);
    if gap < span {
        assert(gap + 1 <= span);
    } else if gap > span {
        assert(gap >= span + 1);
    }
}

/// The tasks of a baseline are there under their ids; of two with one id the
/// later one counts.
pub proof fn baselines_hold_their_tasks(tasks: Seq<TaskV>, i: int)
    requires
        0 <= i < tasks.len(),
        forall|j: int| i < j < tasks.len() ==> (#[trigger] tasks[j]).id != tasks[i].id,
    ensures
        baseline_state(tasks).contains_key(tasks[i].id),
        baseline_state(tasks)[tasks[i].id] == tasks[i],
        forall|id: Seq<char>| #[trigger]
            baseline_state(tasks).contains_key(id) ==> exists|k: int|
                0 <= k < tasks.len() && (#[trigger] tasks[k]).id == id,
    decreases tasks.len(),
{
    lemma_baseline_ids(tasks);
    if i < tasks.len() - 1 {
        let rest = tasks.drop_last();
        assert forall|j: int| i < j < rest.len() implies (#[trigger] rest[j]).id != rest[i].id by {
            assert(tasks[j].id != tasks[i].id);
        }
        baselines_hold_their_tasks(rest, i);
        assert(tasks[tasks.len() - 1].id != tasks[i].id);
    }
}

proof fn lemma_baseline_ids(tasks: Seq<TaskV>)
    ensures
        forall|id: Seq<char>| #[trigger]
            baseline_state(tasks).contains_key(id) ==> exists|k: int|
                0 <= k < tasks.len() && (#[trigger] tasks[k]).id == id,
    decreases tasks.len(),
{
    if tasks.len() > 0 {
        let rest = tasks.drop_last();
        lemma_baseline_ids(rest);
        assert forall|id: Seq<char>| #[trigger]
            baseline_state(tasks).contains_key(id) implies exists|k: int|
            0 <= k < tasks.len() && (#[trigger] tasks[k]).id == id by {
            if baseline_state(rest).contains_key(id) {
                let k = choose|k: int| 0 <= k < rest.len() && (#[trigger] rest[k]).id == id;
                assert(tasks[k].id == id);
            } else {
                assert(tasks[tasks.len() - 1].id == id);
            }
        }
    }
}

} // verus!
