//! What taking events back means for the state of the tasks.

use crate::compensate;
use crate::engine;
use crate::model::{self, EventV, OpType, StateV, TaskV, Timestamp};
use crate::strmap;
use crate::undo;
use vstd::prelude::*;

verus! {

/// Whether no task has null fields or empty or infinitely many edge types.
pub open spec fn sound_state(s: StateV) -> bool {
    forall|id: Seq<char>| compensate::sound(id, #[trigger] compensate::task_at(s, id))
}

/// Whether each baseline task has no null fields and no empty edge types.
pub open spec fn sound_tasks(tasks: Seq<TaskV>) -> bool {
    forall|i: int|
        0 <= i < tasks.len() ==> compensate::sound(
            (#[trigger] tasks[i]).id,
            Some(tasks[i]),
        )
}

proof fn lemma_task_at(s: StateV, id: Seq<char>)
    requires
        sound_state(s),
        s.contains_key(id),
    ensures
        engine::tidy(id, s[id]),
        s[id].relationships.dom().finite(),
{
    assert(compensate::sound(id, compensate::task_at(s, id)));
}

/// Replaying a log keeps the state sound.
pub proof fn replay_keeps_sound(s: StateV, events: Seq<EventV>, done: Seq<char>)
    requires
        sound_state(s),
    ensures
        sound_state(engine::replay(s, events, done)),
    decreases events.len(),
{
    assert forall|id: Seq<char>| s.contains_key(id) implies engine::tidy(id, #[trigger] s[id]) by {
        lemma_task_at(s, id);
    }
    engine::replay_keeps_tidy(s, events, done);
    let now = engine::replay(s, events, done);
    if events.len() > 0 {
        let mid = engine::replay(s, events.drop_last(), done);
        replay_keeps_sound(s, events.drop_last(), done);
        let e = events.last();
        assert forall|id: Seq<char>| compensate::sound(
            id,
            #[trigger] compensate::task_at(now, id),
        ) by {
            if now.contains_key(id) {
                assert(engine::tidy(id, now[id]));
                if mid.contains_key(id) {
                    lemma_task_at(mid, id);
                }
            }
        }
    }
}

proof fn lemma_base_sound(tasks: Seq<TaskV>)
    requires
        sound_tasks(tasks),
    ensures
        sound_state(engine::baseline_state(tasks)),
    decreases tasks.len(),
{
    if tasks.len() > 0 {
        let rest = tasks.drop_last();
        assert forall|i: int| 0 <= i < rest.len() implies compensate::sound(
            (#[trigger] rest[i]).id,
            Some(rest[i]),
        ) by {
            assert(rest[i] == tasks[i]);
        }
        lemma_base_sound(rest);
        let before = engine::baseline_state(rest);
        let now = engine::baseline_state(tasks);
        assert forall|id: Seq<char>| compensate::sound(
            id,
            #[trigger] compensate::task_at(now, id),
        ) by {
            assert(compensate::sound(id, compensate::task_at(before, id)));
            assert(compensate::sound(tasks[tasks.len() - 1].id, Some(tasks[tasks.len() - 1])));
        }
    }
}

proof fn lemma_scoped_sound(tasks: Seq<TaskV>, ids: Set<Seq<char>>)
    requires
        sound_tasks(tasks),
    ensures
        sound_tasks(undo::tasks_in(tasks, ids)),
    decreases tasks.len(),
{
    if tasks.len() > 0 {
        let rest = tasks.drop_last();
        assert forall|i: int| 0 <= i < rest.len() implies compensate::sound(
            (#[trigger] rest[i]).id,
            Some(rest[i]),
        ) by {
            assert(rest[i] == tasks[i]);
        }
        lemma_scoped_sound(rest, ids);
        let out = undo::tasks_in(tasks, ids);
        let before = undo::tasks_in(rest, ids);
        assert(compensate::sound(tasks[tasks.len() - 1].id, Some(tasks[tasks.len() - 1])));
        assert forall|i: int| 0 <= i < out.len() implies compensate::sound(
            (#[trigger] out[i]).id,
            Some(out[i]),
        ) by {
            if i < before.len() {
                assert(out[i] == before[i]);
            }
        }
    }
}

/// An event treats a task the same way in states that agree on that task.
pub proof fn step_is_local(a: StateV, b: StateV, e: EventV, done: Seq<char>, id: Seq<char>)
    requires
        compensate::task_at(a, id) == compensate::task_at(b, id),
    ensures
        compensate::task_at(engine::step(a, e, done), id) == compensate::task_at(
            engine::step(b, e, done),
            id,
        ),
{
    if e.task_id == id {
        assert(a.contains_key(id) == b.contains_key(id));
        if a.contains_key(id) {
            assert(a[id] == b[id]);
        }
    }
}

proof fn lemma_base_scoped(tasks: Seq<TaskV>, ids: Set<Seq<char>>, id: Seq<char>)
    requires
        ids.contains(id),
    ensures
        compensate::task_at(engine::baseline_state(tasks), id) == compensate::task_at(
            engine::baseline_state(undo::tasks_in(tasks, ids)),
            id,
        ),
    decreases tasks.len(),
{
    if tasks.len() > 0 {
        lemma_base_scoped(tasks.drop_last(), ids, id);
        let rest = undo::tasks_in(tasks.drop_last(), ids);
        if ids.contains(tasks.last().id) {
            let out = undo::tasks_in(tasks, ids);
            assert(out.drop_last() =~= rest);
        }
    }
}

/// The state of a task follows from the baseline and the events of any set of
/// tasks that it belongs to.
pub proof fn scoping_keeps_state(
    baseline: Seq<TaskV>,
    events: Seq<EventV>,
    ids: Set<Seq<char>>,
    done: Seq<char>,
    id: Seq<char>,
)
    requires
        ids.contains(id),
    ensures
        compensate::task_at(
            engine::replay(engine::baseline_state(baseline), events, done),
            id,
        ) == compensate::task_at(undo::scoped_state(baseline, events, ids, done), id),
    decreases events.len(),
{
    lemma_base_scoped(baseline, ids, id);
    if events.len() > 0 {
        let fewer = events.drop_last();
        scoping_keeps_state(baseline, fewer, ids, done, id);
        let a = engine::replay(engine::baseline_state(baseline), fewer, done);
        let b = undo::scoped_state(baseline, fewer, ids, done);
        let e = events.last();
        if ids.contains(e.task_id) {
            let out = undo::events_in(events, ids);
            assert(out.drop_last() =~= undo::events_in(fewer, ids));
            assert(out.last() == e);
            step_is_local(a, b, e, done, id);
        } else {
            assert(e.task_id != id);
        }
    }
}

pub(crate) proof fn lemma_events_in_concat(a: Seq<EventV>, b: Seq<EventV>, ids: Set<Seq<char>>)
    ensures
        undo::events_in(a + b, ids) == undo::events_in(a, ids) + undo::events_in(b, ids),
    decreases b.len(),
{
    if b.len() == 0 {
        assert(a + b =~= a);
        assert(undo::events_in(a, ids) + undo::events_in(b, ids) =~= undo::events_in(a, ids));
    } else {
        lemma_events_in_concat(a, b.drop_last(), ids);
        assert((a + b).drop_last() =~= a + b.drop_last());
        assert((a + b).last() == b.last());
        assert(undo::events_in(a + b, ids) =~= undo::events_in(a, ids) + undo::events_in(b, ids));
    }
}

proof fn lemma_events_in_all(events: Seq<EventV>, ids: Set<Seq<char>>)
    requires
        forall|i: int| 0 <= i < events.len() ==> ids.contains((#[trigger] events[i]).task_id),
    ensures
        undo::events_in(events, ids) == events,
    decreases events.len(),
{
    if events.len() > 0 {
        let fewer = events.drop_last();
        assert forall|i: int| 0 <= i < fewer.len() implies ids.contains((#[trigger] fewer[i]).task_id) by {
            assert(fewer[i] == events[i]);
        }
        lemma_events_in_all(fewer, ids);
        assert(ids.contains(events[events.len() - 1].task_id));
        assert(fewer.push(events.last()) =~= events);
    } else {
        assert(undo::events_in(events, ids) =~= events);
    }
}

pub(crate) proof fn lemma_events_in_source(events: Seq<EventV>, ids: Set<Seq<char>>, k: int) -> (i: int)
    requires
        0 <= k < undo::events_in(events, ids).len(),
    ensures
        0 <= i < events.len(),
        events[i] == undo::events_in(events, ids)[k],
        ids.contains(events[i].task_id),
    decreases events.len(),
{
    let rest = undo::events_in(events.drop_last(), ids);
    if k < rest.len() {
        let i = lemma_events_in_source(events.drop_last(), ids, k);
        assert(events.drop_last()[i] == events[i]);
        i
    } else {
        events.len() - 1
    }
}

proof fn lemma_originals_concat(a: Seq<EventV>, b: Seq<EventV>, removed: Set<u64>)
    ensures
        undo::originals_without(a + b, removed) == undo::originals_without(a, removed)
            + undo::originals_without(b, removed),
    decreases b.len(),
{
    if b.len() == 0 {
        assert(a + b =~= a);
        assert(undo::originals_without(a, removed) + undo::originals_without(b, removed)
            =~= undo::originals_without(a, removed));
    } else {
        lemma_originals_concat(a, b.drop_last(), removed);
        assert((a + b).drop_last() =~= a + b.drop_last());
        assert((a + b).last() == b.last());
        assert(undo::originals_without(a + b, removed) =~= undo::originals_without(a, removed)
            + undo::originals_without(b, removed));
    }
}

pub(crate) proof fn lemma_originals_agree(events: Seq<EventV>, r1: Set<u64>, r2: Set<u64>)
    requires
        forall|i: int|
            0 <= i < events.len() && (#[trigger] events[i]).undoes is None ==> r1.contains(
                events[i].seq,
            ) == r2.contains(events[i].seq),
    ensures
        undo::originals_without(events, r1) == undo::originals_without(events, r2),
    decreases events.len(),
{
    if events.len() > 0 {
        let fewer = events.drop_last();
        assert forall|i: int| 0 <= i < fewer.len() && (#[trigger] fewer[i]).undoes is None implies r1.contains(
            fewer[i].seq,
        ) == r2.contains(fewer[i].seq) by {
            assert(fewer[i] == events[i]);
        }
        lemma_originals_agree(fewer, r1, r2);
        assert(events.last() == events[events.len() - 1]);
    }
}

proof fn lemma_originals_none(events: Seq<EventV>, removed: Set<u64>)
    requires
        forall|i: int|
            0 <= i < events.len() ==> (#[trigger] events[i]).undoes is Some || removed.contains(
                events[i].seq,
            ),
    ensures
        undo::originals_without(events, removed) == Seq::<EventV>::empty(),
    decreases events.len(),
{
    if events.len() > 0 {
        let fewer = events.drop_last();
        assert forall|i: int| 0 <= i < fewer.len() implies (#[trigger] fewer[i]).undoes is Some
            || removed.contains(fewer[i].seq) by {
            assert(fewer[i] == events[i]);
        }
        lemma_originals_none(fewer, removed);
        assert(events.last() == events[events.len() - 1]);
    }
}

/// Whether two events do the same to a state: they differ at most in their
/// numbers and marks.
pub open spec fn same_effect(a: EventV, b: EventV) -> bool {
    a.timestamp == b.timestamp && a.op == b.op && a.task_id == b.task_id && a.payload == b.payload
}

proof fn lemma_same_effect(s: StateV, a: Seq<EventV>, b: Seq<EventV>, done: Seq<char>)
    requires
        a.len() == b.len(),
        forall|i: int| 0 <= i < a.len() ==> same_effect(#[trigger] a[i], b[i]),
    ensures
        engine::replay(s, a, done) == engine::replay(s, b, done),
    decreases a.len(),
{
    if a.len() > 0 {
        assert forall|i: int| 0 <= i < a.drop_last().len() implies same_effect(
            #[trigger] a.drop_last()[i],
            b.drop_last()[i],
        ) by {
            assert(same_effect(a[i], b[i]));
        }
        lemma_same_effect(s, a.drop_last(), b.drop_last(), done);
        assert(same_effect(a[a.len() - 1], b[b.len() - 1]));
        let mid = engine::replay(s, a.drop_last(), done);
        let x = a.last();
        let y = b.last();
        assert(engine::step(mid, x, done) == engine::step(mid, y, done));
    }
}

proof fn lemma_removal_is_local(
    base: StateV,
    own: Seq<EventV>,
    removed: Set<u64>,
    s: u64,
    id: Seq<char>,
    other: Seq<char>,
    done: Seq<char>,
)
    requires
        forall|i: int|
            0 <= i < own.len() && (#[trigger] own[i]).seq == s ==> own[i].task_id == id,
        other != id,
    ensures
        compensate::task_at(
            engine::replay(base, undo::originals_without(own, removed), done),
            other,
        ) == compensate::task_at(
            engine::replay(base, undo::originals_without(own, removed.insert(s)), done),
            other,
        ),
    decreases own.len(),
{
    if own.len() > 0 {
        let fewer = own.drop_last();
        assert forall|i: int| 0 <= i < fewer.len() && (#[trigger] fewer[i]).seq == s implies fewer[i].task_id == id by {
            assert(fewer[i] == own[i]);
        }
        lemma_removal_is_local(base, fewer, removed, s, id, other, done);
        let e = own.last();
        assert(e == own[own.len() - 1]);
        let more = removed.insert(s);
        let a0 = undo::originals_without(fewer, removed);
        let b0 = undo::originals_without(fewer, more);
        let a1 = undo::originals_without(own, removed);
        let b1 = undo::originals_without(own, more);
        let x = engine::replay(base, a0, done);
        let y = engine::replay(base, b0, done);
        if e.undoes is None && !removed.contains(e.seq) {
            assert(a1.drop_last() =~= a0 && a1.last() == e);
            if e.seq == s {
                assert(e.task_id != other);
            } else {
                assert(b1.drop_last() =~= b0 && b1.last() == e);
                step_is_local(x, y, e, done, other);
            }
        }
    }
}

/// Whether two states have alike tasks.
pub open spec fn states_alike(a: StateV, b: StateV) -> bool {
    forall|id: Seq<char>|
        compensate::alike(#[trigger] compensate::task_at(a, id), compensate::task_at(b, id))
}

proof fn lemma_inert(cur: StateV, id: Seq<char>, at: Timestamp, done: Seq<char>)
    ensures
        states_alike(
            engine::replay(
                cur,
                seq![model::draft(OpType::Update, id, Map::empty(), at)],
                done,
            ),
            cur,
        ),
{
    let e = model::draft(OpType::Update, id, Map::empty(), at);
    let events = seq![e];
    assert(events.drop_last() =~= Seq::<EventV>::empty());
    assert(engine::replay(cur, events.drop_last(), done) == cur);
    let now = engine::replay(cur, events, done);
    assert(now == engine::step(cur, e, done));
    assert forall|x: Seq<char>| compensate::alike(
        #[trigger] compensate::task_at(now, x),
        compensate::task_at(cur, x),
    ) by {
        compensate::alike_reflexive(compensate::task_at(cur, x));
        if x == id && cur.contains_key(id) {
            assert(engine::set_fields(cur[id].custom_fields, e.payload)
                =~= cur[id].custom_fields);
        }
    }
}

/// One reversal brings a state alike to `with` to one alike to `without`.
proof fn lemma_one_reversal(
    cur: StateV,
    with: StateV,
    without: StateV,
    id: Seq<char>,
    s: u64,
    at: Timestamp,
    done: Seq<char>,
)
    requires
        states_alike(cur, with),
        sound_state(with),
        sound_state(without),
        forall|other: Seq<char>|
            other != id ==> #[trigger] compensate::task_at(with, other) == compensate::task_at(
                without,
                other,
            ),
    ensures
        states_alike(
            engine::replay(cur, undo::reversal(with, without, id, s, at), done),
            without,
        ),
{
    let from = compensate::task_at(with, id);
    let to = compensate::task_at(without, id);
    let ids = seq![id];
    let changes = compensate::state_changes(with, without, ids, at);
    assert(ids.drop_last() =~= Seq::<Seq<char>>::empty());
    assert(compensate::state_changes(with, without, ids.drop_last(), at)
        =~= Seq::<EventV>::empty());
    assert(changes =~= compensate::task_changes(from, to, id, at));
    assert(compensate::alike(compensate::task_at(cur, id), from));
    assert(compensate::sound(id, from) && compensate::sound(id, to));
    compensate::changes_reach_their_goal(cur, from, to, id, at, done);
    let goal = engine::replay(cur, changes, done);
    assert forall|x: Seq<char>| compensate::alike(
        #[trigger] compensate::task_at(goal, x),
        compensate::task_at(without, x),
    ) by {
        if x != id {
            assert(compensate::task_at(goal, x) == compensate::task_at(cur, x));
            assert(compensate::task_at(with, x) == compensate::task_at(without, x));
            assert(compensate::alike(compensate::task_at(cur, x), compensate::task_at(with, x)));
        }
    }
    let inert = seq![model::draft(OpType::Update, id, Map::empty(), at)];
    let plain = if changes.len() == 0 {
        inert
    } else {
        changes
    };
    let events = undo::reversal(with, without, id, s, at);
    assert(events == undo::marked(plain, s));
    assert forall|i: int| 0 <= i < events.len() implies same_effect(#[trigger] events[i], plain[i]) by {}
    lemma_same_effect(cur, events, plain, done);
    if changes.len() == 0 {
        lemma_inert(cur, id, at, done);
        assert(goal == cur);
        let now = engine::replay(cur, inert, done);
        assert forall|x: Seq<char>| compensate::alike(
            #[trigger] compensate::task_at(now, x),
            compensate::task_at(without, x),
        ) by {
            assert(compensate::alike(compensate::task_at(goal, x), compensate::task_at(without, x)));
            compensate::alike_transitive(
                compensate::task_at(now, x),
                compensate::task_at(cur, x),
                compensate::task_at(without, x),
            );
        }
    }
}

/// The reversals of `buried` bring a state alike to the surviving events' state
/// to one alike to what survives without them.
proof fn lemma_reversals(
    base: StateV,
    own: Seq<EventV>,
    all: Seq<EventV>,
    buried: Seq<usize>,
    removed: Set<u64>,
    cur: StateV,
    done: Seq<char>,
    at: Timestamp,
)
    requires
        sound_state(base),
        states_alike(cur, engine::replay(base, undo::originals_without(own, removed), done)),
        forall|k: int, i: int|
            0 <= k < buried.len() && 0 <= i < own.len() && (#[trigger] own[i]).seq
                == all[#[trigger] buried[k] as int].seq ==> own[i].task_id
                == all[buried[k] as int].task_id,
    ensures
        states_alike(
            engine::replay(
                cur,
                undo::reversals(base, own, all, buried, removed, done, at),
                done,
            ),
            engine::replay(
                base,
                undo::originals_without(own, removed.union(undo::selected_seqs(all, buried))),
                done,
            ),
        ),
    decreases buried.len(),
{
    if buried.len() == 0 {
        assert(removed.union(undo::selected_seqs(all, buried)) =~= removed);
    } else {
        let e = all[buried[0] as int];
        let more = removed.insert(e.seq);
        let with = engine::replay(base, undo::originals_without(own, removed), done);
        let without = engine::replay(base, undo::originals_without(own, more), done);
        replay_keeps_sound(base, undo::originals_without(own, removed), done);
        replay_keeps_sound(base, undo::originals_without(own, more), done);
        assert forall|other: Seq<char>| other != e.task_id implies #[trigger] compensate::task_at(
            with,
            other,
        ) == compensate::task_at(without, other) by {
            assert forall|i: int| 0 <= i < own.len() && (#[trigger] own[i]).seq == e.seq implies own[i].task_id
                == e.task_id by {
                assert(all[buried[0] as int] == e);
            }
            lemma_removal_is_local(base, own, removed, e.seq, e.task_id, other, done);
        }
        lemma_one_reversal(cur, with, without, e.task_id, e.seq, at, done);
        let first = undo::reversal(with, without, e.task_id, e.seq, at);
        let mid = engine::replay(cur, first, done);
        let rest = buried.drop_first();
        assert forall|k: int, i: int|
            0 <= k < rest.len() && 0 <= i < own.len() && (#[trigger] own[i]).seq
                == all[#[trigger] rest[k] as int].seq implies own[i].task_id
            == all[rest[k] as int].task_id by {
            assert(rest[k] == buried[k + 1]);
        }
        lemma_reversals(base, own, all, rest, more, mid, done, at);
        let later = undo::reversals(base, own, all, rest, more, done, at);
        engine::replay_concat(cur, first, later, done);
        assert(more.union(undo::selected_seqs(all, rest)) =~= removed.union(undo::selected_seqs(all, buried))) by {
            assert forall|s: u64| more.union(undo::selected_seqs(all, rest)).contains(s) <==> removed.union(
                undo::selected_seqs(all, buried),
            ).contains(s) by {
                if undo::selected_seqs(all, rest).contains(s) {
                    let k = choose|k: int|
                        0 <= k < rest.len() && all[#[trigger] rest[k] as int].seq == s;
                    assert(buried[k + 1] == rest[k]);
                }
                if undo::selected_seqs(all, buried).contains(s) {
                    let k = choose|k: int|
                        0 <= k < buried.len() && all[#[trigger] buried[k] as int].seq == s;
                    if k > 0 {
                        assert(rest[k - 1] == buried[k]);
                    }
                }
                if s == e.seq {
                    assert(all[buried[0] as int].seq == s);
                }
            }
        }
    }
}

/// Whether the log's undo events have done their work on the given tasks: their
/// state is that of the events that are neither undo events nor undone.
pub open spec fn faithful(base: StateV, own: Seq<EventV>, done: Seq<char>) -> bool {
    states_alike(
        engine::replay(base, own, done),
        engine::replay(base, undo::originals_without(own, undo::undone_seqs(own)), done),
    )
}

/// A log without undo events is faithful.
pub proof fn plain_log_is_faithful(base: StateV, own: Seq<EventV>, done: Seq<char>)
    requires
        forall|i: int| 0 <= i < own.len() ==> (#[trigger] own[i]).undoes is None,
    ensures
        faithful(base, own, done),
{
    lemma_all_original(own, undo::undone_seqs(own));
    assert forall|id: Seq<char>| compensate::alike(
        #[trigger] compensate::task_at(engine::replay(base, own, done), id),
        compensate::task_at(engine::replay(base, own, done), id),
    ) by {
        compensate::alike_reflexive(compensate::task_at(engine::replay(base, own, done), id));
    }
}

proof fn lemma_all_original(own: Seq<EventV>, removed: Set<u64>)
    requires
        forall|i: int|
            0 <= i < own.len() ==> (#[trigger] own[i]).undoes is None && !removed.contains(own[i].seq),
    ensures
        undo::originals_without(own, removed) == own,
    decreases own.len(),
{
    if own.len() > 0 {
        let fewer = own.drop_last();
        assert forall|i: int| 0 <= i < fewer.len() implies (#[trigger] fewer[i]).undoes is None
            && !removed.contains(fewer[i].seq) by {
            assert(fewer[i] == own[i]);
        }
        lemma_all_original(fewer, removed);
        assert(own.last() == own[own.len() - 1]);
        assert(fewer.push(own.last()) =~= own);
    } else {
        assert(undo::originals_without(own, removed) =~= own);
    }
}

/// Whether no two events have the same number.
pub open spec fn distinct_seqs(events: Seq<EventV>) -> bool {
    forall|i: int, j: int|
        0 <= i < events.len() && 0 <= j < events.len() && (#[trigger] events[i]).seq == (
        #[trigger] events[j]).seq ==> i == j
}

/// Whether the places are places of undoable events.
pub open spec fn all_undoable(events: Seq<EventV>, selected: Seq<usize>) -> bool {
    forall|k: int|
        0 <= k < selected.len() ==> #[trigger] selected[k] < events.len() && undo::undoable(
            events,
            selected[k] as int,
        )
}

proof fn lemma_run(events: Seq<EventV>, seqs: Set<u64>, n: nat)
    requires
        n <= events.len(),
    ensures
        undo::run_start(events, seqs, n) <= n,
        forall|j: int|
            undo::run_start(events, seqs, n) <= j < n ==> seqs.contains((#[trigger] events[j]).seq),
    decreases n,
{
    if n > 0 && seqs.contains(events[n - 1].seq) {
        lemma_run(events, seqs, (n - 1) as nat);
    }
}

pub(crate) proof fn lemma_below(places: Seq<usize>, n: nat, x: usize)
    ensures
        undo::below(places, n).contains(x) <==> places.contains(x) && x < n,
    decreases places.len(),
{
    if places.len() > 0 {
        let rest = undo::below(places.drop_last(), n);
        lemma_below(places.drop_last(), n, x);
        strmap::lemma_contains_last(places, x);
        if places.last() < n {
            let out = undo::below(places, n);
            strmap::lemma_contains_last(out, x);
            assert(out.drop_last() =~= rest);
        }
    }
}

pub(crate) proof fn lemma_undone_concat(a: Seq<EventV>, b: Seq<EventV>)
    ensures
        undo::undone_seqs(a + b) == undo::undone_seqs(a).union(undo::undone_seqs(b)),
{
    let all = a + b;
    assert forall|s: u64| undo::undone_seqs(all).contains(s) <==> undo::undone_seqs(a).union(
        undo::undone_seqs(b),
    ).contains(s) by {
        if undo::undone_seqs(all).contains(s) {
            let j = choose|j: int| 0 <= j < all.len() && #[trigger] all[j].undoes == Some(s);
            if j < a.len() {
                assert(a[j].undoes == Some(s));
            } else {
                assert(b[j - a.len()].undoes == Some(s));
            }
        }
        if undo::undone_seqs(a).contains(s) {
            let j = choose|j: int| 0 <= j < a.len() && #[trigger] a[j].undoes == Some(s);
            assert(all[j].undoes == Some(s));
        }
        if undo::undone_seqs(b).contains(s) {
            let j = choose|j: int| 0 <= j < b.len() && #[trigger] b[j].undoes == Some(s);
            assert(all[a.len() + j].undoes == Some(s));
        }
    }
    assert(undo::undone_seqs(all) =~= undo::undone_seqs(a).union(undo::undone_seqs(b)));
}

pub(crate) proof fn lemma_one_mark(
    with: StateV,
    without: StateV,
    id: Seq<char>,
    s: u64,
    at: Timestamp,
)
    ensures
        ({
            let out = undo::reversal(with, without, id, s, at);
            &&& out.len() > 0
            &&& forall|i: int| 0 <= i < out.len() ==> (#[trigger] out[i]).undoes == Some(s)
            &&& forall|i: int| 0 <= i < out.len() ==> (#[trigger] out[i]).task_id == id
        }),
{
    let out = undo::reversal(with, without, id, s, at);
    let ids = seq![id];
    let changes = compensate::state_changes(with, without, ids, at);
    assert(ids.drop_last() =~= Seq::<Seq<char>>::empty());
    assert(compensate::state_changes(with, without, ids.drop_last(), at)
        =~= Seq::<EventV>::empty());
    assert(changes =~= compensate::task_changes(
        compensate::task_at(with, id),
        compensate::task_at(without, id),
        id,
        at,
    ));
    assert forall|i: int| 0 <= i < out.len() implies (#[trigger] out[i]).task_id == id by {
        if changes.len() > 0 {
            assert(changes[i].task_id == id);
        }
    }
}

/// Every reversal event belongs to a buried event's task, and the reversals
/// name the numbers of exactly the buried events.
proof fn lemma_reversal_marks(
    base: StateV,
    own: Seq<EventV>,
    all: Seq<EventV>,
    buried: Seq<usize>,
    removed: Set<u64>,
    done: Seq<char>,
    at: Timestamp,
)
    ensures
        ({
            let out = undo::reversals(base, own, all, buried, removed, done, at);
            &&& undo::undone_seqs(out) == undo::selected_seqs(all, buried)
            &&& forall|i: int| 0 <= i < out.len() ==> (#[trigger] out[i]).undoes is Some
            &&& forall|i: int|
                0 <= i < out.len() ==> undo::selected_tasks(all, buried).contains(
                    (#[trigger] out[i]).task_id,
                )
        }),
    decreases buried.len(),
{
    let out = undo::reversals(base, own, all, buried, removed, done, at);
    if buried.len() == 0 {
        assert(undo::undone_seqs(out) =~= undo::selected_seqs(all, buried));
    } else {
        let e = all[buried[0] as int];
        let more = removed.insert(e.seq);
        let with = engine::replay(base, undo::originals_without(own, removed), done);
        let without = engine::replay(base, undo::originals_without(own, more), done);
        let first = undo::reversal(with, without, e.task_id, e.seq, at);
        let rest = buried.drop_first();
        let later = undo::reversals(base, own, all, rest, more, done, at);
        lemma_reversal_marks(base, own, all, rest, more, done, at);
        lemma_one_mark(with, without, e.task_id, e.seq, at);
        assert(out == first + later);
        lemma_undone_concat(first, later);
        assert(undo::undone_seqs(first) =~= set![e.seq]) by {
            assert(first[0].undoes == Some(e.seq));
        }
        lemma_selected_first(all, buried);
        assert(undo::undone_seqs(out) =~= undo::selected_seqs(all, buried));
        assert forall|i: int| 0 <= i < out.len() implies (#[trigger] out[i]).undoes is Some
            && undo::selected_tasks(all, buried).contains(out[i].task_id) by {
            if i < first.len() {
                assert(out[i] == first[i]);
            } else {
                assert(out[i] == later[i - first.len()]);
            }
        }
    }
}

proof fn lemma_selected_first(all: Seq<EventV>, places: Seq<usize>)
    requires
        places.len() > 0,
    ensures
        undo::selected_seqs(all, places) == undo::selected_seqs(all, places.drop_first()).insert(
            all[places[0] as int].seq,
        ),
        undo::selected_tasks(all, places) == undo::selected_tasks(all, places.drop_first()).insert(
            all[places[0] as int].task_id,
        ),
{
    let rest = places.drop_first();
    assert forall|s: u64| undo::selected_seqs(all, places).contains(s) <==> undo::selected_seqs(
        all,
        rest,
    ).insert(all[places[0] as int].seq).contains(s) by {
        if undo::selected_seqs(all, places).contains(s) {
            let k = choose|k: int| 0 <= k < places.len() && all[#[trigger] places[k] as int].seq == s;
            if k > 0 {
                assert(rest[k - 1] == places[k]);
            }
        }
        if undo::selected_seqs(all, rest).contains(s) {
            let k = choose|k: int| 0 <= k < rest.len() && all[#[trigger] rest[k] as int].seq == s;
            assert(places[k + 1] == rest[k]);
        }
    }
    assert forall|s: Seq<char>| undo::selected_tasks(all, places).contains(s)
        <==> undo::selected_tasks(all, rest).insert(all[places[0] as int].task_id).contains(s) by {
        if undo::selected_tasks(all, places).contains(s) {
            let k = choose|k: int|
                0 <= k < places.len() && all[#[trigger] places[k] as int].task_id == s;
            if k > 0 {
                assert(rest[k - 1] == places[k]);
            }
        }
        if undo::selected_tasks(all, rest).contains(s) {
            let k = choose|k: int| 0 <= k < rest.len() && all[#[trigger] rest[k] as int].task_id == s;
            assert(places[k + 1] == rest[k]);
        }
    }
    assert(undo::selected_seqs(all, places) =~= undo::selected_seqs(all, rest).insert(
        all[places[0] as int].seq,
    ));
    assert(undo::selected_tasks(all, places) =~= undo::selected_tasks(all, rest).insert(
        all[places[0] as int].task_id,
    ));
}

pub(crate) proof fn lemma_is_selected(events: Seq<EventV>, selected: Seq<usize>, i: usize)
    requires
        selected.contains(i),
    ensures
        undo::selected_seqs(events, selected).contains(events[i as int].seq),
        undo::selected_tasks(events, selected).contains(events[i as int].task_id),
{
    let k = choose|k: int| 0 <= k < selected.len() && selected[k] == i;
    assert(events[selected[k] as int].seq == events[i as int].seq);
}

proof fn lemma_selected_place(events: Seq<EventV>, selected: Seq<usize>, j: int)
    requires
        distinct_seqs(events),
        0 <= j < events.len(),
        forall|k: int| 0 <= k < selected.len() ==> #[trigger] selected[k] < events.len(),
    ensures
        undo::selected_seqs(events, selected).contains(events[j].seq) <==> selected.contains(
            j as usize,
        ) && j <= usize::MAX,
{
    if undo::selected_seqs(events, selected).contains(events[j].seq) {
        let k = choose|k: int|
            0 <= k < selected.len() && events[#[trigger] selected[k] as int].seq == events[j].seq;
        assert(selected[k] == j);
        assert(selected[k] == j as usize);
    } else if selected.contains(j as usize) && j <= usize::MAX {
        lemma_is_selected(events, selected, j as usize);
    }
}

/// Whether every event from `kept` on is selected.
pub(crate) open spec fn tail_selected(events: Seq<EventV>, selected: Seq<usize>, kept: int) -> bool {
    forall|j: int| kept <= j < events.len() ==> #[trigger] selected.contains(j as usize)
}

pub(crate) proof fn lemma_tail_selected(
    events: Seq<EventV>,
    selected: Seq<usize>,
    remove: bool,
    committed: nat,
)
    requires
        distinct_seqs(events),
        remove || committed <= events.len(),
        events.len() <= usize::MAX,
        all_undoable(events, selected),
    ensures
        undo::kept_count(events, selected, remove, committed) <= events.len(),
        tail_selected(
            events,
            selected,
            undo::kept_count(events, selected, remove, committed) as int,
        ),
{
    let seqs = undo::selected_seqs(events, selected);
    let kept = undo::kept_count(events, selected, remove, committed);
    lemma_run(events, seqs, events.len());
    assert forall|j: int| kept <= j < events.len() implies #[trigger] selected.contains(j as usize) by {
        assert(seqs.contains(events[j].seq));
        lemma_selected_place(events, selected, j);
    }
}

pub(crate) proof fn lemma_tail(events: Seq<EventV>, selected: Seq<usize>, kept: int, i: int)
    requires
        events.len() <= usize::MAX,
        all_undoable(events, selected),
        0 <= kept <= events.len(),
        tail_selected(events, selected, kept),
        0 <= i < events.len() - kept,
    ensures
        events.skip(kept)[i] == events[kept + i],
        events[kept + i].undoes is None,
        undo::selected_tasks(events, selected).contains(events[kept + i].task_id),
        undo::seqs_from(events, kept).contains(events[kept + i].seq),
        undo::selected_seqs(events, selected).contains(events[kept + i].seq),
{
    let j = (kept + i) as usize;
    assert(selected.contains(j));
    lemma_is_selected(events, selected, j);
    let k = choose|k: int| 0 <= k < selected.len() && selected[k] == j;
    assert(undo::undoable(events, selected[k] as int));
}

/// The events of the selected tasks are the kept ones of them and the tail, and
/// no undo event stands in the tail.
proof fn lemma_split(events: Seq<EventV>, selected: Seq<usize>, kept: int)
    requires
        events.len() <= usize::MAX,
        all_undoable(events, selected),
        0 <= kept <= events.len(),
        tail_selected(events, selected, kept),
    ensures
        ({
            let ids = undo::selected_tasks(events, selected);
            let own = undo::events_in(events, ids);
            let own_kept = undo::events_in(events.take(kept), ids);
            &&& own == own_kept + events.skip(kept)
            &&& undo::undone_seqs(own) == undo::undone_seqs(own_kept)
        }),
{
    let ids = undo::selected_tasks(events, selected);
    let own_kept = undo::events_in(events.take(kept), ids);
    let tail = events.skip(kept);
    assert forall|i: int| 0 <= i < tail.len() implies ids.contains((#[trigger] tail[i]).task_id)
        && tail[i].undoes is None by {
        lemma_tail(events, selected, kept, i);
    }
    assert(events =~= events.take(kept) + tail);
    lemma_events_in_concat(events.take(kept), tail, ids);
    lemma_events_in_all(tail, ids);
    lemma_undone_concat(own_kept, tail);
    assert(undo::undone_seqs(tail) =~= Set::<u64>::empty());
    assert(undo::undone_seqs(own_kept).union(undo::undone_seqs(tail)) =~= undo::undone_seqs(
        own_kept,
    ));
}

/// Removing the tail leaves the kept originals: with the numbers in `extra`
/// removed too.
proof fn lemma_survivors(events: Seq<EventV>, selected: Seq<usize>, kept: int, extra: Set<u64>)
    requires
        events.len() <= usize::MAX,
        distinct_seqs(events),
        all_undoable(events, selected),
        0 <= kept <= events.len(),
        tail_selected(events, selected, kept),
    ensures
        ({
            let ids = undo::selected_tasks(events, selected);
            let own = undo::events_in(events, ids);
            let own_kept = undo::events_in(events.take(kept), ids);
            undo::originals_without(own, extra.union(undo::seqs_from(events, kept)))
                == undo::originals_without(own_kept, extra)
        }),
{
    let ids = undo::selected_tasks(events, selected);
    let own = undo::events_in(events, ids);
    let prefix = events.take(kept);
    let own_kept = undo::events_in(prefix, ids);
    let tail = events.skip(kept);
    let removed = extra.union(undo::seqs_from(events, kept));
    lemma_split(events, selected, kept);
    lemma_originals_concat(own_kept, tail, removed);
    assert forall|i: int| 0 <= i < tail.len() implies (#[trigger] tail[i]).undoes is Some
        || removed.contains(tail[i].seq) by {
        lemma_tail(events, selected, kept, i);
    }
    lemma_originals_none(tail, removed);
    assert forall|i: int| 0 <= i < own_kept.len() && (#[trigger] own_kept[i]).undoes is None implies removed.contains(
        own_kept[i].seq,
    ) == extra.contains(own_kept[i].seq) by {
        let j = lemma_events_in_source(prefix, ids, i);
        assert(prefix[j] == events[j]);
        if undo::seqs_from(events, kept).contains(events[j].seq) {
            let m = choose|m: int| kept <= m < events.len() && (#[trigger] events[m]).seq == events[j].seq;
            assert(m == j);
        }
    }
    lemma_originals_agree(own_kept, removed, extra);
    assert(undo::originals_without(own_kept, extra) + Seq::<EventV>::empty()
        =~= undo::originals_without(own_kept, extra));
}

/// Removing the tail and the buried events removes the selected events.
proof fn lemma_goal(events: Seq<EventV>, selected: Seq<usize>, kept: int, gone: Set<u64>)
    requires
        events.len() <= usize::MAX,
        distinct_seqs(events),
        all_undoable(events, selected),
        0 <= kept <= events.len(),
        tail_selected(events, selected, kept),
    ensures
        ({
            let own = undo::events_in(events, undo::selected_tasks(events, selected));
            let marks = undo::selected_seqs(events, undo::below(selected, kept as nat));
            undo::originals_without(
                own,
                gone.union(undo::seqs_from(events, kept)).union(marks),
            ) == undo::originals_without(
                own,
                gone.union(undo::selected_seqs(events, selected)),
            )
        }),
{
    let ids = undo::selected_tasks(events, selected);
    let own = undo::events_in(events, ids);
    let seqs = undo::selected_seqs(events, selected);
    let buried = undo::below(selected, kept as nat);
    let marks = undo::selected_seqs(events, buried);
    let after = gone.union(undo::seqs_from(events, kept)).union(marks);
    let goal = gone.union(seqs);
    assert forall|k: int| 0 <= k < buried.len() implies #[trigger] buried[k] < events.len() by {
        assert(buried.contains(buried[k]));
        lemma_below(selected, kept as nat, buried[k]);
    }
    assert forall|i: int| 0 <= i < own.len() && (#[trigger] own[i]).undoes is None implies after.contains(
        own[i].seq,
    ) == goal.contains(own[i].seq) by {
        let j = lemma_events_in_source(events, ids, i);
        if j >= kept {
            lemma_tail(events, selected, kept, j - kept);
        } else {
            lemma_selected_place(events, selected, j);
            lemma_selected_place(events, buried, j);
            lemma_below(selected, kept as nat, j as usize);
            if undo::seqs_from(events, kept).contains(events[j].seq) {
                let m = choose|m: int|
                    kept <= m < events.len() && (#[trigger] events[m]).seq == events[j].seq;
                assert(m == j);
            }
        }
    }
    lemma_originals_agree(own, after, goal);
}

/// What a planned undo leaves behind.
///
/// On the tasks whose events it takes back, the resulting log gives the state of
/// the surviving events as if the selected ones had never happened: the same
/// fields with the same values and the same edges. Its undo events are faithful
/// again, so that this holds of the next undo too. Every other task stays
/// exactly as it was.
pub proof fn undo_takes_back_its_events(
    baseline: Seq<TaskV>,
    events: Seq<EventV>,
    selected: Seq<usize>,
    remove: bool,
    committed: nat,
    done: Seq<char>,
    at: Timestamp,
)
    requires
        sound_tasks(baseline),
        distinct_seqs(events),
        remove || committed <= events.len(),
        events.len() <= usize::MAX,
        all_undoable(events, selected),
        faithful(
            engine::baseline_state(
                undo::tasks_in(baseline, undo::selected_tasks(events, selected)),
            ),
            undo::events_in(
                events.take(undo::kept_count(events, selected, remove, committed) as int),
                undo::selected_tasks(events, selected),
            ),
            done,
        ),
    ensures
        ({
            let ids = undo::selected_tasks(events, selected);
            let base = engine::baseline_state(baseline);
            let log = undo::plan_for(baseline, events, selected, remove, committed, done, at).log;
            &&& forall|id: Seq<char>|
                ids.contains(id) ==> compensate::alike(
                    #[trigger] compensate::task_at(engine::replay(base, log, done), id),
                    compensate::task_at(
                        undo::target_state(baseline, events, selected, done),
                        id,
                    ),
                )
            &&& forall|id: Seq<char>|
                !ids.contains(id) ==> #[trigger] compensate::task_at(
                    engine::replay(base, log, done),
                    id,
                ) == compensate::task_at(engine::replay(base, events, done), id)
            &&& faithful(
                engine::baseline_state(undo::tasks_in(baseline, ids)),
                undo::events_in(log, ids),
                done,
            )
        }),
{
    let ids = undo::selected_tasks(events, selected);
    let kept = undo::kept_count(events, selected, remove, committed);
    let prefix = events.take(kept as int);
    let tail = events.skip(kept as int);
    let base = engine::baseline_state(undo::tasks_in(baseline, ids));
    let full = engine::baseline_state(baseline);
    let own = undo::events_in(events, ids);
    let own_kept = undo::events_in(prefix, ids);
    let buried = undo::below(selected, kept);
    let gone = undo::undone_seqs(own);
    let seed = gone.union(undo::seqs_from(events, kept as int));
    let marks = undo::selected_seqs(events, buried);
    let drafts = undo::undo_drafts(baseline, events, selected, kept, done, at);
    let appended = undo::numbered(drafts, undo::top_seq(prefix));
    let log = undo::plan_for(baseline, events, selected, remove, committed, done, at).log;
    let target = undo::target_state(baseline, events, selected, done);
    lemma_scoped_sound(baseline, ids);
    lemma_base_sound(undo::tasks_in(baseline, ids));
    lemma_tail_selected(events, selected, remove, committed);
    lemma_split(events, selected, kept as int);
    lemma_survivors(events, selected, kept as int, gone);
    let cur = engine::replay(base, own_kept, done);
    lemma_buried_tasks(events, selected, kept);
    lemma_reversals(base, own, events, buried, seed, cur, done, at);
    lemma_reversal_marks(base, own, events, buried, seed, done, at);
    lemma_goal(events, selected, kept as int, gone);
    assert forall|i: int| 0 <= i < appended.len() implies ids.contains(
        (#[trigger] appended[i]).task_id,
    ) && appended[i].undoes is Some && same_effect(appended[i], drafts[i]) by {
        assert(appended[i].task_id == drafts[i].task_id);
    }
    lemma_events_in_concat(prefix, appended, ids);
    lemma_events_in_all(appended, ids);
    let own_log = undo::events_in(log, ids);
    assert(own_log == own_kept + appended);
    engine::replay_concat(base, own_kept, appended, done);
    lemma_same_effect(cur, appended, drafts, done);
    let now = engine::replay(base, own_log, done);
    assert(states_alike(now, target));
    assert forall|id: Seq<char>| ids.contains(id) implies compensate::alike(
        #[trigger] compensate::task_at(engine::replay(full, log, done), id),
        compensate::task_at(target, id),
    ) by {
        scoping_keeps_state(baseline, log, ids, done, id);
        assert(compensate::alike(compensate::task_at(now, id), compensate::task_at(target, id)));
    }
    assert forall|id: Seq<char>| !ids.contains(id) implies #[trigger] compensate::task_at(
        engine::replay(full, log, done),
        id,
    ) == compensate::task_at(engine::replay(full, events, done), id) by {
        let start = engine::replay(full, prefix, done);
        assert forall|i: int| 0 <= i < tail.len() implies (#[trigger] tail[i]).task_id != id by {
            lemma_tail(events, selected, kept as int, i);
        }
        assert(events =~= prefix + tail);
        engine::replay_concat(full, prefix, appended, done);
        engine::replay_concat(full, prefix, tail, done);
        compensate::events_touch_their_own_task(start, appended, done, id);
        compensate::events_touch_their_own_task(start, tail, done, id);
    }
    let marked = undo::undone_seqs(own_log);
    lemma_undone_concat(own_kept, appended);
    lemma_numbered_marks(drafts, undo::top_seq(prefix));
    assert(marked == gone.union(marks));
    lemma_originals_concat(own_kept, appended, marked);
    lemma_originals_none(appended, marked);
    assert(undo::originals_without(own_kept, marked) + Seq::<EventV>::empty()
        =~= undo::originals_without(own_kept, marked));
    lemma_survivors(events, selected, kept as int, marked);
    assert(seed.union(marks) =~= marked.union(undo::seqs_from(events, kept as int)));
}

proof fn lemma_numbered_marks(drafts: Seq<EventV>, top: u64)
    ensures
        undo::undone_seqs(undo::numbered(drafts, top)) == undo::undone_seqs(drafts),
{
    let out = undo::numbered(drafts, top);
    assert forall|s: u64| undo::undone_seqs(out).contains(s) <==> undo::undone_seqs(
        drafts,
    ).contains(s) by {
        if undo::undone_seqs(out).contains(s) {
            let j = choose|j: int| 0 <= j < out.len() && #[trigger] out[j].undoes == Some(s);
            assert(drafts[j].undoes == Some(s));
        }
        if undo::undone_seqs(drafts).contains(s) {
            let j = choose|j: int| 0 <= j < drafts.len() && #[trigger] drafts[j].undoes == Some(s);
            assert(out[j].undoes == Some(s));
        }
    }
    assert(undo::undone_seqs(out) =~= undo::undone_seqs(drafts));
}

/// The buried events are among the selected ones, and their numbers name no
/// other task's events.
proof fn lemma_buried_tasks(events: Seq<EventV>, selected: Seq<usize>, kept: nat)
    requires
        distinct_seqs(events),
        all_undoable(events, selected),
    ensures
        ({
            let ids = undo::selected_tasks(events, selected);
            let own = undo::events_in(events, ids);
            let buried = undo::below(selected, kept);
            &&& forall|k: int, i: int|
                0 <= k < buried.len() && 0 <= i < own.len() && (#[trigger] own[i]).seq
                    == events[#[trigger] buried[k] as int].seq ==> own[i].task_id
                    == events[buried[k] as int].task_id
            &&& forall|id: Seq<char>| #[trigger]
                undo::selected_tasks(events, buried).contains(id) ==> ids.contains(id)
        }),
{
    let ids = undo::selected_tasks(events, selected);
    let own = undo::events_in(events, ids);
    let buried = undo::below(selected, kept);
    assert forall|k: int, i: int|
        0 <= k < buried.len() && 0 <= i < own.len() && (#[trigger] own[i]).seq
            == events[#[trigger] buried[k] as int].seq implies own[i].task_id
        == events[buried[k] as int].task_id by {
        let j = lemma_events_in_source(events, ids, i);
        assert(buried.contains(buried[k]));
        lemma_below(selected, kept, buried[k]);
        let m = choose|m: int| 0 <= m < selected.len() && selected[m] == buried[k];
        assert(selected[m] < events.len());
        assert(j == buried[k]);
    }
    assert forall|id: Seq<char>| #[trigger]
        undo::selected_tasks(events, buried).contains(id) implies ids.contains(id) by {
        let k = choose|k: int|
            0 <= k < buried.len() && events[#[trigger] buried[k] as int].task_id == id;
        assert(buried.contains(buried[k]));
        lemma_below(selected, kept, buried[k]);
        lemma_is_selected(events, selected, buried[k]);
    }
}

/// Every selection consists of undoable events.
pub proof fn selections_are_undoable(events: Seq<EventV>, end: nat, count: nat)
    requires
        end <= events.len() <= usize::MAX,
    ensures
        all_undoable(events, undo::newest_undoable(events, end, count)),
        undo::newest_undoable(events, end, count).len() <= count,
    decreases end,
{
    if end > 0 && count > 0 {
        let all = undo::newest_undoable(events, end, count);
        let fewer = if undo::undoable(events, end - 1) {
            (count - 1) as nat
        } else {
            count
        };
        let rest = undo::newest_undoable(events, (end - 1) as nat, fewer);
        selections_are_undoable(events, (end - 1) as nat, fewer);
        assert forall|k: int| 0 <= k < all.len() implies #[trigger] all[k] < events.len()
            && undo::undoable(events, all[k] as int) by {
            if undo::undoable(events, end - 1) {
                if k > 0 {
                    assert(all[k] == rest[k - 1]);
                }
            } else {
                assert(all[k] == rest[k]);
            }
        }
    }
}

proof fn lemma_run_ends(events: Seq<EventV>, seqs: Set<u64>, n: nat)
    requires
        n <= events.len(),
    ensures
        undo::run_start(events, seqs, n) > 0 ==> !seqs.contains(
            events[undo::run_start(events, seqs, n) - 1].seq,
        ),
    decreases n,
{
    if n > 0 && seqs.contains(events[n - 1].seq) {
        lemma_run_ends(events, seqs, (n - 1) as nat);
    }
}

/// Whether an event is one of those that are to be undone.
pub open spec fn chosen(events: Seq<EventV>, selected: Seq<usize>, j: int) -> bool {
    exists|k: int|
        0 <= k < selected.len() && events[#[trigger] selected[k] as int].seq == events[j].seq
}

proof fn lemma_kept_is(
    events: Seq<EventV>,
    selected: Seq<usize>,
    remove: bool,
    committed: nat,
    kept: int,
)
    requires
        remove || committed <= events.len(),
        0 <= kept <= events.len(),
        !remove ==> committed <= kept,
        forall|j: int| kept <= j < events.len() ==> #[trigger] chosen(events, selected, j),
        kept == 0 || (!remove && kept == committed) || !chosen(events, selected, kept - 1),
    ensures
        undo::kept_count(events, selected, remove, committed) == kept,
{
    let seqs = undo::selected_seqs(events, selected);
    assert forall|j: int| #[trigger] chosen(events, selected, j) <==> seqs.contains(
        events[j].seq,
    ) by {}
    let start = undo::run_start(events, seqs, events.len()) as int;
    lemma_run(events, seqs, events.len());
    lemma_run_ends(events, seqs, events.len());
    if start < kept {
        assert(chosen(events, selected, kept - 1)) by {
            assert(seqs.contains(events[kept - 1].seq));
        }
    }
    if kept < start {
        assert(chosen(events, selected, start - 1));
    }
}

/// Whether the number `s` is that of a selected event among the first `kept`.
pub open spec fn stays_selected(
    events: Seq<EventV>,
    selected: Seq<usize>,
    kept: int,
    s: u64,
) -> bool {
    exists|k: int|
        0 <= k < selected.len() && #[trigger] selected[k] < kept && events[selected[k] as int].seq
            == s
}

/// Whether an event of a log from a place on takes back the event numbered `s`.
pub open spec fn taken_back(log: Seq<EventV>, from: int, s: u64) -> bool {
    exists|i: int| from <= i < log.len() && (#[trigger] log[i]).undoes == Some(s)
}

proof fn lemma_drafts_name(
    base: StateV,
    own: Seq<EventV>,
    events: Seq<EventV>,
    selected: Seq<usize>,
    n: nat,
    removed: Set<u64>,
    done: Seq<char>,
    at: Timestamp,
)
    ensures
        ({
            let drafts = undo::reversals(
                base,
                own,
                events,
                undo::below(selected, n),
                removed,
                done,
                at,
            );
            &&& forall|m: int|
                0 <= m < drafts.len() ==> (#[trigger] drafts[m]).undoes is Some && stays_selected(
                    events,
                    selected,
                    n as int,
                    drafts[m].undoes->0,
                )
            &&& forall|s: u64| #[trigger]
                stays_selected(events, selected, n as int, s) ==> taken_back(drafts, 0, s)
        }),
{
    let buried = undo::below(selected, n);
    let drafts = undo::reversals(base, own, events, buried, removed, done, at);
    lemma_reversal_marks(base, own, events, buried, removed, done, at);
    assert forall|m: int| 0 <= m < drafts.len() implies (#[trigger] drafts[m]).undoes is Some
        && stays_selected(events, selected, n as int, drafts[m].undoes->0) by {
        let s = drafts[m].undoes->0;
        assert(undo::undone_seqs(drafts).contains(s));
        let b = choose|b: int|
            0 <= b < buried.len() && events[#[trigger] buried[b] as int].seq == s;
        lemma_below(selected, n, buried[b]);
        assert(buried.contains(buried[b]));
        let k = choose|k: int| 0 <= k < selected.len() && selected[k] == buried[b];
        assert(selected[k] < n);
    }
    assert forall|s: u64| #[trigger] stays_selected(events, selected, n as int, s) implies taken_back(
        drafts,
        0,
        s,
    ) by {
        let k = choose|k: int|
            0 <= k < selected.len() && #[trigger] selected[k] < n && events[selected[k] as int].seq
                == s;
        lemma_below(selected, n, selected[k]);
        assert(selected.contains(selected[k]));
        let b = choose|b: int| 0 <= b < buried.len() && buried[b] == selected[k];
        assert(events[buried[b] as int].seq == s);
        assert(undo::selected_seqs(events, buried).contains(s));
    }
}

/// Whether a log goes on after the first `kept` events with events that take back
/// the selected ones among these, and no others, numbered on from the highest.
pub open spec fn compensates(
    log: Seq<EventV>,
    events: Seq<EventV>,
    selected: Seq<usize>,
    kept: int,
) -> bool {
    &&& log.len() >= kept
    &&& log.take(kept) == events.take(kept)
    &&& forall|i: int|
        kept <= i < log.len() ==> (#[trigger] log[i]).undoes is Some && stays_selected(
            events,
            selected,
            kept,
            log[i].undoes->0,
        )
    &&& forall|s: u64| #[trigger]
        stays_selected(events, selected, kept, s) ==> taken_back(log, kept, s)
    &&& forall|i: int|
        kept <= i < log.len() ==> (#[trigger] log[i]).seq - log[kept].seq == i - kept
    &&& forall|i: int, j: int|
        0 <= j < kept <= i < log.len() ==> (#[trigger] events[j]).seq < (#[trigger] log[i]).seq
}

proof fn lemma_compensates(
    events: Seq<EventV>,
    selected: Seq<usize>,
    kept: int,
    drafts: Seq<EventV>,
)
    requires
        0 <= kept <= events.len(),
        undo::top_seq(events.take(kept)) + drafts.len() <= u64::MAX,
        forall|m: int|
            0 <= m < drafts.len() ==> (#[trigger] drafts[m]).undoes is Some && stays_selected(
                events,
                selected,
                kept,
                drafts[m].undoes->0,
            ),
        forall|s: u64| #[trigger]
            stays_selected(events, selected, kept, s) ==> taken_back(drafts, 0, s),
    ensures
        compensates(
            events.take(kept) + undo::numbered(drafts, undo::top_seq(events.take(kept))),
            events,
            selected,
            kept,
        ),
{
    let prefix = events.take(kept);
    let top = undo::top_seq(prefix);
    let tail = undo::numbered(drafts, top);
    let log = prefix + tail;
    assert(log.take(kept) =~= prefix);
    undo::the_top_number_is_the_highest(prefix);
    assert forall|i: int| kept <= i < log.len() implies (#[trigger] log[i]).undoes is Some
        && stays_selected(events, selected, kept, log[i].undoes->0) by {
        assert(log[i] == tail[i - kept]);
        assert(log[i].undoes == drafts[i - kept].undoes);
    }
    assert forall|s: u64| #[trigger] stays_selected(events, selected, kept, s) implies taken_back(
        log,
        kept,
        s,
    ) by {
        assert(taken_back(drafts, 0, s));
        let m = choose|m: int| 0 <= m < drafts.len() && (#[trigger] drafts[m]).undoes == Some(s);
        assert(log[kept + m] == tail[m]);
        assert(log[kept + m].undoes == Some(s));
    }
    assert forall|i: int, j: int| 0 <= j < kept <= i < log.len() implies (#[trigger] events[j]).seq
        < (#[trigger] log[i]).seq by {
        assert(log[i] == tail[i - kept]);
        assert(prefix[j] == events[j]);
    }
}

/// How an undo changes the log. The events at the end of the log that are all to
/// be undone are dropped, as far as they are not committed, or also then where
/// history is to be rewritten; what comes before stays as it is. For each other
/// event that is to be undone, events follow that name it, and no events besides;
/// their numbers go on from the highest one that stays. The plan says how many
/// events it undoes and which, and whether it drops committed ones.
pub proof fn undos_drop_or_compensate(
    baseline: Seq<TaskV>,
    events: Seq<EventV>,
    selected: Seq<usize>,
    remove: bool,
    committed: nat,
    done: Seq<char>,
    at: Timestamp,
    kept: int,
)
    requires
        forall|k: int| 0 <= k < selected.len() ==> #[trigger] selected[k] < events.len(),
        remove || committed <= events.len(),
        0 <= kept <= events.len(),
        !remove ==> committed <= kept,
        forall|j: int| kept <= j < events.len() ==> #[trigger] chosen(events, selected, j),
        kept == 0 || (!remove && kept == committed) || !chosen(events, selected, kept - 1),
        undo::numbers_left(baseline, events, selected, remove, committed, done, at),
    ensures
        ({
            let p = undo::plan_for(baseline, events, selected, remove, committed, done, at);
            &&& compensates(p.log, events, selected, kept)
            &&& p.rewrites_committed_history <==> remove && kept < committed
            &&& p.count == selected.len()
            &&& p.undone.len() == selected.len()
            &&& forall|k: int|
                0 <= k < selected.len() ==> {
                    &&& (#[trigger] p.undone[k]).seq == events[selected[k] as int].seq
                    &&& p.undone[k].op == events[selected[k] as int].op
                    &&& p.undone[k].task_id == events[selected[k] as int].task_id
                }
        }),
{
    lemma_kept_is(events, selected, remove, committed, kept);
    let n = kept as nat;
    let ids = undo::selected_tasks(events, selected);
    let own = undo::events_in(events, ids);
    let base = engine::baseline_state(undo::tasks_in(baseline, ids));
    let removed = undo::undone_seqs(own).union(undo::seqs_from(events, n as int));
    let drafts = undo::reversals(base, own, events, undo::below(selected, n), removed, done, at);
    lemma_drafts_name(base, own, events, selected, n, removed, done, at);
    assert(drafts == undo::undo_drafts(baseline, events, selected, n, done, at));
    lemma_compensates(events, selected, kept, drafts);
}

} // verus!
