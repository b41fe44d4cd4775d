//! Logs that writes and undos leave behind, and what an undo does to them.

use crate::compensate;
use crate::engine;
use crate::history;
use crate::json::{self, JsonV, NumberV};
use crate::model::{self, EventV, FieldsV, OpType, RelsV, StateV, TaskV, Timestamp};
use crate::strmap;
use crate::undo;
use vstd::prelude::*;

verus! {

/// Whether a value holds no negative zero. Such values are equal only if they
/// are the same.
pub open spec fn exact(v: JsonV) -> bool
    decreases v,
{
    match v {
        JsonV::Num(NumberV::Float(bits)) => bits != 0x8000_0000_0000_0000,
        JsonV::List(items) => forall|i: int| 0 <= i < items.len() ==> exact(#[trigger] items[i]),
        JsonV::Obj(entries) => forall|i: int|
            0 <= i < entries.len() ==> exact((#[trigger] entries[i]).1),
        _ => true,
    }
}

/// Whether no field holds a negative zero.
pub open spec fn exact_fields(fields: FieldsV) -> bool {
    forall|k: Seq<char>| #[trigger] fields.contains_key(k) ==> exact(fields[k])
}

/// Whether no task holds a negative zero.
pub open spec fn exact_state(s: StateV) -> bool {
    forall|id: Seq<char>| #[trigger] s.contains_key(id) ==> exact_fields(s[id].custom_fields)
}

/// Whether no event holds a negative zero.
pub open spec fn exact_events(events: Seq<EventV>) -> bool {
    forall|i: int| 0 <= i < events.len() ==> exact_fields((#[trigger] events[i]).payload)
}

/// Whether no baseline task holds a negative zero.
pub open spec fn exact_tasks(tasks: Seq<TaskV>) -> bool {
    forall|i: int| 0 <= i < tasks.len() ==> exact_fields((#[trigger] tasks[i]).custom_fields)
}

/// Whether no event is an append.
pub open spec fn no_appends(events: Seq<EventV>) -> bool {
    forall|i: int| 0 <= i < events.len() ==> (#[trigger] events[i]).op != OpType::Append
}

/// Whether no append can show a negative zero: there is none, or no append.
pub open spec fn settled(baseline: Seq<TaskV>, events: Seq<EventV>) -> bool {
    no_appends(events) || exact_tasks(baseline) && exact_events(events)
}

/// Something that was done to a log: an event was written to it, or an undo was
/// applied.
pub enum WriteV {
    Event(EventV),
    Undo { seq: Option<u64>, count: nat, remove: bool, committed: nat, at: Timestamp },
}

/// The log after a write. An event gets the next number, and nothing is written
/// where there is none left; an undo leaves the planned log, if one is planned.
pub open spec fn written(
    baseline: Seq<TaskV>,
    log: Seq<EventV>,
    w: WriteV,
    done: Seq<char>,
) -> Seq<EventV> {
    match w {
        WriteV::Event(e) => if undo::top_seq(log) < u64::MAX {
            log.push(EventV { seq: (undo::top_seq(log) + 1) as u64, undoes: None, ..e })
        } else {
            log
        },
        WriteV::Undo { seq, count, remove, committed, at } => if remove || committed <= log.len() {
            match undo::planned(baseline, log, seq, count, remove, committed, done, at) {
                Ok(Some(p)) => p.log,
                _ => log,
            }
        } else {
            log
        },
    }
}

/// The log after some writes, from an empty one on.
pub open spec fn log_after(baseline: Seq<TaskV>, writes: Seq<WriteV>, done: Seq<char>) -> Seq<EventV>
    decreases writes.len(),
{
    if writes.len() == 0 {
        Seq::empty()
    } else {
        written(baseline, log_after(baseline, writes.drop_last(), done), writes.last(), done)
    }
}

/// Whether none of the events that were written is an append.
pub open spec fn appends_nothing(writes: Seq<WriteV>) -> bool {
    forall|i: int|
        0 <= i < writes.len() ==> ((#[trigger] writes[i]) matches WriteV::Event(e) ==> e.op
            != OpType::Append)
}

/// Whether the events that were written hold no negative zero.
pub open spec fn writes_exactly(writes: Seq<WriteV>) -> bool {
    forall|i: int|
        0 <= i < writes.len() ==> ((#[trigger] writes[i]) matches WriteV::Event(e) ==> exact_fields(
            e.payload,
        ))
}

/// Whether no append that was written can show a negative zero, and the log never
/// outgrew a machine word.
pub open spec fn ordinary(baseline: Seq<TaskV>, writes: Seq<WriteV>, done: Seq<char>) -> bool {
    &&& appends_nothing(writes) || exact_tasks(baseline) && writes_exactly(writes)
    &&& forall|n: int|
        0 <= n <= writes.len() ==> log_after(baseline, #[trigger] writes.take(n), done).len()
            <= usize::MAX
}

proof fn lemma_exact_same(a: JsonV, b: JsonV)
    requires
        json::json_same(a, b),
        exact(a),
        exact(b),
    ensures
        a == b,
    decreases a,
{
    match (a, b) {
        (JsonV::List(x), JsonV::List(y)) => {
            assert forall|i: int| 0 <= i < x.len() implies x[i] == y[i] by {
                assert(json::json_same(x[i], y[i]));
                assert(exact(y[i]));
                lemma_exact_same(x[i], y[i]);
            }
            assert(x =~= y);
        },
        (JsonV::Obj(x), JsonV::Obj(y)) => {
            assert forall|i: int| 0 <= i < x.len() implies x[i] == y[i] by {
                assert(x[i].0 == y[i].0 && json::json_same(x[i].1, y[i].1));
                assert(exact(y[i].1));
                assert(decreases_to!(x[i] => x[i].1));
                lemma_exact_same(x[i].1, y[i].1);
            }
            assert(x =~= y);
        },
        _ => {},
    }
}

proof fn lemma_exact_step(s: StateV, e: EventV, done: Seq<char>)
    requires
        exact_state(s),
        exact_fields(e.payload),
    ensures
        exact_state(engine::step(s, e, done)),
{
    let now = engine::step(s, e, done);
    assert forall|id: Seq<char>| #[trigger] now.contains_key(id) implies exact_fields(
        now[id].custom_fields,
    ) by {
        if s.contains_key(id) {
            assert(exact_fields(s[id].custom_fields));
        }
    }
}

proof fn lemma_exact_replay(s: StateV, events: Seq<EventV>, done: Seq<char>)
    requires
        exact_state(s),
        exact_events(events),
    ensures
        exact_state(engine::replay(s, events, done)),
    decreases events.len(),
{
    if events.len() > 0 {
        let fewer = events.drop_last();
        assert forall|i: int| 0 <= i < fewer.len() implies exact_fields(
            (#[trigger] fewer[i]).payload,
        ) by {
            assert(fewer[i] == events[i]);
        }
        lemma_exact_replay(s, fewer, done);
        assert(exact_fields(events[events.len() - 1].payload));
        lemma_exact_step(engine::replay(s, fewer, done), events.last(), done);
    }
}

proof fn lemma_exact_base(tasks: Seq<TaskV>)
    requires
        exact_tasks(tasks),
    ensures
        exact_state(engine::baseline_state(tasks)),
    decreases tasks.len(),
{
    if tasks.len() > 0 {
        let fewer = tasks.drop_last();
        assert forall|i: int| 0 <= i < fewer.len() implies exact_fields(
            (#[trigger] fewer[i]).custom_fields,
        ) by {
            assert(fewer[i] == tasks[i]);
        }
        lemma_exact_base(fewer);
        assert(exact_fields(tasks[tasks.len() - 1].custom_fields));
    }
}

proof fn lemma_exact_originals(events: Seq<EventV>, removed: Set<u64>)
    requires
        exact_events(events),
    ensures
        exact_events(undo::originals_without(events, removed)),
    decreases events.len(),
{
    if events.len() > 0 {
        let fewer = events.drop_last();
        assert forall|i: int| 0 <= i < fewer.len() implies exact_fields(
            (#[trigger] fewer[i]).payload,
        ) by {
            assert(fewer[i] == events[i]);
        }
        lemma_exact_originals(fewer, removed);
        assert(exact_fields(events[events.len() - 1].payload));
    }
}

proof fn lemma_exact_scope(tasks: Seq<TaskV>, events: Seq<EventV>, ids: Set<Seq<char>>)
    requires
        exact_tasks(tasks),
        exact_events(events),
    ensures
        exact_tasks(undo::tasks_in(tasks, ids)),
        exact_events(undo::events_in(events, ids)),
    decreases tasks.len() + events.len(),
{
    let own = undo::events_in(events, ids);
    assert forall|i: int| 0 <= i < own.len() implies exact_fields((#[trigger] own[i]).payload) by {
        let j = history::lemma_events_in_source(events, ids, i);
        assert(exact_fields(events[j].payload));
    }
    if tasks.len() > 0 {
        let fewer = tasks.drop_last();
        assert forall|i: int| 0 <= i < fewer.len() implies exact_fields(
            (#[trigger] fewer[i]).custom_fields,
        ) by {
            assert(fewer[i] == tasks[i]);
        }
        lemma_exact_scope(fewer, events, ids);
        assert(exact_fields(tasks[tasks.len() - 1].custom_fields));
    }
}

proof fn lemma_exact_changes(from: Option<TaskV>, to: Option<TaskV>, id: Seq<char>, at: Timestamp)
    requires
        to matches Some(t) ==> exact_fields(t.custom_fields),
    ensures
        exact_events(compensate::task_changes(from, to, id, at)),
{
    let out = compensate::task_changes(from, to, id, at);
    assert forall|i: int| 0 <= i < out.len() implies exact_fields((#[trigger] out[i]).payload) by {
        assert forall|k: Seq<char>| #[trigger] out[i].payload.contains_key(k) implies exact(
            out[i].payload[k],
        ) by {
            if let Some(t) = to {
                assert(t.custom_fields.contains_key(k) ==> exact(t.custom_fields[k]));
            }
        }
    }
}

proof fn lemma_changes_append_nothing(
    from: Option<TaskV>,
    to: Option<TaskV>,
    id: Seq<char>,
    at: Timestamp,
)
    ensures
        no_appends(compensate::task_changes(from, to, id, at)),
{
}

/// The undo events are no appends. They hold no negative zero where the log and
/// the baseline do not, and each names a buried event of its own task.
proof fn lemma_reversal_events(
    base: StateV,
    own: Seq<EventV>,
    all: Seq<EventV>,
    buried: Seq<usize>,
    removed: Set<u64>,
    done: Seq<char>,
    at: Timestamp,
)
    ensures
        ({
            let out = undo::reversals(base, own, all, buried, removed, done, at);
            &&& no_appends(out)
            &&& exact_state(base) && exact_events(own) ==> exact_events(out)
            &&& forall|i: int|
                0 <= i < out.len() ==> exists|k: int|
                    0 <= k < buried.len() && (#[trigger] out[i]).undoes == Some(
                        all[#[trigger] buried[k] as int].seq,
                    ) && out[i].task_id == all[buried[k] as int].task_id
        }),
    decreases buried.len(),
{
    let out = undo::reversals(base, own, all, buried, removed, done, at);
    if buried.len() > 0 {
        let e = all[buried[0] as int];
        let more = removed.insert(e.seq);
        let with = engine::replay(base, undo::originals_without(own, removed), done);
        let without = engine::replay(base, undo::originals_without(own, more), done);
        let first = undo::reversal(with, without, e.task_id, e.seq, at);
        let rest = buried.drop_first();
        let later = undo::reversals(base, own, all, rest, more, done, at);
        lemma_reversal_events(base, own, all, rest, more, done, at);
        history::lemma_one_mark(with, without, e.task_id, e.seq, at);
        let from = compensate::task_at(with, e.task_id);
        let to = compensate::task_at(without, e.task_id);
        let ids = seq![e.task_id];
        let changes = compensate::state_changes(with, without, ids, at);
        assert(ids.drop_last() =~= Seq::<Seq<char>>::empty());
        assert(compensate::state_changes(with, without, ids.drop_last(), at)
            =~= Seq::<EventV>::empty());
        assert(changes =~= compensate::task_changes(from, to, e.task_id, at));
        lemma_changes_append_nothing(from, to, e.task_id, at);
        assert forall|i: int| 0 <= i < first.len() implies (#[trigger] first[i]).op
            != OpType::Append by {
            if changes.len() > 0 {
                assert(first[i].op == changes[i].op);
            }
        }
        assert(out == first + later);
        if exact_state(base) && exact_events(own) {
            lemma_exact_originals(own, more);
            lemma_exact_replay(base, undo::originals_without(own, more), done);
            lemma_exact_changes(from, to, e.task_id, at);
            assert forall|i: int| 0 <= i < out.len() implies exact_fields(
                (#[trigger] out[i]).payload,
            ) by {
                if i < first.len() {
                    assert(out[i] == first[i]);
                    if changes.len() > 0 {
                        assert(first[i].payload == changes[i].payload);
                    }
                } else {
                    assert(out[i] == later[i - first.len()]);
                }
            }
        }
        assert forall|i: int| 0 <= i < out.len() implies (#[trigger] out[i]).op != OpType::Append
            && exists|k: int|
                0 <= k < buried.len() && out[i].undoes == Some(
                    all[#[trigger] buried[k] as int].seq,
                ) && out[i].task_id == all[buried[k] as int].task_id by {
            if i < first.len() {
                assert(out[i] == first[i]);
                assert(out[i].undoes == Some(all[buried[0] as int].seq));
            } else {
                let x = i - first.len();
                assert(out[i] == later[x]);
                let k = choose|k: int|
                    0 <= k < rest.len() && later[x].undoes == Some(
                        all[#[trigger] rest[k] as int].seq,
                    ) && later[x].task_id == all[rest[k] as int].task_id;
                assert(rest[k] == buried[k + 1]);
            }
        }
    }
}

proof fn lemma_edges_alike(a: RelsV, b: RelsV, payload: FieldsV, add: bool)
    requires
        compensate::edges_alike(a, b),
    ensures
        compensate::edges_alike(
            engine::edge_applied(a, payload, add),
            engine::edge_applied(b, payload, add),
        ),
{
    if let Some(t) = model::target_of(payload) {
        let rel = model::rel_of(payload);
        let (x, y) = (
            engine::edge_applied(a, payload, add),
            engine::edge_applied(b, payload, add),
        );
        assert forall|r: Seq<char>, target: Seq<char>| #[trigger]
            compensate::has_edge(x, r, target) <==> compensate::has_edge(y, r, target) by {
            compensate::edge_events_change_one_edge(a, rel, t, r, target);
            compensate::edge_events_change_one_edge(b, rel, t, r, target);
            assert(compensate::has_edge(a, r, target) <==> compensate::has_edge(b, r, target));
        }
    }
}

/// An event treats states with alike tasks alike, if it is no append or no
/// negative zero is about.
proof fn lemma_alike_step(a: StateV, b: StateV, e: EventV, done: Seq<char>)
    requires
        history::states_alike(a, b),
        e.op != OpType::Append || exact_state(a) && exact_state(b),
    ensures
        history::states_alike(engine::step(a, e, done), engine::step(b, e, done)),
{
    let (x, y) = (engine::step(a, e, done), engine::step(b, e, done));
    assert forall|id: Seq<char>| compensate::alike(
        #[trigger] compensate::task_at(x, id),
        compensate::task_at(y, id),
    ) by {
        assert(compensate::alike(compensate::task_at(a, id), compensate::task_at(b, id)));
        if id == e.task_id {
            let none = model::blank_task(id);
            if a.contains_key(id) {
                let (p, q) = (a[id].custom_fields, b[id].custom_fields);
                assert(b.contains_key(id));
                if e.op == OpType::Append {
                    assert forall|k: Seq<char>| p.contains_key(k) implies p[k] == q[k] by {
                        assert(json::json_same(p[k], q[k]));
                        assert(q.contains_key(k));
                        lemma_exact_same(p[k], q[k]);
                    }
                    assert(p =~= q);
                }
                lemma_edges_alike(a[id].relationships, b[id].relationships, e.payload, true);
                lemma_edges_alike(a[id].relationships, b[id].relationships, e.payload, false);
            }
            if x.contains_key(id) && y.contains_key(id) {
                let (f, g) = (x[id].custom_fields, y[id].custom_fields);
                assert(f.dom() =~= g.dom()) by {
                    assert forall|k: Seq<char>| f.contains_key(k) <==> g.contains_key(k) by {
                        if a.contains_key(id) {
                            let (p, q) = (a[id].custom_fields, b[id].custom_fields);
                            assert(p.contains_key(k) <==> q.contains_key(k));
                        }
                    }
                }
                assert forall|k: Seq<char>| #[trigger] f.contains_key(k) implies json::json_same(
                    f[k],
                    g[k],
                ) by {
                    json::json_same_reflexive(f[k]);
                    if a.contains_key(id) {
                        let (p, q) = (a[id].custom_fields, b[id].custom_fields);
                        assert(p.contains_key(k) ==> json::json_same(p[k], q[k]));
                    }
                }
            }
        }
    }
}

/// Whether every undo event names an event of the log, of its own task.
pub open spec fn marks_known(log: Seq<EventV>) -> bool {
    forall|j: int|
        0 <= j < log.len() && (#[trigger] log[j]).undoes is Some ==> named_in(
            log,
            log[j].undoes->0,
            log[j].task_id,
        )
}

/// Whether an event of `id` has the number `s`.
pub open spec fn named_in(log: Seq<EventV>, s: u64, id: Seq<char>) -> bool {
    exists|i: int| 0 <= i < log.len() && (#[trigger] log[i]).seq == s && log[i].task_id == id
}

proof fn lemma_top(log: Seq<EventV>, i: int)
    requires
        0 <= i < log.len(),
    ensures
        log[i].seq <= undo::top_seq(log),
    decreases log.len(),
{
    if i < log.len() - 1 {
        lemma_top(log.drop_last(), i);
        assert(log.drop_last()[i] == log[i]);
    }
}

proof fn lemma_member(events: Seq<EventV>, ids: Set<Seq<char>>, j: int) -> (k: int)
    requires
        0 <= j < events.len(),
        ids.contains(events[j].task_id),
    ensures
        0 <= k < undo::events_in(events, ids).len(),
        undo::events_in(events, ids)[k] == events[j],
    decreases events.len(),
{
    let own = undo::events_in(events, ids);
    if j < events.len() - 1 {
        assert(events.drop_last()[j] == events[j]);
        let k = lemma_member(events.drop_last(), ids, j);
        assert(own[k] == undo::events_in(events.drop_last(), ids)[k]);
        k
    } else {
        own.len() - 1
    }
}

proof fn lemma_originals_of(events: Seq<EventV>, ids: Set<Seq<char>>, removed: Set<u64>)
    ensures
        undo::originals_without(undo::events_in(events, ids), removed) == undo::events_in(
            undo::originals_without(events, removed),
            ids,
        ),
    decreases events.len(),
{
    if events.len() > 0 {
        let fewer = events.drop_last();
        let e = events.last();
        lemma_originals_of(fewer, ids, removed);
        if ids.contains(e.task_id) {
            let own = undo::events_in(events, ids);
            assert(own.drop_last() =~= undo::events_in(fewer, ids));
        }
        if e.undoes is None && !removed.contains(e.seq) {
            let left = undo::originals_without(events, removed);
            assert(left.drop_last() =~= undo::originals_without(fewer, removed));
            assert(left.last() == e);
        }
    }
}

/// The state of a task, and its state without undo events and undone ones,
/// follow from the events of any set of tasks that it belongs to.
proof fn lemma_scoped(
    baseline: Seq<TaskV>,
    log: Seq<EventV>,
    ids: Set<Seq<char>>,
    done: Seq<char>,
    id: Seq<char>,
)
    requires
        history::distinct_seqs(log),
        marks_known(log),
        ids.contains(id),
    ensures
        ({
            let full = engine::baseline_state(baseline);
            let base = engine::baseline_state(undo::tasks_in(baseline, ids));
            let own = undo::events_in(log, ids);
            &&& compensate::task_at(engine::replay(full, log, done), id) == compensate::task_at(
                engine::replay(base, own, done),
                id,
            )
            &&& compensate::task_at(
                engine::replay(full, undo::originals_without(log, undo::undone_seqs(log)), done),
                id,
            ) == compensate::task_at(
                engine::replay(base, undo::originals_without(own, undo::undone_seqs(own)), done),
                id,
            )
        }),
{
    let own = undo::events_in(log, ids);
    let gone = undo::undone_seqs(log);
    let own_gone = undo::undone_seqs(own);
    history::scoping_keeps_state(baseline, log, ids, done, id);
    assert forall|i: int| 0 <= i < own.len() && (#[trigger] own[i]).undoes is None implies own_gone.contains(
        own[i].seq,
    ) == gone.contains(own[i].seq) by {
        let j = history::lemma_events_in_source(log, ids, i);
        let s = own[i].seq;
        if own_gone.contains(s) {
            let m = choose|m: int| 0 <= m < own.len() && #[trigger] own[m].undoes == Some(s);
            let n = history::lemma_events_in_source(log, ids, m);
            assert(log[n].undoes == Some(s));
        }
        if gone.contains(s) {
            let m = choose|m: int| 0 <= m < log.len() && #[trigger] log[m].undoes == Some(s);
            assert(named_in(log, s, log[m].task_id));
            let n = choose|n: int|
                0 <= n < log.len() && (#[trigger] log[n]).seq == s && log[n].task_id
                    == log[m].task_id;
            assert(log[j].seq == s);
            assert(n == j);
            let k = lemma_member(log, ids, m);
            assert(own[k].undoes == Some(s));
        }
    }
    history::lemma_originals_agree(own, own_gone, gone);
    lemma_originals_of(log, ids, gone);
    history::scoping_keeps_state(baseline, undo::originals_without(log, gone), ids, done, id);
}

proof fn lemma_scoped_faithful(
    baseline: Seq<TaskV>,
    log: Seq<EventV>,
    ids: Set<Seq<char>>,
    done: Seq<char>,
)
    requires
        history::distinct_seqs(log),
        marks_known(log),
        history::faithful(engine::baseline_state(baseline), log, done),
    ensures
        history::faithful(
            engine::baseline_state(undo::tasks_in(baseline, ids)),
            undo::events_in(log, ids),
            done,
        ),
{
    let full = engine::baseline_state(baseline);
    let base = engine::baseline_state(undo::tasks_in(baseline, ids));
    let own = undo::events_in(log, ids);
    let left = undo::originals_without(own, undo::undone_seqs(own));
    assert forall|id: Seq<char>| compensate::alike(
        #[trigger] compensate::task_at(engine::replay(base, own, done), id),
        compensate::task_at(engine::replay(base, left, done), id),
    ) by {
        if ids.contains(id) {
            lemma_scoped(baseline, log, ids, done, id);
            assert(compensate::alike(
                compensate::task_at(engine::replay(full, log, done), id),
                compensate::task_at(
                    engine::replay(full, undo::originals_without(log, undo::undone_seqs(log)), done),
                    id,
                ),
            ));
        } else {
            assert forall|i: int| 0 <= i < own.len() implies (#[trigger] own[i]).task_id != id by {
                let j = history::lemma_events_in_source(log, ids, i);
            }
            lemma_originals_touch(own, undo::undone_seqs(own), id);
            compensate::events_touch_their_own_task(base, own, done, id);
            compensate::events_touch_their_own_task(base, left, done, id);
            compensate::alike_reflexive(compensate::task_at(base, id));
        }
    }
}

proof fn lemma_originals_touch(events: Seq<EventV>, removed: Set<u64>, id: Seq<char>)
    requires
        forall|i: int| 0 <= i < events.len() ==> (#[trigger] events[i]).task_id != id,
    ensures
        forall|i: int|
            0 <= i < undo::originals_without(events, removed).len() ==> (
            #[trigger] undo::originals_without(events, removed)[i]).task_id != id,
    decreases events.len(),
{
    if events.len() > 0 {
        let fewer = events.drop_last();
        assert forall|i: int| 0 <= i < fewer.len() implies (#[trigger] fewer[i]).task_id != id by {
            assert(fewer[i] == events[i]);
        }
        lemma_originals_touch(fewer, removed, id);
        assert(events[events.len() - 1].task_id != id);
    }
}

/// Whether the events from place `n` on are neither undo events nor undone.
pub open spec fn plain_from(log: Seq<EventV>, n: int) -> bool {
    &&& 0 <= n <= log.len()
    &&& forall|j: int|
        n <= j < log.len() ==> (#[trigger] log[j]).undoes is None && !undo::undone_seqs(
            log,
        ).contains(log[j].seq)
}

/// Whether a log is one that writes and undos leave: its numbers are distinct,
/// its undo events name events of their task and have done their work, and no
/// append can show a negative zero.
pub open spec fn proper(baseline: Seq<TaskV>, log: Seq<EventV>, done: Seq<char>) -> bool {
    &&& history::distinct_seqs(log)
    &&& marks_known(log)
    &&& settled(baseline, log)
    &&& forall|n: int| #[trigger]
        plain_from(log, n) ==> history::faithful(
            engine::baseline_state(baseline),
            log.take(n),
            done,
        )
}

proof fn lemma_event_is_proper(
    baseline: Seq<TaskV>,
    log: Seq<EventV>,
    e: EventV,
    done: Seq<char>,
)
    requires
        proper(baseline, log, done),
        undo::top_seq(log) < u64::MAX,
        e.seq == undo::top_seq(log) + 1,
        e.undoes is None,
        settled(baseline, log.push(e)),
    ensures
        proper(baseline, log.push(e), done),
{
    let now = log.push(e);
    let full = engine::baseline_state(baseline);
    let gone = undo::undone_seqs(log);
    assert forall|i: int, j: int|
        0 <= i < now.len() && 0 <= j < now.len() && (#[trigger] now[i]).seq == (
        #[trigger] now[j]).seq implies i == j by {
        if i < log.len() {
            lemma_top(log, i);
        }
        if j < log.len() {
            lemma_top(log, j);
        }
        if i < log.len() && j < log.len() {
            assert(log[i].seq == log[j].seq);
        }
    }
    assert forall|j: int| 0 <= j < now.len() && (#[trigger] now[j]).undoes is Some implies named_in(
        now,
        now[j].undoes->0,
        now[j].task_id,
    ) by {
        assert(log[j].undoes is Some);
        let i = choose|i: int|
            0 <= i < log.len() && (#[trigger] log[i]).seq == log[j].undoes->0 && log[i].task_id
                == log[j].task_id;
        assert(now[i].seq == now[j].undoes->0);
    }
    assert(now =~= log + seq![e]);
    history::lemma_undone_concat(log, seq![e]);
    assert(undo::undone_seqs(now) =~= gone);
    assert(!gone.contains(e.seq)) by {
        if gone.contains(e.seq) {
            let m = choose|m: int| 0 <= m < log.len() && #[trigger] log[m].undoes == Some(e.seq);
            assert(named_in(log, e.seq, log[m].task_id));
            let n = choose|n: int|
                0 <= n < log.len() && (#[trigger] log[n]).seq == e.seq && log[n].task_id
                    == log[m].task_id;
            lemma_top(log, n);
        }
    }
    assert forall|n: int| #[trigger] plain_from(now, n) implies history::faithful(
        full,
        now.take(n),
        done,
    ) by {
        if n <= log.len() {
            assert(plain_from(log, n)) by {
                assert forall|j: int| n <= j < log.len() implies (#[trigger] log[j]).undoes is None
                    && !gone.contains(log[j].seq) by {
                    assert(now[j] == log[j]);
                }
            }
            assert(now.take(n) =~= log.take(n));
        } else {
            assert(now.take(n) =~= now);
            assert(now.drop_last() =~= log);
            assert(plain_from(log, log.len() as int));
            assert(log.take(log.len() as int) =~= log);
            let left = undo::originals_without(log, gone);
            assert(now[now.len() - 1] == e);
            if e.op == OpType::Append {
                assert forall|i: int| 0 <= i < log.len() implies exact_fields(
                    (#[trigger] log[i]).payload,
                ) by {
                    assert(now[i] == log[i]);
                }
                lemma_exact_base(baseline);
                lemma_exact_originals(log, gone);
                lemma_exact_replay(full, log, done);
                lemma_exact_replay(full, left, done);
            }
            assert(undo::originals_without(now, gone) == left.push(e));
            assert(left.push(e).drop_last() =~= left);
            lemma_alike_step(
                engine::replay(full, log, done),
                engine::replay(full, left, done),
                e,
                done,
            );
        }
    }
}

/// What the law on undos asks of the kept part of a log holds of every proper
/// log.
proof fn lemma_kept_is_faithful(
    baseline: Seq<TaskV>,
    events: Seq<EventV>,
    selected: Seq<usize>,
    remove: bool,
    committed: nat,
    done: Seq<char>,
)
    requires
        proper(baseline, events, done),
        remove || committed <= events.len(),
        events.len() <= usize::MAX,
        history::all_undoable(events, selected),
    ensures
        ({
            let kept = undo::kept_count(events, selected, remove, committed) as int;
            let ids = undo::selected_tasks(events, selected);
            &&& 0 <= kept <= events.len()
            &&& history::tail_selected(events, selected, kept)
            &&& marks_known(events.take(kept))
            &&& undo::undone_seqs(events) == undo::undone_seqs(events.take(kept))
            &&& forall|j: int|
                kept <= j < events.len() ==> (#[trigger] events[j]).undoes is None
                    && !undo::undone_seqs(events).contains(events[j].seq) && ids.contains(
                    events[j].task_id,
                )
            &&& history::faithful(
                engine::baseline_state(undo::tasks_in(baseline, ids)),
                undo::events_in(events.take(kept), ids),
                done,
            )
        }),
{
    let kept = undo::kept_count(events, selected, remove, committed) as int;
    let ids = undo::selected_tasks(events, selected);
    let prefix = events.take(kept);
    let tail = events.skip(kept);
    history::lemma_tail_selected(events, selected, remove, committed);
    assert forall|j: int| kept <= j < events.len() implies (#[trigger] events[j]).undoes is None
        && !undo::undone_seqs(events).contains(events[j].seq) && ids.contains(
        events[j].task_id,
    ) by {
        history::lemma_tail(events, selected, kept, j - kept);
        assert(selected.contains(j as usize));
        let k = choose|k: int| 0 <= k < selected.len() && selected[k] == j as usize;
        assert(undo::undoable(events, selected[k] as int));
    }
    assert(plain_from(events, kept));
    assert(events =~= prefix + tail);
    history::lemma_undone_concat(prefix, tail);
    assert(undo::undone_seqs(tail) =~= Set::<u64>::empty()) by {
        assert forall|i: int| 0 <= i < tail.len() implies (#[trigger] tail[i]).undoes is None by {
            assert(tail[i] == events[kept + i]);
        }
    }
    assert(undo::undone_seqs(events) =~= undo::undone_seqs(prefix));
    assert forall|j: int| 0 <= j < prefix.len() && (#[trigger] prefix[j]).undoes is Some implies named_in(
        prefix,
        prefix[j].undoes->0,
        prefix[j].task_id,
    ) by {
        let s = events[j].undoes->0;
        assert(named_in(events, s, events[j].task_id));
        let i = choose|i: int|
            0 <= i < events.len() && (#[trigger] events[i]).seq == s && events[i].task_id
                == events[j].task_id;
        assert(events[j].undoes == Some(s));
        assert(undo::undone_seqs(events).contains(s));
        assert(i < kept);
        assert(prefix[i] == events[i]);
    }
    assert forall|i: int, j: int|
        0 <= i < prefix.len() && 0 <= j < prefix.len() && (#[trigger] prefix[i]).seq == (
        #[trigger] prefix[j]).seq implies i == j by {
        assert(events[i].seq == events[j].seq);
    }
    lemma_scoped_faithful(baseline, prefix, ids, done);
}

/// A log that goes on, above its numbers, with undo events of what it holds.
proof fn lemma_longer_log(
    baseline: Seq<TaskV>,
    events: Seq<EventV>,
    kept: int,
    appended: Seq<EventV>,
)
    requires
        0 <= kept <= events.len(),
        history::distinct_seqs(events),
        marks_known(events.take(kept)),
        no_appends(appended),
        exact_tasks(baseline) && exact_events(events) ==> exact_events(appended),
        undo::top_seq(events.take(kept)) + appended.len() <= u64::MAX,
        forall|i: int|
            0 <= i < appended.len() ==> (#[trigger] appended[i]).seq == undo::top_seq(
                events.take(kept),
            ) + 1 + i && named_in(events.take(kept), appended[i].undoes->0, appended[i].task_id),
    ensures
        history::distinct_seqs(events.take(kept) + appended),
        marks_known(events.take(kept) + appended),
        no_appends(events) ==> no_appends(events.take(kept) + appended),
        exact_tasks(baseline) && exact_events(events) ==> exact_events(
            events.take(kept) + appended,
        ),
{
    let prefix = events.take(kept);
    let log = prefix + appended;
    assert forall|i: int, j: int|
        0 <= i < log.len() && 0 <= j < log.len() && (#[trigger] log[i]).seq == (
        #[trigger] log[j]).seq implies i == j by {
        if i < kept {
            lemma_top(prefix, i);
            assert(events[i] == prefix[i]);
        } else {
            assert(log[i] == appended[i - kept]);
        }
        if j < kept {
            lemma_top(prefix, j);
            assert(events[j] == prefix[j]);
        } else {
            assert(log[j] == appended[j - kept]);
        }
        if i < kept && j < kept {
            assert(events[i].seq == events[j].seq);
        }
    }
    assert forall|j: int| 0 <= j < log.len() && (#[trigger] log[j]).undoes is Some implies named_in(
        log,
        log[j].undoes->0,
        log[j].task_id,
    ) by {
        if j < kept {
            assert(prefix[j].undoes is Some);
        } else {
            assert(log[j] == appended[j - kept]);
        }
        let i = choose|i: int|
            0 <= i < prefix.len() && (#[trigger] prefix[i]).seq == log[j].undoes->0
                && prefix[i].task_id == log[j].task_id;
        assert(log[i] == prefix[i]);
    }
    if no_appends(events) {
        assert forall|i: int| 0 <= i < log.len() implies (#[trigger] log[i]).op
            != OpType::Append by {
            if i < kept {
                assert(events[i].op != OpType::Append);
            } else {
                assert(log[i] == appended[i - kept]);
            }
        }
    }
    if exact_tasks(baseline) && exact_events(events) {
        assert forall|i: int| 0 <= i < log.len() implies exact_fields(
            (#[trigger] log[i]).payload,
        ) by {
            if i < kept {
                assert(exact_fields(events[i].payload));
            } else {
                assert(log[i] == appended[i - kept]);
            }
        }
    }
}

/// Undo events that did their work on some tasks did it on all.
proof fn lemma_undone_is_faithful(
    baseline: Seq<TaskV>,
    events: Seq<EventV>,
    ids: Set<Seq<char>>,
    kept: int,
    appended: Seq<EventV>,
    done: Seq<char>,
)
    requires
        proper(baseline, events, done),
        0 <= kept <= events.len(),
        history::distinct_seqs(events.take(kept) + appended),
        marks_known(events.take(kept) + appended),
        forall|j: int| kept <= j < events.len() ==> ids.contains((#[trigger] events[j]).task_id),
        forall|i: int| 0 <= i < appended.len() ==> ids.contains((#[trigger] appended[i]).task_id),
        history::faithful(
            engine::baseline_state(undo::tasks_in(baseline, ids)),
            undo::events_in(events.take(kept) + appended, ids),
            done,
        ),
    ensures
        history::faithful(
            engine::baseline_state(baseline),
            events.take(kept) + appended,
            done,
        ),
{
    let prefix = events.take(kept);
    let tail = events.skip(kept);
    let log = prefix + appended;
    let full = engine::baseline_state(baseline);
    let base = engine::baseline_state(undo::tasks_in(baseline, ids));
    let left = undo::originals_without(log, undo::undone_seqs(log));
    assert forall|id: Seq<char>| compensate::alike(
        #[trigger] compensate::task_at(engine::replay(full, log, done), id),
        compensate::task_at(engine::replay(full, left, done), id),
    ) by {
        if ids.contains(id) {
            lemma_scoped(baseline, log, ids, done, id);
            let mine = undo::events_in(log, ids);
            assert(compensate::alike(
                compensate::task_at(engine::replay(base, mine, done), id),
                compensate::task_at(
                    engine::replay(
                        base,
                        undo::originals_without(mine, undo::undone_seqs(mine)),
                        done,
                    ),
                    id,
                ),
            ));
        } else {
            let one = set![id];
            assert(events =~= prefix + tail);
            history::lemma_events_in_concat(prefix, appended, one);
            history::lemma_events_in_concat(prefix, tail, one);
            assert forall|i: int| 0 <= i < tail.len() implies !one.contains(
                (#[trigger] tail[i]).task_id,
            ) by {
                assert(tail[i] == events[kept + i]);
            }
            lemma_no_events(appended, one);
            lemma_no_events(tail, one);
            lemma_scoped(baseline, log, one, done, id);
            lemma_scoped(baseline, events, one, done, id);
            assert(plain_from(events, events.len() as int));
            assert(events.take(events.len() as int) =~= events);
            assert(history::faithful(full, events, done));
            assert(compensate::alike(
                compensate::task_at(engine::replay(full, events, done), id),
                compensate::task_at(
                    engine::replay(
                        full,
                        undo::originals_without(events, undo::undone_seqs(events)),
                        done,
                    ),
                    id,
                ),
            ));
        }
    }
}

proof fn lemma_undo_is_proper(
    baseline: Seq<TaskV>,
    events: Seq<EventV>,
    selected: Seq<usize>,
    remove: bool,
    committed: nat,
    done: Seq<char>,
    at: Timestamp,
)
    requires
        history::sound_tasks(baseline),
        proper(baseline, events, done),
        remove || committed <= events.len(),
        events.len() <= usize::MAX,
        history::all_undoable(events, selected),
        undo::numbers_left(baseline, events, selected, remove, committed, done, at),
    ensures
        ({
            let log = undo::plan_for(baseline, events, selected, remove, committed, done, at).log;
            &&& proper(baseline, log, done)
            &&& no_appends(events) ==> no_appends(log)
            &&& exact_tasks(baseline) && exact_events(events) ==> exact_events(log)
        }),
{
    let ids = undo::selected_tasks(events, selected);
    let kept = undo::kept_count(events, selected, remove, committed);
    let prefix = events.take(kept as int);
    let tail = events.skip(kept as int);
    let top = undo::top_seq(prefix);
    let full = engine::baseline_state(baseline);
    let base = engine::baseline_state(undo::tasks_in(baseline, ids));
    let own = undo::events_in(events, ids);
    let buried = undo::below(selected, kept);
    let seed = undo::undone_seqs(own).union(undo::seqs_from(events, kept as int));
    let drafts = undo::undo_drafts(baseline, events, selected, kept, done, at);
    let appended = undo::numbered(drafts, top);
    let log = prefix + appended;
    lemma_kept_is_faithful(baseline, events, selected, remove, committed, done);
    history::undo_takes_back_its_events(baseline, events, selected, remove, committed, done, at);
    lemma_reversal_events(base, own, events, buried, seed, done, at);
    if exact_tasks(baseline) && exact_events(events) {
        lemma_exact_scope(baseline, events, ids);
        lemma_exact_base(undo::tasks_in(baseline, ids));
        assert forall|i: int| 0 <= i < appended.len() implies exact_fields(
            (#[trigger] appended[i]).payload,
        ) by {
            assert(exact_fields(drafts[i].payload));
        }
    }
    assert forall|i: int| 0 <= i < appended.len() implies (#[trigger] appended[i]).op
        != OpType::Append by {
        assert(drafts[i].op != OpType::Append);
    }
    assert forall|i: int| 0 <= i < appended.len() implies named_in(
        prefix,
        (#[trigger] appended[i]).undoes->0,
        appended[i].task_id,
    ) && appended[i].undoes is Some && ids.contains(appended[i].task_id) by {
        assert(drafts[i].op != OpType::Append);
        let k = choose|k: int|
            0 <= k < buried.len() && drafts[i].undoes == Some(
                events[#[trigger] buried[k] as int].seq,
            ) && drafts[i].task_id == events[buried[k] as int].task_id;
        assert(buried.contains(buried[k]));
        history::lemma_below(selected, kept, buried[k]);
        history::lemma_is_selected(events, selected, buried[k]);
        assert(prefix[buried[k] as int] == events[buried[k] as int]);
    }
    lemma_longer_log(baseline, events, kept as int, appended);
    lemma_undone_is_faithful(baseline, events, ids, kept as int, appended, done);
    assert forall|n: int| #[trigger] plain_from(log, n) implies history::faithful(
        full,
        log.take(n),
        done,
    ) by {
        if n == log.len() {
            assert(log.take(n) =~= log);
        } else {
            if appended.len() > 0 {
                assert(log[log.len() - 1] == appended[appended.len() - 1]);
                assert(appended[appended.len() - 1].undoes is Some);
                assert(log[log.len() - 1].undoes is None);
            }
            assert(log =~= prefix);
            assert forall|j: int| n <= j < events.len() implies (#[trigger] events[j]).undoes is None
                && !undo::undone_seqs(events).contains(events[j].seq) by {
                if j < kept {
                    assert(log[j] == events[j]);
                }
            }
            assert(plain_from(events, n));
            assert(log.take(n) =~= events.take(n));
        }
    }
}

proof fn lemma_no_events(events: Seq<EventV>, ids: Set<Seq<char>>)
    requires
        forall|i: int| 0 <= i < events.len() ==> !ids.contains((#[trigger] events[i]).task_id),
    ensures
        undo::events_in(events, ids) == Seq::<EventV>::empty(),
    decreases events.len(),
{
    if events.len() > 0 {
        let fewer = events.drop_last();
        assert forall|i: int| 0 <= i < fewer.len() implies !ids.contains(
            (#[trigger] fewer[i]).task_id,
        ) by {
            assert(fewer[i] == events[i]);
        }
        lemma_no_events(fewer, ids);
        assert(!ids.contains(events[events.len() - 1].task_id));
    }
}

/// A planned undo is one of undoable events.
proof fn lemma_selected_are_undoable(events: Seq<EventV>, seq: Option<u64>, count: nat)
    requires
        events.len() <= usize::MAX,
    ensures
        undo::selection(events, seq, count) matches Ok(selected) ==> history::all_undoable(
            events,
            selected,
        ),
{
    match seq {
        None => {
            history::selections_are_undoable(events, events.len(), count);
        },
        Some(s) => {
            if undo::place_of(events, s) < events.len() {
                history::selections_are_undoable(events, undo::place_of(events, s) + 1, count);
            }
        },
    }
}

/// What one more write leaves of a proper log.
proof fn lemma_written_is_proper(
    baseline: Seq<TaskV>,
    log: Seq<EventV>,
    w: WriteV,
    done: Seq<char>,
)
    requires
        history::sound_tasks(baseline),
        proper(baseline, log, done),
        log.len() <= usize::MAX,
        w matches WriteV::Event(e) ==> (no_appends(log) && e.op != OpType::Append) || (exact_tasks(
            baseline,
        ) && exact_events(log) && exact_fields(e.payload)),
    ensures
        ({
            let now = written(baseline, log, w, done);
            &&& proper(baseline, now, done)
            &&& no_appends(log) && (w matches WriteV::Event(e) ==> e.op != OpType::Append)
                ==> no_appends(now)
            &&& exact_tasks(baseline) && exact_events(log) && (w matches WriteV::Event(e)
                ==> exact_fields(e.payload)) ==> exact_events(now)
        }),
{
    match w {
        WriteV::Event(e) => {
            if undo::top_seq(log) < u64::MAX {
                let next = EventV { seq: (undo::top_seq(log) + 1) as u64, undoes: None, ..e };
                let now = log.push(next);
                if no_appends(log) && e.op != OpType::Append {
                    assert forall|i: int| 0 <= i < now.len() implies (#[trigger] now[i]).op
                        != OpType::Append by {
                        if i < log.len() {
                            assert(log[i].op != OpType::Append);
                        }
                    }
                }
                if exact_tasks(baseline) && exact_events(log) && exact_fields(e.payload) {
                    assert forall|i: int| 0 <= i < now.len() implies exact_fields(
                        (#[trigger] now[i]).payload,
                    ) by {
                        if i < log.len() {
                            assert(exact_fields(log[i].payload));
                        }
                    }
                }
                lemma_event_is_proper(baseline, log, next, done);
            }
        },
        WriteV::Undo { seq, count, remove, committed, at } => {
            if remove || committed <= log.len() {
                lemma_selected_are_undoable(log, seq, count);
                if let Ok(Some(_)) = undo::planned(
                    baseline,
                    log,
                    seq,
                    count,
                    remove,
                    committed,
                    done,
                    at,
                ) {
                    let selected = undo::selection(log, seq, count)->Ok_0;
                    lemma_undo_is_proper(baseline, log, selected, remove, committed, done, at);
                }
            }
        },
    }
}

proof fn lemma_log_after(baseline: Seq<TaskV>, writes: Seq<WriteV>, done: Seq<char>)
    requires
        history::sound_tasks(baseline),
        ordinary(baseline, writes, done),
    ensures
        ({
            let log = log_after(baseline, writes, done);
            &&& proper(baseline, log, done)
            &&& appends_nothing(writes) ==> no_appends(log)
            &&& exact_tasks(baseline) && writes_exactly(writes) ==> exact_events(log)
            &&& log.len() <= usize::MAX
        }),
    decreases writes.len(),
{
    assert(writes.take(writes.len() as int) =~= writes);
    assert(log_after(baseline, writes.take(writes.len() as int), done).len() <= usize::MAX);
    if writes.len() == 0 {
        let none = Seq::<EventV>::empty();
        assert forall|n: int| #[trigger] plain_from(none, n) implies history::faithful(
            engine::baseline_state(baseline),
            none.take(n),
            done,
        ) by {
            assert(none.take(n) =~= none);
            history::plain_log_is_faithful(engine::baseline_state(baseline), none, done);
        }
    } else {
        let fewer = writes.drop_last();
        assert forall|n: int| 0 <= n <= fewer.len() implies log_after(
            baseline,
            #[trigger] fewer.take(n),
            done,
        ).len() <= usize::MAX by {
            assert(fewer.take(n) =~= writes.take(n));
        }
        assert(writes.last() == writes[writes.len() - 1]);
        if appends_nothing(writes) {
            assert forall|i: int| 0 <= i < fewer.len() implies ((
            #[trigger] fewer[i]) matches WriteV::Event(e) ==> e.op != OpType::Append) by {
                assert(fewer[i] == writes[i]);
            }
        }
        if writes_exactly(writes) {
            assert forall|i: int| 0 <= i < fewer.len() implies ((
            #[trigger] fewer[i]) matches WriteV::Event(e) ==> exact_fields(e.payload)) by {
                assert(fewer[i] == writes[i]);
            }
        }
        lemma_log_after(baseline, fewer, done);
        lemma_written_is_proper(
            baseline,
            log_after(baseline, fewer, done),
            writes.last(),
            done,
        );
    }
}

/// Every log that writes and undos leave is proper.
pub proof fn logs_stay_proper(baseline: Seq<TaskV>, writes: Seq<WriteV>, done: Seq<char>)
    requires
        history::sound_tasks(baseline),
        ordinary(baseline, writes, done),
    ensures
        proper(baseline, log_after(baseline, writes, done), done),
        log_after(baseline, writes, done).len() <= usize::MAX,
{
    lemma_log_after(baseline, writes, done);
}

/// Applying an undo does what its plan shows. On a log that writes and earlier
/// undos left, each task of the plan's changes then has the fields and edges of
/// its `after`, or is gone where that says so, and every other task is as it
/// was.
pub proof fn applied_undos_do_what_they_show(
    baseline: Seq<TaskV>,
    writes: Seq<WriteV>,
    done: Seq<char>,
    seq: Option<u64>,
    count: nat,
    remove: bool,
    committed: nat,
    at: Timestamp,
)
    requires
        history::sound_tasks(baseline),
        ordinary(baseline, writes, done),
        remove || committed <= log_after(baseline, writes, done).len(),
        undo::planned(
            baseline,
            log_after(baseline, writes, done),
            seq,
            count,
            remove,
            committed,
            done,
            at,
        ) matches Ok(Some(_)),
    ensures
        ({
            let base = engine::baseline_state(baseline);
            let log = log_after(baseline, writes, done);
            let p = undo::planned(baseline, log, seq, count, remove, committed, done, at)->Ok_0->0;
            let now = engine::replay(base, p.log, done);
            &&& forall|i: int|
                0 <= i < p.changes.len() ==> compensate::alike(
                    compensate::task_at(now, (#[trigger] p.changes[i]).id),
                    p.changes[i].after,
                ) && p.changes[i].before == compensate::task_at(
                    engine::replay(base, log, done),
                    p.changes[i].id,
                )
            &&& forall|id: Seq<char>|
                (forall|i: int| 0 <= i < p.changes.len() ==> (#[trigger] p.changes[i]).id != id)
                    ==> #[trigger] compensate::task_at(now, id) == compensate::task_at(
                    engine::replay(base, log, done),
                    id,
                )
        }),
{
    let base = engine::baseline_state(baseline);
    let log = log_after(baseline, writes, done);
    let p = undo::planned(baseline, log, seq, count, remove, committed, done, at)->Ok_0->0;
    let now = engine::replay(base, p.log, done);
    let selected = undo::selection(log, seq, count)->Ok_0;
    let ids = undo::selected_tasks(log, selected);
    logs_stay_proper(baseline, writes, done);
    lemma_selected_are_undoable(log, seq, count);
    lemma_kept_is_faithful(baseline, log, selected, remove, committed, done);
    history::undo_takes_back_its_events(baseline, log, selected, remove, committed, done, at);
    let names = selected.map_values(|k: usize| log[k as int].task_id);
    assert(ids =~= names.to_set()) by {
        assert forall|id: Seq<char>| ids.contains(id) <==> names.contains(id) by {
            if ids.contains(id) {
                let k = choose|k: int|
                    0 <= k < selected.len() && log[#[trigger] selected[k] as int].task_id == id;
                assert(names[k] == id);
            }
            if names.contains(id) {
                let k = choose|k: int| 0 <= k < names.len() && names[k] == id;
                assert(log[selected[k] as int].task_id == id);
            }
        }
    }
    vstd::seq_lib::seq_to_set_is_finite(names);
    let order = strmap::sorted_of(ids);
    strmap::sorted_of_finite(ids);
    assert forall|i: int| 0 <= i < p.changes.len() implies compensate::alike(
        compensate::task_at(now, (#[trigger] p.changes[i]).id),
        p.changes[i].after,
    ) && p.changes[i].before == compensate::task_at(
        engine::replay(base, log, done),
        p.changes[i].id,
    ) by {
        let id = order[i];
        assert(order.to_set().contains(id));
        assert(p.changes[i].id == id);
        history::scoping_keeps_state(baseline, log, ids, done, id);
    }
    assert forall|id: Seq<char>|
        (forall|i: int| 0 <= i < p.changes.len() ==> (#[trigger] p.changes[i]).id != id) implies
        #[trigger] compensate::task_at(now, id) == compensate::task_at(
        engine::replay(base, log, done),
        id,
    ) by {
        if ids.contains(id) {
            assert(order.to_set().contains(id));
            let i = choose|i: int| 0 <= i < order.len() && order[i] == id;
            assert(p.changes[i].id == id);
        }
    }
}

} // verus!
