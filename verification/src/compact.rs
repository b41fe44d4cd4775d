//! Folding old events into the baseline.

use crate::config::CompactionConfig;
use crate::engine::{self, Engine};
use crate::model::{EventV, MutationEvent, StateV, TaskState, TaskV, Timestamp};
use crate::store::{self, Store};
use crate::strmap::{self, Data, StrMap};
use vstd::prelude::*;

verus! {

/// What compacting did.
pub enum CompactOutcome {
    /// The log fits the policy already.
    NothingToDo { log_len: usize, keep_events: usize },
    /// So many events were folded into a baseline of so many tasks.
    Compacted { folded: usize, baseline_tasks: usize, kept: usize },
}

/// Whether each task is kept under its own id.
pub open spec fn keyed_by_id(s: StateV) -> bool {
    forall|id: Seq<char>| s.contains_key(id) ==> (#[trigger] s[id]).id == id
}

proof fn lemma_base_keyed(tasks: Seq<TaskV>)
    ensures
        keyed_by_id(engine::baseline_state(tasks)),
    decreases tasks.len(),
{
    if tasks.len() > 0 {
        lemma_base_keyed(tasks.drop_last());
    }
}

/// A replay keeps each task under its own id.
pub proof fn replay_keeps_keys(tasks: Seq<TaskV>, events: Seq<EventV>, done: Seq<char>)
    ensures
        keyed_by_id(engine::replay(engine::baseline_state(tasks), events, done)),
    decreases events.len(),
{
    if events.len() == 0 {
        lemma_base_keyed(tasks);
    } else {
        replay_keeps_keys(tasks, events.drop_last(), done);
    }
}

/// The tasks of a state in the order of their ids.
pub open spec fn listed_tasks(s: StateV, ids: Seq<Seq<char>>) -> Seq<TaskV> {
    ids.map_values(|id: Seq<char>| s[id])
}

/// A state is the baseline of its listed tasks.
proof fn lemma_listed(s: StateV, ids: Seq<Seq<char>>)
    requires
        keyed_by_id(s),
        ids.no_duplicates(),
        forall|i: int| 0 <= i < ids.len() ==> s.contains_key(#[trigger] ids[i]),
    ensures
        engine::baseline_state(listed_tasks(s, ids)) == s.restrict(ids.to_set()),
    decreases ids.len(),
{
    let tasks = listed_tasks(s, ids);
    if ids.len() == 0 {
        assert(s.restrict(ids.to_set()) =~= Map::<Seq<char>, TaskV>::empty());
    } else {
        let fewer = ids.drop_last();
        let last = ids.last();
        assert forall|i: int| 0 <= i < fewer.len() implies s.contains_key(#[trigger] fewer[i]) by {
            assert(fewer[i] == ids[i]);
        }
        lemma_listed(s, fewer);
        assert(tasks.drop_last() =~= listed_tasks(s, fewer));
        assert(s.contains_key(ids[ids.len() - 1]));
        assert(tasks.last() == s[last]);
        assert forall|k: Seq<char>| ids.to_set().contains(k) <==> fewer.to_set().contains(k) || k
            == last by {
            strmap::lemma_contains_last(ids, k);
        }
        assert(engine::baseline_state(tasks) =~= s.restrict(ids.to_set()));
    }
}

fn list_tasks_of(state: &StrMap<TaskState>) -> (r: Vec<TaskState>)
    ensures
        r.deep_view() == listed_tasks(state@, strmap::sorted_of(state@.dom())),
{
    let n = state.len();
    let ghost keys = state.keys_view();
    let mut out: Vec<TaskState> = Vec::new();
    let mut i: usize = 0;
    while i < n
        invariant
            i <= n,
            n == keys.len(),
            keys == state.keys_view(),
            out.len() == i,
            forall|j: int| 0 <= j < i ==> (#[trigger] out@[j])@ == state@[keys[j]],
        decreases n - i,
    {
        out.push(state.value_at(i).copy());
        i += 1;
    }
    assert(out.deep_view() =~= listed_tasks(state@, keys));
    out
}

fn copy_range(events: &Vec<MutationEvent>, from: usize, to: usize) -> (r: Vec<MutationEvent>)
    requires
        from <= to <= events.len(),
    ensures
        r.deep_view() == events.deep_view().subrange(from as int, to as int),
{
    let ghost all = events.deep_view();
    let mut out: Vec<MutationEvent> = Vec::new();
    let mut i: usize = from;
    while i < to
        invariant
            from <= i <= to <= events.len(),
            all == events.deep_view(),
            out.len() == i - from,
            forall|j: int| 0 <= j < i - from ==> (#[trigger] out@[j])@ == all[from + j],
        decreases to - i,
    {
        assert(all[i as int] == events@[i as int]@);
        out.push(events[i].copy());
        i += 1;
    }
    assert(out.deep_view() =~= all.subrange(from as int, to as int));
    out
}

/// Folds the old part of the log into the baseline, as far as the policy lets
/// it. What the store says of its tasks stays as it was.
pub fn compact(store: &mut Store, cfg: &CompactionConfig, now: Timestamp) -> (r: CompactOutcome)
    ensures
        ({
            let log = old(store).log();
            let split = engine::split_point(log, cfg.keep_events as nat, cfg.keep_days, now);
            let folded = engine::replay(old(store).base(), log.take(split), old(store).done());
            &&& final(store).config == old(store).config
            &&& final(store).state() == old(store).state()
            &&& match r {
                CompactOutcome::NothingToDo { log_len, keep_events } => {
                    &&& split == 0
                    &&& log_len == log.len()
                    &&& keep_events == cfg.keep_events
                    &&& *final(store) == *old(store)
                },
                CompactOutcome::Compacted { folded: n, baseline_tasks, kept } => {
                    &&& split > 0
                    &&& n == split
                    &&& kept == log.len() - split
                    &&& baseline_tasks == final(store).baseline.len()
                    &&& final(store).log() == log.skip(split)
                    &&& final(store).baseline.deep_view() == listed_tasks(
                        folded,
                        strmap::sorted_of(folded.dom()),
                    )
                },
            }
        }),
{
    let ghost log = store.log();
    let ghost done = store.done();
    let split = Engine::retention_split(&store.mutations, cfg.keep_events, cfg.keep_days, now);
    if split == 0 {
        return CompactOutcome::NothingToDo {
            log_len: store.mutations.len(),
            keep_events: cfg.keep_events,
        };
    }
    proof {
        engine::retention_law(log, cfg.keep_events as nat, cfg.keep_days, now);
    }
    let n = store.mutations.len();
    let to_fold = copy_range(&store.mutations, 0, split);
    let to_keep = copy_range(&store.mutations, split, n);
    assert(to_fold.deep_view() =~= log.take(split as int));
    assert(to_keep.deep_view() =~= log.skip(split as int));
    let folded = store::materialize(&store.config, &store.baseline, &to_fold);
    let size = folded.len();
    let baseline = list_tasks_of(&folded);
    proof {
        let ids = strmap::sorted_of(folded@.dom());
        strmap::lemma_ascending_distinct(ids);
        replay_keeps_keys(store.baseline.deep_view(), log.take(split as int), done);
        assert forall|i: int| 0 <= i < ids.len() implies folded@.contains_key(#[trigger] ids[i]) by {
            assert(ids.to_set().contains(ids[i]));
        }
        lemma_listed(folded@, ids);
        assert(folded@.restrict(ids.to_set()) =~= folded@);
        engine::replay_concat(store.base(), log.take(split as int), log.skip(split as int), done);
        assert(log =~= log.take(split as int) + log.skip(split as int));
    }
    let baseline_tasks = baseline.len();
    let kept = to_keep.len();
    store.baseline = baseline;
    store.mutations = to_keep;
    CompactOutcome::Compacted { folded: split, baseline_tasks, kept }
}

/// A baseline that is made of tasks holds these tasks: read back, they are the
/// tasks that were folded.
pub proof fn baselines_read_back(s: StateV)
    requires
        s.dom().finite(),
        keyed_by_id(s),
    ensures
        engine::baseline_state(listed_tasks(s, strmap::sorted_of(s.dom()))) == s,
{
    let ids = strmap::sorted_of(s.dom());
    strmap::sorted_of_finite(s.dom());
    strmap::lemma_ascending_distinct(ids);
    assert forall|i: int| 0 <= i < ids.len() implies s.contains_key(#[trigger] ids[i]) by {
        assert(ids.contains(ids[i]));
        assert(ids.to_set().contains(ids[i]));
    }
    lemma_listed(s, ids);
    let back = engine::baseline_state(listed_tasks(s, ids));
    assert(back =~= s);
}

} // verus!
