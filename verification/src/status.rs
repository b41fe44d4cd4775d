//! Counts over all tasks.

use crate::config::WorkflowConfig;
use crate::engine;
use crate::graph;
use crate::json::{self, JsonV};
use crate::model::{self, FieldsV, StateV, TaskState};
use crate::reach;
use crate::read::{self, SchemaReading, Warning};
use crate::store::Store;
use crate::strmap::{self, StrMap, StrSet};
use vstd::prelude::*;

verus! {

/// How many tasks there are: in all, under each status, without one, and ready,
/// blocked and closed.
pub struct StatusSummary {
    pub total: usize,
    pub by_status: StrMap<usize>,
    pub no_status: usize,
    pub ready: usize,
    pub blocked: usize,
    pub closed: usize,
}

/// The counts, the number of the last event, and the warnings of the read.
pub struct StatusOutcome {
    pub summary: StatusSummary,
    pub seq: u64,
    pub warnings: Vec<Warning>,
}

/// The status that a task is counted under.
pub open spec fn status_key(fields: FieldsV, field: Seq<char>) -> Option<Seq<char>> {
    if fields.contains_key(field) {
        Some(engine::plain_text(fields[field]))
    } else {
        None
    }
}

/// The tasks counted under a status, or without one.
pub open spec fn with_status(
    s: StateV,
    field: Seq<char>,
    key: Option<Seq<char>>,
) -> Set<Seq<char>> {
    Set::new(|id: Seq<char>| s.contains_key(id) && status_key(s[id].custom_fields, field) == key)
}

/// The tasks that are done.
pub open spec fn closed_ids(s: StateV, field: Seq<char>, done: Seq<char>) -> Set<Seq<char>> {
    Set::new(|id: Seq<char>| graph::done_task(s, id, field, done))
}

/// The tasks that are ready.
pub open spec fn ready_ids(
    s: StateV,
    field: Seq<char>,
    done: Seq<char>,
    blockers: Set<Seq<char>>,
) -> Set<Seq<char>> {
    Set::new(|id: Seq<char>| graph::ready_task(s, id, field, done, blockers))
}

/// The open tasks that wait for an open one.
pub open spec fn blocked_ids(
    s: StateV,
    field: Seq<char>,
    done: Seq<char>,
    blockers: Set<Seq<char>>,
) -> Set<Seq<char>> {
    Set::new(
        |id: Seq<char>|
            graph::open_task(s, id, field, done) && graph::blocked_task(
                s,
                id,
                field,
                done,
                blockers,
            ),
    )
}

/// Whether the counts are those of a state.
pub open spec fn summarizes(
    sum: StatusSummary,
    s: StateV,
    field: Seq<char>,
    done: Seq<char>,
    blockers: Set<Seq<char>>,
) -> bool {
    &&& sum.total == s.dom().len()
    &&& forall|k: Seq<char>| #[trigger]
        sum.by_status@.contains_key(k) <==> with_status(s, field, Some(k)).len() > 0
    &&& forall|k: Seq<char>| #[trigger]
        sum.by_status@.contains_key(k) ==> sum.by_status@[k] == with_status(
            s,
            field,
            Some(k),
        ).len()
    &&& sum.no_status == with_status(s, field, None).len()
    &&& sum.ready == ready_ids(s, field, done, blockers).len()
    &&& sum.blocked == blocked_ids(s, field, done, blockers).len()
    &&& sum.closed == closed_ids(s, field, done).len()
}

/// The first `n` keys that are members of a set.
spec fn among(keys: Seq<Seq<char>>, n: int, set: Set<Seq<char>>) -> Set<Seq<char>> {
    Set::new(|k: Seq<char>| keys.take(n).contains(k) && set.contains(k))
}

proof fn lemma_among(keys: Seq<Seq<char>>, n: int, set: Set<Seq<char>>)
    requires
        keys.no_duplicates(),
        0 <= n <= keys.len(),
    ensures
        among(keys, n, set).finite(),
        among(keys, n, set).len() <= n,
        n == 0 ==> among(keys, n, set) == Set::<Seq<char>>::empty(),
        n < keys.len() ==> among(keys, n + 1, set) == if set.contains(keys[n]) {
            among(keys, n, set).insert(keys[n])
        } else {
            among(keys, n, set)
        },
        n < keys.len() ==> !among(keys, n, set).contains(keys[n]),
    decreases n,
{
    if n == 0 {
        assert(among(keys, n, set) =~= Set::<Seq<char>>::empty());
    } else {
        lemma_among(keys, n - 1, set);
    }
    if n < keys.len() {
        let more = if set.contains(keys[n]) {
            among(keys, n, set).insert(keys[n])
        } else {
            among(keys, n, set)
        };
        assert forall|k: Seq<char>| #[trigger] among(keys, n + 1, set).contains(k) <==> more.contains(k) by {
            strmap::lemma_take_one_more(keys, n, k);
        }
        assert(among(keys, n + 1, set) =~= more);
        if keys.take(n).contains(keys[n]) {
            let i = choose|i: int| 0 <= i < n && keys.take(n)[i] == keys[n];
            assert(keys[i] == keys[n]);
        }
    }
}

proof fn lemma_among_all(keys: Seq<Seq<char>>, set: Set<Seq<char>>)
    requires
        keys.no_duplicates(),
        forall|k: Seq<char>| #[trigger] set.contains(k) ==> keys.contains(k),
    ensures
        among(keys, keys.len() as int, set) == set,
        set.finite(),
        set.len() <= keys.len(),
{
    assert(keys.take(keys.len() as int) =~= keys);
    assert(among(keys, keys.len() as int, set) =~= set);
    lemma_among(keys, keys.len() as int, set);
}

/// Ready, blocked and closed tasks make up all tasks, and none is counted twice.
pub proof fn counts_partition(
    s: StateV,
    field: Seq<char>,
    done: Seq<char>,
    blockers: Set<Seq<char>>,
)
    requires
        s.dom().finite(),
    ensures
        ready_ids(s, field, done, blockers).len() + blocked_ids(s, field, done, blockers).len()
            + closed_ids(s, field, done).len() == s.dom().len(),
{
    let r = ready_ids(s, field, done, blockers);
    let b = blocked_ids(s, field, done, blockers);
    let c = closed_ids(s, field, done);
    assert(r.union(b).union(c) =~= s.dom());
    vstd::set_lib::lemma_len_subset(r, s.dom());
    vstd::set_lib::lemma_len_subset(b, s.dom());
    vstd::set_lib::lemma_len_subset(c, s.dom());
    assert(r.disjoint(b));
    assert(r.union(b).disjoint(c));
    vstd::set_lib::lemma_set_disjoint_lens(r, b);
    vstd::set_lib::lemma_set_disjoint_lens(r.union(b), c);
}

fn count_statuses(state: &StrMap<TaskState>, field: &str) -> (r: (StrMap<usize>, usize))
    ensures
        forall|k: Seq<char>| #[trigger]
            r.0@.contains_key(k) <==> with_status(state@, field@, Some(k)).len() > 0,
        forall|k: Seq<char>| #[trigger]
            r.0@.contains_key(k) ==> r.0@[k] == with_status(state@, field@, Some(k)).len(),
        r.1 == with_status(state@, field@, None).len(),
{
    let n = state.len();
    let ghost keys = state.keys_view();
    let ghost s = state@;
    let mut by: StrMap<usize> = StrMap::new();
    let mut none: usize = 0;
    let mut i: usize = 0;
    proof {
        strmap::lemma_ascending_distinct(keys);
        assert forall|k: Seq<char>| among(keys, 0, #[trigger] with_status(s, field@, Some(k))).len() == 0 by {
            lemma_among(keys, 0, with_status(s, field@, Some(k)));
        }
        lemma_among(keys, 0, with_status(s, field@, None));
    }
    while i < n
        invariant
            i <= n,
            n == keys.len(),
            keys == state.keys_view(),
            keys.no_duplicates(),
            s == state@,
            none <= i,
            forall|k: Seq<char>| #[trigger]
                by@.contains_key(k) <==> among(keys, i as int, with_status(s, field@, Some(k))).len()
                    > 0,
            forall|k: Seq<char>| #[trigger]
                by@.contains_key(k) ==> by@[k] == among(
                    keys,
                    i as int,
                    with_status(s, field@, Some(k)),
                ).len(),
            none == among(keys, i as int, with_status(s, field@, None)).len(),
        decreases n - i,
    {
        let task = state.value_at(i);
        let ghost id = keys[i as int];
        let ghost was = by@;
        let ghost key = status_key(task@.custom_fields, field@);
        match task.custom_fields.get(field) {
            Some(v) => {
                let k = engine::append_text(v);
                proof {
                    lemma_among(keys, i as int, with_status(s, field@, Some(k@)));
                }
                let c = match by.get(k.as_str()) {
                    Some(c) => *c,
                    None => 0,
                };
                by.insert(k, c + 1);
            },
            None => {
                none += 1;
            },
        }
        proof {
            lemma_among(keys, i as int, with_status(s, field@, None));
            assert(s.contains_key(id));
            assert forall|k: Seq<char>| (#[trigger] by@.contains_key(k) <==> among(
                keys,
                i as int + 1,
                with_status(s, field@, Some(k)),
            ).len() > 0) && (by@.contains_key(k) ==> by@[k] == among(
                keys,
                i as int + 1,
                with_status(s, field@, Some(k)),
            ).len()) by {
                lemma_among(keys, i as int, with_status(s, field@, Some(k)));
                assert(was.contains_key(k) <==> among(
                    keys,
                    i as int,
                    with_status(s, field@, Some(k)),
                ).len() > 0);
                assert(with_status(s, field@, Some(k)).contains(id) <==> key == Some(k));
            }
        }
        i += 1;
    }
    proof {
        assert forall|key: Option<Seq<char>>, x: Seq<char>| #[trigger]
            with_status(s, field@, key).contains(x) implies keys.contains(x) by {
            assert(keys.to_set().contains(x) == keys.contains(x));
        }
        assert forall|k: Seq<char>| among(
            keys,
            n as int,
            #[trigger] with_status(s, field@, Some(k)),
        ) == with_status(s, field@, Some(k)) by {
            lemma_among_all(keys, with_status(s, field@, Some(k)));
        }
        lemma_among_all(keys, with_status(s, field@, None));
    }
    (by, none)
}

fn count_done_blocked(
    state: &StrMap<TaskState>,
    field: &str,
    done: &str,
    blockers: &StrSet,
) -> (r: (usize, usize))
    ensures
        r.0 == closed_ids(state@, field@, done@).len(),
        r.1 == blocked_ids(state@, field@, done@, blockers@).len(),
{
    let n = state.len();
    let ghost keys = state.keys_view();
    let ghost s = state@;
    let ghost cs = closed_ids(s, field@, done@);
    let ghost bs = blocked_ids(s, field@, done@, blockers@);
    let mut closed: usize = 0;
    let mut blocked: usize = 0;
    let mut i: usize = 0;
    proof {
        strmap::lemma_ascending_distinct(keys);
        lemma_among(keys, 0, cs);
        lemma_among(keys, 0, bs);
    }
    while i < n
        invariant
            i <= n,
            n == keys.len(),
            keys == state.keys_view(),
            keys.no_duplicates(),
            s == state@,
            cs == closed_ids(s, field@, done@),
            bs == blocked_ids(s, field@, done@, blockers@),
            closed <= i,
            blocked <= i,
            closed == among(keys, i as int, cs).len(),
            blocked == among(keys, i as int, bs).len(),
        decreases n - i,
    {
        let task = state.value_at(i);
        let id = state.key_at(i);
        proof {
            lemma_among(keys, i as int, cs);
            lemma_among(keys, i as int, bs);
        }
        if model::is_done(task, field, done) {
            closed += 1;
        } else if graph::is_blocked(state, id.as_str(), task, field, done, blockers) {
            blocked += 1;
        }
        i += 1;
    }
    proof {
        assert forall|x: Seq<char>| #[trigger] cs.contains(x) implies keys.contains(x) by {
            assert(keys.to_set().contains(x) == keys.contains(x));
        }
        assert forall|x: Seq<char>| #[trigger] bs.contains(x) implies keys.contains(x) by {
            assert(keys.to_set().contains(x) == keys.contains(x));
        }
        lemma_among_all(keys, cs);
        lemma_among_all(keys, bs);
    }
    (closed, blocked)
}

/// Counts the tasks of a state. A cycle in the blocker graph is an error.
pub fn status_summary(
    state: &StrMap<TaskState>,
    workflow: &WorkflowConfig,
    blockers: &StrSet,
) -> (r: Result<StatusSummary, String>)
    ensures
        r is Err <==> reach::cyclic(graph::dep_edges(state@, blockers@)),
        match r {
            Ok(sum) => summarizes(
                sum,
                state@,
                workflow.status_field@,
                workflow.done_status@,
                blockers@,
            ) && sum.ready + sum.blocked + sum.closed == sum.total,
            Err(m) => m@ == graph::cycle_message(),
        },
{
    let field = workflow.status_field.as_str();
    let done = workflow.done_status.as_str();
    let (by_status, no_status) = count_statuses(state, field);
    let ready_list = match graph::ready_tasks(state, field, done, blockers) {
        Ok(v) => v,
        Err(m) => {
            return Err(m);
        },
    };
    let (closed, blocked) = count_done_blocked(state, field, done, blockers);
    let total = state.len();
    proof {
        let keys = state.keys_view();
        strmap::lemma_ascending_distinct(keys);
        keys.unique_seq_to_set();
        let ready = ready_ids(state@, field@, done@, blockers@);
        let listed = ready_list.deep_view();
        listed.unique_seq_to_set();
        assert(listed.to_set() =~= ready);
        counts_partition(state@, field@, done@, blockers@);
    }
    Ok(
        StatusSummary {
            total,
            by_status,
            no_status,
            ready: ready_list.len(),
            blocked,
            closed,
        },
    )
}

/// Reads a store and counts its tasks.
pub fn status(store: &Store, schema: &SchemaReading) -> (r: Result<StatusOutcome, String>)
    ensures
        ({
            let s = store.shown(*schema);
            &&& r is Err <==> reach::cyclic(graph::dep_edges(s, store.gates()))
            &&& match r {
                Ok(o) => {
                    &&& summarizes(
                        o.summary,
                        s,
                        store.config.workflow.status_field@,
                        store.config.workflow.done_status@,
                        store.gates(),
                    )
                    &&& o.seq == read::last_number(store.log())
                    &&& o.warnings.deep_view() == store.warned(*schema)
                },
                Err(m) => m@ == graph::cycle_message(),
            }
        }),
{
    let session = read::read(store, schema);
    let blockers = store.config.relationships.blocker_types();
    match status_summary(&session.state, &store.config.workflow, &blockers) {
        Ok(summary) => Ok(
            StatusOutcome { summary, seq: session.seq, warnings: session.warnings },
        ),
        Err(m) => Err(m),
    }
}

/// Whether the summary counts tasks: all of them; those with the status `k`, and
/// those without one; the done ones; and of the others those that wait for a task
/// that is not done, and those that do not.
pub open spec fn counts_hold(
    sum: StatusSummary,
    s: StateV,
    field: Seq<char>,
    done: Seq<char>,
    blockers: Set<Seq<char>>,
    k: Seq<char>,
) -> bool {
    &&& sum.total == s.dom().len()
    &&& ({
        let those = Set::new(
            |id: Seq<char>|
                s.contains_key(id) && s[id].custom_fields.contains_key(field) && (match s[id].custom_fields[field] {
                    JsonV::Str(x) => x == k,
                    v => json::compact(v) == k,
                }),
        );
        &&& sum.by_status@.contains_key(k) <==> those.len() > 0
        &&& sum.by_status@.contains_key(k) ==> sum.by_status@[k] == those.len()
    })
    &&& sum.no_status == Set::new(
        |id: Seq<char>| s.contains_key(id) && !s[id].custom_fields.contains_key(field),
    ).len()
    &&& sum.closed == Set::new(
        |id: Seq<char>| graph::finished(s, id, field, done),
    ).len()
    &&& sum.blocked == Set::new(
        |id: Seq<char>|
            s.contains_key(id) && !graph::finished(s, id, field, done) && exists|
                b: Seq<char>,
            | #[trigger]
                graph::awaits(s, id, blockers, b) && !graph::finished(s, b, field, done),
    ).len()
    &&& sum.ready == Set::new(
        |id: Seq<char>|
            s.contains_key(id) && !graph::finished(s, id, field, done) && forall|
                b: Seq<char>,
            | #[trigger]
                graph::awaits(s, id, blockers, b) ==> graph::finished(s, b, field, done),
    ).len()
}

pub(crate) proof fn lemma_counts_hold(
    sum: StatusSummary,
    s: StateV,
    field: Seq<char>,
    done: Seq<char>,
    blockers: Set<Seq<char>>,
    k: Seq<char>,
)
    requires
        summarizes(sum, s, field, done, blockers),
    ensures
        counts_hold(sum, s, field, done, blockers, k),
{
    assert(with_status(s, field, Some(k)) =~= Set::new(
        |id: Seq<char>|
            s.contains_key(id) && s[id].custom_fields.contains_key(field) && (match s[id].custom_fields[field] {
                JsonV::Str(x) => x == k,
                v => json::compact(v) == k,
            }),
    ));
    assert(with_status(s, field, None) =~= Set::new(
        |id: Seq<char>| s.contains_key(id) && !s[id].custom_fields.contains_key(field),
    ));
    assert(closed_ids(s, field, done) =~= Set::new(
        |id: Seq<char>| graph::finished(s, id, field, done),
    ));
    assert forall|id: Seq<char>| #[trigger] blocked_ids(s, field, done, blockers).contains(id)
        <==> s.contains_key(id) && !graph::finished(s, id, field, done) && exists|
            b: Seq<char>,
        | #[trigger]
            graph::awaits(s, id, blockers, b) && !graph::finished(s, b, field, done) by {
        graph::tasks_wait_for_open_tasks(s, id, field, done, blockers);
    }
    assert(blocked_ids(s, field, done, blockers) =~= Set::new(
        |id: Seq<char>|
            s.contains_key(id) && !graph::finished(s, id, field, done) && exists|
                b: Seq<char>,
            | #[trigger]
                graph::awaits(s, id, blockers, b) && !graph::finished(s, b, field, done),
    ));
    assert forall|id: Seq<char>| #[trigger] ready_ids(s, field, done, blockers).contains(id)
        <==> s.contains_key(id) && !graph::finished(s, id, field, done) && forall|
            b: Seq<char>,
        | #[trigger]
            graph::awaits(s, id, blockers, b) ==> graph::finished(s, b, field, done) by {
        graph::tasks_wait_for_open_tasks(s, id, field, done, blockers);
    }
    assert(ready_ids(s, field, done, blockers) =~= Set::new(
        |id: Seq<char>|
            s.contains_key(id) && !graph::finished(s, id, field, done) && forall|
                b: Seq<char>,
            | #[trigger]
                graph::awaits(s, id, blockers, b) ==> graph::finished(s, b, field, done),
    ));
}

/// The summary counts tasks: all of them; those with each status, and those
/// without one; the done ones; and of the others those that wait for a task that
/// is not done, and those that do not.
pub proof fn summaries_count_tasks(
    state: StrMap<TaskState>,
    workflow: WorkflowConfig,
    blockers: StrSet,
    sum: StatusSummary,
    k: Seq<char>,
)
    requires
        call_ensures(
            status_summary,
            (&state, &workflow, &blockers),
            Ok::<StatusSummary, String>(sum),
        ),
    ensures
        counts_hold(
            sum,
            state@,
            workflow.status_field@,
            workflow.done_status@,
            blockers@,
            k,
        ),
{
    lemma_counts_hold(
        sum,
        state@,
        workflow.status_field@,
        workflow.done_status@,
        blockers@,
        k,
    );
}

} // verus!
