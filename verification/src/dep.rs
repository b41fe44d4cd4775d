//! Views of the blocker graph: its cycles, and the way to a goal.

use crate::config;
use crate::engine;
use crate::graph;
use crate::model::{self, FieldsV, StateV, TaskState};
use crate::reach;
use crate::read::{self, SchemaReading, Warning, WarningV};
use crate::store::Store;
use crate::strmap::{self, Data, StrMap, StrSet};
use crate::text;
use vstd::prelude::*;

verus! {

/// The cycles of the blocker graph, and the warnings of the read.
pub struct CyclesOutcome {
    pub cycles: Vec<Vec<String>>,
    pub warnings: Vec<Warning>,
}

impl Store {
    /// The tasks as they are displayed.
    pub open spec fn shown(&self, schema: SchemaReading) -> StateV {
        read::shaped_state(self.state(), schema.defaults@, self.config)
    }

    /// The warnings of a read.
    pub open spec fn warned(&self, schema: SchemaReading) -> Seq<WarningV> {
        read::warnings_of(
            engine::orphans(self.base(), self.log(), self.done()).len(),
            self.config.workflow.warn_nonconforming,
            schema.report.deep_view(),
        )
    }

    /// The relationship types that gate readiness.
    pub open spec fn gates(&self) -> Set<Seq<char>> {
        config::gating_types(self.config.relationships.types@)
    }

    /// The relationship types of subtasks.
    pub open spec fn hierarchy(&self) -> Set<Seq<char>> {
        config::subtask_types(self.config.relationships.types@)
    }
}

/// Reports the cycles of the blocker graph.
pub fn cycles(store: &Store, schema: &SchemaReading) -> (r: CyclesOutcome)
    ensures
        graph::is_cycle_list(store.shown(*schema), store.gates(), r.cycles.deep_view()),
        r.cycles.deep_view() == graph::cycle_list(store.shown(*schema), store.gates()),
        r.cycles.len() == 0 <==> !reach::cyclic(
            graph::dep_edges(store.shown(*schema), store.gates()),
        ),
        r.warnings.deep_view() == store.warned(*schema),
{
    let session = read::read(store, schema);
    let blockers = store.config.relationships.blocker_types();
    CyclesOutcome {
        cycles: graph::dependency_cycles(&session.state, &blockers),
        warnings: session.warnings,
    }
}

/// A remaining prerequisite and its status.
pub struct PlanStep {
    pub id: String,
    pub status: String,
}

/// The remaining prerequisites of a goal in order, how many there are in all,
/// whether only the longest chain of them is shown, and the warnings of the
/// read.
pub struct PlanOutcome {
    pub steps: Vec<PlanStep>,
    pub total: usize,
    pub critical: bool,
    pub warnings: Vec<Warning>,
}

/// The goals and everything that they wait for.
pub open spec fn closure(
    es: Set<(Seq<char>, Seq<char>)>,
    goals: Seq<Seq<char>>,
) -> Set<Seq<char>> {
    Set::new(
        |x: Seq<char>|
            goals.contains(x) || exists|g: Seq<char>| #[trigger]
                goals.contains(g) && reach::reaches(es, g, x),
    )
}

/// The tasks that the goals need.
pub open spec fn needed(s: StateV, blockers: Set<Seq<char>>, goals: Seq<Seq<char>>) -> StateV {
    s.restrict(closure(graph::dep_edges(s, blockers), goals))
}

/// The first goal, in order, that is no task.
pub open spec fn first_missing(s: StateV, goals: Seq<Seq<char>>) -> Option<Seq<char>>
    decreases goals.len(),
{
    if goals.len() == 0 {
        None
    } else if !s.contains_key(goals[0]) {
        Some(goals[0])
    } else {
        first_missing(s, goals.drop_first())
    }
}

/// The message about a task that does not exist.
pub open spec fn no_task(id: Seq<char>) -> Seq<char> {
    "no task `"@ + id + "`"@
}

/// Finds the first id that is no task.
pub fn find_missing(state: &StrMap<TaskState>, ids: &Vec<String>) -> (r: Option<String>)
    ensures
        r.deep_view() == first_missing(state@, ids.deep_view()),
        r is None ==> forall|i: int|
            0 <= i < ids.len() ==> state@.contains_key(#[trigger] ids.deep_view()[i]),
{
    let ghost all = ids.deep_view();
    let mut i: usize = 0;
    assert(all.skip(0) =~= all);
    while i < ids.len()
        invariant
            i <= ids.len(),
            all == ids.deep_view(),
            first_missing(state@, all) == first_missing(state@, all.skip(i as int)),
            forall|j: int| 0 <= j < i ==> state@.contains_key(#[trigger] all[j]),
        decreases ids.len() - i,
    {
        let ghost left = all.skip(i as int);
        assert(left[0] == ids@[i as int]@);
        assert(left.drop_first() =~= all.skip(i as int + 1));
        if !state.contains_key(ids[i].as_str()) {
            return Some(ids[i].clone());
        }
        i += 1;
    }
    None
}

fn needed_tasks(state: &StrMap<TaskState>, blockers: &StrSet, goals: &Vec<String>) -> (r: StrMap<
    TaskState,
>)
    requires
        forall|i: int| 0 <= i < goals.len() ==> state@.contains_key(#[trigger] goals.deep_view()[i]),
    ensures
        r@ == needed(state@, blockers@, goals.deep_view()),
{
    let adj = graph::prerequisites(state, blockers);
    let n = state.len();
    let ghost keys = state.keys_view();
    let ghost all = goals.deep_view();
    let ghost es = graph::dep_edges(state@, blockers@);
    let ghost ix = reach::adjacency(adj.deep_view());
    let mut want: Vec<bool> = Vec::new();
    let mut k: usize = 0;
    while k < n
        invariant
            k <= n,
            want.len() == k,
            forall|m: int| 0 <= m < k ==> !(#[trigger] want@[m]),
        decreases n - k,
    {
        want.push(false);
        k += 1;
    }
    let mut g: usize = 0;
    while g < goals.len()
        invariant
            g <= goals.len(),
            n == keys.len(),
            keys == state.keys_view(),
            keys.to_set() == state@.dom(),
            adj.len() == n,
            want.len() == n,
            all == goals.deep_view(),
            ix == reach::adjacency(adj.deep_view()),
            forall|i: int, j: int|
                0 <= i < adj.len() && 0 <= j < adj[i].len() ==> #[trigger] adj[i][j] < adj.len(),
            reach::names_edges(ix, keys, es),
            forall|i: int| 0 <= i < goals.len() ==> state@.contains_key(#[trigger] all[i]),
            forall|m: int|
                0 <= m < n ==> (#[trigger] want@[m] <==> exists|h: int|
                    0 <= h < g && (#[trigger] all[h] == keys[m] || reach::reaches(
                        es,
                        all[h],
                        keys[m],
                    ))),
        decreases goals.len() - g,
    {
        let goal = goals[g].as_str();
        assert(all[g as int] == goal@);
        match state.index_of_key(goal) {
            Some(start) => {
                let found = reach::reachable(&adj, start);
                let mut m: usize = 0;
                let ghost before = want@;
                while m < n
                    invariant
                        m <= n,
                        n == keys.len(),
                        start < n,
                        found.len() == n,
                        want.len() == n,
                        before.len() == n,
                        forall|j: int|
                            0 <= j < m ==> #[trigger] want@[j] == (before[j] || found@[j] || j
                                == start),
                        forall|j: int| m <= j < n ==> #[trigger] want@[j] == before[j],
                    decreases n - m,
                {
                    if found[m] || m == start {
                        want.set(m, true);
                    }
                    m += 1;
                }
                proof {
                    assert forall|m: int| 0 <= m < n implies (#[trigger] want@[m] <==> exists|h: int|
                        0 <= h < g + 1 && (#[trigger] all[h] == keys[m] || reach::reaches(
                            es,
                            all[h],
                            keys[m],
                        ))) by {
                        assert(before[m] <==> exists|h: int|
                            0 <= h < g && (#[trigger] all[h] == keys[m] || reach::reaches(
                                es,
                                all[h],
                                keys[m],
                            )));
                        reach::lemma_names_reaches(ix, keys, es, start, m as usize);
                        assert(found@[m as usize as int] <==> reach::reaches(ix, start, m as usize));
                        if m != start && all[g as int] == keys[m] {
                            assert(keys[m] == keys[start as int]);
                        }
                        if want@[m] && !before[m] {
                            assert(all[g as int] == keys[m] || reach::reaches(
                                es,
                                all[g as int],
                                keys[m],
                            ));
                        }
                    }
                }
            },
            None => {},
        }
        g += 1;
    }
    let mut out: StrMap<TaskState> = StrMap::new();
    let mut i: usize = 0;
    assert(keys.take(0) =~= Seq::<Seq<char>>::empty());
    while i < n
        invariant
            i <= n,
            n == keys.len(),
            n == want.len(),
            keys == state.keys_view(),
            keys.no_duplicates(),
            forall|k: Seq<char>| #[trigger]
                out@.contains_key(k) <==> exists|m: int|
                    0 <= m < i && want@[m] && #[trigger] keys[m] == k,
            forall|k: Seq<char>| #[trigger] out@.contains_key(k) ==> out@[k] == state@[k],
        decreases n - i,
    {
        let ghost had = out@;
        if want[i] {
            let id = state.key_at(i);
            out.insert(id.clone(), state.value_at(i).copy());
        }
        proof {
            assert forall|k: Seq<char>| #[trigger] out@.contains_key(k) <==> exists|m: int|
                0 <= m < i + 1 && want@[m] && #[trigger] keys[m] == k by {
                assert(had.contains_key(k) <==> exists|m: int|
                    0 <= m < i && want@[m] && #[trigger] keys[m] == k);
                if want@[i as int] && k == keys[i as int] {
                    assert(keys[i as int] == k);
                }
            }
            assert forall|k: Seq<char>| #[trigger] out@.contains_key(k) implies out@[k] == state@[k] by {
                if !(want@[i as int] && k == keys[i as int]) {
                    assert(had.contains_key(k));
                }
            }
        }
        i += 1;
    }
    proof {
        let inside = closure(es, all);
        assert forall|k: Seq<char>| #[trigger] out@.contains_key(k) <==> state@.contains_key(k)
            && inside.contains(k) by {
            assert(keys.to_set().contains(k) == keys.contains(k));
            if out@.contains_key(k) {
                let m = choose|m: int| 0 <= m < n && want@[m] && #[trigger] keys[m] == k;
                let h = choose|h: int|
                    0 <= h < goals.len() && (#[trigger] all[h] == keys[m] || reach::reaches(
                        es,
                        all[h],
                        keys[m],
                    ));
                assert(all.contains(all[h]));
            }
            if state@.contains_key(k) && inside.contains(k) {
                let m = choose|m: int| 0 <= m < keys.len() && keys[m] == k;
                if all.contains(k) {
                    let h = choose|h: int| 0 <= h < all.len() && all[h] == k;
                    assert(all[h] == keys[m]);
                } else {
                    let x = choose|x: Seq<char>| #[trigger] all.contains(x) && reach::reaches(es, x, k);
                    let h = choose|h: int| 0 <= h < all.len() && all[h] == x;
                    assert(reach::reaches(es, all[h], keys[m]));
                }
                assert(want@[m]);
            }
        }
        assert(out@ =~= needed(state@, blockers@, all));
    }
    out
}

/// The status of a task as text: a text as it is, anything else as compact
/// JSON, and nothing where it has none.
pub open spec fn status_text(fields: FieldsV, field: Seq<char>) -> Seq<char> {
    if fields.contains_key(field) {
        engine::plain_text(fields[field])
    } else {
        Seq::empty()
    }
}

fn status_of(task: Option<&TaskState>, field: &str) -> (r: String)
    ensures
        r@ == match task {
            Some(t) => status_text(t@.custom_fields, field@),
            None => Seq::empty(),
        },
{
    proof {
        reveal_strlit("");
    }
    match task {
        Some(t) => match t.custom_fields.get(field) {
            Some(v) => engine::append_text(v),
            None => {
                assert(""@ =~= Seq::<char>::empty());
                String::from_str("")
            },
        },
        None => {
            assert(""@ =~= Seq::<char>::empty());
            String::from_str("")
        },
    }
}

/// Whether `t` ends a chain of `n` tasks, each waiting for the one before it.
pub open spec fn ends_chain(es: Set<(Seq<char>, Seq<char>)>, t: Seq<char>, n: nat) -> bool
    decreases n,
{
    if n <= 1 {
        n == 1
    } else {
        exists|p: Seq<char>| #[trigger] es.contains((t, p)) && ends_chain(es, p, (n - 1) as nat)
    }
}

proof fn lemma_shorter_chain(es: Set<(Seq<char>, Seq<char>)>, t: Seq<char>, n: nat, m: nat)
    requires
        ends_chain(es, t, n),
        1 <= m <= n,
    ensures
        ends_chain(es, t, m),
    decreases n,
{
    if m > 1 {
        let p = choose|p: Seq<char>| #[trigger]
            es.contains((t, p)) && ends_chain(es, p, (n - 1) as nat);
        lemma_shorter_chain(es, p, (n - 1) as nat, (m - 1) as nat);
    }
}

/// The blocker edges between the given tasks.
pub open spec fn edges_among(
    s: StateV,
    blockers: Set<Seq<char>>,
    ids: Set<Seq<char>>,
) -> Set<(Seq<char>, Seq<char>)> {
    Set::new(
        |e: (Seq<char>, Seq<char>)|
            ids.contains(e.0) && ids.contains(e.1) && graph::dep_edges(s, blockers).contains(e),
    )
}

/// Whether `a` comes no later than `b`.
pub open spec fn text_le(a: Seq<char>, b: Seq<char>) -> bool {
    a == b || text::text_lt(a, b)
}

/// Whether `chain` is the longest chain among the given tasks: each member waits
/// for the one before it, no chain is longer, and where there is a choice the
/// smaller id is taken, from the end on. The chain of no tasks is empty.
pub open spec fn is_critical(
    chain: Seq<Seq<char>>,
    es: Set<(Seq<char>, Seq<char>)>,
    ids: Set<Seq<char>>,
) -> bool {
    &&& chain.len() == 0 ==> ids == Set::<Seq<char>>::empty()
    &&& chain.len() > 0 ==> ids.contains(chain.last())
    &&& forall|i: int|
        0 <= i < chain.len() ==> ends_chain(es, #[trigger] chain[i], (i + 1) as nat)
    &&& forall|i: int|
        0 <= i < chain.len() - 1 ==> es.contains((#[trigger] chain[i + 1], chain[i]))
    &&& forall|t: Seq<char>| #[trigger]
        ids.contains(t) ==> !ends_chain(es, t, chain.len() + 1) && (ends_chain(es, t, chain.len())
            ==> text_le(chain.last(), t))
    &&& forall|i: int, p: Seq<char>|
        0 <= i < chain.len() - 1 && #[trigger] es.contains((chain[i + 1], p)) && ends_chain(
            es,
            p,
            (i + 1) as nat,
        ) ==> text_le(chain[i], p)
}

/// The place of a text in a list.
pub fn place_in(v: &Vec<String>, x: &str) -> (r: Option<usize>)
    ensures
        match r {
            Some(i) => i < v.len() && v.deep_view()[i as int] == x@,
            None => !v.deep_view().contains(x@),
        },
{
    let ghost all = v.deep_view();
    let mut i: usize = 0;
    while i < v.len()
        invariant
            i <= v.len(),
            all == v.deep_view(),
            forall|j: int| 0 <= j < i ==> #[trigger] all[j] != x@,
        decreases v.len() - i,
    {
        if text::same_text(v[i].as_str(), x) {
            return Some(i);
        }
        i += 1;
    }
    None
}

/// What the search for the longest chain knows of one task: the length of the
/// longest chain that ends there, and the task before it on that chain.
spec fn known(
    rem: Seq<Seq<char>>,
    es: Set<(Seq<char>, Seq<char>)>,
    depth: Seq<usize>,
    pred: Seq<usize>,
    j: int,
) -> bool {
    let d = depth[j] as nat;
    &&& 1 <= d <= j + 1
    &&& ends_chain(es, rem[j], d)
    &&& !ends_chain(es, rem[j], d + 1)
    &&& d > 1 ==> pred[j] < j && depth[pred[j] as int] == d - 1 && es.contains(
        (rem[j], rem[pred[j] as int]),
    ) && forall|p: Seq<char>| #[trigger]
        es.contains((rem[j], p)) && ends_chain(es, p, (d - 1) as nat) ==> text_le(
            rem[pred[j] as int],
            p,
        )
}

/// The best prerequisite among the first `k` edges: the deepest, and of those
/// the one with the smallest id.
spec fn best_so_far(
    rem: Seq<Seq<char>>,
    depth: Seq<usize>,
    edges: Seq<(Seq<char>, Seq<char>)>,
    k: int,
    best: Option<usize>,
) -> bool {
    match best {
        None => forall|m: int|
            0 <= m < k ==> !rem.contains((#[trigger] edges[m]).0),
        Some(b) => b < depth.len() && (exists|m: int|
            0 <= m < k && (#[trigger] edges[m]).0 == rem[b as int]) && forall|m: int, j: int|
            0 <= m < k && 0 <= j < depth.len() && (#[trigger] edges[m]).0 == #[trigger] rem[j]
                ==> depth[j] <= depth[b as int] && (depth[j] == depth[b as int] ==> text_le(
                rem[b as int],
                rem[j],
            )),
    }
}

fn best_prerequisite(
    remaining: &Vec<String>,
    edges: &Vec<(String, String)>,
    depth: &Vec<usize>,
) -> (r: Option<usize>)
    requires
        depth.len() <= remaining.len(),
        remaining.deep_view().no_duplicates(),
        forall|m: int, j: int|
            0 <= m < edges.len() && 0 <= j < remaining.len() && (#[trigger] edges.deep_view()[m]).0
                == #[trigger] remaining.deep_view()[j] ==> j < depth.len(),
    ensures
        best_so_far(
            remaining.deep_view(),
            depth@,
            edges.deep_view(),
            edges.len() as int,
            r,
        ),
{
    let ghost rem = remaining.deep_view();
    let ghost all = edges.deep_view();
    let mut best: Option<usize> = None;
    let mut k: usize = 0;
    while k < edges.len()
        invariant
            k <= edges.len(),
            rem == remaining.deep_view(),
            all == edges.deep_view(),
            rem.no_duplicates(),
            depth.len() <= remaining.len(),
            forall|m: int, j: int|
                0 <= m < edges.len() && 0 <= j < remaining.len() && (#[trigger] all[m]).0
                    == #[trigger] rem[j] ==> j < depth.len(),
            best_so_far(rem, depth@, all, k as int, best),
        decreases edges.len() - k,
    {
        let target = edges[k].0.as_str();
        assert(all[k as int].0 == target@);
        let ghost was = best;
        match place_in(remaining, target) {
            None => {
                if let Some(b) = best {
                    assert(best_so_far(rem, depth@, all, k as int + 1, best)) by {
                        assert forall|m: int, j: int|
                            0 <= m < k + 1 && 0 <= j < depth.len() && (#[trigger] all[m]).0
                                == #[trigger] rem[j] implies depth[j] <= depth[b as int] && (depth[j]
                            == depth[b as int] ==> text_le(rem[b as int], rem[j])) by {
                            if m == k {
                                assert(rem.contains(rem[j]));
                            }
                        }
                    }
                }
            },
            Some(j) => {
                assert(rem[j as int] == all[k as int].0);
                assert(j < depth.len());
                let keep = match best {
                    None => false,
                    Some(b) => depth[b] > depth[j] || (depth[b] == depth[j] && text::text_before(
                        remaining[b].as_str(),
                        target,
                    )),
                };
                if !keep {
                    best = Some(j);
                }
                proof {
                    let b = best->0;
                    assert forall|m: int, x: int|
                        0 <= m < k + 1 && 0 <= x < depth.len() && (#[trigger] all[m]).0
                            == #[trigger] rem[x] implies depth[x] <= depth[b as int] && (depth[x]
                        == depth[b as int] ==> text_le(rem[b as int], rem[x])) by {
                        if m == k {
                            assert(x == j);
                        } else {
                            if was is None {
                                assert(rem.contains(rem[x]));
                            } else {
                                let w = was->0;
                                assert(depth[x] <= depth[w as int] && (depth[x] == depth[w as int]
                                    ==> text_le(rem[w as int], rem[x])));
                                if !keep && depth[x] == depth[j as int] {
                                    assert(depth[w as int] == depth[j as int]);
                                    text::text_lt_total(rem[w as int], rem[j as int]);
                                    if text::text_lt(rem[j as int], rem[w as int])
                                        && text::text_lt(rem[w as int], rem[x]) {
                                        text::text_lt_transitive(
                                            rem[j as int],
                                            rem[w as int],
                                            rem[x],
                                        );
                                    }
                                }
                            }
                        }
                    }
                    if keep {
                        let m0 = choose|m: int|
                            0 <= m < k && (#[trigger] all[m]).0 == rem[b as int];
                        assert(all[m0].0 == rem[b as int]);
                    } else {
                        assert(all[k as int].0 == rem[b as int]);
                    }
                }
            },
        }
        k += 1;
    }
    best
}

proof fn lemma_known(
    rem: Seq<Seq<char>>,
    es: Set<(Seq<char>, Seq<char>)>,
    edges: Seq<(Seq<char>, Seq<char>)>,
    depth: Seq<usize>,
    pred: Seq<usize>,
    best: Option<usize>,
    i: int,
)
    requires
        0 <= i < rem.len(),
        depth.len() == i + 1,
        pred.len() == i + 1,
        forall|j: int| 0 <= j < i ==> known(rem, es, depth, pred, j),
        best_so_far(rem, depth.take(i), edges, edges.len() as int, best),
        forall|p: Seq<char>| #[trigger]
            es.contains((rem[i], p)) <==> rem.take(i).contains(p) && exists|m: int|
                0 <= m < edges.len() && (#[trigger] edges[m]).0 == p,
        match best {
            None => depth[i] == 1,
            Some(b) => depth[i] == depth[b as int] + 1 && pred[i] == b,
        },
    ensures
        known(rem, es, depth, pred, i),
{
    let t = rem[i];
    match best {
        None => {
            assert forall|p: Seq<char>| !#[trigger] es.contains((t, p)) by {
                if es.contains((t, p)) {
                    let m = choose|m: int| 0 <= m < edges.len() && (#[trigger] edges[m]).0 == p;
                    let j = choose|j: int| 0 <= j < i && rem.take(i)[j] == p;
                    assert(rem.contains(rem[j]));
                }
            }
        },
        Some(b) => {
            let d = depth[b as int] as nat;
            assert(depth.take(i)[b as int] == depth[b as int]);
            assert(known(rem, es, depth, pred, b as int));
            assert(rem.take(i)[b as int] == rem[b as int]);
            assert(es.contains((t, rem[b as int])));
            assert(ends_chain(es, t, d + 1));
            assert forall|p: Seq<char>| #[trigger] es.contains((t, p)) implies !ends_chain(
                es,
                p,
                d + 1,
            ) && (ends_chain(es, p, d) ==> text_le(rem[b as int], p)) by {
                let m = choose|m: int| 0 <= m < edges.len() && (#[trigger] edges[m]).0 == p;
                let j = choose|j: int| 0 <= j < i && rem.take(i)[j] == p;
                assert(rem[j] == p);
                assert(depth.take(i)[j] == depth[j]);
                assert(known(rem, es, depth, pred, j));
                if ends_chain(es, p, d + 1) {
                    lemma_shorter_chain(es, p, d + 1, (depth[j] + 1) as nat);
                }
                if ends_chain(es, p, d) && depth[j] < d {
                    lemma_shorter_chain(es, p, d, (depth[j] + 1) as nat);
                }
            }
            if ends_chain(es, t, d + 2) {
                let p = choose|p: Seq<char>| #[trigger]
                    es.contains((t, p)) && ends_chain(es, p, d + 1);
                assert(false);
            }
        },
    }
}

/// Collects the chain that ends at `end` along the recorded predecessors.
fn trace(remaining: &Vec<String>, depth: &Vec<usize>, pred: &Vec<usize>, end: usize, Ghost(es): Ghost<
    Set<(Seq<char>, Seq<char>)>,
>) -> (r: Vec<String>)
    requires
        depth.len() == remaining.len(),
        pred.len() == remaining.len(),
        end < remaining.len(),
        forall|j: int|
            0 <= j < remaining.len() ==> known(remaining.deep_view(), es, depth@, pred@, j),
    ensures
        r.len() == depth@[end as int],
        r.deep_view().last() == remaining.deep_view()[end as int],
        forall|i: int|
            0 <= i < r.len() ==> ends_chain(es, #[trigger] r.deep_view()[i], (i + 1) as nat),
        forall|i: int|
            0 <= i < r.len() - 1 ==> es.contains(
                (#[trigger] r.deep_view()[i + 1], r.deep_view()[i]),
            ),
        forall|i: int, p: Seq<char>|
            0 <= i < r.len() - 1 && #[trigger] es.contains((r.deep_view()[i + 1], p))
                && ends_chain(es, p, (i + 1) as nat) ==> text_le(r.deep_view()[i], p),
{
    let ghost rem = remaining.deep_view();
    let total = depth[end];
    let mut back: Vec<usize> = Vec::new();
    let mut cur: usize = end;
    assert(known(rem, es, depth@, pred@, end as int));
    back.push(end);
    while depth[cur] > 1
        invariant
            depth.len() == remaining.len(),
            pred.len() == remaining.len(),
            rem == remaining.deep_view(),
            forall|j: int| 0 <= j < remaining.len() ==> known(rem, es, depth@, pred@, j),
            cur < remaining.len(),
            back.len() > 0,
            back@[0] == end,
            back@.last() == cur,
            total == depth@[end as int],
            forall|k: int|
                0 <= k < back.len() ==> #[trigger] back@[k] < remaining.len() && depth@[back@[k] as int]
                    == total - k,
            forall|k: int|
                0 <= k < back.len() - 1 ==> #[trigger] back@[k + 1] == pred@[back@[k] as int],
        decreases depth@[cur as int],
    {
        assert(known(rem, es, depth@, pred@, cur as int));
        let next = pred[cur];
        let ghost had = back@;
        back.push(next);
        proof {
            assert(depth@[next as int] == depth@[cur as int] - 1);
            assert forall|k: int| 0 <= k < back.len() - 1 implies #[trigger] back@[k + 1]
                == pred@[back@[k] as int] by {
                if k + 1 < had.len() {
                    assert(had[k + 1] == pred@[had[k] as int]);
                }
            }
        }
        cur = next;
    }
    let n = back.len();
    proof {
        assert(known(rem, es, depth@, pred@, cur as int));
        assert(depth@[back@[n - 1] as int] == total - (n - 1));
        assert(n == total);
    }
    let mut out: Vec<String> = Vec::new();
    let mut i: usize = 0;
    while i < n
        invariant
            i <= n,
            n == back.len(),
            rem == remaining.deep_view(),
            out.len() == i,
            forall|k: int| 0 <= k < back.len() ==> #[trigger] back@[k] < remaining.len(),
            forall|k: int| 0 <= k < i ==> (#[trigger] out@[k])@ == rem[back@[n - 1 - k] as int],
        decreases n - i,
    {
        out.push(remaining[back[n - 1 - i]].clone());
        i += 1;
    }
    proof {
        let chain = out.deep_view();
        assert forall|i: int| 0 <= i < chain.len() implies #[trigger] chain[i] == rem[back@[n - 1
            - i] as int] by {}
        assert forall|i: int| 0 <= i < chain.len() implies ends_chain(
            es,
            #[trigger] chain[i],
            (i + 1) as nat,
        ) by {
            assert(known(rem, es, depth@, pred@, back@[n - 1 - i] as int));
            assert(depth@[back@[n - 1 - i] as int] == i + 1);
        }
        assert forall|i: int| 0 <= i < chain.len() - 1 implies es.contains(
            (#[trigger] chain[i + 1], chain[i]),
        ) && (forall|p: Seq<char>| #[trigger]
            es.contains((chain[i + 1], p)) && ends_chain(es, p, (i + 1) as nat) ==> text_le(
                chain[i],
                p,
            )) by {
            let k = n - 1 - (i + 1);
            assert(back@[k + 1] == pred@[back@[k] as int]);
            assert(known(rem, es, depth@, pred@, back@[k] as int));
            assert(chain[i + 1] == rem[back@[k] as int]);
            assert(chain[i] == rem[back@[k + 1] as int]);
        }
        assert(chain.last() == chain[n - 1]);
    }
    out
}

/// The longest chain of prerequisites among the remaining tasks, which come
/// prerequisites first; the smaller id wins where chains are equally long.
pub fn critical_path(
    remaining: &Vec<String>,
    sub: &StrMap<TaskState>,
    blockers: &StrSet,
) -> (r: Vec<
    String,
>)
    requires
        remaining.deep_view().no_duplicates(),
        forall|i: int|
            0 <= i < remaining.len() ==> sub@.contains_key(#[trigger] remaining.deep_view()[i]),
        graph::dependencies_first(
            remaining.deep_view(),
            graph::dep_edges(sub@, blockers@),
        ),
    ensures
        is_critical(
            r.deep_view(),
            edges_among(sub@, blockers@, remaining.deep_view().to_set()),
            remaining.deep_view().to_set(),
        ),
        r.len() == 0 <==> remaining.len() == 0,
{
    let ghost rem = remaining.deep_view();
    let ghost ids = rem.to_set();
    let ghost deps = graph::dep_edges(sub@, blockers@);
    let ghost es = edges_among(sub@, blockers@, ids);
    let n = remaining.len();
    let mut depth: Vec<usize> = Vec::new();
    let mut pred: Vec<usize> = Vec::new();
    let mut i: usize = 0;
    while i < n
        invariant
            i <= n,
            n == remaining.len(),
            rem == remaining.deep_view(),
            rem.no_duplicates(),
            ids == rem.to_set(),
            deps == graph::dep_edges(sub@, blockers@),
            es == edges_among(sub@, blockers@, ids),
            forall|i: int| 0 <= i < n ==> sub@.contains_key(#[trigger] rem[i]),
            graph::dependencies_first(rem, deps),
            depth.len() == i,
            pred.len() == i,
            forall|j: int| 0 <= j < i ==> known(rem, es, depth@, pred@, j),
        decreases n - i,
    {
        let id = remaining[i].as_str();
        assert(rem[i as int] == id@);
        assert(ids.contains(id@)) by {
            assert(rem.contains(rem[i as int]));
        }
        let best = match sub.get(id) {
            Some(task) => {
                let edges = graph::blocker_edges(task, blockers);
                let ghost all = edges.deep_view();
                proof {
                    assert forall|m: int, j: int|
                        0 <= m < edges.len() && 0 <= j < n && (#[trigger] all[m]).0
                            == #[trigger] rem[j] implies j < i by {
                        lemma_edge_target(sub@, blockers@, id@, all, m);
                        assert(deps.contains((rem[i as int], rem[j])));
                    }
                }
                let best = best_prerequisite(remaining, &edges, &depth);
                proof {
                    assert forall|p: Seq<char>| #[trigger] es.contains((rem[i as int], p)) <==> rem.take(
                        i as int,
                    ).contains(p) && exists|m: int|
                        0 <= m < all.len() && (#[trigger] all[m]).0 == p by {
                        if es.contains((rem[i as int], p)) {
                            assert(ids.contains(p));
                            let j = choose|j: int| 0 <= j < rem.len() && rem[j] == p;
                            assert(deps.contains((rem[i as int], rem[j])));
                            assert(rem.take(i as int)[j] == p);
                            lemma_target_edge(sub@, blockers@, id@, all, p);
                        }
                        if rem.take(i as int).contains(p) && exists|m: int|
                            0 <= m < all.len() && (#[trigger] all[m]).0 == p {
                            let m = choose|m: int| 0 <= m < all.len() && (#[trigger] all[m]).0 == p;
                            let j = choose|j: int| 0 <= j < i && rem.take(i as int)[j] == p;
                            assert(rem.contains(rem[j]));
                            lemma_edge_target(sub@, blockers@, id@, all, m);
                        }
                    }
                    let d1: usize = match best {
                        Some(b) => (depth@[b as int] + 1) as usize,
                        None => 1,
                    };
                    let p1: usize = match best {
                        Some(b) => b,
                        None => n,
                    };
                    if let Some(b) = best {
                        assert(known(rem, es, depth@, pred@, b as int));
                    }
                    let depth1 = depth@.push(d1);
                    let pred1 = pred@.push(p1);
                    assert(depth1.take(i as int) =~= depth@);
                    assert forall|j: int| 0 <= j < i implies known(rem, es, depth1, pred1, j) by {
                        assert(known(rem, es, depth@, pred@, j));
                    }
                    lemma_known(rem, es, all, depth1, pred1, best, i as int);
                }
                best
            },
            None => None,
        };
        let ghost old_depth = depth@;
        let ghost old_pred = pred@;
        match best {
            Some(b) => {
                assert(known(rem, es, depth@, pred@, b as int));
                let d = depth[b] + 1;
                depth.push(d);
                pred.push(b);
            },
            None => {
                depth.push(1);
                pred.push(n);
            },
        }
        proof {
            assert forall|j: int| 0 <= j < i + 1 implies known(rem, es, depth@, pred@, j) by {
                if j < i {
                    assert(known(rem, es, old_depth, old_pred, j));
                }
            }
        }
        i += 1;
    }
    if n == 0 {
        let none: Vec<String> = Vec::new();
        assert(none.deep_view() =~= Seq::<Seq<char>>::empty());
        assert(ids =~= Set::empty());
        return none;
    }
    let mut end: usize = 0;
    let mut k: usize = 1;
    while k < n
        invariant
            1 <= k <= n,
            n == remaining.len(),
            n == depth.len(),
            rem == remaining.deep_view(),
            end < k,
            forall|j: int|
                0 <= j < k ==> #[trigger] depth@[j] <= depth@[end as int] && (depth@[j]
                    == depth@[end as int] ==> text_le(rem[end as int], rem[j])),
        decreases n - k,
    {
        let ghost was = end;
        if depth[k] > depth[end] || (depth[k] == depth[end] && text::text_before(
            remaining[k].as_str(),
            remaining[end].as_str(),
        )) {
            end = k;
        }
        proof {
            text::text_lt_total(rem[was as int], rem[k as int]);
            assert forall|j: int| 0 <= j < k + 1 implies #[trigger] depth@[j] <= depth@[end as int] && (
            depth@[j] == depth@[end as int] ==> text_le(rem[end as int], rem[j])) by {
                if j < k {
                    assert(depth@[j] <= depth@[was as int] && (depth@[j] == depth@[was as int]
                        ==> text_le(rem[was as int], rem[j])));
                    if text::text_lt(rem[k as int], rem[was as int]) && text::text_lt(
                        rem[was as int],
                        rem[j],
                    ) {
                        text::text_lt_transitive(rem[k as int], rem[was as int], rem[j]);
                    }
                }
            }
        }
        k += 1;
    }
    let chain = trace(remaining, &depth, &pred, end, Ghost(es));
    proof {
        let c = chain.deep_view();
        assert(ids.contains(c.last())) by {
            assert(rem.contains(rem[end as int]));
        }
        assert forall|t: Seq<char>| #[trigger] ids.contains(t) implies !ends_chain(
            es,
            t,
            c.len() + 1,
        ) && (ends_chain(es, t, c.len()) ==> text_le(c.last(), t)) by {
            assert(rem.contains(t));
            let j = choose|j: int| 0 <= j < rem.len() && rem[j] == t;
            assert(known(rem, es, depth@, pred@, j));
            assert(depth@[j] <= depth@[end as int]);
            if ends_chain(es, t, c.len() + 1) {
                lemma_shorter_chain(es, t, c.len() + 1, (depth@[j] + 1) as nat);
            }
            if ends_chain(es, t, c.len()) && depth@[j] < c.len() {
                lemma_shorter_chain(es, t, c.len(), (depth@[j] + 1) as nat);
            }
        }
    }
    chain
}

proof fn lemma_edge_target(
    s: StateV,
    blockers: Set<Seq<char>>,
    id: Seq<char>,
    edges: Seq<(Seq<char>, Seq<char>)>,
    m: int,
)
    requires
        s.contains_key(id),
        0 <= m < edges.len(),
        forall|target: Seq<char>, rel: Seq<char>| #[trigger]
            edges.contains((target, rel)) <==> blockers.contains(rel)
                && s[id].relationships.contains_key(rel) && s[id].relationships[rel].contains(target),
    ensures
        s.contains_key(edges[m].0) ==> graph::dep_edges(s, blockers).contains((id, edges[m].0)),
{
    let (target, rel) = edges[m];
    assert(edges.contains((target, rel)));
    assert(s[id].relationships.contains_key(rel));
    assert(graph::gates(s[id], blockers, target));
}

proof fn lemma_target_edge(
    s: StateV,
    blockers: Set<Seq<char>>,
    id: Seq<char>,
    edges: Seq<(Seq<char>, Seq<char>)>,
    target: Seq<char>,
)
    requires
        graph::dep_edges(s, blockers).contains((id, target)),
        forall|target: Seq<char>, rel: Seq<char>| #[trigger]
            edges.contains((target, rel)) <==> blockers.contains(rel)
                && s[id].relationships.contains_key(rel) && s[id].relationships[rel].contains(target),
    ensures
        exists|m: int| 0 <= m < edges.len() && (#[trigger] edges[m]).0 == target,
{
    assert(graph::gates(s[id], blockers, target));
    let rel = choose|rel: Seq<char>|
        blockers.contains(rel) && #[trigger] s[id].relationships.contains_key(rel)
            && s[id].relationships[rel].contains(target);
    assert(edges.contains((target, rel)));
    let m = choose|m: int| 0 <= m < edges.len() && edges[m] == (target, rel);
    assert(edges[m].0 == target);
}

/// The open ones of the tasks.
pub open spec fn open_ids(s: StateV, field: Seq<char>, done: Seq<char>) -> Set<Seq<char>> {
    Set::new(|id: Seq<char>| graph::open_task(s, id, field, done))
}

fn open_in_order(
    order: &Vec<String>,
    sub: &StrMap<TaskState>,
    status_field: &str,
    done_status: &str,
    Ghost(es): Ghost<Set<(Seq<char>, Seq<char>)>>,
) -> (r: Vec<String>)
    requires
        graph::lists_all(order.deep_view(), sub@),
        graph::dependencies_first(order.deep_view(), es),
    ensures
        r.deep_view().no_duplicates(),
        r.deep_view().to_set() == open_ids(sub@, status_field@, done_status@),
        graph::dependencies_first(r.deep_view(), es),
        r.len() == open_ids(sub@, status_field@, done_status@).len(),
        open_ids(sub@, status_field@, done_status@).finite(),
{
    let ghost all = order.deep_view();
    let mut out: Vec<String> = Vec::new();
    let ghost mut at: Seq<int> = Seq::empty();
    let mut i: usize = 0;
    while i < order.len()
        invariant
            i <= order.len(),
            all == order.deep_view(),
            all.no_duplicates(),
            out.len() == at.len(),
            forall|k: int|
                0 <= k < at.len() ==> 0 <= #[trigger] at[k] < i && out.deep_view()[k] == all[at[k]],
            forall|k: int, m: int| 0 <= k < m < at.len() ==> #[trigger] at[k] < #[trigger] at[m],
            forall|j: int|
                0 <= j < i ==> (graph::open_task(sub@, #[trigger] all[j], status_field@, done_status@)
                    <==> at.contains(j)),
        decreases order.len() - i,
    {
        let id = order[i].as_str();
        assert(all[i as int] == id@);
        let open = match sub.get(id) {
            Some(t) => !model::is_done(t, status_field, done_status),
            None => false,
        };
        let ghost had = at;
        let ghost before = out.deep_view();
        if open {
            out.push(order[i].clone());
            proof {
                at = at.push(i as int);
                assert(out.deep_view() =~= before.push(all[i as int]));
            }
        }
        proof {
            assert forall|j: int| 0 <= j < i + 1 implies (graph::open_task(
                sub@,
                #[trigger] all[j],
                status_field@,
                done_status@,
            ) <==> at.contains(j)) by {
                if open {
                    strmap::lemma_contains_last(at, j);
                    assert(at.drop_last() =~= had);
                }
                if j < i {
                    assert(graph::open_task(sub@, all[j], status_field@, done_status@)
                        <==> had.contains(j));
                } else if had.contains(j) {
                    let k = choose|k: int| 0 <= k < had.len() && had[k] == j;
                    assert(had[k] < i);
                }
            }
        }
        i += 1;
    }
    proof {
        let rem = out.deep_view();
        let want = open_ids(sub@, status_field@, done_status@);
        assert forall|a: int, b: int| 0 <= a < b < rem.len() implies rem[a] != rem[b] by {
            assert(at[a] < at[b]);
        }
        assert forall|id: Seq<char>| rem.to_set().contains(id) <==> want.contains(id) by {
            if rem.to_set().contains(id) {
                let k = choose|k: int| 0 <= k < rem.len() && rem[k] == id;
                assert(at.contains(at[k]));
                assert(graph::open_task(sub@, all[at[k]], status_field@, done_status@));
            }
            if want.contains(id) {
                assert(all.to_set().contains(id));
                let j = choose|j: int| 0 <= j < all.len() && all[j] == id;
                assert(at.contains(j));
                let k = choose|k: int| 0 <= k < at.len() && at[k] == j;
                assert(rem[k] == id);
            }
        }
        assert(rem.to_set() =~= want);
        rem.unique_seq_to_set();
        assert forall|a: int, b: int|
            0 <= a < rem.len() && 0 <= b < rem.len() && #[trigger] es.contains((rem[a], rem[b])) implies b
            < a by {
            assert(es.contains((all[at[a]], all[at[b]])));
            if a < b {
                assert(at[a] < at[b]);
            }
        }
    }
    out
}

/// The ids of the steps.
pub open spec fn step_ids(steps: Seq<PlanStep>) -> Seq<Seq<char>> {
    steps.map_values(|p: PlanStep| p.id@)
}

/// Whether `o` is a plan over the needed tasks.
pub open spec fn is_plan(
    o: PlanOutcome,
    sub: StateV,
    blockers: Set<Seq<char>>,
    field: Seq<char>,
    done: Seq<char>,
    critical: bool,
) -> bool {
    let open = open_ids(sub, field, done);
    let ids = step_ids(o.steps@);
    &&& o.critical == critical
    &&& o.total == open.len()
    &&& forall|i: int|
        0 <= i < o.steps.len() ==> sub.contains_key((#[trigger] o.steps[i]).id@)
            && o.steps[i].status@ == status_text(sub[o.steps[i].id@].custom_fields, field)
    &&& if critical {
        is_critical(ids, edges_among(sub, blockers, open), open)
    } else {
        &&& ids.no_duplicates()
        &&& ids.to_set() == open
        &&& graph::dependencies_first(ids, graph::dep_edges(sub, blockers))
    }
}

fn plan_steps(ids: &Vec<String>, sub: &StrMap<TaskState>, field: &str) -> (r: Vec<PlanStep>)
    requires
        forall|i: int| 0 <= i < ids.len() ==> sub@.contains_key(#[trigger] ids.deep_view()[i]),
    ensures
        step_ids(r@) == ids.deep_view(),
        forall|i: int|
            0 <= i < r.len() ==> sub@.contains_key((#[trigger] r[i]).id@) && r[i].status@
                == status_text(sub@[r[i].id@].custom_fields, field@),
{
    let ghost all = ids.deep_view();
    let mut out: Vec<PlanStep> = Vec::new();
    let mut i: usize = 0;
    while i < ids.len()
        invariant
            i <= ids.len(),
            all == ids.deep_view(),
            forall|i: int| 0 <= i < ids.len() ==> sub@.contains_key(#[trigger] all[i]),
            out.len() == i,
            forall|j: int|
                0 <= j < i ==> (#[trigger] out@[j]).id@ == all[j] && out@[j].status@ == status_text(
                    sub@[all[j]].custom_fields,
                    field@,
                ),
        decreases ids.len() - i,
    {
        let id = &ids[i];
        assert(all[i as int] == id@);
        let status = status_of(sub.get(id.as_str()), field);
        out.push(PlanStep { id: id.clone(), status });
        i += 1;
    }
    assert(step_ids(out@) =~= all);
    out
}

proof fn lemma_chain_members(
    chain: Seq<Seq<char>>,
    es: Set<(Seq<char>, Seq<char>)>,
    ids: Set<Seq<char>>,
    i: int,
)
    requires
        is_critical(chain, es, ids),
        forall|a: Seq<char>, b: Seq<char>| #[trigger] es.contains((a, b)) ==> ids.contains(b),
        0 <= i < chain.len(),
    ensures
        ids.contains(chain[i]),
{
    if i < chain.len() - 1 {
        assert(es.contains((chain[i + 1], chain[i])));
    } else {
        assert(chain.last() == chain[i]);
    }
}

/// Plans the way to the goals: the open ones of the goals and of all they wait
/// for, prerequisites first, or only the longest chain of them. A goal that is
/// no task is an error, and so is a cycle among the tasks that are needed.
pub fn plan(
    store: &Store,
    schema: &SchemaReading,
    goals: &Vec<String>,
    critical: bool,
) -> (r: Result<
    PlanOutcome,
    String,
>)
    ensures
        ({
            let s = store.shown(*schema);
            let sub = needed(s, store.gates(), goals.deep_view());
            let missing = first_missing(s, goals.deep_view());
            let cyclic = reach::cyclic(graph::dep_edges(sub, store.gates()));
            match r {
                Ok(o) => {
                    &&& missing is None
                    &&& !cyclic
                    &&& is_plan(
                        o,
                        sub,
                        store.gates(),
                        store.config.workflow.status_field@,
                        store.config.workflow.done_status@,
                        critical,
                    )
                    &&& o.warnings.deep_view() == store.warned(*schema)
                },
                Err(m) => if missing is Some {
                    m@ == no_task(missing->0)
                } else {
                    cyclic && m@ == graph::cycle_message()
                },
            }
        }),
{
    let session = read::read(store, schema);
    let state = session.state;
    if let Some(g) = find_missing(&state, goals) {
        return Err(text::cat3("no task `", g.as_str(), "`"));
    }
    let blockers = store.config.relationships.blocker_types();
    let sub = needed_tasks(&state, &blockers, goals);
    let order = match graph::validate_and_sort_dependencies(&sub, &blockers) {
        Ok(v) => v,
        Err(m) => {
            return Err(m);
        },
    };
    let field = store.config.workflow.status_field.as_str();
    let done = store.config.workflow.done_status.as_str();
    let ghost es = graph::dep_edges(sub@, blockers@);
    let remaining = open_in_order(&order, &sub, field, done, Ghost(es));
    let ghost open = open_ids(sub@, field@, done@);
    let ghost rem = remaining.deep_view();
    let total = remaining.len();
    assert forall|i: int| 0 <= i < rem.len() implies sub@.contains_key(#[trigger] rem[i]) by {
        assert(rem.to_set().contains(rem[i]));
    }
    let ids = if critical {
        let chain = critical_path(&remaining, &sub, &blockers);
        proof {
            let c = chain.deep_view();
            let among = edges_among(sub@, blockers@, open);
            assert forall|i: int| 0 <= i < c.len() implies sub@.contains_key(#[trigger] c[i]) by {
                lemma_chain_members(c, among, open, i);
            }
        }
        chain
    } else {
        remaining
    };
    let steps = plan_steps(&ids, &sub, field);
    Ok(PlanOutcome { steps, total, critical, warnings: session.warnings })
}

/// Whether a plan holds the tasks that are left to do for goals, among them `id`
/// where it is one, in an order in which no step waits for a later one.
pub open spec fn plan_holds(
    store: Store,
    schema: SchemaReading,
    goals: Seq<Seq<char>>,
    o: PlanOutcome,
    id: Seq<char>,
) -> bool {
    let s = store.shown(schema);
    let field = store.config.workflow.status_field@;
    let done = store.config.workflow.done_status@;
    let es = Set::new(
        |e: (Seq<char>, Seq<char>)| graph::awaits(s, e.0, store.gates(), e.1),
    );
    &&& forall|i: int|
        0 <= i < goals.len() ==> s.contains_key(#[trigger] goals[i])
    &&& o.total == o.steps.len()
    &&& (exists|i: int| 0 <= i < o.steps.len() && (#[trigger] o.steps@[i]).id@ == id) <==> {
        &&& s.contains_key(id)
        &&& !graph::finished(s, id, field, done)
        &&& goals.contains(id) || exists|g: Seq<char>| #[trigger]
            goals.contains(g) && reach::reaches(es, g, id)
    }
    &&& forall|i: int, j: int|
        0 <= i <= j < o.steps.len() ==> !graph::awaits(
            s,
            (#[trigger] o.steps@[i]).id@,
            store.gates(),
            (#[trigger] o.steps@[j]).id@,
        )
}

pub(crate) proof fn lemma_plan_holds(
    store: Store,
    schema: SchemaReading,
    want: Seq<Seq<char>>,
    o: PlanOutcome,
    id: Seq<char>,
)
    requires
        first_missing(store.shown(schema), want) is None,
        is_plan(
            o,
            needed(store.shown(schema), store.gates(), want),
            store.gates(),
            store.config.workflow.status_field@,
            store.config.workflow.done_status@,
            false,
        ),
    ensures
        plan_holds(store, schema, want, o, id),
{
    let s = store.shown(schema);
    let blockers = store.gates();
    let field = store.config.workflow.status_field@;
    let done = store.config.workflow.done_status@;
    let sub = needed(s, blockers, want);
    let es = graph::dep_edges(s, blockers);
    let ids = step_ids(o.steps@);
    let open = open_ids(sub, field, done);
    lemma_none_missing(s, want);
    assert(es =~= Set::new(|e: (Seq<char>, Seq<char>)| graph::awaits(s, e.0, store.gates(), e.1)));
    assert(ids.to_set() == open);
    ids.unique_seq_to_set();
    assert((exists|i: int| 0 <= i < o.steps.len() && (#[trigger] o.steps@[i]).id@ == id)
        <==> ids.contains(id)) by {
        if ids.contains(id) {
            let i = choose|i: int| 0 <= i < ids.len() && ids[i] == id;
            assert(o.steps@[i].id@ == id);
        }
        if exists|i: int| 0 <= i < o.steps.len() && (#[trigger] o.steps@[i]).id@ == id {
            let i = choose|i: int| 0 <= i < o.steps.len() && (#[trigger] o.steps@[i]).id@ == id;
            assert(ids[i] == id);
        }
    }
    assert(ids.to_set().contains(id) <==> ids.contains(id));
    assert forall|i: int, j: int| 0 <= i <= j < o.steps.len() implies !graph::awaits(
        s,
        (#[trigger] o.steps@[i]).id@,
        blockers,
        (#[trigger] o.steps@[j]).id@,
    ) by {
        let (a, b) = (o.steps@[i].id@, o.steps@[j].id@);
        assert(ids[i] == a && ids[j] == b);
        assert(ids.to_set().contains(a) && ids.to_set().contains(b)) by {
            assert(ids.contains(a) && ids.contains(b));
        }
        if graph::awaits(s, a, blockers, b) {
            assert(graph::dep_edges(sub, blockers).contains((ids[i], ids[j])));
        }
    }
}

/// The plan of goals holds the tasks that are left to do for them: those that are
/// not done, and are goals or that a goal waits for, at once or through others.
/// It starts with what others wait for: no step waits for a later one.
pub proof fn plans_hold_what_goals_need(
    store: Store,
    schema: SchemaReading,
    goals: Vec<String>,
    o: PlanOutcome,
    id: Seq<char>,
)
    requires
        call_ensures(
            plan,
            (&store, &schema, &goals, false),
            Ok::<PlanOutcome, String>(o),
        ),
    ensures
        plan_holds(store, schema, goals.deep_view(), o, id),
{
    lemma_plan_holds(store, schema, goals.deep_view(), o, id);
}

proof fn lemma_none_missing(s: StateV, goals: Seq<Seq<char>>)
    ensures
        first_missing(s, goals) is None ==> forall|i: int|
            0 <= i < goals.len() ==> s.contains_key(#[trigger] goals[i]),
    decreases goals.len(),
{
    if goals.len() > 0 {
        let rest = goals.drop_first();
        lemma_none_missing(s, rest);
        if first_missing(s, goals) is None {
            assert forall|i: int| 0 <= i < goals.len() implies s.contains_key(
                #[trigger] goals[i],
            ) by {
                if i > 0 {
                    assert(rest[i - 1] == goals[i]);
                }
            }
        }
    }
}

/// A goal that is not there is what a plan fails on: the first of them.
pub proof fn the_first_missing_goal_is_named(s: StateV, goals: Seq<Seq<char>>, n: int)
    requires
        0 <= n < goals.len(),
        !s.contains_key(goals[n]),
        forall|i: int| 0 <= i < n ==> s.contains_key(#[trigger] goals[i]),
    ensures
        first_missing(s, goals) == Some(goals[n]),
    decreases n,
{
    if n > 0 {
        let rest = goals.drop_first();
        assert forall|i: int| 0 <= i < n - 1 implies s.contains_key(#[trigger] rest[i]) by {
            assert(rest[i] == goals[i + 1]);
        }
        assert(s.contains_key(goals[0]));
        the_first_missing_goal_is_named(s, rest, n - 1);
    }
}

proof fn lemma_chain_ends(es: Set<(Seq<char>, Seq<char>)>, c: Seq<Seq<char>>)
    requires
        c.len() > 0,
        forall|i: int| 0 <= i < c.len() - 1 ==> es.contains((#[trigger] c[i + 1], c[i])),
    ensures
        ends_chain(es, c.last(), c.len()),
    decreases c.len(),
{
    if c.len() > 1 {
        let shorter = c.drop_last();
        assert forall|i: int| 0 <= i < shorter.len() - 1 implies es.contains(
            (#[trigger] shorter[i + 1], shorter[i]),
        ) by {
            assert(c[i + 1] == shorter[i + 1]);
        }
        lemma_chain_ends(es, shorter);
        let i = c.len() - 2;
        assert(es.contains((c[i + 1], c[i])));
        assert(es.contains((c.last(), shorter.last())) && ends_chain(
            es,
            shorter.last(),
            (c.len() - 1) as nat,
        ));
    }
}

/// The critical path is a longest chain: each step after the first waits for the
/// one before it, and no other chain of open tasks has more steps.
pub proof fn critical_paths_are_longest(
    chain: Seq<Seq<char>>,
    es: Set<(Seq<char>, Seq<char>)>,
    ids: Set<Seq<char>>,
    other: Seq<Seq<char>>,
)
    requires
        is_critical(chain, es, ids),
        other.len() > 0,
        ids.contains(other.last()),
        forall|i: int| 0 <= i < other.len() - 1 ==> es.contains((#[trigger] other[i + 1], other[i])),
    ensures
        other.len() <= chain.len(),
        other.len() == chain.len() ==> chain.last() == other.last() || text::text_lt(
            chain.last(),
            other.last(),
        ),
        ids.contains(chain.last()),
        forall|i: int| 0 <= i < chain.len() - 1 ==> es.contains((#[trigger] chain[i + 1], chain[i])),
{
    lemma_chain_ends(es, other);
    if other.len() > chain.len() {
        lemma_shorter_chain(es, other.last(), other.len(), chain.len() + 1);
    }
}

/// A critical plan is a longest chain of open tasks among those that the goals
/// need: each step waits for the one before it, and no chain of them has more
/// steps. Each step shows the status of its task.
pub proof fn critical_plans_are_longest_chains(
    store: Store,
    schema: SchemaReading,
    goals: Vec<String>,
    o: PlanOutcome,
    other: Seq<Seq<char>>,
    i: int,
)
    requires
        call_ensures(plan, (&store, &schema, &goals, true), Ok::<PlanOutcome, String>(o)),
        other.len() > 0,
        forall|k: int|
            0 <= k < other.len() ==> in_plan(store, schema, goals.deep_view(), #[trigger] other[k]),
        forall|k: int|
            0 <= k < other.len() - 1 ==> graph::awaits(
                store.shown(schema),
                #[trigger] other[k + 1],
                store.gates(),
                other[k],
            ),
    ensures
        other.len() <= o.steps.len(),
        other.len() == o.steps.len() ==> o.steps@.last().id@ == other.last() || text::text_lt(
            o.steps@.last().id@,
            other.last(),
        ),
        0 <= i < o.steps.len() - 1 ==> graph::awaits(
            store.shown(schema),
            o.steps@[i + 1].id@,
            store.gates(),
            o.steps@[i].id@,
        ),
        0 <= i < o.steps.len() ==> {
            let t = store.shown(schema)[o.steps@[i].id@];
            let field = store.config.workflow.status_field@;
            let said = o.steps@[i].status@;
            &&& !t.custom_fields.contains_key(field) ==> said.len() == 0
            &&& t.custom_fields.contains_key(field) && t.custom_fields[field] is Str ==> said
                == t.custom_fields[field]->Str_0
        },
{
    let s = store.shown(schema);
    let blockers = store.gates();
    let field = store.config.workflow.status_field@;
    let done = store.config.workflow.done_status@;
    let want = goals.deep_view();
    let sub = needed(s, blockers, want);
    let open = open_ids(sub, field, done);
    let es = edges_among(sub, blockers, open);
    let ids = step_ids(o.steps@);
    let all = graph::dep_edges(s, blockers);
    assert(all =~= Set::new(|e: (Seq<char>, Seq<char>)| graph::awaits(s, e.0, blockers, e.1)));
    assert forall|x: Seq<char>| #[trigger] in_plan(store, schema, want, x) <==> open.contains(x) by {}
    assert forall|k: int| 0 <= k < other.len() - 1 implies es.contains(
        (#[trigger] other[k + 1], other[k]),
    ) by {
        assert(in_plan(store, schema, want, other[k + 1]));
        assert(in_plan(store, schema, want, other[k]));
        assert(graph::awaits(s, other[k + 1], blockers, other[k]));
        assert(graph::dep_edges(sub, blockers).contains((other[k + 1], other[k])));
    }
    assert(in_plan(store, schema, want, other[other.len() - 1]));
    critical_paths_are_longest(ids, es, open, other);
    if 0 <= i < o.steps.len() - 1 {
        assert(ids[i] == o.steps@[i].id@ && ids[i + 1] == o.steps@[i + 1].id@);
        assert(es.contains((ids[i + 1], ids[i])));
    }
    if 0 <= i < o.steps.len() {
        let id = o.steps[i].id@;
        assert(sub.contains_key(o.steps[i].id@));
        assert(sub[id] == s[id]);
    }
}

/// Whether a task is left to do for goals: it is there and not done, and it is a
/// goal or a goal waits for it, at once or through others.
pub open spec fn in_plan(
    store: Store,
    schema: SchemaReading,
    goals: Seq<Seq<char>>,
    x: Seq<char>,
) -> bool {
    let s = store.shown(schema);
    &&& s.contains_key(x)
    &&& !graph::finished(
        s,
        x,
        store.config.workflow.status_field@,
        store.config.workflow.done_status@,
    )
    &&& goals.contains(x) || exists|g: Seq<char>| #[trigger]
        goals.contains(g) && reach::reaches(
            Set::new(|e: (Seq<char>, Seq<char>)| graph::awaits(s, e.0, store.gates(), e.1)),
            g,
            x,
        )
}

/// The cycles that are reported are those of the tasks as they read: two tasks
/// stand in one where each waits for the other, at once or through others.
pub proof fn waiting_in_circles_is_reported(
    store: Store,
    schema: SchemaReading,
    r: CyclesOutcome,
    a: Seq<char>,
    b: Seq<char>,
)
    requires
        call_ensures(cycles, (&store, &schema), r),
        store.shown(schema).dom().finite(),
        a != b,
    ensures
        r.cycles.deep_view().contains(seq![a]) <==> graph::awaits(
            store.shown(schema),
            a,
            store.gates(),
            a,
        ),
        (exists|g: Seq<Seq<char>>| #[trigger]
            r.cycles.deep_view().contains(g) && g.contains(a) && g.contains(b)) <==> {
            let s = store.shown(schema);
            &&& s.contains_key(a) && s.contains_key(b)
            &&& graph::awaits_far(s, store.gates(), a, b)
            &&& graph::awaits_far(s, store.gates(), b, a)
        },
{
    graph::lemma_cycles_listed(store.shown(schema), store.gates(), r.cycles.deep_view(), a, b);
}

} // verus!
