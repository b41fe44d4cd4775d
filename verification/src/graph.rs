//! The blocker graph: cycles, order, readiness and counts.

use crate::engine;
use crate::model::{self, RelsV, StateV, TaskState, TaskV};
use crate::reach;
use crate::sort;
use crate::strmap::{self, Data, StrMap, StrSet};
use crate::text;
use vstd::prelude::*;

verus! {

/// A directed graph of `petgraph`.
#[verifier::external_type_specification]
#[verifier::external_body]
#[verifier::reject_recursive_types(N)]
#[verifier::reject_recursive_types(E)]
#[verifier::reject_recursive_types(Ty)]
#[verifier::reject_recursive_types(S)]
pub struct ExGraphMap<N, E, Ty, S: std::hash::BuildHasher>(
    petgraph::graphmap::GraphMap<N, E, Ty, S>,
);

/// The marker of a directed graph.
#[verifier::external_type_specification]
#[verifier::external_body]
pub struct ExDirected(petgraph::Directed);

/// The nodes of a graph.
pub uninterp spec fn graph_nodes(g: petgraph::graphmap::DiGraphMap<usize, ()>) -> Set<usize>;

/// The edges of a graph, each from its first part to its second.
pub uninterp spec fn graph_edges(g: petgraph::graphmap::DiGraphMap<usize, ()>) -> Set<
    (usize, usize),
>;

/// `DiGraphMap::new`: a graph without nodes or edges.
#[verifier::external_body]
fn graph_new() -> (g: petgraph::graphmap::DiGraphMap<usize, ()>)
    ensures
        graph_nodes(g) == Set::<usize>::empty(),
        graph_edges(g) == Set::<(usize, usize)>::empty(),
{
    petgraph::graphmap::DiGraphMap::new()
}

/// `DiGraphMap::add_node`: the node is in the graph, its edges stay.
#[verifier::external_body]
fn graph_add_node(g: &mut petgraph::graphmap::DiGraphMap<usize, ()>, n: usize)
    ensures
        graph_nodes(*final(g)) == graph_nodes(*old(g)).insert(n),
        graph_edges(*final(g)) == graph_edges(*old(g)),
{
    g.add_node(n);
}

/// `DiGraphMap::add_edge`: the edge is in the graph, once, and so are its ends.
#[verifier::external_body]
fn graph_add_edge(g: &mut petgraph::graphmap::DiGraphMap<usize, ()>, a: usize, b: usize)
    ensures
        graph_nodes(*final(g)) == graph_nodes(*old(g)).insert(a).insert(b),
        graph_edges(*final(g)) == graph_edges(*old(g)).insert((a, b)),
{
    g.add_edge(a, b, ());
}

/// `petgraph::algo::is_cyclic_directed`: whether some node can be reached from
/// itself. An edge from a node to itself counts.
#[verifier::external_body]
fn graph_is_cyclic(g: &petgraph::graphmap::DiGraphMap<usize, ()>) -> (r: bool)
    ensures
        r == reach::cyclic(graph_edges(*g)),
{
    petgraph::algo::is_cyclic_directed(g)
}

/// `petgraph::algo::toposort`: every node once, each before its successors, or
/// nothing if the graph has a cycle. Which of several such orders comes back is
/// left open.
#[verifier::external_body]
fn graph_toposort(g: &petgraph::graphmap::DiGraphMap<usize, ()>) -> (r: Option<Vec<usize>>)
    ensures
        r is None <==> reach::cyclic(graph_edges(*g)),
        match r {
            Some(order) => {
                &&& order@.no_duplicates()
                &&& order@.to_set() == graph_nodes(*g)
                &&& forall|i: int, j: int|
                    0 <= i < order@.len() && 0 <= j < order@.len() && #[trigger] graph_edges(
                        *g,
                    ).contains((order@[i], order@[j])) ==> i < j
            },
            None => true,
        },
{
    petgraph::algo::toposort(g, None).ok()
}

/// `petgraph::algo::tarjan_scc`: the strongly connected components. Every node
/// is in one of them, once, and two different nodes share one exactly if each
/// can be reached from the other.
#[verifier::external_body]
fn graph_components(g: &petgraph::graphmap::DiGraphMap<usize, ()>) -> (r: Vec<Vec<usize>>)
    ensures
        components_of(r.deep_view(), graph_nodes(*g), graph_edges(*g)),
{
    petgraph::algo::tarjan_scc(g)
}

/// Whether `parts` are the strongly connected components of a graph.
pub open spec fn components_of(
    parts: Seq<Seq<usize>>,
    nodes: Set<usize>,
    es: Set<(usize, usize)>,
) -> bool {
    &&& forall|p: int, i: int|
        0 <= p < parts.len() && 0 <= i < parts[p].len() ==> nodes.contains(#[trigger] parts[p][i])
    &&& forall|n: usize|
        nodes.contains(n) ==> exists|p: int|
            0 <= p < parts.len() && #[trigger] parts[p].contains(n)
    &&& forall|p: int| 0 <= p < parts.len() ==> (#[trigger] parts[p]).no_duplicates()
    &&& forall|p: int, q: int, n: usize|
        0 <= p < parts.len() && 0 <= q < parts.len() && #[trigger] parts[p].contains(n)
            && #[trigger] parts[q].contains(n) ==> p == q
    &&& forall|p: int, a: usize, b: usize|
        0 <= p < parts.len() && #[trigger] parts[p].contains(a) && nodes.contains(b) && a != b ==> (
        #[trigger] parts[p].contains(b) <==> reach::reaches(es, a, b) && reach::reaches(es, b, a))
}

/// One edge of a task: its target and its relationship type.
pub type EdgeV = (Seq<char>, Seq<char>);

/// The targets of one relationship type, each with the type.
pub open spec fn typed(targets: Seq<Seq<char>>, rel: Seq<char>) -> Seq<EdgeV> {
    targets.map_values(|t: Seq<char>| (t, rel))
}

/// The edges under those of `keys` that are blocker types, type by type.
pub open spec fn edges_under(
    rels: RelsV,
    keys: Seq<Seq<char>>,
    blockers: Set<Seq<char>>,
) -> Seq<EdgeV>
    decreases keys.len(),
{
    if keys.len() == 0 {
        Seq::empty()
    } else {
        let rest = edges_under(rels, keys.drop_last(), blockers);
        if blockers.contains(keys.last()) {
            rest + typed(rels[keys.last()], keys.last())
        } else {
            rest
        }
    }
}

/// A task's edges of the blocker types, in the order of the types' names.
pub open spec fn gating_edges(t: TaskV, blockers: Set<Seq<char>>) -> Seq<EdgeV> {
    edges_under(t.relationships, strmap::sorted_of(t.relationships.dom()), blockers)
}

/// Whether a task has an edge of a blocker type to `target`.
pub open spec fn gates(t: TaskV, blockers: Set<Seq<char>>, target: Seq<char>) -> bool {
    exists|rel: Seq<char>|
        blockers.contains(rel) && #[trigger] t.relationships.contains_key(rel)
            && t.relationships[rel].contains(target)
}

/// The blocker graph: which task waits for which, among those that exist.
pub open spec fn dep_edges(s: StateV, blockers: Set<Seq<char>>) -> Set<(Seq<char>, Seq<char>)> {
    Set::new(
        |e: (Seq<char>, Seq<char>)|
            s.contains_key(e.0) && s.contains_key(e.1) && gates(s[e.0], blockers, e.1),
    )
}

proof fn lemma_edges_under(
    rels: RelsV,
    keys: Seq<Seq<char>>,
    blockers: Set<Seq<char>>,
    target: Seq<char>,
    rel: Seq<char>,
)
    ensures
        edges_under(rels, keys, blockers).contains((target, rel)) <==> keys.contains(rel)
            && blockers.contains(rel) && rels[rel].contains(target),
    decreases keys.len(),
{
    let e = (target, rel);
    let all = edges_under(rels, keys, blockers);
    if keys.len() > 0 {
        lemma_edges_under(rels, keys.drop_last(), blockers, target, rel);
        let rest = edges_under(rels, keys.drop_last(), blockers);
        let last = keys.last();
        let own = typed(rels[last], last);
        if all.contains(e) {
            let i = choose|i: int| 0 <= i < all.len() && all[i] == e;
            if i < rest.len() {
                assert(rest[i] == e);
                let k = choose|k: int| 0 <= k < keys.len() - 1 && keys.drop_last()[k] == rel;
                assert(keys[k] == rel);
            } else {
                assert(own[i - rest.len()] == e);
                assert(rels[last][i - rest.len()] == target);
                assert(keys[keys.len() - 1] == rel);
            }
        }
        if keys.contains(rel) && blockers.contains(rel) && rels[rel].contains(target) {
            let k = choose|k: int| 0 <= k < keys.len() && keys[k] == rel;
            if k < keys.len() - 1 {
                assert(keys.drop_last()[k] == rel);
                let i = choose|i: int| 0 <= i < rest.len() && rest[i] == e;
                assert(all[i] == e);
            } else {
                let j = choose|j: int| 0 <= j < rels[rel].len() && rels[rel][j] == target;
                assert(own[j] == e);
                assert(all[rest.len() + j] == e);
            }
        }
    }
}

/// A task's gating edges are exactly its edges of the blocker types.
pub proof fn gating_edges_are_the_blockers(
    t: TaskV,
    blockers: Set<Seq<char>>,
    target: Seq<char>,
    rel: Seq<char>,
)
    requires
        strmap::sorted_of(t.relationships.dom()).to_set() == t.relationships.dom(),
    ensures
        gating_edges(t, blockers).contains((target, rel)) <==> blockers.contains(rel)
            && t.relationships.contains_key(rel) && t.relationships[rel].contains(target),
{
    let keys = strmap::sorted_of(t.relationships.dom());
    lemma_edges_under(t.relationships, keys, blockers, target, rel);
    assert(keys.to_set().contains(rel) == keys.contains(rel));
}

/// A task's edges of the blocker types, as targets and types.
pub fn blocker_edges(task: &TaskState, blockers: &StrSet) -> (r: Vec<(String, String)>)
    ensures
        r.deep_view() == gating_edges(task@, blockers@),
        task@.relationships.dom().finite(),
        forall|target: Seq<char>, rel: Seq<char>| #[trigger]
            r.deep_view().contains((target, rel)) <==> blockers@.contains(rel)
                && task@.relationships.contains_key(rel) && task@.relationships[rel].contains(
                target,
            ),
{
    let n = task.relationships.len();
    let ghost rels = task.relationships@;
    let ghost keys = task.relationships.keys_view();
    let mut out: Vec<(String, String)> = Vec::new();
    let mut i: usize = 0;
    assert(out.deep_view() =~= edges_under(rels, keys.take(0), blockers@));
    while i < n
        invariant
            i <= n,
            n == keys.len(),
            rels == task.relationships@,
            keys == task.relationships.keys_view(),
            out.deep_view() == edges_under(rels, keys.take(i as int), blockers@),
        decreases n - i,
    {
        let rel = task.relationships.key_at(i);
        let ghost longer = keys.take(i as int + 1);
        assert(longer.drop_last() =~= keys.take(i as int));
        assert(longer.last() == rel@);
        if blockers.contains(rel.as_str()) {
            let targets = task.relationships.value_at(i);
            let ghost had = out.deep_view();
            let ghost own = targets.deep_view();
            let mut j: usize = 0;
            assert(had + typed(own.take(0), rel@) =~= had);
            while j < targets.len()
                invariant
                    j <= targets.len(),
                    own == targets.deep_view(),
                    out.deep_view() == had + typed(own.take(j as int), rel@),
                decreases targets.len() - j,
            {
                let ghost now = out.deep_view();
                out.push((targets[j].clone(), rel.clone()));
                assert(out.deep_view() =~= now.push((own[j as int], rel@)));
                assert(own.take(j as int + 1) =~= own.take(j as int).push(own[j as int]));
                assert(had + typed(own.take(j as int + 1), rel@) =~= (had + typed(
                    own.take(j as int),
                    rel@,
                )).push((own[j as int], rel@)));
                j += 1;
            }
            assert(own.take(targets.len() as int) =~= own);
        }
        i += 1;
    }
    proof {
        assert(keys.take(n as int) =~= keys);
        assert forall|target: Seq<char>, rel: Seq<char>| #[trigger]
            out.deep_view().contains((target, rel)) <==> blockers@.contains(rel)
                && rels.contains_key(rel) && rels[rel].contains(target) by {
            gating_edges_are_the_blockers(task@, blockers@, target, rel);
        }
    }
    out
}

/// Whether there are finitely many tasks, each with finitely many edge types.
pub open spec fn finite_state(s: StateV) -> bool {
    &&& s.dom().finite()
    &&& forall|id: Seq<char>|
        s.contains_key(id) ==> (#[trigger] s[id]).relationships.dom().finite()
}

/// For each task, by its place in id order, the places of the tasks it waits
/// for.
pub fn prerequisites(state: &StrMap<TaskState>, blockers: &StrSet) -> (r: Vec<Vec<usize>>)
    ensures
        r.len() == state.keys_view().len(),
        forall|i: int, j: int|
            0 <= i < r.len() && 0 <= j < r[i].len() ==> #[trigger] r[i][j] < r.len(),
        reach::names_edges(
            reach::adjacency(r.deep_view()),
            state.keys_view(),
            dep_edges(state@, blockers@),
        ),
        finite_state(state@),
{
    let n = state.len();
    let ghost keys = state.keys_view();
    let ghost es = dep_edges(state@, blockers@);
    proof {
        strmap::lemma_ascending_distinct(keys);
    }
    let mut out: Vec<Vec<usize>> = Vec::new();
    let mut i: usize = 0;
    while i < n
        invariant
            i <= n,
            n == keys.len(),
            keys == state.keys_view(),
            keys.to_set() == state@.dom(),
            keys.no_duplicates(),
            es == dep_edges(state@, blockers@),
            forall|k: int| 0 <= k < i ==> state@[#[trigger] keys[k]].relationships.dom().finite(),
            out.len() == i,
            forall|p: int, q: int|
                0 <= p < out.len() && 0 <= q < out[p].len() ==> #[trigger] out[p][q] < n,
            forall|p: int, q: usize|
                0 <= p < out.len() && q < n ==> (#[trigger] out[p]@.contains(q) <==> es.contains(
                    (keys[p], keys[q as int]),
                )),
        decreases n - i,
    {
        let task = state.value_at(i);
        let edges = blocker_edges(task, blockers);
        let ghost all = edges.deep_view();
        let ghost here = keys[i as int];
        let mut row: Vec<usize> = Vec::new();
        let mut j: usize = 0;
        while j < edges.len()
            invariant
                j <= edges.len(),
                i < n,
                n == keys.len(),
                keys == state.keys_view(),
                keys.to_set() == state@.dom(),
                keys.no_duplicates(),
                all == edges.deep_view(),
                forall|q: int| 0 <= q < row.len() ==> #[trigger] row[q] < n,
                forall|q: usize|
                    q < n ==> (#[trigger] row@.contains(q) <==> exists|k: int|
                        0 <= k < j && (#[trigger] all[k]).0 == keys[q as int]),
            decreases edges.len() - j,
        {
            let ghost was = row@;
            assert(all[j as int].0 == edges@[j as int].0@);
            match state.index_of_key(edges[j].0.as_str()) {
                Some(at) => {
                    row.push(at);
                    proof {
                        assert forall|q: usize| q < n implies (#[trigger] row@.contains(q)
                            <==> exists|k: int|
                            0 <= k < j + 1 && (#[trigger] all[k]).0 == keys[q as int]) by {
                            if row@.contains(q) {
                                let x = choose|x: int| 0 <= x < row@.len() && row@[x] == q;
                                if x < was.len() {
                                    assert(was[x] == q);
                                    assert(was.contains(q));
                                } else {
                                    assert(all[j as int].0 == keys[q as int]);
                                }
                            }
                            if exists|k: int|
                                0 <= k < j + 1 && (#[trigger] all[k]).0 == keys[q as int] {
                                let k = choose|k: int|
                                    0 <= k < j + 1 && (#[trigger] all[k]).0 == keys[q as int];
                                if k < j {
                                    assert(was.contains(q));
                                    let x = choose|x: int| 0 <= x < was.len() && was[x] == q;
                                    assert(row@[x] == q);
                                } else {
                                    assert(keys[at as int] == keys[q as int]);
                                    assert(row@[was.len() as int] == q);
                                }
                            }
                        }
                    }
                },
                None => {
                    proof {
                        assert forall|q: usize| q < n implies (#[trigger] row@.contains(q)
                            <==> exists|k: int|
                            0 <= k < j + 1 && (#[trigger] all[k]).0 == keys[q as int]) by {
                            assert(keys.contains(keys[q as int]));
                            assert(keys.to_set().contains(keys[q as int]));
                            assert(all[j as int].0 != keys[q as int]);
                        }
                    }
                },
            }
            j += 1;
        }
        proof {
            assert forall|q: usize| q < n implies (#[trigger] row@.contains(q) <==> es.contains(
                (here, keys[q as int]),
            )) by {
                let there = keys[q as int];
                assert(keys.to_set().contains(here)) by {
                    assert(keys.contains(here));
                }
                assert(keys.to_set().contains(there)) by {
                    assert(keys.contains(there));
                }
                if row@.contains(q) {
                    let k = choose|k: int| 0 <= k < edges.len() && (#[trigger] all[k]).0 == there;
                    assert(all.contains((there, all[k].1)));
                    assert(task@.relationships.contains_key(all[k].1));
                }
                if es.contains((here, there)) {
                    let rel = choose|rel: Seq<char>|
                        blockers@.contains(rel) && #[trigger] task@.relationships.contains_key(rel)
                            && task@.relationships[rel].contains(there);
                    assert(all.contains((there, rel)));
                    let k = choose|k: int| 0 <= k < all.len() && all[k] == (there, rel);
                    assert(all[k].0 == there);
                }
            }
        }
        out.push(row);
        i += 1;
    }
    proof {
        assert forall|id: Seq<char>| state@.contains_key(id) implies (
        #[trigger] state@[id]).relationships.dom().finite() by {
            assert(keys.to_set().contains(id));
            let k = choose|k: int| 0 <= k < keys.len() && keys[k] == id;
            assert(state@[keys[k]].relationships.dom().finite());
        }
        let adj = out.deep_view();
        let ix = reach::adjacency(adj);
        assert forall|p: usize, q: usize| #[trigger] ix.contains((p, q)) <==> (p < n && q < n
            && es.contains((keys[p as int], keys[q as int]))) by {
            if p < n {
                assert(adj[p as int] =~= out@[p as int]@);
                if out@[p as int]@.contains(q) {
                    let x = choose|x: int| 0 <= x < out@[p as int]@.len() && out@[p as int]@[x] == q;
                    assert(out[p as int][x] < n);
                }
            }
        }
        assert forall|a: Seq<char>, b: Seq<char>| #[trigger]
            es.contains((a, b)) implies exists|p: usize, q: usize| #[trigger]
            ix.contains((p, q)) && p < n && q < n && keys[p as int] == a && keys[q as int] == b by {
            assert(keys.to_set().contains(a));
            assert(keys.to_set().contains(b));
            let p = choose|p: int| 0 <= p < keys.len() && keys[p] == a;
            let q = choose|q: int| 0 <= q < keys.len() && keys[q] == b;
            assert(ix.contains((p as usize, q as usize)));
        }
    }
    out
}

/// The answer where the blocker graph has a cycle.
pub open spec fn cycle_message() -> Seq<char> {
    "Cycle Error: Circular dependency detected in dependency graph."@
}

/// Whether `order` holds every task once.
pub open spec fn lists_all(order: Seq<Seq<char>>, s: StateV) -> bool {
    order.no_duplicates() && order.to_set() == s.dom()
}

/// Whether each task comes after those it waits for.
pub open spec fn dependencies_first(
    order: Seq<Seq<char>>,
    es: Set<(Seq<char>, Seq<char>)>,
) -> bool {
    forall|i: int, j: int|
        0 <= i < order.len() && 0 <= j < order.len() && #[trigger] es.contains(
            (order[i], order[j]),
        ) ==> j < i
}

/// The graph with an edge from each task to those that wait for it.
fn dependents_graph(adj: &Vec<Vec<usize>>) -> (g: petgraph::graphmap::DiGraphMap<usize, ()>)
    requires
        forall|i: int, j: int|
            0 <= i < adj.len() && 0 <= j < adj[i].len() ==> #[trigger] adj[i][j] < adj.len(),
    ensures
        forall|n: usize| #[trigger] graph_nodes(g).contains(n) <==> n < adj.len(),
        graph_edges(g) == reach::flipped(reach::adjacency(adj.deep_view())),
{
    let ghost all = adj.deep_view();
    let mut g = graph_new();
    let mut i: usize = 0;
    while i < adj.len()
        invariant
            i <= adj.len(),
            all == adj.deep_view(),
            forall|i: int, j: int|
                0 <= i < adj.len() && 0 <= j < adj[i].len() ==> #[trigger] adj[i][j] < adj.len(),
            forall|n: usize| n < i ==> #[trigger] graph_nodes(g).contains(n),
            forall|n: usize| #[trigger] graph_nodes(g).contains(n) ==> n < adj.len(),
            forall|a: usize, b: usize| #[trigger]
                graph_edges(g).contains((b, a)) <==> a < i && all[a as int].contains(b),
        decreases adj.len() - i,
    {
        graph_add_node(&mut g, i);
        let ghost row = all[i as int];
        assert(row =~= adj@[i as int]@);
        let mut j: usize = 0;
        while j < adj[i].len()
            invariant
                i < adj.len(),
                j <= adj[i as int].len(),
                all == adj.deep_view(),
                row == all[i as int],
                row == adj@[i as int]@,
                forall|i: int, j: int|
                    0 <= i < adj.len() && 0 <= j < adj[i].len() ==> #[trigger] adj[i][j]
                        < adj.len(),
                forall|n: usize| n <= i ==> #[trigger] graph_nodes(g).contains(n),
                forall|n: usize| #[trigger] graph_nodes(g).contains(n) ==> n < adj.len(),
                forall|a: usize, b: usize| #[trigger]
                    graph_edges(g).contains((b, a)) <==> (a < i && all[a as int].contains(b)) || (a
                        == i && row.take(j as int).contains(b)),
            decreases adj[i as int].len() - j,
        {
            let m = adj[i][j];
            let ghost before = graph_edges(g);
            graph_add_edge(&mut g, m, i);
            proof {
                assert(row.take(j as int + 1) =~= row.take(j as int).push(m));
                assert forall|a: usize, b: usize| #[trigger] graph_edges(g).contains((b, a)) <==> (a
                    < i && all[a as int].contains(b)) || (a == i && row.take(
                    j as int + 1,
                ).contains(b)) by {
                    let longer = row.take(j as int + 1);
                    let shorter = row.take(j as int);
                    assert(before.contains((b, a)) || (b == m && a == i) <==> graph_edges(
                        g,
                    ).contains((b, a)));
                    if longer.contains(b) {
                        let x = choose|x: int| 0 <= x < longer.len() && longer[x] == b;
                        if x < j {
                            assert(shorter[x] == b);
                        }
                    }
                    if shorter.contains(b) {
                        let x = choose|x: int| 0 <= x < shorter.len() && shorter[x] == b;
                        assert(longer[x] == b);
                    }
                    assert(longer[j as int] == m);
                }
            }
            j += 1;
        }
        assert(row.take(adj@[i as int].len() as int) =~= row);
        i += 1;
    }
    assert(graph_edges(g) =~= reach::flipped(reach::adjacency(all))) by {
        assert forall|e: (usize, usize)| graph_edges(g).contains(e) <==> reach::flipped(
            reach::adjacency(all),
        ).contains(e) by {
            assert(e == (e.0, e.1));
        }
    }
    g
}

/// The tasks in an order in which each comes after those it waits for, or an
/// error where the blocker graph has a cycle.
pub fn validate_and_sort_dependencies(state: &StrMap<TaskState>, blockers: &StrSet) -> (r: Result<
    Vec<String>,
    String,
>)
    ensures
        r is Err <==> reach::cyclic(dep_edges(state@, blockers@)),
        match r {
            Ok(order) => {
                &&& lists_all(order.deep_view(), state@)
                &&& dependencies_first(order.deep_view(), dep_edges(state@, blockers@))
            },
            Err(m) => m@ == cycle_message(),
        },
{
    let adj = prerequisites(state, blockers);
    let n = state.len();
    let ghost keys = state.keys_view();
    let ghost es = dep_edges(state@, blockers@);
    let ghost ix = reach::adjacency(adj.deep_view());
    let g = dependents_graph(&adj);
    proof {
        reach::cyclic_flipped(ix);
        reach::lemma_names_cyclic(ix, keys, es);
        strmap::lemma_ascending_distinct(keys);
    }
    if graph_is_cyclic(&g) {
        return Err(
            String::from_str("Cycle Error: Circular dependency detected in dependency graph."),
        );
    }
    let order = match graph_toposort(&g) {
        Some(o) => o,
        None => {
            return Err(
                String::from_str("Cycle Error: Circular dependency detected in dependency graph."),
            );
        },
    };
    let mut out: Vec<String> = Vec::new();
    let mut i: usize = 0;
    proof {
        assert forall|k: int| 0 <= k < order@.len() implies #[trigger] order@[k] < n by {
            assert(order@.to_set().contains(order@[k])) by {
                assert(order@.contains(order@[k]));
            }
        }
    }
    while i < order.len()
        invariant
            i <= order.len(),
            n == keys.len(),
            keys == state.keys_view(),
            forall|k: int| 0 <= k < order@.len() ==> #[trigger] order@[k] < n,
            out.len() == i,
            forall|k: int| 0 <= k < i ==> #[trigger] out@[k]@ == keys[order@[k] as int],
        decreases order.len() - i,
    {
        out.push(state.key_at(order[i]).clone());
        i += 1;
    }
    proof {
        let names = out.deep_view();
        assert(names.no_duplicates()) by {
            assert forall|a: int, b: int|
                0 <= a < names.len() && 0 <= b < names.len() && a != b implies names[a]
                != names[b] by {
                assert(out@[a]@ == keys[order@[a] as int]);
                assert(out@[b]@ == keys[order@[b] as int]);
                assert(order@[a] != order@[b]);
            }
        }
        assert forall|k: Seq<char>| names.to_set().contains(k) <==> state@.dom().contains(k) by {
            if names.contains(k) {
                let a = choose|a: int| 0 <= a < names.len() && names[a] == k;
                assert(out@[a]@ == keys[order@[a] as int]);
                assert(keys.to_set().contains(k)) by {
                    assert(keys.contains(k));
                }
            }
            if state@.dom().contains(k) {
                assert(keys.to_set().contains(k));
                let p = choose|p: int| 0 <= p < keys.len() && keys[p] == k;
                assert(graph_nodes(g).contains(p as usize));
                assert(order@.to_set().contains(p as usize));
                let a = choose|a: int| 0 <= a < order@.len() && order@[a] == p as usize;
                assert(out@[a]@ == k);
                assert(names[a] == k);
            }
            assert(names.to_set().contains(k) == names.contains(k));
        }
        assert(names.to_set() =~= state@.dom());
        assert forall|a: int, b: int|
            0 <= a < names.len() && 0 <= b < names.len() && #[trigger] es.contains(
                (names[a], names[b]),
            ) implies b < a by {
            assert(out@[a]@ == keys[order@[a] as int]);
            assert(out@[b]@ == keys[order@[b] as int]);
            let (p, q) = choose|p: usize, q: usize| #[trigger]
                ix.contains((p, q)) && p < keys.len() && q < keys.len() && keys[p as int]
                    == names[a] && keys[q as int] == names[b];
            assert(p == order@[a] && q == order@[b]);
            assert(graph_edges(g).contains((order@[b], order@[a])));
        }
    }
    Ok(out)
}

/// Whether a task is done, among those that exist.
pub open spec fn done_task(s: StateV, id: Seq<char>, field: Seq<char>, done: Seq<char>) -> bool {
    s.contains_key(id) && model::done_in(s[id].custom_fields, field, done)
}

/// Whether a task exists and is not done.
pub open spec fn open_task(s: StateV, id: Seq<char>, field: Seq<char>, done: Seq<char>) -> bool {
    s.contains_key(id) && !model::done_in(s[id].custom_fields, field, done)
}

/// Whether a task waits for one that exists and is not done.
pub open spec fn blocked_task(
    s: StateV,
    id: Seq<char>,
    field: Seq<char>,
    done: Seq<char>,
    blockers: Set<Seq<char>>,
) -> bool {
    exists|b: Seq<char>| #[trigger]
        dep_edges(s, blockers).contains((id, b)) && open_task(s, b, field, done)
}

/// Whether a task can be worked on: not done, and not waiting for one that is
/// not done.
pub open spec fn ready_task(
    s: StateV,
    id: Seq<char>,
    field: Seq<char>,
    done: Seq<char>,
    blockers: Set<Seq<char>>,
) -> bool {
    open_task(s, id, field, done) && !blocked_task(s, id, field, done, blockers)
}

/// Whether the task `id` waits for one that is not done.
pub fn is_blocked(
    state: &StrMap<TaskState>,
    id: &str,
    task: &TaskState,
    status_field: &str,
    done_status: &str,
    blockers: &StrSet,
) -> (r: bool)
    requires
        state@.contains_key(id@),
        state@[id@] == task@,
    ensures
        r == blocked_task(state@, id@, status_field@, done_status@, blockers@),
{
    let edges = blocker_edges(task, blockers);
    let ghost all = edges.deep_view();
    let ghost es = dep_edges(state@, blockers@);
    let mut i: usize = 0;
    while i < edges.len()
        invariant
            i <= edges.len(),
            all == edges.deep_view(),
            es == dep_edges(state@, blockers@),
            state@.contains_key(id@),
            state@[id@] == task@,
            forall|target: Seq<char>, rel: Seq<char>| #[trigger]
                all.contains((target, rel)) <==> blockers@.contains(rel)
                    && task@.relationships.contains_key(rel)
                    && task@.relationships[rel].contains(target),
            forall|k: int|
                0 <= k < i ==> !open_task(
                    state@,
                    (#[trigger] all[k]).0,
                    status_field@,
                    done_status@,
                ),
        decreases edges.len() - i,
    {
        assert(all[i as int].0 == edges@[i as int].0@);
        if let Some(dep) = state.get(edges[i].0.as_str()) {
            if !model::is_done(dep, status_field, done_status) {
                proof {
                    let e = all[i as int];
                    assert(all.contains((e.0, e.1)));
                    assert(task@.relationships.contains_key(e.1));
                    assert(es.contains((id@, e.0)));
                }
                return true;
            }
        }
        i += 1;
    }
    proof {
        if blocked_task(state@, id@, status_field@, done_status@, blockers@) {
            let b = choose|b: Seq<char>| #[trigger]
                es.contains((id@, b)) && open_task(state@, b, status_field@, done_status@);
            let rel = choose|rel: Seq<char>|
                blockers@.contains(rel) && #[trigger] task@.relationships.contains_key(rel)
                    && task@.relationships[rel].contains(b);
            assert(all.contains((b, rel)));
            let k = choose|k: int| 0 <= k < all.len() && all[k] == (b, rel);
            assert(all[k].0 == b);
        }
    }
    false
}

/// The tasks that can be worked on, in an order in which each comes after those
/// it waits for, or an error where the blocker graph has a cycle.
pub fn ready_tasks(
    state: &StrMap<TaskState>,
    status_field: &str,
    done_status: &str,
    blockers: &StrSet,
) -> (r: Result<Vec<String>, String>)
    ensures
        r is Err <==> reach::cyclic(dep_edges(state@, blockers@)),
        match r {
            Ok(ready) => {
                &&& ready.deep_view().no_duplicates()
                &&& forall|id: Seq<char>| #[trigger]
                    ready.deep_view().contains(id) <==> ready_task(
                        state@,
                        id,
                        status_field@,
                        done_status@,
                        blockers@,
                    )
                &&& dependencies_first(ready.deep_view(), dep_edges(state@, blockers@))
            },
            Err(m) => m@ == cycle_message(),
        },
{
    let order = validate_and_sort_dependencies(state, blockers)?;
    let ghost all = order.deep_view();
    let ghost es = dep_edges(state@, blockers@);
    let mut ready: Vec<String> = Vec::new();
    let mut i: usize = 0;
    while i < order.len()
        invariant
            i <= order.len(),
            all == order.deep_view(),
            all.no_duplicates(),
            all.to_set() == state@.dom(),
            ready.deep_view().no_duplicates(),
            forall|id: Seq<char>| #[trigger]
                ready.deep_view().contains(id) <==> all.take(i as int).contains(id) && ready_task(
                    state@,
                    id,
                    status_field@,
                    done_status@,
                    blockers@,
                ),
        decreases order.len() - i,
    {
        let id = &order[i];
        let ghost had = ready.deep_view();
        let ghost name = all[i as int];
        assert(name == id@);
        assert(all.to_set().contains(name)) by {
            assert(all.contains(name));
        }
        let mut keep = false;
        if let Some(task) = state.get(id.as_str()) {
            keep = !model::is_done(task, status_field, done_status) && !is_blocked(
                state,
                id.as_str(),
                task,
                status_field,
                done_status,
                blockers,
            );
        }
        assert(keep == ready_task(state@, name, status_field@, done_status@, blockers@));
        if keep {
            ready.push(id.clone());
            assert(ready.deep_view() =~= had.push(name));
        }
        proof {
            let longer = all.take(i as int + 1);
            let shorter = all.take(i as int);
            assert(longer =~= shorter.push(name));
            assert(!shorter.contains(name)) by {
                if shorter.contains(name) {
                    let k = choose|k: int| 0 <= k < shorter.len() && shorter[k] == name;
                    assert(all[k] == all[i as int]);
                }
            }
            assert forall|q: Seq<char>| longer.contains(q) <==> shorter.contains(q) || q
                == name by {
                if shorter.contains(q) {
                    let k = choose|k: int| 0 <= k < shorter.len() && shorter[k] == q;
                    assert(longer[k] == q);
                }
                assert(longer[i as int] == name);
            }
            assert forall|q: Seq<char>| #[trigger]
                ready.deep_view().contains(q) <==> longer.contains(q) && ready_task(
                    state@,
                    q,
                    status_field@,
                    done_status@,
                    blockers@,
                ) by {
                if keep {
                    if had.contains(q) {
                        let k = choose|k: int| 0 <= k < had.len() && had[k] == q;
                        assert(ready.deep_view()[k] == q);
                    }
                    assert(ready.deep_view()[had.len() as int] == name);
                }
            }
            assert(ready.deep_view().no_duplicates()) by {
                assert(!had.contains(name));
                assert forall|a: int, b: int|
                    0 <= a < ready.deep_view().len() && 0 <= b < ready.deep_view().len() && a
                        != b implies ready.deep_view()[a] != ready.deep_view()[b] by {
                    if a < had.len() {
                        assert(had.contains(had[a]));
                    }
                    if b < had.len() {
                        assert(had.contains(had[b]));
                    }
                }
            }
        }
        i += 1;
    }
    proof {
        assert(all.take(order.len() as int) =~= all);
        let names = ready.deep_view();
        assert forall|id: Seq<char>| #[trigger] names.contains(id) <==> ready_task(
            state@,
            id,
            status_field@,
            done_status@,
            blockers@,
        ) by {
            assert(all.to_set().contains(id) == all.contains(id));
        }
        assert forall|a: int, b: int|
            0 <= a < names.len() && 0 <= b < names.len() && #[trigger] es.contains(
                (names[a], names[b]),
            ) implies b < a by {
            assert(names.contains(names[a]));
            assert(names.contains(names[b]));
            assert(blocked_task(state@, names[a], status_field@, done_status@, blockers@));
        }
    }
    Ok(ready)
}

/// Among the tasks that are not done, the ready ones and the blocked ones make
/// up the whole, and none is both.
pub proof fn ready_and_blocked_partition(
    s: StateV,
    id: Seq<char>,
    field: Seq<char>,
    done: Seq<char>,
    blockers: Set<Seq<char>>,
)
    requires
        open_task(s, id, field, done),
    ensures
        ready_task(s, id, field, done, blockers) != blocked_task(s, id, field, done, blockers),
{
}

/// No ready task waits for another.
pub proof fn ready_tasks_are_independent(
    s: StateV,
    a: Seq<char>,
    b: Seq<char>,
    field: Seq<char>,
    done: Seq<char>,
    blockers: Set<Seq<char>>,
)
    requires
        ready_task(s, a, field, done, blockers),
        ready_task(s, b, field, done, blockers),
    ensures
        !dep_edges(s, blockers).contains((a, b)),
{
    if dep_edges(s, blockers).contains((a, b)) {
        assert(blocked_task(s, a, field, done, blockers));
    }
}

/// Whether `g` is a group of tasks that all wait for each other: more than one,
/// in id order, and none left out.
pub open spec fn cycle_group(
    s: StateV,
    es: Set<(Seq<char>, Seq<char>)>,
    g: Seq<Seq<char>>,
) -> bool {
    &&& g.len() > 1
    &&& strmap::ascending(g)
    &&& forall|a: Seq<char>| #[trigger] g.contains(a) ==> s.contains_key(a)
    &&& forall|a: Seq<char>, b: Seq<char>| #[trigger]
        g.contains(a) && #[trigger] s.contains_key(b) && a != b ==> (g.contains(b)
            <==> reach::reaches(es, a, b) && reach::reaches(es, b, a))
}

/// Whether `g` is a cycle of the blocker graph: a group of tasks that wait for
/// each other, or a single task that waits for itself.
pub open spec fn is_cycle(s: StateV, blockers: Set<Seq<char>>, g: Seq<Seq<char>>) -> bool {
    let es = dep_edges(s, blockers);
    if g.len() == 1 {
        es.contains((g[0], g[0]))
    } else {
        cycle_group(s, es, g)
    }
}

/// The names at the places of `part`.
spec fn part_names(keys: Seq<Seq<char>>, part: Seq<usize>) -> Set<Seq<char>> {
    Set::new(|k: Seq<char>| exists|i: int| 0 <= i < part.len() && keys[#[trigger] part[i] as int] == k)
}

/// Whether `g` is the group of names of one of the first `p` parts.
spec fn is_part(keys: Seq<Seq<char>>, parts: Seq<Seq<usize>>, p: int, g: Seq<Seq<char>>) -> bool {
    exists|q: int|
        0 <= q < p && (#[trigger] parts[q]).len() > 1 && strmap::ascending(g) && g.to_set()
            == part_names(keys, parts[q])
}

/// Whether `g` is one of the first `n` names alone, and that task waits for itself.
spec fn is_loop(
    s: StateV,
    blockers: Set<Seq<char>>,
    keys: Seq<Seq<char>>,
    n: int,
    g: Seq<Seq<char>>,
) -> bool {
    g.len() == 1 && keys.take(n).contains(g[0]) && dep_edges(s, blockers).contains((g[0], g[0]))
}

/// 1 if `b` holds, 0 if not.
spec fn once(b: bool) -> nat {
    if b {
        1
    } else {
        0
    }
}

fn sorted_names(state: &StrMap<TaskState>, part: &Vec<usize>) -> (r: Vec<String>)
    requires
        forall|i: int| 0 <= i < part.len() ==> #[trigger] part[i] < state.keys_view().len(),
    ensures
        strmap::ascending(r.deep_view()),
        r.deep_view().to_set() == part_names(state.keys_view(), part@),
{
    let ghost keys = state.keys_view();
    let mut set = StrSet::new();
    let mut i: usize = 0;
    assert(set@ =~= part_names(keys, part@.take(0)));
    while i < part.len()
        invariant
            i <= part.len(),
            keys == state.keys_view(),
            forall|i: int| 0 <= i < part.len() ==> #[trigger] part[i] < state.keys_view().len(),
            set@ == part_names(keys, part@.take(i as int)),
        decreases part.len() - i,
    {
        let name = state.key_at(part[i]);
        let _ = set.insert(name.clone());
        proof {
            let longer = part@.take(i as int + 1);
            let shorter = part@.take(i as int);
            assert forall|k: Seq<char>| part_names(keys, longer).contains(k) <==> part_names(
                keys,
                shorter,
            ).insert(name@).contains(k) by {
                if part_names(keys, longer).contains(k) {
                    let x = choose|x: int|
                        0 <= x < longer.len() && keys[#[trigger] longer[x] as int] == k;
                    if x < i {
                        assert(shorter[x] == longer[x]);
                    }
                }
                if part_names(keys, shorter).contains(k) {
                    let x = choose|x: int|
                        0 <= x < shorter.len() && keys[#[trigger] shorter[x] as int] == k;
                    assert(shorter[x] == longer[x]);
                }
                assert(keys[longer[i as int] as int] == name@);
            }
            assert(part_names(keys, longer) =~= part_names(keys, shorter).insert(name@));
        }
        i += 1;
    }
    assert(part@.take(part.len() as int) =~= part@);
    members_of(&set)
}

proof fn lemma_parts_are_groups(
    s: StateV,
    es: Set<(Seq<char>, Seq<char>)>,
    keys: Seq<Seq<char>>,
    ix: Set<(usize, usize)>,
    parts: Seq<Seq<usize>>,
    nodes: Set<usize>,
    g: Seq<Seq<char>>,
)
    requires
        keys.to_set() == s.dom(),
        keys.len() <= usize::MAX,
        reach::names_edges(ix, keys, es),
        forall|n: usize| #[trigger] nodes.contains(n) <==> n < keys.len(),
        components_of(parts, nodes, reach::flipped(ix)),
    ensures
        is_part(keys, parts, parts.len() as int, g) <==> cycle_group(s, es, g),
{
    assert forall|a: usize, b: usize| a < keys.len() && b < keys.len() implies (
    #[trigger] reach::reaches(reach::flipped(ix), a, b) <==> reach::reaches(
        es,
        keys[b as int],
        keys[a as int],
    )) by {
        reach::lemma_names_reaches(ix, keys, es, b, a);
        if reach::reaches(reach::flipped(ix), a, b) {
            let n = choose|n: nat| n >= 1 && #[trigger] reach::reach_in(reach::flipped(ix), a, b, n);
            reach::lemma_flipped(reach::flipped(ix), a, b, n);
            assert(reach::flipped(reach::flipped(ix)) =~= ix);
            assert(n >= 1 && reach::reach_in(ix, b, a, n));
        }
        if reach::reaches(ix, b, a) {
            let n = choose|n: nat| n >= 1 && #[trigger] reach::reach_in(ix, b, a, n);
            reach::lemma_flipped(ix, b, a, n);
            assert(n >= 1 && reach::reach_in(reach::flipped(ix), a, b, n));
        }
    }
    assert forall|k: Seq<char>| s.contains_key(k) <==> keys.contains(k) by {
        assert(keys.to_set().contains(k) == keys.contains(k));
    }
    if is_part(keys, parts, parts.len() as int, g) {
        let q = choose|q: int|
            0 <= q < parts.len() && (#[trigger] parts[q]).len() > 1 && strmap::ascending(g)
                && g.to_set() == part_names(keys, parts[q]);
        let part = parts[q];
        assert forall|a: Seq<char>| #[trigger] g.contains(a) implies exists|i: int|
            0 <= i < part.len() && keys[#[trigger] part[i] as int] == a by {
            assert(g.to_set().contains(a));
        }
        let a0 = keys[part[0] as int];
        let a1 = keys[part[1] as int];
        assert(nodes.contains(parts[q][0]));
        assert(nodes.contains(parts[q][1]));
        assert(part_names(keys, part).contains(a0));
        assert(part_names(keys, part).contains(a1));
        assert(g.to_set().contains(a0) && g.to_set().contains(a1));
        assert(a0 != a1);
        assert(g.len() > 1) by {
            let x = choose|x: int| 0 <= x < g.len() && g[x] == a0;
            let y = choose|y: int| 0 <= y < g.len() && g[y] == a1;
            assert(x != y);
        }
        assert forall|a: Seq<char>| #[trigger] g.contains(a) implies s.contains_key(a) by {
            let i = choose|i: int| 0 <= i < part.len() && keys[#[trigger] part[i] as int] == a;
            assert(nodes.contains(parts[q][i]));
        }
        assert forall|a: Seq<char>, b: Seq<char>| #[trigger]
            g.contains(a) && #[trigger] s.contains_key(b) && a != b implies (g.contains(b)
            <==> reach::reaches(es, a, b) && reach::reaches(es, b, a)) by {
            let i = choose|i: int| 0 <= i < part.len() && keys[#[trigger] part[i] as int] == a;
            assert(nodes.contains(parts[q][i]));
            let ia = part[i];
            assert(part.contains(ia));
            let jb = choose|jb: int| 0 <= jb < keys.len() && keys[jb] == b;
            let ib = jb as usize;
            assert(nodes.contains(ib));
            assert(ia != ib);
            assert(part.contains(ib) <==> reach::reaches(reach::flipped(ix), ia, ib)
                && reach::reaches(reach::flipped(ix), ib, ia));
            if g.contains(b) {
                let k = choose|k: int| 0 <= k < part.len() && keys[#[trigger] part[k] as int] == b;
                assert(nodes.contains(parts[q][k]));
                assert(part[k] == ib);
            }
            if part.contains(ib) {
                let k = choose|k: int| 0 <= k < part.len() && part[k] == ib;
                assert(keys[part[k] as int] == b);
                assert(part_names(keys, part).contains(b));
                assert(g.to_set().contains(b));
            }
        }
    }
    if cycle_group(s, es, g) {
        let a = g[0];
        assert(g.contains(a));
        let ja = choose|ja: int| 0 <= ja < keys.len() && keys[ja] == a;
        let ia = ja as usize;
        assert(nodes.contains(ia));
        let q = choose|q: int| 0 <= q < parts.len() && #[trigger] parts[q].contains(ia);
        let part = parts[q];
        assert forall|b: Seq<char>| g.to_set().contains(b) <==> part_names(keys, part).contains(b) by {
            assert(g.to_set().contains(b) == g.contains(b));
            if keys.contains(b) {
                assert(s.contains_key(b));
                let jb = choose|jb: int| 0 <= jb < keys.len() && keys[jb] == b;
                let ib = jb as usize;
                assert(nodes.contains(ib));
                if ia != ib {
                    assert(part.contains(ib) <==> reach::reaches(reach::flipped(ix), ia, ib)
                        && reach::reaches(reach::flipped(ix), ib, ia));
                }
                if part.contains(ib) {
                    let k = choose|k: int| 0 <= k < part.len() && part[k] == ib;
                    assert(keys[part[k] as int] == b);
                }
                if part_names(keys, part).contains(b) {
                    let k = choose|k: int|
                        0 <= k < part.len() && keys[#[trigger] part[k] as int] == b;
                    assert(nodes.contains(parts[q][k]));
                    assert(part[k] == ib);
                }
            } else if part_names(keys, part).contains(b) {
                let k = choose|k: int| 0 <= k < part.len() && keys[#[trigger] part[k] as int] == b;
                assert(nodes.contains(parts[q][k]));
            }
        }
        assert(g.to_set() =~= part_names(keys, part));
        let b = g[1];
        assert(g.contains(b));
        strmap::lemma_ascending_distinct(g);
        assert(g.to_set().contains(b) && g.to_set().contains(a));
        let x = choose|x: int| 0 <= x < part.len() && keys[#[trigger] part[x] as int] == a;
        let y = choose|y: int| 0 <= y < part.len() && keys[#[trigger] part[y] as int] == b;
        assert(part_names(keys, part).contains(a) && part_names(keys, part).contains(b));
        assert(x != y);
        assert(parts[q].len() > 1);
    }
}

fn component_groups(state: &StrMap<TaskState>, parts: &Vec<Vec<usize>>) -> (r: Vec<Vec<String>>)
    requires
        forall|p: int, i: int|
            0 <= p < parts.len() && 0 <= i < parts[p].len() ==> #[trigger] parts[p][i]
                < state.keys_view().len(),
        state.keys_view().no_duplicates(),
        forall|p: int, q: int, n: usize|
            0 <= p < parts.len() && 0 <= q < parts.len()
                && #[trigger] parts.deep_view()[p].contains(n)
                && #[trigger] parts.deep_view()[q].contains(n) ==> p == q,
    ensures
        forall|g: Seq<Seq<char>>|
            (#[trigger] r.deep_view().to_multiset().count(g)) == if is_part(
                state.keys_view(),
                parts.deep_view(),
                parts.len() as int,
                g,
            ) {
                1nat
            } else {
                0nat
            },
{
    broadcast use vstd::seq_lib::group_to_multiset_ensures;

    let ghost keys = state.keys_view();
    let ghost all = parts.deep_view();
    let mut out: Vec<Vec<String>> = Vec::new();
    let mut p: usize = 0;
    assert(out.deep_view() =~= Seq::<Seq<Seq<char>>>::empty());
    while p < parts.len()
        invariant
            p <= parts.len(),
            keys == state.keys_view(),
            keys.no_duplicates(),
            all == parts.deep_view(),
            forall|p: int, i: int|
                0 <= p < parts.len() && 0 <= i < parts[p].len() ==> #[trigger] parts[p][i]
                    < state.keys_view().len(),
            forall|p: int, q: int, n: usize|
                0 <= p < parts.len() && 0 <= q < parts.len() && #[trigger] all[p].contains(n)
                    && #[trigger] all[q].contains(n) ==> p == q,
            forall|g: Seq<Seq<char>>|
                (#[trigger] out.deep_view().to_multiset().count(g)) == if is_part(
                    keys,
                    all,
                    p as int,
                    g,
                ) {
                    1nat
                } else {
                    0nat
                },
        decreases parts.len() - p,
    {
        let ghost was = out.deep_view();
        let ghost part = all[p as int];
        assert(part =~= parts@[p as int]@);
        if parts[p].len() > 1 {
            let names = sorted_names(state, &parts[p]);
            let ghost here = names.deep_view();
            out.push(names);
            proof {
                assert(out.deep_view() =~= was.push(here));
                assert forall|g: Seq<Seq<char>>| is_part(keys, all, p as int, g) implies g
                    != here by {
                    if g == here {
                        let q = choose|q: int|
                            0 <= q < p && (#[trigger] all[q]).len() > 1 && strmap::ascending(g)
                                && g.to_set() == part_names(keys, all[q]);
                        let k = keys[part[0] as int];
                        assert(part_names(keys, part).contains(k));
                        assert(part_names(keys, all[q]).contains(k));
                        let x = choose|x: int|
                            0 <= x < all[q].len() && keys[#[trigger] all[q][x] as int] == k;
                        assert(parts[q][x] < keys.len());
                        assert(parts[p as int][0] < keys.len());
                        assert(all[q][x] == part[0]);
                        assert(all[q].contains(part[0]));
                        assert(all[p as int].contains(part[0]));
                    }
                }
                assert forall|g: Seq<Seq<char>>|
                    (#[trigger] out.deep_view().to_multiset().count(g)) == if is_part(
                        keys,
                        all,
                        p as int + 1,
                        g,
                    ) {
                        1nat
                    } else {
                        0nat
                    } by {
                    if is_part(keys, all, p as int + 1, g) && !is_part(keys, all, p as int, g) {
                        assert(strmap::ascending(g) && g.to_set() == part_names(keys, part));
                        strmap::ascending_is_unique(g, here);
                    }
                    if is_part(keys, all, p as int, g) {
                        let q = choose|q: int|
                            0 <= q < p && (#[trigger] all[q]).len() > 1 && strmap::ascending(g)
                                && g.to_set() == part_names(keys, all[q]);
                        assert(0 <= q < p + 1 && all[q].len() > 1);
                    }
                    if g == here {
                        assert(all[p as int].len() > 1);
                        assert(is_part(keys, all, p as int + 1, g));
                    }
                    vstd::seq_lib::to_multiset_build(was, here);
                    assert(out.deep_view().to_multiset() =~= was.to_multiset().insert(here));
                }
            }
        } else {
            proof {
                assert forall|g: Seq<Seq<char>>| is_part(keys, all, p as int + 1, g) == is_part(
                    keys,
                    all,
                    p as int,
                    g,
                ) by {
                    if is_part(keys, all, p as int, g) {
                        let q = choose|q: int|
                            0 <= q < p && (#[trigger] all[q]).len() > 1 && strmap::ascending(g)
                                && g.to_set() == part_names(keys, all[q]);
                        assert(0 <= q < p + 1 && all[q].len() > 1);
                    }
                }
            }
        }
        p += 1;
    }
    out
}

/// Whether a task has an edge of a blocker type to itself.
fn waits_for_itself(task: &TaskState, id: &str, blockers: &StrSet) -> (r: bool)
    ensures
        r == gates(task@, blockers@, id@),
{
    let edges = blocker_edges(task, blockers);
    let ghost all = edges.deep_view();
    let mut j: usize = 0;
    while j < edges.len()
        invariant
            j <= edges.len(),
            all == edges.deep_view(),
            forall|k: int| 0 <= k < j ==> (#[trigger] all[k]).0 != id@,
            forall|target: Seq<char>, rel: Seq<char>| #[trigger]
                all.contains((target, rel)) <==> blockers@.contains(rel)
                    && task@.relationships.contains_key(rel) && task@.relationships[rel].contains(
                    target,
                ),
        decreases edges.len() - j,
    {
        if text::same_text(edges[j].0.as_str(), id) {
            proof {
                let e = all[j as int];
                assert(e == (id@, e.1));
                assert(all.contains((id@, e.1)));
            }
            return true;
        }
        assert(all[j as int].0 != id@);
        j += 1;
    }
    proof {
        if gates(task@, blockers@, id@) {
            let rel = choose|rel: Seq<char>|
                blockers@.contains(rel) && #[trigger] task@.relationships.contains_key(rel)
                    && task@.relationships[rel].contains(id@);
            assert(all.contains((id@, rel)));
        }
    }
    false
}

fn add_self_loops(
    state: &StrMap<TaskState>,
    blockers: &StrSet,
    groups: Vec<Vec<String>>,
) -> (r: Vec<
    Vec<String>,
>)
    ensures
        forall|g: Seq<Seq<char>>|
            (#[trigger] r.deep_view().to_multiset().count(g))
                == groups.deep_view().to_multiset().count(g) + once(
                g.len() == 1 && dep_edges(state@, blockers@).contains((g[0], g[0])),
            ),
{
    broadcast use vstd::seq_lib::group_to_multiset_ensures;

    let ghost s = state@;
    let n = state.len();
    let ghost keys = state.keys_view();
    let ghost start = groups.deep_view().to_multiset();
    proof {
        strmap::lemma_ascending_distinct(keys);
    }
    let mut out = groups;
    let mut i: usize = 0;
    while i < n
        invariant
            i <= n,
            n == keys.len(),
            s == state@,
            keys == state.keys_view(),
            keys.no_duplicates(),
            forall|g: Seq<Seq<char>>|
                (#[trigger] out.deep_view().to_multiset().count(g)) == start.count(g) + once(
                    is_loop(s, blockers@, keys, i as int, g),
                ),
        decreases n - i,
    {
        let id = state.key_at(i);
        let ghost own = seq![keys[i as int]];
        let ghost was = out.deep_view();
        let looped = waits_for_itself(state.value_at(i), id.as_str(), blockers);
        assert(keys.to_set().contains(keys[i as int]));
        assert(looped == dep_edges(s, blockers@).contains((id@, id@)));
        if looped {
            let mut one: Vec<String> = Vec::new();
            one.push(id.clone());
            assert(one.deep_view() =~= own);
            out.push(one);
            assert(out.deep_view() =~= was.push(own));
            proof {
                vstd::seq_lib::to_multiset_build(was, own);
            }
            assert(out.deep_view().to_multiset() =~= was.to_multiset().insert(own));
        }
        proof {
            assert forall|g: Seq<Seq<char>>| once(is_loop(s, blockers@, keys, i as int + 1, g))
                == once(is_loop(s, blockers@, keys, i as int, g)) + once(g == own && looped) by {
                if g.len() == 1 {
                    strmap::lemma_take_one_more(keys, i as int, g[0]);
                    if g[0] == keys[i as int] {
                        assert(g =~= own);
                        if keys.take(i as int).contains(g[0]) {
                            let x = choose|x: int|
                                0 <= x < i && keys.take(i as int)[x] == g[0];
                            assert(keys[x] == keys[i as int]);
                        }
                    }
                }
            }
        }
        i += 1;
    }
    proof {
        assert(keys.take(n as int) =~= keys);
        assert forall|g: Seq<Seq<char>>|
            (#[trigger] out.deep_view().to_multiset().count(g)) == start.count(g) + once(
                g.len() == 1 && dep_edges(s, blockers@).contains((g[0], g[0])),
            ) by {
            if g.len() == 1 {
                assert(keys.to_set().contains(g[0]) == keys.contains(g[0]));
            }
        }
    }
    out
}

/// Whether `r` lists the cycles of the blocker graph: each once, and in order.
pub open spec fn is_cycle_list(
    s: StateV,
    blockers: Set<Seq<char>>,
    r: Seq<Seq<Seq<char>>>,
) -> bool {
    &&& r.no_duplicates()
    &&& forall|g: Seq<Seq<char>>| #[trigger] r.contains(g) <==> is_cycle(s, blockers, g)
    &&& sort::lists_in_order(r)
}

/// The cycles of the blocker graph, in order.
pub open spec fn cycle_list(s: StateV, blockers: Set<Seq<char>>) -> Seq<Seq<Seq<char>>> {
    choose|r: Seq<Seq<Seq<char>>>| is_cycle_list(s, blockers, r)
}

/// There is at most one list of the cycles.
pub proof fn cycle_list_is_unique(s: StateV, blockers: Set<Seq<char>>, r: Seq<Seq<Seq<char>>>)
    requires
        is_cycle_list(s, blockers, r),
    ensures
        r == cycle_list(s, blockers),
{
    broadcast use vstd::seq_lib::group_to_multiset_ensures;

    let q = cycle_list(s, blockers);
    r.lemma_multiset_has_no_duplicates();
    q.lemma_multiset_has_no_duplicates();
    assert forall|g: Seq<Seq<char>>| r.to_multiset().count(g) == q.to_multiset().count(g) by {
        assert(r.contains(g) == q.contains(g));
        assert(r.contains(g) <==> r.to_multiset().count(g) > 0);
        assert(q.contains(g) <==> q.to_multiset().count(g) > 0);
    }
    assert(r.to_multiset() =~= q.to_multiset());
    sort::lists_in_order_unique(r, q);
}

/// The cycles of the blocker graph: each group of tasks that wait for each
/// other, and each task that waits for itself. Every group is in id order, and
/// so is the list of them.
pub fn dependency_cycles(state: &StrMap<TaskState>, blockers: &StrSet) -> (r: Vec<Vec<String>>)
    ensures
        is_cycle_list(state@, blockers@, r.deep_view()),
        r.deep_view() == cycle_list(state@, blockers@),
        r.len() == 0 <==> !reach::cyclic(dep_edges(state@, blockers@)),
{
    let adj = prerequisites(state, blockers);
    let n = state.len();
    let ghost keys = state.keys_view();
    let ghost es = dep_edges(state@, blockers@);
    let ghost ix = reach::adjacency(adj.deep_view());
    let g = dependents_graph(&adj);
    let parts = graph_components(&g);
    let ghost all = parts.deep_view();
    proof {
        strmap::lemma_ascending_distinct(keys);
        assert forall|p: int, i: int| 0 <= p < parts.len() && 0 <= i < parts[p].len() implies (
        #[trigger] parts[p][i]) < keys.len() by {
            assert(all[p][i] == parts[p][i]);
            assert(graph_nodes(g).contains(all[p][i]));
        }
    }
    let groups = component_groups(state, &parts);
    let pre = add_self_loops(state, blockers, groups);
    let ghost lists = pre.deep_view();
    let by = sort::ByList { lists: &pre };
    let order = sort::sort_indices(pre.len(), &by);
    let mut out: Vec<Vec<String>> = Vec::new();
    let mut i: usize = 0;
    while i < order.len()
        invariant
            i <= order.len(),
            sort::is_permutation(order@, pre.len() as nat),
            lists == pre.deep_view(),
            out.len() == i,
            forall|k: int| 0 <= k < i ==> (#[trigger] out@[k]).deep_view() == lists[order@[k] as int],
        decreases order.len() - i,
    {
        out.push(pre[order[i]].copy());
        i += 1;
    }
    proof {
        assert(out.deep_view() =~= sort::permuted(lists, order@));
        sort::lemma_permuted(lists, order@);
        broadcast use vstd::seq_lib::group_to_multiset_ensures;

        let found = out.deep_view();
        assert forall|h: Seq<Seq<char>>|
            (#[trigger] found.to_multiset().count(h)) == once(is_cycle(state@, blockers@, h)) by {
            lemma_parts_are_groups(state@, es, keys, ix, all, graph_nodes(g), h);
            assert(lists.to_multiset().count(h) == found.to_multiset().count(h));
        }
        found.lemma_multiset_has_no_duplicates_conv();
        assert forall|h: Seq<Seq<char>>| #[trigger] found.contains(h) <==> is_cycle(
            state@,
            blockers@,
            h,
        ) by {
            assert(found.contains(h) <==> found.to_multiset().count(h) > 0);
        }
        assert forall|i: int, j: int| 0 <= i < j < out.len() implies !(#[trigger] sort::list_lt(
            out.deep_view()[j],
            out.deep_view()[i],
        )) by {
            assert(!sort::Ranking::precedes(&by, order@[j] as int, order@[i] as int));
        }
        cycle_list_is_unique(state@, blockers@, out.deep_view());
        cycles_are_reported(state@, blockers@);
        if reach::cyclic(es) {
            let h = choose|h: Seq<Seq<char>>| #[trigger] is_cycle(state@, blockers@, h);
            assert(found.contains(h));
        } else if found.len() > 0 {
            assert(found.contains(found[0]));
        }
    }
    out
}

/// Cycles are reported exactly if the graph has no dependency order: some group
/// is a cycle if and only if some task can be reached from itself.
pub proof fn cycles_are_reported(s: StateV, blockers: Set<Seq<char>>)
    requires
        finite_state(s),
    ensures
        (exists|g: Seq<Seq<char>>| #[trigger] is_cycle(s, blockers, g)) <==> reach::cyclic(
            dep_edges(s, blockers),
        ),
{
    let es = dep_edges(s, blockers);
    if exists|g: Seq<Seq<char>>| #[trigger] is_cycle(s, blockers, g) {
        let g = choose|g: Seq<Seq<char>>| #[trigger] is_cycle(s, blockers, g);
        let a = g[0];
        if g.len() == 1 {
            assert(es.contains((a, a)));
            reach::lemma_edge_reaches(es, a, a);
        } else {
            let b = g[1];
            assert(g.contains(a) && g.contains(b));
            strmap::lemma_ascending_distinct(g);
            assert(s.contains_key(a) && s.contains_key(b));
            reach::reaches_transitive(es, a, b, a);
        }
    }
    if reach::cyclic(es) {
        let a = choose|a: Seq<char>| #[trigger] reach::reaches(es, a, a);
        reach::lemma_first_edge(es, a, a);
        let c = choose|c: Seq<char>| #[trigger]
            es.contains((a, c)) && (c == a || reach::reaches(es, c, a));
        if c == a {
            assert(is_cycle(s, blockers, seq![a]));
        } else {
            reach::lemma_edge_reaches(es, a, c);
            let members = s.dom().filter(
                |b: Seq<char>| b == a || (reach::reaches(es, a, b) && reach::reaches(es, b, a)),
            );
            s.dom().lemma_len_filter(
                |b: Seq<char>| b == a || (reach::reaches(es, a, b) && reach::reaches(es, b, a)),
            );
            strmap::sorted_of_finite(members);
            let g = strmap::sorted_of(members);
            assert forall|b: Seq<char>| g.contains(b) <==> members.contains(b) by {
                assert(g.to_set().contains(b) == g.contains(b));
            }
            assert(members.contains(a) && members.contains(c));
            assert(g.len() > 1) by {
                let x = choose|x: int| 0 <= x < g.len() && g[x] == a;
                let y = choose|y: int| 0 <= y < g.len() && g[y] == c;
                assert(x != y);
            }
            assert forall|x: Seq<char>, y: Seq<char>| #[trigger]
                g.contains(x) && #[trigger] s.contains_key(y) && x != y implies (g.contains(y)
                <==> reach::reaches(es, x, y) && reach::reaches(es, y, x)) by {
                if g.contains(y) {
                    if x != a && y != a {
                        reach::reaches_transitive(es, x, a, y);
                        reach::reaches_transitive(es, y, a, x);
                    }
                }
                if reach::reaches(es, x, y) && reach::reaches(es, y, x) && x != a {
                    reach::reaches_transitive(es, a, x, y);
                    reach::reaches_transitive(es, y, x, a);
                }
            }
            assert(cycle_group(s, es, g));
            assert(is_cycle(s, blockers, g));
        }
    }
}

/// The children under the first of the hierarchy types, type by type.
pub open spec fn children_under(rels: RelsV, types: Seq<Seq<char>>) -> Seq<Seq<char>>
    decreases types.len(),
{
    if types.len() == 0 {
        Seq::empty()
    } else {
        children_under(rels, types.drop_last()) + model::targets(rels, types.last())
    }
}

/// A task's subtasks: the targets of its edges of the hierarchy types.
pub open spec fn children(t: TaskV, hierarchy: Set<Seq<char>>) -> Seq<Seq<char>> {
    children_under(t.relationships, strmap::sorted_of(hierarchy))
}

/// How many of `ids` are done tasks.
pub open spec fn done_among(
    s: StateV,
    ids: Seq<Seq<char>>,
    field: Seq<char>,
    done: Seq<char>,
) -> nat
    decreases ids.len(),
{
    if ids.len() == 0 {
        0
    } else {
        done_among(s, ids.drop_last(), field, done) + if done_task(s, ids.last(), field, done) {
            1nat
        } else {
            0nat
        }
    }
}

/// A task's subtasks.
pub fn subtasks(task: &TaskState, hierarchy: &StrSet) -> (r: Vec<String>)
    ensures
        r.deep_view() == children(task@, hierarchy@),
{
    let n = hierarchy.len();
    let ghost types = hierarchy.members();
    let ghost rels = task@.relationships;
    let mut out: Vec<String> = Vec::new();
    let mut i: usize = 0;
    assert(out.deep_view() =~= children_under(rels, types.take(0)));
    while i < n
        invariant
            i <= n,
            n == types.len(),
            types == hierarchy.members(),
            rels == task@.relationships,
            out.deep_view() == children_under(rels, types.take(i as int)),
        decreases n - i,
    {
        let kind = hierarchy.at(i);
        let ghost longer = types.take(i as int + 1);
        assert(longer.drop_last() =~= types.take(i as int));
        assert(longer.last() == kind@);
        let ghost had = out.deep_view();
        match task.relationships.get(kind.as_str()) {
            Some(kids) => {
                append_all(&mut out, kids);
            },
            None => {
                assert(had + Seq::<Seq<char>>::empty() =~= had);
            },
        }
        i += 1;
    }
    assert(types.take(n as int) =~= types);
    out
}

/// Puts copies of `more` after `out`.
pub fn append_all(out: &mut Vec<String>, more: &Vec<String>)
    ensures
        final(out).deep_view() == old(out).deep_view() + more.deep_view(),
{
    let ghost had = out.deep_view();
    let ghost all = more.deep_view();
    let mut i: usize = 0;
    assert(had + all.take(0) =~= had);
    while i < more.len()
        invariant
            i <= more.len(),
            all == more.deep_view(),
            out.deep_view() == had + all.take(i as int),
        decreases more.len() - i,
    {
        let ghost now = out.deep_view();
        out.push(more[i].clone());
        assert(out.deep_view() =~= now.push(all[i as int]));
        assert(had + all.take(i as int + 1) =~= (had + all.take(i as int)).push(all[i as int]));
        i += 1;
    }
    assert(all.take(more.len() as int) =~= all);
}

/// How many of a task's subtasks are done, and how many there are.
pub fn subtask_counts(
    task: &TaskState,
    state: &StrMap<TaskState>,
    hierarchy: &StrSet,
    status_field: &str,
    done_status: &str,
) -> (r: (usize, usize))
    ensures
        r.0 == done_among(state@, children(task@, hierarchy@), status_field@, done_status@),
        r.1 == children(task@, hierarchy@).len(),
        r.0 <= r.1,
{
    let kids = subtasks(task, hierarchy);
    let ghost all = kids.deep_view();
    let mut done: usize = 0;
    let mut i: usize = 0;
    assert(all.take(0) =~= Seq::empty());
    while i < kids.len()
        invariant
            i <= kids.len(),
            all == kids.deep_view(),
            done <= i,
            done == done_among(state@, all.take(i as int), status_field@, done_status@),
        decreases kids.len() - i,
    {
        let ghost longer = all.take(i as int + 1);
        assert(longer.drop_last() =~= all.take(i as int));
        assert(longer.last() == kids@[i as int]@);
        if let Some(t) = state.get(kids[i].as_str()) {
            if model::is_done(t, status_field, done_status) {
                done += 1;
            }
        }
        i += 1;
    }
    assert(all.take(kids.len() as int) =~= all);
    (done, kids.len())
}

/// For each task with subtasks, how many are done and how many there are.
pub fn subtask_progress(
    state: &StrMap<TaskState>,
    hierarchy: &StrSet,
    status_field: &str,
    done_status: &str,
) -> (r: StrMap<(usize, usize)>)
    ensures
        forall|id: Seq<char>| #[trigger]
            r@.contains_key(id) <==> state@.contains_key(id) && children(
                state@[id],
                hierarchy@,
            ).len() > 0,
        forall|id: Seq<char>| #[trigger]
            r@.contains_key(id) ==> r@[id].0 == done_among(
                state@,
                children(state@[id], hierarchy@),
                status_field@,
                done_status@,
            ) && r@[id].1 == children(state@[id], hierarchy@).len(),
{
    let n = state.len();
    let ghost keys = state.keys_view();
    let ghost s = state@;
    let mut out: StrMap<(usize, usize)> = StrMap::new();
    let mut i: usize = 0;
    while i < n
        invariant
            i <= n,
            n == keys.len(),
            keys == state.keys_view(),
            s == state@,
            forall|id: Seq<char>| #[trigger]
                out@.contains_key(id) <==> keys.take(i as int).contains(id) && children(
                    s[id],
                    hierarchy@,
                ).len() > 0,
            forall|id: Seq<char>| #[trigger]
                out@.contains_key(id) ==> out@[id].0 == done_among(
                    s,
                    children(s[id], hierarchy@),
                    status_field@,
                    done_status@,
                ) && out@[id].1 == children(s[id], hierarchy@).len(),
        decreases n - i,
    {
        let id = state.key_at(i);
        let counts = subtask_counts(
            state.value_at(i),
            state,
            hierarchy,
            status_field,
            done_status,
        );
        let ghost had = out@;
        if counts.1 > 0 {
            out.insert(id.clone(), counts);
        }
        proof {
            assert forall|k: Seq<char>| #[trigger] out@.contains_key(k) <==> keys.take(
                i as int + 1,
            ).contains(k) && children(s[k], hierarchy@).len() > 0 by {
                strmap::lemma_take_one_more(keys, i as int, k);
                assert(had.contains_key(k) <==> keys.take(i as int).contains(k) && children(
                    s[k],
                    hierarchy@,
                ).len() > 0);
            }
        }
        i += 1;
    }
    proof {
        assert(keys.take(n as int) =~= keys);
        assert forall|id: Seq<char>| #[trigger] out@.contains_key(id) <==> s.contains_key(id)
            && children(s[id], hierarchy@).len() > 0 by {
            assert(keys.to_set().contains(id) == keys.contains(id));
        }
    }
    out
}

/// The blocker types under which a task has an edge to `target`, in order.
pub open spec fn kinds_to(
    rels: RelsV,
    keys: Seq<Seq<char>>,
    blockers: Set<Seq<char>>,
    target: Seq<char>,
) -> Seq<Seq<char>>
    decreases keys.len(),
{
    if keys.len() == 0 {
        Seq::empty()
    } else {
        let rest = kinds_to(rels, keys.drop_last(), blockers, target);
        if blockers.contains(keys.last()) && rels[keys.last()].contains(target) {
            rest.push(keys.last())
        } else {
            rest
        }
    }
}

/// The targets of a task's edges of the blocker types.
pub open spec fn gated_targets(t: TaskV, blockers: Set<Seq<char>>) -> Set<Seq<char>> {
    Set::new(|target: Seq<char>| gates(t, blockers, target))
}

/// A target with more than one blocker edge, and the types of those edges.
pub type DoubleV = (Seq<char>, Seq<char>, Seq<Seq<char>>);

/// The entries for those of `targets` that the task has more than one blocker
/// edge to.
pub open spec fn doubles_to(
    id: Seq<char>,
    t: TaskV,
    blockers: Set<Seq<char>>,
    targets: Seq<Seq<char>>,
) -> Seq<DoubleV>
    decreases targets.len(),
{
    if targets.len() == 0 {
        Seq::empty()
    } else {
        let rest = doubles_to(id, t, blockers, targets.drop_last());
        let kinds = kinds_to(
            t.relationships,
            strmap::sorted_of(t.relationships.dom()),
            blockers,
            targets.last(),
        );
        if kinds.len() > 1 {
            rest.push((id, targets.last(), kinds))
        } else {
            rest
        }
    }
}

/// The pairs with more than one blocker edge, for the tasks `ids`.
pub open spec fn doubles(s: StateV, blockers: Set<Seq<char>>, ids: Seq<Seq<char>>) -> Seq<DoubleV>
    decreases ids.len(),
{
    if ids.len() == 0 {
        Seq::empty()
    } else {
        let id = ids.last();
        doubles(s, blockers, ids.drop_last()) + doubles_to(
            id,
            s[id],
            blockers,
            strmap::sorted_of(gated_targets(s[id], blockers)),
        )
    }
}

pub(crate) proof fn lemma_kinds_to(
    rels: RelsV,
    keys: Seq<Seq<char>>,
    blockers: Set<Seq<char>>,
    target: Seq<char>,
    k: Seq<char>,
)
    ensures
        kinds_to(rels, keys, blockers, target).contains(k) <==> keys.contains(k)
            && blockers.contains(k) && rels[k].contains(target),
    decreases keys.len(),
{
    if keys.len() > 0 {
        let rest = kinds_to(rels, keys.drop_last(), blockers, target);
        lemma_kinds_to(rels, keys.drop_last(), blockers, target, k);
        strmap::lemma_contains_last(keys, k);
        let now = kinds_to(rels, keys, blockers, target);
        if now.len() > rest.len() {
            strmap::lemma_contains_last(now, k);
            assert(now.drop_last() =~= rest);
        }
    }
}

pub(crate) proof fn lemma_kinds_distinct(
    rels: RelsV,
    keys: Seq<Seq<char>>,
    blockers: Set<Seq<char>>,
    target: Seq<char>,
)
    requires
        keys.no_duplicates(),
    ensures
        kinds_to(rels, keys, blockers, target).no_duplicates(),
    decreases keys.len(),
{
    if keys.len() > 0 {
        let rest = kinds_to(rels, keys.drop_last(), blockers, target);
        lemma_kinds_distinct(rels, keys.drop_last(), blockers, target);
        lemma_kinds_to(rels, keys.drop_last(), blockers, target, keys.last());
        if keys.drop_last().contains(keys.last()) {
            let i = choose|i: int| 0 <= i < keys.len() - 1 && keys.drop_last()[i] == keys.last();
            assert(keys[i] == keys[keys.len() - 1]);
        }
        assert(!rest.contains(keys.last()));
    }
}

proof fn lemma_gated_finite(t: TaskV, blockers: Set<Seq<char>>)
    requires
        t.relationships.dom().finite(),
    ensures
        gated_targets(t, blockers).finite(),
{
    let edges = gating_edges(t, blockers);
    let heads = edges.map_values(|e: EdgeV| e.0);
    strmap::sorted_of_finite(t.relationships.dom());
    assert forall|target: Seq<char>| gated_targets(t, blockers).contains(target)
        <==> heads.to_set().contains(target) by {
        if gates(t, blockers, target) {
            let rel = choose|rel: Seq<char>|
                blockers.contains(rel) && #[trigger] t.relationships.contains_key(rel)
                    && t.relationships[rel].contains(target);
            gating_edges_are_the_blockers(t, blockers, target, rel);
            let i = choose|i: int| 0 <= i < edges.len() && edges[i] == (target, rel);
            assert(heads[i] == target);
        }
        if heads.contains(target) {
            let i = choose|i: int| 0 <= i < heads.len() && heads[i] == target;
            let (to, rel) = edges[i];
            assert(edges.contains((to, rel)));
            gating_edges_are_the_blockers(t, blockers, to, rel);
            assert(t.relationships.contains_key(rel));
        }
    }
    assert(gated_targets(t, blockers) =~= heads.to_set());
    vstd::seq_lib::seq_to_set_is_finite(heads);
}

proof fn lemma_doubles_to(
    id: Seq<char>,
    t: TaskV,
    blockers: Set<Seq<char>>,
    targets: Seq<Seq<char>>,
    d: DoubleV,
)
    ensures
        doubles_to(id, t, blockers, targets).contains(d) <==> d.0 == id && targets.contains(d.1)
            && d.2.len() > 1 && d.2 == kinds_to(
            t.relationships,
            strmap::sorted_of(t.relationships.dom()),
            blockers,
            d.1,
        ),
    decreases targets.len(),
{
    if targets.len() > 0 {
        let rest = doubles_to(id, t, blockers, targets.drop_last());
        let now = doubles_to(id, t, blockers, targets);
        lemma_doubles_to(id, t, blockers, targets.drop_last(), d);
        strmap::lemma_contains_last(targets, d.1);
        if now.len() > rest.len() {
            strmap::lemma_contains_last(now, d);
            assert(now.drop_last() =~= rest);
        }
    }
}

proof fn lemma_doubles(s: StateV, blockers: Set<Seq<char>>, ids: Seq<Seq<char>>, d: DoubleV)
    ensures
        doubles(s, blockers, ids).contains(d) <==> ids.contains(d.0) && doubles_to(
            d.0,
            s[d.0],
            blockers,
            strmap::sorted_of(gated_targets(s[d.0], blockers)),
        ).contains(d),
    decreases ids.len(),
{
    if ids.len() > 0 {
        let id = ids.last();
        let rest = doubles(s, blockers, ids.drop_last());
        let more = doubles_to(
            id,
            s[id],
            blockers,
            strmap::sorted_of(gated_targets(s[id], blockers)),
        );
        let now = rest + more;
        lemma_doubles(s, blockers, ids.drop_last(), d);
        strmap::lemma_contains_last(ids, d.0);
        lemma_doubles_to(id, s[id], blockers, strmap::sorted_of(gated_targets(s[id], blockers)), d);
        assert(now.contains(d) <==> rest.contains(d) || more.contains(d)) by {
            if rest.contains(d) {
                let i = choose|i: int| 0 <= i < rest.len() && rest[i] == d;
                assert(now[i] == d);
            }
            if more.contains(d) {
                let i = choose|i: int| 0 <= i < more.len() && more[i] == d;
                assert(now[rest.len() + i] == d);
            }
            if now.contains(d) {
                let i = choose|i: int| 0 <= i < now.len() && now[i] == d;
                if i >= rest.len() {
                    assert(more[i - rest.len()] == d);
                } else {
                    assert(rest[i] == d);
                }
            }
        }
    }
}

/// A pair of tasks is listed, with the types between them, exactly if the first
/// has edges of more than one blocker type to the second.
pub proof fn doubles_are_listed(s: StateV, blockers: Set<Seq<char>>, d: DoubleV)
    requires
        finite_state(s),
    ensures
        doubles(s, blockers, strmap::sorted_of(s.dom())).contains(d) <==> s.contains_key(d.0)
            && d.2.len() > 1 && d.2 == kinds_to(
            s[d.0].relationships,
            strmap::sorted_of(s[d.0].relationships.dom()),
            blockers,
            d.1,
        ),
{
    let ids = strmap::sorted_of(s.dom());
    strmap::sorted_of_finite(s.dom());
    assert(ids.to_set().contains(d.0) == ids.contains(d.0));
    lemma_doubles(s, blockers, ids, d);
    if s.contains_key(d.0) {
        let t = s[d.0];
        let gated = gated_targets(t, blockers);
        let targets = strmap::sorted_of(gated);
        lemma_gated_finite(t, blockers);
        strmap::sorted_of_finite(gated);
        strmap::sorted_of_finite(t.relationships.dom());
        lemma_doubles_to(d.0, t, blockers, targets, d);
        assert(targets.to_set().contains(d.1) == targets.contains(d.1));
        let keys = strmap::sorted_of(t.relationships.dom());
        let kinds = kinds_to(t.relationships, keys, blockers, d.1);
        if kinds.len() > 1 {
            assert(kinds.contains(kinds[0]));
            lemma_kinds_to(t.relationships, keys, blockers, d.1, kinds[0]);
            assert(keys.to_set().contains(kinds[0]));
            assert(t.relationships.contains_key(kinds[0]));
        }
    }
}

fn kinds_of_edge(task: &TaskState, blockers: &StrSet, target: &str) -> (r: Vec<String>)
    ensures
        r.deep_view() == kinds_to(
            task@.relationships,
            strmap::sorted_of(task@.relationships.dom()),
            blockers@,
            target@,
        ),
{
    let n = task.relationships.len();
    let ghost rels = task@.relationships;
    let ghost keys = task.relationships.keys_view();
    let mut out: Vec<String> = Vec::new();
    let mut i: usize = 0;
    assert(out.deep_view() =~= kinds_to(rels, keys.take(0), blockers@, target@));
    while i < n
        invariant
            i <= n,
            n == keys.len(),
            rels == task@.relationships,
            keys == task.relationships.keys_view(),
            out.deep_view() == kinds_to(rels, keys.take(i as int), blockers@, target@),
        decreases n - i,
    {
        let rel = task.relationships.key_at(i);
        let ghost longer = keys.take(i as int + 1);
        assert(longer.drop_last() =~= keys.take(i as int));
        assert(longer.last() == rel@);
        if blockers.contains(rel.as_str()) && engine::contains_text(
            task.relationships.value_at(i),
            target,
        ) {
            let ghost had = out.deep_view();
            out.push(rel.clone());
            assert(out.deep_view() =~= had.push(rel@));
        }
        i += 1;
    }
    assert(keys.take(n as int) =~= keys);
    out
}

fn target_set(task: &TaskState, blockers: &StrSet) -> (r: StrSet)
    ensures
        r@ == gated_targets(task@, blockers@),
{
    let edges = blocker_edges(task, blockers);
    let ghost all = edges.deep_view();
    let mut set = StrSet::new();
    let mut i: usize = 0;
    while i < edges.len()
        invariant
            i <= edges.len(),
            all == edges.deep_view(),
            forall|t: Seq<char>| #[trigger]
                set@.contains(t) <==> exists|k: int| 0 <= k < i && (#[trigger] all[k]).0 == t,
        decreases edges.len() - i,
    {
        assert(all[i as int].0 == edges@[i as int].0@);
        let _ = set.insert(edges[i].0.clone());
        i += 1;
    }
    proof {
        assert forall|t: Seq<char>| #[trigger] set@.contains(t) <==> gates(
            task@,
            blockers@,
            t,
        ) by {
            if set@.contains(t) {
                let k = choose|k: int| 0 <= k < edges.len() && (#[trigger] all[k]).0 == t;
                assert(all.contains((t, all[k].1)));
                assert(task@.relationships.contains_key(all[k].1));
            }
            if gates(task@, blockers@, t) {
                let rel = choose|rel: Seq<char>|
                    blockers@.contains(rel) && #[trigger] task@.relationships.contains_key(rel)
                        && task@.relationships[rel].contains(t);
                assert(all.contains((t, rel)));
                let k = choose|k: int| 0 <= k < all.len() && all[k] == (t, rel);
                assert(all[k].0 == t);
            }
        }
        assert(set@ =~= gated_targets(task@, blockers@));
    }
    set
}

/// The pairs of tasks with more than one blocker edge between them: the task,
/// the target and the types, in order.
pub fn duplicate_blocker_edges(state: &StrMap<TaskState>, blockers: &StrSet) -> (r: Vec<
    (String, String, Vec<String>),
>)
    ensures
        r.deep_view() == doubles(state@, blockers@, strmap::sorted_of(state@.dom())),
{
    let n = state.len();
    let ghost keys = state.keys_view();
    let ghost s = state@;
    let mut out: Vec<(String, String, Vec<String>)> = Vec::new();
    let mut i: usize = 0;
    assert(out.deep_view() =~= doubles(s, blockers@, keys.take(0)));
    while i < n
        invariant
            i <= n,
            n == keys.len(),
            keys == state.keys_view(),
            s == state@,
            out.deep_view() == doubles(s, blockers@, keys.take(i as int)),
        decreases n - i,
    {
        let id = state.key_at(i);
        let task = state.value_at(i);
        let ghost longer = keys.take(i as int + 1);
        assert(longer.drop_last() =~= keys.take(i as int));
        assert(longer.last() == id@);
        let set = target_set(task, blockers);
        let m = set.len();
        let ghost members = set.members();
        let ghost had = out.deep_view();
        let mut j: usize = 0;
        assert(had + doubles_to(id@, task@, blockers@, members.take(0)) =~= had);
        while j < m
            invariant
                j <= m,
                m == members.len(),
                members == set.members(),
                out.deep_view() == had + doubles_to(
                    id@,
                    task@,
                    blockers@,
                    members.take(j as int),
                ),
            decreases m - j,
        {
            let target = set.at(j);
            let kinds = kinds_of_edge(task, blockers, target.as_str());
            let ghost more = members.take(j as int + 1);
            assert(more.drop_last() =~= members.take(j as int));
            assert(more.last() == target@);
            if kinds.len() > 1 {
                let ghost now = out.deep_view();
                let ghost e = (id@, target@, kinds.deep_view());
                out.push((id.clone(), target.clone(), kinds));
                assert(out.deep_view() =~= now.push(e));
                assert(had + doubles_to(id@, task@, blockers@, more) =~= (had + doubles_to(
                    id@,
                    task@,
                    blockers@,
                    members.take(j as int),
                )).push(e));
            }
            j += 1;
        }
        assert(members.take(m as int) =~= members);
        i += 1;
    }
    assert(keys.take(n as int) =~= keys);
    out
}

/// The tasks among `ids` that have `child` as a subtask.
pub open spec fn parents_among(
    s: StateV,
    hierarchy: Set<Seq<char>>,
    ids: Seq<Seq<char>>,
    child: Seq<char>,
) -> Set<Seq<char>> {
    Set::new(|p: Seq<char>| ids.contains(p) && children(s[p], hierarchy).contains(child))
}

/// The parents of each subtask of the tasks `ids`.
pub open spec fn parent_map(
    s: StateV,
    hierarchy: Set<Seq<char>>,
    ids: Seq<Seq<char>>,
) -> Map<Seq<char>, Set<Seq<char>>> {
    Map::new(
        |c: Seq<char>| exists|p: Seq<char>| #[trigger] parents_among(s, hierarchy, ids, c).contains(p),
        |c: Seq<char>| parents_among(s, hierarchy, ids, c),
    )
}

/// Those of `kids` that have more than one parent, each with its parents.
pub open spec fn shared_children(
    parents: Map<Seq<char>, Set<Seq<char>>>,
    kids: Seq<Seq<char>>,
) -> Seq<(Seq<char>, Seq<Seq<char>>)>
    decreases kids.len(),
{
    if kids.len() == 0 {
        Seq::empty()
    } else {
        let rest = shared_children(parents, kids.drop_last());
        let of = strmap::sorted_of(parents[kids.last()]);
        if of.len() > 1 {
            rest.push((kids.last(), of))
        } else {
            rest
        }
    }
}

/// The tasks that are a subtask of more than one task.
pub open spec fn many_parents(s: StateV, hierarchy: Set<Seq<char>>) -> Seq<
    (Seq<char>, Seq<Seq<char>>),
> {
    let parents = parent_map(s, hierarchy, strmap::sorted_of(s.dom()));
    shared_children(parents, strmap::sorted_of(parents.dom()))
}

pub(crate) proof fn lemma_parents_finite(
    s: StateV,
    hierarchy: Set<Seq<char>>,
    ids: Seq<Seq<char>>,
    child: Seq<char>,
)
    ensures
        parents_among(s, hierarchy, ids, child).finite(),
{
    vstd::seq_lib::seq_to_set_is_finite(ids);
    let parents = parents_among(s, hierarchy, ids, child);
    assert forall|p: Seq<char>| #[trigger] parents.contains(p) implies ids.to_set().contains(p) by {}
    vstd::set_lib::lemma_set_subset_finite(ids.to_set(), parents);
}

proof fn lemma_kids_finite(s: StateV, hierarchy: Set<Seq<char>>, ids: Seq<Seq<char>>)
    ensures
        parent_map(s, hierarchy, ids).dom().finite(),
    decreases ids.len(),
{
    let kids = parent_map(s, hierarchy, ids).dom();
    if ids.len() == 0 {
        assert(kids =~= Set::empty());
    } else {
        let before = ids.drop_last();
        let rest = parent_map(s, hierarchy, before).dom();
        let own = children(s[ids.last()], hierarchy);
        lemma_kids_finite(s, hierarchy, before);
        vstd::seq_lib::seq_to_set_is_finite(own);
        let all = rest.union(own.to_set());
        assert forall|c: Seq<char>| #[trigger] kids.contains(c) implies all.contains(c) by {
            let p = choose|p: Seq<char>| #[trigger] parents_among(s, hierarchy, ids, c).contains(p);
            strmap::lemma_contains_last(ids, p);
            if before.contains(p) {
                assert(parents_among(s, hierarchy, before, c).contains(p));
            }
        }
        vstd::set_lib::lemma_set_subset_finite(all, kids);
    }
}

proof fn lemma_shared_children(
    parents: Map<Seq<char>, Set<Seq<char>>>,
    kids: Seq<Seq<char>>,
    child: Seq<char>,
    of: Seq<Seq<char>>,
)
    ensures
        shared_children(parents, kids).contains((child, of)) <==> kids.contains(child) && of.len()
            > 1 && of == strmap::sorted_of(parents[child]),
    decreases kids.len(),
{
    if kids.len() > 0 {
        let rest = shared_children(parents, kids.drop_last());
        let now = shared_children(parents, kids);
        lemma_shared_children(parents, kids.drop_last(), child, of);
        strmap::lemma_contains_last(kids, child);
        if now.len() > rest.len() {
            strmap::lemma_contains_last(now, (child, of));
            assert(now.drop_last() =~= rest);
        }
    }
}

/// A task is listed, with its parents in order, exactly if it is a subtask of
/// more than one task.
pub proof fn many_parents_are_listed(
    s: StateV,
    hierarchy: Set<Seq<char>>,
    child: Seq<char>,
    of: Seq<Seq<char>>,
)
    requires
        finite_state(s),
    ensures
        many_parents(s, hierarchy).contains((child, of)) <==> of.len() > 1 && of
            == strmap::sorted_of(
            parents_among(s, hierarchy, strmap::sorted_of(s.dom()), child),
        ),
{
    let ids = strmap::sorted_of(s.dom());
    let parents = parent_map(s, hierarchy, ids);
    let kids = strmap::sorted_of(parents.dom());
    lemma_kids_finite(s, hierarchy, ids);
    strmap::sorted_of_finite(parents.dom());
    lemma_shared_children(parents, kids, child, of);
    assert(kids.to_set().contains(child) == kids.contains(child));
    let own = parents_among(s, hierarchy, ids, child);
    lemma_parents_finite(s, hierarchy, ids, child);
    strmap::sorted_of_finite(own);
    if strmap::sorted_of(own).len() > 1 {
        let p = strmap::sorted_of(own)[0];
        assert(strmap::sorted_of(own).to_set().contains(p));
        assert(own.contains(p));
        assert(parents.contains_key(child));
    }
}

/// The members of a set, in order.
pub fn members_of(set: &StrSet) -> (r: Vec<String>)
    ensures
        r.deep_view() == strmap::sorted_of(set@),
        r.deep_view().to_set() == set@,
        strmap::ascending(r.deep_view()),
{
    let n = set.len();
    let ghost members = set.members();
    let mut out: Vec<String> = Vec::new();
    let mut j: usize = 0;
    while j < n
        invariant
            j <= n,
            n == members.len(),
            members == set.members(),
            out.len() == j,
            forall|k: int| 0 <= k < j ==> #[trigger] out@[k]@ == members[k],
        decreases n - j,
    {
        out.push(set.at(j).clone());
        j += 1;
    }
    assert(out.deep_view() =~= members);
    out
}

fn parents_by_child(state: &StrMap<TaskState>, hierarchy: &StrSet) -> (r: StrMap<StrSet>)
    ensures
        r@ == parent_map(state@, hierarchy@, strmap::sorted_of(state@.dom())),
{
    let n = state.len();
    let ghost keys = state.keys_view();
    let ghost s = state@;
    let mut out: StrMap<StrSet> = StrMap::new();
    let mut i: usize = 0;
    assert(out@ =~= parent_map(s, hierarchy@, keys.take(0)));
    while i < n
        invariant
            i <= n,
            n == keys.len(),
            keys == state.keys_view(),
            s == state@,
            out@ == parent_map(s, hierarchy@, keys.take(i as int)),
        decreases n - i,
    {
        let id = state.key_at(i);
        let kids = subtasks(state.value_at(i), hierarchy);
        let ghost all = kids.deep_view();
        let ghost before = out@;
        let ghost shorter = keys.take(i as int);
        let mut j: usize = 0;
        while j < kids.len()
            invariant
                j <= kids.len(),
                all == kids.deep_view(),
                forall|c: Seq<char>| #[trigger]
                    out@.contains_key(c) <==> before.contains_key(c) || all.take(
                        j as int,
                    ).contains(c),
                forall|c: Seq<char>|
                    out@.contains_key(c) ==> (#[trigger] out@[c]) == (if before.contains_key(c) {
                        before[c]
                    } else {
                        Set::empty()
                    }).union(
                        if all.take(j as int).contains(c) {
                            set![id@]
                        } else {
                            Set::empty()
                        },
                    ),
            decreases kids.len() - j,
        {
            let ghost at = out@;
            let kid = &kids[j];
            assert(all[j as int] == kid@);
            let mut set = match out.take(kid.as_str()) {
                Some(x) => x,
                None => StrSet::new(),
            };
            let ghost had = set@;
            let _ = set.insert(id.clone());
            out.insert(kid.clone(), set);
            proof {
                assert forall|c: Seq<char>| all.take(j as int + 1).contains(c) <==> all.take(
                    j as int,
                ).contains(c) || c == kid@ by {
                    strmap::lemma_take_one_more(all, j as int, c);
                }
                assert forall|c: Seq<char>| out@.contains_key(c) implies (#[trigger] out@[c]) == (
                if before.contains_key(c) {
                    before[c]
                } else {
                    Set::empty()
                }).union(
                    if all.take(j as int + 1).contains(c) {
                        set![id@]
                    } else {
                        Set::empty()
                    },
                ) by {
                    if c == kid@ {
                        if at.contains_key(c) {
                            assert(had == at[c]);
                        }
                        assert(out@[c] == had.insert(id@));
                        assert(out@[c] =~= (if before.contains_key(c) {
                            before[c]
                        } else {
                            Set::empty()
                        }).union(set![id@]));
                    } else {
                        assert(at.contains_key(c) && out@[c] == at[c]);
                    }
                }
            }
            j += 1;
        }
        proof {
            assert(all.take(kids.len() as int) =~= all);
            let longer = keys.take(i as int + 1);
            assert forall|p: Seq<char>| longer.contains(p) <==> shorter.contains(p) || p == id@ by {
                strmap::lemma_take_one_more(keys, i as int, p);
            }
            assert forall|c: Seq<char>| #[trigger] out@.contains_key(c) <==> parent_map(
                s,
                hierarchy@,
                longer,
            ).contains_key(c) by {
                if before.contains_key(c) {
                    let p = choose|p: Seq<char>| #[trigger]
                        parents_among(s, hierarchy@, shorter, c).contains(p);
                    assert(parents_among(s, hierarchy@, longer, c).contains(p));
                }
                if all.contains(c) {
                    assert(parents_among(s, hierarchy@, longer, c).contains(id@));
                }
                if parent_map(s, hierarchy@, longer).contains_key(c) {
                    let p = choose|p: Seq<char>| #[trigger]
                        parents_among(s, hierarchy@, longer, c).contains(p);
                    if p != id@ {
                        assert(parents_among(s, hierarchy@, shorter, c).contains(p));
                    }
                }
            }
            assert forall|c: Seq<char>| out@.contains_key(c) implies (#[trigger] out@[c])
                == parent_map(s, hierarchy@, longer)[c] by {
                assert(out@[c] =~= parents_among(s, hierarchy@, longer, c)) by {
                    if !before.contains_key(c) {
                        assert forall|p: Seq<char>| !parents_among(
                            s,
                            hierarchy@,
                            shorter,
                            c,
                        ).contains(p) by {}
                    }
                    assert forall|p: Seq<char>| out@[c].contains(p) <==> parents_among(
                        s,
                        hierarchy@,
                        longer,
                        c,
                    ).contains(p) by {
                        if before.contains_key(c) {
                            assert(before[c] == parents_among(s, hierarchy@, shorter, c));
                        } else {
                            assert(!parents_among(s, hierarchy@, shorter, c).contains(p));
                        }
                    }
                }
            }
            assert(out@ =~= parent_map(s, hierarchy@, longer));
        }
        i += 1;
    }
    assert(keys.take(n as int) =~= keys);
    out
}

/// The tasks that are a subtask of more than one task, each with its parents.
pub fn multi_parent_tasks(state: &StrMap<TaskState>, hierarchy: &StrSet) -> (r: Vec<
    (String, Vec<String>),
>)
    ensures
        r.deep_view() == many_parents(state@, hierarchy@),
{
    let parents = parents_by_child(state, hierarchy);
    let n = parents.len();
    let ghost kids = parents.keys_view();
    let mut out: Vec<(String, Vec<String>)> = Vec::new();
    let mut i: usize = 0;
    assert(out.deep_view() =~= shared_children(parents@, kids.take(0)));
    while i < n
        invariant
            i <= n,
            n == kids.len(),
            kids == parents.keys_view(),
            out.deep_view() == shared_children(parents@, kids.take(i as int)),
        decreases n - i,
    {
        let child = parents.key_at(i);
        let of = members_of(parents.value_at(i));
        let ghost longer = kids.take(i as int + 1);
        assert(longer.drop_last() =~= kids.take(i as int));
        assert(longer.last() == child@);
        if of.len() > 1 {
            let ghost had = out.deep_view();
            let ghost e = (child@, of.deep_view());
            out.push((child.clone(), of));
            assert(out.deep_view() =~= had.push(e));
        }
        i += 1;
    }
    assert(kids.take(n as int) =~= kids);
    out
}

/// The tasks other than `id` that are not done and can be reached from it.
pub open spec fn open_reached(
    s: StateV,
    es: Set<(Seq<char>, Seq<char>)>,
    id: Seq<char>,
    field: Seq<char>,
    done: Seq<char>,
) -> Set<Seq<char>> {
    Set::new(
        |m: Seq<char>| m != id && open_task(s, m, field, done) && reach::reaches(es, id, m),
    )
}

/// The places of those that list each place.
pub fn dependents(adj: &Vec<Vec<usize>>) -> (r: Vec<Vec<usize>>)
    requires
        forall|i: int, j: int|
            0 <= i < adj.len() && 0 <= j < adj[i].len() ==> #[trigger] adj[i][j] < adj.len(),
    ensures
        r.len() == adj.len(),
        forall|i: int, j: int|
            0 <= i < r.len() && 0 <= j < r[i].len() ==> #[trigger] r[i][j] < r.len(),
        reach::adjacency(r.deep_view()) == reach::flipped(reach::adjacency(adj.deep_view())),
{
    let n: usize = adj.len();
    let ghost all = adj.deep_view();
    let mut out: Vec<Vec<usize>> = Vec::new();
    while out.len() < n
        invariant
            out.len() <= n,
            forall|p: int| 0 <= p < out.len() ==> (#[trigger] out@[p])@.len() == 0,
        decreases n - out.len(),
    {
        out.push(Vec::new());
    }
    let mut i: usize = 0;
    while i < n
        invariant
            i <= n,
            n == adj.len(),
            out.len() == n,
            all == adj.deep_view(),
            forall|i: int, j: int|
                0 <= i < adj.len() && 0 <= j < adj[i].len() ==> #[trigger] adj[i][j] < adj.len(),
            forall|p: int, q: int|
                0 <= p < n && 0 <= q < out@[p]@.len() ==> (#[trigger] out@[p]@[q]) < n,
            forall|p: usize, q: usize|
                p < n ==> (#[trigger] out@[p as int]@.contains(q) <==> q < i && all[q as int].contains(p)),
        decreases n - i,
    {
        let ghost row = all[i as int];
        assert(row =~= adj@[i as int]@);
        let mut j: usize = 0;
        while j < adj[i].len()
            invariant
                i < n,
                n == adj.len(),
                out.len() == n,
                all == adj.deep_view(),
                row == all[i as int],
                row == adj@[i as int]@,
                j <= row.len(),
                forall|i: int, j: int|
                    0 <= i < adj.len() && 0 <= j < adj[i].len() ==> #[trigger] adj[i][j]
                        < adj.len(),
                forall|p: int, q: int|
                    0 <= p < n && 0 <= q < out@[p]@.len() ==> (#[trigger] out@[p]@[q]) < n,
                forall|p: usize, q: usize|
                    p < n ==> (#[trigger] out@[p as int]@.contains(q) <==> (q < i
                        && all[q as int].contains(p)) || (q == i && row.take(j as int).contains(p))),
            decreases row.len() - j,
        {
            let m = adj[i][j];
            let ghost was = out@;
            let ghost old_row = out@[m as int]@;
            let mut grown: Vec<usize> = Vec::new();
            std::mem::swap(&mut grown, &mut out[m]);
            grown.push(i);
            out.set(m, grown);
            proof {
                let longer = row.take(j as int + 1);
                let shorter = row.take(j as int);
                assert(longer =~= shorter.push(m));
                assert(out@[m as int]@ =~= old_row.push(i));
                assert forall|p: usize, q: usize| p < n implies (
                #[trigger] out@[p as int]@.contains(q) <==> (q < i && all[q as int].contains(p)) || (q
                    == i && longer.contains(p))) by {
                    assert(longer.contains(p) <==> shorter.contains(p) || p == m) by {
                        if longer.contains(p) {
                            let x = choose|x: int| 0 <= x < longer.len() && longer[x] == p;
                            if x < j {
                                assert(shorter[x] == p);
                            }
                        }
                        if shorter.contains(p) {
                            let x = choose|x: int| 0 <= x < shorter.len() && shorter[x] == p;
                            assert(longer[x] == p);
                        }
                        assert(longer[j as int] == m);
                    }
                    assert(was[p as int]@.contains(q) <==> (q < i && all[q as int].contains(p)) || (q == i
                        && shorter.contains(p)));
                    if p == m {
                        let now = out@[m as int]@;
                        if now.contains(q) {
                            let x = choose|x: int| 0 <= x < now.len() && now[x] == q;
                            if x < old_row.len() {
                                assert(old_row[x] == q);
                            }
                        }
                        if old_row.contains(q) {
                            let x = choose|x: int| 0 <= x < old_row.len() && old_row[x] == q;
                            assert(now[x] == q);
                        }
                        assert(now[old_row.len() as int] == i);
                    }
                }
            }
            j += 1;
        }
        assert(row.take(row.len() as int) =~= row);
        i += 1;
    }
    proof {
        let rev = reach::adjacency(out.deep_view());
        let flip = reach::flipped(reach::adjacency(all));
        assert forall|e: (usize, usize)| rev.contains(e) <==> flip.contains(e) by {
            if e.0 < n {
                assert(out.deep_view()[e.0 as int] =~= out@[e.0 as int]@);
                assert(out@[e.0 as int]@.contains(e.1) <==> e.1 < n && all[e.1 as int].contains(e.0));
            }
            if flip.contains(e) {
                let row = all[e.1 as int];
                assert(row =~= adj@[e.1 as int]@);
                let x = choose|x: int| 0 <= x < row.len() && row[x] == e.0;
                assert(adj[e.1 as int][x] < n);
            }
        }
        assert(rev =~= flip);
    }
    out
}

fn count_open(
    state: &StrMap<TaskState>,
    reached: &Vec<bool>,
    start: usize,
    status_field: &str,
    done_status: &str,
    Ghost(es): Ghost<Set<(Seq<char>, Seq<char>)>>,
) -> (r: usize)
    requires
        reached.len() == state.keys_view().len(),
        start < reached.len(),
        forall|m: int|
            0 <= m < reached.len() ==> (#[trigger] reached[m] <==> reach::reaches(
                es,
                state.keys_view()[start as int],
                state.keys_view()[m],
            )),
    ensures
        r == open_reached(
            state@,
            es,
            state.keys_view()[start as int],
            status_field@,
            done_status@,
        ).len(),
{
    let n = state.len();
    let ghost keys = state.keys_view();
    let ghost here = keys[start as int];
    let ghost mut found: Set<Seq<char>> = Set::empty();
    let mut count: usize = 0;
    let mut i: usize = 0;
    proof {
        strmap::lemma_ascending_distinct(keys);
    }
    while i < n
        invariant
            i <= n,
            n == keys.len(),
            n == reached.len(),
            start < n,
            keys == state.keys_view(),
            keys.no_duplicates(),
            here == keys[start as int],
            count <= i,
            found.finite(),
            count == found.len(),
            forall|m: int|
                0 <= m < reached.len() ==> (#[trigger] reached[m] <==> reach::reaches(
                    es,
                    here,
                    keys[m],
                )),
            forall|k: Seq<char>| #[trigger]
                found.contains(k) <==> keys.take(i as int).contains(k) && open_reached(
                    state@,
                    es,
                    here,
                    status_field@,
                    done_status@,
                ).contains(k),
        decreases n - i,
    {
        let ghost k = keys[i as int];
        proof {
            assert forall|q: Seq<char>| keys.take(i as int + 1).contains(q) <==> keys.take(
                i as int,
            ).contains(q) || q == k by {
                strmap::lemma_take_one_more(keys, i as int, q);
            }
            if keys.take(i as int).contains(k) {
                let x = choose|x: int| 0 <= x < i && keys.take(i as int)[x] == k;
                assert(keys[x] == keys[i as int]);
            }
        }
        let task = state.value_at(i);
        if i != start && reached[i] && !model::is_done(task, status_field, done_status) {
            proof {
                assert(!found.contains(k));
                found = found.insert(k);
            }
            count += 1;
        }
        i += 1;
    }
    proof {
        assert(keys.take(n as int) =~= keys);
        assert forall|k: Seq<char>| found.contains(k) <==> open_reached(
            state@,
            es,
            here,
            status_field@,
            done_status@,
        ).contains(k) by {
            assert(keys.to_set().contains(k) == keys.contains(k));
        }
        assert(found =~= open_reached(state@, es, here, status_field@, done_status@));
    }
    count
}

/// For each task, how many other tasks that are not done wait for it, directly
/// or not, and how many it waits for.
pub fn reachability_counts(
    state: &StrMap<TaskState>,
    blockers: &StrSet,
    status_field: &str,
    done_status: &str,
) -> (r: StrMap<(usize, usize)>)
    ensures
        r@.dom() == state@.dom(),
        forall|id: Seq<char>| #[trigger]
            r@.contains_key(id) ==> {
                &&& r@[id].0 == open_reached(
                    state@,
                    reach::flipped(dep_edges(state@, blockers@)),
                    id,
                    status_field@,
                    done_status@,
                ).len()
                &&& r@[id].1 == open_reached(
                    state@,
                    dep_edges(state@, blockers@),
                    id,
                    status_field@,
                    done_status@,
                ).len()
            },
{
    let adj = prerequisites(state, blockers);
    let rev = dependents(&adj);
    let n = state.len();
    let ghost keys = state.keys_view();
    let ghost s = state@;
    let ghost es = dep_edges(s, blockers@);
    let ghost se = reach::flipped(es);
    let ghost ix = reach::adjacency(adj.deep_view());
    let ghost xi = reach::adjacency(rev.deep_view());
    proof {
        assert(reach::names_edges(xi, keys, se)) by {
            assert forall|i: usize, j: usize| #[trigger] xi.contains((i, j)) implies i < keys.len()
                && j < keys.len() && se.contains((keys[i as int], keys[j as int])) by {
                assert(ix.contains((j, i)));
            }
            assert forall|a: Seq<char>, b: Seq<char>| #[trigger]
                se.contains((a, b)) implies exists|i: usize, j: usize| #[trigger]
                xi.contains((i, j)) && i < keys.len() && j < keys.len() && keys[i as int] == a
                    && keys[j as int] == b by {
                assert(es.contains((b, a)));
                let (p, q) = choose|p: usize, q: usize| #[trigger]
                    ix.contains((p, q)) && p < keys.len() && q < keys.len() && keys[p as int] == b
                        && keys[q as int] == a;
                assert(xi.contains((q, p)));
            }
        }
    }
    let mut out: StrMap<(usize, usize)> = StrMap::new();
    let mut i: usize = 0;
    while i < n
        invariant
            i <= n,
            n == keys.len(),
            n == adj.len(),
            n == rev.len(),
            keys == state.keys_view(),
            s == state@,
            es == dep_edges(s, blockers@),
            se == reach::flipped(es),
            ix == reach::adjacency(adj.deep_view()),
            xi == reach::adjacency(rev.deep_view()),
            reach::names_edges(ix, keys, es),
            reach::names_edges(xi, keys, se),
            forall|i: int, j: int|
                0 <= i < adj.len() && 0 <= j < adj[i].len() ==> #[trigger] adj[i][j] < adj.len(),
            forall|i: int, j: int|
                0 <= i < rev.len() && 0 <= j < rev[i].len() ==> #[trigger] rev[i][j] < rev.len(),
            forall|id: Seq<char>| #[trigger]
                out@.contains_key(id) <==> keys.take(i as int).contains(id),
            forall|id: Seq<char>| #[trigger]
                out@.contains_key(id) ==> {
                    &&& out@[id].0 == open_reached(s, se, id, status_field@, done_status@).len()
                    &&& out@[id].1 == open_reached(s, es, id, status_field@, done_status@).len()
                },
        decreases n - i,
    {
        let before = reach::reachable(&adj, i);
        let after = reach::reachable(&rev, i);
        proof {
            assert forall|m: int| 0 <= m < n implies (#[trigger] before[m] <==> reach::reaches(
                es,
                keys[i as int],
                keys[m],
            )) by {
                assert(before[(m as usize) as int] <==> reach::reaches(ix, i, m as usize));
                reach::lemma_names_reaches(ix, keys, es, i, m as usize);
            }
            assert forall|m: int| 0 <= m < n implies (#[trigger] after[m] <==> reach::reaches(
                se,
                keys[i as int],
                keys[m],
            )) by {
                assert(after[(m as usize) as int] <==> reach::reaches(xi, i, m as usize));
                reach::lemma_names_reaches(xi, keys, se, i, m as usize);
            }
        }
        let blocked_by = count_open(state, &before, i, status_field, done_status, Ghost(es));
        let unblocks = count_open(state, &after, i, status_field, done_status, Ghost(se));
        let ghost had = out@;
        out.insert(state.key_at(i).clone(), (unblocks, blocked_by));
        proof {
            assert forall|k: Seq<char>| #[trigger] out@.contains_key(k) <==> keys.take(
                i as int + 1,
            ).contains(k) by {
                strmap::lemma_take_one_more(keys, i as int, k);
                assert(had.contains_key(k) <==> keys.take(i as int).contains(k));
            }
        }
        i += 1;
    }
    proof {
        assert(keys.take(n as int) =~= keys);
        assert forall|id: Seq<char>| out@.dom().contains(id) <==> s.dom().contains(id) by {
            assert(keys.to_set().contains(id) == keys.contains(id));
            assert(out@.contains_key(id) <==> keys.contains(id));
        }
        assert(out@.dom() =~= s.dom());
    }
    out
}

/// Whether a field of a task that is there holds the done status.
pub open spec fn finished(s: StateV, id: Seq<char>, field: Seq<char>, done: Seq<char>) -> bool {
    s.contains_key(id) && s[id].custom_fields.contains_key(field) && s[id].custom_fields[field]
        == crate::json::JsonV::Str(done)
}

/// Whether a task has an edge of one of the given types to a task that is there.
pub open spec fn awaits(
    s: StateV,
    id: Seq<char>,
    blockers: Set<Seq<char>>,
    target: Seq<char>,
) -> bool {
    s.contains_key(id) && s.contains_key(target) && exists|rel: Seq<char>| #[trigger]
        s[id].relationships.contains_key(rel) && blockers.contains(rel)
            && s[id].relationships[rel].contains(target)
}

/// A task is blocked where it waits for a task that is there and not done, and
/// ready where it is itself there and not done and not blocked. An edge to a
/// task that is not there blocks nothing.
pub proof fn tasks_wait_for_open_tasks(
    s: StateV,
    id: Seq<char>,
    field: Seq<char>,
    done: Seq<char>,
    blockers: Set<Seq<char>>,
)
    ensures
        blocked_task(s, id, field, done, blockers) <==> exists|b: Seq<char>| #[trigger]
            awaits(s, id, blockers, b) && !finished(s, b, field, done),
        ready_task(s, id, field, done, blockers) <==> {
            &&& s.contains_key(id)
            &&& !finished(s, id, field, done)
            &&& forall|b: Seq<char>| #[trigger]
                awaits(s, id, blockers, b) ==> finished(s, b, field, done)
        },
{
    assert forall|b: Seq<char>| #[trigger]
        dep_edges(s, blockers).contains((id, b)) <==> awaits(s, id, blockers, b) by {}
    if blocked_task(s, id, field, done, blockers) {
        let b = choose|b: Seq<char>| #[trigger]
            dep_edges(s, blockers).contains((id, b)) && open_task(s, b, field, done);
        assert(awaits(s, id, blockers, b) && !finished(s, b, field, done));
    }
    if exists|b: Seq<char>| #[trigger]
        awaits(s, id, blockers, b) && !finished(s, b, field, done) {
        let b = choose|b: Seq<char>| #[trigger]
            awaits(s, id, blockers, b) && !finished(s, b, field, done);
        assert(dep_edges(s, blockers).contains((id, b)) && open_task(s, b, field, done));
    }
}

/// Whether a task waits for another, at once or through others.
pub open spec fn awaits_far(
    s: StateV,
    blockers: Set<Seq<char>>,
    a: Seq<char>,
    b: Seq<char>,
) -> bool {
    reach::reaches(
        Set::new(|e: (Seq<char>, Seq<char>)| awaits(s, e.0, blockers, e.1)),
        a,
        b,
    )
}

/// The computed counts: how many other open tasks wait for a task, at once or
/// through others, and for how many other open tasks it waits in that way.
pub proof fn counts_are_of_open_tasks(
    state: StrMap<TaskState>,
    blockers: StrSet,
    field: &str,
    done: &str,
    r: StrMap<(usize, usize)>,
    id: Seq<char>,
)
    requires
        call_ensures(reachability_counts, (&state, &blockers, field, done), r),
        state@.contains_key(id),
    ensures
        r@.contains_key(id),
        r@[id].0 == Set::new(
            |m: Seq<char>|
                {
                    &&& m != id
                    &&& state@.contains_key(m)
                    &&& !finished(state@, m, field@, done@)
                    &&& awaits_far(state@, blockers@, m, id)
                },
        ).len(),
        r@[id].1 == Set::new(
            |m: Seq<char>|
                {
                    &&& m != id
                    &&& state@.contains_key(m)
                    &&& !finished(state@, m, field@, done@)
                    &&& awaits_far(state@, blockers@, id, m)
                },
        ).len(),
{
    let s = state@;
    let es = dep_edges(s, blockers@);
    assert(es =~= Set::new(|e: (Seq<char>, Seq<char>)| awaits(s, e.0, blockers@, e.1)));
    assert(r@.dom().contains(id));
    let back = open_reached(s, reach::flipped(es), id, field@, done@);
    let forth = open_reached(s, es, id, field@, done@);
    assert forall|m: Seq<char>| back.contains(m) <==> {
        &&& m != id
        &&& s.contains_key(m)
        &&& !finished(s, m, field@, done@)
        &&& awaits_far(s, blockers@, m, id)
    } by {
        reach::lemma_flipped_reaches(es, m, id);
    }
    assert(back =~= Set::new(
        |m: Seq<char>|
            {
                &&& m != id
                &&& s.contains_key(m)
                &&& !finished(s, m, field@, done@)
                &&& awaits_far(s, blockers@, m, id)
            },
    ));
    assert(forth =~= Set::new(
        |m: Seq<char>|
            {
                &&& m != id
                &&& s.contains_key(m)
                &&& !finished(s, m, field@, done@)
                &&& awaits_far(s, blockers@, id, m)
            },
    ));
}

proof fn lemma_children(rels: RelsV, types: Seq<Seq<char>>, x: Seq<char>)
    ensures
        children_under(rels, types).contains(x) <==> exists|rel: Seq<char>| #[trigger]
            rels.contains_key(rel) && types.contains(rel) && rels[rel].contains(x),
    decreases types.len(),
{
    if types.len() > 0 {
        let rest = types.drop_last();
        let last = types.last();
        lemma_children(rels, rest, x);
        let head = children_under(rels, rest);
        let tail = model::targets(rels, last);
        let all = head + tail;
        assert(all.contains(x) <==> head.contains(x) || tail.contains(x)) by {
            if head.contains(x) {
                let i = choose|i: int| 0 <= i < head.len() && head[i] == x;
                assert(all[i] == x);
            }
            if tail.contains(x) {
                let i = choose|i: int| 0 <= i < tail.len() && tail[i] == x;
                assert(all[head.len() + i] == x);
            }
            if all.contains(x) {
                let i = choose|i: int| 0 <= i < all.len() && all[i] == x;
                if i < head.len() {
                    assert(head[i] == x);
                } else {
                    assert(tail[i - head.len()] == x);
                }
            }
        }
        if head.contains(x) {
            let rel = choose|rel: Seq<char>| #[trigger]
                rels.contains_key(rel) && rest.contains(rel) && rels[rel].contains(x);
            strmap::lemma_contains_last(types, rel);
            assert(rels.contains_key(rel) && types.contains(rel));
        }
        if tail.contains(x) {
            strmap::lemma_contains_last(types, last);
            assert(rels.contains_key(last) && types.contains(last));
        }
        if exists|rel: Seq<char>| #[trigger]
            rels.contains_key(rel) && types.contains(rel) && rels[rel].contains(x) {
            let rel = choose|rel: Seq<char>| #[trigger]
                rels.contains_key(rel) && types.contains(rel) && rels[rel].contains(x);
            strmap::lemma_contains_last(types, rel);
            if rest.contains(rel) {
                assert(rels.contains_key(rel) && rest.contains(rel) && rels[rel].contains(x));
            }
        }
    }
}

/// A task's subtasks are the targets of its edges of the hierarchy types, and
/// its progress counts those of them that are there and done, out of all.
pub proof fn progress_counts_subtasks(
    s: StateV,
    t: TaskV,
    hierarchy: Set<Seq<char>>,
    field: Seq<char>,
    done: Seq<char>,
    x: Seq<char>,
)
    requires
        hierarchy.finite(),
    ensures
        children(t, hierarchy).contains(x) <==> exists|rel: Seq<char>| #[trigger]
            t.relationships.contains_key(rel) && hierarchy.contains(rel)
                && t.relationships[rel].contains(x),
        done_among(s, children(t, hierarchy), field, done) == children(t, hierarchy).filter(
            |id: Seq<char>| finished(s, id, field, done),
        ).len(),
{
    let types = strmap::sorted_of(hierarchy);
    strmap::sorted_of_finite(hierarchy);
    lemma_children(t.relationships, types, x);
    assert forall|rel: Seq<char>| types.contains(rel) <==> hierarchy.contains(rel) by {
        assert(types.to_set().contains(rel) <==> types.contains(rel));
    }
    lemma_done_among(s, children(t, hierarchy), field, done);
}

proof fn lemma_done_among(s: StateV, ids: Seq<Seq<char>>, field: Seq<char>, done: Seq<char>)
    ensures
        done_among(s, ids, field, done) == ids.filter(
            |id: Seq<char>| finished(s, id, field, done),
        ).len(),
    decreases ids.len(),
{
    reveal(Seq::filter);
    if ids.len() > 0 {
        lemma_done_among(s, ids.drop_last(), field, done);
    }
}

/// A sorted list of tasks has each of them once, and each after all that it waits
/// for. There is one exactly where no task waits for itself, at once or through
/// others.
pub proof fn sorting_puts_dependencies_first(
    state: StrMap<TaskState>,
    blockers: StrSet,
    r: Result<Vec<String>, String>,
    i: int,
    j: int,
)
    requires
        call_ensures(validate_and_sort_dependencies, (&state, &blockers), r),
    ensures
        r is Ok <==> forall|a: Seq<char>| !#[trigger] awaits_far(state@, blockers@, a, a),
        r matches Ok(order) ==> {
            let ids = order.deep_view();
            &&& ids.no_duplicates()
            &&& forall|a: Seq<char>| #[trigger] ids.contains(a) <==> state@.contains_key(a)
            &&& 0 <= i < ids.len() && 0 <= j < ids.len() && awaits(
                state@,
                ids[i],
                blockers@,
                ids[j],
            ) ==> j < i
        },
{
    let es = dep_edges(state@, blockers@);
    assert(es =~= Set::new(|e: (Seq<char>, Seq<char>)| awaits(state@, e.0, blockers@, e.1)));
    if reach::cyclic(es) {
        let a = choose|a: Seq<char>| #[trigger] reach::reaches(es, a, a);
        assert(awaits_far(state@, blockers@, a, a));
    } else {
        assert forall|a: Seq<char>| !#[trigger] awaits_far(state@, blockers@, a, a) by {
            assert(!reach::reaches(es, a, a));
        }
    }
    if let Ok(order) = r {
        let ids = order.deep_view();
        assert forall|a: Seq<char>| #[trigger] ids.contains(a) <==> state@.contains_key(a) by {
            assert(ids.to_set().contains(a) <==> ids.contains(a));
        }
        if 0 <= i < ids.len() && 0 <= j < ids.len() && awaits(state@, ids[i], blockers@, ids[j]) {
            assert(es.contains((ids[i], ids[j])));
        }
    }
}

/// The ready tasks are those that are there and not done and of which all tasks
/// that they wait for are done, each once.
pub proof fn ready_tasks_are_listed(
    state: StrMap<TaskState>,
    field: &str,
    done: &str,
    blockers: StrSet,
    ready: Vec<String>,
    id: Seq<char>,
)
    requires
        call_ensures(
            ready_tasks,
            (&state, field, done, &blockers),
            Ok::<Vec<String>, String>(ready),
        ),
    ensures
        ready.deep_view().no_duplicates(),
        ready.deep_view().contains(id) <==> {
            &&& state@.contains_key(id)
            &&& !finished(state@, id, field@, done@)
            &&& forall|b: Seq<char>| #[trigger]
                awaits(state@, id, blockers@, b) ==> finished(state@, b, field@, done@)
        },
{
    tasks_wait_for_open_tasks(state@, id, field@, done@, blockers@);
}

pub(crate) proof fn lemma_cycles_listed(
    s: StateV,
    blockers: Set<Seq<char>>,
    all: Seq<Seq<Seq<char>>>,
    a: Seq<char>,
    b: Seq<char>,
)
    requires
        is_cycle_list(s, blockers, all),
        s.dom().finite(),
        a != b,
    ensures
        all.contains(seq![a]) <==> awaits(s, a, blockers, a),
        (exists|g: Seq<Seq<char>>| #[trigger] all.contains(g) && g.contains(a) && g.contains(b))
            <==> s.contains_key(a) && s.contains_key(b) && awaits_far(s, blockers, a, b)
            && awaits_far(s, blockers, b, a),
        forall|g: Seq<Seq<char>>| #[trigger]
            all.contains(g) ==> g.len() > 0 && strmap::ascending(g),
{
    let es = dep_edges(s, blockers);
    assert(es =~= Set::new(|e: (Seq<char>, Seq<char>)| awaits(s, e.0, blockers, e.1)));
    assert(all.contains(seq![a]) <==> is_cycle(s, blockers, seq![a]));
    assert forall|g: Seq<Seq<char>>| #[trigger] all.contains(g) implies g.len() > 0
        && strmap::ascending(g) by {
        assert(is_cycle(s, blockers, g));
    }
    if exists|g: Seq<Seq<char>>| #[trigger] all.contains(g) && g.contains(a) && g.contains(b) {
        let g = choose|g: Seq<Seq<char>>| #[trigger]
            all.contains(g) && g.contains(a) && g.contains(b);
        assert(is_cycle(s, blockers, g));
        let i = choose|i: int| 0 <= i < g.len() && g[i] == a;
        let j = choose|j: int| 0 <= j < g.len() && g[j] == b;
        assert(i != j);
        assert(cycle_group(s, es, g));
    }
    if s.contains_key(a) && s.contains_key(b) && reach::reaches(es, a, b) && reach::reaches(
        es,
        b,
        a,
    ) {
        let group = Set::new(
            |x: Seq<char>|
                s.contains_key(x) && (x == a || (reach::reaches(es, a, x) && reach::reaches(
                    es,
                    x,
                    a,
                ))),
        );
        vstd::set_lib::lemma_set_subset_finite(s.dom(), group);
        strmap::sorted_of_finite(group);
        let g = strmap::sorted_of(group);
        assert forall|x: Seq<char>| #[trigger] g.contains(x) <==> group.contains(x) by {
            assert(g.to_set().contains(x) <==> g.contains(x));
        }
        assert(g.contains(a) && g.contains(b));
        let i = choose|i: int| 0 <= i < g.len() && g[i] == a;
        let j = choose|j: int| 0 <= j < g.len() && g[j] == b;
        assert(i != j);
        assert forall|x: Seq<char>, y: Seq<char>| #[trigger]
            g.contains(x) && #[trigger] s.contains_key(y) && x != y implies (g.contains(y)
            <==> reach::reaches(es, x, y) && reach::reaches(es, y, x)) by {
            if x != a && y != a {
                if g.contains(y) {
                    reach::reaches_transitive(es, x, a, y);
                    reach::reaches_transitive(es, y, a, x);
                }
                if reach::reaches(es, x, y) && reach::reaches(es, y, x) {
                    reach::reaches_transitive(es, a, x, y);
                    reach::reaches_transitive(es, y, x, a);
                }
            }
        }
        assert(cycle_group(s, es, g));
        assert(is_cycle(s, blockers, g));
        assert(all.contains(g));
    }
}

/// Which cycles are listed. Two tasks stand in one cycle where each waits for the
/// other, at once or through others, and a task stands alone in one where it waits
/// for itself at once. None is empty, each is in id order, and none occurs twice.
pub proof fn cycles_are_listed(
    state: StrMap<TaskState>,
    blockers: StrSet,
    r: Vec<Vec<String>>,
    a: Seq<char>,
    b: Seq<char>,
)
    requires
        call_ensures(dependency_cycles, (&state, &blockers), r),
        state@.dom().finite(),
        a != b,
    ensures
        r.deep_view().no_duplicates(),
        r.deep_view().contains(seq![a]) <==> awaits(state@, a, blockers@, a),
        (exists|g: Seq<Seq<char>>| #[trigger]
            r.deep_view().contains(g) && g.contains(a) && g.contains(b)) <==> state@.contains_key(a)
            && state@.contains_key(b) && awaits_far(state@, blockers@, a, b) && awaits_far(
            state@,
            blockers@,
            b,
            a,
        ),
        forall|g: Seq<Seq<char>>| #[trigger]
            r.deep_view().contains(g) ==> g.len() > 0 && strmap::ascending(g),
{
    lemma_cycles_listed(state@, blockers@, r.deep_view(), a, b);
}

} // verus!
