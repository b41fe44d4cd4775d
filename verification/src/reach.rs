//! Reachability over a relation, and a search that decides it.

use vstd::prelude::*;

verus! {

/// Whether `b` is `n` steps from `a`.
pub open spec fn reach_in<T>(es: Set<(T, T)>, a: T, b: T, n: nat) -> bool
    decreases n,
{
    if n == 0 {
        a == b
    } else {
        exists|c: T| #[trigger] es.contains((a, c)) && reach_in(es, c, b, (n - 1) as nat)
    }
}

/// Whether `b` can be reached from `a` in one step or more.
pub open spec fn reaches<T>(es: Set<(T, T)>, a: T, b: T) -> bool {
    exists|n: nat| n >= 1 && #[trigger] reach_in(es, a, b, n)
}

/// Whether something can be reached from itself.
pub open spec fn cyclic<T>(es: Set<(T, T)>) -> bool {
    exists|a: T| #[trigger] reaches(es, a, a)
}

/// Every edge turned around.
pub open spec fn flipped<T>(es: Set<(T, T)>) -> Set<(T, T)> {
    Set::new(|e: (T, T)| es.contains((e.1, e.0)))
}

/// Steps add up.
pub proof fn lemma_reach_in_add<T>(es: Set<(T, T)>, a: T, b: T, c: T, n: nat, m: nat)
    requires
        reach_in(es, a, b, n),
        reach_in(es, b, c, m),
    ensures
        reach_in(es, a, c, n + m),
    decreases n,
{
    if n > 0 {
        let d = choose|d: T| #[trigger] es.contains((a, d)) && reach_in(es, d, b, (n - 1) as nat);
        lemma_reach_in_add(es, d, b, c, (n - 1) as nat, m);
        assert(((n - 1) as nat + m) as nat == (n + m - 1) as nat);
        assert(es.contains((a, d)) && reach_in(es, d, c, (n + m - 1) as nat));
    }
}

/// An edge is a way.
pub proof fn lemma_edge_reaches<T>(es: Set<(T, T)>, a: T, b: T)
    requires
        es.contains((a, b)),
    ensures
        reach_in(es, a, b, 1),
        reaches(es, a, b),
{
    reveal_with_fuel(reach_in, 2);
    assert(reach_in(es, b, b, 0));
    assert(reach_in(es, a, b, 1));
}

/// Reachability is transitive.
pub proof fn reaches_transitive<T>(es: Set<(T, T)>, a: T, b: T, c: T)
    requires
        reaches(es, a, b),
        reaches(es, b, c),
    ensures
        reaches(es, a, c),
{
    let n = choose|n: nat| n >= 1 && #[trigger] reach_in(es, a, b, n);
    let m = choose|m: nat| m >= 1 && #[trigger] reach_in(es, b, c, m);
    lemma_reach_in_add(es, a, b, c, n, m);
    assert(n + m >= 1 && reach_in(es, a, c, n + m));
}

/// A way of at least one step starts with an edge; what follows is shorter or
/// nothing.
pub proof fn lemma_first_edge<T>(es: Set<(T, T)>, a: T, b: T)
    requires
        reaches(es, a, b),
    ensures
        exists|c: T| #[trigger] es.contains((a, c)) && (c == b || reaches(es, c, b)),
{
    let n = choose|n: nat| n >= 1 && #[trigger] reach_in(es, a, b, n);
    let c = choose|c: T| #[trigger] es.contains((a, c)) && reach_in(es, c, b, (n - 1) as nat);
    if n >= 2 {
        assert((n - 1) as nat >= 1 && reach_in(es, c, b, (n - 1) as nat));
        assert(reaches(es, c, b));
    }
    assert(es.contains((a, c)) && (c == b || reaches(es, c, b)));
}

/// A way never leaves a set that its edges do not leave.
pub proof fn lemma_closed<T>(es: Set<(T, T)>, inside: Set<T>, a: T, b: T, n: nat)
    requires
        inside.contains(a),
        forall|x: T, y: T| inside.contains(x) && #[trigger] es.contains((x, y)) ==> inside.contains(y),
        reach_in(es, a, b, n),
    ensures
        inside.contains(b),
    decreases n,
{
    if n > 0 {
        let c = choose|c: T| #[trigger] es.contains((a, c)) && reach_in(es, c, b, (n - 1) as nat);
        lemma_closed(es, inside, c, b, (n - 1) as nat);
    }
}

/// Turning every edge around turns every way around.
pub proof fn lemma_flipped<T>(es: Set<(T, T)>, a: T, b: T, n: nat)
    ensures
        reach_in(es, a, b, n) ==> reach_in(flipped(es), b, a, n),
    decreases n,
{
    if n > 0 && reach_in(es, a, b, n) {
        let c = choose|c: T| #[trigger] es.contains((a, c)) && reach_in(es, c, b, (n - 1) as nat);
        lemma_flipped(es, c, b, (n - 1) as nat);
        assert(flipped(es).contains((c, a)));
        lemma_edge_reaches(flipped(es), c, a);
        lemma_reach_in_add(flipped(es), b, c, a, (n - 1) as nat, 1);
    }
}

/// Turning every edge around turns reachability around.
pub proof fn lemma_flipped_reaches<T>(es: Set<(T, T)>, a: T, b: T)
    ensures
        reaches(es, a, b) <==> reaches(flipped(es), b, a),
{
    if reaches(es, a, b) {
        let n = choose|n: nat| n >= 1 && #[trigger] reach_in(es, a, b, n);
        lemma_flipped(es, a, b, n);
    }
    if reaches(flipped(es), b, a) {
        let n = choose|n: nat| n >= 1 && #[trigger] reach_in(flipped(es), b, a, n);
        lemma_flipped(flipped(es), b, a, n);
        assert(flipped(flipped(es)) =~= es);
    }
}

/// A relation has a cycle exactly if the relation turned around has one.
pub proof fn cyclic_flipped<T>(es: Set<(T, T)>)
    ensures
        cyclic(es) <==> cyclic(flipped(es)),
{
    assert(flipped(flipped(es)) =~= es);
    if cyclic(es) {
        lemma_flipped_cycle(es);
    }
    if cyclic(flipped(es)) {
        lemma_flipped_cycle(flipped(es));
    }
}

proof fn lemma_flipped_cycle<T>(es: Set<(T, T)>)
    requires
        cyclic(es),
    ensures
        cyclic(flipped(es)),
{
    let a = choose|a: T| #[trigger] reaches(es, a, a);
    let n = choose|n: nat| n >= 1 && #[trigger] reach_in(es, a, a, n);
    lemma_flipped(es, a, a, n);
    assert(n >= 1 && reach_in(flipped(es), a, a, n));
    assert(reaches(flipped(es), a, a));
}

/// Whether `es` is the relation that `ix` becomes when each index stands for
/// the name at that index.
pub open spec fn names_edges<U>(ix: Set<(usize, usize)>, names: Seq<U>, es: Set<(U, U)>) -> bool {
    &&& names.no_duplicates()
    &&& forall|i: usize, j: usize| #[trigger]
        ix.contains((i, j)) ==> i < names.len() && j < names.len() && es.contains(
            (names[i as int], names[j as int]),
        )
    &&& forall|a: U, b: U| #[trigger]
        es.contains((a, b)) ==> exists|i: usize, j: usize| #[trigger]
            ix.contains((i, j)) && i < names.len() && j < names.len() && names[i as int] == a
                && names[j as int] == b
}

/// Names keep ways.
pub proof fn lemma_names_reach<U>(
    ix: Set<(usize, usize)>,
    names: Seq<U>,
    es: Set<(U, U)>,
    i: usize,
    j: usize,
    n: nat,
)
    requires
        names_edges(ix, names, es),
        i < names.len(),
        j < names.len(),
    ensures
        reach_in(ix, i, j, n) <==> reach_in(es, names[i as int], names[j as int], n),
    decreases n,
{
    if n > 0 {
        let m = (n - 1) as nat;
        if reach_in(ix, i, j, n) {
            let c = choose|c: usize| #[trigger] ix.contains((i, c)) && reach_in(ix, c, j, m);
            lemma_names_reach(ix, names, es, c, j, m);
            assert(es.contains((names[i as int], names[c as int])));
        }
        if reach_in(es, names[i as int], names[j as int], n) {
            let a = names[i as int];
            let b = names[j as int];
            let d = choose|d: U| #[trigger] es.contains((a, d)) && reach_in(es, d, b, m);
            let (p, q) = choose|p: usize, q: usize| #[trigger]
                ix.contains((p, q)) && p < names.len() && q < names.len() && names[p as int] == a
                    && names[q as int] == d;
            assert(p == i);
            lemma_names_reach(ix, names, es, q, j, m);
            assert(ix.contains((i, q)) && reach_in(ix, q, j, m));
        }
    }
}

/// Names keep reachability.
pub proof fn lemma_names_reaches<U>(
    ix: Set<(usize, usize)>,
    names: Seq<U>,
    es: Set<(U, U)>,
    i: usize,
    j: usize,
)
    requires
        names_edges(ix, names, es),
        i < names.len(),
        j < names.len(),
    ensures
        reaches(ix, i, j) <==> reaches(es, names[i as int], names[j as int]),
{
    if reaches(ix, i, j) {
        let n = choose|n: nat| n >= 1 && #[trigger] reach_in(ix, i, j, n);
        lemma_names_reach(ix, names, es, i, j, n);
    }
    if reaches(es, names[i as int], names[j as int]) {
        let n = choose|n: nat|
            n >= 1 && #[trigger] reach_in(es, names[i as int], names[j as int], n);
        lemma_names_reach(ix, names, es, i, j, n);
    }
}

/// Names keep cycles.
pub proof fn lemma_names_cyclic<U>(ix: Set<(usize, usize)>, names: Seq<U>, es: Set<(U, U)>)
    requires
        names_edges(ix, names, es),
    ensures
        cyclic(ix) <==> cyclic(es),
{
    if cyclic(ix) {
        let i = choose|i: usize| #[trigger] reaches(ix, i, i);
        lemma_first_edge(ix, i, i);
        let c = choose|c: usize| #[trigger] ix.contains((i, c)) && (c == i || reaches(ix, c, i));
        lemma_names_reaches(ix, names, es, i, i);
        assert(reaches(es, names[i as int], names[i as int]));
    }
    if cyclic(es) {
        let a = choose|a: U| #[trigger] reaches(es, a, a);
        lemma_first_edge(es, a, a);
        let c = choose|c: U| #[trigger] es.contains((a, c)) && (c == a || reaches(es, c, a));
        let (p, q) = choose|p: usize, q: usize| #[trigger]
            ix.contains((p, q)) && p < names.len() && q < names.len() && names[p as int] == a
                && names[q as int] == c;
        lemma_names_reaches(ix, names, es, p, p);
        assert(reaches(ix, p, p));
    }
}

/// The edges of an adjacency list.
pub open spec fn adjacency(adj: Seq<Seq<usize>>) -> Set<(usize, usize)> {
    Set::new(|e: (usize, usize)| e.0 < adj.len() && adj[e.0 as int].contains(e.1))
}

/// How many entries are still unset.
pub open spec fn unset(s: Seq<bool>) -> nat
    decreases s.len(),
{
    if s.len() == 0 {
        0
    } else {
        unset(s.drop_last()) + if s.last() {
            0nat
        } else {
            1nat
        }
    }
}

proof fn lemma_unset(s: Seq<bool>, i: int)
    requires
        0 <= i < s.len(),
        !s[i],
    ensures
        unset(s) == unset(s.update(i, true)) + 1,
    decreases s.len(),
{
    let t = s.update(i, true);
    if i == s.len() - 1 {
        assert(t.drop_last() =~= s.drop_last());
    } else {
        assert(t.drop_last() =~= s.drop_last().update(i, true));
        lemma_unset(s.drop_last(), i);
    }
}

/// What can be reached from `start` in one step or more.
pub fn reachable(adj: &Vec<Vec<usize>>, start: usize) -> (r: Vec<bool>)
    requires
        start < adj.len(),
        forall|i: int, j: int|
            0 <= i < adj.len() && 0 <= j < adj[i].len() ==> #[trigger] adj[i][j] < adj.len(),
    ensures
        r.len() == adj.len(),
        forall|m: usize|
            m < adj.len() ==> (#[trigger] r[m as int] <==> reaches(
                adjacency(adj.deep_view()),
                start,
                m,
            )),
{
    let ghost es = adjacency(adj.deep_view());
    let n: usize = adj.len();
    let mut seen: Vec<bool> = Vec::new();
    while seen.len() < n
        invariant
            seen.len() <= n,
            forall|m: int| 0 <= m < seen.len() ==> !#[trigger] seen[m],
        decreases n - seen.len(),
    {
        seen.push(false);
    }
    let mut stack: Vec<usize> = Vec::new();
    stack.push(start);
    assert(stack@[0] == start);
    assert(stack@.contains(start));
    while stack.len() > 0
        invariant
            n == adj.len(),
            start < n,
            seen.len() == n,
            es == adjacency(adj.deep_view()),
            forall|i: int, j: int|
                0 <= i < adj.len() && 0 <= j < adj[i].len() ==> #[trigger] adj[i][j] < adj.len(),
            forall|m: usize| m < n && #[trigger] seen[m as int] ==> reaches(es, start, m),
            forall|k: int|
                0 <= k < stack.len() ==> #[trigger] stack[k] < n && (stack[k] == start
                    || seen[stack[k] as int]),
            forall|x: usize, y: usize| #[trigger]
                es.contains((x, y)) && (x == start || seen[x as int]) && !stack@.contains(x)
                    ==> y < n && seen[y as int],
        decreases unset(seen@), stack.len(),
    {
        let ghost seen0 = seen@;
        let ghost stack0 = stack@;
        let node = stack.pop().unwrap();
        let ghost base = stack@;
        assert(stack0[stack0.len() - 1] == node);
        proof {
            assert forall|x: usize| stack0.contains(x) implies base.contains(x) || x == node by {
                let k = choose|k: int| 0 <= k < stack0.len() && stack0[k] == x;
                if k < base.len() {
                    assert(base[k] == x);
                }
            }
        }
        let mut j: usize = 0;
        while j < adj[node].len()
            invariant
                n == adj.len(),
                start < n,
                node < n,
                node == start || seen[node as int],
                seen.len() == n,
                j <= adj[node as int].len(),
                es == adjacency(adj.deep_view()),
                forall|i: int, j: int|
                    0 <= i < adj.len() && 0 <= j < adj[i].len() ==> #[trigger] adj[i][j]
                        < adj.len(),
                forall|m: usize| m < n && #[trigger] seen[m as int] ==> reaches(es, start, m),
                forall|k: int|
                    0 <= k < stack.len() ==> #[trigger] stack[k] < n && (stack[k] == start
                        || seen[stack[k] as int]),
                forall|x: usize, y: usize| #[trigger]
                    es.contains((x, y)) && (x == start || seen[x as int]) && !stack@.contains(x)
                        && x != node ==> y < n && seen[y as int],
                forall|k: int| 0 <= k < j ==> seen[#[trigger] adj[node as int][k] as int],
                unset(seen@) < unset(seen0) || (unset(seen@) == unset(seen0) && stack.len()
                    == stack0.len() - 1),
            decreases adj[node as int].len() - j,
        {
            let m = adj[node][j];
            if !seen[m] {
                proof {
                    assert(adj.deep_view()[node as int] == adj[node as int].deep_view());
                    assert(adj[node as int].deep_view()[j as int] == m);
                    assert(es.contains((node, m)));
                    lemma_edge_reaches(es, node, m);
                    if node != start {
                        reaches_transitive(es, start, node, m);
                    }
                    lemma_unset(seen@, m as int);
                }
                let ghost was = stack@;
                seen.set(m, true);
                stack.push(m);
                proof {
                    assert(stack@.len() > was.len());
                    assert(stack@[was.len() as int] == m);
                    assert forall|x: usize| was.contains(x) implies stack@.contains(x) by {
                        let k = choose|k: int| 0 <= k < was.len() && was[k] == x;
                        assert(stack@[k] == x);
                    }
                }
            }
            j += 1;
        }
        proof {
            assert forall|x: usize, y: usize| #[trigger]
                es.contains((x, y)) && (x == start || seen[x as int]) && !stack@.contains(
                    x,
                ) implies y < n && seen[y as int] by {
                if x == node {
                    assert(adj.deep_view()[node as int] == adj[node as int].deep_view());
                    let row = adj[node as int].deep_view();
                    let k = choose|k: int| 0 <= k < row.len() && row[k] == y;
                    assert(adj[node as int][k] == y);
                }
            }
        }
    }
    proof {
        let inside = Set::new(|x: usize| x < n && seen[x as int]);
        assert forall|m: usize| m < n && reaches(es, start, m) implies #[trigger] seen[m as int] by {
            lemma_first_edge(es, start, m);
            let c = choose|c: usize| #[trigger] es.contains((start, c)) && (c == m || reaches(es, c, m));
            assert(inside.contains(c));
            if c != m {
                let k = choose|k: nat| k >= 1 && #[trigger] reach_in(es, c, m, k);
                lemma_closed(es, inside, c, m, k);
            }
        }
    }
    seen
}

} // verus!
