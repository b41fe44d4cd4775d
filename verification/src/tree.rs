//! The blocker graph as a forest.

use crate::config;
use crate::config::TypesV;
use crate::dep;
use crate::engine;
use crate::graph;
use crate::json::{Json, JsonV};
use crate::model::{self, FieldsV, StateV, TaskState, TaskV};
use crate::order;
use crate::reach;
use crate::read::{self, SchemaReading, Warning};
use crate::sort::{self, Ranking};
use crate::store::Store;
use crate::strmap::{self, Data, StrMap, StrSet};
use crate::text::{self, Order};
use vstd::prelude::*;

verus! {

/// The order of two ids: by a column of their tasks, ids without a task last.
pub open spec fn id_order(s: StateV, a: Seq<char>, b: Seq<char>, column: Seq<char>) -> Order {
    if s.contains_key(a) && s.contains_key(b) {
        order::task_order(s[a], s[b], column)
    } else if s.contains_key(a) {
        Order::Less
    } else if s.contains_key(b) {
        Order::Greater
    } else {
        text::text_order(a, b)
    }
}

/// Compares two ids by a column of their tasks.
pub fn child_cmp(state: &StrMap<TaskState>, a: &str, b: &str, column: &str) -> (r: Order)
    ensures
        r == id_order(state@, a@, b@, column@),
{
    match (state.get(a), state.get(b)) {
        (Some(x), Some(y)) => order::task_cmp(x, y, column),
        (Some(_), None) => Order::Less,
        (None, Some(_)) => Order::Greater,
        (None, None) => text::compare_text(a, b),
    }
}

/// Whether the id at place `a` comes before that at place `b`: by the order of
/// ids, and by place where that leaves them equal.
pub open spec fn stands_before(
    s: StateV,
    ids: Seq<Seq<char>>,
    column: Seq<char>,
    a: int,
    b: int,
) -> bool {
    let o = id_order(s, ids[a], ids[b], column);
    o == Order::Less || (o == Order::Equal && a < b)
}

proof fn lemma_id_flips(s: StateV, a: Seq<char>, b: Seq<char>, column: Seq<char>)
    ensures
        id_order(s, b, a, column) == id_order(s, a, b, column).flip(),
{
    if s.contains_key(a) && s.contains_key(b) {
        order::task_order_flips(s[a], s[b], column);
    }
    order::text_order_flips(a, b);
}

proof fn lemma_id_fits(s: StateV, a: Seq<char>, b: Seq<char>, c: Seq<char>, column: Seq<char>)
    ensures
        order::fits(
            id_order(s, a, b, column),
            id_order(s, b, c, column),
            id_order(s, a, c, column),
        ),
{
    lemma_id_flips(s, a, b, column);
    lemma_id_flips(s, b, c, column);
    lemma_id_flips(s, a, c, column);
    if s.contains_key(a) && s.contains_key(b) && s.contains_key(c) {
        order::task_order_fits(s[a], s[b], s[c], column);
    }
    order::text_order_fits(a, b, c);
}

/// Ids ranked by a column of their tasks, and by place.
pub struct ByTask<'a> {
    pub ids: &'a Vec<String>,
    pub state: &'a StrMap<TaskState>,
    pub column: &'a str,
}

impl<'a> Ranking for ByTask<'a> {
    open spec fn size(&self) -> nat {
        self.ids.len() as nat
    }

    open spec fn precedes(&self, a: int, b: int) -> bool {
        stands_before(self.state@, self.ids.deep_view(), self.column@, a, b)
    }

    proof fn lemma_orders(&self) {
        let n = self.size() as int;
        let s = self.state@;
        let ids = self.ids.deep_view();
        let column = self.column@;
        assert forall|a: int, b: int| 0 <= a < n && 0 <= b < n && #[trigger] self.precedes(
            a,
            b,
        ) implies !self.precedes(b, a) by {
            lemma_id_flips(s, ids[a], ids[b], column);
        }
        assert forall|a: int, b: int, c: int|
            0 <= a < n && 0 <= b < n && 0 <= c < n && !(#[trigger] self.precedes(a, b)) && !(
            #[trigger] self.precedes(b, c)) implies !self.precedes(a, c) by {
            lemma_id_fits(s, ids[a], ids[b], ids[c], column);
        }
    }

    fn before(&self, a: usize, b: usize) -> (r: bool) {
        match child_cmp(self.state, self.ids[a].as_str(), self.ids[b].as_str(), self.column) {
            Order::Less => true,
            Order::Equal => a < b,
            Order::Greater => false,
        }
    }
}

/// Whether `places` is the arrangement of ids by a column.
pub open spec fn is_arranged(
    places: Seq<usize>,
    s: StateV,
    ids: Seq<Seq<char>>,
    column: Seq<char>,
) -> bool {
    &&& sort::is_permutation(places, ids.len())
    &&& sort::strictly(places, |a: int, b: int| stands_before(s, ids, column, a, b))
}

/// The places of the ids in the order of a column: ids without a task last, and
/// equal ones as they stood.
pub open spec fn arranged(s: StateV, ids: Seq<Seq<char>>, column: Seq<char>) -> Seq<usize> {
    choose|places: Seq<usize>| is_arranged(places, s, ids, column)
}

fn arrange(ids: &Vec<String>, state: &StrMap<TaskState>, column: &str) -> (r: Vec<usize>)
    ensures
        r@ == arranged(state@, ids.deep_view(), column@),
        sort::is_permutation(r@, ids.len() as nat),
{
    let by = ByTask { ids, state, column };
    let r = sort::sort_indices(ids.len(), &by);
    proof {
        let s = state@;
        let all = ids.deep_view();
        let lt = |a: int, b: int| stands_before(s, all, column@, a, b);
        assert forall|i: int, j: int| 0 <= i < j < r.len() implies #[trigger] lt(
            r@[i] as int,
            r@[j] as int,
        ) by {
            assert(!by.precedes(r@[j] as int, r@[i] as int));
            assert(r@[i] != r@[j]);
            lemma_id_flips(s, all[r@[i] as int], all[r@[j] as int], column@);
        }
        assert forall|x: int, y: int| #[trigger] lt(x, y) implies !lt(y, x) by {
            lemma_id_flips(s, all[x], all[y], column@);
        }
        assert(is_arranged(r@, s, all, column@));
        sort::arrangement_is_unique(r@, arranged(s, all, column@), all.len(), lt);
    }
    r
}

/// The elements of `s` at the given places, from the last place on where
/// `reverse` is set.
pub open spec fn picked<T>(s: Seq<T>, places: Seq<usize>, reverse: bool) -> Seq<T> {
    Seq::new(
        places.len(),
        |i: int|
            s[places[if reverse {
                places.len() - 1 - i
            } else {
                i
            }] as int],
    )
}

/// The ids in the order of a column, or in its reverse.
pub open spec fn ids_by(
    s: StateV,
    ids: Seq<Seq<char>>,
    column: Seq<char>,
    reverse: bool,
) -> Seq<Seq<char>> {
    picked(ids, arranged(s, ids, column), reverse)
}

/// Sorts ids by a column of their tasks; ids without a task come last.
pub fn sort_ids(
    ids: &Vec<String>,
    state: &StrMap<TaskState>,
    column: &str,
    reverse: bool,
) -> (r: Vec<
    String,
>)
    ensures
        r.deep_view() == ids_by(state@, ids.deep_view(), column@, reverse),
{
    let places = arrange(ids, state, column);
    let n = places.len();
    let ghost all = ids.deep_view();
    let mut out: Vec<String> = Vec::new();
    let mut i: usize = 0;
    while i < n
        invariant
            i <= n,
            n == places.len(),
            sort::is_permutation(places@, ids.len() as nat),
            all == ids.deep_view(),
            out.len() == i,
            forall|j: int| 0 <= j < i ==> (#[trigger] out@[j])@ == picked(all, places@, reverse)[j],
        decreases n - i,
    {
        let at = if reverse {
            places[n - 1 - i]
        } else {
            places[i]
        };
        out.push(ids[at].clone());
        i += 1;
    }
    assert(out.deep_view() =~= picked(all, places@, reverse));
    out
}

/// Whether a task, or one that it waits for, is open.
pub open spec fn leads_to_open(
    s: StateV,
    es: Set<(Seq<char>, Seq<char>)>,
    id: Seq<char>,
    field: Seq<char>,
    done: Seq<char>,
) -> bool {
    ||| graph::open_task(s, id, field, done)
    ||| exists|m: Seq<char>| #[trigger]
        graph::open_task(s, m, field, done) && s.contains_key(id) && reach::reaches(es, id, m)
}

/// The tasks that are open or wait, at any distance, for an open one.
pub fn compute_open_subtrees(
    state: &StrMap<TaskState>,
    blockers: &StrSet,
    status_field: &str,
    done_status: &str,
) -> (r: StrSet)
    ensures
        forall|id: Seq<char>| #[trigger]
            r@.contains(id) <==> leads_to_open(
                state@,
                graph::dep_edges(state@, blockers@),
                id,
                status_field@,
                done_status@,
            ),
{
    let adj = graph::prerequisites(state, blockers);
    let n = state.len();
    let ghost keys = state.keys_view();
    let ghost es = graph::dep_edges(state@, blockers@);
    let ghost ix = reach::adjacency(adj.deep_view());
    let mut open: Vec<bool> = Vec::new();
    let mut k: usize = 0;
    while k < n
        invariant
            k <= n,
            n == keys.len(),
            keys == state.keys_view(),
            open.len() == k,
            forall|m: int|
                0 <= m < k ==> (#[trigger] open@[m] <==> graph::open_task(
                    state@,
                    keys[m],
                    status_field@,
                    done_status@,
                )),
        decreases n - k,
    {
        open.push(!model::is_done(state.value_at(k), status_field, done_status));
        k += 1;
    }
    let mut out = StrSet::new();
    let mut i: usize = 0;
    assert(keys.take(0) =~= Seq::<Seq<char>>::empty());
    while i < n
        invariant
            i <= n,
            n == keys.len(),
            n == adj.len(),
            n == open.len(),
            keys == state.keys_view(),
            keys.to_set() == state@.dom(),
            es == graph::dep_edges(state@, blockers@),
            ix == reach::adjacency(adj.deep_view()),
            forall|i: int, j: int|
                0 <= i < adj.len() && 0 <= j < adj[i].len() ==> #[trigger] adj[i][j] < adj.len(),
            reach::names_edges(ix, keys, es),
            forall|m: int|
                0 <= m < n ==> (#[trigger] open@[m] <==> graph::open_task(
                    state@,
                    keys[m],
                    status_field@,
                    done_status@,
                )),
            forall|id: Seq<char>| #[trigger]
                out@.contains(id) <==> keys.take(i as int).contains(id) && leads_to_open(
                    state@,
                    es,
                    id,
                    status_field@,
                    done_status@,
                ),
        decreases n - i,
    {
        let found = reach::reachable(&adj, i);
        let mut any = open[i];
        let mut m: usize = 0;
        while m < n
            invariant
                m <= n,
                n == open.len(),
                n == found.len(),
                i < n,
                any <==> open@[i as int] || exists|j: int|
                    0 <= j < m && #[trigger] found@[j] && open@[j],
            decreases n - m,
        {
            let ghost was = any;
            if found[m] && open[m] {
                any = true;
            }
            proof {
                if any && !was {
                    assert(found@[m as int] && open@[m as int]);
                }
            }
            m += 1;
        }
        let id = state.key_at(i);
        let ghost had = out@;
        if any {
            out.insert(id.clone());
        }
        proof {
            assert(any <==> leads_to_open(state@, es, id@, status_field@, done_status@)) by {
                if any && !open@[i as int] {
                    let j = choose|j: int| 0 <= j < n && #[trigger] found@[j] && open@[j];
                    reach::lemma_names_reaches(ix, keys, es, i, j as usize);
                    assert(found@[j as usize as int]);
                    assert(graph::open_task(state@, keys[j], status_field@, done_status@));
                }
                if leads_to_open(state@, es, id@, status_field@, done_status@) && !open@[i as int] {
                    let x = choose|x: Seq<char>| #[trigger]
                        graph::open_task(state@, x, status_field@, done_status@)
                            && state@.contains_key(id@) && reach::reaches(es, id@, x);
                    assert(keys.to_set().contains(x));
                    let j = choose|j: int| 0 <= j < keys.len() && keys[j] == x;
                    reach::lemma_names_reaches(ix, keys, es, i, j as usize);
                    assert(found@[j as usize as int]);
                    assert(open@[j]);
                }
            }
            assert forall|x: Seq<char>| #[trigger] out@.contains(x) <==> keys.take(
                i as int + 1,
            ).contains(x) && leads_to_open(state@, es, x, status_field@, done_status@) by {
                strmap::lemma_take_one_more(keys, i as int, x);
                assert(had.contains(x) <==> keys.take(i as int).contains(x) && leads_to_open(
                    state@,
                    es,
                    x,
                    status_field@,
                    done_status@,
                ));
            }
        }
        i += 1;
    }
    proof {
        assert(keys.take(n as int) =~= keys);
        assert forall|id: Seq<char>| #[trigger] out@.contains(id) <==> leads_to_open(
            state@,
            es,
            id,
            status_field@,
            done_status@,
        ) by {
            assert(keys.to_set().contains(id) == keys.contains(id));
        }
    }
    out
}

/// One node of a dependency tree.
pub struct Node {
    pub id: String,
    /// The wanted columns that the task has, in the order asked for.
    pub cells: Vec<(String, Json)>,
    pub done: bool,
    /// The edge to the parent: `subtask` for a hierarchy edge, the type name for
    /// another blocker than the default one.
    pub edge: Option<String>,
    /// How many subtasks are done, of how many.
    pub rollup: Option<(usize, usize)>,
    pub kids: Kids,
}

/// A node's children, or why there are none.
pub enum Kids {
    Children(Vec<Node>),
    /// Shown in full elsewhere.
    Collapsed,
    /// An edge back to an ancestor.
    Cycle,
    /// There is no such task.
    Missing,
}

/// The model of a [`Node`].
pub struct NodeV {
    pub id: Seq<char>,
    pub cells: Seq<(Seq<char>, JsonV)>,
    pub done: bool,
    pub edge: Option<Seq<char>>,
    pub rollup: Option<(usize, usize)>,
    pub kids: KidsV,
}

/// The model of [`Kids`].
pub enum KidsV {
    Children(Seq<NodeV>),
    Collapsed,
    Cycle,
    Missing,
}

/// The node of an id that is no task.
pub open spec fn missing_node(id: Seq<char>) -> NodeV {
    NodeV {
        id,
        cells: Seq::empty(),
        done: false,
        edge: None,
        rollup: None,
        kids: KidsV::Missing,
    }
}

/// A node in the model.
pub open spec fn node_view(n: Node) -> NodeV
    decreases n,
{
    NodeV {
        id: n.id@,
        cells: n.cells.deep_view(),
        done: n.done,
        edge: n.edge.deep_view(),
        rollup: n.rollup,
        kids: match n.kids {
            Kids::Children(v) => KidsV::Children(
                Seq::new(
                    v@.len(),
                    |i: int|
                        if 0 <= i < v@.len() {
                            node_view(v@[i])
                        } else {
                            missing_node(n.id@)
                        },
                ),
            ),
            Kids::Collapsed => KidsV::Collapsed,
            Kids::Cycle => KidsV::Cycle,
            Kids::Missing => KidsV::Missing,
        },
    }
}

impl View for Node {
    type V = NodeV;

    open spec fn view(&self) -> NodeV {
        node_view(*self)
    }
}

impl DeepView for Node {
    type V = NodeV;

    open spec fn deep_view(&self) -> NodeV {
        self@
    }
}

/// What a tree is built from, in the model.
pub struct TreeV {
    pub state: StateV,
    pub blockers: Set<Seq<char>>,
    pub hierarchy: Set<Seq<char>>,
    pub status_field: Seq<char>,
    pub done_status: Seq<char>,
    pub default_blocker: Option<Seq<char>>,
    pub sort: Seq<char>,
    pub reverse: bool,
    pub open: bool,
    pub columns: Seq<Seq<char>>,
}

/// The label of the edge to the parent.
pub open spec fn edge_label(c: TreeV, kind: Option<Seq<char>>) -> Option<Seq<char>> {
    match kind {
        Some(k) => if c.hierarchy.contains(k) {
            Some("subtask"@)
        } else if c.default_blocker != Some(k) {
            Some(k)
        } else {
            None
        },
        None => None,
    }
}

/// The columns that a task has, in order.
pub open spec fn cells_of(fields: FieldsV, columns: Seq<Seq<char>>) -> Seq<(Seq<char>, JsonV)>
    decreases columns.len(),
{
    if columns.len() == 0 {
        Seq::empty()
    } else {
        let rest = cells_of(fields, columns.drop_last());
        if fields.contains_key(columns.last()) {
            rest.push((columns.last(), fields[columns.last()]))
        } else {
            rest
        }
    }
}

/// The progress of the subtasks, where there are any.
pub open spec fn rollup_of(c: TreeV, t: TaskV) -> Option<(usize, usize)> {
    let kids = graph::children(t, c.hierarchy);
    if kids.len() == 0 {
        None
    } else {
        Some(
            (
                graph::done_among(c.state, kids, c.status_field, c.done_status) as usize,
                kids.len() as usize,
            ),
        )
    }
}

/// The edges whose targets lead to open tasks.
pub open spec fn open_edges(c: TreeV, edges: Seq<graph::EdgeV>) -> Seq<graph::EdgeV>
    decreases edges.len(),
{
    if edges.len() == 0 {
        Seq::empty()
    } else {
        let rest = open_edges(c, edges.drop_last());
        if leads_to_open(
            c.state,
            graph::dep_edges(c.state, c.blockers),
            edges.last().0,
            c.status_field,
            c.done_status,
        ) {
            rest.push(edges.last())
        } else {
            rest
        }
    }
}

/// The edges to a node's children, in the order in which they are shown.
pub open spec fn shown_edges(c: TreeV, t: TaskV) -> Seq<graph::EdgeV> {
    let edges = graph::gating_edges(t, c.blockers);
    let targets = edges.map_values(|e: graph::EdgeV| e.0);
    let sorted = picked(edges, arranged(c.state, targets, c.sort), c.reverse);
    if c.open {
        open_edges(c, sorted)
    } else {
        sorted
    }
}

/// How much deeper a path can get.
pub open spec fn room(c: TreeV, path: Seq<Seq<char>>) -> nat {
    if path.len() < c.state.dom().len() {
        (c.state.dom().len() - path.len()) as nat
    } else {
        0
    }
}

/// The node of an id that is reached over `path`, and the tasks that are
/// expanded once it is built.
///
/// A task on the path closes a cycle; a task that is expanded already and waits
/// for others is collapsed; any other task is expanded with its children in
/// order.
pub open spec fn node_of(
    c: TreeV,
    id: Seq<char>,
    kind: Option<Seq<char>>,
    path: Seq<Seq<char>>,
    expanded: Set<Seq<char>>,
) -> (NodeV, Set<Seq<char>>)
    decreases room(c, path), 0nat,
{
    if !c.state.contains_key(id) {
        (missing_node(id), expanded)
    } else {
        let t = c.state[id];
        let (kids, after) = if path.contains(id) {
            (KidsV::Cycle, expanded)
        } else if expanded.contains(id) && graph::gating_edges(t, c.blockers).len() > 0 {
            (KidsV::Collapsed, expanded)
        } else if room(c, path) == 0 {
            (KidsV::Children(Seq::empty()), expanded.insert(id))
        } else {
            let (nodes, after) = nodes_of(
                c,
                shown_edges(c, t),
                path.push(id),
                expanded.insert(id),
            );
            (KidsV::Children(nodes), after)
        };
        (
            NodeV {
                id,
                cells: cells_of(t.custom_fields, c.columns),
                done: model::done_in(t.custom_fields, c.status_field, c.done_status),
                edge: edge_label(c, kind),
                rollup: rollup_of(c, t),
                kids,
            },
            after,
        )
    }
}

/// The nodes at the ends of the given edges, built one after the other.
pub open spec fn nodes_of(
    c: TreeV,
    edges: Seq<graph::EdgeV>,
    path: Seq<Seq<char>>,
    expanded: Set<Seq<char>>,
) -> (Seq<NodeV>, Set<Seq<char>>)
    decreases room(c, path), 1 + edges.len(),
{
    if edges.len() == 0 {
        (Seq::empty(), expanded)
    } else {
        let (front, mid) = nodes_of(c, edges.drop_last(), path, expanded);
        let (node, after) = node_of(c, edges.last().0, Some(edges.last().1), path, mid);
        (front.push(node), after)
    }
}

/// The trees of the given roots, built one after the other.
pub open spec fn forest_of(c: TreeV, roots: Seq<Seq<char>>) -> (Seq<NodeV>, Set<Seq<char>>)
    decreases roots.len(),
{
    if roots.len() == 0 {
        (Seq::empty(), Set::empty())
    } else {
        let (front, mid) = forest_of(c, roots.drop_last());
        let (node, after) = node_of(c, roots.last(), None, Seq::empty(), mid);
        (front.push(node), after)
    }
}

/// How often the task `x` is shown with its children in a tree.
pub open spec fn unfoldings(n: NodeV, x: Seq<char>) -> nat
    decreases n, 0nat,
{
    match n.kids {
        KidsV::Children(v) => {
            proof {
                assert(decreases_to!(n => n.kids));
                assert(decreases_to!(n.kids => v));
            }
            (if n.id == x {
                1nat
            } else {
                0
            }) + unfoldings_in(v, x, v.len())
        },
        _ => 0,
    }
}

/// How often the task `x` is shown with its children in the first `k` trees.
pub open spec fn unfoldings_in(v: Seq<NodeV>, x: Seq<char>, k: nat) -> nat
    decreases v, k,
{
    if k == 0 || k > v.len() {
        0
    } else {
        unfoldings_in(v, x, (k - 1) as nat) + unfoldings(v[k - 1], x)
    }
}

proof fn lemma_unfoldings_front(v: Seq<NodeV>, n: NodeV, x: Seq<char>, k: nat)
    requires
        k <= v.len(),
    ensures
        unfoldings_in(v.push(n), x, k) == unfoldings_in(v, x, k),
    decreases k,
{
    if k > 0 {
        lemma_unfoldings_front(v, n, x, (k - 1) as nat);
        assert(v.push(n)[k - 1] == v[k - 1]);
    }
}

/// Whether a tree that `x` was or was not yet unfolded before shows it with its
/// children once at most, and keeps account of it.
spec fn unfolds_once(
    shown: nat,
    before: Set<Seq<char>>,
    after: Set<Seq<char>>,
    x: Seq<char>,
) -> bool {
    &&& shown <= 1
    &&& before.contains(x) ==> shown == 0 && after.contains(x)
    &&& shown == 1 ==> after.contains(x)
}

proof fn lemma_node_unfolds_once(
    c: TreeV,
    id: Seq<char>,
    kind: Option<Seq<char>>,
    path: Seq<Seq<char>>,
    expanded: Set<Seq<char>>,
    x: Seq<char>,
)
    requires
        graph::gating_edges(c.state[x], c.blockers).len() > 0,
    ensures
        ({
            let (node, after) = node_of(c, id, kind, path, expanded);
            unfolds_once(unfoldings(node, x), expanded, after, x)
        }),
    decreases room(c, path), 0nat,
{
    if c.state.contains_key(id) && !path.contains(id) && !(expanded.contains(id)
        && graph::gating_edges(c.state[id], c.blockers).len() > 0) {
        if room(c, path) > 0 {
            lemma_nodes_unfold_once(
                c,
                shown_edges(c, c.state[id]),
                path.push(id),
                expanded.insert(id),
                x,
            );
        }
    }
}

proof fn lemma_nodes_unfold_once(
    c: TreeV,
    edges: Seq<graph::EdgeV>,
    path: Seq<Seq<char>>,
    expanded: Set<Seq<char>>,
    x: Seq<char>,
)
    requires
        graph::gating_edges(c.state[x], c.blockers).len() > 0,
    ensures
        ({
            let (nodes, after) = nodes_of(c, edges, path, expanded);
            unfolds_once(unfoldings_in(nodes, x, nodes.len()), expanded, after, x)
        }),
    decreases room(c, path), 1 + edges.len(),
{
    if edges.len() > 0 {
        let (front, mid) = nodes_of(c, edges.drop_last(), path, expanded);
        lemma_nodes_unfold_once(c, edges.drop_last(), path, expanded, x);
        lemma_node_unfolds_once(c, edges.last().0, Some(edges.last().1), path, mid, x);
        let (node, _) = node_of(c, edges.last().0, Some(edges.last().1), path, mid);
        lemma_unfoldings_front(front, node, x, front.len());
    }
}

/// A task that waits for others is shown with its children once at most in a
/// forest, however many tasks lead to it.
pub proof fn tasks_unfold_once(c: TreeV, roots: Seq<Seq<char>>, x: Seq<char>)
    requires
        graph::gating_edges(c.state[x], c.blockers).len() > 0,
    ensures
        ({
            let (nodes, after) = forest_of(c, roots);
            &&& unfoldings_in(nodes, x, nodes.len()) <= 1
            &&& unfoldings_in(nodes, x, nodes.len()) == 1 ==> after.contains(x)
        }),
    decreases roots.len(),
{
    if roots.len() > 0 {
        let (front, mid) = forest_of(c, roots.drop_last());
        tasks_unfold_once(c, roots.drop_last(), x);
        lemma_node_unfolds_once(c, roots.last(), None, Seq::empty(), mid, x);
        let (node, _) = node_of(c, roots.last(), None, Seq::empty(), mid);
        lemma_unfoldings_front(front, node, x, front.len());
    }
}

/// What a tree is built from.
struct TreeCtx<'a> {
    state: &'a StrMap<TaskState>,
    blockers: &'a StrSet,
    hierarchy: &'a StrSet,
    status_field: &'a str,
    done_status: &'a str,
    default_blocker: Option<&'a String>,
    sort: &'a str,
    reverse: bool,
    open: bool,
    open_subtrees: &'a StrSet,
    columns: &'a Vec<String>,
}

impl<'a> TreeCtx<'a> {
    spec fn model(&self) -> TreeV {
        TreeV {
            state: self.state@,
            blockers: self.blockers@,
            hierarchy: self.hierarchy@,
            status_field: self.status_field@,
            done_status: self.done_status@,
            default_blocker: self.default_blocker.deep_view(),
            sort: self.sort@,
            reverse: self.reverse,
            open: self.open,
            columns: self.columns.deep_view(),
        }
    }

    spec fn ready(&self) -> bool {
        &&& self.state@.dom().finite()
        &&& forall|id: Seq<char>| #[trigger]
            self.open_subtrees@.contains(id) <==> leads_to_open(
                self.state@,
                graph::dep_edges(self.state@, self.blockers@),
                id,
                self.status_field@,
                self.done_status@,
            )
    }
}

fn pick_cells(task: &TaskState, columns: &Vec<String>) -> (r: Vec<(String, Json)>)
    ensures
        r.deep_view() == cells_of(task@.custom_fields, columns.deep_view()),
{
    let ghost all = columns.deep_view();
    let mut out: Vec<(String, Json)> = Vec::new();
    let mut i: usize = 0;
    assert(out.deep_view() =~= cells_of(task@.custom_fields, all.take(0)));
    while i < columns.len()
        invariant
            i <= columns.len(),
            all == columns.deep_view(),
            out.deep_view() == cells_of(task@.custom_fields, all.take(i as int)),
        decreases columns.len() - i,
    {
        let column = &columns[i];
        let ghost longer = all.take(i as int + 1);
        assert(longer.drop_last() =~= all.take(i as int));
        assert(longer.last() == column@);
        if let Some(v) = task.custom_fields.get(column.as_str()) {
            let ghost had = out.deep_view();
            out.push((column.clone(), v.copy()));
            assert(out.deep_view() =~= had.push((column@, v@)));
        }
        i += 1;
    }
    assert(all.take(all.len() as int) =~= all);
    out
}

fn copy_pair(e: &(String, String)) -> (r: (String, String))
    ensures
        r.deep_view() == e.deep_view(),
{
    (e.0.clone(), e.1.clone())
}

/// The edges to the children of a task, in the order in which they are shown.
fn list_children(ctx: &TreeCtx, task: &TaskState) -> (r: Vec<(String, String)>)
    requires
        ctx.ready(),
    ensures
        r.deep_view() == shown_edges(ctx.model(), task@),
{
    let ghost c = ctx.model();
    let edges = graph::blocker_edges(task, ctx.blockers);
    let ghost all = edges.deep_view();
    let ghost names = all.map_values(|e: graph::EdgeV| e.0);
    let mut targets: Vec<String> = Vec::new();
    let mut k: usize = 0;
    while k < edges.len()
        invariant
            k <= edges.len(),
            all == edges.deep_view(),
            names == all.map_values(|e: graph::EdgeV| e.0),
            targets.len() == k,
            forall|j: int| 0 <= j < k ==> (#[trigger] targets@[j])@ == names[j],
        decreases edges.len() - k,
    {
        targets.push(edges[k].0.clone());
        k += 1;
    }
    assert(targets.deep_view() =~= names);
    let places = arrange(&targets, ctx.state, ctx.sort);
    let n = places.len();
    let ghost sorted = picked(all, places@, ctx.reverse);
    let mut out: Vec<(String, String)> = Vec::new();
    let mut i: usize = 0;
    assert(sorted.take(0) =~= Seq::<graph::EdgeV>::empty());
    assert(out.deep_view() =~= Seq::<graph::EdgeV>::empty());
    while i < n
        invariant
            i <= n,
            n == places.len(),
            ctx.ready(),
            c == ctx.model(),
            sort::is_permutation(places@, edges.len() as nat),
            all == edges.deep_view(),
            sorted == picked(all, places@, ctx.reverse),
            out.deep_view() == if ctx.open {
                open_edges(c, sorted.take(i as int))
            } else {
                sorted.take(i as int)
            },
        decreases n - i,
    {
        let at = if ctx.reverse {
            places[n - 1 - i]
        } else {
            places[i]
        };
        let e = &edges[at];
        let ghost longer = sorted.take(i as int + 1);
        let ghost had = out.deep_view();
        assert(longer.drop_last() =~= sorted.take(i as int));
        assert(longer.last() == e.deep_view());
        assert(longer =~= sorted.take(i as int).push(longer.last()));
        if !ctx.open || ctx.open_subtrees.contains(e.0.as_str()) {
            out.push(copy_pair(e));
            assert(out.deep_view() =~= had.push(e.deep_view()));
        }
        i += 1;
    }
    assert(sorted.take(n as int) =~= sorted);
    out
}

proof fn lemma_room(c: TreeV, path: Seq<Seq<char>>, id: Seq<char>)
    requires
        c.state.dom().finite(),
        path.no_duplicates(),
        forall|i: int| 0 <= i < path.len() ==> c.state.contains_key(#[trigger] path[i]),
        c.state.contains_key(id),
        !path.contains(id),
    ensures
        room(c, path) > 0,
        path.push(id).no_duplicates(),
        forall|i: int| 0 <= i < path.push(id).len() ==> c.state.contains_key(#[trigger] path.push(id)[i]),
{
    let longer = path.push(id);
    assert(longer.no_duplicates()) by {
        assert forall|i: int, j: int| 0 <= i < j < longer.len() implies longer[i] != longer[j] by {
            if j == path.len() {
                assert(path.contains(path[i]));
            }
        }
    }
    longer.unique_seq_to_set();
    assert(longer.to_set().subset_of(c.state.dom())) by {
        assert forall|x: Seq<char>| longer.to_set().contains(x) implies c.state.dom().contains(x) by {
            let i = choose|i: int| 0 <= i < longer.len() && longer[i] == x;
            if i < path.len() {
                assert(path[i] == x);
            }
        }
    }
    vstd::set_lib::lemma_len_subset(longer.to_set(), c.state.dom());
}

fn copy_path(path: &Vec<String>, id: &str) -> (r: Vec<String>)
    ensures
        r.deep_view() == path.deep_view().push(id@),
{
    let mut out = path.copy();
    let ghost had = out.deep_view();
    out.push(String::from_str(id));
    assert(out.deep_view() =~= had.push(id@));
    out
}

/// Builds the node of a task that is reached over `path`.
fn build(
    ctx: &TreeCtx,
    id: &str,
    kind: Option<&String>,
    path: &Vec<String>,
    expanded: &mut StrSet,
) -> (r: Node)
    requires
        ctx.ready(),
        path.deep_view().no_duplicates(),
        forall|i: int|
            0 <= i < path.len() ==> ctx.state@.contains_key(#[trigger] path.deep_view()[i]),
    ensures
        (r@, final(expanded)@) == node_of(
            ctx.model(),
            id@,
            kind.deep_view(),
            path.deep_view(),
            old(expanded)@,
        ),
    decreases room(ctx.model(), path.deep_view()), 0nat,
{
    let ghost c = ctx.model();
    let ghost start = expanded@;
    let task = match ctx.state.get(id) {
        Some(t) => t,
        None => {
            let cells: Vec<(String, Json)> = Vec::new();
            assert(cells.deep_view() =~= Seq::empty());
            return Node {
                id: String::from_str(id),
                cells,
                done: false,
                edge: None,
                rollup: None,
                kids: Kids::Missing,
            };
        },
    };
    let edge = match kind {
        Some(k) => if ctx.hierarchy.contains(k.as_str()) {
            Some(String::from_str("subtask"))
        } else {
            let is_default = match ctx.default_blocker {
                Some(d) => text::same_text(d.as_str(), k.as_str()),
                None => false,
            };
            if is_default {
                None
            } else {
                Some(k.clone())
            }
        },
        None => None,
    };
    assert(edge.deep_view() == edge_label(c, kind.deep_view()));
    let done = model::is_done(task, ctx.status_field, ctx.done_status);
    let cells = pick_cells(task, ctx.columns);
    let (finished, total) = graph::subtask_counts(
        task,
        ctx.state,
        ctx.hierarchy,
        ctx.status_field,
        ctx.done_status,
    );
    let rollup = if total > 0 {
        Some((finished, total))
    } else {
        None
    };
    let kids = if engine::contains_text(path, id) {
        Kids::Cycle
    } else {
        let edges = graph::blocker_edges(task, ctx.blockers);
        assert(edges.deep_view().len() == edges.len());
        if expanded.contains(id) && edges.len() > 0 {
            Kids::Collapsed
        } else {
            proof {
                lemma_room(c, path.deep_view(), id@);
            }
            expanded.insert(String::from_str(id));
            let longer = copy_path(path, id);
            let children = list_children(ctx, task);
            let nodes = build_all(ctx, &children, &longer, expanded);
            Kids::Children(nodes)
        }
    };
    let node = Node { id: String::from_str(id), cells, done, edge, rollup, kids };
    proof {
        if node.kids is Children {
            assert(node@.kids->Children_0 =~= (node.kids->Children_0).deep_view());
        }
        let want = node_of(c, id@, kind.deep_view(), path.deep_view(), start);
        assert(node@ == want.0);
        assert(expanded@ == want.1);
    }
    node
}

/// Builds the nodes at the ends of the given edges, one after the other.
fn build_all(
    ctx: &TreeCtx,
    edges: &Vec<(String, String)>,
    path: &Vec<String>,
    expanded: &mut StrSet,
) -> (r: Vec<Node>)
    requires
        ctx.ready(),
        path.deep_view().no_duplicates(),
        forall|i: int|
            0 <= i < path.len() ==> ctx.state@.contains_key(#[trigger] path.deep_view()[i]),
    ensures
        (r.deep_view(), final(expanded)@) == nodes_of(
            ctx.model(),
            edges.deep_view(),
            path.deep_view(),
            old(expanded)@,
        ),
    decreases room(ctx.model(), path.deep_view()), 1nat,
{
    let ghost c = ctx.model();
    let ghost all = edges.deep_view();
    let ghost start = expanded@;
    let mut out: Vec<Node> = Vec::new();
    let mut i: usize = 0;
    assert(all.take(0) =~= Seq::<graph::EdgeV>::empty());
    assert(out.deep_view() =~= Seq::<NodeV>::empty());
    while i < edges.len()
        invariant
            i <= edges.len(),
            ctx.ready(),
            c == ctx.model(),
            all == edges.deep_view(),
            path.deep_view().no_duplicates(),
            forall|i: int|
                0 <= i < path.len() ==> ctx.state@.contains_key(#[trigger] path.deep_view()[i]),
            (out.deep_view(), expanded@) == nodes_of(c, all.take(i as int), path.deep_view(), start),
        decreases edges.len() - i,
    {
        let e = &edges[i];
        let ghost longer = all.take(i as int + 1);
        let ghost had = out.deep_view();
        assert(longer.drop_last() =~= all.take(i as int));
        assert(longer.last() == e.deep_view());
        let node = build(ctx, e.0.as_str(), Some(&e.1), path, expanded);
        let ghost nv = node@;
        out.push(node);
        assert(out.deep_view() =~= had.push(nv));
        i += 1;
    }
    assert(all.take(all.len() as int) =~= all);
    out
}

/// What a tree is asked for: its roots (every task that nothing waits for, if
/// none is given), whether to leave out branches without open tasks, the order
/// of roots and children, and the columns of each node.
pub struct TreeQuery<'a> {
    pub roots: &'a Vec<String>,
    pub open: bool,
    pub reverse: bool,
    pub columns: &'a Vec<String>,
    pub sort: &'a str,
}

/// The forest, and the warnings of the read.
pub struct TreeOutcome {
    pub forest: Vec<Node>,
    pub warnings: Vec<Warning>,
}

/// Whether `n` is the first of the blocker types.
pub open spec fn is_default_type(types: TypesV, n: Seq<char>) -> bool {
    &&& types.contains_key(n) && types[n].kind == config::RelKind::Blocker
    &&& forall|m: Seq<char>| #[trigger]
        types.contains_key(m) && types[m].kind == config::RelKind::Blocker ==> m == n
            || text::text_lt(n, m)
}

/// The first of the blocker types, where there is one.
pub open spec fn default_type(types: TypesV) -> Option<Seq<char>> {
    if exists|n: Seq<char>| is_default_type(types, n) {
        Some(choose|n: Seq<char>| is_default_type(types, n))
    } else {
        None
    }
}

proof fn lemma_default_type(types: TypesV, n: Seq<char>, m: Seq<char>)
    requires
        is_default_type(types, n),
        is_default_type(types, m),
    ensures
        n == m,
{
    if n != m {
        text::text_lt_asymmetric(n, m);
    }
}

/// Whether some task waits for `id`.
pub open spec fn depended_on(s: StateV, blockers: Set<Seq<char>>, id: Seq<char>) -> bool {
    exists|t: Seq<char>| #[trigger] s.contains_key(t) && graph::gates(s[t], blockers, id)
}

/// The ids that nothing waits for, in order.
pub open spec fn undepended(
    s: StateV,
    blockers: Set<Seq<char>>,
    ids: Seq<Seq<char>>,
) -> Seq<Seq<char>>
    decreases ids.len(),
{
    if ids.len() == 0 {
        Seq::empty()
    } else {
        let rest = undepended(s, blockers, ids.drop_last());
        if depended_on(s, blockers, ids.last()) {
            rest
        } else {
            rest.push(ids.last())
        }
    }
}

/// The roots of a tree for which none are given: the tasks that nothing waits
/// for, or all tasks where there is no such task.
pub open spec fn default_roots(s: StateV, blockers: Set<Seq<char>>) -> Seq<Seq<char>> {
    let ids = strmap::sorted_of(s.dom());
    let free = undepended(s, blockers, ids);
    if free.len() == 0 {
        ids
    } else {
        free
    }
}

/// The ids that lead to open tasks, in order.
pub open spec fn open_ones(c: TreeV, ids: Seq<Seq<char>>) -> Seq<Seq<char>>
    decreases ids.len(),
{
    if ids.len() == 0 {
        Seq::empty()
    } else {
        let rest = open_ones(c, ids.drop_last());
        if leads_to_open(
            c.state,
            graph::dep_edges(c.state, c.blockers),
            ids.last(),
            c.status_field,
            c.done_status,
        ) {
            rest.push(ids.last())
        } else {
            rest
        }
    }
}

/// The roots in the order in which they are shown.
pub open spec fn shown_roots(c: TreeV, given: Seq<Seq<char>>) -> Seq<Seq<char>> {
    let roots = if given.len() == 0 {
        default_roots(c.state, c.blockers)
    } else {
        given
    };
    let sorted = ids_by(c.state, roots, c.sort, c.reverse);
    if c.open {
        open_ones(c, sorted)
    } else {
        sorted
    }
}

impl<'a> TreeQuery<'a> {
    /// What the tree is built from.
    pub open spec fn over(&self, store: Store, schema: SchemaReading) -> TreeV {
        TreeV {
            state: read::with_computed(
                store.shown(schema),
                self.columns.deep_view(),
                store.gates(),
                store.hierarchy(),
                store.config.workflow.status_field@,
                store.config.workflow.done_status@,
            ),
            blockers: store.gates(),
            hierarchy: store.hierarchy(),
            status_field: store.config.workflow.status_field@,
            done_status: store.config.workflow.done_status@,
            default_blocker: default_type(store.config.relationships.types@),
            sort: self.sort@,
            reverse: self.reverse,
            open: self.open,
            columns: self.columns.deep_view(),
        }
    }
}

fn depended_ids(state: &StrMap<TaskState>, blockers: &StrSet) -> (r: StrSet)
    ensures
        forall|id: Seq<char>| #[trigger]
            r@.contains(id) <==> depended_on(state@, blockers@, id),
{
    let n = state.len();
    let ghost keys = state.keys_view();
    let mut out = StrSet::new();
    let mut i: usize = 0;
    while i < n
        invariant
            i <= n,
            n == keys.len(),
            keys == state.keys_view(),
            forall|id: Seq<char>| #[trigger]
                out@.contains(id) <==> exists|j: int|
                    0 <= j < i && graph::gates(state@[#[trigger] keys[j]], blockers@, id),
        decreases n - i,
    {
        let ghost base = out@;
        let task = state.value_at(i);
        let edges = graph::blocker_edges(task, blockers);
        let ghost all = edges.deep_view();
        let mut k: usize = 0;
        while k < edges.len()
            invariant
                k <= edges.len(),
                all == edges.deep_view(),
                forall|id: Seq<char>| #[trigger]
                    out@.contains(id) <==> base.contains(id) || exists|m: int|
                        0 <= m < k && (#[trigger] all[m]).0 == id,
            decreases edges.len() - k,
        {
            let ghost had = out@;
            out.insert(edges[k].0.clone());
            proof {
                assert(all[k as int].0 == edges@[k as int].0@);
                assert forall|id: Seq<char>| #[trigger] out@.contains(id) <==> base.contains(id)
                    || exists|m: int| 0 <= m < k + 1 && (#[trigger] all[m]).0 == id by {
                    assert(had.contains(id) <==> base.contains(id) || exists|m: int|
                        0 <= m < k && (#[trigger] all[m]).0 == id);
                }
            }
            k += 1;
        }
        proof {
            let t = state@[keys[i as int]];
            assert forall|id: Seq<char>| #[trigger] out@.contains(id) <==> exists|j: int|
                0 <= j < i + 1 && graph::gates(state@[#[trigger] keys[j]], blockers@, id) by {
                assert(base.contains(id) <==> exists|j: int|
                    0 <= j < i && graph::gates(state@[#[trigger] keys[j]], blockers@, id));
                assert((exists|m: int| 0 <= m < all.len() && (#[trigger] all[m]).0 == id)
                    <==> graph::gates(t, blockers@, id)) by {
                    if exists|m: int| 0 <= m < all.len() && (#[trigger] all[m]).0 == id {
                        let m = choose|m: int| 0 <= m < all.len() && (#[trigger] all[m]).0 == id;
                        assert(all.contains((id, all[m].1)));
                        assert(t.relationships.contains_key(all[m].1));
                    }
                    if graph::gates(t, blockers@, id) {
                        let rel = choose|rel: Seq<char>|
                            blockers@.contains(rel) && #[trigger] t.relationships.contains_key(rel)
                                && t.relationships[rel].contains(id);
                        assert(all.contains((id, rel)));
                        let m = choose|m: int| 0 <= m < all.len() && all[m] == (id, rel);
                        assert(all[m].0 == id);
                    }
                }
                if graph::gates(t, blockers@, id) {
                    assert(graph::gates(state@[keys[i as int]], blockers@, id));
                }
            }
        }
        i += 1;
    }
    proof {
        assert forall|id: Seq<char>| #[trigger] out@.contains(id) <==> depended_on(
            state@,
            blockers@,
            id,
        ) by {
            if out@.contains(id) {
                let j = choose|j: int|
                    0 <= j < n && graph::gates(state@[#[trigger] keys[j]], blockers@, id);
                assert(keys.to_set().contains(keys[j]));
                assert(state@.contains_key(keys[j]));
            }
            if depended_on(state@, blockers@, id) {
                let t = choose|t: Seq<char>| #[trigger]
                    state@.contains_key(t) && graph::gates(state@[t], blockers@, id);
                assert(keys.to_set().contains(t));
                let j = choose|j: int| 0 <= j < keys.len() && keys[j] == t;
                assert(graph::gates(state@[keys[j]], blockers@, id));
            }
        }
    }
    out
}

fn find_roots(state: &StrMap<TaskState>, blockers: &StrSet) -> (r: Vec<String>)
    ensures
        r.deep_view() == default_roots(state@, blockers@),
{
    let depended = depended_ids(state, blockers);
    let n = state.len();
    let ghost keys = state.keys_view();
    let mut free: Vec<String> = Vec::new();
    let mut ids: Vec<String> = Vec::new();
    let mut i: usize = 0;
    assert(keys.take(0) =~= Seq::<Seq<char>>::empty());
    assert(free.deep_view() =~= Seq::<Seq<char>>::empty());
    assert(ids.deep_view() =~= Seq::<Seq<char>>::empty());
    while i < n
        invariant
            i <= n,
            n == keys.len(),
            keys == state.keys_view(),
            forall|id: Seq<char>| #[trigger]
                depended@.contains(id) <==> depended_on(state@, blockers@, id),
            ids.deep_view() == keys.take(i as int),
            free.deep_view() == undepended(state@, blockers@, keys.take(i as int)),
        decreases n - i,
    {
        let id = state.key_at(i);
        let ghost longer = keys.take(i as int + 1);
        let ghost had = ids.deep_view();
        assert(longer.drop_last() =~= keys.take(i as int));
        assert(longer.last() == id@);
        ids.push(id.clone());
        assert(ids.deep_view() =~= had.push(id@));
        assert(longer =~= keys.take(i as int).push(id@));
        if !depended.contains(id.as_str()) {
            let ghost was = free.deep_view();
            free.push(id.clone());
            assert(free.deep_view() =~= was.push(id@));
        }
        i += 1;
    }
    assert(keys.take(n as int) =~= keys);
    assert(free.deep_view().len() == free.len());
    if free.len() == 0 {
        ids
    } else {
        free
    }
}

/// Builds the forest of the blocker graph, the tasks that a task waits for under
/// it. A given root that is no task is an error.
pub fn tree(store: &Store, schema: &SchemaReading, query: &TreeQuery) -> (r: Result<
    TreeOutcome,
    String,
>)
    ensures
        ({
            let c = query.over(*store, *schema);
            let missing = dep::first_missing(c.state, query.roots.deep_view());
            match r {
                Ok(o) => {
                    &&& missing is None
                    &&& o.forest.deep_view() == forest_of(
                        c,
                        shown_roots(c, query.roots.deep_view()),
                    ).0
                    &&& o.warnings.deep_view() == store.warned(*schema)
                },
                Err(m) => missing is Some && m@ == dep::no_task(missing->0),
            }
        }),
{
    let session = read::read(store, schema);
    let state = read::inject_computed_columns(&store.config, session.state, query.columns);
    let ghost c = query.over(*store, *schema);
    let blockers = store.config.relationships.blocker_types();
    let hierarchy = store.config.relationships.hierarchy_types();
    let field = store.config.workflow.status_field.as_str();
    let done = store.config.workflow.done_status.as_str();
    let open_subtrees = compute_open_subtrees(&state, &blockers, field, done);
    let ghost given = query.roots.deep_view();
    let roots = if query.roots.len() == 0 {
        assert(given =~= Seq::<Seq<char>>::empty());
        find_roots(&state, &blockers)
    } else {
        match dep::find_missing(&state, query.roots) {
            Some(id) => {
                return Err(text::cat3("no task `", id.as_str(), "`"));
            },
            None => {},
        }
        query.roots.copy()
    };
    let sorted = sort_ids(&roots, &state, query.sort, query.reverse);
    let ghost all = sorted.deep_view();
    let default_blocker = store.config.relationships.default_blocker();
    proof {
        let types = store.config.relationships.types@;
        match default_blocker {
            Some(n) => {
                assert(is_default_type(types, n@));
                lemma_default_type(types, n@, default_type(types)->0);
            },
            None => {},
        }
        assert(default_blocker.deep_view() == default_type(types));
    }
    let ctx = TreeCtx {
        state: &state,
        blockers: &blockers,
        hierarchy: &hierarchy,
        status_field: field,
        done_status: done,
        default_blocker,
        sort: query.sort,
        reverse: query.reverse,
        open: query.open,
        open_subtrees: &open_subtrees,
        columns: query.columns,
    };
    let size = state.len();
    assert(ctx.model() == c);
    assert(ctx.ready());
    let path: Vec<String> = Vec::new();
    assert(path.deep_view() =~= Seq::<Seq<char>>::empty());
    let mut expanded = StrSet::new();
    let mut forest: Vec<Node> = Vec::new();
    let ghost mut kept: Seq<Seq<char>> = Seq::empty();
    let mut i: usize = 0;
    assert(all.take(0) =~= Seq::<Seq<char>>::empty());
    assert(forest.deep_view() =~= Seq::<NodeV>::empty());
    assert(open_ones(c, all.take(0)) =~= kept);
    while i < sorted.len()
        invariant
            i <= sorted.len(),
            all == sorted.deep_view(),
            ctx.ready(),
            ctx.model() == c,
            ctx.open == query.open,
            ctx.open_subtrees == open_subtrees,
            path.deep_view() == Seq::<Seq<char>>::empty(),
            kept == if query.open {
                open_ones(c, all.take(i as int))
            } else {
                all.take(i as int)
            },
            (forest.deep_view(), expanded@) == forest_of(c, kept),
        decreases sorted.len() - i,
    {
        let root = sorted[i].as_str();
        let ghost longer = all.take(i as int + 1);
        assert(longer.drop_last() =~= all.take(i as int));
        assert(longer.last() == root@);
        assert(longer =~= all.take(i as int).push(root@));
        if !query.open || open_subtrees.contains(root) {
            let ghost had = forest.deep_view();
            let node = build(&ctx, root, None, &path, &mut expanded);
            let ghost nv = node@;
            forest.push(node);
            proof {
                assert(forest.deep_view() =~= had.push(nv));
                let more = kept.push(root@);
                assert(more.drop_last() =~= kept);
                kept = more;
            }
        }
        i += 1;
    }
    assert(all.take(all.len() as int) =~= all);
    Ok(TreeOutcome { forest, warnings: session.warnings })
}

proof fn lemma_undepended(s: StateV, blockers: Set<Seq<char>>, ids: Seq<Seq<char>>, id: Seq<char>)
    ensures
        undepended(s, blockers, ids).contains(id) <==> ids.contains(id) && !depended_on(
            s,
            blockers,
            id,
        ),
    decreases ids.len(),
{
    if ids.len() > 0 {
        let fewer = ids.drop_last();
        lemma_undepended(s, blockers, fewer, id);
        strmap::lemma_contains_last(ids, id);
        let all = undepended(s, blockers, ids);
        if !depended_on(s, blockers, ids.last()) {
            strmap::lemma_contains_last(all, id);
            assert(all.drop_last() =~= undepended(s, blockers, fewer));
        }
    }
}

proof fn lemma_open_ones(c: TreeV, ids: Seq<Seq<char>>, id: Seq<char>)
    ensures
        open_ones(c, ids).contains(id) <==> ids.contains(id) && leads_to_open(
            c.state,
            graph::dep_edges(c.state, c.blockers),
            id,
            c.status_field,
            c.done_status,
        ),
    decreases ids.len(),
{
    if ids.len() > 0 {
        let fewer = ids.drop_last();
        lemma_open_ones(c, fewer, id);
        strmap::lemma_contains_last(ids, id);
        let all = open_ones(c, ids);
        if leads_to_open(
            c.state,
            graph::dep_edges(c.state, c.blockers),
            ids.last(),
            c.status_field,
            c.done_status,
        ) {
            strmap::lemma_contains_last(all, id);
            assert(all.drop_last() =~= open_ones(c, fewer));
        }
    }
}

proof fn lemma_picked<T>(s: Seq<T>, places: Seq<usize>, reverse: bool, x: T)
    requires
        sort::is_permutation(places, s.len()),
    ensures
        picked(s, places, reverse).contains(x) <==> s.contains(x),
        picked(s, places, reverse).len() == s.len(),
{
    let out = picked(s, places, reverse);
    if out.contains(x) {
        let i = choose|i: int| 0 <= i < out.len() && out[i] == x;
        let j = if reverse {
            places.len() - 1 - i
        } else {
            i
        };
        assert(places[j] < s.len());
        assert(s[places[j] as int] == x);
    }
    if s.contains(x) {
        let k = choose|k: int| 0 <= k < s.len() && s[k] == x;
        sort::lemma_permutation_covers(places, s.len(), k);
        let j = choose|j: int| 0 <= j < places.len() && #[trigger] places[j] == k;
        let i = if reverse {
            places.len() - 1 - j
        } else {
            j
        };
        assert(out[i] == x);
    }
}

/// The places of ids by a column are each place once, in the order of the column.
proof fn lemma_arranged(s: StateV, ids: Seq<Seq<char>>, column: Seq<char>)
    requires
        ids.len() <= usize::MAX,
    ensures
        is_arranged(arranged(s, ids, column), s, ids, column),
{
    let lt = |a: int, b: int| stands_before(s, ids, column, a, b);
    assert forall|a: int, b: int| #[trigger] lt(a, b) implies !lt(b, a) by {
        lemma_id_flips(s, ids[a], ids[b], column);
    }
    assert forall|a: int, b: int| a != b implies #[trigger] lt(a, b) || lt(b, a) by {
        lemma_id_flips(s, ids[a], ids[b], column);
    }
    assert forall|a: int, b: int, c: int|
        !(#[trigger] lt(a, b)) && !(#[trigger] lt(b, c)) implies !lt(a, c) by {
        lemma_id_flips(s, ids[a], ids[b], column);
        lemma_id_flips(s, ids[b], ids[c], column);
        lemma_id_flips(s, ids[a], ids[c], column);
        lemma_id_fits(s, ids[a], ids[b], ids[c], column);
    }
    let r = sort::arrangement_exists(ids.len(), lt);
    assert(is_arranged(r, s, ids, column));
}

proof fn lemma_forest_ids(c: TreeV, roots: Seq<Seq<char>>)
    ensures
        forest_of(c, roots).0.len() == roots.len(),
        forall|i: int| 0 <= i < roots.len() ==> (#[trigger] forest_of(c, roots).0[i]).id == roots[i],
    decreases roots.len(),
{
    if roots.len() > 0 {
        lemma_forest_ids(c, roots.drop_last());
        let all = forest_of(c, roots).0;
        let front = forest_of(c, roots.drop_last()).0;
        assert forall|i: int| 0 <= i < roots.len() implies (#[trigger] all[i]).id == roots[i] by {
            if i < roots.len() - 1 {
                assert(all[i] == front[i]);
            }
        }
    }
}

/// Whether a forest has a tree of a task.
pub open spec fn has_root(forest: Seq<NodeV>, id: Seq<char>) -> bool {
    exists|i: int| 0 <= i < forest.len() && (#[trigger] forest[i]).id == id
}

/// Whether some task has an edge of a blocker type to `id`.
pub open spec fn someone_waits(s: StateV, blockers: Set<Seq<char>>, id: Seq<char>) -> bool {
    exists|t: Seq<char>, rel: Seq<char>|
        s.contains_key(t) && blockers.contains(rel) && s[t].relationships.contains_key(rel)
            && #[trigger] s[t].relationships[rel].contains(id)
}

/// Whether a task is open, or waits, over any number of edges of blocker types
/// between tasks, for one that is.
pub open spec fn open_below(c: TreeV, id: Seq<char>) -> bool {
    exists|m: Seq<char>|
        #![trigger c.state.contains_key(m)]
        c.state.contains_key(m) && !(c.state[m].custom_fields.contains_key(c.status_field)
            && c.state[m].custom_fields[c.status_field] == JsonV::Str(c.done_status)) && (m == id || (
        c.state.contains_key(id) && reach::reaches(graph::dep_edges(c.state, c.blockers), id, m)))
}

/// The trees of a forest for which no roots are given are those of the tasks that
/// no task waits for; of all tasks, where some task waits for each. Given roots
/// are the trees that are asked for. Where only open work is wanted, the trees
/// without any are left out, and no others.
pub proof fn forests_start_at_their_roots(c: TreeV, given: Seq<Seq<char>>, id: Seq<char>)
    requires
        c.state.dom().finite(),
        c.state.dom().len() <= usize::MAX,
        given.len() <= usize::MAX,
    ensures
        ({
            let forest = forest_of(c, shown_roots(c, given)).0;
            let asked = if given.len() > 0 {
                given.contains(id)
            } else {
                c.state.contains_key(id) && (!someone_waits(c.state, c.blockers, id) || forall|
                    x: Seq<char>,
                | #[trigger]
                    c.state.contains_key(x) ==> someone_waits(c.state, c.blockers, x))
            };
            has_root(forest, id) <==> asked && (c.open ==> open_below(c, id))
        }),
{
    let ids = strmap::sorted_of(c.state.dom());
    strmap::sorted_of_finite(c.state.dom());
    strmap::lemma_ascending_distinct(ids);
    ids.unique_seq_to_set();
    assert forall|x: Seq<char>| ids.contains(x) <==> c.state.contains_key(x) by {
        assert(ids.to_set().contains(x) == ids.contains(x));
    }
    assert forall|x: Seq<char>| #[trigger] depended_on(c.state, c.blockers, x) == someone_waits(
        c.state,
        c.blockers,
        x,
    ) by {
        if depended_on(c.state, c.blockers, x) {
            let t = choose|t: Seq<char>| #[trigger]
                c.state.contains_key(t) && graph::gates(c.state[t], c.blockers, x);
            let rel = choose|rel: Seq<char>|
                c.blockers.contains(rel) && #[trigger] c.state[t].relationships.contains_key(rel)
                    && c.state[t].relationships[rel].contains(x);
            assert(c.state[t].relationships[rel].contains(x));
        }
        if someone_waits(c.state, c.blockers, x) {
            let (t, rel) = choose|t: Seq<char>, rel: Seq<char>|
                c.state.contains_key(t) && c.blockers.contains(rel)
                    && c.state[t].relationships.contains_key(rel)
                    && #[trigger] c.state[t].relationships[rel].contains(x);
            assert(graph::gates(c.state[t], c.blockers, x));
        }
    }
    let free = undepended(c.state, c.blockers, ids);
    assert forall|x: Seq<char>| #[trigger] free.contains(x) <==> c.state.contains_key(x)
        && !someone_waits(c.state, c.blockers, x) by {
        lemma_undepended(c.state, c.blockers, ids, x);
        assert(depended_on(c.state, c.blockers, x) == someone_waits(c.state, c.blockers, x));
    }
    lemma_undepended_len(c.state, c.blockers, ids);
    let roots = if given.len() == 0 {
        default_roots(c.state, c.blockers)
    } else {
        given
    };
    if given.len() == 0 {
        if free.len() == 0 {
            assert forall|x: Seq<char>| #[trigger] c.state.contains_key(x) implies someone_waits(
                c.state,
                c.blockers,
                x,
            ) by {
                assert(!free.contains(x));
            }
        } else {
            let x = free[0];
            assert(free.contains(x));
            assert(c.state.contains_key(x) && !someone_waits(c.state, c.blockers, x));
        }
        assert(free.contains(id) || !free.contains(id));
    }
    lemma_arranged(c.state, roots, c.sort);
    lemma_picked(roots, arranged(c.state, roots, c.sort), c.reverse, id);
    let sorted = ids_by(c.state, roots, c.sort, c.reverse);
    lemma_open_ones(c, sorted, id);
    let es = graph::dep_edges(c.state, c.blockers);
    assert(open_below(c, id) <==> leads_to_open(
        c.state,
        es,
        id,
        c.status_field,
        c.done_status,
    )) by {
        if leads_to_open(c.state, es, id, c.status_field, c.done_status) {
            if graph::open_task(c.state, id, c.status_field, c.done_status) {
                assert(c.state.contains_key(id));
            } else {
                let m = choose|m: Seq<char>| #[trigger]
                    graph::open_task(c.state, m, c.status_field, c.done_status)
                        && c.state.contains_key(id) && reach::reaches(es, id, m);
                assert(c.state.contains_key(m));
            }
        }
        if open_below(c, id) {
            let m = choose|m: Seq<char>|
                #![trigger c.state.contains_key(m)]
                c.state.contains_key(m) && !(c.state[m].custom_fields.contains_key(c.status_field)
                    && c.state[m].custom_fields[c.status_field] == JsonV::Str(c.done_status)) && (m
                    == id || (c.state.contains_key(id) && reach::reaches(es, id, m)));
            assert(graph::open_task(c.state, m, c.status_field, c.done_status));
        }
    }
    let shown = shown_roots(c, given);
    let forest = forest_of(c, shown).0;
    lemma_forest_ids(c, shown);
    assert(has_root(forest, id) <==> shown.contains(id)) by {
        if has_root(forest, id) {
            let i = choose|i: int| 0 <= i < forest.len() && (#[trigger] forest[i]).id == id;
            assert(shown[i] == id);
        }
        if shown.contains(id) {
            let i = choose|i: int| 0 <= i < shown.len() && shown[i] == id;
            assert(forest[i].id == id);
        }
    }
}

proof fn lemma_undepended_len(s: StateV, blockers: Set<Seq<char>>, ids: Seq<Seq<char>>)
    ensures
        undepended(s, blockers, ids).len() <= ids.len(),
    decreases ids.len(),
{
    if ids.len() > 0 {
        lemma_undepended_len(s, blockers, ids.drop_last());
    }
}

proof fn lemma_cells(fields: FieldsV, columns: Seq<Seq<char>>, x: (Seq<char>, JsonV))
    ensures
        cells_of(fields, columns).contains(x) <==> columns.contains(x.0) && fields.contains_key(x.0)
            && fields[x.0] == x.1,
    decreases columns.len(),
{
    if columns.len() > 0 {
        let rest = columns.drop_last();
        lemma_cells(fields, rest, x);
        strmap::lemma_contains_last(columns, x.0);
        if fields.contains_key(columns.last()) {
            let all = cells_of(fields, columns);
            assert(all.drop_last() =~= cells_of(fields, rest));
            strmap::lemma_contains_last(all, x);
        }
    }
}

proof fn lemma_kids(
    c: TreeV,
    edges: Seq<graph::EdgeV>,
    path: Seq<Seq<char>>,
    expanded: Set<Seq<char>>,
)
    ensures
        nodes_of(c, edges, path, expanded).0.len() == edges.len(),
        forall|i: int|
            0 <= i < edges.len() ==> (#[trigger] nodes_of(c, edges, path, expanded).0[i]).id
                == edges[i].0,
        forall|i: int|
            0 <= i < edges.len() && c.state.contains_key(edges[i].0) ==> (
            #[trigger] nodes_of(c, edges, path, expanded).0[i]).edge == edge_label(
                c,
                Some(edges[i].1),
            ),
    decreases edges.len(),
{
    if edges.len() > 0 {
        let rest = edges.drop_last();
        lemma_kids(c, rest, path, expanded);
        let front = nodes_of(c, rest, path, expanded).0;
        let all = nodes_of(c, edges, path, expanded).0;
        let mid = nodes_of(c, rest, path, expanded).1;
        let node = node_of(c, edges.last().0, Some(edges.last().1), path, mid).0;
        assert(all == front.push(node));
        assert(node.id == edges.last().0);
        assert forall|i: int| 0 <= i < edges.len() implies (#[trigger] all[i]).id == edges[i].0 && (
        c.state.contains_key(edges[i].0) ==> all[i].edge == edge_label(c, Some(edges[i].1))) by {
            if i < rest.len() {
                assert(all[i] == front[i]);
                assert(rest[i] == edges[i]);
            }
        }
    }
}

proof fn lemma_open_edges(c: TreeV, edges: Seq<graph::EdgeV>, e: graph::EdgeV)
    ensures
        open_edges(c, edges).contains(e) <==> edges.contains(e) && leads_to_open(
            c.state,
            graph::dep_edges(c.state, c.blockers),
            e.0,
            c.status_field,
            c.done_status,
        ),
    decreases edges.len(),
{
    if edges.len() > 0 {
        let rest = edges.drop_last();
        lemma_open_edges(c, rest, e);
        strmap::lemma_contains_last(edges, e);
        let all = open_edges(c, edges);
        if leads_to_open(
            c.state,
            graph::dep_edges(c.state, c.blockers),
            edges.last().0,
            c.status_field,
            c.done_status,
        ) {
            assert(all.drop_last() =~= open_edges(c, rest));
            strmap::lemma_contains_last(all, e);
        }
    }
}

/// Whether one of the nodes is of a task.
pub open spec fn among_nodes(nodes: Seq<NodeV>, id: Seq<char>) -> bool {
    exists|i: int| 0 <= i < nodes.len() && (#[trigger] nodes[i]).id == id
}

/// Whether a task has an edge of a blocker type to `x`, be that there or not.
pub open spec fn points_to(c: TreeV, id: Seq<char>, x: Seq<char>) -> bool {
    exists|rel: Seq<char>| #[trigger]
        c.state[id].relationships.contains_key(rel) && c.blockers.contains(rel)
            && c.state[id].relationships[rel].contains(x)
}

/// What a node shows. A task that is not there shows as missing, and one that
/// stands above itself as a cycle; one that was unfolded elsewhere is collapsed
/// where it waits for any. Any other has a node below it for each task that it
/// waits for, where only open work is shown for each with open work below it,
/// and no others. It shows the wanted columns in which the task has a value,
/// whether it is done, and how many of its subtasks are done.
pub proof fn nodes_show_what_tasks_wait_for(
    c: TreeV,
    id: Seq<char>,
    kind: Option<Seq<char>>,
    path: Seq<Seq<char>>,
    expanded: Set<Seq<char>>,
    x: Seq<char>,
)
    requires
        c.state.dom().finite(),
        path.no_duplicates(),
        forall|i: int| 0 <= i < path.len() ==> c.state.contains_key(#[trigger] path[i]),
        c.state.contains_key(id) ==> c.state[id].relationships.dom().finite()
            && graph::gating_edges(c.state[id], c.blockers).len() <= usize::MAX,
    ensures
        ({
            let n = node_of(c, id, kind, path, expanded).0;
            let t = c.state[id];
            let known = c.state.contains_key(id);
            let waits = exists|y: Seq<char>| #[trigger] points_to(c, id, y);
            &&& n.id == id
            &&& n.kids is Missing <==> !known
            &&& n.kids is Cycle <==> known && path.contains(id)
            &&& n.kids is Collapsed <==> known && !path.contains(id) && expanded.contains(id)
                && waits
            &&& n.kids matches KidsV::Children(kids) ==> (among_nodes(kids, x) <==> points_to(
                c,
                id,
                x,
            ) && (c.open ==> open_below(c, x)))
            &&& known ==> (n.done <==> t.custom_fields.contains_key(c.status_field)
                && t.custom_fields[c.status_field] == JsonV::Str(c.done_status))
            &&& known ==> forall|k: Seq<char>, v: JsonV| #[trigger]
                n.cells.contains((k, v)) <==> c.columns.contains(k) && t.custom_fields.contains_key(k)
                    && t.custom_fields[k] == v
            &&& known && kind is None ==> n.edge is None
            &&& known && kind is Some && c.hierarchy.contains(kind->0) ==> n.edge == Some("subtask"@)
            &&& known && kind is Some && !c.hierarchy.contains(kind->0) ==> n.edge
                == if c.default_blocker == kind {
                None
            } else {
                kind
            }
            &&& known && graph::children(t, c.hierarchy).len() == 0 ==> n.rollup is None
        }),
{
    let n = node_of(c, id, kind, path, expanded).0;
    if c.state.contains_key(id) {
        let t = c.state[id];
        assert forall|k: Seq<char>, v: JsonV| #[trigger] n.cells.contains((k, v))
            <==> c.columns.contains(k) && t.custom_fields.contains_key(k) && t.custom_fields[k]
            == v by {
            lemma_cells(t.custom_fields, c.columns, (k, v));
        }
        let edges = graph::gating_edges(t, c.blockers);
        strmap::sorted_of_finite(t.relationships.dom());
        assert forall|y: Seq<char>, rel: Seq<char>| #[trigger] edges.contains((y, rel))
            <==> c.blockers.contains(rel) && t.relationships.contains_key(rel)
            && t.relationships[rel].contains(y) by {
            graph::gating_edges_are_the_blockers(t, c.blockers, y, rel);
        }
        if edges.len() > 0 {
            let (y, rel) = edges[0];
            assert(edges.contains((y, rel)));
            assert(t.relationships.contains_key(rel));
            assert(points_to(c, id, y));
        }
        if exists|y: Seq<char>| #[trigger] points_to(c, id, y) {
            let y = choose|y: Seq<char>| #[trigger] points_to(c, id, y);
            let rel = choose|rel: Seq<char>| #[trigger]
                t.relationships.contains_key(rel) && c.blockers.contains(rel)
                    && t.relationships[rel].contains(y);
            assert(edges.contains((y, rel)));
        }
        if !path.contains(id) && n.kids is Children {
            lemma_room(c, path, id);
            let shown = shown_edges(c, t);
            let kids = n.kids->Children_0;
            lemma_kids(c, shown, path.push(id), expanded.insert(id));
            let targets = edges.map_values(|e: graph::EdgeV| e.0);
            lemma_arranged(c.state, targets, c.sort);
            let places = arranged(c.state, targets, c.sort);
            let sorted = picked(edges, places, c.reverse);
            lemma_open_below(c, x);
            if among_nodes(kids, x) {
                let i = choose|i: int| 0 <= i < kids.len() && (#[trigger] kids[i]).id == x;
                let e = shown[i];
                assert(e.0 == x);
                assert(shown.contains(e));
                lemma_open_edges(c, sorted, e);
                lemma_picked(edges, places, c.reverse, e);
                assert(edges.contains((e.0, e.1)));
                assert(t.relationships.contains_key(e.1));
            }
            if points_to(c, id, x) && (c.open ==> open_below(c, x)) {
                let rel = choose|rel: Seq<char>| #[trigger]
                    t.relationships.contains_key(rel) && c.blockers.contains(rel)
                        && t.relationships[rel].contains(x);
                let e = (x, rel);
                assert(edges.contains((x, rel)));
                lemma_picked(edges, places, c.reverse, e);
                lemma_open_edges(c, sorted, e);
                assert(shown.contains(e));
                let i = choose|i: int| 0 <= i < shown.len() && shown[i] == e;
                assert(kids[i].id == x);
            }
        }
    }
}

proof fn lemma_open_below(c: TreeV, x: Seq<char>)
    ensures
        leads_to_open(
            c.state,
            graph::dep_edges(c.state, c.blockers),
            x,
            c.status_field,
            c.done_status,
        ) <==> open_below(c, x),
{
    let es = graph::dep_edges(c.state, c.blockers);
    if leads_to_open(c.state, es, x, c.status_field, c.done_status) {
        if graph::open_task(c.state, x, c.status_field, c.done_status) {
            assert(c.state.contains_key(x));
        } else {
            let m = choose|m: Seq<char>| #[trigger]
                graph::open_task(c.state, m, c.status_field, c.done_status)
                    && c.state.contains_key(x) && reach::reaches(es, x, m);
            assert(c.state.contains_key(m));
        }
    }
    if open_below(c, x) {
        let m = choose|m: Seq<char>|
            #![trigger c.state.contains_key(m)]
            c.state.contains_key(m) && !(c.state[m].custom_fields.contains_key(c.status_field)
                && c.state[m].custom_fields[c.status_field] == JsonV::Str(c.done_status)) && (m == x
                || (c.state.contains_key(x) && reach::reaches(es, x, m)));
        assert(graph::open_task(c.state, m, c.status_field, c.done_status));
    }
}

/// Sorted ids are the same ids in the order of a column: those of tasks by their
/// values there, and those without a task after them, by themselves. Reversed,
/// they stand the other way round.
pub proof fn ids_are_sorted(
    s: StateV,
    ids: Seq<Seq<char>>,
    column: Seq<char>,
    reverse: bool,
    i: int,
    j: int,
)
    requires
        ids.len() <= usize::MAX,
        0 <= i < j < ids.len(),
    ensures
        ({
            let out = ids_by(s, ids, column, reverse);
            let a = if reverse {
                out[j]
            } else {
                out[i]
            };
            let b = if reverse {
                out[i]
            } else {
                out[j]
            };
            &&& out.len() == ids.len()
            &&& forall|x: Seq<char>| #[trigger] out.contains(x) <==> ids.contains(x)
            &&& s.contains_key(b) ==> s.contains_key(a)
            &&& s.contains_key(a) && s.contains_key(b) ==> order::task_order(s[a], s[b], column)
                != Order::Greater
            &&& !s.contains_key(a) && !s.contains_key(b) ==> !text::text_lt(b, a)
        }),
{
    let places = arranged(s, ids, column);
    lemma_arranged(s, ids, column);
    let out = ids_by(s, ids, column, reverse);
    assert forall|x: Seq<char>| #[trigger] out.contains(x) <==> ids.contains(x) by {
        lemma_picked(ids, places, reverse, x);
    }
    lemma_picked(ids, places, reverse, ids[0]);
    let (p, q) = if reverse {
        (places.len() - 1 - j, places.len() - 1 - i)
    } else {
        (i, j)
    };
    let lt = |a: int, b: int| stands_before(s, ids, column, a, b);
    assert(lt(places[p] as int, places[q] as int));
    let (a, b) = (ids[places[p] as int], ids[places[q] as int]);
    if text::text_lt(a, b) {
        text::text_lt_asymmetric(a, b);
    }
    text::text_lt_irreflexive(a);
}

/// The default type is the first of the types that only block, by name; there is
/// none exactly where no type does.
pub proof fn the_default_type_is_the_first(types: TypesV, n: Seq<char>)
    requires
        types.dom().finite(),
        types.contains_key(n),
        types[n].kind == config::RelKind::Blocker,
    ensures
        default_type(types) matches Some(d) && types.contains_key(d) && types[d].kind
            == config::RelKind::Blocker && (d == n || text::text_lt(d, n)),
{
    let of = Set::new(
        |m: Seq<char>| types.contains_key(m) && types[m].kind == config::RelKind::Blocker,
    );
    assert(of.subset_of(types.dom()));
    vstd::set_lib::lemma_set_subset_finite(types.dom(), of);
    strmap::sorted_of_finite(of);
    let names = strmap::sorted_of(of);
    assert(names.to_set().contains(n));
    let first = names[0];
    assert(names.contains(first) && names.to_set().contains(first));
    assert forall|m: Seq<char>| #[trigger]
        types.contains_key(m) && types[m].kind == config::RelKind::Blocker implies m == first
        || text::text_lt(first, m) by {
        assert(names.to_set().contains(m));
        let i = choose|i: int| 0 <= i < names.len() && names[i] == m;
        if i > 0 {
            assert(text::text_lt(names[0], names[i]));
        }
    }
    assert(is_default_type(types, first));
}

} // verus!
