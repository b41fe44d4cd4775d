//! Adding and removing typed edges between tasks.

use crate::compensate;
use crate::config::{self, Config, RelKind, RelationshipDef, TypesV};
use crate::engine;
use crate::graph;
use crate::model::{EventV, MutationEvent, OpType, RelsV, StateV, TaskState, TaskV, Timestamp};
use crate::reach;
use crate::strmap::{self, StrMap, StrSet};
use crate::text;
use vstd::prelude::*;

verus! {

/// An edge as it is stored: its owner, its type and its target.
pub type EdgeV = (Seq<char>, Seq<char>, Seq<char>);

/// The order of edges: by owner, then type, then target.
pub open spec fn edge_lt(a: EdgeV, b: EdgeV) -> bool {
    text::text_lt(a.0, b.0) || (a.0 == b.0 && (text::text_lt(a.1, b.1) || (a.1 == b.1
        && text::text_lt(a.2, b.2))))
}

proof fn lemma_edge_lt_total(a: EdgeV, b: EdgeV)
    ensures
        edge_lt(a, b) || edge_lt(b, a) || a == b,
{
    text::text_lt_total(a.0, b.0);
    text::text_lt_total(a.1, b.1);
    text::text_lt_total(a.2, b.2);
}

proof fn lemma_edge_lt_transitive(a: EdgeV, b: EdgeV, c: EdgeV)
    requires
        edge_lt(a, b),
        edge_lt(b, c),
    ensures
        edge_lt(a, c),
{
    if text::text_lt(a.0, b.0) && text::text_lt(b.0, c.0) {
        text::text_lt_transitive(a.0, b.0, c.0);
    }
    if text::text_lt(a.1, b.1) && text::text_lt(b.1, c.1) {
        text::text_lt_transitive(a.1, b.1, c.1);
    }
    if text::text_lt(a.2, b.2) && text::text_lt(b.2, c.2) {
        text::text_lt_transitive(a.2, b.2, c.2);
    }
}

/// Whether edges stand in order, none of them twice.
pub open spec fn edges_ascend(edges: Seq<EdgeV>) -> bool {
    forall|i: int, j: int| 0 <= i < j < edges.len() ==> #[trigger] edge_lt(edges[i], edges[j])
}

/// Whether `e` is what `name=target` on `task` stands for: the edge of that type
/// on the task, or, for an inverse name, the edge on the other task. An inverse
/// name counts where the name is no type, and always when edges are removed.
pub open spec fn means(
    e: EdgeV,
    name: Seq<char>,
    task: Seq<char>,
    target: Seq<char>,
    types: TypesV,
    removing: bool,
) -> bool {
    ||| types.contains_key(name) && e == (task, name, target)
    ||| (removing || !types.contains_key(name)) && types.contains_key(e.1) && types[e.1].inverse
        == name && e.0 == target && e.2 == task
}

/// The edges that `name=target` on `task` stands for, in order.
pub open spec fn meant(
    name: Seq<char>,
    task: Seq<char>,
    target: Seq<char>,
    types: TypesV,
    removing: bool,
) -> Seq<EdgeV> {
    choose|q: Seq<EdgeV>| #[trigger] edges_ascend(q) && is_meant(q, name, task, target, types, removing)
}

/// Whether `q` holds exactly the edges that `name=target` stands for.
pub open spec fn is_meant(
    q: Seq<EdgeV>,
    name: Seq<char>,
    task: Seq<char>,
    target: Seq<char>,
    types: TypesV,
    removing: bool,
) -> bool {
    forall|e: EdgeV| #[trigger] q.contains(e) <==> means(e, name, task, target, types, removing)
}

/// Edges in order are determined by which edges they are.
proof fn lemma_edges_unique(a: Seq<EdgeV>, b: Seq<EdgeV>)
    requires
        edges_ascend(a),
        edges_ascend(b),
        forall|e: EdgeV| #[trigger] a.contains(e) <==> b.contains(e),
    ensures
        a == b,
    decreases a.len(),
{
    if a.len() == 0 {
        if b.len() > 0 {
            assert(b.contains(b[0]));
            assert(a.contains(b[0]));
        }
        assert(a =~= b);
    } else {
        let x = a.last();
        assert(a.contains(x));
        assert(b.contains(x));
        let y = b.last();
        assert(b.contains(y));
        assert(a.contains(y));
        let i = choose|i: int| 0 <= i < a.len() && a[i] == y;
        let j = choose|j: int| 0 <= j < b.len() && b[j] == x;
        lemma_edge_lt_asymmetric(x, y);
        lemma_edge_lt_asymmetric(y, x);
        if j < b.len() - 1 {
            assert(edge_lt(b[j], b[b.len() - 1]));
            if i < a.len() - 1 {
                assert(edge_lt(a[i], a[a.len() - 1]));
            }
        }
        assert(x == y);
        let a1 = a.drop_last();
        let b1 = b.drop_last();
        assert forall|e: EdgeV| #[trigger] a1.contains(e) <==> b1.contains(e) by {
            strmap::lemma_contains_last(a, e);
            strmap::lemma_contains_last(b, e);
            assert(a.contains(e) <==> b.contains(e));
            if a1.contains(e) {
                let k = choose|k: int| 0 <= k < a1.len() && a1[k] == e;
                assert(edge_lt(a[k], a[a.len() - 1]));
                lemma_edge_lt_asymmetric(e, x);
            }
            if b1.contains(e) {
                let k = choose|k: int| 0 <= k < b1.len() && b1[k] == e;
                assert(edge_lt(b[k], b[b.len() - 1]));
                lemma_edge_lt_asymmetric(e, x);
            }
        }
        assert forall|p: int, q: int| 0 <= p < q < a1.len() implies #[trigger] edge_lt(a1[p], a1[q]) by {
            assert(edge_lt(a[p], a[q]));
        }
        assert forall|p: int, q: int| 0 <= p < q < b1.len() implies #[trigger] edge_lt(b1[p], b1[q]) by {
            assert(edge_lt(b[p], b[q]));
        }
        lemma_edges_unique(a1, b1);
        assert(a =~= a1.push(x));
        assert(b =~= b1.push(x));
    }
}

proof fn lemma_edge_lt_asymmetric(a: EdgeV, b: EdgeV)
    ensures
        edge_lt(a, b) ==> !edge_lt(b, a),
{
    if text::text_lt(a.0, b.0) {
        text::text_lt_asymmetric(a.0, b.0);
    }
    if text::text_lt(a.1, b.1) {
        text::text_lt_asymmetric(a.1, b.1);
    }
    if text::text_lt(a.2, b.2) {
        text::text_lt_asymmetric(a.2, b.2);
    }
    text::text_lt_irreflexive(a.0);
    text::text_lt_irreflexive(a.1);
}

/// The names an edge can be given: the types and their inverses.
pub open spec fn accepted_names(types: TypesV) -> Set<Seq<char>> {
    Set::new(
        |n: Seq<char>|
            types.contains_key(n) || (n.len() > 0 && exists|t: Seq<char>| #[trigger]
                types.contains_key(t) && types[t].inverse == n),
    )
}

/// The message about a name that is neither a type nor an inverse.
pub open spec fn unknown_type(name: Seq<char>, types: TypesV) -> Seq<char> {
    "unknown relationship type `"@ + name + "`; accepted: "@ + text::joined(
        strmap::sorted_of(accepted_names(types)),
        ", "@,
    )
}

fn list_accepted(types: &StrMap<RelationshipDef>) -> (r: Vec<String>)
    ensures
        r.deep_view() == strmap::sorted_of(accepted_names(types@)),
{
    let n = types.len();
    let ghost keys = types.keys_view();
    let mut out = StrSet::new();
    let mut i: usize = 0;
    assert(keys.take(0) =~= Seq::<Seq<char>>::empty());
    while i < n
        invariant
            i <= n,
            n == keys.len(),
            keys == types.keys_view(),
            keys.to_set() == types@.dom(),
            forall|m: Seq<char>| #[trigger]
                out@.contains(m) <==> keys.take(i as int).contains(m) || (m.len() > 0 && exists|
                    j: int,
                |
                    0 <= j < i && (#[trigger] types@[keys[j]]).inverse == m),
        decreases n - i,
    {
        let ghost had = out@;
        let key = types.key_at(i);
        let def = types.value_at(i);
        out.insert(key.clone());
        if !text::is_blank(def.inverse.as_str()) {
            out.insert(def.inverse.clone());
        }
        proof {
            assert(types@[keys[i as int]].inverse == def.inverse@);
            assert forall|m: Seq<char>| #[trigger] out@.contains(m) <==> keys.take(
                i as int + 1,
            ).contains(m) || (m.len() > 0 && exists|j: int|
                0 <= j < i + 1 && (#[trigger] types@[keys[j]]).inverse == m) by {
                strmap::lemma_take_one_more(keys, i as int, m);
                assert(had.contains(m) <==> keys.take(i as int).contains(m) || (m.len() > 0
                    && exists|j: int| 0 <= j < i && (#[trigger] types@[keys[j]]).inverse == m));
            }
        }
        i += 1;
    }
    proof {
        assert(keys.take(n as int) =~= keys);
        assert forall|m: Seq<char>| #[trigger] out@.contains(m) <==> accepted_names(
            types@,
        ).contains(m) by {
            assert(keys.to_set().contains(m) == keys.contains(m));
            if m.len() > 0 && exists|t: Seq<char>| #[trigger]
                types@.contains_key(t) && types@[t].inverse == m {
                let t = choose|t: Seq<char>| #[trigger]
                    types@.contains_key(t) && types@[t].inverse == m;
                assert(keys.to_set().contains(t));
                let j = choose|j: int| 0 <= j < keys.len() && keys[j] == t;
                assert(types@[keys[j]].inverse == m);
            }
            if exists|j: int| 0 <= j < n && (#[trigger] types@[keys[j]]).inverse == m {
                let j = choose|j: int| 0 <= j < n && (#[trigger] types@[keys[j]]).inverse == m;
                assert(keys.to_set().contains(keys[j]));
                assert(types@.contains_key(keys[j]));
            }
        }
        assert(out@ =~= accepted_names(types@));
    }
    graph::members_of(&out)
}

fn edge_before(a: &(String, String, String), b: &(String, String, String)) -> (r: bool)
    ensures
        r == edge_lt(a.deep_view(), b.deep_view()),
{
    match text::compare_text(a.0.as_str(), b.0.as_str()) {
        text::Order::Less => true,
        text::Order::Greater => {
            proof {
                text::text_lt_irreflexive(a.0@);
            }
            false
        },
        text::Order::Equal => {
            proof {
                text::text_lt_irreflexive(a.0@);
                text::text_lt_irreflexive(a.1@);
            }
            match text::compare_text(a.1.as_str(), b.1.as_str()) {
                text::Order::Less => true,
                text::Order::Greater => false,
                text::Order::Equal => text::text_before(a.2.as_str(), b.2.as_str()),
            }
        },
    }
}

fn inverse_edges_of(
    name: &str,
    task: &str,
    target: &str,
    types: &StrMap<RelationshipDef>,
) -> (r: Vec<(String, String, String)>)
    ensures
        edges_ascend(r.deep_view()),
        forall|e: EdgeV| #[trigger]
            r.deep_view().contains(e) <==> types@.contains_key(e.1) && types@[e.1].inverse == name@
                && e.0 == target@ && e.2 == task@,
{
    let n = types.len();
    let ghost keys = types.keys_view();
    let mut out: Vec<(String, String, String)> = Vec::new();
    let mut i: usize = 0;
    assert(keys.take(0) =~= Seq::<Seq<char>>::empty());
    while i < n
        invariant
            i <= n,
            n == keys.len(),
            keys == types.keys_view(),
            strmap::ascending(keys),
            keys.to_set() == types@.dom(),
            edges_ascend(out.deep_view()),
            forall|j: int|
                0 <= j < out.len() ==> (#[trigger] out.deep_view()[j]).0 == target@
                    && out.deep_view()[j].2 == task@ && keys.take(i as int).contains(
                    out.deep_view()[j].1,
                ),
            forall|e: EdgeV| #[trigger]
                out.deep_view().contains(e) <==> keys.take(i as int).contains(e.1)
                    && types@[e.1].inverse == name@ && e.0 == target@ && e.2 == task@,
        decreases n - i,
    {
        let ghost had = out.deep_view();
        let key = types.key_at(i);
        let def = types.value_at(i);
        if text::same_text(def.inverse.as_str(), name) {
            out.push((String::from_str(target), key.clone(), String::from_str(task)));
            assert(out.deep_view() =~= had.push((target@, key@, task@)));
        }
        proof {
            let now = out.deep_view();
            let shorter = keys.take(i as int);
            assert forall|e: EdgeV| #[trigger] now.contains(e) <==> keys.take(i as int + 1).contains(
                e.1,
            ) && types@[e.1].inverse == name@ && e.0 == target@ && e.2 == task@ by {
                strmap::lemma_take_one_more(keys, i as int, e.1);
                assert(had.contains(e) <==> shorter.contains(e.1) && types@[e.1].inverse == name@
                    && e.0 == target@ && e.2 == task@);
                if now.len() > had.len() {
                    strmap::lemma_contains_last(now, e);
                    assert(now.drop_last() =~= had);
                }
            }
            assert forall|j: int| 0 <= j < now.len() implies (#[trigger] now[j]).0 == target@
                && now[j].2 == task@ && keys.take(i as int + 1).contains(now[j].1) by {
                strmap::lemma_take_one_more(keys, i as int, now[j].1);
                if j < had.len() {
                    assert(now[j] == had[j]);
                }
            }
            assert forall|a: int, b: int| 0 <= a < b < now.len() implies #[trigger] edge_lt(
                now[a],
                now[b],
            ) by {
                if b < had.len() {
                    assert(edge_lt(had[a], had[b]));
                } else {
                    assert(now[a] == had[a]);
                    assert(shorter.contains(had[a].1));
                    let k = choose|k: int| 0 <= k < shorter.len() && shorter[k] == had[a].1;
                    assert(text::text_lt(keys[k], keys[i as int]));
                }
            }
        }
        i += 1;
    }
    proof {
        assert(keys.take(n as int) =~= keys);
        assert forall|e: EdgeV| #[trigger] out.deep_view().contains(e) <==> types@.contains_key(e.1)
            && types@[e.1].inverse == name@ && e.0 == target@ && e.2 == task@ by {
            assert(keys.to_set().contains(e.1) == keys.contains(e.1));
        }
    }
    out
}

fn copy_edge(e: &(String, String, String)) -> (r: (String, String, String))
    ensures
        r.deep_view() == e.deep_view(),
{
    (e.0.clone(), e.1.clone(), e.2.clone())
}

/// Puts one more edge into edges that ascend, unless it is there.
fn insert_edge(edges: &Vec<(String, String, String)>, e: (String, String, String)) -> (r: Vec<
    (String, String, String),
>)
    requires
        edges_ascend(edges.deep_view()),
    ensures
        edges_ascend(r.deep_view()),
        forall|x: EdgeV| #[trigger]
            r.deep_view().contains(x) <==> edges.deep_view().contains(x) || x == e.deep_view(),
{
    let ghost all = edges.deep_view();
    let ghost ev = e.deep_view();
    let mut out: Vec<(String, String, String)> = Vec::new();
    let mut i: usize = 0;
    while i < edges.len() && edge_before(&edges[i], &e)
        invariant
            i <= edges.len(),
            all == edges.deep_view(),
            ev == e.deep_view(),
            edges_ascend(all),
            out.deep_view() == all.take(i as int),
            forall|j: int| 0 <= j < i ==> edge_lt(#[trigger] all[j], ev),
        decreases edges.len() - i,
    {
        let ghost had = out.deep_view();
        assert(edges@[i as int].deep_view() == all[i as int]);
        out.push(copy_edge(&edges[i]));
        assert(out.deep_view() =~= had.push(all[i as int]));
        assert(out.deep_view() =~= all.take(i as int + 1));
        i += 1;
    }
    let ghost place = i as int;
    if i < edges.len() {
        assert(edges@[i as int].deep_view() == all[i as int]);
    }
    let present = i < edges.len() && !edge_before(&e, &edges[i]);
    let ghost front = out.deep_view();
    if !present {
        out.push(e);
        assert(out.deep_view() =~= front.push(ev));
    }
    let ghost head = out.deep_view();
    assert(head =~= head + all.subrange(place, place));
    while i < edges.len()
        invariant
            0 <= place <= i <= edges.len(),
            all == edges.deep_view(),
            out.deep_view() == head + all.subrange(place, i as int),
        decreases edges.len() - i,
    {
        let ghost had = out.deep_view();
        assert(edges@[i as int].deep_view() == all[i as int]);
        out.push(copy_edge(&edges[i]));
        proof {
            assert(out.deep_view() =~= had.push(all[i as int]));
            assert(all.subrange(place, i as int + 1) =~= all.subrange(place, i as int).push(
                all[i as int],
            ));
            assert(out.deep_view() =~= head + all.subrange(place, i as int + 1));
        }
        i += 1;
    }
    proof {
        let now = out.deep_view();
        let n = all.len() as int;
        if place < n {
            lemma_edge_lt_total(all[place], ev);
        }
        if present {
            assert(all[place] == ev);
            assert(now =~= all);
        } else {
            assert(now =~= all.take(place).push(ev) + all.subrange(place, n));
            assert forall|j: int| place <= j < n implies edge_lt(ev, #[trigger] all[j]) by {
                if j > place {
                    assert(edge_lt(all[place], all[j]));
                    lemma_edge_lt_transitive(ev, all[place], all[j]);
                }
            }
            assert forall|a: int, b: int| 0 <= a < b < now.len() implies #[trigger] edge_lt(
                now[a],
                now[b],
            ) by {
                if b < place {
                    assert(edge_lt(all[a], all[b]));
                } else if b > place {
                    assert(now[b] == all[b - 1]);
                    if a < place {
                        assert(edge_lt(all[a], all[b - 1]));
                    } else if a > place {
                        assert(edge_lt(all[a - 1], all[b - 1]));
                    }
                }
            }
        }
        assert forall|x: EdgeV| #[trigger] now.contains(x) <==> all.contains(x) || x == ev by {
            if !present {
                if all.contains(x) {
                    let j = choose|j: int| 0 <= j < n && all[j] == x;
                    assert(now[if j < place { j } else { j + 1 }] == x);
                }
                assert(now[place] == ev);
                if now.contains(x) {
                    let j = choose|j: int| 0 <= j < now.len() && now[j] == x;
                    if j < place {
                        assert(all[j] == x);
                    } else if j > place {
                        assert(all[j - 1] == x);
                    }
                }
            } else {
                assert(all[place] == ev);
            }
        }
    }
    out
}

/// Resolves `name=target` on a task into the edges as they are stored.
///
/// The name is a declared type, whose edge stands on the task, or the inverse of
/// one, whose edge stands on the other task. Adding prefers the type; removing
/// takes every edge that the name can mean. A name that is neither is an error
/// that lists what would be accepted.
pub fn resolve_edge(
    name: &str,
    task: &str,
    target: &str,
    types: &StrMap<RelationshipDef>,
    removing: bool,
) -> (r: Result<Vec<(String, String, String)>, String>)
    ensures
        r is Err <==> meant(name@, task@, target@, types@, removing).len() == 0,
        match r {
            Ok(edges) => {
                &&& edges.deep_view() == meant(name@, task@, target@, types@, removing)
                &&& edges_ascend(edges.deep_view())
                &&& is_meant(edges.deep_view(), name@, task@, target@, types@, removing)
            },
            Err(m) => m@ == unknown_type(name@, types@),
        },
{
    let declared = types.contains_key(name);
    let ghost own: EdgeV = (task@, name@, target@);
    let mut edges: Vec<(String, String, String)> = Vec::new();
    if removing || !declared {
        edges = inverse_edges_of(name, task, target, types);
    }
    assert(forall|e: EdgeV| #[trigger]
        edges.deep_view().contains(e) <==> (removing || !declared) && types@.contains_key(e.1)
            && types@[e.1].inverse == name@ && e.0 == target@ && e.2 == task@);
    if declared {
        edges = insert_edge(
            &edges,
            (String::from_str(task), String::from_str(name), String::from_str(target)),
        );
    }
    assert forall|e: EdgeV| #[trigger] edges.deep_view().contains(e) <==> means(
        e,
        name@,
        task@,
        target@,
        types@,
        removing,
    ) by {
        if declared && e == own {
            assert(means(own, name@, task@, target@, types@, removing));
        }
    }
    proof {
        assert(is_meant(edges.deep_view(), name@, task@, target@, types@, removing));
        lemma_edges_unique(
            edges.deep_view(),
            meant(name@, task@, target@, types@, removing),
        );
    }
    if edges.len() == 0 {
        let accepted = text::join(&list_accepted(types), ", ");
        let m = text::cat3("unknown relationship type `", name, "`; accepted: ");
        return Err(text::cat2(m.as_str(), accepted.as_str()));
    }
    Ok(edges)
}

/// The blocking relationship that a task already has to another: the last of its
/// blocker types, in order, with such an edge.
pub open spec fn stored_kind(
    s: StateV,
    blockers: Set<Seq<char>>,
    owner: Seq<char>,
    target: Seq<char>,
) -> Option<Seq<char>> {
    if !s.contains_key(owner) {
        None
    } else {
        let rels = s[owner].relationships;
        let kinds = graph::kinds_to(rels, strmap::sorted_of(rels.dom()), blockers, target);
        if kinds.len() == 0 {
            None
        } else {
            Some(kinds.last())
        }
    }
}

/// The parent that a task already has among the given ones: the last, in order,
/// with it as a subtask.
pub open spec fn stored_parent(
    s: StateV,
    hierarchy: Set<Seq<char>>,
    ids: Seq<Seq<char>>,
    child: Seq<char>,
) -> Option<Seq<char>>
    decreases ids.len(),
{
    if ids.len() == 0 {
        None
    } else if graph::children(s[ids.last()], hierarchy).contains(child) {
        Some(ids.last())
    } else {
        stored_parent(s, hierarchy, ids.drop_last(), child)
    }
}

/// The blocking relationship between two tasks once `prior` edges are added.
pub open spec fn kind_after(
    s: StateV,
    blockers: Set<Seq<char>>,
    prior: Seq<EdgeV>,
    owner: Seq<char>,
    target: Seq<char>,
) -> Option<Seq<char>>
    decreases prior.len(),
{
    if prior.len() == 0 {
        stored_kind(s, blockers, owner, target)
    } else {
        let rest = kind_after(s, blockers, prior.drop_last(), owner, target);
        let e = prior.last();
        if rest is None && blockers.contains(e.1) && e.0 == owner && e.2 == target {
            Some(e.1)
        } else {
            rest
        }
    }
}

/// The parent of a task once `prior` edges are added.
pub open spec fn parent_after(
    s: StateV,
    blockers: Set<Seq<char>>,
    hierarchy: Set<Seq<char>>,
    prior: Seq<EdgeV>,
    child: Seq<char>,
) -> Option<Seq<char>>
    decreases prior.len(),
{
    if prior.len() == 0 {
        stored_parent(s, hierarchy, strmap::sorted_of(s.dom()), child)
    } else {
        let rest = parent_after(s, blockers, hierarchy, prior.drop_last(), child);
        let e = prior.last();
        if rest is None && blockers.contains(e.1) && hierarchy.contains(e.1) && e.2 == child {
            Some(e.0)
        } else {
            rest
        }
    }
}

/// The message about a second blocking relationship.
pub open spec fn second_kind(
    owner: Seq<char>,
    existing: Seq<char>,
    target: Seq<char>,
) -> Seq<char> {
    "`"@ + owner + "` already has a `"@ + existing + "` relationship to `"@ + target
        + "`; only one blocking relationship is allowed between two tasks"@
}

/// The message about a second parent.
pub open spec fn second_parent(target: Seq<char>, parent: Seq<char>) -> Seq<char> {
    "`"@ + target + "` is already a subtask of `"@ + parent
        + "`; a task can have only one parent"@
}

/// What is wrong with adding an edge after `prior` ones.
pub open spec fn violation(
    s: StateV,
    blockers: Set<Seq<char>>,
    hierarchy: Set<Seq<char>>,
    prior: Seq<EdgeV>,
    e: EdgeV,
) -> Option<Seq<char>> {
    let kind = kind_after(s, blockers, prior, e.0, e.2);
    let parent = parent_after(s, blockers, hierarchy, prior, e.2);
    if !blockers.contains(e.1) {
        None
    } else if kind is Some && kind->0 != e.1 {
        Some(second_kind(e.0, kind->0, e.2))
    } else if hierarchy.contains(e.1) && parent is Some && parent->0 != e.0 {
        Some(second_parent(e.2, parent->0))
    } else {
        None
    }
}

/// What is wrong with the first edge, in order, with which something is.
pub open spec fn first_violation(
    s: StateV,
    blockers: Set<Seq<char>>,
    hierarchy: Set<Seq<char>>,
    edges: Seq<EdgeV>,
) -> Option<Seq<char>>
    decreases edges.len(),
{
    if edges.len() == 0 {
        None
    } else {
        let rest = first_violation(s, blockers, hierarchy, edges.drop_last());
        if rest is Some {
            rest
        } else {
            violation(s, blockers, hierarchy, edges.drop_last(), edges.last())
        }
    }
}

fn find_stored_kind(
    state: &StrMap<TaskState>,
    blockers: &StrSet,
    owner: &str,
    target: &str,
) -> (r: Option<String>)
    ensures
        r.deep_view() == stored_kind(state@, blockers@, owner@, target@),
{
    match state.get(owner) {
        None => None,
        Some(task) => {
            let rels = &task.relationships;
            let n = rels.len();
            let ghost keys = rels.keys_view();
            let mut found: Option<String> = None;
            let mut i: usize = 0;
            assert(keys.take(0) =~= Seq::<Seq<char>>::empty());
            while i < n
                invariant
                    i <= n,
                    n == keys.len(),
                    keys == rels.keys_view(),
                    ({
                        let kinds = graph::kinds_to(
                            rels@,
                            keys.take(i as int),
                            blockers@,
                            target@,
                        );
                        found.deep_view() == if kinds.len() == 0 {
                            None
                        } else {
                            Some(kinds.last())
                        }
                    }),
                decreases n - i,
            {
                let key = rels.key_at(i);
                let ghost longer = keys.take(i as int + 1);
                assert(longer.drop_last() =~= keys.take(i as int));
                if blockers.contains(key.as_str()) && engine::contains_text(rels.value_at(i), target) {
                    found = Some(key.clone());
                }
                i += 1;
            }
            assert(keys.take(n as int) =~= keys);
            found
        },
    }
}

fn find_stored_parent(state: &StrMap<TaskState>, hierarchy: &StrSet, child: &str) -> (r: Option<
    String,
>)
    ensures
        r.deep_view() == stored_parent(
            state@,
            hierarchy@,
            strmap::sorted_of(state@.dom()),
            child@,
        ),
{
    let n = state.len();
    let ghost keys = state.keys_view();
    let mut found: Option<String> = None;
    let mut i: usize = 0;
    assert(keys.take(0) =~= Seq::<Seq<char>>::empty());
    while i < n
        invariant
            i <= n,
            n == keys.len(),
            keys == state.keys_view(),
            found.deep_view() == stored_parent(state@, hierarchy@, keys.take(i as int), child@),
        decreases n - i,
    {
        let ghost longer = keys.take(i as int + 1);
        assert(longer.drop_last() =~= keys.take(i as int));
        let kids = graph::subtasks(state.value_at(i), hierarchy);
        if engine::contains_text(&kids, child) {
            found = Some(state.key_at(i).clone());
        }
        i += 1;
    }
    assert(keys.take(n as int) =~= keys);
    found
}

fn find_kind(
    state: &StrMap<TaskState>,
    blockers: &StrSet,
    edges: &Vec<(String, String, String)>,
    upto: usize,
    owner: &str,
    target: &str,
) -> (r: Option<String>)
    requires
        upto <= edges.len(),
    ensures
        r.deep_view() == kind_after(
            state@,
            blockers@,
            edges.deep_view().take(upto as int),
            owner@,
            target@,
        ),
{
    let ghost all = edges.deep_view();
    let mut found = find_stored_kind(state, blockers, owner, target);
    let mut i: usize = 0;
    assert(all.take(0) =~= Seq::<EdgeV>::empty());
    while i < upto
        invariant
            i <= upto <= edges.len(),
            all == edges.deep_view(),
            found.deep_view() == kind_after(
                state@,
                blockers@,
                all.take(i as int),
                owner@,
                target@,
            ),
        decreases upto - i,
    {
        let e = &edges[i];
        let ghost longer = all.take(i as int + 1);
        assert(longer.drop_last() =~= all.take(i as int));
        assert(longer.last() == e.deep_view());
        if found.is_none() && blockers.contains(e.1.as_str()) && text::same_text(
            e.0.as_str(),
            owner,
        ) && text::same_text(e.2.as_str(), target) {
            found = Some(e.1.clone());
        }
        i += 1;
    }
    found
}

fn find_parent(
    state: &StrMap<TaskState>,
    blockers: &StrSet,
    hierarchy: &StrSet,
    edges: &Vec<(String, String, String)>,
    upto: usize,
    child: &str,
) -> (r: Option<String>)
    requires
        upto <= edges.len(),
    ensures
        r.deep_view() == parent_after(
            state@,
            blockers@,
            hierarchy@,
            edges.deep_view().take(upto as int),
            child@,
        ),
{
    let ghost all = edges.deep_view();
    let mut found = find_stored_parent(state, hierarchy, child);
    let mut i: usize = 0;
    assert(all.take(0) =~= Seq::<EdgeV>::empty());
    while i < upto
        invariant
            i <= upto <= edges.len(),
            all == edges.deep_view(),
            found.deep_view() == parent_after(
                state@,
                blockers@,
                hierarchy@,
                all.take(i as int),
                child@,
            ),
        decreases upto - i,
    {
        let e = &edges[i];
        let ghost longer = all.take(i as int + 1);
        assert(longer.drop_last() =~= all.take(i as int));
        assert(longer.last() == e.deep_view());
        if found.is_none() && blockers.contains(e.1.as_str()) && hierarchy.contains(e.1.as_str())
            && text::same_text(e.2.as_str(), child) {
            found = Some(e.0.clone());
        }
        i += 1;
    }
    found
}

/// Refuses edges that would give two tasks a second blocking relationship, or a
/// task a second parent, counting the edges added earlier in the list.
pub fn validate_blocker_additions(
    resolved: &Vec<(String, String, String)>,
    state: &StrMap<TaskState>,
    blockers: &StrSet,
    hierarchy: &StrSet,
) -> (r: Result<(), String>)
    ensures
        match r {
            Ok(_) => first_violation(state@, blockers@, hierarchy@, resolved.deep_view()) is None,
            Err(m) => first_violation(state@, blockers@, hierarchy@, resolved.deep_view()) == Some(
                m@,
            ),
        },
{
    let ghost all = resolved.deep_view();
    let mut i: usize = 0;
    assert(all.take(0) =~= Seq::<EdgeV>::empty());
    while i < resolved.len()
        invariant
            i <= resolved.len(),
            all == resolved.deep_view(),
            first_violation(state@, blockers@, hierarchy@, all.take(i as int)) is None,
        decreases resolved.len() - i,
    {
        let e = &resolved[i];
        let ghost longer = all.take(i as int + 1);
        proof {
            assert(longer.drop_last() =~= all.take(i as int));
            assert(longer.last() == e.deep_view());
        }
        let mut wrong: Option<String> = None;
        if blockers.contains(e.1.as_str()) {
            if let Some(kind) = find_kind(
                state,
                blockers,
                resolved,
                i,
                e.0.as_str(),
                e.2.as_str(),
            ) {
                if !text::same_text(kind.as_str(), e.1.as_str()) {
                    wrong = Some(
                        text::cat7(
                            "`",
                            e.0.as_str(),
                            "` already has a `",
                            kind.as_str(),
                            "` relationship to `",
                            e.2.as_str(),
                            "`; only one blocking relationship is allowed between two tasks",
                        ),
                    );
                }
            }
            if wrong.is_none() && hierarchy.contains(e.1.as_str()) {
                if let Some(parent) = find_parent(
                    state,
                    blockers,
                    hierarchy,
                    resolved,
                    i,
                    e.2.as_str(),
                ) {
                    if !text::same_text(parent.as_str(), e.0.as_str()) {
                        wrong = Some(
                            text::cat5(
                                "`",
                                e.2.as_str(),
                                "` is already a subtask of `",
                                parent.as_str(),
                                "`; a task can have only one parent",
                            ),
                        );
                    }
                }
            }
        }
        assert(wrong.deep_view() == violation(
            state@,
            blockers@,
            hierarchy@,
            all.take(i as int),
            e.deep_view(),
        ));
        if let Some(m) = wrong {
            proof {
                lemma_violation_stays(state@, blockers@, hierarchy@, all, i as int + 1);
            }
            return Err(m);
        }
        i += 1;
    }
    assert(all.take(all.len() as int) =~= all);
    Ok(())
}

proof fn lemma_violation_stays(
    s: StateV,
    blockers: Set<Seq<char>>,
    hierarchy: Set<Seq<char>>,
    edges: Seq<EdgeV>,
    n: int,
)
    requires
        0 <= n <= edges.len(),
        first_violation(s, blockers, hierarchy, edges.take(n)) is Some,
    ensures
        first_violation(s, blockers, hierarchy, edges) == first_violation(
            s,
            blockers,
            hierarchy,
            edges.take(n),
        ),
    decreases edges.len() - n,
{
    if n < edges.len() {
        let longer = edges.take(n + 1);
        assert(longer.drop_last() =~= edges.take(n));
        lemma_violation_stays(s, blockers, hierarchy, edges, n + 1);
    } else {
        assert(edges.take(n) =~= edges);
    }
}

/// The state after edges are added to the tasks that own them.
pub open spec fn with_edges(s: StateV, edges: Seq<EdgeV>) -> StateV
    decreases edges.len(),
{
    if edges.len() == 0 {
        s
    } else {
        let rest = with_edges(s, edges.drop_last());
        let e = edges.last();
        if rest.contains_key(e.0) {
            rest.insert(
                e.0,
                TaskV {
                    relationships: engine::add_edge(rest[e.0].relationships, e.1, e.2),
                    ..rest[e.0]
                },
            )
        } else {
            rest
        }
    }
}

/// Whether a task of `s` has an edge.
pub open spec fn stored(s: StateV, e: EdgeV) -> bool {
    s.contains_key(e.0) && compensate::has_edge(s[e.0].relationships, e.1, e.2)
}

/// Whether there is at most one blocking relationship from one task to another.
pub open spec fn one_kind(s: StateV, blockers: Set<Seq<char>>) -> bool {
    forall|a: EdgeV, b: EdgeV|
        #[trigger] stored(s, a) && #[trigger] stored(s, b) && blockers.contains(a.1)
            && blockers.contains(b.1) && a.0 == b.0 && a.2 == b.2 ==> a.1 == b.1
}

/// Whether each task has at most one parent.
pub open spec fn one_parent(s: StateV, hierarchy: Set<Seq<char>>) -> bool {
    forall|a: EdgeV, b: EdgeV|
        #[trigger] stored(s, a) && #[trigger] stored(s, b) && hierarchy.contains(a.1)
            && hierarchy.contains(b.1) && a.2 == b.2 ==> a.0 == b.0
}

proof fn lemma_stored_kind(s: StateV, blockers: Set<Seq<char>>, e: EdgeV)
    requires
        graph::finite_state(s),
        one_kind(s, blockers),
        stored(s, e),
        blockers.contains(e.1),
    ensures
        stored_kind(s, blockers, e.0, e.2) == Some(e.1),
{
    let rels = s[e.0].relationships;
    let keys = strmap::sorted_of(rels.dom());
    strmap::sorted_of_finite(rels.dom());
    assert(keys.to_set().contains(e.1));
    graph::lemma_kinds_to(rels, keys, blockers, e.2, e.1);
    let kinds = graph::kinds_to(rels, keys, blockers, e.2);
    let last = kinds.last();
    assert(kinds.contains(last));
    graph::lemma_kinds_to(rels, keys, blockers, e.2, last);
    assert(keys.to_set().contains(last));
    assert(stored(s, (e.0, last, e.2)));
}

proof fn lemma_children_under(rels: RelsV, types: Seq<Seq<char>>, c: Seq<char>)
    ensures
        graph::children_under(rels, types).contains(c) <==> exists|t: Seq<char>|
            #[trigger] types.contains(t) && compensate::has_edge(rels, t, c),
    decreases types.len(),
{
    let now = graph::children_under(rels, types);
    if types.len() > 0 {
        let a = graph::children_under(rels, types.drop_last());
        let b = crate::model::targets(rels, types.last());
        lemma_children_under(rels, types.drop_last(), c);
        assert(now.contains(c) <==> a.contains(c) || b.contains(c)) by {
            if a.contains(c) {
                let i = choose|i: int| 0 <= i < a.len() && a[i] == c;
                assert(now[i] == c);
            }
            if b.contains(c) {
                let i = choose|i: int| 0 <= i < b.len() && b[i] == c;
                assert(now[a.len() + i] == c);
            }
            if now.contains(c) {
                let i = choose|i: int| 0 <= i < now.len() && now[i] == c;
                if i < a.len() {
                    assert(a[i] == c);
                } else {
                    assert(b[i - a.len()] == c);
                }
            }
        }
        assert forall|t: Seq<char>| #[trigger] types.contains(t) <==> types.drop_last().contains(t)
            || t == types.last() by {
            strmap::lemma_contains_last(types, t);
        }
        if b.contains(c) {
            assert(types.contains(types.last()));
        }
        if a.contains(c) {
            let t = choose|t: Seq<char>| #[trigger] types.drop_last().contains(t)
                && compensate::has_edge(rels, t, c);
            assert(types.contains(t));
        }
    }
}

proof fn lemma_children(t: TaskV, hierarchy: Set<Seq<char>>, c: Seq<char>)
    requires
        hierarchy.finite(),
    ensures
        graph::children(t, hierarchy).contains(c) <==> exists|h: Seq<char>| #[trigger]
            hierarchy.contains(h) && compensate::has_edge(t.relationships, h, c),
{
    let types = strmap::sorted_of(hierarchy);
    strmap::sorted_of_finite(hierarchy);
    lemma_children_under(t.relationships, types, c);
    assert forall|h: Seq<char>| #[trigger] types.contains(h) <==> hierarchy.contains(h) by {
        assert(types.to_set().contains(h) == types.contains(h));
    }
    if exists|h: Seq<char>| #[trigger] hierarchy.contains(h) && compensate::has_edge(
        t.relationships,
        h,
        c,
    ) {
        let h = choose|h: Seq<char>| #[trigger] hierarchy.contains(h) && compensate::has_edge(
            t.relationships,
            h,
            c,
        );
        assert(types.contains(h));
    }
}

proof fn lemma_stored_parent(
    s: StateV,
    hierarchy: Set<Seq<char>>,
    ids: Seq<Seq<char>>,
    e: EdgeV,
)
    requires
        hierarchy.finite(),
        one_parent(s, hierarchy),
        stored(s, e),
        hierarchy.contains(e.1),
        ids.contains(e.0),
        forall|i: int| 0 <= i < ids.len() ==> s.contains_key(#[trigger] ids[i]),
    ensures
        stored_parent(s, hierarchy, ids, e.2) == Some(e.0),
    decreases ids.len(),
{
    let last = ids.last();
    strmap::lemma_contains_last(ids, e.0);
    lemma_children(s[last], hierarchy, e.2);
    if graph::children(s[last], hierarchy).contains(e.2) {
        let h = choose|h: Seq<char>| #[trigger] hierarchy.contains(h) && compensate::has_edge(
            s[last].relationships,
            h,
            e.2,
        );
        assert(s.contains_key(ids[ids.len() - 1]));
        assert(stored(s, (last, h, e.2)));
        assert(stored(s, e));
    } else {
        if last == e.0 {
            assert(hierarchy.contains(e.1));
        }
        assert forall|i: int| 0 <= i < ids.drop_last().len() implies s.contains_key(
            #[trigger] ids.drop_last()[i],
        ) by {
            assert(ids[i] == ids.drop_last()[i]);
        }
        lemma_stored_parent(s, hierarchy, ids.drop_last(), e);
    }
}

proof fn lemma_added_edge(s: StateV, edges: Seq<EdgeV>, x: EdgeV)
    requires
        edges.len() > 0,
        stored(with_edges(s, edges), x),
    ensures
        stored(with_edges(s, edges.drop_last()), x) || x == edges.last(),
{
    let rest = with_edges(s, edges.drop_last());
    let e = edges.last();
    if rest.contains_key(e.0) && x.0 == e.0 {
        compensate::edge_events_change_one_edge(rest[e.0].relationships, e.1, e.2, x.1, x.2);
    }
}

/// After a list without violations is added, every blocking edge is the one that
/// the checks counted with.
proof fn lemma_counted(
    s: StateV,
    blockers: Set<Seq<char>>,
    hierarchy: Set<Seq<char>>,
    edges: Seq<EdgeV>,
    x: EdgeV,
)
    requires
        graph::finite_state(s),
        hierarchy.finite(),
        hierarchy.subset_of(blockers),
        one_kind(s, blockers),
        one_parent(s, hierarchy),
        first_violation(s, blockers, hierarchy, edges) is None,
        stored(with_edges(s, edges), x),
        blockers.contains(x.1),
    ensures
        kind_after(s, blockers, edges, x.0, x.2) == Some(x.1),
        hierarchy.contains(x.1) ==> parent_after(s, blockers, hierarchy, edges, x.2) == Some(x.0),
    decreases edges.len(),
{
    if edges.len() == 0 {
        lemma_stored_kind(s, blockers, x);
        if hierarchy.contains(x.1) {
            let ids = strmap::sorted_of(s.dom());
            strmap::sorted_of_finite(s.dom());
            assert(ids.to_set().contains(x.0));
            assert forall|i: int| 0 <= i < ids.len() implies s.contains_key(#[trigger] ids[i]) by {
                assert(ids.to_set().contains(ids[i]));
            }
            lemma_stored_parent(s, hierarchy, ids, x);
        }
    } else {
        let prior = edges.drop_last();
        let e = edges.last();
        lemma_added_edge(s, edges, x);
        assert(violation(s, blockers, hierarchy, prior, e) is None);
        if stored(with_edges(s, prior), x) {
            lemma_counted(s, blockers, hierarchy, prior, x);
        }
    }
}

/// Edges that pass the check keep the structure of the graph: one blocking
/// relationship at most from one task to another, and one parent at most.
pub proof fn valid_additions_keep_the_structure(
    s: StateV,
    blockers: Set<Seq<char>>,
    hierarchy: Set<Seq<char>>,
    edges: Seq<EdgeV>,
)
    requires
        graph::finite_state(s),
        hierarchy.finite(),
        hierarchy.subset_of(blockers),
        one_kind(s, blockers),
        one_parent(s, hierarchy),
        first_violation(s, blockers, hierarchy, edges) is None,
    ensures
        one_kind(with_edges(s, edges), blockers),
        one_parent(with_edges(s, edges), hierarchy),
{
    let now = with_edges(s, edges);
    assert forall|a: EdgeV, b: EdgeV|
        #[trigger] stored(now, a) && #[trigger] stored(now, b) && blockers.contains(a.1)
            && blockers.contains(b.1) && a.0 == b.0 && a.2 == b.2 implies a.1 == b.1 by {
        lemma_counted(s, blockers, hierarchy, edges, a);
        lemma_counted(s, blockers, hierarchy, edges, b);
    }
    assert forall|a: EdgeV, b: EdgeV|
        #[trigger] stored(now, a) && #[trigger] stored(now, b) && hierarchy.contains(a.1)
            && hierarchy.contains(b.1) && a.2 == b.2 implies a.0 == b.0 by {
        lemma_counted(s, blockers, hierarchy, edges, a);
        lemma_counted(s, blockers, hierarchy, edges, b);
    }
}

/// No pair of tasks is listed with more than one blocker edge exactly if there is
/// at most one blocking relationship from one task to another.
pub proof fn doubles_are_second_kinds(s: StateV, blockers: Set<Seq<char>>)
    requires
        graph::finite_state(s),
    ensures
        graph::doubles(s, blockers, strmap::sorted_of(s.dom())).len() == 0 <==> one_kind(s, blockers),
{
    let list = graph::doubles(s, blockers, strmap::sorted_of(s.dom()));
    if one_kind(s, blockers) && list.len() > 0 {
        let d = list[0];
        assert(list.contains(d));
        graph::doubles_are_listed(s, blockers, d);
        let rels = s[d.0].relationships;
        let keys = strmap::sorted_of(rels.dom());
        strmap::sorted_of_finite(rels.dom());
        strmap::lemma_ascending_distinct(keys);
        graph::lemma_kinds_distinct(rels, keys, blockers, d.1);
        let (x, y) = (d.2[0], d.2[1]);
        assert(d.2.contains(x) && d.2.contains(y));
        graph::lemma_kinds_to(rels, keys, blockers, d.1, x);
        graph::lemma_kinds_to(rels, keys, blockers, d.1, y);
        assert(keys.to_set().contains(x) && keys.to_set().contains(y));
        assert(stored(s, (d.0, x, d.1)) && stored(s, (d.0, y, d.1)));
    }
    if list.len() == 0 {
        assert forall|a: EdgeV, b: EdgeV|
            #[trigger] stored(s, a) && #[trigger] stored(s, b) && blockers.contains(a.1)
                && blockers.contains(b.1) && a.0 == b.0 && a.2 == b.2 implies a.1 == b.1 by {
            let rels = s[a.0].relationships;
            let keys = strmap::sorted_of(rels.dom());
            strmap::sorted_of_finite(rels.dom());
            assert(keys.to_set().contains(a.1) && keys.to_set().contains(b.1));
            let kinds = graph::kinds_to(rels, keys, blockers, a.2);
            graph::lemma_kinds_to(rels, keys, blockers, a.2, a.1);
            graph::lemma_kinds_to(rels, keys, blockers, a.2, b.1);
            if a.1 != b.1 {
                let i = choose|i: int| 0 <= i < kinds.len() && kinds[i] == a.1;
                let j = choose|j: int| 0 <= j < kinds.len() && kinds[j] == b.1;
                assert(i != j);
                graph::doubles_are_listed(s, blockers, (a.0, a.2, kinds));
                assert(list.contains((a.0, a.2, kinds)));
            }
        }
    }
}

/// No task is listed with more than one parent exactly if each has at most one.
pub proof fn many_parents_are_second_parents(s: StateV, hierarchy: Set<Seq<char>>)
    requires
        graph::finite_state(s),
        hierarchy.finite(),
    ensures
        graph::many_parents(s, hierarchy).len() == 0 <==> one_parent(s, hierarchy),
{
    let list = graph::many_parents(s, hierarchy);
    let ids = strmap::sorted_of(s.dom());
    strmap::sorted_of_finite(s.dom());
    if one_parent(s, hierarchy) && list.len() > 0 {
        let (child, of) = list[0];
        assert(list.contains((child, of)));
        graph::many_parents_are_listed(s, hierarchy, child, of);
        let parents = graph::parents_among(s, hierarchy, ids, child);
        graph::lemma_parents_finite(s, hierarchy, ids, child);
        strmap::sorted_of_finite(parents);
        strmap::lemma_ascending_distinct(of);
        let (x, y) = (of[0], of[1]);
        assert(of.to_set().contains(x) && of.to_set().contains(y));
        assert(parents.contains(x) && parents.contains(y));
        assert(ids.to_set().contains(x) && ids.to_set().contains(y));
        lemma_children(s[x], hierarchy, child);
        lemma_children(s[y], hierarchy, child);
        let h = choose|h: Seq<char>| #[trigger] hierarchy.contains(h) && compensate::has_edge(
            s[x].relationships,
            h,
            child,
        );
        let k = choose|k: Seq<char>| #[trigger] hierarchy.contains(k) && compensate::has_edge(
            s[y].relationships,
            k,
            child,
        );
        assert(stored(s, (x, h, child)) && stored(s, (y, k, child)));
    }
    if list.len() == 0 {
        assert forall|a: EdgeV, b: EdgeV|
            #[trigger] stored(s, a) && #[trigger] stored(s, b) && hierarchy.contains(a.1)
                && hierarchy.contains(b.1) && a.2 == b.2 implies a.0 == b.0 by {
            let child = a.2;
            let parents = graph::parents_among(s, hierarchy, ids, child);
            let of = strmap::sorted_of(parents);
            graph::lemma_parents_finite(s, hierarchy, ids, child);
            strmap::sorted_of_finite(parents);
            lemma_children(s[a.0], hierarchy, child);
            lemma_children(s[b.0], hierarchy, child);
            assert(ids.to_set().contains(a.0) && ids.to_set().contains(b.0));
            assert(parents.contains(a.0) && parents.contains(b.0));
            assert(of.to_set().contains(a.0) && of.to_set().contains(b.0));
            if a.0 != b.0 {
                let i = choose|i: int| 0 <= i < of.len() && of[i] == a.0;
                let j = choose|j: int| 0 <= j < of.len() && of[j] == b.0;
                assert(i != j);
                graph::many_parents_are_listed(s, hierarchy, child, of);
                assert(list.contains((child, of)));
            }
        }
    }
}

proof fn lemma_with_edges(s: StateV, edges: Seq<EdgeV>)
    ensures
        with_edges(s, edges).dom() == s.dom(),
        graph::finite_state(s) ==> graph::finite_state(with_edges(s, edges)),
    decreases edges.len(),
{
    if edges.len() > 0 {
        lemma_with_edges(s, edges.drop_last());
        let rest = with_edges(s, edges.drop_last());
        let now = with_edges(s, edges);
        assert(now.dom() =~= rest.dom());
        if graph::finite_state(s) {
            assert forall|id: Seq<char>| now.contains_key(id) implies (
            #[trigger] now[id]).relationships.dom().finite() by {
                assert(rest[id].relationships.dom().finite());
                let e = edges.last();
                if id == e.0 {
                    let rels = rest[id].relationships;
                    let more = crate::model::targets(rels, e.1).push(e.2);
                    assert(rels.insert(e.1, more).dom() =~= rels.dom().insert(e.1));
                }
            }
        }
    }
}

/// An edge that is added last is there, and nothing that was there is gone.
proof fn lemma_edge_stays(s: StateV, edges: Seq<EdgeV>, x: EdgeV)
    requires
        edges.len() > 0,
        stored(with_edges(s, edges.drop_last()), x) || (x == edges.last() && s.contains_key(x.0)),
    ensures
        stored(with_edges(s, edges), x),
{
    let rest = with_edges(s, edges.drop_last());
    let e = edges.last();
    lemma_with_edges(s, edges.drop_last());
    assert(rest.dom().contains(x.0));
    if rest.contains_key(e.0) && x.0 == e.0 {
        compensate::edge_events_change_one_edge(rest[e.0].relationships, e.1, e.2, x.1, x.2);
    }
}

/// What the checks count with is there once the edges are added.
proof fn lemma_counted_is_stored(
    s: StateV,
    blockers: Set<Seq<char>>,
    hierarchy: Set<Seq<char>>,
    edges: Seq<EdgeV>,
    owner: Seq<char>,
    target: Seq<char>,
)
    requires
        graph::finite_state(s),
        hierarchy.finite(),
        hierarchy.subset_of(blockers),
        forall|i: int| 0 <= i < edges.len() ==> s.contains_key((#[trigger] edges[i]).0),
    ensures
        kind_after(s, blockers, edges, owner, target) matches Some(k) ==> blockers.contains(k)
            && stored(with_edges(s, edges), (owner, k, target)),
        parent_after(s, blockers, hierarchy, edges, target) matches Some(p) ==> exists|h: Seq<char>|
            #[trigger] hierarchy.contains(h) && stored(with_edges(s, edges), (p, h, target)),
    decreases edges.len(),
{
    if edges.len() == 0 {
        if let Some(k) = stored_kind(s, blockers, owner, target) {
            let rels = s[owner].relationships;
            let keys = strmap::sorted_of(rels.dom());
            strmap::sorted_of_finite(rels.dom());
            let kinds = graph::kinds_to(rels, keys, blockers, target);
            assert(kinds.contains(kinds.last()));
            graph::lemma_kinds_to(rels, keys, blockers, target, k);
            assert(keys.to_set().contains(k));
        }
        let ids = strmap::sorted_of(s.dom());
        strmap::sorted_of_finite(s.dom());
        assert forall|i: int| 0 <= i < ids.len() implies s.contains_key(#[trigger] ids[i]) by {
            assert(ids.to_set().contains(ids[i]));
        }
        lemma_parent_is_stored(s, hierarchy, ids, target);
    } else {
        let prior = edges.drop_last();
        let e = edges.last();
        assert(s.contains_key(edges[edges.len() - 1].0));
        assert forall|i: int| 0 <= i < prior.len() implies s.contains_key((#[trigger] prior[i]).0) by {
            assert(prior[i] == edges[i]);
        }
        lemma_counted_is_stored(s, blockers, hierarchy, prior, owner, target);
        lemma_edge_stays(s, edges, e);
        if let Some(k) = kind_after(s, blockers, prior, owner, target) {
            lemma_edge_stays(s, edges, (owner, k, target));
        }
        if let Some(p) = parent_after(s, blockers, hierarchy, prior, target) {
            let h = choose|h: Seq<char>| #[trigger] hierarchy.contains(h) && stored(
                with_edges(s, prior),
                (p, h, target),
            );
            lemma_edge_stays(s, edges, (p, h, target));
        }
    }
}

proof fn lemma_parent_is_stored(
    s: StateV,
    hierarchy: Set<Seq<char>>,
    ids: Seq<Seq<char>>,
    child: Seq<char>,
)
    requires
        hierarchy.finite(),
        forall|i: int| 0 <= i < ids.len() ==> s.contains_key(#[trigger] ids[i]),
    ensures
        stored_parent(s, hierarchy, ids, child) matches Some(p) ==> exists|h: Seq<char>| #[trigger]
            hierarchy.contains(h) && stored(s, (p, h, child)),
    decreases ids.len(),
{
    if ids.len() > 0 {
        let last = ids.last();
        assert(s.contains_key(ids[ids.len() - 1]));
        if graph::children(s[last], hierarchy).contains(child) {
            lemma_children(s[last], hierarchy, child);
            let h = choose|h: Seq<char>| #[trigger] hierarchy.contains(h) && compensate::has_edge(
                s[last].relationships,
                h,
                child,
            );
            assert(stored(s, (last, h, child)));
        } else {
            assert forall|i: int| 0 <= i < ids.drop_last().len() implies s.contains_key(
                #[trigger] ids.drop_last()[i],
            ) by {
                assert(ids[i] == ids.drop_last()[i]);
            }
            lemma_parent_is_stored(s, hierarchy, ids.drop_last(), child);
        }
    }
}

/// Edges that keep the structure pass the check.
proof fn lemma_kept_structure_is_valid(
    s: StateV,
    blockers: Set<Seq<char>>,
    hierarchy: Set<Seq<char>>,
    edges: Seq<EdgeV>,
)
    requires
        graph::finite_state(s),
        hierarchy.finite(),
        hierarchy.subset_of(blockers),
        forall|i: int| 0 <= i < edges.len() ==> s.contains_key((#[trigger] edges[i]).0),
        one_kind(with_edges(s, edges), blockers),
        one_parent(with_edges(s, edges), hierarchy),
    ensures
        first_violation(s, blockers, hierarchy, edges) is None,
    decreases edges.len(),
{
    if edges.len() > 0 {
        let prior = edges.drop_last();
        let e = edges.last();
        let now = with_edges(s, edges);
        let was = with_edges(s, prior);
        assert(s.contains_key(edges[edges.len() - 1].0));
        assert forall|i: int| 0 <= i < prior.len() implies s.contains_key((#[trigger] prior[i]).0) by {
            assert(prior[i] == edges[i]);
        }
        assert forall|x: EdgeV| #[trigger] stored(was, x) implies stored(now, x) by {
            lemma_edge_stays(s, edges, x);
        }
        lemma_kept_structure_is_valid(s, blockers, hierarchy, prior);
        lemma_counted_is_stored(s, blockers, hierarchy, prior, e.0, e.2);
        lemma_edge_stays(s, edges, e);
        if blockers.contains(e.1) {
            if let Some(k) = kind_after(s, blockers, prior, e.0, e.2) {
                assert(stored(was, (e.0, k, e.2)));
                assert(stored(now, (e.0, k, e.2)) && stored(now, e));
            }
            if let Some(p) = parent_after(s, blockers, hierarchy, prior, e.2) {
                let h = choose|h: Seq<char>| #[trigger] hierarchy.contains(h) && stored(
                    was,
                    (p, h, e.2),
                );
                assert(stored(now, (p, h, e.2)) && stored(now, e));
            }
        }
    }
}

/// Edges of tasks that are there pass the check exactly if, once they are added,
/// no pair of tasks has a second blocking relationship and no task a second
/// parent: two edges of the list that conflict are caught, and an edge that is
/// there already is fine.
pub proof fn additions_are_valid_if_the_structure_holds(
    s: StateV,
    blockers: Set<Seq<char>>,
    hierarchy: Set<Seq<char>>,
    edges: Seq<EdgeV>,
)
    requires
        graph::finite_state(s),
        hierarchy.finite(),
        hierarchy.subset_of(blockers),
        forall|i: int| 0 <= i < edges.len() ==> s.contains_key((#[trigger] edges[i]).0),
        graph::doubles(s, blockers, strmap::sorted_of(s.dom())).len() == 0,
        graph::many_parents(s, hierarchy).len() == 0,
    ensures
        ({
            let now = with_edges(s, edges);
            first_violation(s, blockers, hierarchy, edges) is None <==> graph::doubles(
                now,
                blockers,
                strmap::sorted_of(now.dom()),
            ).len() == 0 && graph::many_parents(now, hierarchy).len() == 0
        }),
{
    let now = with_edges(s, edges);
    lemma_with_edges(s, edges);
    doubles_are_second_kinds(s, blockers);
    doubles_are_second_kinds(now, blockers);
    many_parents_are_second_parents(s, hierarchy);
    many_parents_are_second_parents(now, hierarchy);
    if first_violation(s, blockers, hierarchy, edges) is None {
        valid_additions_keep_the_structure(s, blockers, hierarchy, edges);
    } else if one_kind(now, blockers) && one_parent(now, hierarchy) {
        lemma_kept_structure_is_valid(s, blockers, hierarchy, edges);
    }
}

/// The name and target of an edge argument, where both are there.
pub open spec fn edge_parts(arg: Seq<char>) -> Option<(Seq<char>, Seq<char>)> {
    match text::halves(arg, '=') {
        Some((name, target)) => if name.len() > 0 && target.len() > 0 {
            Some((name, target))
        } else {
            None
        },
        None => None,
    }
}

/// The drafts that add or remove edges.
pub open spec fn edge_events(op: OpType, edges: Seq<EdgeV>, at: Timestamp) -> Seq<EventV> {
    edges.map_values(
        |e: EdgeV| crate::model::draft(op, e.0, compensate::edge_payload(e.1, e.2), at),
    )
}

/// The edges that one argument stands for.
pub open spec fn arg_edges(
    arg: Seq<char>,
    task: Seq<char>,
    types: TypesV,
    removing: bool,
) -> Seq<EdgeV> {
    match edge_parts(arg) {
        None => Seq::empty(),
        Some((name, target)) => meant(name, task, target, types, removing),
    }
}

/// The edges that the arguments stand for, one after the other.
pub open spec fn args_edges(
    args: Seq<Seq<char>>,
    task: Seq<char>,
    types: TypesV,
    removing: bool,
) -> Seq<EdgeV>
    decreases args.len(),
{
    if args.len() == 0 {
        Seq::empty()
    } else {
        args_edges(args.drop_last(), task, types, removing) + arg_edges(
            args.last(),
            task,
            types,
            removing,
        )
    }
}

/// What is wrong with an argument: it is no `type=target`, or its name is
/// unknown.
pub open spec fn arg_error(
    arg: Seq<char>,
    task: Seq<char>,
    types: TypesV,
    removing: bool,
) -> Option<Seq<char>> {
    match edge_parts(arg) {
        None => Some("invalid edge `"@ + arg + "` (expected type=target)"@),
        Some((name, target)) => if meant(name, task, target, types, removing).len() > 0 {
            None
        } else {
            Some(unknown_type(name, types))
        },
    }
}

/// What is wrong with the first argument with which something is.
pub open spec fn first_arg_error(
    args: Seq<Seq<char>>,
    task: Seq<char>,
    types: TypesV,
    removing: bool,
) -> Option<Seq<char>>
    decreases args.len(),
{
    if args.len() == 0 {
        None
    } else if arg_error(args[0], task, types, removing) is Some {
        arg_error(args[0], task, types, removing)
    } else {
        first_arg_error(args.drop_first(), task, types, removing)
    }
}

/// Resolves the `type=target` arguments of a command, in order.
pub fn resolve_edges(
    task: &str,
    args: &Vec<String>,
    types: &StrMap<RelationshipDef>,
    removing: bool,
) -> (r: Result<Vec<(String, String, String)>, String>)
    ensures
        match r {
            Ok(edges) => first_arg_error(args.deep_view(), task@, types@, removing) is None
                && edges.deep_view() == args_edges(args.deep_view(), task@, types@, removing),
            Err(m) => first_arg_error(args.deep_view(), task@, types@, removing) == Some(m@),
        },
{
    let ghost all = args.deep_view();
    let mut out: Vec<(String, String, String)> = Vec::new();
    let mut i: usize = 0;
    assert(all.skip(0) =~= all);
    assert(all.take(0) =~= Seq::<Seq<char>>::empty());
    while i < args.len()
        invariant
            i <= args.len(),
            all == args.deep_view(),
            first_arg_error(all, task@, types@, removing) == first_arg_error(
                all.skip(i as int),
                task@,
                types@,
                removing,
            ),
            out.deep_view() == args_edges(all.take(i as int), task@, types@, removing),
        decreases args.len() - i,
    {
        let arg = args[i].as_str();
        let ghost left = all.skip(i as int);
        assert(left[0] == arg@);
        assert(left.drop_first() =~= all.skip(i as int + 1));
        let parts = text::split_once(arg, '=');
        let (name, target) = match parts {
            Some((name, target)) => {
                if text::is_blank(name.as_str()) || text::is_blank(target.as_str()) {
                    return Err(text::cat3("invalid edge `", arg, "` (expected type=target)"));
                }
                (name, target)
            },
            None => {
                return Err(text::cat3("invalid edge `", arg, "` (expected type=target)"));
            },
        };
        let found = match resolve_edge(name.as_str(), task, target.as_str(), types, removing) {
            Ok(v) => v,
            Err(m) => {
                return Err(m);
            },
        };
        append_edges(&mut out, &found);
        proof {
            let longer = all.take(i as int + 1);
            assert(longer.drop_last() =~= all.take(i as int));
            assert(longer.last() == arg@);
        }
        i += 1;
    }
    assert(all.take(all.len() as int) =~= all);
    Ok(out)
}

fn append_edges(out: &mut Vec<(String, String, String)>, more: &Vec<(String, String, String)>)
    ensures
        final(out).deep_view() == old(out).deep_view() + more.deep_view(),
{
    let ghost before = out.deep_view();
    let ghost rest = more.deep_view();
    let mut i: usize = 0;
    assert(out.deep_view() =~= before + rest.take(0));
    while i < more.len()
        invariant
            i <= more.len(),
            rest == more.deep_view(),
            out.deep_view() == before + rest.take(i as int),
        decreases more.len() - i,
    {
        let ghost had = out.deep_view();
        assert(more@[i as int].deep_view() == rest[i as int]);
        out.push(copy_edge(&more[i]));
        proof {
            assert(out.deep_view() =~= had.push(rest[i as int]));
            assert(rest.take(i as int + 1) =~= rest.take(i as int).push(rest[i as int]));
            assert(out.deep_view() =~= before + rest.take(i as int + 1));
        }
        i += 1;
    }
    assert(rest.take(rest.len() as int) =~= rest);
}

/// The events that add the `type=target` edges to a task, or remove them.
///
/// Every argument has to name a type or an inverse, and added edges must leave
/// one blocking relationship between two tasks, and one parent.
pub fn apply_edges(
    state: &StrMap<TaskState>,
    task: &str,
    args: &Vec<String>,
    removing: bool,
    relationships: &crate::config::RelationshipConfig,
    at: Timestamp,
) -> (r: Result<Vec<MutationEvent>, String>)
    ensures
        ({
            let types = relationships.types@;
            let edges = args_edges(args.deep_view(), task@, types, removing);
            let wrong = first_arg_error(args.deep_view(), task@, types, removing);
            let broken = if removing {
                None
            } else {
                first_violation(
                    state@,
                    crate::config::gating_types(types),
                    crate::config::subtask_types(types),
                    edges,
                )
            };
            match r {
                Ok(events) => wrong is None && broken is None && events.deep_view() == edge_events(
                    if removing {
                        OpType::RemoveEdge
                    } else {
                        OpType::AddEdge
                    },
                    edges,
                    at,
                ),
                Err(m) => (if wrong is Some {
                    wrong
                } else {
                    broken
                }) == Some(m@),
            }
        }),
{
    let resolved = match resolve_edges(task, args, &relationships.types, removing) {
        Ok(v) => v,
        Err(m) => {
            return Err(m);
        },
    };
    let ghost all = resolved.deep_view();
    if !removing {
        let blockers = relationships.blocker_types();
        let hierarchy = relationships.hierarchy_types();
        match validate_blocker_additions(&resolved, state, &blockers, &hierarchy) {
            Ok(_) => {},
            Err(m) => {
                return Err(m);
            },
        }
    }
    let op = if removing {
        OpType::RemoveEdge
    } else {
        OpType::AddEdge
    };
    let mut events: Vec<MutationEvent> = Vec::new();
    let mut i: usize = 0;
    while i < resolved.len()
        invariant
            i <= resolved.len(),
            all == resolved.deep_view(),
            events.len() == i,
            forall|j: int| 0 <= j < i ==> (#[trigger] events@[j])@ == edge_events(op, all, at)[j],
        decreases resolved.len() - i,
    {
        let e = &resolved[i];
        assert(e.deep_view() == all[i as int]);
        events.push(
            compensate::dep_event(op, e.0.as_str(), e.1.as_str(), e.2.as_str(), at),
        );
        i += 1;
    }
    assert(events.deep_view() =~= edge_events(op, all, at));
    Ok(events)
}

/// An edge argument is a name and a target with `=` between them, and neither is
/// empty.
pub proof fn edge_arguments_read_back(name: Seq<char>, target: Seq<char>)
    requires
        !name.contains('='),
    ensures
        name.len() > 0 && target.len() > 0 ==> edge_parts(name + seq!['='] + target) == Some(
            (name, target),
        ),
        name.len() == 0 || target.len() == 0 ==> edge_parts(name + seq!['='] + target) is None,
        edge_parts(name) is None,
{
    text::halves_meet_at_the_first(name, target, '=');
}

/// The edges of several arguments are those of each of them.
pub proof fn arguments_add_up(
    args: Seq<Seq<char>>,
    task: Seq<char>,
    types: TypesV,
    removing: bool,
    e: EdgeV,
)
    ensures
        args_edges(args, task, types, removing).contains(e) <==> exists|i: int|
            0 <= i < args.len() && arg_edges(#[trigger] args[i], task, types, removing).contains(e),
    decreases args.len(),
{
    if args.len() > 0 {
        let rest = args.drop_last();
        arguments_add_up(rest, task, types, removing, e);
        let head = args_edges(rest, task, types, removing);
        let tail = arg_edges(args.last(), task, types, removing);
        let all = head + tail;
        if head.contains(e) {
            let k = choose|k: int| 0 <= k < head.len() && head[k] == e;
            assert(all[k] == e);
            let i = choose|i: int|
                0 <= i < rest.len() && arg_edges(#[trigger] rest[i], task, types, removing).contains(e);
            assert(arg_edges(args[i], task, types, removing).contains(e));
        }
        if tail.contains(e) {
            let k = choose|k: int| 0 <= k < tail.len() && tail[k] == e;
            assert(all[head.len() + k] == e);
            assert(arg_edges(args[args.len() - 1], task, types, removing).contains(e));
        }
        if all.contains(e) {
            let k = choose|k: int| 0 <= k < all.len() && all[k] == e;
            if k < head.len() {
                assert(head[k] == e);
            } else {
                assert(tail[k - head.len()] == e);
            }
        }
        if exists|i: int|
            0 <= i < args.len() && arg_edges(#[trigger] args[i], task, types, removing).contains(e) {
            let i = choose|i: int|
                0 <= i < args.len() && arg_edges(#[trigger] args[i], task, types, removing).contains(e);
            if i < rest.len() {
                assert(arg_edges(rest[i], task, types, removing).contains(e));
            }
        }
    }
}

/// What the events of edges do: one each, which adds or takes away just that
/// edge of its owner.
pub proof fn edge_events_link(
    op: OpType,
    edges: Seq<EdgeV>,
    at: Timestamp,
    i: int,
    s: StateV,
    done: Seq<char>,
    rel: Seq<char>,
    x: Seq<char>,
)
    requires
        0 <= i < edges.len(),
        op == OpType::AddEdge || op == OpType::RemoveEdge,
        s.contains_key(edges[i].0),
    ensures
        edge_events(op, edges, at).len() == edges.len(),
        ({
            let a = engine::step(s, edge_events(op, edges, at)[i], done)[edges[i].0];
            let b = s[edges[i].0];
            let here = rel == edges[i].1 && x == edges[i].2;
            &&& op == OpType::AddEdge ==> (engine::linked(a, rel, x) <==> engine::linked(b, rel, x)
                || here)
            &&& op == OpType::RemoveEdge ==> (engine::linked(a, rel, x) <==> engine::linked(
                b,
                rel,
                x,
            ) && !here)
        }),
{
    reveal_strlit("target");
    reveal_strlit("rel");
    assert("target"@.len() == 6 && "rel"@.len() == 3);
    engine::events_link_tasks(s, edge_events(op, edges, at)[i], done, rel, x);
}

proof fn lemma_turned_edges(
    name: Seq<char>,
    task: Seq<char>,
    target: Seq<char>,
    types: TypesV,
) -> (q: Seq<EdgeV>)
    requires
        types.dom().finite(),
        !types.contains_key(name),
    ensures
        edges_ascend(q),
        is_meant(q, name, task, target, types, false),
{
    let of = Set::new(|t: Seq<char>| types.contains_key(t) && types[t].inverse == name);
    assert(of.subset_of(types.dom()));
    vstd::set_lib::lemma_set_subset_finite(types.dom(), of);
    let kinds = strmap::sorted_of(of);
    strmap::sorted_of_finite(of);
    let q = Seq::new(kinds.len(), |i: int| (target, kinds[i], task));
    assert forall|i: int, j: int| 0 <= i < j < q.len() implies #[trigger] edge_lt(q[i], q[j]) by {
        assert(text::text_lt(kinds[i], kinds[j]));
    }
    assert forall|e: EdgeV| #[trigger] q.contains(e) <==> means(e, name, task, target, types, false) by {
        assert(kinds.to_set().contains(e.1) <==> kinds.contains(e.1));
        if q.contains(e) {
            let i = choose|i: int| 0 <= i < q.len() && q[i] == e;
            assert(kinds.contains(kinds[i]));
        }
        if means(e, name, task, target, types, false) {
            assert(kinds.contains(e.1));
            let i = choose|i: int| 0 <= i < kinds.len() && kinds[i] == e.1;
            assert(q[i] == e);
        }
    }
    q
}

/// What an edge argument means: with the name of a relationship type the edge of
/// that type from the task to the target, and no other if it is added; with an
/// inverse name only, the edges of the types with that inverse name from the
/// target to the task. To remove means both where a name is both. A name that is
/// neither is refused.
pub proof fn names_mean_edges(
    name: &str,
    task: &str,
    target: &str,
    types: StrMap<RelationshipDef>,
    removing: bool,
    r: Result<Vec<(String, String, String)>, String>,
    e: EdgeV,
)
    requires
        call_ensures(resolve_edge, (name, task, target, &types, removing), r),
        types@.dom().finite(),
    ensures
        r is Ok ==> types@.contains_key(name@) || exists|t: Seq<char>| #[trigger]
            types@.contains_key(t) && types@[t].inverse == name@,
        !removing && (types@.contains_key(name@) || exists|t: Seq<char>| #[trigger]
            types@.contains_key(t) && types@[t].inverse == name@) ==> r is Ok,
        r matches Ok(v) ==> {
            let there = v.deep_view().contains(e);
            let direct = e.0 == task@ && e.1 == name@ && e.2 == target@ && types@.contains_key(
                name@,
            );
            let turned = e.0 == target@ && e.2 == task@ && types@.contains_key(e.1)
                && types@[e.1].inverse == name@;
            &&& !types@.contains_key(name@) ==> (there <==> turned)
            &&& types@.contains_key(name@) && !removing ==> (there <==> direct)
            &&& removing ==> (there <==> direct || turned)
        },
{
    let all = meant(name@, task@, target@, types@, removing);
    if let Ok(v) = r {
        let q = v.deep_view();
        assert(q.contains(q[0]));
        assert(means(q[0], name@, task@, target@, types@, removing));
        if !types@.contains_key(name@) {
            assert(types@.contains_key(q[0].1));
        }
    } else if !removing {
        let x = (task@, name@, target@);
        if types@.contains_key(name@) {
            let one = seq![x];
            assert(edges_ascend(one));
            assert forall|e: EdgeV| #[trigger] one.contains(e) <==> means(
                e,
                name@,
                task@,
                target@,
                types@,
                removing,
            ) by {
                assert(one[0] == x);
            }
            assert(is_meant(one, name@, task@, target@, types@, removing));
            assert(means(x, name@, task@, target@, types@, removing));
            assert(all.contains(x));
        } else if exists|t: Seq<char>| #[trigger]
            types@.contains_key(t) && types@[t].inverse == name@ {
            let q = lemma_turned_edges(name@, task@, target@, types@);
            let t = choose|t: Seq<char>| #[trigger]
                types@.contains_key(t) && types@[t].inverse == name@;
            assert(edges_ascend(q) && is_meant(q, name@, task@, target@, types@, removing));
            assert(means((target@, t, task@), name@, task@, target@, types@, removing));
            assert(all.contains((target@, t, task@)));
        }
    }
}

/// The tasks suit a sound configuration exactly where all their relationship
/// types are declared, none of them waits for itself, at once or through others,
/// no two blocking edges of different types lead from one task to another, and no
/// task is a subtask of two.
pub proof fn validation_checks_the_graph(
    cfg: Config,
    state: StrMap<TaskState>,
    r: Result<(), String>,
)
    requires
        call_ensures(Config::validate_against, (&cfg, &state), r),
        graph::finite_state(state@),
        cfg.relationships.types@.dom().finite(),
    ensures
        ({
            let s = state@;
            let types = cfg.relationships.types@;
            let gating = Set::new(
                |n: Seq<char>| types.contains_key(n) && types[n].kind != RelKind::Info,
            );
            let nesting = Set::new(
                |n: Seq<char>| types.contains_key(n) && types[n].kind == RelKind::Hierarchy,
            );
            r is Ok <==> {
                &&& config::struct_problems(cfg).len() == 0
                &&& forall|id: Seq<char>, rel: Seq<char>|
                    s.contains_key(id) && #[trigger] s[id].relationships.contains_key(rel)
                        ==> types.contains_key(rel)
                &&& !reach::cyclic(graph::dep_edges(s, gating))
                &&& one_kind(s, gating)
                &&& one_parent(s, nesting)
            }
        }),
{
    let s = state@;
    let types = cfg.relationships.types@;
    let gating = config::gating_types(types);
    let nesting = config::subtask_types(types);
    assert(gating =~= Set::new(
        |n: Seq<char>| types.contains_key(n) && types[n].kind != RelKind::Info,
    ));
    assert(nesting =~= Set::new(
        |n: Seq<char>| types.contains_key(n) && types[n].kind == RelKind::Hierarchy,
    ));
    assert(nesting.subset_of(types.dom()));
    vstd::set_lib::lemma_set_subset_finite(types.dom(), nesting);
    doubles_are_second_kinds(s, gating);
    many_parents_are_second_parents(s, nesting);
    if !reach::cyclic(graph::dep_edges(s, gating)) {
        lemma_no_cycles(s, gating);
    }
    let strange = config::undeclared_types(s, types);
    lemma_used_finite(s, s.dom());
    let used = Set::new(
        |rel: Seq<char>|
            exists|id: Seq<char>| #[trigger]
                s.dom().contains(id) && s[id].relationships.contains_key(rel),
    );
    assert(strange.subset_of(used));
    vstd::set_lib::lemma_set_subset_finite(used, strange);
    strmap::sorted_of_finite(strange);
    let names = strmap::sorted_of(strange);
    if names.len() == 0 {
        assert forall|id: Seq<char>, rel: Seq<char>|
            s.contains_key(id) && #[trigger] s[id].relationships.contains_key(
                rel,
            ) implies types.contains_key(rel) by {
            if !types.contains_key(rel) {
                assert(s.contains_key(id) && s[id].relationships.contains_key(rel));
                assert(strange.contains(rel));
                assert(names.to_set().contains(rel));
                assert(names.contains(rel));
            }
        }
    } else {
        assert(names.contains(names[0]));
        assert(names.to_set().contains(names[0]));
        assert(strange.contains(names[0]));
        let id = choose|id: Seq<char>| #[trigger]
            s.contains_key(id) && s[id].relationships.contains_key(names[0]);
        assert(s[id].relationships.contains_key(names[0]));
    }
}

proof fn lemma_used_finite(s: StateV, ids: Set<Seq<char>>)
    requires
        graph::finite_state(s),
        ids.finite(),
        ids.subset_of(s.dom()),
    ensures
        Set::new(
            |rel: Seq<char>|
                exists|id: Seq<char>| #[trigger]
                    ids.contains(id) && s[id].relationships.contains_key(rel),
        ).finite(),
    decreases ids.len(),
{
    let used = Set::new(
        |rel: Seq<char>|
            exists|id: Seq<char>| #[trigger]
                ids.contains(id) && s[id].relationships.contains_key(rel),
    );
    if ids.len() == 0 {
        assert(used =~= Set::empty());
    } else {
        let x = ids.choose();
        let rest = ids.remove(x);
        lemma_used_finite(s, rest);
        let fewer = Set::new(
            |rel: Seq<char>|
                exists|id: Seq<char>| #[trigger]
                    rest.contains(id) && s[id].relationships.contains_key(rel),
        );
        let more = fewer.union(s[x].relationships.dom());
        assert(used.subset_of(more)) by {
            assert forall|rel: Seq<char>| used.contains(rel) implies more.contains(rel) by {
                let id = choose|id: Seq<char>| #[trigger]
                    ids.contains(id) && s[id].relationships.contains_key(rel);
                if id != x {
                    assert(rest.contains(id));
                }
            }
        }
        vstd::set_lib::lemma_set_subset_finite(more, used);
    }
}

proof fn lemma_no_cycles(s: StateV, gating: Set<Seq<char>>)
    requires
        graph::finite_state(s),
        !reach::cyclic(graph::dep_edges(s, gating)),
    ensures
        graph::cycle_list(s, gating).len() == 0,
{
    graph::cycles_are_reported(s, gating);
    let none = Seq::<Seq<Seq<char>>>::empty();
    assert(graph::is_cycle_list(s, gating, none));
    graph::cycle_list_is_unique(s, gating, none);
}

pub(crate) proof fn lemma_arg_errors(args: Seq<Seq<char>>, task: Seq<char>, types: TypesV, removing: bool)
    ensures
        first_arg_error(args, task, types, removing) is None <==> forall|i: int|
            0 <= i < args.len() ==> arg_error(#[trigger] args[i], task, types, removing) is None,
    decreases args.len(),
{
    if args.len() > 0 {
        let rest = args.drop_first();
        lemma_arg_errors(rest, task, types, removing);
        if first_arg_error(args, task, types, removing) is None {
            assert forall|i: int| 0 <= i < args.len() implies arg_error(
                #[trigger] args[i],
                task,
                types,
                removing,
            ) is None by {
                if i > 0 {
                    assert(rest[i - 1] == args[i]);
                }
            }
        } else if forall|i: int|
            0 <= i < args.len() ==> arg_error(#[trigger] args[i], task, types, removing) is None {
            assert(arg_error(args[0], task, types, removing) is None);
            assert forall|i: int| 0 <= i < rest.len() implies arg_error(
                #[trigger] rest[i],
                task,
                types,
                removing,
            ) is None by {
                assert(rest[i] == args[i + 1]);
            }
        }
    }
}

/// Edges are added exactly where every argument is a known name and a target, and
/// the edges break no rule together with those that there are; then there is an
/// event for each edge that the arguments mean.
pub proof fn edges_are_added_where_all_are_sound(
    state: StrMap<TaskState>,
    task: &str,
    args: Vec<String>,
    relationships: config::RelationshipConfig,
    at: Timestamp,
    r: Result<Vec<MutationEvent>, String>,
)
    requires
        call_ensures(apply_edges, (&state, task, &args, false, &relationships, at), r),
        relationships.types@.dom().finite(),
    ensures
        ({
            let types = relationships.types@;
            let all = args_edges(args.deep_view(), task@, types, false);
            &&& r is Ok <==> {
                &&& forall|i: int|
                    0 <= i < args.deep_view().len() ==> names_an_edge(
                        #[trigger] args.deep_view()[i],
                        types,
                    )
                &&& first_violation(
                    state@,
                    config::gating_types(types),
                    config::subtask_types(types),
                    all,
                ) is None
            }
            &&& r matches Ok(events) ==> {
                &&& events.deep_view().len() == all.len()
                &&& forall|i: int|
                    0 <= i < all.len() ==> {
                        &&& (#[trigger] events.deep_view()[i]).op == OpType::AddEdge
                        &&& events.deep_view()[i].task_id == all[i].0
                        &&& events.deep_view()[i].timestamp == at
                    }
            }
        }),
{
    let types = relationships.types@;
    let words = args.deep_view();
    lemma_arg_errors(words, task@, types, false);
    assert forall|i: int| 0 <= i < words.len() implies (arg_error(
        #[trigger] words[i],
        task@,
        types,
        false,
    ) is None <==> names_an_edge(words[i], types)) by {
        if let Some((name, target)) = edge_parts(words[i]) {
            lemma_meant(name, task@, target, types);
        }
    }
}

/// Whether an argument is a known relationship name and a target.
pub open spec fn names_an_edge(arg: Seq<char>, types: TypesV) -> bool {
    edge_parts(arg) matches Some((name, target)) && (types.contains_key(name) || exists|
        t: Seq<char>,
    | #[trigger] types.contains_key(t) && types[t].inverse == name)
}

proof fn lemma_meant(name: Seq<char>, task: Seq<char>, target: Seq<char>, types: TypesV)
    requires
        types.dom().finite(),
    ensures
        meant(name, task, target, types, false).len() > 0 <==> types.contains_key(name) || exists|
            t: Seq<char>,
        | #[trigger] types.contains_key(t) && types[t].inverse == name,
{
    let all = meant(name, task, target, types, false);
    let x = (task, name, target);
    if types.contains_key(name) {
        let one = seq![x];
        assert(edges_ascend(one));
        assert forall|e: EdgeV| #[trigger] one.contains(e) <==> means(
            e,
            name,
            task,
            target,
            types,
            false,
        ) by {
            assert(one[0] == x);
        }
        assert(is_meant(one, name, task, target, types, false));
        assert(means(x, name, task, target, types, false));
        assert(all.contains(x));
    } else {
        let q = lemma_turned_edges(name, task, target, types);
        assert(edges_ascend(q) && is_meant(q, name, task, target, types, false));
        if exists|t: Seq<char>| #[trigger] types.contains_key(t) && types[t].inverse == name {
            let t = choose|t: Seq<char>| #[trigger] types.contains_key(t) && types[t].inverse == name;
            assert(means((target, t, task), name, task, target, types, false));
            assert(all.contains((target, t, task)));
        }
        if all.len() > 0 {
            assert(all.contains(all[0]));
            assert(means(all[0], name, task, target, types, false));
        }
    }
}

/// What is said of an edge that cannot be added: which blocking relationship the
/// two tasks have already, or which parent the target has.
pub proof fn violations_name_what_is_there(
    s: StateV,
    blockers: Set<Seq<char>>,
    hierarchy: Set<Seq<char>>,
    prior: Seq<EdgeV>,
    e: EdgeV,
)
    requires
        blockers.contains(e.1),
    ensures
        ({
            let said = violation(s, blockers, hierarchy, prior, e);
            let kind = kind_after(s, blockers, prior, e.0, e.2);
            let parent = parent_after(s, blockers, hierarchy, prior, e.2);
            &&& kind is Some && kind->0 != e.1 ==> said == Some(
                "`"@ + e.0 + "` already has a `"@ + kind->0 + "` relationship to `"@ + e.2
                    + "`; only one blocking relationship is allowed between two tasks"@,
            )
            &&& (kind is None || kind->0 == e.1) && hierarchy.contains(e.1) && parent is Some
                && parent->0 != e.0 ==> said == Some(
                "`"@ + e.2 + "` is already a subtask of `"@ + parent->0
                    + "`; a task can have only one parent"@,
            )
        }),
{
}

/// A word that names no edge fails: without an equals sign, or an empty half, it
/// is called invalid; with an unknown type, that is named with the names that are
/// known, in order.
pub proof fn wrong_words_are_named(
    task: Seq<char>,
    name: Seq<char>,
    target: Seq<char>,
    types: TypesV,
)
    requires
        !name.contains('='),
        name.len() > 0,
        target.len() > 0,
    ensures
        arg_error(name, task, types, false) == Some(
            "invalid edge `"@ + name + "` (expected type=target)"@,
        ),
        arg_error(name + seq!['='] + target, task, types, false) is Some ==> arg_error(
            name + seq!['='] + target,
            task,
            types,
            false,
        ) == Some(
            "unknown relationship type `"@ + name + "`; accepted: "@ + text::joined(
                strmap::sorted_of(
                    Set::new(
                        |n: Seq<char>|
                            types.contains_key(n) || (n.len() > 0 && exists|t: Seq<char>| #[trigger]
                                types.contains_key(t) && types[t].inverse == n),
                    ),
                ),
                ", "@,
            ),
        ),
{
    edge_arguments_read_back(name, target);
    assert(accepted_names(types) =~= Set::new(
        |n: Seq<char>|
            types.contains_key(n) || (n.len() > 0 && exists|t: Seq<char>| #[trigger]
                types.contains_key(t) && types[t].inverse == n),
    ));
}

} // verus!
