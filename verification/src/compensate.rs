//! Events that turn one state of a task into another.

use crate::engine;
use crate::json::{self, Json, JsonV};
use crate::model::{
    self, EventV, FieldsV, MutationEvent, OpType, RelsV, StateV, TaskState, TaskV, Timestamp,
    REL_KEY, TARGET_KEY,
};
use crate::strmap::{self, Data, StrMap};
use vstd::prelude::*;

verus! {

/// Whether the task has an edge of type `rel` to `target`.
pub open spec fn has_edge(rels: RelsV, rel: Seq<char>, target: Seq<char>) -> bool {
    rels.contains_key(rel) && rels[rel].contains(target)
}

/// The edges of type `rel` to `targets` that `other` lacks, in order.
pub open spec fn targets_beyond(targets: Seq<Seq<char>>, rel: Seq<char>, other: RelsV) -> Seq<
    (Seq<char>, Seq<char>),
>
    decreases targets.len(),
{
    if targets.len() == 0 {
        Seq::empty()
    } else {
        let rest = targets_beyond(targets.drop_last(), rel, other);
        if has_edge(other, rel, targets.last()) {
            rest
        } else {
            rest.push((rel, targets.last()))
        }
    }
}

/// The edges of the given types that `other` lacks, in order.
pub open spec fn edges_under(rels: RelsV, keys: Seq<Seq<char>>, other: RelsV) -> Seq<
    (Seq<char>, Seq<char>),
>
    decreases keys.len(),
{
    if keys.len() == 0 {
        Seq::empty()
    } else {
        edges_under(rels, keys.drop_last(), other) + targets_beyond(
            rels[keys.last()],
            keys.last(),
            other,
        )
    }
}

/// The edges that `other` lacks: by type, in the order of the targets.
pub open spec fn edges_beyond(rels: RelsV, other: RelsV) -> Seq<(Seq<char>, Seq<char>)> {
    edges_under(rels, strmap::sorted_of(rels.dom()), other)
}

/// The payload of an edge event.
pub open spec fn edge_payload(rel: Seq<char>, target: Seq<char>) -> FieldsV {
    Map::<Seq<char>, JsonV>::empty().insert(TARGET_KEY@, JsonV::Str(target)).insert(
        REL_KEY@,
        JsonV::Str(rel),
    )
}

/// Drafts of one edge event for each `(type, target)`.
pub open spec fn edge_drafts(
    op: OpType,
    id: Seq<char>,
    edges: Seq<(Seq<char>, Seq<char>)>,
    at: Timestamp,
) -> Seq<EventV> {
    edges.map_values(
        |e: (Seq<char>, Seq<char>)| model::draft(op, id, edge_payload(e.0, e.1), at),
    )
}

/// The payload that turns the fields `from` into `to`: each field that is new
/// or differs, and a null for each that is gone.
pub open spec fn field_changes(from: FieldsV, to: FieldsV) -> FieldsV {
    Map::new(
        |k: Seq<char>|
            if to.contains_key(k) {
                !(from.contains_key(k) && json::json_same(from[k], to[k]))
            } else {
                from.contains_key(k)
            },
        |k: Seq<char>|
            if to.contains_key(k) {
                to[k]
            } else {
                JsonV::Null
            },
    )
}

/// The task under `id`, if there is one.
pub open spec fn task_at(s: StateV, id: Seq<char>) -> Option<TaskV> {
    if s.contains_key(id) {
        Some(s[id])
    } else {
        None
    }
}

/// Drafts that turn the task `from` into `to`.
pub open spec fn task_changes(
    from: Option<TaskV>,
    to: Option<TaskV>,
    id: Seq<char>,
    at: Timestamp,
) -> Seq<EventV> {
    match (from, to) {
        (None, None) => Seq::empty(),
        (Some(_), None) => seq![model::draft(OpType::Delete, id, Map::empty(), at)],
        (None, Some(t)) => seq![model::draft(OpType::Create, id, t.custom_fields, at)]
            + edge_drafts(
            OpType::AddEdge,
            id,
            edges_beyond(t.relationships, Map::empty()),
            at,
        ),
        (Some(f), Some(t)) => {
            let changes = field_changes(f.custom_fields, t.custom_fields);
            let update = if changes == Map::<Seq<char>, JsonV>::empty() {
                Seq::empty()
            } else {
                seq![model::draft(OpType::Update, id, changes, at)]
            };
            update + edge_drafts(
                OpType::AddEdge,
                id,
                edges_beyond(t.relationships, f.relationships),
                at,
            ) + edge_drafts(
                OpType::RemoveEdge,
                id,
                edges_beyond(f.relationships, t.relationships),
                at,
            )
        },
    }
}

/// Drafts that turn `from` into `to` for each of the given tasks in turn.
pub open spec fn state_changes(
    from: StateV,
    to: StateV,
    ids: Seq<Seq<char>>,
    at: Timestamp,
) -> Seq<EventV>
    decreases ids.len(),
{
    if ids.len() == 0 {
        Seq::empty()
    } else {
        state_changes(from, to, ids.drop_last(), at) + task_changes(
            task_at(from, ids.last()),
            task_at(to, ids.last()),
            ids.last(),
            at,
        )
    }
}

/// A draft of an edge event.
pub fn dep_event(op: OpType, id: &str, rel: &str, target: &str, at: Timestamp) -> (r: MutationEvent)
    ensures
        r@ == model::draft(op, id@, edge_payload(rel@, target@), at),
{
    let mut payload: StrMap<Json> = StrMap::new();
    payload.insert(String::from_str(TARGET_KEY), Json::Str(String::from_str(target)));
    payload.insert(String::from_str(REL_KEY), Json::Str(String::from_str(rel)));
    MutationEvent::new(op, id, payload, at)
}

fn lacks_edge(other: &StrMap<Vec<String>>, rel: &str, target: &str) -> (r: bool)
    ensures
        r == !has_edge(other@, rel@, target@),
{
    match other.get(rel) {
        Some(ts) => !engine::contains_text(ts, target),
        None => true,
    }
}

/// Appends an edge event for each edge of `rels` that `other` lacks.
fn push_edge_events(
    out: &mut Vec<MutationEvent>,
    op: OpType,
    id: &str,
    rels: &StrMap<Vec<String>>,
    other: &StrMap<Vec<String>>,
    at: Timestamp,
)
    ensures
        final(out).deep_view() == old(out).deep_view() + edge_drafts(
            op,
            id@,
            edges_beyond(rels@, other@),
            at,
        ),
{
    let ghost before = out.deep_view();
    let n = rels.len();
    let ghost keys = rels.keys_view();
    let ghost mut edges: Seq<(Seq<char>, Seq<char>)> = Seq::empty();
    let mut i: usize = 0;
    assert(out.deep_view() =~= before + edge_drafts(op, id@, edges, at));
    assert(keys.take(0) =~= Seq::<Seq<char>>::empty());
    while i < n
        invariant
            i <= n,
            n == keys.len(),
            keys == rels.keys_view(),
            edges == edges_under(rels@, keys.take(i as int), other@),
            out.deep_view() == before + edge_drafts(op, id@, edges, at),
        decreases n - i,
    {
        let rel = rels.key_at(i);
        let targets = rels.value_at(i);
        let ghost all = targets.deep_view();
        let ghost start = edges;
        let m = targets.len();
        let mut j: usize = 0;
        assert(all.take(0) =~= Seq::<Seq<char>>::empty());
        assert(start + targets_beyond(all.take(0), rel@, other@) =~= start);
        while j < m
            invariant
                j <= m,
                m == targets.len(),
                all == targets.deep_view(),
                edges == start + targets_beyond(all.take(j as int), rel@, other@),
                out.deep_view() == before + edge_drafts(op, id@, edges, at),
            decreases m - j,
        {
            let target = &targets[j];
            let ghost longer = all.take(j as int + 1);
            assert(longer.drop_last() =~= all.take(j as int));
            assert(longer.last() == target@);
            if lacks_edge(other, rel.as_str(), target.as_str()) {
                let ghost had = out.deep_view();
                let e = dep_event(op, id, rel.as_str(), target.as_str(), at);
                let ghost ev = e@;
                out.push(e);
                proof {
                    let had_edges = edges;
                    edges = edges.push((rel@, target@));
                    assert(out.deep_view() =~= had.push(ev));
                    assert(edge_drafts(op, id@, edges, at) =~= edge_drafts(
                        op,
                        id@,
                        had_edges,
                        at,
                    ).push(ev));
                    assert(out.deep_view() =~= before + edge_drafts(op, id@, edges, at));
                    assert(edges =~= start + targets_beyond(longer, rel@, other@));
                }
            }
            j += 1;
        }
        proof {
            assert(all.take(m as int) =~= all);
            let longer = keys.take(i as int + 1);
            assert(longer.drop_last() =~= keys.take(i as int));
        }
        i += 1;
    }
    assert(keys.take(n as int) =~= keys);
}

/// The fields to set, and the nulls to clear, that turn `from` into `to`.
pub fn changed_fields(from: &StrMap<Json>, to: &StrMap<Json>) -> (r: StrMap<Json>)
    ensures
        r@ == field_changes(from@, to@),
{
    let mut out: StrMap<Json> = StrMap::new();
    let n = to.len();
    let ghost keys = to.keys_view();
    let mut i: usize = 0;
    assert(keys.take(0) =~= Seq::<Seq<char>>::empty());
    while i < n
        invariant
            i <= n,
            n == keys.len(),
            keys == to.keys_view(),
            keys.to_set() == to@.dom(),
            forall|k: Seq<char>| #[trigger]
                out@.contains_key(k) <==> keys.take(i as int).contains(k) && !(from@.contains_key(k)
                    && json::json_same(from@[k], to@[k])),
            forall|k: Seq<char>| #[trigger] out@.contains_key(k) ==> out@[k] == to@[k],
        decreases n - i,
    {
        let key = to.key_at(i);
        let value = to.value_at(i);
        let same = match from.get(key.as_str()) {
            Some(f) => json::same_json(f, value),
            None => false,
        };
        let ghost had = out@;
        if !same {
            out.insert(key.clone(), value.copy());
        }
        proof {
            assert forall|k: Seq<char>| #[trigger] out@.contains_key(k) <==> keys.take(
                i as int + 1,
            ).contains(k) && !(from@.contains_key(k) && json::json_same(from@[k], to@[k])) by {
                strmap::lemma_take_one_more(keys, i as int, k);
                assert(had.contains_key(k) <==> keys.take(i as int).contains(k) && !(
                from@.contains_key(k) && json::json_same(from@[k], to@[k])));
            }
            assert forall|k: Seq<char>| #[trigger] out@.contains_key(k) implies out@[k] == to@[k] by {
                assert(had.contains_key(k) ==> had[k] == to@[k]);
            }
        }
        i += 1;
    }
    assert(keys.take(n as int) =~= keys);
    assert forall|k: Seq<char>| #[trigger] keys.contains(k) <==> to@.contains_key(k) by {
        assert(keys.to_set().contains(k) == keys.contains(k));
    }
    let ghost set = out@;
    let m = from.len();
    let ghost old_keys = from.keys_view();
    let mut j: usize = 0;
    assert(old_keys.take(0) =~= Seq::<Seq<char>>::empty());
    while j < m
        invariant
            j <= m,
            m == old_keys.len(),
            old_keys == from.keys_view(),
            forall|k: Seq<char>| #[trigger] set.contains_key(k) ==> to@.contains_key(k),
            forall|k: Seq<char>| #[trigger]
                out@.contains_key(k) <==> set.contains_key(k) || (old_keys.take(j as int).contains(
                    k,
                ) && !to@.contains_key(k)),
            forall|k: Seq<char>| #[trigger]
                out@.contains_key(k) ==> out@[k] == if to@.contains_key(k) {
                    set[k]
                } else {
                    JsonV::Null
                },
        decreases m - j,
    {
        let key = from.key_at(j);
        let ghost had = out@;
        if !to.contains_key(key.as_str()) {
            out.insert(key.clone(), Json::Null);
        }
        proof {
            assert forall|k: Seq<char>| #[trigger] out@.contains_key(k) <==> set.contains_key(k) || (
            old_keys.take(j as int + 1).contains(k) && !to@.contains_key(k)) by {
                strmap::lemma_take_one_more(old_keys, j as int, k);
                assert(had.contains_key(k) <==> set.contains_key(k) || (old_keys.take(
                    j as int,
                ).contains(k) && !to@.contains_key(k)));
            }
            assert forall|k: Seq<char>| #[trigger] out@.contains_key(k) implies out@[k] == if to@.contains_key(k) {
                set[k]
            } else {
                JsonV::Null
            } by {
                assert(had.contains_key(k) ==> had[k] == if to@.contains_key(k) {
                    set[k]
                } else {
                    JsonV::Null
                });
            }
        }
        j += 1;
    }
    assert(old_keys.take(m as int) =~= old_keys);
    assert forall|k: Seq<char>| #[trigger] old_keys.contains(k) <==> from@.contains_key(k) by {
        assert(old_keys.to_set().contains(k) == old_keys.contains(k));
    }
    assert(out@ =~= field_changes(from@, to@));
    out
}

/// Appends the drafts that turn one task into another.
fn push_task_changes(
    out: &mut Vec<MutationEvent>,
    from: Option<&TaskState>,
    to: Option<&TaskState>,
    id: &str,
    at: Timestamp,
)
    ensures
        final(out).deep_view() == old(out).deep_view() + task_changes(
            from.deep_view(),
            to.deep_view(),
            id@,
            at,
        ),
{
    let ghost before = out.deep_view();
    match (from, to) {
        (None, None) => {
            assert(out.deep_view() =~= before + Seq::<EventV>::empty());
        },
        (Some(_), None) => {
            let e = MutationEvent::new(OpType::Delete, id, StrMap::new(), at);
            let ghost ev = e@;
            out.push(e);
            assert(out.deep_view() =~= before + seq![ev]);
        },
        (None, Some(t)) => {
            let e = MutationEvent::new(OpType::Create, id, t.custom_fields.copy(), at);
            let ghost ev = e@;
            out.push(e);
            assert(out.deep_view() =~= before + seq![ev]);
            let none: StrMap<Vec<String>> = StrMap::new();
            push_edge_events(out, OpType::AddEdge, id, &t.relationships, &none, at);
            assert(out.deep_view() =~= before + task_changes(
                from.deep_view(),
                to.deep_view(),
                id@,
                at,
            ));
        },
        (Some(f), Some(t)) => {
            let changes = changed_fields(&f.custom_fields, &t.custom_fields);
            if !changes.is_empty() {
                let e = MutationEvent::new(OpType::Update, id, changes, at);
                let ghost ev = e@;
                out.push(e);
                assert(out.deep_view() =~= before + seq![ev]);
            } else {
                assert(out.deep_view() =~= before + Seq::<EventV>::empty());
            }
            push_edge_events(out, OpType::AddEdge, id, &t.relationships, &f.relationships, at);
            push_edge_events(out, OpType::RemoveEdge, id, &f.relationships, &t.relationships, at);
            assert(out.deep_view() =~= before + task_changes(
                from.deep_view(),
                to.deep_view(),
                id@,
                at,
            ));
        },
    }
}

/// Draft events that turn the state `from` into `to` for the given tasks.
///
/// A task only in `from` is deleted; a task only in `to` is created with its
/// fields and then its edges; a task in both gets at most one update of the
/// fields that differ, and the edges it lacks and the edges it has too many.
pub fn compensate(
    from: &StrMap<TaskState>,
    to: &StrMap<TaskState>,
    affected: &Vec<String>,
    at: Timestamp,
) -> (r: Vec<MutationEvent>)
    ensures
        r.deep_view() == state_changes(from@, to@, affected.deep_view(), at),
{
    let ghost ids = affected.deep_view();
    let mut out: Vec<MutationEvent> = Vec::new();
    let mut i: usize = 0;
    assert(out.deep_view() =~= state_changes(from@, to@, ids.take(0), at));
    while i < affected.len()
        invariant
            i <= affected.len(),
            ids == affected.deep_view(),
            out.deep_view() == state_changes(from@, to@, ids.take(i as int), at),
        decreases affected.len() - i,
    {
        let id = affected[i].as_str();
        push_task_changes(&mut out, from.get(id), to.get(id), id, at);
        proof {
            let longer = ids.take(i as int + 1);
            assert(longer.drop_last() =~= ids.take(i as int));
            assert(longer.last() == id@);
        }
        i += 1;
    }
    assert(ids.take(ids.len() as int) =~= ids);
    out
}

/// Whether two field maps hold the same values under the same names.
pub open spec fn fields_alike(a: FieldsV, b: FieldsV) -> bool {
    &&& forall|k: Seq<char>| #[trigger] a.contains_key(k) <==> b.contains_key(k)
    &&& forall|k: Seq<char>| #[trigger] a.contains_key(k) ==> json::json_same(a[k], b[k])
}

/// Whether two tasks have the same edges, in whatever order.
pub open spec fn edges_alike(a: RelsV, b: RelsV) -> bool {
    forall|rel: Seq<char>, target: Seq<char>| #[trigger]
        has_edge(a, rel, target) <==> has_edge(b, rel, target)
}

/// Whether two tasks have the same fields and edges, or both are missing.
pub open spec fn alike(a: Option<TaskV>, b: Option<TaskV>) -> bool {
    match (a, b) {
        (None, None) => true,
        (Some(x), Some(y)) => fields_alike(x.custom_fields, y.custom_fields) && edges_alike(
            x.relationships,
            y.relationships,
        ),
        _ => false,
    }
}

/// A task is alike to itself.
pub proof fn alike_reflexive(a: Option<TaskV>)
    ensures
        alike(a, a),
{
    if let Some(x) = a {
        assert forall|k: Seq<char>| #[trigger] x.custom_fields.contains_key(k) implies json::json_same(
            x.custom_fields[k],
            x.custom_fields[k],
        ) by {
            json::json_same_reflexive(x.custom_fields[k]);
        }
    }
}

/// Tasks alike to the same task are alike.
pub proof fn alike_transitive(a: Option<TaskV>, b: Option<TaskV>, c: Option<TaskV>)
    requires
        alike(a, b),
        alike(b, c),
    ensures
        alike(a, c),
{
    if let (Some(x), Some(y), Some(z)) = (a, b, c) {
        assert forall|k: Seq<char>| #[trigger] x.custom_fields.contains_key(k) implies z.custom_fields.contains_key(k) && json::json_same(
            x.custom_fields[k],
            z.custom_fields[k],
        ) by {
            assert(y.custom_fields.contains_key(k));
            json::json_same_transitive(x.custom_fields[k], y.custom_fields[k], z.custom_fields[k]);
        }
        assert forall|k: Seq<char>| #[trigger] x.custom_fields.contains_key(k) <==> z.custom_fields.contains_key(k) by {
            assert(y.custom_fields.contains_key(k) <==> x.custom_fields.contains_key(k));
        }
        assert forall|rel: Seq<char>, target: Seq<char>| #[trigger]
            has_edge(x.relationships, rel, target) <==> has_edge(z.relationships, rel, target) by {
            assert(has_edge(y.relationships, rel, target) <==> has_edge(x.relationships, rel, target));
        }
    }
}

proof fn lemma_targets_beyond(
    targets: Seq<Seq<char>>,
    rel: Seq<char>,
    other: RelsV,
    r: Seq<char>,
    t: Seq<char>,
)
    ensures
        targets_beyond(targets, rel, other).contains((r, t)) <==> r == rel && targets.contains(t)
            && !has_edge(other, rel, t),
    decreases targets.len(),
{
    let out = targets_beyond(targets, rel, other);
    if targets.len() > 0 {
        let rest = targets_beyond(targets.drop_last(), rel, other);
        lemma_targets_beyond(targets.drop_last(), rel, other, r, t);
        let x = targets.last();
        assert(targets =~= targets.drop_last().push(x));
        strmap::lemma_contains_last(targets, t);
        if !has_edge(other, rel, x) {
            assert(out == rest.push((rel, x)));
            if rest.contains((r, t)) {
                let i = choose|i: int| 0 <= i < rest.len() && rest[i] == (r, t);
                assert(out[i] == (r, t));
            }
            assert(out[rest.len() as int] == (rel, x));
        }
    }
}

proof fn lemma_edges_under(
    rels: RelsV,
    keys: Seq<Seq<char>>,
    other: RelsV,
    r: Seq<char>,
    t: Seq<char>,
)
    ensures
        edges_under(rels, keys, other).contains((r, t)) <==> keys.contains(r) && rels[r].contains(t)
            && !has_edge(other, r, t),
    decreases keys.len(),
{
    if keys.len() > 0 {
        let last = keys.last();
        let a = edges_under(rels, keys.drop_last(), other);
        let b = targets_beyond(rels[last], last, other);
        lemma_edges_under(rels, keys.drop_last(), other, r, t);
        lemma_targets_beyond(rels[last], last, other, r, t);
        assert((a + b).contains((r, t)) <==> a.contains((r, t)) || b.contains((r, t))) by {
            if a.contains((r, t)) {
                let i = choose|i: int| 0 <= i < a.len() && a[i] == (r, t);
                assert((a + b)[i] == (r, t));
            }
            if b.contains((r, t)) {
                let i = choose|i: int| 0 <= i < b.len() && b[i] == (r, t);
                assert((a + b)[a.len() + i] == (r, t));
            }
        }
        strmap::lemma_contains_last(keys, r);
    }
}

/// The listed edges are exactly those that `other` lacks.
pub proof fn edges_beyond_are_the_missing(
    rels: RelsV,
    other: RelsV,
    rel: Seq<char>,
    target: Seq<char>,
)
    requires
        rels.dom().finite(),
    ensures
        edges_beyond(rels, other).contains((rel, target)) <==> has_edge(rels, rel, target)
            && !has_edge(other, rel, target),
{
    let keys = strmap::sorted_of(rels.dom());
    strmap::sorted_of_finite(rels.dom());
    lemma_edges_under(rels, keys, other, rel, target);
    assert(keys.to_set().contains(rel) == keys.contains(rel));
}

proof fn lemma_without(targets: Seq<Seq<char>>, x: Seq<char>, y: Seq<char>)
    ensures
        engine::without(targets, x).contains(y) <==> targets.contains(y) && y != x,
    decreases targets.len(),
{
    if targets.len() > 0 {
        let last = targets.last();
        let rest = engine::without(targets.drop_last(), x);
        lemma_without(targets.drop_last(), x, y);
        strmap::lemma_contains_last(targets, y);
        if last != x {
            let out = rest.push(last);
            if rest.contains(y) {
                let i = choose|i: int| 0 <= i < rest.len() && rest[i] == y;
                assert(out[i] == y);
            }
            assert(out[rest.len() as int] == last);
        }
    }
}

/// Adding an edge makes exactly that edge present, and removing it makes
/// exactly that edge absent.
pub proof fn edge_events_change_one_edge(
    rels: RelsV,
    rel: Seq<char>,
    target: Seq<char>,
    r: Seq<char>,
    t: Seq<char>,
)
    ensures
        has_edge(engine::add_edge(rels, rel, target), r, t) <==> has_edge(rels, r, t) || (r == rel
            && t == target),
        has_edge(engine::remove_edge(rels, rel, target), r, t) <==> has_edge(rels, r, t) && !(r
            == rel && t == target),
{
    let now = model::targets(rels, rel);
    let more = now.push(target);
    assert(more.contains(t) <==> now.contains(t) || t == target) by {
        if now.contains(t) {
            let i = choose|i: int| 0 <= i < now.len() && now[i] == t;
            assert(more[i] == t);
        }
        assert(more[now.len() as int] == target);
    }
    if rels.contains_key(rel) {
        lemma_without(rels[rel], target, t);
        let fewer = engine::without(rels[rel], target);
        if fewer.len() == 0 {
            assert(!fewer.contains(t));
        }
    }
}

proof fn lemma_payload(rel: Seq<char>, target: Seq<char>)
    ensures
        model::target_of(edge_payload(rel, target)) == Some(target),
        model::rel_of(edge_payload(rel, target)) == rel,
{
    reveal_strlit("target");
    reveal_strlit("rel");
    assert(TARGET_KEY@.len() != REL_KEY@.len());
}

proof fn lemma_edge_replay(
    cur: StateV,
    op: OpType,
    id: Seq<char>,
    edges: Seq<(Seq<char>, Seq<char>)>,
    at: Timestamp,
    done: Seq<char>,
)
    requires
        cur.contains_key(id),
        op == OpType::AddEdge || op == OpType::RemoveEdge,
    ensures
        ({
            let now = engine::replay(cur, edge_drafts(op, id, edges, at), done);
            &&& now.contains_key(id)
            &&& now[id].custom_fields == cur[id].custom_fields
            &&& forall|rel: Seq<char>, t: Seq<char>| #[trigger]
                has_edge(now[id].relationships, rel, t) <==> if op == OpType::AddEdge {
                    has_edge(cur[id].relationships, rel, t) || edges.contains((rel, t))
                } else {
                    has_edge(cur[id].relationships, rel, t) && !edges.contains((rel, t))
                }
        }),
    decreases edges.len(),
{
    let add = op == OpType::AddEdge;
    let drafts = edge_drafts(op, id, edges, at);
    if edges.len() > 0 {
        let fewer = edges.drop_last();
        let (rel0, t0) = edges.last();
        lemma_edge_replay(cur, op, id, fewer, at, done);
        assert(drafts.drop_last() =~= edge_drafts(op, id, fewer, at));
        let mid = engine::replay(cur, drafts.drop_last(), done);
        let now = engine::replay(cur, drafts, done);
        lemma_payload(rel0, t0);
        assert(drafts.last() == model::draft(op, id, edge_payload(rel0, t0), at));
        assert(now[id].relationships == if add {
            engine::add_edge(mid[id].relationships, rel0, t0)
        } else {
            engine::remove_edge(mid[id].relationships, rel0, t0)
        });
        assert forall|rel: Seq<char>, t: Seq<char>| #[trigger]
            has_edge(now[id].relationships, rel, t) <==> if add {
                has_edge(cur[id].relationships, rel, t) || edges.contains((rel, t))
            } else {
                has_edge(cur[id].relationships, rel, t) && !edges.contains((rel, t))
            } by {
            edge_events_change_one_edge(mid[id].relationships, rel0, t0, rel, t);
            assert(has_edge(mid[id].relationships, rel, t) <==> if add {
                has_edge(cur[id].relationships, rel, t) || fewer.contains((rel, t))
            } else {
                has_edge(cur[id].relationships, rel, t) && !fewer.contains((rel, t))
            });
            strmap::lemma_contains_last(edges, (rel, t));
        }
    }
}

/// An event leaves every task but its own as it is.
pub proof fn events_touch_their_own_task(
    s: StateV,
    events: Seq<EventV>,
    done: Seq<char>,
    id: Seq<char>,
)
    requires
        forall|i: int| 0 <= i < events.len() ==> (#[trigger] events[i]).task_id != id,
    ensures
        task_at(engine::replay(s, events, done), id) == task_at(s, id),
    decreases events.len(),
{
    if events.len() > 0 {
        let fewer = events.drop_last();
        assert forall|i: int| 0 <= i < fewer.len() implies (#[trigger] fewer[i]).task_id != id by {
            assert(fewer[i] == events[i]);
        }
        events_touch_their_own_task(s, fewer, done, id);
        assert(events.last() == events[events.len() - 1]);
    }
}

proof fn lemma_update_restores(
    cur: FieldsV,
    from: FieldsV,
    to: FieldsV,
    changes: FieldsV,
)
    requires
        fields_alike(cur, from),
        changes == field_changes(from, to),
        forall|k: Seq<char>| to.contains_key(k) ==> !(#[trigger] to[k] is Null),
    ensures
        fields_alike(engine::set_fields(cur, changes), to),
        changes == Map::<Seq<char>, JsonV>::empty() ==> fields_alike(cur, to),
{
    let now = engine::set_fields(cur, changes);
    assert forall|k: Seq<char>| #[trigger] now.contains_key(k) <==> to.contains_key(k) by {
        assert(cur.contains_key(k) <==> from.contains_key(k));
        if to.contains_key(k) {
            assert(!(to[k] is Null));
        }
    }
    assert forall|k: Seq<char>| #[trigger] now.contains_key(k) implies json::json_same(now[k], to[k]) by {
        assert(cur.contains_key(k) <==> from.contains_key(k));
        if changes.contains_key(k) {
            json::json_same_reflexive(to[k]);
        } else {
            json::json_same_transitive(cur[k], from[k], to[k]);
        }
    }
    if changes == Map::<Seq<char>, JsonV>::empty() {
        assert(now =~= cur);
    }
}

/// Whether a task, if there is one, has no null fields and finitely many edge
/// types.
pub open spec fn sound(id: Seq<char>, t: Option<TaskV>) -> bool {
    match t {
        Some(x) => engine::tidy(id, x) && x.relationships.dom().finite(),
        None => true,
    }
}

/// Replaying the drafts for a task over a task alike to `from` leaves one alike
/// to `to`: the same fields with the same values, and the same edges. No other
/// task changes.
pub proof fn changes_reach_their_goal(
    cur: StateV,
    from: Option<TaskV>,
    to: Option<TaskV>,
    id: Seq<char>,
    at: Timestamp,
    done: Seq<char>,
)
    requires
        alike(task_at(cur, id), from),
        sound(id, from),
        sound(id, to),
    ensures
        alike(task_at(engine::replay(cur, task_changes(from, to, id, at), done), id), to),
        forall|other: Seq<char>|
            other != id ==> #[trigger] task_at(
                engine::replay(cur, task_changes(from, to, id, at), done),
                other,
            ) == task_at(cur, other),
{
    let events = task_changes(from, to, id, at);
    let none = Map::<Seq<char>, Seq<Seq<char>>>::empty();
    assert forall|other: Seq<char>| other != id implies #[trigger] task_at(
        engine::replay(cur, events, done),
        other,
    ) == task_at(cur, other) by {
        assert forall|i: int| 0 <= i < events.len() implies (#[trigger] events[i]).task_id != other by {
            assert(events[i].task_id == id);
        }
        events_touch_their_own_task(cur, events, done, other);
    }
    match (from, to) {
        (None, None) => {
            assert(events =~= Seq::<EventV>::empty());
        },
        (Some(_), None) => {
            assert(events.drop_last() =~= Seq::<EventV>::empty());
            assert(engine::replay(cur, events.drop_last(), done) == cur);
        },
        (None, Some(t)) => {
            let create = seq![model::draft(OpType::Create, id, t.custom_fields, at)];
            let edges = edges_beyond(t.relationships, none);
            let adds = edge_drafts(OpType::AddEdge, id, edges, at);
            engine::replay_concat(cur, create, adds, done);
            let made = engine::replay(cur, create, done);
            assert(create.drop_last() =~= Seq::<EventV>::empty());
            assert(engine::replay(cur, create.drop_last(), done) == cur);
            assert(made == cur.insert(id, engine::task_created(cur, create.last(), done)));
            assert(made[id].custom_fields =~= t.custom_fields);
            lemma_edge_replay(made, OpType::AddEdge, id, edges, at, done);
            let now = engine::replay(made, adds, done);
            assert forall|rel: Seq<char>, target: Seq<char>| #[trigger]
                has_edge(now[id].relationships, rel, target) <==> has_edge(
                    t.relationships,
                    rel,
                    target,
                ) by {
                edges_beyond_are_the_missing(t.relationships, none, rel, target);
            }
            alike_reflexive(to);
        },
        (Some(f), Some(t)) => {
            let changes = field_changes(f.custom_fields, t.custom_fields);
            let update = if changes == Map::<Seq<char>, JsonV>::empty() {
                Seq::empty()
            } else {
                seq![model::draft(OpType::Update, id, changes, at)]
            };
            let more = edges_beyond(t.relationships, f.relationships);
            let fewer = edges_beyond(f.relationships, t.relationships);
            let adds = edge_drafts(OpType::AddEdge, id, more, at);
            let drops = edge_drafts(OpType::RemoveEdge, id, fewer, at);
            engine::replay_concat(cur, update + adds, drops, done);
            engine::replay_concat(cur, update, adds, done);
            let one = engine::replay(cur, update, done);
            lemma_update_restores(cur[id].custom_fields, f.custom_fields, t.custom_fields, changes);
            if changes != Map::<Seq<char>, JsonV>::empty() {
                assert(update.drop_last() =~= Seq::<EventV>::empty());
                assert(engine::replay(cur, update.drop_last(), done) == cur);
                assert(one == engine::step(cur, update.last(), done));
            }
            assert(one.contains_key(id));
            assert(one[id].relationships == cur[id].relationships);
            assert(fields_alike(one[id].custom_fields, t.custom_fields));
            lemma_edge_replay(one, OpType::AddEdge, id, more, at, done);
            let two = engine::replay(one, adds, done);
            lemma_edge_replay(two, OpType::RemoveEdge, id, fewer, at, done);
            let now = engine::replay(two, drops, done);
            assert forall|rel: Seq<char>, target: Seq<char>| #[trigger]
                has_edge(now[id].relationships, rel, target) <==> has_edge(
                    t.relationships,
                    rel,
                    target,
                ) by {
                edges_beyond_are_the_missing(t.relationships, f.relationships, rel, target);
                edges_beyond_are_the_missing(f.relationships, t.relationships, rel, target);
                assert(has_edge(two[id].relationships, rel, target) <==> has_edge(
                    one[id].relationships,
                    rel,
                    target,
                ) || more.contains((rel, target)));
                assert(has_edge(cur[id].relationships, rel, target) <==> has_edge(
                    f.relationships,
                    rel,
                    target,
                ));
            }
        },
    }
}

} // verus!
