//! Single tasks with the edges that point at them.

use crate::compensate;
use crate::config::{RelationshipDef, TypesV};
use crate::engine;
use crate::graph;
use crate::json::JsonV;
use crate::list;
use crate::model::{FieldsV, StateV, TaskState, TaskV};
use crate::order;
use crate::read::{self, SchemaReading, Warning};
use crate::store::Store;
use crate::strmap::{self, Data, StrMap, StrSet};
use crate::text;
use vstd::prelude::*;

verus! {

/// The tasks asked for, and the warnings of the read.
pub struct ShowOutcome {
    pub tasks: Vec<TaskState>,
    pub warnings: Vec<Warning>,
}

/// Whether another task points at `id` under the inverse name `name`.
pub open spec fn pointed_from(
    s: StateV,
    types: TypesV,
    id: Seq<char>,
    name: Seq<char>,
    owner: Seq<char>,
) -> bool {
    owner != id && list::points_at(s, types, owner, id, name)
}

/// The other tasks that point at `id`, by the inverse name of the edge.
pub open spec fn inverse_of(s: StateV, types: TypesV, id: Seq<char>) -> Map<
    Seq<char>,
    Set<Seq<char>>,
> {
    Map::new(
        |n: Seq<char>| exists|o: Seq<char>| #[trigger] pointed_from(s, types, id, n, o),
        |n: Seq<char>| Set::new(|o: Seq<char>| pointed_from(s, types, id, n, o)),
    )
}

spec fn named(m: Map<Seq<char>, Set<Seq<char>>>, n: Seq<char>, o: Seq<char>) -> bool {
    m.contains_key(n) && m[n].contains(o)
}

spec fn none_empty(m: Map<Seq<char>, Set<Seq<char>>>) -> bool {
    forall|n: Seq<char>| #[trigger]
        m.contains_key(n) ==> exists|o: Seq<char>| #[trigger] m[n].contains(o)
}

fn add_named(m: &mut StrMap<StrSet>, name: &str, owner: &str)
    requires
        none_empty(old(m)@),
    ensures
        none_empty(final(m)@),
        forall|n: Seq<char>, o: Seq<char>| #[trigger]
            named(final(m)@, n, o) <==> named(old(m)@, n, o) || (n == name@ && o == owner@),
{
    let mut owners: StrSet = match m.take(name) {
        Some(s) => s,
        None => StrSet::new(),
    };
    owners.insert(String::from_str(owner));
    let ghost set = owners@;
    m.insert(String::from_str(name), owners);
    proof {
        assert(m@[name@] == set);
        assert forall|n: Seq<char>| #[trigger] m@.contains_key(n) implies exists|o: Seq<char>| #[trigger]
            m@[n].contains(o) by {
            if n == name@ {
                assert(m@[n].contains(owner@));
            } else {
                assert(old(m)@.contains_key(n));
                let o = choose|o: Seq<char>| #[trigger] old(m)@[n].contains(o);
                assert(m@[n].contains(o));
            }
        }
        assert forall|n: Seq<char>, o: Seq<char>| #[trigger] named(m@, n, o) <==> named(
            old(m)@,
            n,
            o,
        ) || (n == name@ && o == owner@) by {}
    }
}

/// Adds one task's edges to `id` under their inverse names.
fn add_pointers(
    m: &mut StrMap<StrSet>,
    owner: &str,
    rels: &StrMap<Vec<String>>,
    id: &str,
    types: &StrMap<RelationshipDef>,
)
    requires
        none_empty(old(m)@),
    ensures
        none_empty(final(m)@),
        forall|n: Seq<char>, o: Seq<char>| #[trigger]
            named(final(m)@, n, o) <==> named(old(m)@, n, o) || (o == owner@ && n.len() > 0
                && list::rel_points(rels@, types@, id@, n)),
{
    let ghost base = m@;
    let count = rels.len();
    let ghost keys = rels.keys_view();
    let mut k: usize = 0;
    while k < count
        invariant
            k <= count,
            count == keys.len(),
            keys == rels.keys_view(),
            none_empty(m@),
            forall|n: Seq<char>, o: Seq<char>| #[trigger]
                named(m@, n, o) <==> named(base, n, o) || (o == owner@ && n.len() > 0 && exists|j: int|
                    0 <= j < k && types@.contains_key(#[trigger] keys[j]) && types@[keys[j]].inverse
                        == n && rels@[keys[j]].contains(id@)),
        decreases count - k,
    {
        let ghost had = m@;
        let rel = rels.key_at(k);
        if engine::contains_text(rels.value_at(k), id) {
            if let Some(def) = types.get(rel.as_str()) {
                if !text::is_blank(def.inverse.as_str()) {
                    add_named(m, def.inverse.as_str(), owner);
                }
            }
        }
        proof {
            let r = keys[k as int];
            assert forall|n: Seq<char>, o: Seq<char>| #[trigger] named(m@, n, o) <==> named(
                base,
                n,
                o,
            ) || (o == owner@ && n.len() > 0 && exists|j: int|
                0 <= j < k + 1 && types@.contains_key(#[trigger] keys[j]) && types@[keys[j]].inverse
                    == n && rels@[keys[j]].contains(id@)) by {
                assert(named(had, n, o) <==> named(base, n, o) || (o == owner@ && n.len() > 0
                    && exists|j: int|
                    0 <= j < k && types@.contains_key(#[trigger] keys[j]) && types@[keys[j]].inverse
                        == n && rels@[keys[j]].contains(id@)));
                if types@.contains_key(r) && types@[r].inverse == n && rels@[r].contains(id@) {
                    assert(types@.contains_key(keys[k as int]));
                }
            }
        }
        k += 1;
    }
    proof {
        assert forall|n: Seq<char>, o: Seq<char>| #[trigger] named(m@, n, o) <==> named(base, n, o)
            || (o == owner@ && n.len() > 0 && list::rel_points(rels@, types@, id@, n)) by {
            if exists|j: int|
                0 <= j < count && types@.contains_key(#[trigger] keys[j]) && types@[keys[j]].inverse
                    == n && rels@[keys[j]].contains(id@) {
                let j = choose|j: int|
                    0 <= j < count && types@.contains_key(#[trigger] keys[j])
                        && types@[keys[j]].inverse == n && rels@[keys[j]].contains(id@);
                assert(keys.to_set().contains(keys[j]));
                assert(compensate::has_edge(rels@, keys[j], id@));
            }
            if list::rel_points(rels@, types@, id@, n) {
                let rel = choose|rel: Seq<char>| #[trigger]
                    compensate::has_edge(rels@, rel, id@) && types@.contains_key(rel)
                        && types@[rel].inverse == n;
                assert(keys.to_set().contains(rel));
                let j = choose|j: int| 0 <= j < keys.len() && keys[j] == rel;
                assert(types@.contains_key(keys[j]));
            }
        }
    }
}

/// The other tasks that point at a task, by the inverse name of the edge; a type
/// without an inverse name has none.
pub fn inverse_edges(
    state: &StrMap<TaskState>,
    id: &str,
    types: &StrMap<RelationshipDef>,
) -> (r: StrMap<
    StrSet,
>)
    ensures
        r@ == inverse_of(state@, types@, id@),
{
    let n = state.len();
    let ghost keys = state.keys_view();
    let mut out: StrMap<StrSet> = StrMap::new();
    let mut i: usize = 0;
    assert(keys.take(0) =~= Seq::<Seq<char>>::empty());
    while i < n
        invariant
            i <= n,
            n == keys.len(),
            keys == state.keys_view(),
            none_empty(out@),
            forall|m: Seq<char>, o: Seq<char>| #[trigger]
                named(out@, m, o) <==> keys.take(i as int).contains(o) && pointed_from(
                    state@,
                    types@,
                    id@,
                    m,
                    o,
                ),
        decreases n - i,
    {
        let ghost had = out@;
        let owner = state.key_at(i);
        if !text::same_text(owner.as_str(), id) {
            add_pointers(
                &mut out,
                owner.as_str(),
                &state.value_at(i).relationships,
                id,
                types,
            );
        }
        proof {
            assert forall|m: Seq<char>, o: Seq<char>| #[trigger] named(out@, m, o) <==> keys.take(
                i as int + 1,
            ).contains(o) && pointed_from(state@, types@, id@, m, o) by {
                strmap::lemma_take_one_more(keys, i as int, o);
                assert(named(had, m, o) <==> keys.take(i as int).contains(o) && pointed_from(
                    state@,
                    types@,
                    id@,
                    m,
                    o,
                ));
            }
        }
        i += 1;
    }
    proof {
        let want = inverse_of(state@, types@, id@);
        assert(keys.take(n as int) =~= keys);
        assert forall|m: Seq<char>, o: Seq<char>| #[trigger] named(out@, m, o) <==> pointed_from(
            state@,
            types@,
            id@,
            m,
            o,
        ) by {
            assert(keys.to_set().contains(o) == keys.contains(o));
        }
        assert forall|m: Seq<char>| #[trigger] out@.contains_key(m) <==> want.contains_key(m) by {
            if out@.contains_key(m) {
                let o = choose|o: Seq<char>| #[trigger] out@[m].contains(o);
                assert(named(out@, m, o));
                assert(pointed_from(state@, types@, id@, m, o));
            }
            if want.contains_key(m) {
                let o = choose|o: Seq<char>| #[trigger] pointed_from(state@, types@, id@, m, o);
                assert(named(out@, m, o));
            }
        }
        assert forall|m: Seq<char>| #[trigger] out@.contains_key(m) implies out@[m] == want[m] by {
            assert forall|o: Seq<char>| out@[m].contains(o) <==> want[m].contains(o) by {
                assert(named(out@, m, o) <==> pointed_from(state@, types@, id@, m, o));
            }
            assert(out@[m] =~= want[m]);
        }
        assert(out@ =~= want);
    }
    out
}

/// The fields with the tasks that point here, as lists under the inverse names.
pub open spec fn with_inverse(fields: FieldsV, inverse: Map<Seq<char>, Set<Seq<char>>>) -> FieldsV {
    fields.union_prefer_right(
        inverse.map_values(|owners: Set<Seq<char>>| order::text_list(strmap::sorted_of(owners))),
    )
}

/// A task as it is shown alone.
pub open spec fn shown_alone(s: StateV, types: TypesV, id: Seq<char>) -> TaskV {
    TaskV {
        custom_fields: with_inverse(s[id].custom_fields, inverse_of(s, types, id)),
        ..s[id]
    }
}

/// The ids without those that came before.
pub open spec fn firsts(ids: Seq<Seq<char>>) -> Seq<Seq<char>>
    decreases ids.len(),
{
    if ids.len() == 0 {
        Seq::empty()
    } else {
        let rest = firsts(ids.drop_last());
        if ids.drop_last().contains(ids.last()) {
            rest
        } else {
            rest.push(ids.last())
        }
    }
}

/// The ids that are no tasks.
pub open spec fn absent(s: StateV, ids: Seq<Seq<char>>) -> Seq<Seq<char>>
    decreases ids.len(),
{
    if ids.len() == 0 {
        Seq::empty()
    } else {
        let rest = absent(s, ids.drop_last());
        if s.contains_key(ids.last()) {
            rest
        } else {
            rest.push(ids.last())
        }
    }
}

/// The tasks among the ids, as they are shown alone.
pub open spec fn present(s: StateV, types: TypesV, ids: Seq<Seq<char>>) -> Seq<TaskV>
    decreases ids.len(),
{
    if ids.len() == 0 {
        Seq::empty()
    } else {
        let rest = present(s, types, ids.drop_last());
        if s.contains_key(ids.last()) {
            rest.push(shown_alone(s, types, ids.last()))
        } else {
            rest
        }
    }
}

/// The message about ids that are no tasks.
pub open spec fn missing_message(missing: Seq<Seq<char>>) -> Seq<char> {
    if missing.len() == 1 {
        "no task `"@ + missing[0] + "`"@
    } else {
        "no tasks: "@ + text::joined(
            missing.map_values(|id: Seq<char>| "`"@ + id + "`"@),
            ", "@,
        )
    }
}

/// One error for all ids that are no tasks.
pub fn missing_error(missing: &Vec<String>) -> (r: String)
    ensures
        r@ == missing_message(missing.deep_view()),
{
    let ghost all = missing.deep_view();
    if missing.len() == 1 {
        assert(all[0] == missing@[0]@);
        return text::cat3("no task `", missing[0].as_str(), "`");
    }
    let ghost want = all.map_values(|id: Seq<char>| "`"@ + id + "`"@);
    let mut quoted: Vec<String> = Vec::new();
    let mut i: usize = 0;
    while i < missing.len()
        invariant
            i <= missing.len(),
            all == missing.deep_view(),
            want == all.map_values(|id: Seq<char>| "`"@ + id + "`"@),
            quoted.len() == i,
            forall|j: int| 0 <= j < i ==> (#[trigger] quoted@[j])@ == want[j],
        decreases missing.len() - i,
    {
        quoted.push(text::cat3("`", missing[i].as_str(), "`"));
        i += 1;
    }
    assert(quoted.deep_view() =~= want);
    text::cat2("no tasks: ", text::join(&quoted, ", ").as_str())
}

fn show_one(task: &TaskState, inverse: &StrMap<StrSet>) -> (r: TaskState)
    ensures
        r@ == (TaskV { custom_fields: with_inverse(task@.custom_fields, inverse@), ..task@ }),
{
    let n = inverse.len();
    let ghost keys = inverse.keys_view();
    let ghost before = task@.custom_fields;
    let ghost lists = inverse@.map_values(
        |owners: Set<Seq<char>>| order::text_list(strmap::sorted_of(owners)),
    );
    let mut out = task.copy();
    let mut fields = task.custom_fields.copy();
    let mut i: usize = 0;
    assert(lists.dom() =~= inverse@.dom());
    proof {
        strmap::lemma_prefix(lists, keys, 0);
        assert(fields@ =~= before.union_prefer_right(strmap::prefix(lists, keys, 0)));
    }
    while i < n
        invariant
            i <= n,
            n == keys.len(),
            keys == inverse.keys_view(),
            strmap::ascending(keys),
            keys.to_set() == lists.dom(),
            lists == inverse@.map_values(
                |owners: Set<Seq<char>>| order::text_list(strmap::sorted_of(owners)),
            ),
            fields@ == before.union_prefer_right(strmap::prefix(lists, keys, i as nat)),
        decreases n - i,
    {
        let name = inverse.key_at(i);
        let owners = graph::members_of(inverse.value_at(i));
        fields.insert(name.clone(), order::text_array(&owners));
        proof {
            strmap::lemma_prefix(lists, keys, i as nat);
            assert(fields@ =~= before.union_prefer_right(
                strmap::prefix(lists, keys, (i + 1) as nat),
            ));
        }
        i += 1;
    }
    proof {
        strmap::lemma_prefix(lists, keys, n as nat);
    }
    out.custom_fields = fields;
    out
}

/// The named tasks, each once, in the order given, with the tasks that point at
/// each under the inverse names. Ids that are no tasks are one error.
pub fn show(store: &Store, schema: &SchemaReading, ids: &Vec<String>) -> (r: Result<
    ShowOutcome,
    String,
>)
    ensures
        ({
            let s = store.shown(*schema);
            let wanted = firsts(ids.deep_view());
            let missing = absent(s, wanted);
            match r {
                Ok(o) => {
                    &&& missing.len() == 0
                    &&& o.tasks.deep_view() == present(
                        s,
                        store.config.relationships.types@,
                        wanted,
                    )
                    &&& o.warnings.deep_view() == store.warned(*schema)
                },
                Err(m) => missing.len() > 0 && m@ == missing_message(missing),
            }
        }),
{
    let session = read::read(store, schema);
    let types = &store.config.relationships.types;
    let ghost s = session.state@;
    let ghost all = ids.deep_view();
    let mut tasks: Vec<TaskState> = Vec::new();
    let mut missing: Vec<String> = Vec::new();
    let mut seen = StrSet::new();
    let mut i: usize = 0;
    assert(all.take(0) =~= Seq::<Seq<char>>::empty());
    assert(tasks.deep_view() =~= Seq::<TaskV>::empty());
    assert(missing.deep_view() =~= Seq::<Seq<char>>::empty());
    while i < ids.len()
        invariant
            i <= ids.len(),
            all == ids.deep_view(),
            s == session.state@,
            types == store.config.relationships.types,
            forall|x: Seq<char>| #[trigger] seen@.contains(x) <==> all.take(i as int).contains(x),
            tasks.deep_view() == present(s, types@, firsts(all.take(i as int))),
            missing.deep_view() == absent(s, firsts(all.take(i as int))),
        decreases ids.len() - i,
    {
        let id = ids[i].as_str();
        let ghost shorter = all.take(i as int);
        let ghost longer = all.take(i as int + 1);
        let ghost had = seen@;
        proof {
            assert(longer.drop_last() =~= shorter);
            assert(longer.last() == id@);
            let more = firsts(shorter).push(id@);
            assert(more.drop_last() =~= firsts(shorter));
        }
        if seen.insert(String::from_str(id)) {
            match session.state.get(id) {
                Some(task) => {
                    let inverse = inverse_edges(&session.state, id, types);
                    let one = show_one(task, &inverse);
                    let ghost was = tasks.deep_view();
                    let ghost ov = one@;
                    tasks.push(one);
                    assert(tasks.deep_view() =~= was.push(ov));
                },
                None => {
                    let ghost was = missing.deep_view();
                    missing.push(String::from_str(id));
                    assert(missing.deep_view() =~= was.push(id@));
                },
            }
        }
        proof {
            assert forall|x: Seq<char>| #[trigger] seen@.contains(x) <==> longer.contains(x) by {
                strmap::lemma_take_one_more(all, i as int, x);
                assert(had.contains(x) <==> shorter.contains(x));
            }
        }
        i += 1;
    }
    assert(all.take(all.len() as int) =~= all);
    assert(missing.deep_view().len() == missing.len());
    if missing.len() > 0 {
        return Err(missing_error(&missing));
    }
    Ok(ShowOutcome { tasks, warnings: session.warnings })
}

proof fn lemma_firsts(ids: Seq<Seq<char>>, x: Seq<char>)
    ensures
        firsts(ids).contains(x) <==> ids.contains(x),
        firsts(ids).no_duplicates(),
    decreases ids.len(),
{
    if ids.len() > 0 {
        let rest = ids.drop_last();
        lemma_firsts(rest, x);
        lemma_firsts(rest, ids.last());
        strmap::lemma_contains_last(ids, x);
        let all = firsts(ids);
        if !rest.contains(ids.last()) {
            assert(all.drop_last() =~= firsts(rest));
            strmap::lemma_contains_last(all, x);
        }
    }
}

/// Each task that is asked for is shown once, in the order of the first mentions:
/// of two tasks the one whose first mention comes earlier is shown earlier.
pub proof fn mentions_are_shown_once(
    ids: Seq<Seq<char>>,
    i: int,
    j: int,
)
    requires
        0 <= i < j < ids.len(),
        !ids.take(i).contains(ids[i]),
        !ids.take(j).contains(ids[j]),
    ensures
        firsts(ids).no_duplicates(),
        forall|x: Seq<char>| #[trigger] firsts(ids).contains(x) <==> ids.contains(x),
        exists|a: int, b: int|
            0 <= a < b < firsts(ids).len() && #[trigger] firsts(ids)[a] == ids[i]
                && #[trigger] firsts(ids)[b] == ids[j],
    decreases ids.len(),
{
    assert forall|x: Seq<char>| #[trigger] firsts(ids).contains(x) <==> ids.contains(x) by {
        lemma_firsts(ids, x);
    }
    lemma_firsts(ids, ids[i]);
    let rest = ids.drop_last();
    let all = firsts(ids);
    if j < rest.len() {
        assert(rest.take(i) =~= ids.take(i));
        assert(rest.take(j) =~= ids.take(j));
        mentions_are_shown_once(rest, i, j);
        let (a, b) = choose|a: int, b: int|
            0 <= a < b < firsts(rest).len() && #[trigger] firsts(rest)[a] == rest[i]
                && #[trigger] firsts(rest)[b] == rest[j];
        assert(all[a] == ids[i] && all[b] == ids[j]);
    } else {
        assert(ids.take(j) =~= rest);
        lemma_firsts(rest, ids[i]);
        assert(rest.contains(ids[i])) by {
            assert(rest[i] == ids[i]);
        }
        let a = choose|a: int| 0 <= a < firsts(rest).len() && firsts(rest)[a] == ids[i];
        assert(all == firsts(rest).push(ids[j]));
        assert(all[a] == ids[i] && all[firsts(rest).len() as int] == ids[j]);
    }
}

proof fn lemma_absent(s: StateV, ids: Seq<Seq<char>>, x: Seq<char>)
    ensures
        absent(s, ids).contains(x) <==> ids.contains(x) && !s.contains_key(x),
    decreases ids.len(),
{
    if ids.len() > 0 {
        let rest = ids.drop_last();
        lemma_absent(s, rest, x);
        strmap::lemma_contains_last(ids, x);
        if !s.contains_key(ids.last()) {
            assert(absent(s, ids).drop_last() =~= absent(s, rest));
            strmap::lemma_contains_last(absent(s, ids), x);
        }
    }
}

proof fn lemma_present(s: StateV, types: TypesV, ids: Seq<Seq<char>>)
    requires
        forall|i: int| 0 <= i < ids.len() ==> s.contains_key(#[trigger] ids[i]),
    ensures
        present(s, types, ids).len() == ids.len(),
        forall|i: int|
            0 <= i < ids.len() ==> #[trigger] present(s, types, ids)[i] == shown_alone(
                s,
                types,
                ids[i],
            ),
    decreases ids.len(),
{
    if ids.len() > 0 {
        let rest = ids.drop_last();
        assert forall|i: int| 0 <= i < rest.len() implies s.contains_key(#[trigger] rest[i]) by {
            assert(rest[i] == ids[i]);
        }
        lemma_present(s, types, rest);
        assert(s.contains_key(ids[ids.len() - 1]));
    }
}

/// To show tasks fails exactly where one of them is not there. Else it gives for
/// each of them the task with its edges and times, and its fields, in which the
/// inverse name of a relationship type stands for the other tasks that have an
/// edge of that type to it; no other field differs.
pub proof fn shows_give_the_tasks(
    store: Store,
    schema: SchemaReading,
    ids: Vec<String>,
    r: Result<ShowOutcome, String>,
    id: Seq<char>,
    k: Seq<char>,
)
    requires
        call_ensures(show, (&store, &schema, &ids), r),
    ensures
        r is Ok <==> forall|i: int|
            0 <= i < ids.deep_view().len() ==> store.shown(schema).contains_key(
                #[trigger] ids.deep_view()[i],
            ),
        r matches Ok(o) ==> ids.deep_view().contains(id) ==> exists|i: int|
            0 <= i < o.tasks.deep_view().len() && shown_as(
                store.shown(schema),
                store.config.relationships.types@,
                id,
                #[trigger] o.tasks.deep_view()[i],
                k,
            ),
{
    let s = store.shown(schema);
    let types = store.config.relationships.types@;
    let all = ids.deep_view();
    let wanted = firsts(all);
    let missing = absent(s, wanted);
    if missing.len() > 0 {
        let x = missing[0];
        assert(missing.contains(x));
        lemma_absent(s, wanted, x);
        lemma_firsts(all, x);
        let i = choose|i: int| 0 <= i < all.len() && all[i] == x;
        assert(!s.contains_key(ids.deep_view()[i]));
    } else {
        assert forall|i: int| 0 <= i < all.len() implies s.contains_key(#[trigger] all[i]) by {
            lemma_firsts(all, all[i]);
            lemma_absent(s, wanted, all[i]);
            assert(all.contains(all[i]));
            if !s.contains_key(all[i]) {
                assert(missing.contains(all[i]));
            }
        }
        assert forall|i: int| 0 <= i < wanted.len() implies s.contains_key(
            #[trigger] wanted[i],
        ) by {
            lemma_firsts(all, wanted[i]);
            assert(wanted.contains(wanted[i]));
            let j = choose|j: int| 0 <= j < all.len() && all[j] == wanted[i];
            assert(s.contains_key(all[j]));
        }
        lemma_present(s, types, wanted);
        if let Ok(o) = r {
            if all.contains(id) {
                lemma_firsts(all, id);
                let i = choose|i: int| 0 <= i < wanted.len() && wanted[i] == id;
                let t = o.tasks.deep_view()[i];
                assert(t == shown_alone(s, types, id));
                lemma_shown_as(s, types, id, k);
                assert(shown_as(s, types, id, o.tasks.deep_view()[i], k));
            }
        }
    }
}

/// Whether a task has an edge to another of a type with a given inverse name.
pub open spec fn leads_to(
    s: StateV,
    types: TypesV,
    owner: Seq<char>,
    target: Seq<char>,
    name: Seq<char>,
) -> bool {
    s.contains_key(owner) && exists|rel: Seq<char>| #[trigger]
        s[owner].relationships.contains_key(rel) && s[owner].relationships[rel].contains(target)
            && types.contains_key(rel) && types[rel].inverse == name
}

/// Whether `t` is a task as it is shown, as far as the field `k` goes.
pub open spec fn shown_as(
    s: StateV,
    types: TypesV,
    id: Seq<char>,
    t: TaskV,
    k: Seq<char>,
) -> bool {
    let pointed = k.len() > 0 && exists|o: Seq<char>| o != id && #[trigger]
        leads_to(s, types, o, id, k);
    &&& s.contains_key(id)
    &&& t.id == s[id].id
    &&& t.relationships == s[id].relationships
    &&& t.create_time == s[id].create_time
    &&& t.update_time == s[id].update_time
    &&& t.close_time == s[id].close_time
    &&& !pointed ==> (t.custom_fields.contains_key(k) <==> s[id].custom_fields.contains_key(k))
    &&& !pointed && t.custom_fields.contains_key(k) ==> t.custom_fields[k]
        == s[id].custom_fields[k]
    &&& pointed ==> t.custom_fields.contains_key(k) && t.custom_fields[k] is List && (s.dom().finite()
        ==> forall|o: Seq<char>| #[trigger]
        t.custom_fields[k]->List_0.contains(JsonV::Str(o)) <==> o != id && leads_to(
            s,
            types,
            o,
            id,
            k,
        ))
}

proof fn lemma_shown_as(s: StateV, types: TypesV, id: Seq<char>, k: Seq<char>)
    requires
        s.contains_key(id),
    ensures
        shown_as(s, types, id, shown_alone(s, types, id), k),
{
    let t = shown_alone(s, types, id);
    let inverse = inverse_of(s, types, id);
    assert forall|o: Seq<char>| #[trigger] pointed_from(s, types, id, k, o) <==> k.len() > 0 && o
        != id && leads_to(s, types, o, id, k) by {
        if s.contains_key(o) {
            let rels = s[o].relationships;
            if list::rel_points(rels, types, id, k) {
                let rel = choose|rel: Seq<char>| #[trigger]
                    compensate::has_edge(rels, rel, id) && types.contains_key(rel)
                        && types[rel].inverse == k;
                assert(rels.contains_key(rel));
            }
            if leads_to(s, types, o, id, k) {
                let rel = choose|rel: Seq<char>| #[trigger]
                    rels.contains_key(rel) && rels[rel].contains(id) && types.contains_key(rel)
                        && types[rel].inverse == k;
                assert(compensate::has_edge(rels, rel, id));
            }
        }
    }
    let pointed = k.len() > 0 && exists|o: Seq<char>| o != id && #[trigger]
        leads_to(s, types, o, id, k);
    if pointed {
        let o = choose|o: Seq<char>| o != id && #[trigger] leads_to(s, types, o, id, k);
        assert(pointed_from(s, types, id, k, o));
        assert(inverse.contains_key(k));
        let owners = inverse[k];
        let list = strmap::sorted_of(owners);
        assert(t.custom_fields[k] == order::text_list(list));
        if s.dom().finite() {
            assert(owners.subset_of(s.dom()));
            vstd::set_lib::lemma_set_subset_finite(s.dom(), owners);
            strmap::sorted_of_finite(owners);
            let items = t.custom_fields[k]->List_0;
            assert forall|o: Seq<char>| #[trigger] items.contains(JsonV::Str(o)) <==> o != id
                && leads_to(s, types, o, id, k) by {
                assert(pointed_from(s, types, id, k, o) <==> owners.contains(o));
                assert(list.to_set().contains(o) <==> list.contains(o));
                if list.contains(o) {
                    let i = choose|i: int| 0 <= i < list.len() && list[i] == o;
                    assert(items[i] == JsonV::Str(o));
                }
                if items.contains(JsonV::Str(o)) {
                    let i = choose|i: int|
                        0 <= i < items.len() && items[i] == JsonV::Str(o);
                    assert(list[i] == o);
                }
            }
        }
    } else {
        assert(!inverse.contains_key(k)) by {
            if inverse.contains_key(k) {
                let o = choose|o: Seq<char>| #[trigger] pointed_from(s, types, id, k, o);
                assert(leads_to(s, types, o, id, k));
            }
        }
    }
}

/// Showing fails where a wanted task is not there, and names every such.
pub proof fn missing_tasks_are_named(
    store: Store,
    schema: SchemaReading,
    ids: Vec<String>,
    m: String,
)
    requires
        call_ensures(show, (&store, &schema, &ids), Err::<ShowOutcome, String>(m)),
    ensures
        ({
            let missing = absent(store.shown(schema), firsts(ids.deep_view()));
            &&& missing.len() > 0
            &&& missing.len() == 1 ==> m@ == "no task `"@ + missing[0] + "`"@
            &&& missing.len() > 1 ==> m@ == "no tasks: "@ + text::joined(
                missing.map_values(|id: Seq<char>| "`"@ + id + "`"@),
                ", "@,
            )
        }),
{
}

} // verus!
