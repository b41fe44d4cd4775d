//! What a shell can complete: column names, field names and their values.

use crate::config::{Config, RelationshipV};
use crate::display;
use crate::engine;
use crate::graph;
use crate::json::{self, JsonV};
use crate::model::{
    StateV, TaskState, BLOCKED_BY_KEY, DEPS_KEY, ID_KEY, SUBTASKS_KEY, UNBLOCKS_KEY,
};
use crate::strmap::{self, StrMap, StrSet};
use crate::text;
use vstd::prelude::*;

verus! {

/// The fields that tasks have.
pub open spec fn used_fields(s: StateV) -> Set<Seq<char>> {
    Set::new(
        |k: Seq<char>|
            exists|id: Seq<char>| #[trigger] s.contains_key(id) && s[id].custom_fields.contains_key(k),
    )
}

/// `name` alone, unless it is empty.
pub open spec fn named(name: Seq<char>) -> Set<Seq<char>> {
    if name.len() > 0 {
        set![name]
    } else {
        Set::empty()
    }
}

/// The columns that every store has.
pub open spec fn built_in() -> Set<Seq<char>> {
    set![ID_KEY@, DEPS_KEY@, UNBLOCKS_KEY@, BLOCKED_BY_KEY@, SUBTASKS_KEY@]
}

/// The columns there are: the built-in and computed ones, the configured ones,
/// and every field in use.
pub open spec fn column_set(config: Config, s: StateV) -> Set<Seq<char>> {
    let ts = config.timestamps;
    built_in().union(
        config.display.columns.deep_view().to_set(),
    ).insert(config.workflow.status_field@).insert(config.workflow.type_field@).union(
        named(ts.create_time@),
    ).union(named(ts.update_time@)).union(named(ts.close_time@)).union(used_fields(s))
}

/// The names of the relationship types and their inverses.
pub open spec fn relation_names(types: Map<Seq<char>, RelationshipV>) -> Set<Seq<char>> {
    Set::new(
        |k: Seq<char>|
            types.contains_key(k) || (k.len() > 0 && exists|t: Seq<char>| #[trigger]
                types.contains_key(t) && types[t].inverse == k),
    )
}

/// Whether a field refers to tasks: the id, the edges, or a relationship type by
/// either name.
pub open spec fn refers(types: Map<Seq<char>, RelationshipV>, field: Seq<char>) -> bool {
    field == ID_KEY@ || field == DEPS_KEY@ || types.contains_key(field) || exists|t: Seq<char>|
        #[trigger] types.contains_key(t) && types[t].inverse == field
}

/// The values a field can be completed with: the ids where it refers to tasks,
/// and what tasks hold in it.
pub open spec fn value_set(config: Config, s: StateV, field: Seq<char>) -> Set<Seq<char>> {
    Set::new(
        |v: Seq<char>|
            (refers(config.relationships.types@, field) && s.contains_key(v)) || exists|id: Seq<char>|
                #[trigger] s.contains_key(id) && s[id].custom_fields.contains_key(field)
                    && engine::plain_text(s[id].custom_fields[field]) == v,
    )
}

fn insert_all(set: &mut StrSet, names: &Vec<String>)
    ensures
        final(set)@ == old(set)@.union(names.deep_view().to_set()),
{
    let ghost before = set@;
    let ghost all = names.deep_view();
    let mut i: usize = 0;
    assert(set@ =~= before.union(all.take(0).to_set()));
    while i < names.len()
        invariant
            i <= names.len(),
            all == names.deep_view(),
            set@ == before.union(all.take(i as int).to_set()),
        decreases names.len() - i,
    {
        set.insert(names[i].clone());
        proof {
            let longer = all.take(i as int + 1);
            assert forall|k: Seq<char>| #[trigger]
                before.union(longer.to_set()).contains(k) <==> set@.contains(k) by {
                strmap::lemma_take_one_more(all, i as int, k);
            }
            assert(set@ =~= before.union(longer.to_set()));
        }
        i += 1;
    }
    assert(all.take(all.len() as int) =~= all);
}

fn insert_named(set: &mut StrSet, name: &str)
    ensures
        final(set)@ == old(set)@.union(named(name@)),
{
    let ghost before = set@;
    if !text::is_blank(name) {
        set.insert(String::from_str(name));
    }
    assert(set@ =~= before.union(named(name@)));
}

/// The names of the columns that every store has.
pub fn built_in_names() -> (r: StrSet)
    ensures
        r@ == built_in(),
{
    let mut names = StrSet::new();
    names.insert(String::from_str(ID_KEY));
    names.insert(String::from_str(DEPS_KEY));
    names.insert(String::from_str(UNBLOCKS_KEY));
    names.insert(String::from_str(BLOCKED_BY_KEY));
    names.insert(String::from_str(SUBTASKS_KEY));
    assert(names@ =~= built_in());
    names
}

/// The names of the columns there are.
pub fn column_names(config: &Config, state: &StrMap<TaskState>) -> (r: StrSet)
    ensures
        r@ == column_set(*config, state@),
{
    let mut names = built_in_names();
    insert_all(&mut names, &config.display.columns);
    names.insert(config.workflow.status_field.clone());
    names.insert(config.workflow.type_field.clone());
    insert_named(&mut names, config.timestamps.create_time.as_str());
    insert_named(&mut names, config.timestamps.update_time.as_str());
    insert_named(&mut names, config.timestamps.close_time.as_str());
    let ghost before = names@;
    let n = state.len();
    let ghost keys = state.keys_view();
    let mut i: usize = 0;
    while i < n
        invariant
            i <= n,
            n == keys.len(),
            keys == state.keys_view(),
            forall|k: Seq<char>| #[trigger]
                names@.contains(k) <==> before.contains(k) || exists|j: int|
                    0 <= j < i && (#[trigger] state@[keys[j]]).custom_fields.contains_key(k),
        decreases n - i,
    {
        let ghost had = names@;
        let task = state.value_at(i);
        display::add_keys(&mut names, task);
        proof {
            assert forall|k: Seq<char>| #[trigger]
                names@.contains(k) <==> before.contains(k) || exists|j: int|
                    0 <= j < i + 1 && (#[trigger] state@[keys[j]]).custom_fields.contains_key(k) by {
                assert(had.contains(k) <==> before.contains(k) || exists|j: int|
                    0 <= j < i && (#[trigger] state@[keys[j]]).custom_fields.contains_key(k));
                assert(state@[keys[i as int]] == task@);
                if task@.custom_fields.contains_key(k) {
                    assert(state@[keys[i as int]].custom_fields.contains_key(k));
                }
            }
        }
        i += 1;
    }
    proof {
        assert forall|k: Seq<char>| #[trigger]
            names@.contains(k) <==> before.union(used_fields(state@)).contains(k) by {
            if names@.contains(k) && !before.contains(k) {
                let j = choose|j: int|
                    0 <= j < n && (#[trigger] state@[keys[j]]).custom_fields.contains_key(k);
                assert(keys.contains(keys[j]));
                assert(keys.to_set().contains(keys[j]));
                assert(state@.contains_key(keys[j]));
            }
            if used_fields(state@).contains(k) {
                let id = choose|id: Seq<char>| #[trigger]
                    state@.contains_key(id) && state@[id].custom_fields.contains_key(k);
                assert(keys.to_set().contains(id));
                let j = choose|j: int| 0 <= j < keys.len() && keys[j] == id;
                assert(state@[keys[j]].custom_fields.contains_key(k));
            }
        }
        assert(names@ =~= before.union(used_fields(state@)));
    }
    names
}

/// The names a filter can start with: the columns and the relationship types by
/// either name.
pub fn field_names(config: &Config, state: &StrMap<TaskState>) -> (r: StrSet)
    ensures
        r@ == column_set(*config, state@).union(relation_names(config.relationships.types@)),
{
    let mut names = column_names(config, state);
    let ghost before = names@;
    let types = &config.relationships.types;
    let n = types.len();
    let ghost keys = types.keys_view();
    let mut i: usize = 0;
    while i < n
        invariant
            i <= n,
            n == keys.len(),
            keys == types.keys_view(),
            forall|k: Seq<char>| #[trigger]
                names@.contains(k) <==> before.contains(k) || exists|j: int|
                    0 <= j < i && ((#[trigger] keys[j]) == k || (k.len() > 0
                        && types@[keys[j]].inverse == k)),
        decreases n - i,
    {
        let ghost had = names@;
        let name = types.key_at(i);
        let def = types.value_at(i);
        names.insert(name.clone());
        insert_named(&mut names, def.inverse.as_str());
        proof {
            assert(types@[keys[i as int]].inverse == def.inverse@);
            assert forall|k: Seq<char>| #[trigger]
                names@.contains(k) <==> before.contains(k) || exists|j: int|
                    0 <= j < i + 1 && ((#[trigger] keys[j]) == k || (k.len() > 0
                        && types@[keys[j]].inverse == k)) by {
                assert(had.contains(k) <==> before.contains(k) || exists|j: int|
                    0 <= j < i && ((#[trigger] keys[j]) == k || (k.len() > 0
                        && types@[keys[j]].inverse == k)));
                if k == name@ || (k.len() > 0 && k == def.inverse@) {
                    assert(keys[i as int] == k || (k.len() > 0 && types@[keys[i as int]].inverse == k));
                }
            }
        }
        i += 1;
    }
    proof {
        let want = relation_names(types@);
        assert forall|k: Seq<char>| #[trigger]
            names@.contains(k) <==> before.union(want).contains(k) by {
            assert(keys.to_set().contains(k) == keys.contains(k));
            if names@.contains(k) && !before.contains(k) {
                let j = choose|j: int|
                    0 <= j < n && ((#[trigger] keys[j]) == k || (k.len() > 0
                        && types@[keys[j]].inverse == k));
                assert(keys.contains(keys[j]));
                assert(keys.to_set().contains(keys[j]));
                assert(types@.contains_key(keys[j]));
            }
            if types@.contains_key(k) {
                let j = choose|j: int| 0 <= j < keys.len() && keys[j] == k;
                assert(keys[j] == k);
            } else if want.contains(k) {
                let t = choose|t: Seq<char>| #[trigger]
                    types@.contains_key(t) && types@[t].inverse == k;
                assert(keys.to_set().contains(t));
                let j = choose|j: int| 0 <= j < keys.len() && keys[j] == t;
                assert(keys[j] == t);
            }
        }
        assert(names@ =~= before.union(want));
    }
    names
}

fn refers_to_tasks(config: &Config, field: &str) -> (r: bool)
    ensures
        r == refers(config.relationships.types@, field@),
{
    let types = &config.relationships.types;
    if text::same_text(field, ID_KEY) || text::same_text(field, DEPS_KEY) || types.contains_key(
        field,
    ) {
        return true;
    }
    let n = types.len();
    let ghost keys = types.keys_view();
    let mut i: usize = 0;
    while i < n
        invariant
            i <= n,
            n == keys.len(),
            keys == types.keys_view(),
            types@ == config.relationships.types@,
            keys.to_set() == types@.dom(),
            forall|j: int| 0 <= j < i ==> types@[#[trigger] keys[j]].inverse != field@,
        decreases n - i,
    {
        let def = types.value_at(i);
        if text::same_text(def.inverse.as_str(), field) {
            assert(types@.contains_key(keys[i as int]) && types@[keys[i as int]].inverse == field@);
            return true;
        }
        i += 1;
    }
    proof {
        assert forall|t: Seq<char>| #[trigger] types@.contains_key(t) implies types@[t].inverse
            != field@ by {
            assert(keys.to_set().contains(t));
            let j = choose|j: int| 0 <= j < keys.len() && keys[j] == t;
            assert(types@[keys[j]].inverse != field@);
        }
    }
    false
}

/// The values that `field` can be completed with.
pub fn value_strings(config: &Config, state: &StrMap<TaskState>, field: &str) -> (r: StrSet)
    ensures
        r@ == value_set(*config, state@, field@),
{
    let mut vals = StrSet::new();
    let ids = refers_to_tasks(config, field);
    let n = state.len();
    let ghost keys = state.keys_view();
    let mut i: usize = 0;
    while i < n
        invariant
            i <= n,
            n == keys.len(),
            keys == state.keys_view(),
            ids == refers(config.relationships.types@, field@),
            forall|v: Seq<char>| #[trigger]
                vals@.contains(v) <==> exists|j: int|
                    0 <= j < i && offers(state@, #[trigger] keys[j], field@, ids, v),
        decreases n - i,
    {
        let ghost had = vals@;
        let id = state.key_at(i);
        let task = state.value_at(i);
        if ids {
            vals.insert(id.clone());
        }
        match task.custom_fields.get(field) {
            Some(v) => {
                vals.insert(engine::append_text(v));
            },
            None => {},
        }
        proof {
            assert(state@[keys[i as int]] == task@);
            assert forall|v: Seq<char>| #[trigger]
                vals@.contains(v) <==> exists|j: int|
                    0 <= j < i + 1 && offers(state@, #[trigger] keys[j], field@, ids, v) by {
                assert(had.contains(v) <==> exists|j: int|
                    0 <= j < i && offers(state@, #[trigger] keys[j], field@, ids, v));
                assert(vals@.contains(v) <==> had.contains(v) || offers(
                    state@,
                    keys[i as int],
                    field@,
                    ids,
                    v,
                ));
            }
        }
        i += 1;
    }
    proof {
        let want = value_set(*config, state@, field@);
        assert forall|v: Seq<char>| #[trigger] vals@.contains(v) <==> want.contains(v) by {
            if vals@.contains(v) {
                let j = choose|j: int|
                    0 <= j < n && offers(state@, #[trigger] keys[j], field@, ids, v);
                assert(keys.contains(keys[j]));
                assert(keys.to_set().contains(keys[j]));
                assert(state@.contains_key(keys[j]));
            }
            if want.contains(v) {
                let id = if ids && state@.contains_key(v) {
                    v
                } else {
                    choose|id: Seq<char>| #[trigger]
                        state@.contains_key(id) && state@[id].custom_fields.contains_key(field@)
                            && engine::plain_text(state@[id].custom_fields[field@]) == v
                };
                assert(keys.to_set().contains(id));
                let j = choose|j: int| 0 <= j < keys.len() && keys[j] == id;
                assert(offers(state@, keys[j], field@, ids, v));
            }
        }
        assert(vals@ =~= want);
    }
    vals
}

/// Whether the task `id` makes `v` a value of the field.
spec fn offers(s: StateV, id: Seq<char>, field: Seq<char>, ids: bool, v: Seq<char>) -> bool {
    (ids && v == id) || (s[id].custom_fields.contains_key(field) && engine::plain_text(
        s[id].custom_fields[field],
    ) == v)
}

/// Whether `c` is part of an operator.
pub open spec fn op_char(c: char) -> bool {
    c == '=' || c == '!' || c == '<' || c == '>' || c == '~'
}

/// How many characters of `s`, from the front, are part of an operator, or are
/// not.
pub open spec fn run(s: Seq<char>, op: bool) -> nat
    decreases s.len(),
{
    if s.len() == 0 || op_char(s[0]) != op {
        0
    } else {
        1 + run(s.drop_first(), op)
    }
}

/// The completions of a filter word: once an operator is typed the values of the
/// field, each behind what was typed; before that the names.
pub open spec fn completions(config: Config, s: StateV, word: Seq<char>) -> Seq<Seq<char>> {
    let at = run(word, false) as int;
    if at < word.len() {
        let upto = at + run(word.skip(at), true);
        let values = strmap::sorted_of(value_set(config, s, word.take(at)));
        Seq::new(values.len(), |i: int| word.take(upto) + values[i])
    } else {
        strmap::sorted_of(column_set(config, s).union(relation_names(config.relationships.types@)))
    }
}

fn run_end(v: &Vec<char>, from: usize, op: bool) -> (r: usize)
    requires
        from <= v.len(),
    ensures
        from <= r <= v.len(),
        r == from + run(v@.skip(from as int), op),
{
    let mut i: usize = from;
    let ghost whole = v@.skip(from as int);
    while i < v.len() && (v[i] == '=' || v[i] == '!' || v[i] == '<' || v[i] == '>' || v[i] == '~')
        == op
        invariant
            from <= i <= v.len(),
            run(whole, op) == (i - from) + run(v@.skip(i as int), op),
        decreases v.len() - i,
    {
        assert(v@.skip(i as int).drop_first() =~= v@.skip(i as int + 1));
        i += 1;
    }
    i
}

/// The completions of a filter word.
pub fn criteria(config: &Config, state: &StrMap<TaskState>, word: &str) -> (r: Vec<String>)
    ensures
        r.deep_view() == completions(*config, state@, word@),
{
    let v = text::chars_of(word);
    let at = run_end(&v, 0, false);
    assert(v@.skip(0) =~= v@);
    let mut out: Vec<String> = Vec::new();
    if at < v.len() {
        let upto = run_end(&v, at, true);
        let field = text::text_of(&v, 0, at);
        let front = text::text_of(&v, 0, upto);
        assert(field@ =~= word@.take(at as int));
        assert(front@ =~= word@.take(upto as int));
        let values = value_strings(config, state, field.as_str());
        let n = values.len();
        let ghost all = values.members();
        let mut i: usize = 0;
        while i < n
            invariant
                i <= n,
                n == all.len(),
                all == values.members(),
                out@.len() == i,
                forall|k: int| 0 <= k < i ==> (#[trigger] out@[k])@ == front@ + all[k],
            decreases n - i,
        {
            out.push(text::cat2(front.as_str(), values.at(i).as_str()));
            i += 1;
        }
        assert(out.deep_view() =~= Seq::new(all.len(), |i: int| front@ + all[i]));
    } else {
        let names = field_names(config, state);
        let n = names.len();
        let ghost all = names.members();
        let mut i: usize = 0;
        while i < n
            invariant
                i <= n,
                n == all.len(),
                all == names.members(),
                out@.len() == i,
                forall|k: int| 0 <= k < i ==> (#[trigger] out@[k])@ == all[k],
            decreases n - i,
        {
            out.push(names.at(i).clone());
            i += 1;
        }
        assert(out.deep_view() =~= all);
    }
    out
}

/// The completions of a filter word where there is no store: the columns that
/// every store has, until an operator is typed.
pub fn bare_criteria(word: &str) -> (r: Vec<String>)
    ensures
        r.deep_view() == if run(word@, false) < word@.len() {
            Seq::empty()
        } else {
            strmap::sorted_of(built_in())
        },
{
    let v = text::chars_of(word);
    assert(v@.skip(0) =~= v@);
    if run_end(&v, 0, false) < v.len() {
        let none: Vec<String> = Vec::new();
        assert(none.deep_view() =~= Seq::<Seq<char>>::empty());
        return none;
    }
    graph::members_of(&built_in_names())
}

proof fn lemma_run(a: Seq<char>, b: Seq<char>, op: bool)
    requires
        forall|i: int| 0 <= i < a.len() ==> op_char(#[trigger] a[i]) == op,
        b.len() > 0 ==> op_char(b[0]) != op,
    ensures
        run(a + b, op) == a.len(),
    decreases a.len(),
{
    let s = a + b;
    if a.len() > 0 {
        let rest = a.drop_first();
        assert forall|i: int| 0 <= i < rest.len() implies op_char(#[trigger] rest[i]) == op by {
            assert(rest[i] == a[i + 1]);
        }
        lemma_run(rest, b, op);
        assert(s.drop_first() =~= rest + b);
        assert(s[0] == a[0]);
    } else {
        assert(s =~= b);
    }
}

/// What a word is completed to: after a field name and an operator, each value of
/// that field, whatever of one is already there; without an operator the names
/// that a criterion can start with.
pub proof fn words_are_completed(
    config: Config,
    s: StateV,
    field: Seq<char>,
    op: Seq<char>,
    begun: Seq<char>,
    i: int,
)
    requires
        forall|i: int| 0 <= i < field.len() ==> !op_char(#[trigger] field[i]),
        forall|i: int| 0 <= i < op.len() ==> op_char(#[trigger] op[i]),
        op.len() > 0,
        begun.len() > 0 ==> !op_char(begun[0]),
        0 <= i < completions(config, s, field + op + begun).len(),
    ensures
        ({
            let values = strmap::sorted_of(value_set(config, s, field));
            &&& completions(config, s, field + op + begun).len() == values.len()
            &&& completions(config, s, field + op + begun)[i] == field + op + values[i]
        }),
        completions(config, s, field) == strmap::sorted_of(
            column_set(config, s).union(relation_names(config.relationships.types@)),
        ),
{
    let word = field + op + begun;
    let tail = op + begun;
    assert(word =~= field + tail);
    assert(tail[0] == op[0]);
    lemma_run(field, tail, false);
    lemma_run(op, begun, true);
    let at = field.len() as int;
    assert(word.skip(at) =~= tail);
    assert(word.take(at) =~= field);
    assert(word.take(at + op.len()) =~= field + op);
    let none = Seq::<char>::empty();
    lemma_run(field, none, false);
    assert(field + none =~= field);
}

/// The values that a field is completed with: the texts that tasks have in it,
/// and for a field that names tasks their ids too.
pub proof fn values_are_those_in_use(config: Config, s: StateV, field: Seq<char>, v: Seq<char>)
    ensures
        ({
            let types = config.relationships.types@;
            let names_tasks = field == "id"@ || field == "deps"@ || types.contains_key(field)
                || exists|t: Seq<char>| #[trigger] types.contains_key(t) && types[t].inverse == field;
            let used = exists|id: Seq<char>| #[trigger]
                s.contains_key(id) && s[id].custom_fields.contains_key(field) && (
                match s[id].custom_fields[field] {
                    JsonV::Str(x) => x == v,
                    w => json::compact(w) == v,
                });
            value_set(config, s, field).contains(v) <==> used || (names_tasks && s.contains_key(v))
        }),
{
}

/// The columns that are offered: the computed ones and those of the display, the
/// status and the type, the timestamps that have a name, and every field that a
/// task has. For criteria the relationship types and their inverses come on top.
pub proof fn columns_are_offered(config: Config, s: StateV, x: Seq<char>)
    ensures
        column_set(config, s).contains(x) <==> {
            ||| x == "id"@ || x == "deps"@ || x == "unblocks"@ || x == "blocked_by"@ || x
                == "subtasks"@
            ||| config.display.columns.deep_view().contains(x)
            ||| x == config.workflow.status_field@ || x == config.workflow.type_field@
            ||| x.len() > 0 && (x == config.timestamps.create_time@ || x
                == config.timestamps.update_time@ || x == config.timestamps.close_time@)
            ||| exists|id: Seq<char>| #[trigger]
                s.contains_key(id) && s[id].custom_fields.contains_key(x)
        },
        relation_names(config.relationships.types@).contains(x) <==> {
            let types = config.relationships.types@;
            ||| types.contains_key(x)
            ||| x.len() > 0 && exists|t: Seq<char>| #[trigger]
                types.contains_key(t) && types[t].inverse == x
        },
{
}

} // verus!
