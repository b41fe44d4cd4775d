//! Reading and changing the configuration file by dotted keys.

use crate::config;
use crate::json;
use crate::read::{self, SchemaReading, Warning};
use crate::store::Store;
use crate::strmap::Data;
use crate::text;
use vstd::prelude::*;

verus! {

/// A value of the `toml` crate.
#[verifier::external_type_specification]
#[verifier::external_body]
pub struct ExTomlValue(toml::Value);

/// A TOML value: a string, a date by the numbers of its parts and the minutes of
/// its offset, a list, a table by key, or anything else by its TOML text.
pub enum TomlV {
    Text(Seq<char>),
    Leaf(Seq<char>),
    Date(Seq<int>, Option<i16>),
    List(Seq<TomlV>),
    Table(Seq<(Seq<char>, TomlV)>),
}

/// What a value of the `toml` crate holds.
pub uninterp spec fn toml_content(v: toml::Value) -> TomlV;

/// The TOML that the `toml` crate writes for a value, if it is one that TOML has.
pub uninterp spec fn toml_shown(v: TomlV) -> Option<Seq<char>>;

/// One level of a TOML value.
enum TomlShape {
    Text(String),
    Date(Option<i16>),
    List(Vec<toml::Value>),
    Table(Vec<(String, toml::Value)>),
    Leaf,
}

/// The entries of a table in the model.
pub open spec fn entries_view(entries: Seq<(String, toml::Value)>) -> Seq<(Seq<char>, TomlV)> {
    Seq::new(entries.len(), |i: int| (entries[i].0@, toml_content(entries[i].1)))
}

/// The items of a list in the model.
pub open spec fn items_view(items: Seq<toml::Value>) -> Seq<TomlV> {
    Seq::new(items.len(), |i: int| toml_content(items[i]))
}

/// The variants of `toml::Value`, one level deep: the text of a string, the
/// minutes of a date's offset, the items of a list, the entries of a table as
/// `toml::Table` hands them out, or none of these.
#[verifier::external_body]
fn open_toml(v: &toml::Value) -> (r: TomlShape)
    ensures
        match r {
            TomlShape::Text(s) => toml_content(*v) == TomlV::Text(s@),
            TomlShape::Date(minutes) => toml_content(*v) is Date && toml_content(*v)->Date_1
                == minutes,
            TomlShape::List(items) => toml_content(*v) == TomlV::List(items_view(items@)),
            TomlShape::Table(entries) => toml_content(*v) == TomlV::Table(entries_view(entries@)),
            TomlShape::Leaf => toml_content(*v) is Leaf,
        },
{
    match v {
        toml::Value::String(s) => TomlShape::Text(s.clone()),
        toml::Value::Datetime(d) => TomlShape::Date(match d.offset {
            Some(toml::value::Offset::Custom { minutes }) => Some(minutes),
            Some(toml::value::Offset::Z) => None,
            None => None,
        }),
        toml::Value::Array(items) => TomlShape::List(items.clone()),
        toml::Value::Table(t) => TomlShape::Table(t.clone().into_iter().collect()),
        _ => TomlShape::Leaf,
    }
}

/// Whether the offset of every date in a value can be turned round: its minutes
/// are written without their sign.
pub open spec fn writable(v: TomlV) -> bool
    decreases v,
{
    match v {
        TomlV::Date(_, minutes) => minutes != Some(i16::MIN),
        TomlV::List(items) => forall|i: int|
            0 <= i < items.len() ==> writable(#[trigger] items[i]),
        TomlV::Table(entries) => forall|i: int|
            0 <= i < entries.len() ==> writable((#[trigger] entries[i]).1),
        _ => true,
    }
}

fn is_writable(v: &toml::Value) -> (r: bool)
    ensures
        r == writable(toml_content(*v)),
    decreases toml_content(*v),
{
    let ghost whole = toml_content(*v);
    match open_toml(v) {
        TomlShape::Date(minutes) => match minutes {
            Some(m) => m != i16::MIN,
            None => true,
        },
        TomlShape::List(items) => {
            let ghost all = items_view(items@);
            let mut i: usize = 0;
            while i < items.len()
                invariant
                    i <= items.len(),
                    whole == toml_content(*v),
                    whole == TomlV::List(all),
                    all == items_view(items@),
                    forall|k: int| 0 <= k < i ==> writable(#[trigger] all[k]),
                decreases items.len() - i,
            {
                assert(decreases_to!(whole => whole->List_0));
                assert(decreases_to!(all => all[i as int]));
                assert(all[i as int] == toml_content(items@[i as int]));
                if !is_writable(&items[i]) {
                    return false;
                }
                i += 1;
            }
            true
        },
        TomlShape::Table(entries) => {
            let ghost all = entries_view(entries@);
            let mut i: usize = 0;
            while i < entries.len()
                invariant
                    i <= entries.len(),
                    whole == toml_content(*v),
                    whole == TomlV::Table(all),
                    all == entries_view(entries@),
                    forall|k: int| 0 <= k < i ==> writable((#[trigger] all[k]).1),
                decreases entries.len() - i,
            {
                assert(decreases_to!(whole => whole->Table_0));
                assert(decreases_to!(all => all[i as int]));
                assert(decreases_to!(all[i as int] => all[i as int].1));
                assert(all[i as int].1 == toml_content(entries@[i as int].1));
                if !is_writable(&entries[i].1) {
                    return false;
                }
                i += 1;
            }
            true
        },
        _ => true,
    }
}

/// `toml::Value::serialize` with `toml::ser::ValueSerializer`, which is what
/// `toml::Value::to_string` prints. The text, and whether there is one, depends
/// on what the value holds alone; nothing else is claimed of it.
#[verifier::external_body]
fn toml_text(v: &toml::Value) -> (r: Option<String>)
    requires
        writable(toml_content(*v)),
    ensures
        r.deep_view() == toml_shown(toml_content(*v)),
{
    let mut out = String::new();
    let done = serde::Serialize::serialize(v, toml::ser::ValueSerializer::new(&mut out));
    done.ok().map(|_| out)
}

/// The place of a key among the entries of a table.
pub open spec fn entry_place(entries: Seq<(Seq<char>, TomlV)>, key: Seq<char>) -> Option<int>
    decreases entries.len(),
{
    if entries.len() == 0 {
        None
    } else {
        match entry_place(entries.drop_last(), key) {
            Some(n) => Some(n),
            None => if entries.last().0 == key {
                Some(entries.len() - 1)
            } else {
                None
            },
        }
    }
}

/// What stands under a path of keys.
pub open spec fn looked_up(v: TomlV, path: Seq<Seq<char>>) -> Option<TomlV>
    decreases path.len(),
{
    if path.len() == 0 {
        Some(v)
    } else {
        match v {
            TomlV::Table(entries) => match entry_place(entries, path[0]) {
                Some(n) => looked_up(entries[n].1, path.drop_first()),
                None => None,
            },
            _ => None,
        }
    }
}

fn place_in(entries: &Vec<(String, toml::Value)>, key: &str) -> (r: Option<usize>)
    ensures
        match r {
            Some(n) => n < entries.len() && entry_place(entries_view(entries@), key@) == Some(
                n as int,
            ),
            None => entry_place(entries_view(entries@), key@) is None,
        },
{
    let ghost all = entries_view(entries@);
    let mut at: Option<usize> = None;
    let mut i: usize = 0;
    assert(all.take(0) =~= Seq::empty());
    while i < entries.len()
        invariant
            i <= entries.len(),
            all == entries_view(entries@),
            match at {
                Some(n) => n < i && entry_place(all.take(i as int), key@) == Some(n as int),
                None => entry_place(all.take(i as int), key@) is None,
            },
        decreases entries.len() - i,
    {
        let ghost longer = all.take(i as int + 1);
        assert(longer.drop_last() =~= all.take(i as int));
        assert(longer.last().0 == entries@[i as int].0@);
        if at.is_none() && text::same_text(entries[i].0.as_str(), key) {
            at = Some(i);
        }
        i += 1;
    }
    assert(all.take(all.len() as int) =~= all);
    at
}

fn look_up(v: &toml::Value, path: &Vec<String>, from: usize) -> (r: Option<toml::Value>)
    requires
        from < path.len(),
    ensures
        match r {
            Some(w) => looked_up(toml_content(*v), path.deep_view().skip(from as int)) == Some(
                toml_content(w),
            ),
            None => looked_up(toml_content(*v), path.deep_view().skip(from as int)) is None,
        },
    decreases path.len() - from,
{
    let ghost rest = path.deep_view().skip(from as int);
    assert(rest[0] == path@[from as int]@);
    assert(rest.drop_first() =~= path.deep_view().skip(from as int + 1));
    match open_toml(v) {
        TomlShape::Table(entries) => match place_in(&entries, path[from].as_str()) {
            Some(n) => {
                let mut entries = entries;
                let ghost had = entries_view(entries@);
                assert(had[n as int].1 == toml_content(entries@[n as int].1));
                let (_, child) = entries.remove(n);
                if from + 1 == path.len() {
                    assert(looked_up(toml_content(child), rest.drop_first()) == Some(
                        toml_content(child),
                    ));
                    Some(child)
                } else {
                    look_up(&child, path, from + 1)
                }
            },
            None => None,
        },
        _ => None,
    }
}

/// The value under a dotted key.
pub fn get(root: &toml::Value, key: &str) -> (r: Result<toml::Value, String>)
    ensures
        match r {
            Ok(v) => looked_up(toml_content(*root), text::split_at(key@, '.')) == Some(
                toml_content(v),
            ),
            Err(m) => looked_up(toml_content(*root), text::split_at(key@, '.')) is None && m@
                == "no config key `"@ + key@ + "`"@,
        },
{
    let path = text::split(key, '.');
    assert(path.deep_view().skip(0) =~= path.deep_view());
    match look_up(root, &path, 0) {
        Some(v) => Ok(v),
        None => Err(text::cat3("no config key `", key, "`")),
    }
}

/// Whether a key that was set is one the configuration has: it survived being
/// read back.
pub fn known_key(normalized: &toml::Value, key: &str) -> (r: Result<(), String>)
    ensures
        match r {
            Ok(_) => looked_up(toml_content(*normalized), text::split_at(key@, '.')) is Some,
            Err(m) => looked_up(toml_content(*normalized), text::split_at(key@, '.')) is None && m@
                == "unknown config key `"@ + key@ + "` (no such field; nothing was changed)"@,
        },
{
    match get(normalized, key) {
        Ok(_) => Ok(()),
        Err(_) => Err(
            text::cat3(
                "unknown config key `",
                key,
                "` (no such field; nothing was changed)",
            ),
        ),
    }
}

/// Whether a configuration that a key was set in may take the place of the old
/// one: the key is one the configuration has, and the configuration is in order
/// for the tasks there are.
pub fn accept_set(
    candidate: &config::Config,
    normalized: &toml::Value,
    key: &str,
    state: &crate::strmap::StrMap<crate::model::TaskState>,
) -> (r: Result<(), String>)
    ensures
        ({
            let problems = config::struct_problems(*candidate) + config::graph_problems(
                *candidate,
                state@,
            );
            if looked_up(toml_content(*normalized), text::split_at(key@, '.')) is None {
                r matches Err(m) && m@ == "unknown config key `"@ + key@
                    + "` (no such field; nothing was changed)"@
            } else if problems.len() > 0 {
                r matches Err(m) && m@ == config::failure_message(problems)
            } else {
                r is Ok
            }
        }),
{
    match known_key(normalized, key) {
        Ok(_) => candidate.validate_against(state),
        Err(m) => Err(m),
    }
}

/// A value below `prefix`.
pub open spec fn dotted(prefix: Seq<char>, key: Seq<char>) -> Seq<char> {
    if prefix.len() == 0 {
        key
    } else {
        prefix + "."@ + key
    }
}

/// Every value that is no table, under its dotted key.
pub open spec fn flattened(prefix: Seq<char>, v: TomlV) -> Seq<(Seq<char>, TomlV)>
    decreases v, 1nat, 0nat,
{
    match v {
        TomlV::Table(entries) => flat_entries(prefix, entries, entries.len()),
        _ => seq![(prefix, v)],
    }
}

/// The values of the first `n` entries of a table.
pub open spec fn flat_entries(prefix: Seq<char>, entries: Seq<(Seq<char>, TomlV)>, n: nat) -> Seq<
    (Seq<char>, TomlV),
>
    decreases entries, 0nat, n,
{
    if n == 0 || n > entries.len() {
        Seq::empty()
    } else {
        flat_entries(prefix, entries, (n - 1) as nat) + flattened(
            dotted(prefix, entries[n - 1].0),
            entries[n - 1].1,
        )
    }
}

/// Adds every value of `v` that is no table to `out`, under its dotted key.
pub fn flatten(prefix: &str, v: toml::Value, out: &mut Vec<(String, toml::Value)>)
    ensures
        entries_view(final(out)@) == entries_view(old(out)@) + flattened(
            prefix@,
            toml_content(v),
        ),
    decreases toml_content(v),
{
    let ghost before = entries_view(out@);
    match open_toml(&v) {
        TomlShape::Table(entries) => {
            let ghost all = entries_view(entries@);
            let n = entries.len();
            let mut left = json::reversed(entries);
            let mut i: usize = 0;
            assert(entries_view(out@) =~= before + flat_entries(prefix@, all, 0));
            while i < n
                invariant
                    i <= n,
                    n == all.len(),
                    toml_content(v) == TomlV::Table(all),
                    left.len() == n - i,
                    forall|k: int|
                        0 <= k < left.len() ==> all[n - 1 - k] == (
                            (#[trigger] left@[k]).0@,
                            toml_content(left@[k].1),
                        ),
                    entries_view(out@) == before + flat_entries(prefix@, all, i as nat),
                decreases n - i,
            {
                let ghost last = left@[left.len() - 1];
                assert(all[i as int] == (last.0@, toml_content(last.1)));
                let (key, child) = left.pop().unwrap();
                let name = if text::is_blank(prefix) {
                    key
                } else {
                    text::cat3(prefix, ".", key.as_str())
                };
                let ghost had = entries_view(out@);
                proof {
                    let whole = toml_content(v);
                    assert(decreases_to!(whole => whole->Table_0));
                    assert(decreases_to!(all => all[i as int]));
                    assert(decreases_to!(all[i as int] => all[i as int].1));
                }
                flatten(name.as_str(), child, out);
                assert(had + flattened(name@, all[i as int].1) =~= before + (flat_entries(
                    prefix@,
                    all,
                    i as nat,
                ) + flattened(name@, all[i as int].1)));
                i += 1;
            }
        },
        _ => {
            let ghost c = toml_content(v);
            out.push((String::from_str(prefix), v));
            assert(entries_view(out@) =~= before + seq![(prefix@, c)]);
        },
    }
}

/// Whether pairs are in the order of their keys.
pub open spec fn by_key(pairs: Seq<(Seq<char>, TomlV)>) -> bool {
    forall|i: int, j: int|
        0 <= i < j < pairs.len() ==> !(#[trigger] text::text_lt(pairs[j].0, pairs[i].0))
}

/// The pairs that stand under a key, one after the other.
pub open spec fn under(pairs: Seq<(Seq<char>, TomlV)>, key: Seq<char>) -> Seq<(Seq<char>, TomlV)> {
    pairs.filter(|p: (Seq<char>, TomlV)| p.0 == key)
}

/// Whether `pairs` are those of `given` in the order of their keys, and pairs of
/// one key in the order in which they were given.
pub open spec fn sorted_by_key(
    pairs: Seq<(Seq<char>, TomlV)>,
    given: Seq<(Seq<char>, TomlV)>,
) -> bool {
    &&& by_key(pairs)
    &&& pairs.to_multiset() == given.to_multiset()
    &&& forall|key: Seq<char>| #[trigger] under(pairs, key) == under(given, key)
}

proof fn lemma_none_under(pairs: Seq<(Seq<char>, TomlV)>, key: Seq<char>)
    requires
        forall|i: int| 0 <= i < pairs.len() ==> (#[trigger] pairs[i]).0 != key,
    ensures
        under(pairs, key) == Seq::<(Seq<char>, TomlV)>::empty(),
    decreases pairs.len(),
{
    reveal(Seq::filter);
    if pairs.len() > 0 {
        lemma_none_under(pairs.drop_last(), key);
        assert(pairs.last() == pairs[pairs.len() - 1]);
    }
}

proof fn lemma_push_under(pairs: Seq<(Seq<char>, TomlV)>, x: (Seq<char>, TomlV), key: Seq<char>)
    ensures
        under(pairs.push(x), key) == if x.0 == key {
            under(pairs, key).push(x)
        } else {
            under(pairs, key)
        },
{
    reveal(Seq::filter);
    assert(pairs.push(x).drop_last() =~= pairs);
}

/// A pair that is put before pairs of other keys only comes last under its key.
proof fn lemma_insert_under(
    pairs: Seq<(Seq<char>, TomlV)>,
    i: int,
    x: (Seq<char>, TomlV),
    key: Seq<char>,
)
    requires
        0 <= i <= pairs.len(),
        forall|k: int| i <= k < pairs.len() ==> (#[trigger] pairs[k]).0 != x.0,
    ensures
        under(pairs.insert(i, x), key) == under(pairs.push(x), key),
{
    let same = |p: (Seq<char>, TomlV)| p.0 == key;
    let (a, b) = (pairs.take(i), pairs.skip(i));
    assert(pairs.insert(i, x) =~= a.push(x) + b);
    assert(pairs =~= a + b);
    Seq::filter_distributes_over_add(a.push(x), b, same);
    Seq::filter_distributes_over_add(a, b, same);
    lemma_push_under(a, x, key);
    lemma_push_under(pairs, x, key);
    if x.0 == key {
        assert forall|k: int| 0 <= k < b.len() implies (#[trigger] b[k]).0 != key by {
            assert(b[k] == pairs[i + k]);
        }
        lemma_none_under(b, key);
    }
    assert(under(pairs.insert(i, x), key) =~= under(pairs.push(x), key));
}

fn insert_by_key(out: &mut Vec<(String, toml::Value)>, pair: (String, toml::Value))
    requires
        by_key(entries_view(old(out)@)),
    ensures
        by_key(entries_view(final(out)@)),
        entries_view(final(out)@).to_multiset() == entries_view(old(out)@).to_multiset().insert(
            (pair.0@, toml_content(pair.1)),
        ),
        forall|key: Seq<char>| #[trigger]
            under(entries_view(final(out)@), key) == under(
                entries_view(old(out)@).push((pair.0@, toml_content(pair.1))),
                key,
            ),
{
    let ghost had = entries_view(out@);
    let ghost x = (pair.0@, toml_content(pair.1));
    let mut i: usize = out.len();
    while i > 0 && text::text_before(pair.0.as_str(), out[i - 1].0.as_str())
        invariant
            i <= out.len(),
            had == entries_view(out@),
            x.0 == pair.0@,
            forall|k: int| i <= k < had.len() ==> text::text_lt(x.0, (#[trigger] had[k]).0),
        decreases i,
    {
        i -= 1;
    }
    proof {
        if i > 0 {
            assert(!text::text_lt(x.0, had[i - 1].0));
        }
        assert forall|k: int| 0 <= k < i implies !text::text_lt(x.0, (#[trigger] had[k]).0) by {
            if k < i - 1 {
                assert(!text::text_lt(had[i - 1].0, had[k].0));
                if text::text_lt(x.0, had[k].0) {
                    text::text_lt_total(had[k].0, had[i - 1].0);
                    if text::text_lt(had[k].0, had[i - 1].0) {
                        text::text_lt_transitive(x.0, had[k].0, had[i - 1].0);
                    }
                }
            }
        }
    }
    out.insert(i, pair);
    proof {
        let now = entries_view(out@);
        assert(now =~= had.insert(i as int, x));
        assert forall|a: int, b: int| 0 <= a < b < now.len() implies !(#[trigger] text::text_lt(
            now[b].0,
            now[a].0,
        )) by {
            let old_a = if a < i { a } else { a - 1 };
            let old_b = if b < i { b } else { b - 1 };
            if a == i {
                assert(text::text_lt(x.0, had[old_b].0));
                if text::text_lt(had[old_b].0, x.0) {
                    text::text_lt_asymmetric(x.0, had[old_b].0);
                }
            } else if b == i {
                assert(!text::text_lt(x.0, had[old_a].0));
            } else {
                assert(!text::text_lt(had[old_b].0, had[old_a].0));
            }
        }
        vstd::seq_lib::to_multiset_insert(had, i as int, x);
        assert forall|k: int| i <= k < had.len() implies (#[trigger] had[k]).0 != x.0 by {
            text::text_lt_irreflexive(x.0);
        }
        assert forall|key: Seq<char>| #[trigger] under(now, key) == under(had.push(x), key) by {
            lemma_insert_under(had, i as int, x, key);
        }
    }
}

/// Every value of the configuration that is no table, by dotted key.
pub fn list(root: toml::Value) -> (r: Vec<(String, toml::Value)>)
    ensures
        sorted_by_key(entries_view(r@), flattened(Seq::empty(), toml_content(root))),
{
    let mut pairs: Vec<(String, toml::Value)> = Vec::new();
    assert(entries_view(pairs@) =~= Seq::empty());
    let ghost all = flattened(Seq::empty(), toml_content(root));
    let none = String::new();
    assert(none@ =~= Seq::<char>::empty());
    flatten(none.as_str(), root, &mut pairs);
    assert(entries_view(pairs@) =~= all);
    let mut left = json::reversed(pairs);
    let mut out: Vec<(String, toml::Value)> = Vec::new();
    let n = left.len();
    let mut i: usize = 0;
    assert(all.take(0) =~= Seq::empty());
    assert(entries_view(out@) =~= Seq::empty());
    while i < n
        invariant
            i <= n,
            n == all.len(),
            left.len() == n - i,
            forall|k: int|
                0 <= k < left.len() ==> all[n - 1 - k] == (
                    (#[trigger] left@[k]).0@,
                    toml_content(left@[k].1),
                ),
            sorted_by_key(entries_view(out@), all.take(i as int)),
        decreases n - i,
    {
        let ghost last = left@[left.len() - 1];
        assert(all[i as int] == (last.0@, toml_content(last.1)));
        let ghost had = entries_view(out@);
        let pair = left.pop().unwrap();
        insert_by_key(&mut out, pair);
        proof {
            let shorter = all.take(i as int);
            let x = all[i as int];
            assert(all.take(i as int + 1) =~= shorter.push(x));
            shorter.to_multiset_ensures();
            assert forall|key: Seq<char>| #[trigger] under(entries_view(out@), key) == under(
                all.take(i as int + 1),
                key,
            ) by {
                lemma_push_under(had, x, key);
                lemma_push_under(shorter, x, key);
                assert(under(had, key) == under(shorter, key));
            }
        }
        i += 1;
    }
    assert(all.take(all.len() as int) =~= all);
    out
}

/// A value as it is shown: a string bare, anything else as TOML. A value that
/// holds a date there is not cannot be shown.
pub open spec fn shown(v: TomlV) -> Option<Seq<char>> {
    match v {
        TomlV::Text(s) => Some(s),
        _ => if writable(v) {
            toml_shown(v)
        } else {
            None
        },
    }
}

/// A value as it is shown.
pub fn show_config_value(v: &toml::Value) -> (r: String)
    requires
        shown(toml_content(*v)) is Some,
    ensures
        Some(r@) == shown(toml_content(*v)),
{
    match open_toml(v) {
        TomlShape::Text(s) => s,
        _ => toml_text(v).unwrap(),
    }
}

/// A value as it is shown, if it can be.
pub fn shown_value(v: &toml::Value) -> (r: Option<String>)
    ensures
        r.deep_view() == shown(toml_content(*v)),
{
    let can = match open_toml(v) {
        TomlShape::Text(_) => true,
        _ => is_writable(v) && toml_text(v).is_some(),
    };
    if can {
        Some(show_config_value(v))
    } else {
        None
    }
}

/// What a check of the configuration found: how many tasks it was held against,
/// what does not conform to the schemas, and the warnings of the read.
pub struct ValidateReport {
    pub task_count: usize,
    pub nonconformance: Vec<String>,
    pub read_warnings: Vec<Warning>,
}

/// Holds the configuration against the tasks there are. Tasks that do not
/// conform to their schema are reported, not refused.
pub fn validate(store: &Store, schema: &SchemaReading) -> (r: Result<ValidateReport, String>)
    ensures
        ({
            let s = store.shown(*schema);
            let problems = config::struct_problems(store.config) + config::graph_problems(
                store.config,
                s,
            );
            match r {
                Ok(o) => {
                    &&& problems.len() == 0
                    &&& o.task_count == s.dom().len()
                    &&& o.nonconformance.deep_view() == schema.report.deep_view()
                    &&& o.read_warnings.deep_view() == store.warned(*schema)
                },
                Err(m) => problems.len() > 0 && m@ == config::failure_message(problems),
            }
        }),
{
    let session = read::read(store, schema);
    match store.config.validate_against(&session.state) {
        Ok(_) => {
            let n = session.state.len();
            proof {
                let keys = session.state.keys_view();
                crate::strmap::lemma_ascending_distinct(keys);
                keys.unique_seq_to_set();
            }
            Ok(
                ValidateReport {
                    task_count: n,
                    nonconformance: schema.report.copy(),
                    read_warnings: session.warnings,
                },
            )
        },
        Err(m) => Err(m),
    }
}

/// The line for a configuration that is in order.
pub open spec fn validated_text(tasks: nat, nonconforming: nat) -> Seq<char> {
    if nonconforming == 0 {
        "Config OK ("@ + text::decimal(tasks) + " task(s) checked)."@
    } else {
        "Config OK ("@ + text::decimal(tasks) + " task(s) checked; "@ + text::decimal(nonconforming)
            + " not conforming to their task-type schema - writes to those tasks must bring them into conformance)."@
    }
}

/// The line for a configuration that is in order.
pub fn validated(report: &ValidateReport) -> (r: String)
    ensures
        r@ == validated_text(report.task_count as nat, report.nonconformance.len() as nat),
{
    let tasks = text::decimal_text(report.task_count as u64);
    if report.nonconformance.len() == 0 {
        text::cat3("Config OK (", tasks.as_str(), " task(s) checked).")
    } else {
        text::cat5(
            "Config OK (",
            tasks.as_str(),
            " task(s) checked; ",
            text::decimal_text(report.nonconformance.len() as u64).as_str(),
            " not conforming to their task-type schema - writes to those tasks must bring them into conformance).",
        )
    }
}

/// A document of the `toml_edit` crate, with its comments and its layout.
#[verifier::external_type_specification]
#[verifier::external_body]
pub struct ExDocument(toml_edit::DocumentMut);

/// Anything that stands under a key of such a document.
#[verifier::external_type_specification]
#[verifier::external_body]
pub struct ExItem(toml_edit::Item);

/// A value of such a document.
#[verifier::external_type_specification]
#[verifier::external_body]
pub struct ExValue(toml_edit::Value);

/// The blanks and comments around a value of such a document.
#[verifier::external_type_specification]
#[verifier::external_body]
pub struct ExDecor(toml_edit::Decor);

/// The blanks and comments before and after a value; `None` where they are left
/// to the writer.
pub struct AroundV {
    pub before: Option<Seq<char>>,
    pub after: Option<Seq<char>>,
}

/// Nothing but what the writer puts around a value.
pub open spec fn plain_around() -> AroundV {
    AroundV { before: None, after: None }
}

/// All there is to a table but what stands under its keys: its notation and
/// place, and its keys in order, with their spelling and the comments and blanks
/// around them.
pub type FrameV = Seq<char>;

/// What stands somewhere in a document: nothing, a table by key, or anything
/// else by its text. What surrounds a value is kept for values only, an inline
/// table among them.
pub enum DocV {
    Absent,
    Leaf(Seq<char>, Option<AroundV>),
    Table(Map<Seq<char>, DocV>, FrameV, Option<AroundV>),
}

/// A document: its root, and the blanks and comments behind everything else.
pub struct FileV {
    pub root: DocV,
    pub tail: Seq<char>,
}

/// Whether the root of a document is a table of sections, as that of a file is,
/// and no inline table.
pub open spec fn sectioned(f: FileV) -> bool {
    f.root is Table && f.root->Table_2 is None
}

/// What surrounds a value; a table in a section of its own is no value.
pub open spec fn around_of(d: DocV) -> Option<AroundV> {
    match d {
        DocV::Absent => None,
        DocV::Leaf(_, a) => a,
        DocV::Table(_, _, a) => a,
    }
}

/// A value with something else around it.
pub open spec fn with_around(d: DocV, a: AroundV) -> DocV {
    match d {
        DocV::Absent => DocV::Absent,
        DocV::Leaf(t, _) => DocV::Leaf(t, Some(a)),
        DocV::Table(m, f, _) => DocV::Table(m, f, Some(a)),
    }
}

/// What a document holds.
pub uninterp spec fn doc_content(d: toml_edit::DocumentMut) -> FileV;

/// What an item of a document holds.
pub uninterp spec fn item_content(i: toml_edit::Item) -> DocV;

/// What a value holds.
pub uninterp spec fn value_content(v: toml_edit::Value) -> DocV;

/// What the surroundings of a value hold.
pub uninterp spec fn decor_content(d: toml_edit::Decor) -> AroundV;

/// The text of a document.
pub uninterp spec fn doc_text(f: FileV) -> Seq<char>;

/// The text of a value, with what surrounds it.
pub uninterp spec fn value_text(v: DocV) -> Seq<char>;

/// What the `toml_edit` crate reads from a text, or the message of its error.
pub uninterp spec fn document_read(t: Seq<char>) -> Result<FileV, Seq<char>>;

/// The TOML text of a string.
pub uninterp spec fn toml_string(t: Seq<char>) -> Seq<char>;

/// A table's frame once it got a key that it did not have.
pub uninterp spec fn frame_with(f: FrameV, key: Seq<char>) -> FrameV;

/// The frame of a table that was just made, inline or in a section of its own.
pub uninterp spec fn fresh_frame(inline: bool) -> FrameV;

/// `toml_edit::DocumentMut::from_str`. What it reads depends on the text alone,
/// and the root of what it reads is a table of sections.
#[verifier::external_body]
fn read_document(t: &str) -> (r: Result<toml_edit::DocumentMut, String>)
    ensures
        match r {
            Ok(d) => document_read(t@) == Ok::<FileV, Seq<char>>(doc_content(d)) && sectioned(
                doc_content(d),
            ),
            Err(e) => document_read(t@) == Err::<FileV, Seq<char>>(e@),
        },
{
    let read: Result<toml_edit::DocumentMut, toml_edit::TomlError> = t.parse();
    read.map_err(|e| e.to_string())
}

/// `toml_edit::DocumentMut::to_string`. The text is written from what the
/// document holds, layout included, and from nothing else. A document that was
/// read, with a word set in it, holds no date that cannot be written.
#[verifier::external_body]
fn write_document(d: &toml_edit::DocumentMut) -> (r: String)
    requires
        sectioned(doc_content(*d)),
        edited(doc_content(*d)),
    ensures
        r@ == doc_text(doc_content(*d)),
{
    d.to_string()
}

/// `toml_edit::DocumentMut::as_item_mut`: what is done to the root is done to
/// the document, and the end of the document stays.
#[verifier::external_body]
fn root_of<'a>(d: &'a mut toml_edit::DocumentMut) -> (r: &'a mut toml_edit::Item)
    ensures
        item_content(*r) == doc_content(*old(d)).root,
        doc_content(*final(d)) == (FileV {
            root: item_content(*final(r)),
            tail: doc_content(*old(d)).tail,
        }),
{
    d.as_item_mut()
}

/// `toml_edit::TableLike::get`: whether a table has something under a key.
#[verifier::external_body]
fn has_key(i: &toml_edit::Item, key: &str) -> (r: bool)
    requires
        item_content(*i) is Table,
    ensures
        r == item_content(*i)->Table_0.contains_key(key@),
{
    i.as_table_like().is_some_and(|t| t.get(key).is_some())
}

/// `toml_edit::Item::is_table_like` of what stands under a key: tables in either
/// notation are tables.
#[verifier::external_body]
fn has_table(i: &toml_edit::Item, key: &str) -> (r: bool)
    requires
        item_content(*i) is Table,
        item_content(*i)->Table_0.contains_key(key@),
    ensures
        r == (item_content(*i)->Table_0[key@] is Table),
{
    i.as_table_like().and_then(|t| t.get(key)).is_some_and(toml_edit::Item::is_table_like)
}

/// `toml_edit::TableLike::get_mut`: what stands under a key; what is done to it
/// is done to the table, so long as it is not taken away. The frame of the table
/// stays, and so does what surrounds it.
#[verifier::external_body]
fn child<'a>(i: &'a mut toml_edit::Item, key: &str) -> (r: &'a mut toml_edit::Item)
    requires
        item_content(*old(i)) is Table,
        item_content(*old(i))->Table_0.contains_key(key@),
    ensures
        item_content(*r) == item_content(*old(i))->Table_0[key@],
        item_content(*final(r)) !is Absent ==> item_content(*final(i)) == DocV::Table(
            item_content(*old(i))->Table_0.insert(key@, item_content(*final(r))),
            item_content(*old(i))->Table_1,
            item_content(*old(i))->Table_2,
        ),
{
    i.as_table_like_mut().and_then(|t| t.get_mut(key)).expect("the key is there")
}

/// `toml_edit::TableLike::insert` of an empty table under a new key. An inline
/// table makes an inline one of it.
#[verifier::external_body]
fn add_table(i: &mut toml_edit::Item, key: &str)
    requires
        item_content(*old(i)) is Table,
        !item_content(*old(i))->Table_0.contains_key(key@),
    ensures
        ({
            let (t, inline) = (item_content(*old(i)), item_content(*old(i))->Table_2 is Some);
            let around = if inline {
                Some(plain_around())
            } else {
                None
            };
            let table = DocV::Table(Map::empty(), fresh_frame(inline), around);
            item_content(*final(i)) == DocV::Table(
                t->Table_0.insert(key@, table),
                frame_with(t->Table_1, key@),
                t->Table_2,
            )
        }),
{
    let table = toml_edit::Item::Table(toml_edit::Table::new());
    i.as_table_like_mut().map(|t| t.insert(key, table));
}

/// `toml_edit::TableLike::insert` of a value under a new key.
#[verifier::external_body]
fn add_value(i: &mut toml_edit::Item, key: &str, v: toml_edit::Value)
    requires
        item_content(*old(i)) is Table,
        !item_content(*old(i))->Table_0.contains_key(key@),
    ensures
        item_content(*final(i)) == DocV::Table(
            item_content(*old(i))->Table_0.insert(key@, value_content(v)),
            frame_with(item_content(*old(i))->Table_1, key@),
            item_content(*old(i))->Table_2,
        ),
{
    i.as_table_like_mut().map(|t| t.insert(key, toml_edit::Item::Value(v)));
}

/// `toml_edit::Item::as_value` and `toml_edit::Value::decor`: what surrounds an
/// item that is a value.
#[verifier::external_body]
fn decor_of(i: &toml_edit::Item) -> (r: Option<toml_edit::Decor>)
    ensures
        match r {
            Some(d) => around_of(item_content(*i)) == Some(decor_content(d)),
            None => around_of(item_content(*i)) is None,
        },
{
    i.as_value().map(|v| v.decor().clone())
}

/// `toml_edit::Value::decor_mut`: puts something else around a value.
#[verifier::external_body]
fn decorate(v: &mut toml_edit::Value, d: toml_edit::Decor)
    ensures
        value_content(*final(v)) == with_around(value_content(*old(v)), decor_content(d)),
{
    *v.decor_mut() = d;
}

/// Makes an item the variant `toml_edit::Item::Value`.
#[verifier::external_body]
fn put_item(i: &mut toml_edit::Item, v: toml_edit::Value)
    ensures
        item_content(*final(i)) == value_content(v),
        item_content(*final(i)) !is Absent,
{
    *i = toml_edit::Item::Value(v);
}

/// `toml_edit::Table::get` and `toml_edit::Item::as_value`: the value under a key
/// of a document's root, if what stands there is one.
#[verifier::external_body]
fn value_under(d: &toml_edit::DocumentMut, key: &str) -> (r: Option<toml_edit::Value>)
    requires
        sectioned(doc_content(*d)),
    ensures
        match r {
            Some(v) => value_at(doc_content(*d).root, key@) == Some(value_content(v)),
            None => value_at(doc_content(*d).root, key@) is None,
        },
{
    d.get(key).and_then(toml_edit::Item::as_value).cloned()
}

/// `toml_edit::Value::from` of a string.
#[verifier::external_body]
fn string_value(raw: &str) -> (r: toml_edit::Value)
    ensures
        value_content(r) == DocV::Leaf(toml_string(raw@), Some(plain_around())),
{
    toml_edit::Value::from(raw.to_string())
}

/// `toml_edit::Value::to_string`. The text is written from what the value holds,
/// what surrounds it included, and from nothing else. The value of a word holds
/// no date that cannot be written.
#[verifier::external_body]
fn write_value(v: &toml_edit::Value) -> (r: String)
    requires
        of_a_word(value_content(*v)),
    ensures
        r@ == value_text(value_content(*v)),
{
    v.to_string()
}

/// A table that was just made.
pub open spec fn fresh_table(inline: bool) -> DocV {
    DocV::Table(
        Map::empty(),
        fresh_frame(inline),
        if inline {
            Some(plain_around())
        } else {
            None
        },
    )
}

/// A table once it got a key that it did not have.
pub open spec fn with_entry(t: DocV, key: Seq<char>, d: DocV) -> DocV {
    DocV::Table(t->Table_0.insert(key, d), frame_with(t->Table_1, key), t->Table_2)
}

/// The value under a key of a table, if what stands there is one.
pub open spec fn value_at(t: DocV, key: Seq<char>) -> Option<DocV> {
    if t->Table_0.contains_key(key) && around_of(t->Table_0[key]) is Some {
        Some(t->Table_0[key])
    } else {
        None
    }
}

/// The value a text is in TOML, if it is one: what is read of it behind a key.
pub open spec fn value_read(t: Seq<char>) -> Option<DocV> {
    match document_read("__x__ = "@ + t) {
        Ok(f) => value_at(f.root, "__x__"@),
        Err(_) => None,
    }
}

fn read_value(raw: &str) -> (r: Option<toml_edit::Value>)
    ensures
        match r {
            Some(v) => value_read(raw@) == Some(value_content(v)),
            None => value_read(raw@) is None,
        },
{
    match read_document(text::cat2("__x__ = ", raw).as_str()) {
        Ok(d) => value_under(&d, "__x__"),
        Err(_) => None,
    }
}

/// A value in the place of another item, with what surrounded that one where it
/// was a value.
pub open spec fn replaced(was: DocV, v: DocV) -> DocV {
    match around_of(was) {
        Some(a) => with_around(v, a),
        None => v,
    }
}

/// Puts a value in the place of an item, with what surrounded the old value.
fn put_value(i: &mut toml_edit::Item, v: toml_edit::Value)
    ensures
        item_content(*final(i)) == replaced(item_content(*old(i)), value_content(v)),
        item_content(*final(i)) !is Absent,
{
    let mut v = v;
    match decor_of(i) {
        Some(d) => {
            decorate(&mut v, d);
        },
        None => {},
    }
    put_item(i, v);
}

/// The value of a word: what it is in TOML, else the string that it is.
pub open spec fn word_value(raw: Seq<char>) -> DocV {
    match value_read(raw) {
        Some(v) => v,
        None => DocV::Leaf(toml_string(raw), Some(plain_around())),
    }
}

/// Whether a value is that of a word.
pub open spec fn of_a_word(v: DocV) -> bool {
    exists|raw: Seq<char>| v == #[trigger] word_value(raw)
}

/// The value of a word.
pub fn parse_config_value(raw: &str) -> (r: toml_edit::Value)
    ensures
        value_content(r) == word_value(raw@),
{
    match read_value(raw) {
        Some(v) => v,
        None => string_value(raw),
    }
}

/// A table with a value set under a path of keys: missing tables are made on the
/// way, and a key on the way that is no table is named. A value that is replaced
/// leaves its surroundings to the new one.
pub open spec fn set_under(t: DocV, path: Seq<Seq<char>>, v: DocV) -> Result<DocV, Seq<char>>
    decreases path.len(),
{
    if path.len() == 0 {
        Ok(t)
    } else {
        let key = path[0];
        let there = t->Table_0.contains_key(key);
        if path.len() == 1 {
            if there {
                Ok(with_item(t, key, replaced(t->Table_0[key], v)))
            } else {
                Ok(with_entry(t, key, v))
            }
        } else {
            let on = if there {
                t
            } else {
                with_entry(t, key, fresh_table(t->Table_2 is Some))
            };
            match on->Table_0[key] {
                DocV::Table(_, _, _) => match set_under(on->Table_0[key], path.drop_first(), v) {
                    Ok(n) => Ok(with_item(on, key, n)),
                    Err(k) => Err(k),
                },
                _ => Err(key),
            }
        }
    }
}

/// A table with something else under a key that it has.
pub open spec fn with_item(t: DocV, key: Seq<char>, d: DocV) -> DocV {
    DocV::Table(t->Table_0.insert(key, d), t->Table_1, t->Table_2)
}

proof fn lemma_fresh_path(inline: bool, path: Seq<Seq<char>>, v: DocV)
    ensures
        set_under(fresh_table(inline), path, v) is Ok,
    decreases path.len(),
{
    if path.len() > 1 {
        lemma_fresh_path(inline, path.drop_first(), v);
    }
}

/// What stands under a path of keys of a document, with its layout.
pub open spec fn doc_at(t: DocV, path: Seq<Seq<char>>) -> Option<DocV>
    decreases path.len(),
{
    if path.len() == 0 {
        Some(t)
    } else {
        match t {
            DocV::Table(m, _, _) => if m.contains_key(path[0]) {
                doc_at(m[path[0]], path.drop_first())
            } else {
                None
            },
            _ => None,
        }
    }
}

/// The frames of the tables that stand on a path of keys, and what surrounds
/// them and the value at its end.
pub open spec fn layout_along(t: DocV, path: Seq<Seq<char>>) -> Seq<
    (Option<FrameV>, Option<AroundV>),
>
    decreases path.len(),
{
    let here = match t {
        DocV::Table(_, f, a) => (if path.len() > 0 {
            Some(f)
        } else {
            None
        }, a),
        _ => (None, around_of(t)),
    };
    if path.len() > 0 && t is Table && t->Table_0.contains_key(path[0]) {
        seq![here] + layout_along(t->Table_0[path[0]], path.drop_first())
    } else {
        seq![here]
    }
}

/// A value that was set is what then stands under its key, with what surrounded
/// the value before it.
pub proof fn set_is_read_back(t: DocV, path: Seq<Seq<char>>, v: DocV)
    requires
        t is Table,
        path.len() > 0,
    ensures
        set_under(t, path, v) matches Ok(m) ==> m is Table && doc_at(m, path) == Some(
            match doc_at(t, path) {
                Some(was) => replaced(was, v),
                None => v,
            },
        ),
    decreases path.len(),
{
    reveal_with_fuel(doc_at, 2);
    let key = path[0];
    if path.len() > 1 {
        let on = if t->Table_0.contains_key(key) {
            t
        } else {
            with_entry(t, key, fresh_table(t->Table_2 is Some))
        };
        if on->Table_0[key] is Table {
            set_is_read_back(on->Table_0[key], path.drop_first(), v);
        }
    }
}

/// Setting a value leaves every other key as it was, with its layout: each that
/// is neither above nor below the one that is set.
pub proof fn set_keeps_the_rest(
    t: DocV,
    path: Seq<Seq<char>>,
    other: Seq<Seq<char>>,
    v: DocV,
)
    requires
        t is Table,
        !path.is_prefix_of(other),
        !other.is_prefix_of(path),
    ensures
        set_under(t, path, v) matches Ok(m) ==> doc_at(m, other) == doc_at(t, other),
    decreases path.len(),
{
    if path.len() == 0 {
        assert(path.is_prefix_of(other));
    } else if other.len() == 0 {
        assert(other.is_prefix_of(path));
    } else if path[0] == other[0] {
        let key = path[0];
        let p = path.drop_first();
        let o = other.drop_first();
        if p.is_prefix_of(o) {
            assert(path =~= other.take(path.len() as int)) by {
                assert(p =~= o.take(p.len() as int));
                assert forall|i: int| 0 <= i < path.len() implies path[i] == other[i] by {
                    if i > 0 {
                        assert(p[i - 1] == o[i - 1]);
                    }
                }
            }
        }
        if o.is_prefix_of(p) {
            assert(other =~= path.take(other.len() as int)) by {
                assert forall|i: int| 0 <= i < other.len() implies path[i] == other[i] by {
                    if i > 0 {
                        assert(p[i - 1] == o[i - 1]);
                    }
                }
            }
        }
        if p.len() == 0 {
            assert(p.is_prefix_of(o));
        }
        if o.len() == 0 {
            assert(o.is_prefix_of(p));
        }
        let on = if t->Table_0.contains_key(key) {
            t
        } else {
            with_entry(t, key, fresh_table(t->Table_2 is Some))
        };
        if on->Table_0[key] is Table {
            set_keeps_the_rest(on->Table_0[key], p, o, v);
        }
    }
}

/// Setting a key that is there keeps the layout: the frames of the tables on the
/// way, with the comments at their keys, and what surrounds the value.
pub proof fn set_keeps_the_layout(t: DocV, path: Seq<Seq<char>>, v: DocV)
    requires
        t is Table,
        path.len() > 0,
        around_of(v) is Some,
        doc_at(t, path) matches Some(was) && around_of(was) is Some,
    ensures
        set_under(t, path, v) matches Ok(m) && layout_along(m, path) == layout_along(t, path),
    decreases path.len(),
{
    reveal_with_fuel(doc_at, 2);
    reveal_with_fuel(layout_along, 2);
    let key = path[0];
    let rest = path.drop_first();
    if path.len() > 1 {
        set_keeps_the_layout(t->Table_0[key], rest, v);
    }
}

fn set_at(
    i: &mut toml_edit::Item,
    path: &Vec<String>,
    from: usize,
    v: toml_edit::Value,
) -> (r: Result<
    (),
    String,
>)
    requires
        item_content(*old(i)) is Table,
        from < path.len(),
    ensures
        match set_under(
            item_content(*old(i)),
            path.deep_view().skip(from as int),
            value_content(v),
        ) {
            Ok(m) => r is Ok && item_content(*final(i)) == m && m is Table,
            Err(k) => r matches Err(e) && e@ == "config key `"@ + k + "` is not a table"@
                && item_content(*final(i)) == item_content(*old(i)),
        },
    decreases path.len() - from,
{
    let ghost t = item_content(*i);
    let ghost rest = path.deep_view().skip(from as int);
    let key = path[from].as_str();
    assert(rest[0] == key@);
    assert(rest.drop_first() =~= path.deep_view().skip(from as int + 1));
    if from + 1 == path.len() {
        if has_key(i, key) {
            put_value(child(i, key), v);
        } else {
            add_value(i, key, v);
        }
        return Ok(());
    }
    let fresh = !has_key(i, key);
    if fresh {
        add_table(i, key);
        proof {
            lemma_fresh_path(t->Table_2 is Some, rest.drop_first(), value_content(v));
        }
    }
    if !has_table(i, key) {
        return Err(text::cat3("config key `", key, "` is not a table"));
    }
    let done = set_at(child(i, key), path, from + 1, v);
    proof {
        if !fresh {
            assert(t->Table_0.insert(key@, t->Table_0[key@]) =~= t->Table_0);
        }
    }
    done
}

/// A document with a value set under a dotted key, or why it cannot be: a part
/// of the key is empty, or a part on the way is no table.
pub open spec fn set_in(f: FileV, key: Seq<char>, v: DocV) -> Result<FileV, Seq<char>> {
    let path = text::split_at(key, '.');
    if exists|i: int| 0 <= i < path.len() && (#[trigger] path[i]).len() == 0 {
        Err("invalid config key `"@ + key + "`"@)
    } else {
        match set_under(f.root, path, v) {
            Ok(root) => Ok(FileV { root, ..f }),
            Err(k) => Err("config key `"@ + k + "` is not a table"@),
        }
    }
}

/// Whether a document is one that was read, with a word set in it.
pub open spec fn edited(f: FileV) -> bool {
    exists|t: Seq<char>, key: Seq<char>, raw: Seq<char>| #[trigger] edits_to(t, key, raw, f)
}

/// Whether setting a word under a dotted key of what `t` holds gives a document.
pub open spec fn edits_to(t: Seq<char>, key: Seq<char>, raw: Seq<char>, f: FileV) -> bool {
    document_read(t) matches Ok(was) && set_in(was, key, word_value(raw)) == Ok::<
        FileV,
        Seq<char>,
    >(f)
}

/// Sets a value under a dotted key and leaves the rest of the document as it is,
/// its comments and its layout included.
pub fn set_dotted(
    doc: &mut toml_edit::DocumentMut,
    key: &str,
    value: toml_edit::Value,
) -> (r: Result<
    (),
    String,
>)
    requires
        sectioned(doc_content(*old(doc))),
    ensures
        match set_in(doc_content(*old(doc)), key@, value_content(value)) {
            Ok(d) => r is Ok && doc_content(*final(doc)) == d,
            Err(m) => r matches Err(e) && e@ == m && doc_content(*final(doc)) == doc_content(
                *old(doc),
            ),
        },
        sectioned(doc_content(*final(doc))),
{
    let path = text::split(key, '.');
    let ghost parts = path.deep_view();
    let mut i: usize = 0;
    while i < path.len()
        invariant
            i <= path.len(),
            parts == path.deep_view(),
            parts == text::split_at(key@, '.'),
            forall|k: int| 0 <= k < i ==> (#[trigger] parts[k]).len() > 0,
            doc_content(*doc) == doc_content(*old(doc)),
            sectioned(doc_content(*doc)),
        decreases path.len() - i,
    {
        assert(parts[i as int] == path@[i as int]@);
        if text::is_blank(path[i].as_str()) {
            assert(parts[i as int].len() == 0);
            return Err(text::cat3("invalid config key `", key, "`"));
        }
        i += 1;
    }
    assert(parts.skip(0) =~= parts);
    set_at(root_of(doc), &path, 0, value)
}

/// What setting a word under a dotted key of a configuration file gives: the new
/// file and the value as it was written, or why it cannot be set.
pub open spec fn set_result(existing: Seq<char>, key: Seq<char>, raw: Seq<char>) -> Result<
    (Seq<char>, Seq<char>),
    Seq<char>,
> {
    match document_read(existing) {
        Ok(f) => match set_in(f, key, word_value(raw)) {
            Ok(now) => Ok((doc_text(now), text::trimmed(value_text(word_value(raw))))),
            Err(m) => Err(m),
        },
        Err(m) => Err(m),
    }
}

/// Sets a word under a dotted key of a configuration file: gives the new file
/// and the value as it was written.
pub fn set(existing: &str, key: &str, raw: &str) -> (r: Result<(String, String), String>)
    ensures
        match r {
            Ok(w) => set_result(existing@, key@, raw@) == Ok::<(Seq<char>, Seq<char>), Seq<char>>(
                (w.0@, w.1@),
            ),
            Err(e) => set_result(existing@, key@, raw@) == Err::<
                (Seq<char>, Seq<char>),
                Seq<char>,
            >(e@),
        },
{
    let mut doc = match read_document(existing) {
        Ok(d) => d,
        Err(e) => {
            return Err(e);
        },
    };
    let value = parse_config_value(raw);
    let shown = text::trim(write_value(&value).as_str());
    match set_dotted(&mut doc, key, value) {
        Ok(_) => {
            assert(edits_to(existing@, key@, raw@, doc_content(doc)));
            Ok((write_document(&doc), shown))
        },
        Err(m) => Err(m),
    }
}

proof fn lemma_entry_place(entries: Seq<(Seq<char>, TomlV)>, n: int)
    requires
        0 <= n < entries.len(),
        forall|i: int| 0 <= i < n ==> (#[trigger] entries[i]).0 != entries[n].0,
    ensures
        entry_place(entries, entries[n].0) == Some(n),
    decreases entries.len(),
{
    let rest = entries.drop_last();
    let key = entries[n].0;
    if n < rest.len() {
        assert forall|i: int| 0 <= i < n implies (#[trigger] rest[i]).0 != rest[n].0 by {
            assert(entries[i].0 != entries[n].0);
        }
        lemma_entry_place(rest, n);
    } else {
        assert forall|i: int| 0 <= i < rest.len() implies (#[trigger] rest[i]).0 != key by {
            assert(entries[i].0 != entries[n].0);
        }
        lemma_no_entry(rest, key);
    }
}

proof fn lemma_no_entry(entries: Seq<(Seq<char>, TomlV)>, key: Seq<char>)
    requires
        forall|i: int| 0 <= i < entries.len() ==> (#[trigger] entries[i]).0 != key,
    ensures
        entry_place(entries, key) is None,
    decreases entries.len(),
{
    if entries.len() > 0 {
        let rest = entries.drop_last();
        assert forall|i: int| 0 <= i < rest.len() implies (#[trigger] rest[i]).0 != key by {
            assert(entries[i].0 != key);
        }
        lemma_no_entry(rest, key);
    }
}

/// A key leads through tables: its first part names an entry of the table, and
/// the rest is looked up there. A part that names no entry leads nowhere, and so
/// does any part in a value that is no table.
pub proof fn keys_lead_through_tables(
    entries: Seq<(Seq<char>, TomlV)>,
    n: int,
    path: Seq<Seq<char>>,
    v: TomlV,
    key: Seq<char>,
)
    requires
        0 <= n < entries.len(),
        forall|i: int| 0 <= i < n ==> (#[trigger] entries[i]).0 != entries[n].0,
    ensures
        looked_up(TomlV::Table(entries), seq![entries[n].0] + path) == looked_up(
            entries[n].1,
            path,
        ),
        looked_up(v, Seq::empty()) == Some(v),
        (forall|i: int| 0 <= i < entries.len() ==> (#[trigger] entries[i]).0 != key) ==> looked_up(
            TomlV::Table(entries),
            seq![key] + path,
        ) is None,
        !(v is Table) ==> looked_up(v, seq![key] + path) is None,
{
    lemma_entry_place(entries, n);
    assert((seq![entries[n].0] + path).drop_first() =~= path);
    if forall|i: int| 0 <= i < entries.len() ==> (#[trigger] entries[i]).0 != key {
        lemma_no_entry(entries, key);
    }
}

/// The name that a listing gives to what stands at the end of a path: the parts
/// with dots between them.
pub open spec fn path_name(prefix: Seq<char>, path: Seq<Seq<char>>) -> Seq<char>
    decreases path.len(),
{
    if path.len() == 0 {
        prefix
    } else if prefix.len() == 0 {
        path_name(path[0], path.drop_first())
    } else {
        path_name(prefix + seq!['.'] + path[0], path.drop_first())
    }
}

proof fn lemma_entry_found(entries: Seq<(Seq<char>, TomlV)>, key: Seq<char>)
    ensures
        match entry_place(entries, key) {
            Some(n) => 0 <= n < entries.len() && entries[n].0 == key,
            None => true,
        },
    decreases entries.len(),
{
    if entries.len() > 0 {
        lemma_entry_found(entries.drop_last(), key);
    }
}

proof fn lemma_flat_part(
    prefix: Seq<char>,
    entries: Seq<(Seq<char>, TomlV)>,
    n: nat,
    i: int,
    x: (Seq<char>, TomlV),
)
    requires
        0 <= i < n <= entries.len(),
        flattened(dotted(prefix, entries[i].0), entries[i].1).contains(x),
    ensures
        flat_entries(prefix, entries, n).contains(x),
    decreases n,
{
    let head = flat_entries(prefix, entries, (n - 1) as nat);
    let tail = flattened(dotted(prefix, entries[n - 1].0), entries[n - 1].1);
    let all = head + tail;
    assert(flat_entries(prefix, entries, n) == all);
    if i < n - 1 {
        lemma_flat_part(prefix, entries, (n - 1) as nat, i, x);
        let k = choose|k: int| 0 <= k < head.len() && head[k] == x;
        assert(all[k] == x);
    } else {
        let k = choose|k: int| 0 <= k < tail.len() && tail[k] == x;
        assert(all[head.len() + k] == x);
    }
}

/// A listing shows every value that a key leads to, under the name of its path:
/// what is looked up and is no table is listed.
pub proof fn listings_show_every_value(v: TomlV, prefix: Seq<char>, path: Seq<Seq<char>>)
    requires
        looked_up(v, path) is Some,
        !(looked_up(v, path)->0 is Table),
    ensures
        flattened(prefix, v).contains((path_name(prefix, path), looked_up(v, path)->0)),
    decreases path.len(),
{
    reveal_strlit(".");
    assert("."@ =~= seq!['.']);
    if path.len() == 0 {
        let one = seq![(prefix, v)];
        assert(flattened(prefix, v) == one);
        assert(one[0] == (prefix, v));
        assert(one.contains((prefix, v)));
    } else {
        let entries = v->Table_0;
        lemma_entry_found(entries, path[0]);
        let n = entry_place(entries, path[0])->0;
        let under = dotted(prefix, path[0]);
        listings_show_every_value(entries[n].1, under, path.drop_first());
        lemma_flat_part(
            prefix,
            entries,
            entries.len(),
            n,
            (path_name(prefix, path), looked_up(v, path)->0),
        );
    }
}

/// A listing holds every value that a key leads to, under the name of its path,
/// in the order of the names.
pub proof fn listings_are_whole_and_sorted(
    root: toml::Value,
    r: Vec<(String, toml::Value)>,
    path: Seq<Seq<char>>,
    i: int,
    j: int,
)
    requires
        call_ensures(list, (root,), r),
        looked_up(toml_content(root), path) is Some,
        !(looked_up(toml_content(root), path)->0 is Table),
    ensures
        exists|k: int|
            0 <= k < r.len() && (#[trigger] r@[k]).0@ == path_name(Seq::empty(), path)
                && toml_content(r@[k].1) == looked_up(toml_content(root), path)->0,
        0 <= i < j < r.len() ==> !text::text_lt(r@[j].0@, r@[i].0@),
{
    broadcast use vstd::seq_lib::group_to_multiset_ensures;

    let flat = flattened(Seq::empty(), toml_content(root));
    let out = entries_view(r@);
    let x = (path_name(Seq::empty(), path), looked_up(toml_content(root), path)->0);
    listings_show_every_value(toml_content(root), Seq::empty(), path);
    assert(flat.to_multiset().count(x) > 0);
    assert(out.to_multiset().count(x) > 0);
    assert(out.contains(x));
    let k = choose|k: int| 0 <= k < out.len() && out[k] == x;
    assert(r@[k].0@ == x.0);
    if 0 <= i < j < r.len() {
        assert(!text::text_lt(out[j].0, out[i].0));
    }
}

/// A key with an empty part cannot be set; under any other, only what stands under
/// the root changes.
pub proof fn keys_have_no_empty_part(f: FileV, key: Seq<char>, v: DocV)
    ensures
        (exists|i: int|
            0 <= i < text::split_at(key, '.').len() && (#[trigger] text::split_at(
                key,
                '.',
            )[i]).len() == 0) ==> set_in(f, key, v) is Err,
        set_in(f, key, v) is Ok ==> set_under(f.root, text::split_at(key, '.'), v) == Ok::<
            DocV,
            Seq<char>,
        >(set_in(f, key, v)->Ok_0.root) && (FileV { root: f.root, ..set_in(f, key, v)->Ok_0 }) == f,
{
}

/// A sound configuration is reported with the number of tasks that were checked,
/// and of those that do not conform where there are any.
pub proof fn validations_count_tasks(tasks: nat, nonconforming: nat)
    ensures
        text::begins(
            validated_text(tasks, nonconforming),
            "Config OK ("@ + text::decimal(tasks) + " task(s) checked"@,
        ),
        nonconforming > 0 ==> text::begins(
            validated_text(tasks, nonconforming),
            "Config OK ("@ + text::decimal(tasks) + " task(s) checked"@ + "; "@ + text::decimal(
                nonconforming,
            ) + " not conforming"@,
        ),
{
    reveal_strlit(" task(s) checked).");
    reveal_strlit(" task(s) checked; ");
    reveal_strlit(" task(s) checked");
    reveal_strlit("; ");
    reveal_strlit(" not conforming");
    reveal_strlit(
        " not conforming to their task-type schema - writes to those tasks must bring them into conformance).",
    );
    let t = validated_text(tasks, nonconforming);
    let head = "Config OK ("@ + text::decimal(tasks) + " task(s) checked"@;
    assert(t.take(head.len() as int) =~= head);
    if nonconforming > 0 {
        let more = head + "; "@ + text::decimal(nonconforming) + " not conforming"@;
        assert(t.take(more.len() as int) =~= more);
    }
}

} // verus!
