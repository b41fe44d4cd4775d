//! The tasks that match a filter.

use crate::compensate;
use crate::config::{self, Config, RelationshipDef, TypesV};
use crate::engine;
use crate::graph;
use crate::json::{self, Json, JsonV};
use crate::model::{self, RelsV, StateV, TaskState, TaskV, DEPS_KEY, ID_KEY};
use crate::order;
use crate::pattern;
use crate::reach;
use crate::read::{self, SchemaReading, Warning};
use crate::store::Store;
use crate::strmap::{self, Data, StrMap, StrSet};
use crate::text::{self, Order};
use vstd::prelude::*;

verus! {

/// What a criterion does with a field's value: compare it for equality, match a
/// pattern, or order it.
#[derive(Clone, Copy, Debug, PartialEq, Eq, Structural)]
pub enum FilterOp {
    Eq,
    Ne,
    Re,
    NotRe,
    Gt,
    Ge,
    Lt,
    Le,
}

/// The operator that starts at place `i`, and its length.
pub open spec fn op_at(s: Seq<char>, i: int) -> Option<(FilterOp, nat)> {
    let next = if i + 1 < s.len() {
        Some(s[i + 1])
    } else {
        None
    };
    if s[i] == '=' {
        if next == Some('~') {
            Some((FilterOp::Re, 2))
        } else {
            Some((FilterOp::Eq, 1))
        }
    } else if s[i] == '>' {
        if next == Some('=') {
            Some((FilterOp::Ge, 2))
        } else {
            Some((FilterOp::Gt, 1))
        }
    } else if s[i] == '<' {
        if next == Some('=') {
            Some((FilterOp::Le, 2))
        } else {
            Some((FilterOp::Lt, 1))
        }
    } else if s[i] == '!' {
        if next == Some('=') {
            Some((FilterOp::Ne, 2))
        } else if next == Some('~') {
            Some((FilterOp::NotRe, 2))
        } else {
            None
        }
    } else {
        None
    }
}

/// The place of the first operator at or after `i`, or the length.
pub open spec fn first_op(s: Seq<char>, i: nat) -> nat
    decreases s.len() - i,
{
    if i >= s.len() || op_at(s, i as int) is Some {
        i
    } else {
        first_op(s, i + 1)
    }
}

/// The message about a criterion without a field.
pub open spec fn empty_field(raw: Seq<char>) -> Seq<char> {
    "invalid criterion `"@ + raw + "`: empty field name"@
}

/// The message about a criterion without an operator.
pub open spec fn no_operator(raw: Seq<char>) -> Seq<char> {
    "invalid criterion `"@ + raw + (if raw.contains('~') {
        "`: the regex match operator is `=~` (e.g. `field=~regex`), its negation `!~`; a bare `~` is not an operator"@
    } else {
        "`: expected field=value, field=~regex, field!=value, field!~regex, or a comparison (field>value, field>=value, field<value, field<=value)"@
    })
}

/// The parts of a criterion: it is split at its first operator.
pub open spec fn criterion_parts(raw: Seq<char>) -> Result<
    (Seq<char>, FilterOp, Seq<char>),
    Seq<char>,
> {
    let at = first_op(raw, 0) as int;
    if at >= raw.len() {
        Err(no_operator(raw))
    } else if at == 0 {
        Err(empty_field(raw))
    } else {
        let (op, len) = op_at(raw, at)->0;
        Ok((raw.take(at), op, raw.skip(at + len)))
    }
}

fn find_op(v: &Vec<char>, i: usize) -> (r: Option<(FilterOp, usize)>)
    requires
        i < v.len(),
    ensures
        match r {
            Some((op, len)) => op_at(v@, i as int) == Some((op, len as nat)) && 1 <= len && i + len
                <= v.len(),
            None => op_at(v@, i as int) is None,
        },
{
    let c = v[i];
    let next = if i + 1 < v.len() {
        Some(v[i + 1])
    } else {
        None
    };
    match c {
        '=' => match next {
            Some('~') => Some((FilterOp::Re, 2)),
            _ => Some((FilterOp::Eq, 1)),
        },
        '>' => match next {
            Some('=') => Some((FilterOp::Ge, 2)),
            _ => Some((FilterOp::Gt, 1)),
        },
        '<' => match next {
            Some('=') => Some((FilterOp::Le, 2)),
            _ => Some((FilterOp::Lt, 1)),
        },
        '!' => match next {
            Some('=') => Some((FilterOp::Ne, 2)),
            Some('~') => Some((FilterOp::NotRe, 2)),
            _ => None,
        },
        _ => None,
    }
}

/// Splits `field<op>value` at its first operator, so that an operator inside the
/// value does not matter.
pub fn split_criterion(raw: &str) -> (r: Result<(String, FilterOp, String), String>)
    ensures
        match r {
            Ok((field, op, value)) => criterion_parts(raw@) == Ok::<_, Seq<char>>(
                (field@, op, value@),
            ),
            Err(m) => criterion_parts(raw@) == Err::<(Seq<char>, FilterOp, Seq<char>), _>(m@),
        },
{
    let v = text::chars_of(raw);
    let mut i: usize = 0;
    while i < v.len()
        invariant
            i <= v.len(),
            v@ == raw@,
            first_op(raw@, 0) == first_op(raw@, i as nat),
        decreases v.len() - i,
    {
        if let Some((op, len)) = find_op(&v, i) {
            if i == 0 {
                return Err(text::cat3("invalid criterion `", raw, "`: empty field name"));
            }
            let field = text::text_of(&v, 0, i);
            let value = text::text_of(&v, i + len, v.len());
            assert(field@ =~= raw@.take(i as int));
            assert(value@ =~= raw@.skip(i + len));
            return Ok((field, op, value));
        }
        i += 1;
    }
    let at = text::find_char(&v, 0, '~');
    proof {
        if at < v.len() {
            assert(raw@[at as int] == '~');
        }
    }
    if at < v.len() {
        Err(
            text::cat3(
                "invalid criterion `",
                raw,
                "`: the regex match operator is `=~` (e.g. `field=~regex`), its negation `!~`; a bare `~` is not an operator",
            ),
        )
    } else {
        Err(
            text::cat3(
                "invalid criterion `",
                raw,
                "`: expected field=value, field=~regex, field!=value, field!~regex, or a comparison (field>value, field>=value, field<value, field<=value)",
            ),
        )
    }
}

/// How a criterion tests a value.
pub enum Matcher {
    Eq(Json),
    Ne(Json),
    Re(String),
    NotRe(String),
    /// An ordering by one of the four operators that order.
    Ordered(FilterOp, Json),
}

/// The model of a [`Matcher`].
pub enum MatcherV {
    Eq(JsonV),
    Ne(JsonV),
    Re(Seq<char>),
    NotRe(Seq<char>),
    Ordered(FilterOp, JsonV),
}

/// A field and how it is tested.
pub struct Criterion {
    pub field: String,
    pub matcher: Matcher,
}

/// The model of a [`Criterion`].
pub struct CriterionV {
    pub field: Seq<char>,
    pub matcher: MatcherV,
}

impl DeepView for Matcher {
    type V = MatcherV;

    open spec fn deep_view(&self) -> MatcherV {
        match self {
            Matcher::Eq(v) => MatcherV::Eq(v@),
            Matcher::Ne(v) => MatcherV::Ne(v@),
            Matcher::Re(p) => MatcherV::Re(p@),
            Matcher::NotRe(p) => MatcherV::NotRe(p@),
            Matcher::Ordered(op, v) => MatcherV::Ordered(*op, v@),
        }
    }
}

impl DeepView for Criterion {
    type V = CriterionV;

    open spec fn deep_view(&self) -> CriterionV {
        CriterionV { field: self.field@, matcher: self.matcher.deep_view() }
    }
}

/// A text as a value: as JSON where it is that, else as it stands.
pub open spec fn coerced(raw: Seq<char>) -> JsonV {
    match json::json_parsed(raw) {
        Ok(v) => v,
        Err(_) => JsonV::Str(raw),
    }
}

/// Reads a text as JSON, or takes it as it stands.
pub fn json_or_string(raw: &str) -> (r: Json)
    ensures
        r@ == coerced(raw@),
{
    match json::parse_json(raw) {
        Some(v) => v,
        None => Json::Str(String::from_str(raw)),
    }
}

/// The test that an operator and a value make, or why they make none.
pub open spec fn matcher_for(op: FilterOp, value: Seq<char>) -> Result<MatcherV, Seq<char>> {
    match op {
        FilterOp::Eq => Ok(MatcherV::Eq(coerced(value))),
        FilterOp::Ne => Ok(MatcherV::Ne(coerced(value))),
        FilterOp::Re => match pattern::regex_error(value) {
            None => Ok(MatcherV::Re(value)),
            Some(e) => Err("invalid regex `"@ + value + "`: "@ + e),
        },
        FilterOp::NotRe => match pattern::regex_error(value) {
            None => Ok(MatcherV::NotRe(value)),
            Some(e) => Err("invalid regex `"@ + value + "`: "@ + e),
        },
        _ => Ok(MatcherV::Ordered(op, coerced(value))),
    }
}

/// What a criterion text means, or what is wrong with it.
pub open spec fn compiled(raw: Seq<char>) -> Result<CriterionV, Seq<char>> {
    match criterion_parts(raw) {
        Err(m) => Err(m),
        Ok((field, op, value)) => match matcher_for(op, value) {
            Ok(matcher) => Ok(CriterionV { field, matcher }),
            Err(m) => Err(m),
        },
    }
}

fn regex_problem(value: &str) -> (r: Option<String>)
    ensures
        r.deep_view() == match pattern::regex_error(value@) {
            None => None,
            Some(e) => Some("invalid regex `"@ + value@ + "`: "@ + e),
        },
{
    match pattern::pattern_error(value) {
        Some(e) => {
            let m = text::cat3("invalid regex `", value, "`: ");
            Some(text::cat2(m.as_str(), e.as_str()))
        },
        None => None,
    }
}

/// Reads one criterion.
pub fn compile_criterion(raw: &str) -> (r: Result<Criterion, String>)
    ensures
        match r {
            Ok(c) => compiled(raw@) == Ok::<CriterionV, Seq<char>>(c.deep_view()),
            Err(m) => compiled(raw@) == Err::<CriterionV, Seq<char>>(m@),
        },
{
    let (field, op, value) = match split_criterion(raw) {
        Ok(parts) => parts,
        Err(m) => {
            return Err(m);
        },
    };
    let matcher = match op {
        FilterOp::Eq => Matcher::Eq(json_or_string(value.as_str())),
        FilterOp::Ne => Matcher::Ne(json_or_string(value.as_str())),
        FilterOp::Re => {
            if let Some(m) = regex_problem(value.as_str()) {
                return Err(m);
            }
            Matcher::Re(value)
        },
        FilterOp::NotRe => {
            if let Some(m) = regex_problem(value.as_str()) {
                return Err(m);
            }
            Matcher::NotRe(value)
        },
        _ => Matcher::Ordered(op, json_or_string(value.as_str())),
    };
    Ok(Criterion { field, matcher })
}

/// What the criteria mean, or what is wrong with the first that is wrong.
pub open spec fn all_compiled(raw: Seq<Seq<char>>) -> Result<Seq<CriterionV>, Seq<char>>
    decreases raw.len(),
{
    if raw.len() == 0 {
        Ok(Seq::empty())
    } else {
        match all_compiled(raw.drop_last()) {
            Err(m) => Err(m),
            Ok(front) => match compiled(raw.last()) {
                Err(m) => Err(m),
                Ok(c) => Ok(front.push(c)),
            },
        }
    }
}

proof fn lemma_error_stays(raw: Seq<Seq<char>>, n: int)
    requires
        0 <= n <= raw.len(),
        all_compiled(raw.take(n)) is Err,
    ensures
        all_compiled(raw) == all_compiled(raw.take(n)),
    decreases raw.len() - n,
{
    if n < raw.len() {
        assert(raw.take(n + 1).drop_last() =~= raw.take(n));
        lemma_error_stays(raw, n + 1);
    } else {
        assert(raw.take(n) =~= raw);
    }
}

/// Reads the criteria of a query.
pub fn compile_criteria(raw: &Vec<String>) -> (r: Result<Vec<Criterion>, String>)
    ensures
        match r {
            Ok(cs) => all_compiled(raw.deep_view()) == Ok::<Seq<CriterionV>, Seq<char>>(
                cs.deep_view(),
            ),
            Err(m) => all_compiled(raw.deep_view()) == Err::<Seq<CriterionV>, Seq<char>>(m@),
        },
{
    let ghost all = raw.deep_view();
    let mut out: Vec<Criterion> = Vec::new();
    let mut i: usize = 0;
    assert(all.take(0) =~= Seq::<Seq<char>>::empty());
    assert(out.deep_view() =~= Seq::<CriterionV>::empty());
    while i < raw.len()
        invariant
            i <= raw.len(),
            all == raw.deep_view(),
            all_compiled(all.take(i as int)) == Ok::<Seq<CriterionV>, Seq<char>>(out.deep_view()),
        decreases raw.len() - i,
    {
        let ghost longer = all.take(i as int + 1);
        assert(longer.drop_last() =~= all.take(i as int));
        assert(longer.last() == raw@[i as int]@);
        match compile_criterion(raw[i].as_str()) {
            Ok(c) => {
                let ghost had = out.deep_view();
                let ghost cv = c.deep_view();
                out.push(c);
                assert(out.deep_view() =~= had.push(cv));
            },
            Err(m) => {
                proof {
                    lemma_error_stays(all, i as int + 1);
                }
                return Err(m);
            },
        }
        i += 1;
    }
    assert(all.take(all.len() as int) =~= all);
    Ok(out)
}

/// Whether `field` is the inverse name of some type.
pub open spec fn names_inverse(types: TypesV, field: Seq<char>) -> bool {
    exists|t: Seq<char>| #[trigger] types.contains_key(t) && types[t].inverse == field
}

/// Whether `field` is the inverse name of some type.
pub fn is_inverse_name(field: &str, types: &StrMap<RelationshipDef>) -> (r: bool)
    ensures
        r == names_inverse(types@, field@),
{
    let n = types.len();
    let ghost keys = types.keys_view();
    let mut i: usize = 0;
    while i < n
        invariant
            i <= n,
            n == keys.len(),
            keys == types.keys_view(),
            keys.to_set() == types@.dom(),
            forall|j: int| 0 <= j < i ==> types@[#[trigger] keys[j]].inverse != field@,
        decreases n - i,
    {
        if text::same_text(types.value_at(i).inverse.as_str(), field) {
            assert(types@.contains_key(keys[i as int]));
            return true;
        }
        i += 1;
    }
    proof {
        assert forall|t: Seq<char>| !(#[trigger] types@.contains_key(t) && types@[t].inverse
            == field@) by {
            if types@.contains_key(t) {
                assert(keys.to_set().contains(t));
                let j = choose|j: int| 0 <= j < keys.len() && keys[j] == t;
                assert(types@[keys[j]].inverse != field@);
            }
        }
    }
    false
}

/// Whether `owner` has an edge to `target` of a type whose inverse name is
/// `name`. A type without an inverse name has no reverse.
pub open spec fn points_at(
    s: StateV,
    types: TypesV,
    owner: Seq<char>,
    target: Seq<char>,
    name: Seq<char>,
) -> bool {
    s.contains_key(owner) && name.len() > 0 && rel_points(s[owner].relationships, types, target, name)
}

/// Whether some edge to `target` has the inverse name `name`.
pub open spec fn rel_points(
    rels: RelsV,
    types: TypesV,
    target: Seq<char>,
    name: Seq<char>,
) -> bool {
    exists|rel: Seq<char>| #[trigger]
        compensate::has_edge(rels, rel, target) && types.contains_key(rel) && types[rel].inverse
            == name
}

/// The tasks that point at each task, by the inverse name of the edge.
pub type InverseIndex = StrMap<StrMap<StrSet>>;

/// Whether an index says that `owner` points at `target` under `name`.
pub open spec fn index_has(
    index: Map<Seq<char>, Map<Seq<char>, Set<Seq<char>>>>,
    target: Seq<char>,
    name: Seq<char>,
    owner: Seq<char>,
) -> bool {
    index.contains_key(target) && index[target].contains_key(name) && index[target][name].contains(
        owner,
    )
}

fn index_insert(index: &mut InverseIndex, target: &str, name: &str, owner: &str)
    ensures
        forall|t: Seq<char>, n: Seq<char>, o: Seq<char>| #[trigger]
            index_has(final(index)@, t, n, o) <==> index_has(old(index)@, t, n, o) || (t == target@
                && n == name@ && o == owner@),
{
    let mut names: StrMap<StrSet> = match index.take(target) {
        Some(m) => m,
        None => StrMap::new(),
    };
    let ghost inner = names@;
    let mut owners: StrSet = match names.take(name) {
        Some(o) => o,
        None => StrSet::new(),
    };
    owners.insert(String::from_str(owner));
    names.insert(String::from_str(name), owners);
    index.insert(String::from_str(target), names);
    proof {
        let was = old(index)@;
        let now = index@;
        assert forall|t: Seq<char>, n: Seq<char>, o: Seq<char>| #[trigger]
            index_has(now, t, n, o) <==> index_has(was, t, n, o) || (t == target@ && n == name@ && o
                == owner@) by {
            if t == target@ {
                if was.contains_key(t) {
                    assert(was[t] == inner);
                }
            }
        }
    }
}

/// Indexes the edges of all tasks by their target and inverse name.
pub fn inverse_index(
    state: &StrMap<TaskState>,
    types: &StrMap<RelationshipDef>,
) -> (r: InverseIndex)
    ensures
        forall|t: Seq<char>, n: Seq<char>, o: Seq<char>| #[trigger]
            index_has(r@, t, n, o) <==> points_at(state@, types@, o, t, n),
{
    let n = state.len();
    let ghost keys = state.keys_view();
    let mut index: InverseIndex = StrMap::new();
    let mut i: usize = 0;
    assert(keys.take(0) =~= Seq::<Seq<char>>::empty());
    while i < n
        invariant
            i <= n,
            n == keys.len(),
            keys == state.keys_view(),
            keys.to_set() == state@.dom(),
            forall|t: Seq<char>, n: Seq<char>, o: Seq<char>| #[trigger]
                index_has(index@, t, n, o) <==> keys.take(i as int).contains(o) && points_at(
                    state@,
                    types@,
                    o,
                    t,
                    n,
                ),
        decreases n - i,
    {
        let owner = state.key_at(i);
        let task = state.value_at(i);
        let ghost base = index@;
        add_owner(&mut index, owner.as_str(), &task.relationships, types);
        proof {
            assert forall|t: Seq<char>, n: Seq<char>, o: Seq<char>| #[trigger]
                index_has(index@, t, n, o) <==> keys.take(i as int + 1).contains(o) && points_at(
                    state@,
                    types@,
                    o,
                    t,
                    n,
                ) by {
                strmap::lemma_take_one_more(keys, i as int, o);
                assert(index_has(base, t, n, o) <==> keys.take(i as int).contains(o) && points_at(
                    state@,
                    types@,
                    o,
                    t,
                    n,
                ));
            }
        }
        i += 1;
    }
    proof {
        assert(keys.take(n as int) =~= keys);
        assert forall|t: Seq<char>, n: Seq<char>, o: Seq<char>| #[trigger]
            index_has(index@, t, n, o) <==> points_at(state@, types@, o, t, n) by {
            assert(keys.to_set().contains(o) == keys.contains(o));
        }
    }
    index
}

/// Adds the edges of one task to the index.
fn add_owner(
    index: &mut InverseIndex,
    owner: &str,
    rels: &StrMap<Vec<String>>,
    types: &StrMap<RelationshipDef>,
)
    ensures
        forall|t: Seq<char>, n: Seq<char>, o: Seq<char>| #[trigger]
            index_has(final(index)@, t, n, o) <==> index_has(old(index)@, t, n, o) || (o == owner@
                && n.len() > 0 && rel_points(rels@, types@, t, n)),
{
    let ghost base = index@;
    let m = rels.len();
    let ghost names = rels.keys_view();
    let mut k: usize = 0;
    while k < m
        invariant
            k <= m,
            m == names.len(),
            names == rels.keys_view(),
            names.to_set() == rels@.dom(),
            forall|t: Seq<char>, n: Seq<char>, o: Seq<char>| #[trigger]
                index_has(index@, t, n, o) <==> index_has(base, t, n, o) || (o == owner@ && n.len()
                    > 0 && exists|j: int|
                    0 <= j < k && types@.contains_key(#[trigger] names[j])
                        && types@[names[j]].inverse == n && rels@[names[j]].contains(t)),
        decreases m - k,
    {
        let rel = rels.key_at(k);
        let targets = rels.value_at(k);
        let ghost mid = index@;
        if let Some(def) = types.get(rel.as_str()) {
            if !text::is_blank(def.inverse.as_str()) {
                let ghost all = targets.deep_view();
                let mut x: usize = 0;
                while x < targets.len()
                    invariant
                        x <= targets.len(),
                        all == targets.deep_view(),
                        forall|t: Seq<char>, n: Seq<char>, o: Seq<char>| #[trigger]
                            index_has(index@, t, n, o) <==> index_has(mid, t, n, o) || (o == owner@
                                && n == def.inverse@ && exists|j: int|
                                0 <= j < x && #[trigger] all[j] == t),
                    decreases targets.len() - x,
                {
                    let ghost had = index@;
                    index_insert(index, targets[x].as_str(), def.inverse.as_str(), owner);
                    proof {
                        assert(all[x as int] == targets@[x as int]@);
                        assert forall|t: Seq<char>, n: Seq<char>, o: Seq<char>| #[trigger]
                            index_has(index@, t, n, o) <==> index_has(mid, t, n, o) || (o == owner@
                                && n == def.inverse@ && exists|j: int|
                                0 <= j < x + 1 && #[trigger] all[j] == t) by {
                            assert(index_has(had, t, n, o) <==> index_has(mid, t, n, o) || (o
                                == owner@ && n == def.inverse@ && exists|j: int|
                                0 <= j < x && #[trigger] all[j] == t));
                        }
                    }
                    x += 1;
                }
            }
        }
        proof {
            let rk = names[k as int];
            assert forall|t: Seq<char>, n: Seq<char>, o: Seq<char>| #[trigger]
                index_has(index@, t, n, o) <==> index_has(base, t, n, o) || (o == owner@ && n.len()
                    > 0 && exists|j: int|
                    0 <= j < k + 1 && types@.contains_key(#[trigger] names[j])
                        && types@[names[j]].inverse == n && rels@[names[j]].contains(t)) by {
                assert(index_has(mid, t, n, o) <==> index_has(base, t, n, o) || (o == owner@
                    && n.len() > 0 && exists|j: int|
                    0 <= j < k && types@.contains_key(#[trigger] names[j])
                        && types@[names[j]].inverse == n && rels@[names[j]].contains(t)));
                let hit = types@.contains_key(rk) && types@[rk].inverse == n && n.len() > 0
                    && rels@[rk].contains(t);
                assert(hit && o == owner@ ==> index_has(index@, t, n, o));
                if index_has(index@, t, n, o) && !index_has(mid, t, n, o) {
                    assert(hit);
                    assert(types@.contains_key(names[k as int]));
                }
            }
        }
        k += 1;
    }
    proof {
        assert forall|t: Seq<char>, n: Seq<char>, o: Seq<char>| #[trigger]
            index_has(index@, t, n, o) <==> index_has(base, t, n, o) || (o == owner@ && n.len() > 0
                && rel_points(rels@, types@, t, n)) by {
            if exists|j: int|
                0 <= j < m && types@.contains_key(#[trigger] names[j]) && types@[names[j]].inverse
                    == n && rels@[names[j]].contains(t) {
                let j = choose|j: int|
                    0 <= j < m && types@.contains_key(#[trigger] names[j])
                        && types@[names[j]].inverse == n && rels@[names[j]].contains(t);
                assert(names.to_set().contains(names[j]));
                assert(compensate::has_edge(rels@, names[j], t));
            }
            if rel_points(rels@, types@, t, n) {
                let rel = choose|rel: Seq<char>| #[trigger]
                    compensate::has_edge(rels@, rel, t) && types@.contains_key(rel)
                        && types@[rel].inverse == n;
                assert(names.to_set().contains(rel));
                let j = choose|j: int| 0 <= j < names.len() && names[j] == rel;
                assert(types@.contains_key(names[j]));
            }
        }
    }
}

/// Whether a field of a task offers the value `v` to a criterion.
///
/// `id` offers the id and `deps` every target. A relationship type offers its
/// targets, an inverse name the tasks that point here, and a name that is both
/// offers both. Any other field offers its value, or each element of it where it
/// is a list.
pub open spec fn offers(s: StateV, types: TypesV, t: TaskV, field: Seq<char>, v: JsonV) -> bool {
    if field == ID_KEY@ {
        v == JsonV::Str(t.id)
    } else if field == DEPS_KEY@ {
        v is Str && exists|rel: Seq<char>| #[trigger]
            compensate::has_edge(t.relationships, rel, v->Str_0)
    } else if types.contains_key(field) || names_inverse(types, field) {
        v is Str && ((types.contains_key(field) && compensate::has_edge(
            t.relationships,
            field,
            v->Str_0,
        )) || points_at(s, types, v->Str_0, t.id, field))
    } else if t.custom_fields.contains_key(field) {
        match t.custom_fields[field] {
            JsonV::List(items) => items.contains(v),
            whole => v == whole,
        }
    } else {
        false
    }
}

/// The index of the edges by target, in the model.
pub type IndexV = Map<Seq<char>, Map<Seq<char>, Set<Seq<char>>>>;

/// Whether a field of a task offers the value `v`, where the tasks that point at
/// it are looked up in an index.
pub open spec fn offers_by(
    rev: Option<IndexV>,
    types: TypesV,
    t: TaskV,
    field: Seq<char>,
    v: JsonV,
) -> bool {
    if field == ID_KEY@ {
        v == JsonV::Str(t.id)
    } else if field == DEPS_KEY@ {
        v is Str && exists|rel: Seq<char>| #[trigger]
            compensate::has_edge(t.relationships, rel, v->Str_0)
    } else if types.contains_key(field) || names_inverse(types, field) {
        v is Str && ((types.contains_key(field) && compensate::has_edge(
            t.relationships,
            field,
            v->Str_0,
        )) || (names_inverse(types, field) && rev is Some && index_has(
            rev->0,
            t.id,
            field,
            v->Str_0,
        )))
    } else if t.custom_fields.contains_key(field) {
        match t.custom_fields[field] {
            JsonV::List(items) => items.contains(v),
            whole => v == whole,
        }
    } else {
        false
    }
}

/// What a criterion's field is looked up in besides the task: the relationship
/// types, and the index of the edges by target, where some criterion needs it.
pub struct FilterCtx<'a> {
    pub types: &'a StrMap<RelationshipDef>,
    pub rev: Option<&'a InverseIndex>,
}

impl<'a> FilterCtx<'a> {
    /// Whether the index fits the state, and is there if `field` needs it.
    pub open spec fn serves(&self, s: StateV, field: Seq<char>) -> bool {
        &&& names_inverse(self.types@, field) ==> self.rev is Some
        &&& match self.rev {
            Some(rev) => forall|t: Seq<char>, n: Seq<char>, o: Seq<char>| #[trigger]
                index_has(rev@, t, n, o) <==> points_at(s, self.types@, o, t, n),
            None => true,
        }
    }
}

fn push_texts(out: &mut Vec<Json>, items: &Vec<String>)
    ensures
        forall|v: JsonV| #[trigger]
            final(out).deep_view().contains(v) <==> old(out).deep_view().contains(v) || (v is Str
                && items.deep_view().contains(v->Str_0)),
{
    let ghost base = out.deep_view();
    let ghost all = items.deep_view();
    let mut i: usize = 0;
    assert(all.take(0) =~= Seq::<Seq<char>>::empty());
    while i < items.len()
        invariant
            i <= items.len(),
            all == items.deep_view(),
            forall|v: JsonV| #[trigger]
                out.deep_view().contains(v) <==> base.contains(v) || (v is Str && all.take(
                    i as int,
                ).contains(v->Str_0)),
        decreases items.len() - i,
    {
        let ghost had = out.deep_view();
        out.push(Json::Str(items[i].clone()));
        proof {
            let x = JsonV::Str(all[i as int]);
            assert(out.deep_view() =~= had.push(x));
            assert forall|v: JsonV| #[trigger] out.deep_view().contains(v) <==> base.contains(v) || (v
                is Str && all.take(i as int + 1).contains(v->Str_0)) by {
                strmap::lemma_contains_last(out.deep_view(), v);
                assert(out.deep_view().drop_last() =~= had);
                assert(had.contains(v) <==> base.contains(v) || (v is Str && all.take(
                    i as int,
                ).contains(v->Str_0)));
                if v is Str {
                    strmap::lemma_take_one_more(all, i as int, v->Str_0);
                }
            }
        }
        i += 1;
    }
    assert(all.take(all.len() as int) =~= all);
}

/// The values that a field of a task offers to a criterion. A criterion asks only
/// whether some of them passes, so the contract is on which values there are.
fn field_values(task: &TaskState, field: &str, ctx: &FilterCtx) -> (r: Vec<Json>)
    ensures
        forall|v: JsonV| #[trigger]
            r.deep_view().contains(v) <==> offers_by(
                ctx.rev.deep_view(),
                ctx.types@,
                task@,
                field@,
                v,
            ),
{
    let mut out: Vec<Json> = Vec::new();
    assert(out.deep_view() =~= Seq::<JsonV>::empty());
    if text::same_text(field, ID_KEY) {
        out.push(Json::Str(task.id.clone()));
        proof {
            let x = JsonV::Str(task.id@);
            assert(out.deep_view() =~= seq![x]);
            assert(out.deep_view()[0] == x);
        }
        return out;
    }
    if text::same_text(field, DEPS_KEY) {
        let rels = &task.relationships;
        let n = rels.len();
        let ghost keys = rels.keys_view();
        let mut i: usize = 0;
        while i < n
            invariant
                i <= n,
                n == keys.len(),
                keys == rels.keys_view(),
                forall|v: JsonV| #[trigger]
                    out.deep_view().contains(v) <==> v is Str && exists|j: int|
                        0 <= j < i && rels@[#[trigger] keys[j]].contains(v->Str_0),
            decreases n - i,
        {
            let ghost had = out.deep_view();
            let targets = rels.value_at(i);
            push_texts(&mut out, targets);
            proof {
                assert forall|v: JsonV| #[trigger] out.deep_view().contains(v) <==> v is Str
                    && exists|j: int| 0 <= j < i + 1 && rels@[#[trigger] keys[j]].contains(v->Str_0) by {
                    assert(had.contains(v) <==> v is Str && exists|j: int|
                        0 <= j < i && rels@[#[trigger] keys[j]].contains(v->Str_0));
                    if v is Str && targets.deep_view().contains(v->Str_0) {
                        assert(rels@[keys[i as int]].contains(v->Str_0));
                    }
                }
            }
            i += 1;
        }
        proof {
            assert forall|v: JsonV| #[trigger] out.deep_view().contains(v) <==> offers_by(
                ctx.rev.deep_view(),
                ctx.types@,
                task@,
                field@,
                v,
            ) by {
                if out.deep_view().contains(v) {
                    let j = choose|j: int|
                        0 <= j < n && rels@[#[trigger] keys[j]].contains(v->Str_0);
                    assert(keys.to_set().contains(keys[j]));
                    assert(rels@.contains_key(keys[j]));
                    assert(compensate::has_edge(task@.relationships, keys[j], v->Str_0));
                    assert(offers_by(ctx.rev.deep_view(), ctx.types@, task@, field@, v));
                }
                if v is Str && exists|rel: Seq<char>| #[trigger]
                    compensate::has_edge(rels@, rel, v->Str_0) {
                    let rel = choose|rel: Seq<char>| #[trigger]
                        compensate::has_edge(rels@, rel, v->Str_0);
                    assert(keys.to_set().contains(rel));
                    let j = choose|j: int| 0 <= j < keys.len() && keys[j] == rel;
                    assert(rels@[keys[j]].contains(v->Str_0));
                    assert(out.deep_view().contains(v));
                }
                assert(offers_by(ctx.rev.deep_view(), ctx.types@, task@, field@, v) ==> v is Str);
            }
        }
        return out;
    }
    let forward = ctx.types.contains_key(field);
    let inverse = is_inverse_name(field, ctx.types);
    if !forward && !inverse {
        match task.custom_fields.get(field) {
            Some(Json::List(items)) => {
                proof {
                    json::lemma_list_view(*items);
                }
                return items.copy();
            },
            Some(v) => {
                out.push(v.copy());
                proof {
                    assert(out.deep_view() =~= seq![v@]);
                    assert(out.deep_view()[0] == v@);
                    assert(!(v@ is List));
                }
                return out;
            },
            None => {
                return out;
            },
        }
    }
    if forward {
        if let Some(targets) = task.relationships.get(field) {
            push_texts(&mut out, targets);
        }
    }
    let ghost mid = out.deep_view();
    assert forall|v: JsonV| #[trigger] mid.contains(v) <==> forward && v is Str
        && compensate::has_edge(task@.relationships, field@, v->Str_0) by {}
    if inverse {
        let mut owners: Vec<String> = Vec::new();
        assert(owners.deep_view() =~= Seq::<Seq<char>>::empty());
        if let Some(rev) = ctx.rev {
            if let Some(names) = rev.get(task.id.as_str()) {
                if let Some(found) = names.get(field) {
                    owners = graph::members_of(found);
                }
            }
            proof {
                assert forall|o: Seq<char>| #[trigger] owners.deep_view().contains(o) <==> index_has(
                    rev@,
                    task@.id,
                    field@,
                    o,
                ) by {
                    assert(owners.deep_view().to_set().contains(o) == owners.deep_view().contains(o));
                }
            }
        }
        push_texts(&mut out, &owners);
    }
    proof {
        assert forall|v: JsonV| #[trigger] out.deep_view().contains(v) <==> offers_by(
            ctx.rev.deep_view(),
            ctx.types@,
            task@,
            field@,
            v,
        ) by {
            assert(mid.contains(v) <==> forward && v is Str && compensate::has_edge(
                task@.relationships,
                field@,
                v->Str_0,
            ));
        }
    }
    out
}

/// Whether two values can be ordered: both numbers, both texts or both booleans.
pub open spec fn comparable(a: JsonV, b: JsonV) -> bool {
    (a is Num && b is Num) || (a is Str && b is Str) || (a is Bool && b is Bool)
}

/// Whether a value stands in the order to the query that the operator asks for.
pub open spec fn order_holds(op: FilterOp, v: JsonV, q: JsonV) -> bool {
    let o = json::json_order(v, q);
    comparable(v, q) && match op {
        FilterOp::Gt => o == Order::Greater,
        FilterOp::Ge => o != Order::Less,
        FilterOp::Lt => o == Order::Less,
        FilterOp::Le => o != Order::Greater,
        _ => false,
    }
}

/// Whether a value stands in the order to the query that the operator asks for;
/// values of different kinds never do.
pub fn cmp_holds(op: FilterOp, v: &Json, q: &Json) -> (r: bool)
    ensures
        r == order_holds(op, v@, q@),
{
    let fit = match (v, q) {
        (Json::Num(_), Json::Num(_)) => true,
        (Json::Str(_), Json::Str(_)) => true,
        (Json::Bool(_), Json::Bool(_)) => true,
        _ => false,
    };
    if !fit {
        return false;
    }
    let o = json::cmp_json(v, q);
    match op {
        FilterOp::Gt => o == Order::Greater,
        FilterOp::Ge => o != Order::Less,
        FilterOp::Lt => o == Order::Less,
        FilterOp::Le => o != Order::Greater,
        _ => false,
    }
}

/// Whether one value passes the positive form of a test.
pub open spec fn value_hits(m: MatcherV, v: JsonV) -> bool {
    match m {
        MatcherV::Eq(q) => json::json_same(v, q),
        MatcherV::Ne(q) => json::json_same(v, q),
        MatcherV::Re(p) => pattern::regex_matches(p, engine::plain_text(v)),
        MatcherV::NotRe(p) => pattern::regex_matches(p, engine::plain_text(v)),
        MatcherV::Ordered(op, q) => order_holds(op, v, q),
    }
}

/// Whether a test is the negation of its positive form.
pub open spec fn negated(m: MatcherV) -> bool {
    m is Ne || m is NotRe
}

/// Whether a task satisfies a criterion: some value of the field passes, or, for
/// the negated forms, none does.
pub open spec fn satisfies(s: StateV, types: TypesV, t: TaskV, c: CriterionV) -> bool {
    let hit = exists|v: JsonV| #[trigger]
        offers(s, types, t, c.field, v) && value_hits(c.matcher, v);
    hit != negated(c.matcher)
}

/// Whether a task satisfies a criterion, where the tasks that point at it are
/// looked up in an index.
pub open spec fn satisfies_by(
    rev: Option<IndexV>,
    types: TypesV,
    t: TaskV,
    c: CriterionV,
) -> bool {
    let hit = exists|v: JsonV| #[trigger]
        offers_by(rev, types, t, c.field, v) && value_hits(c.matcher, v);
    hit != negated(c.matcher)
}

proof fn lemma_served(ctx: FilterCtx, s: StateV, t: TaskV, c: CriterionV)
    requires
        ctx.serves(s, c.field),
        c.field.len() > 0,
    ensures
        satisfies_by(ctx.rev.deep_view(), ctx.types@, t, c) == satisfies(s, ctx.types@, t, c),
{
    let rev = ctx.rev.deep_view();
    assert forall|v: JsonV| #[trigger] offers_by(rev, ctx.types@, t, c.field, v) == offers(
        s,
        ctx.types@,
        t,
        c.field,
        v,
    ) by {
        if v is Str {
            let o = v->Str_0;
            if points_at(s, ctx.types@, o, t.id, c.field) {
                let rel = choose|rel: Seq<char>| #[trigger]
                    compensate::has_edge(s[o].relationships, rel, t.id) && ctx.types@.contains_key(
                        rel,
                    ) && ctx.types@[rel].inverse == c.field;
                assert(names_inverse(ctx.types@, c.field));
            }
            if rev is Some {
                assert(index_has(rev->0, t.id, c.field, o) <==> points_at(
                    s,
                    ctx.types@,
                    o,
                    t.id,
                    c.field,
                ));
            }
        }
    }
    if exists|v: JsonV| #[trigger]
        offers_by(rev, ctx.types@, t, c.field, v) && value_hits(c.matcher, v) {
        let v = choose|v: JsonV| #[trigger]
            offers_by(rev, ctx.types@, t, c.field, v) && value_hits(c.matcher, v);
        assert(offers(s, ctx.types@, t, c.field, v));
    }
    if exists|v: JsonV| #[trigger]
        offers(s, ctx.types@, t, c.field, v) && value_hits(c.matcher, v) {
        let v = choose|v: JsonV| #[trigger]
            offers(s, ctx.types@, t, c.field, v) && value_hits(c.matcher, v);
        assert(offers_by(rev, ctx.types@, t, c.field, v));
    }
}

impl Matcher {
    fn hits(&self, v: &Json) -> (r: bool)
        ensures
            r == value_hits(self.deep_view(), v@),
    {
        match self {
            Matcher::Eq(q) => json::same_json(v, q),
            Matcher::Ne(q) => json::same_json(v, q),
            Matcher::Re(p) => pattern::is_match(p.as_str(), engine::append_text(v).as_str()),
            Matcher::NotRe(p) => pattern::is_match(p.as_str(), engine::append_text(v).as_str()),
            Matcher::Ordered(op, q) => cmp_holds(*op, v, q),
        }
    }
}

impl Criterion {
    /// Whether `task` satisfies this criterion.
    pub fn matches(&self, task: &TaskState, ctx: &FilterCtx) -> (r: bool)
        ensures
            r == satisfies_by(ctx.rev.deep_view(), ctx.types@, task@, self.deep_view()),
    {
        let values = field_values(task, self.field.as_str(), ctx);
        let ghost all = values.deep_view();
        let ghost c = self.deep_view();
        let mut hit = false;
        let mut i: usize = 0;
        while i < values.len()
            invariant
                i <= values.len(),
                all == values.deep_view(),
                c == self.deep_view(),
                hit <==> exists|j: int| 0 <= j < i && value_hits(c.matcher, #[trigger] all[j]),
            decreases values.len() - i,
        {
            let ghost was = hit;
            assert(all[i as int] == values@[i as int]@);
            if self.matcher.hits(&values[i]) {
                hit = true;
            }
            proof {
                if hit && !was {
                    assert(value_hits(c.matcher, all[i as int]));
                }
            }
            i += 1;
        }
        proof {
            let any = exists|v: JsonV| #[trigger]
                offers_by(ctx.rev.deep_view(), ctx.types@, task@, c.field, v) && value_hits(c.matcher, v);
            if hit {
                let j = choose|j: int| 0 <= j < all.len() && value_hits(c.matcher, #[trigger] all[j]);
                assert(all.contains(all[j]));
                assert(offers_by(ctx.rev.deep_view(), ctx.types@, task@, c.field, all[j]));
            }
            if any {
                let v = choose|v: JsonV| #[trigger]
                    offers_by(ctx.rev.deep_view(), ctx.types@, task@, c.field, v) && value_hits(c.matcher, v);
                assert(all.contains(v));
                let j = choose|j: int| 0 <= j < all.len() && all[j] == v;
                assert(value_hits(c.matcher, all[j]));
            }
        }
        let negate = match &self.matcher {
            Matcher::Ne(_) => true,
            Matcher::NotRe(_) => true,
            _ => false,
        };
        hit != negate
    }
}

/// Whether a task satisfies all criteria.
pub open spec fn satisfies_all(s: StateV, types: TypesV, t: TaskV, cs: Seq<CriterionV>) -> bool {
    forall|i: int| 0 <= i < cs.len() ==> satisfies(s, types, t, #[trigger] cs[i])
}

/// Whether a task passes a filter: it is open and ready if that is asked for,
/// and satisfies all criteria.
pub open spec fn passes(
    s: StateV,
    types: TypesV,
    field: Seq<char>,
    done: Seq<char>,
    t: TaskV,
    cs: Seq<CriterionV>,
    open: bool,
    ready: bool,
) -> bool {
    &&& open ==> !model::done_in(t.custom_fields, field, done)
    &&& ready ==> graph::ready_task(s, t.id, field, done, config::gating_types(types))
    &&& satisfies_all(s, types, t, cs)
}

/// The tasks of the given ids that pass a filter.
pub open spec fn passing(
    s: StateV,
    types: TypesV,
    field: Seq<char>,
    done: Seq<char>,
    ids: Seq<Seq<char>>,
    cs: Seq<CriterionV>,
    open: bool,
    ready: bool,
) -> Seq<TaskV>
    decreases ids.len(),
{
    if ids.len() == 0 {
        Seq::empty()
    } else {
        let rest = passing(s, types, field, done, ids.drop_last(), cs, open, ready);
        if passes(s, types, field, done, s[ids.last()], cs, open, ready) {
            rest.push(s[ids.last()])
        } else {
            rest
        }
    }
}

proof fn lemma_field_not_empty(raw: Seq<Seq<char>>, i: int)
    requires
        all_compiled(raw) is Ok,
        0 <= i < all_compiled(raw)->Ok_0.len(),
    ensures
        all_compiled(raw)->Ok_0[i].field.len() > 0,
        all_compiled(raw)->Ok_0.len() == raw.len(),
    decreases raw.len(),
{
    let front = all_compiled(raw.drop_last())->Ok_0;
    if i < front.len() {
        lemma_field_not_empty(raw.drop_last(), i);
    } else if raw.drop_last().len() > 0 && front.len() > 0 {
        lemma_field_not_empty(raw.drop_last(), 0);
    }
    lemma_compiled_len(raw);
}

proof fn lemma_compiled_len(raw: Seq<Seq<char>>)
    requires
        all_compiled(raw) is Ok,
    ensures
        all_compiled(raw)->Ok_0.len() == raw.len(),
    decreases raw.len(),
{
    if raw.len() > 0 {
        lemma_compiled_len(raw.drop_last());
    }
}

/// Whether a task passes the criteria.
fn meets_all(
    task: &TaskState,
    criteria: &Vec<Criterion>,
    ctx: &FilterCtx,
    Ghost(s): Ghost<StateV>,
) -> (r:
    bool)
    requires
        forall|i: int|
            0 <= i < criteria.len() ==> (#[trigger] criteria@[i]).field@.len() > 0 && ctx.serves(
                s,
                criteria@[i].field@,
            ),
    ensures
        r == satisfies_all(s, ctx.types@, task@, criteria.deep_view()),
{
    let ghost cs = criteria.deep_view();
    let mut i: usize = 0;
    while i < criteria.len()
        invariant
            i <= criteria.len(),
            cs == criteria.deep_view(),
            forall|i: int|
                0 <= i < criteria.len() ==> (#[trigger] criteria@[i]).field@.len() > 0 && ctx.serves(
                    s,
                    criteria@[i].field@,
                ),
            forall|j: int| 0 <= j < i ==> satisfies(s, ctx.types@, task@, #[trigger] cs[j]),
        decreases criteria.len() - i,
    {
        assert(cs[i as int] == criteria@[i as int].deep_view());
        proof {
            lemma_served(*ctx, s, task@, cs[i as int]);
        }
        if !criteria[i].matches(task, ctx) {
            assert(!satisfies(s, ctx.types@, task@, cs[i as int]));
            return false;
        }
        i += 1;
    }
    true
}

/// The ready tasks, or the error about a cycle.
fn ready_set(config: &Config, state: &StrMap<TaskState>) -> (r: Result<StrSet, String>)
    ensures
        r is Err <==> reach::cyclic(
            graph::dep_edges(state@, config::gating_types(config.relationships.types@)),
        ),
        match r {
            Ok(set) => forall|id: Seq<char>| #[trigger]
                set@.contains(id) <==> graph::ready_task(
                    state@,
                    id,
                    config.workflow.status_field@,
                    config.workflow.done_status@,
                    config::gating_types(config.relationships.types@),
                ),
            Err(m) => m@ == graph::cycle_message(),
        },
{
    let blockers = config.relationships.blocker_types();
    let ids = match graph::ready_tasks(
        state,
        config.workflow.status_field.as_str(),
        config.workflow.done_status.as_str(),
        &blockers,
    ) {
        Ok(v) => v,
        Err(m) => {
            return Err(m);
        },
    };
    let ghost all = ids.deep_view();
    let mut set = StrSet::new();
    let mut i: usize = 0;
    assert(all.take(0) =~= Seq::<Seq<char>>::empty());
    while i < ids.len()
        invariant
            i <= ids.len(),
            all == ids.deep_view(),
            forall|id: Seq<char>| #[trigger] set@.contains(id) <==> all.take(i as int).contains(id),
        decreases ids.len() - i,
    {
        let ghost had = set@;
        set.insert(ids[i].clone());
        proof {
            assert forall|id: Seq<char>| #[trigger] set@.contains(id) <==> all.take(
                i as int + 1,
            ).contains(id) by {
                strmap::lemma_take_one_more(all, i as int, id);
                assert(had.contains(id) <==> all.take(i as int).contains(id));
            }
        }
        i += 1;
    }
    assert(all.take(all.len() as int) =~= all);
    Ok(set)
}

/// The tasks that pass a filter, in the order of their ids.
fn filter_tasks(
    config: &Config,
    state: &StrMap<TaskState>,
    criteria: &Vec<Criterion>,
    open: bool,
    ready: bool,
) -> (r: Result<Vec<TaskState>, String>)
    requires
        forall|i: int| 0 <= i < criteria.len() ==> (#[trigger] criteria@[i]).field@.len() > 0,
    ensures
        ({
            let types = config.relationships.types@;
            let cyclic = reach::cyclic(graph::dep_edges(state@, config::gating_types(types)));
            match r {
                Ok(tasks) => !(ready && cyclic) && tasks.deep_view() == passing(
                    state@,
                    types,
                    config.workflow.status_field@,
                    config.workflow.done_status@,
                    strmap::sorted_of(state@.dom()),
                    criteria.deep_view(),
                    open,
                    ready,
                ),
                Err(m) => ready && cyclic && m@ == graph::cycle_message(),
            }
        }),
{
    let types = &config.relationships.types;
    let ghost cs = criteria.deep_view();
    let field = config.workflow.status_field.as_str();
    let done = config.workflow.done_status.as_str();
    let mut need = false;
    let mut k: usize = 0;
    while k < criteria.len()
        invariant
            k <= criteria.len(),
            forall|j: int|
                0 <= j < k && names_inverse(types@, (#[trigger] criteria@[j]).field@) ==> need,
        decreases criteria.len() - k,
    {
        if is_inverse_name(criteria[k].field.as_str(), types) {
            need = true;
        }
        k += 1;
    }
    let index = if need {
        Some(inverse_index(state, types))
    } else {
        None
    };
    let ctx = FilterCtx { types, rev: index.as_ref() };
    assert forall|i: int| 0 <= i < criteria.len() implies ctx.serves(
        state@,
        (#[trigger] criteria@[i]).field@,
    ) by {}
    let readies = if ready {
        match ready_set(config, state) {
            Ok(set) => Some(set),
            Err(m) => {
                return Err(m);
            },
        }
    } else {
        None
    };
    let n = state.len();
    let ghost keys = state.keys_view();
    let mut out: Vec<TaskState> = Vec::new();
    let mut i: usize = 0;
    assert(keys.take(0) =~= Seq::<Seq<char>>::empty());
    assert(out.deep_view() =~= Seq::<TaskV>::empty());
    while i < n
        invariant
            i <= n,
            n == keys.len(),
            keys == state.keys_view(),
            cs == criteria.deep_view(),
            ctx.types == types,
            types == config.relationships.types,
            field@ == config.workflow.status_field@,
            done@ == config.workflow.done_status@,
            forall|i: int|
                0 <= i < criteria.len() ==> (#[trigger] criteria@[i]).field@.len() > 0 && ctx.serves(
                    state@,
                    criteria@[i].field@,
                ),
            ready <==> readies is Some,
            readies matches Some(set) ==> forall|id: Seq<char>| #[trigger]
                set@.contains(id) <==> graph::ready_task(
                    state@,
                    id,
                    field@,
                    done@,
                    config::gating_types(types@),
                ),
            out.deep_view() == passing(
                state@,
                types@,
                field@,
                done@,
                keys.take(i as int),
                cs,
                open,
                ready,
            ),
        decreases n - i,
    {
        let task = state.value_at(i);
        let ghost longer = keys.take(i as int + 1);
        assert(longer.drop_last() =~= keys.take(i as int));
        assert(state@[longer.last()] == task@);
        let kept = !(open && model::is_done(task, field, done));
        let fit = match &readies {
            Some(set) => set.contains(task.id.as_str()),
            None => true,
        };
        if kept && fit && meets_all(task, criteria, &ctx, Ghost(state@)) {
            let ghost had = out.deep_view();
            out.push(task.copy());
            assert(out.deep_view() =~= had.push(task@));
        }
        i += 1;
    }
    assert(keys.take(n as int) =~= keys);
    Ok(out)
}

/// A query for tasks: the criteria, whether only open or only ready tasks are
/// wanted, the columns that are shown, and the order.
pub struct ListQuery<'a> {
    pub criteria: &'a Vec<String>,
    pub open: bool,
    pub ready: bool,
    pub display_columns: &'a Vec<String>,
    pub sort: &'a str,
    pub reverse: bool,
}

/// The tasks that match, in order, and the warnings of the read.
pub struct ListOutcome {
    pub tasks: Vec<TaskState>,
    pub warnings: Vec<Warning>,
}

/// The fields of the criteria.
pub open spec fn fields_of(cs: Seq<CriterionV>) -> Seq<Seq<char>> {
    cs.map_values(|c: CriterionV| c.field)
}

impl<'a> ListQuery<'a> {
    /// The tasks that the query looks at: with the computed columns that it
    /// shows or tests.
    pub open spec fn over(
        &self,
        store: Store,
        schema: SchemaReading,
        cs: Seq<CriterionV>,
    ) -> StateV {
        read::with_computed(
            store.shown(schema),
            self.display_columns.deep_view() + fields_of(cs),
            store.gates(),
            store.hierarchy(),
            store.config.workflow.status_field@,
            store.config.workflow.done_status@,
        )
    }
}

/// Whether `o` answers a query.
pub open spec fn is_listing(
    o: ListOutcome,
    query: ListQuery,
    store: Store,
    schema: SchemaReading,
    cs: Seq<CriterionV>,
) -> bool {
    let s = query.over(store, schema, cs);
    let found = passing(
        s,
        store.config.relationships.types@,
        store.config.workflow.status_field@,
        store.config.workflow.done_status@,
        strmap::sorted_of(s.dom()),
        cs,
        query.open,
        query.ready,
    );
    &&& o.tasks.deep_view().to_multiset() == found.to_multiset()
    &&& order::in_column_order(o.tasks.deep_view(), query.sort@, query.reverse)
    &&& o.warnings.deep_view() == store.warned(schema)
}

/// The tasks that match a query, in the order of its column.
///
/// A criterion that cannot be read is an error; so is a cycle in the blocker
/// graph where only ready tasks are wanted.
pub fn list_tasks(store: &Store, schema: &SchemaReading, query: &ListQuery) -> (r: Result<
    ListOutcome,
    String,
>)
    ensures
        match all_compiled(query.criteria.deep_view()) {
            Err(m) => r matches Err(e) && e@ == m,
            Ok(cs) => {
                let cyclic = reach::cyclic(
                    graph::dep_edges(query.over(*store, *schema, cs), store.gates()),
                );
                match r {
                    Ok(o) => !(query.ready && cyclic) && is_listing(
                        o,
                        *query,
                        *store,
                        *schema,
                        cs,
                    ),
                    Err(m) => query.ready && cyclic && m@ == graph::cycle_message(),
                }
            },
        },
{
    let criteria = match compile_criteria(query.criteria) {
        Ok(cs) => cs,
        Err(m) => {
            return Err(m);
        },
    };
    let ghost cs = criteria.deep_view();
    let session = read::read(store, schema);
    let mut wanted = query.display_columns.copy();
    let ghost base = wanted.deep_view();
    let mut i: usize = 0;
    assert(wanted.deep_view() =~= base + fields_of(cs).take(0));
    while i < criteria.len()
        invariant
            i <= criteria.len(),
            cs == criteria.deep_view(),
            wanted.deep_view() == base + fields_of(cs).take(i as int),
        decreases criteria.len() - i,
    {
        let ghost had = wanted.deep_view();
        assert(cs[i as int] == criteria@[i as int].deep_view());
        wanted.push(criteria[i].field.clone());
        proof {
            let f = fields_of(cs);
            assert(wanted.deep_view() =~= had.push(f[i as int]));
            assert(f.take(i as int + 1) =~= f.take(i as int).push(f[i as int]));
            assert(wanted.deep_view() =~= base + f.take(i as int + 1));
        }
        i += 1;
    }
    assert(fields_of(cs).take(cs.len() as int) =~= fields_of(cs));
    let state = read::inject_computed_columns(&store.config, session.state, &wanted);
    assert forall|i: int| 0 <= i < criteria.len() implies (#[trigger] criteria@[i]).field@.len() > 0 by {
        assert(cs[i] == criteria@[i].deep_view());
        lemma_field_not_empty(query.criteria.deep_view(), i);
    }
    let found = match filter_tasks(&store.config, &state, &criteria, query.open, query.ready) {
        Ok(v) => v,
        Err(m) => {
            return Err(m);
        },
    };
    let tasks = order::sort_tasks(&found, query.sort, query.reverse);
    Ok(ListOutcome { tasks, warnings: session.warnings })
}

/// The ids of the tasks that pass a filter.
pub open spec fn passing_ids(
    s: StateV,
    config: Config,
    cs: Seq<CriterionV>,
    open: bool,
    ready: bool,
) -> Set<Seq<char>> {
    Set::new(
        |id: Seq<char>|
            s.contains_key(id) && passes(
                s,
                config.relationships.types@,
                config.workflow.status_field@,
                config.workflow.done_status@,
                s[id],
                cs,
                open,
                ready,
            ),
    )
}

proof fn lemma_passing(
    s: StateV,
    types: TypesV,
    field: Seq<char>,
    done: Seq<char>,
    ids: Seq<Seq<char>>,
    cs: Seq<CriterionV>,
    open: bool,
    ready: bool,
    id: Seq<char>,
)
    requires
        forall|i: int| 0 <= i < ids.len() ==> s[#[trigger] ids[i]].id == ids[i],
    ensures
        (exists|k: int|
            0 <= k < passing(s, types, field, done, ids, cs, open, ready).len() && (
            #[trigger] passing(s, types, field, done, ids, cs, open, ready)[k]).id == id)
            <==> ids.contains(id) && passes(s, types, field, done, s[id], cs, open, ready),
    decreases ids.len(),
{
    let now = passing(s, types, field, done, ids, cs, open, ready);
    if ids.len() > 0 {
        let fewer = ids.drop_last();
        let rest = passing(s, types, field, done, fewer, cs, open, ready);
        assert forall|i: int| 0 <= i < fewer.len() implies s[#[trigger] fewer[i]].id == fewer[i] by {
            assert(ids[i] == fewer[i]);
        }
        lemma_passing(s, types, field, done, fewer, cs, open, ready, id);
        strmap::lemma_contains_last(ids, id);
        assert(s[ids[ids.len() - 1]].id == ids.last());
        if exists|k: int| 0 <= k < rest.len() && (#[trigger] rest[k]).id == id {
            let k = choose|k: int| 0 <= k < rest.len() && (#[trigger] rest[k]).id == id;
            assert(now[k].id == id);
        }
        if exists|k: int| 0 <= k < now.len() && (#[trigger] now[k]).id == id {
            let k = choose|k: int| 0 <= k < now.len() && (#[trigger] now[k]).id == id;
            if k < rest.len() {
                assert(rest[k].id == id);
            }
        }
        if id == ids.last() && passes(s, types, field, done, s[id], cs, open, ready) {
            assert(now[rest.len() as int].id == id);
        }
    }
}

/// The ids of the tasks of a state that match a filter, each task being kept
/// under its own id.
pub fn matching_ids(
    config: &Config,
    state: &StrMap<TaskState>,
    criteria: &Vec<String>,
    open: bool,
    ready: bool,
) -> (r: Result<StrSet, String>)
    requires
        forall|id: Seq<char>| state@.contains_key(id) ==> (#[trigger] state@[id]).id == id,
    ensures
        match all_compiled(criteria.deep_view()) {
            Err(m) => r matches Err(e) && e@ == m,
            Ok(cs) => {
                let cyclic = reach::cyclic(
                    graph::dep_edges(
                        state@,
                        config::gating_types(config.relationships.types@),
                    ),
                );
                match r {
                    Ok(ids) => !(ready && cyclic) && ids@ == passing_ids(
                        state@,
                        *config,
                        cs,
                        open,
                        ready,
                    ),
                    Err(m) => ready && cyclic && m@ == graph::cycle_message(),
                }
            },
        },
{
    let compiled = match compile_criteria(criteria) {
        Ok(cs) => cs,
        Err(m) => {
            return Err(m);
        },
    };
    let ghost cs = compiled.deep_view();
    assert forall|i: int| 0 <= i < compiled.len() implies (#[trigger] compiled@[i]).field@.len() > 0 by {
        assert(cs[i] == compiled@[i].deep_view());
        lemma_field_not_empty(criteria.deep_view(), i);
    }
    let found = match filter_tasks(config, state, &compiled, open, ready) {
        Ok(v) => v,
        Err(m) => {
            return Err(m);
        },
    };
    let ghost all = found.deep_view();
    let mut out = StrSet::new();
    let mut i: usize = 0;
    while i < found.len()
        invariant
            i <= found.len(),
            all == found.deep_view(),
            forall|id: Seq<char>| #[trigger]
                out@.contains(id) <==> exists|k: int| 0 <= k < i && (#[trigger] all[k]).id == id,
        decreases found.len() - i,
    {
        let ghost had = out@;
        assert(all[i as int] == found@[i as int]@);
        out.insert(found[i].id.clone());
        proof {
            assert forall|id: Seq<char>| #[trigger] out@.contains(id) <==> exists|k: int|
                0 <= k < i + 1 && (#[trigger] all[k]).id == id by {
                assert(had.contains(id) <==> exists|k: int|
                    0 <= k < i && (#[trigger] all[k]).id == id);
                assert(all[i as int].id == found@[i as int].id@);
            }
        }
        i += 1;
    }
    let n = state.len();
    proof {
        let types = config.relationships.types@;
        let field = config.workflow.status_field@;
        let done = config.workflow.done_status@;
        let ids = strmap::sorted_of(state@.dom());
        assert forall|i: int| 0 <= i < ids.len() implies state@[#[trigger] ids[i]].id == ids[i] by {
            assert(ids.to_set().contains(ids[i]));
            assert(state@.contains_key(ids[i]));
        }
        assert forall|id: Seq<char>| #[trigger] out@.contains(id) <==> passing_ids(
            state@,
            *config,
            cs,
            open,
            ready,
        ).contains(id) by {
            lemma_passing(state@, types, field, done, ids, cs, open, ready, id);
            assert(ids.to_set().contains(id) == ids.contains(id));
        }
        assert(out@ =~= passing_ids(state@, *config, cs, open, ready));
    }
    Ok(out)
}

/// A comparison says what its operator says. Of two values of one kind exactly
/// one of `>` and `<=` holds, and exactly one of `<` and `>=`; `>` is `<` turned
/// round; a value is neither above nor below itself. Texts compare at the first
/// place where they differ, `true` is above `false`, and numbers compare by
/// size. Values of different kinds, lists, objects and nulls do not compare at
/// all.
pub proof fn comparisons_compare(v: JsonV, q: JsonV)
    ensures
        ({
            let fit = (v is Num && q is Num) || (v is Str && q is Str) || (v is Bool && q is Bool);
            let above = order_holds(FilterOp::Gt, v, q);
            let below = order_holds(FilterOp::Lt, v, q);
            let upward = order_holds(FilterOp::Ge, v, q);
            let downward = order_holds(FilterOp::Le, v, q);
            &&& fit ==> above == !downward
            &&& fit ==> below == !upward
            &&& above == order_holds(FilterOp::Lt, q, v)
            &&& upward == order_holds(FilterOp::Le, q, v)
            &&& !(above && below)
            &&& v == q ==> !above && !below
            &&& !fit ==> !above && !below && !upward && !downward
        }),
        v is Str && q is Str ==> {
            let a = v->Str_0;
            let b = q->Str_0;
            &&& order_holds(FilterOp::Lt, v, q) <==> text_precedes(a, b)
            &&& order_holds(FilterOp::Gt, v, q) <==> text_precedes(b, a)
            &&& order_holds(FilterOp::Le, v, q) <==> text_precedes(a, b) || a == b
            &&& order_holds(FilterOp::Ge, v, q) <==> text_precedes(b, a) || a == b
        },
        v is Bool && q is Bool ==> (order_holds(FilterOp::Gt, v, q) <==> v->Bool_0 && !q->Bool_0),
        v is Num && q is Num ==> {
            let x = json::double_bits(v->Num_0) as int;
            let y = json::double_bits(q->Num_0) as int;
            let half = 0x8000_0000_0000_0000int;
            &&& x < half && y < half ==> (order_holds(FilterOp::Gt, v, q) <==> x > y)
            &&& x >= half && y >= half ==> (order_holds(FilterOp::Gt, v, q) <==> x < y)
            &&& x < half && y > half ==> order_holds(FilterOp::Gt, v, q)
        },
        !order_holds(FilterOp::Eq, v, q),
        !order_holds(FilterOp::Ne, v, q),
        !order_holds(FilterOp::Re, v, q),
        !order_holds(FilterOp::NotRe, v, q),
{
    order::json_order_flips(v, q);
    json::values_of_one_kind_are_ordered(v, q);
    if v is Str && q is Str {
        let a = v->Str_0;
        let b = q->Str_0;
        let n = lemma_first_difference(a, b);
        text::texts_differ_at_one_place(a, b, n);
        order::text_order_flips(a, b);
        if text_precedes(a, b) {
            let m = choose|m: int| #[trigger] differs_upward(a, b, m);
            text::texts_differ_at_one_place(a, b, m);
        }
        if text_precedes(b, a) {
            let m = choose|m: int| #[trigger] differs_upward(b, a, m);
            text::texts_differ_at_one_place(b, a, m);
        }
        if text::text_order(a, b) == Order::Less {
            assert(differs_upward(a, b, n));
        }
        if text::text_order(a, b) == Order::Greater {
            assert(differs_upward(b, a, n));
        }
        if n == a.len() && n == b.len() {
            assert(a =~= b);
        }
    }
}

/// Whether two texts agree before a place, and the first one ends there while
/// the other goes on, or has the smaller code point there.
pub open spec fn differs_upward(a: Seq<char>, b: Seq<char>, n: int) -> bool {
    &&& 0 <= n <= a.len()
    &&& n < b.len()
    &&& forall|i: int| 0 <= i < n ==> a[i] == b[i]
    &&& n < a.len() ==> (a[n] as int) < (b[n] as int)
}

/// Whether a text comes before another.
pub open spec fn text_precedes(a: Seq<char>, b: Seq<char>) -> bool {
    exists|n: int| #[trigger] differs_upward(a, b, n)
}

proof fn lemma_first_difference(a: Seq<char>, b: Seq<char>) -> (n: int)
    ensures
        0 <= n <= a.len(),
        n <= b.len(),
        forall|i: int| 0 <= i < n ==> a[i] == b[i],
        n < a.len() && n < b.len() ==> a[n] != b[n],
    decreases a.len(),
{
    if a.len() == 0 || b.len() == 0 || a[0] != b[0] {
        0
    } else {
        let x = a.drop_first();
        let y = b.drop_first();
        let m = lemma_first_difference(x, y);
        assert forall|i: int| 0 <= i < m + 1 implies a[i] == b[i] by {
            if i > 0 {
                assert(x[i - 1] == y[i - 1]);
            }
        }
        if m + 1 < a.len() && m + 1 < b.len() {
            assert(x[m] == a[m + 1] && y[m] == b[m + 1]);
        }
        m + 1
    }
}

/// Whether a value that a field holds, or an element of it where it is a list,
/// passes a test. A field that is not there holds nothing.
pub open spec fn holds_one(t: TaskV, field: Seq<char>, test: spec_fn(JsonV) -> bool) -> bool {
    t.custom_fields.contains_key(field) && match t.custom_fields[field] {
        JsonV::List(items) => exists|i: int| 0 <= i < items.len() && test(#[trigger] items[i]),
        v => test(v),
    }
}

/// Criteria on a plain field: `=` asks for a value that is the same, `=~` for one
/// whose text matches, an order for one on that side; `!=` and `!~` hold exactly
/// where `=` and `=~` do not, and so of a field that is not there.
pub proof fn criteria_test_fields(
    s: StateV,
    types: TypesV,
    t: TaskV,
    field: Seq<char>,
    q: JsonV,
    p: Seq<char>,
    op: FilterOp,
)
    requires
        field != ID_KEY@,
        field != DEPS_KEY@,
        !types.contains_key(field),
        forall|rel: Seq<char>| types.contains_key(rel) ==> (#[trigger] types[rel]).inverse != field,
    ensures
        satisfies(s, types, t, CriterionV { field, matcher: MatcherV::Eq(q) }) <==> holds_one(
            t,
            field,
            |v: JsonV| json::json_same(v, q),
        ),
        satisfies(s, types, t, CriterionV { field, matcher: MatcherV::Ne(q) }) <==> !holds_one(
            t,
            field,
            |v: JsonV| json::json_same(v, q),
        ),
        satisfies(s, types, t, CriterionV { field, matcher: MatcherV::Re(p) }) <==> holds_one(
            t,
            field,
            |v: JsonV|
                pattern::regex_matches(
                    p,
                    match v {
                        JsonV::Str(x) => x,
                        _ => json::compact(v),
                    },
                ),
        ),
        satisfies(s, types, t, CriterionV { field, matcher: MatcherV::NotRe(p) }) <==> !holds_one(
            t,
            field,
            |v: JsonV|
                pattern::regex_matches(
                    p,
                    match v {
                        JsonV::Str(x) => x,
                        _ => json::compact(v),
                    },
                ),
        ),
        satisfies(s, types, t, CriterionV { field, matcher: MatcherV::Ordered(op, q) })
            <==> holds_one(t, field, |v: JsonV| order_holds(op, v, q)),
{
    let same = |v: JsonV| json::json_same(v, q);
    let fits = |v: JsonV|
        pattern::regex_matches(
            p,
            match v {
                JsonV::Str(x) => x,
                _ => json::compact(v),
            },
        );
    let side = |v: JsonV| order_holds(op, v, q);
    lemma_field_test(s, types, t, CriterionV { field, matcher: MatcherV::Eq(q) }, same);
    lemma_field_test(s, types, t, CriterionV { field, matcher: MatcherV::Ne(q) }, same);
    lemma_field_test(s, types, t, CriterionV { field, matcher: MatcherV::Re(p) }, fits);
    lemma_field_test(s, types, t, CriterionV { field, matcher: MatcherV::NotRe(p) }, fits);
    lemma_field_test(s, types, t, CriterionV { field, matcher: MatcherV::Ordered(op, q) }, side);
}

proof fn lemma_field_test(
    s: StateV,
    types: TypesV,
    t: TaskV,
    c: CriterionV,
    test: spec_fn(JsonV) -> bool,
)
    requires
        c.field != ID_KEY@,
        c.field != DEPS_KEY@,
        !types.contains_key(c.field),
        forall|rel: Seq<char>|
            types.contains_key(rel) ==> (#[trigger] types[rel]).inverse != c.field,
        forall|v: JsonV| #[trigger] test(v) == value_hits(c.matcher, v),
    ensures
        satisfies(s, types, t, c) <==> (holds_one(t, c.field, test) != negated(c.matcher)),
{
    let field = c.field;
    assert(!names_inverse(types, field));
    if holds_one(t, field, test) {
        match t.custom_fields[field] {
            JsonV::List(items) => {
                let i = choose|i: int| 0 <= i < items.len() && test(#[trigger] items[i]);
                assert(items.contains(items[i]));
                assert(offers(s, types, t, field, items[i]) && value_hits(c.matcher, items[i]));
            },
            v => {
                assert(test(v));
                assert(offers(s, types, t, field, v) && value_hits(c.matcher, v));
            },
        }
    }
    if exists|v: JsonV| #[trigger]
        offers(s, types, t, field, v) && value_hits(c.matcher, v) {
        let v = choose|v: JsonV| #[trigger]
            offers(s, types, t, field, v) && value_hits(c.matcher, v);
        assert(test(v));
        if let JsonV::List(items) = t.custom_fields[field] {
            let i = choose|i: int| 0 <= i < items.len() && items[i] == v;
            assert(test(items[i]));
        }
    }
}

proof fn lemma_denied(
    s: StateV,
    types: TypesV,
    t: TaskV,
    c: CriterionV,
    d: CriterionV,
    x: Seq<char>,
)
    requires
        c.field == d.field,
        c.matcher == MatcherV::Eq(JsonV::Str(x)),
        d.matcher == MatcherV::Ne(JsonV::Str(x)),
    ensures
        satisfies(s, types, t, d) == !satisfies(s, types, t, c),
        c.field == ID_KEY@ || c.field == DEPS_KEY@ || types.contains_key(c.field) || names_inverse(
            types,
            c.field,
        ) ==> satisfies(s, types, t, c) == offers(s, types, t, c.field, JsonV::Str(x)),
{
    let one = JsonV::Str(x);
    if offers(s, types, t, c.field, one) {
        assert(value_hits(c.matcher, one));
    }
    if satisfies(s, types, t, c) {
        let v = choose|v: JsonV| #[trigger]
            offers(s, types, t, c.field, v) && value_hits(c.matcher, v);
        assert(offers(s, types, t, d.field, v) && value_hits(d.matcher, v));
        assert(v is Str ==> v == one);
    } else if !satisfies(s, types, t, d) {
        let v = choose|v: JsonV| #[trigger]
            offers(s, types, t, d.field, v) && value_hits(d.matcher, v);
        assert(offers(s, types, t, c.field, v) && value_hits(c.matcher, v));
    }
}

/// Criteria on a task's id and edges. `id` is the id; `deps` are the targets of
/// all edges; the name of a relationship type stands for the targets of its own
/// edges, and an inverse name for the tasks with an edge of that type to here.
pub proof fn criteria_test_edges(
    s: StateV,
    types: TypesV,
    t: TaskV,
    field: Seq<char>,
    x: Seq<char>,
)
    ensures
        ({
            let eq = satisfies(
                s,
                types,
                t,
                CriterionV { field, matcher: MatcherV::Eq(JsonV::Str(x)) },
            );
            let ne = satisfies(
                s,
                types,
                t,
                CriterionV { field, matcher: MatcherV::Ne(JsonV::Str(x)) },
            );
            &&& ne == !eq
            &&& field == ID_KEY@ ==> (eq <==> x == t.id)
            &&& field == DEPS_KEY@ && field != ID_KEY@ ==> (eq <==> exists|rel: Seq<char>| #[trigger]
                t.relationships.contains_key(rel) && t.relationships[rel].contains(x))
            &&& field != DEPS_KEY@ && field != ID_KEY@ && field.len() > 0 && (types.contains_key(field)
                || exists|rel: Seq<char>| #[trigger]
                types.contains_key(rel) && types[rel].inverse == field) ==> (eq <==> (
            types.contains_key(field) && t.relationships.contains_key(field)
                && t.relationships[field].contains(x)) || (s.contains_key(x) && exists|
                rel: Seq<char>,
            | #[trigger]
                s[x].relationships.contains_key(rel) && s[x].relationships[rel].contains(t.id)
                    && types.contains_key(rel) && types[rel].inverse == field))
        }),
{
    let c = CriterionV { field, matcher: MatcherV::Eq(JsonV::Str(x)) };
    let d = CriterionV { field, matcher: MatcherV::Ne(JsonV::Str(x)) };
    let one = JsonV::Str(x);
    lemma_denied(s, types, t, c, d, x);
    if field == DEPS_KEY@ && field != ID_KEY@ {
        assert forall|rel: Seq<char>|
            t.relationships.contains_key(rel) && t.relationships[rel].contains(x) implies #[trigger]
            compensate::has_edge(t.relationships, rel, x) by {}
        if offers(s, types, t, field, one) {
            let rel = choose|rel: Seq<char>| #[trigger]
                compensate::has_edge(t.relationships, rel, x);
            assert(t.relationships.contains_key(rel));
        }
        if exists|rel: Seq<char>| #[trigger]
            t.relationships.contains_key(rel) && t.relationships[rel].contains(x) {
            let rel = choose|rel: Seq<char>| #[trigger]
                t.relationships.contains_key(rel) && t.relationships[rel].contains(x);
            assert(compensate::has_edge(t.relationships, rel, one->Str_0));
            assert(offers(s, types, t, field, one));
        }
    }
    if s.contains_key(x) {
        let rels = s[x].relationships;
        if rel_points(rels, types, t.id, field) {
            let rel = choose|rel: Seq<char>| #[trigger]
                compensate::has_edge(rels, rel, t.id) && types.contains_key(rel)
                    && types[rel].inverse == field;
            assert(rels.contains_key(rel));
        }
        if exists|rel: Seq<char>| #[trigger]
            rels.contains_key(rel) && rels[rel].contains(t.id) && types.contains_key(rel)
                && types[rel].inverse == field {
            let rel = choose|rel: Seq<char>| #[trigger]
                rels.contains_key(rel) && rels[rel].contains(t.id) && types.contains_key(rel)
                    && types[rel].inverse == field;
            assert(compensate::has_edge(rels, rel, t.id));
        }
    }
    if exists|rel: Seq<char>| #[trigger] types.contains_key(rel) && types[rel].inverse == field {
        let rel = choose|rel: Seq<char>| #[trigger]
            types.contains_key(rel) && types[rel].inverse == field;
        assert(names_inverse(types, field));
    }
}

/// What a filter lets through: with `--open` no done task; with `--ready` only
/// tasks that are there and not done, and of which every existing task that they
/// wait for is done; and only tasks that satisfy each of the criteria.
pub proof fn filters_let_through(
    s: StateV,
    types: TypesV,
    field: Seq<char>,
    done: Seq<char>,
    t: TaskV,
    cs: Seq<CriterionV>,
    open: bool,
    ready: bool,
)
    ensures
        passes(s, types, field, done, t, cs, open, ready) <==> {
            &&& open ==> !has_status(t, field, done)
            &&& ready ==> s.contains_key(t.id) && !has_status(s[t.id], field, done) && forall|
                rel: Seq<char>,
                target: Seq<char>,
            |
                #![trigger s[t.id].relationships[rel].contains(target)]
                s[t.id].relationships.contains_key(rel) && s[t.id].relationships[rel].contains(
                    target,
                ) && types.contains_key(rel) && types[rel].kind != config::RelKind::Info
                    && s.contains_key(target) ==> has_status(s[target], field, done)
            &&& forall|i: int| 0 <= i < cs.len() ==> satisfies(s, types, t, #[trigger] cs[i])
        },
{
    let blockers = config::gating_types(types);
    if s.contains_key(t.id) {
        let rels = s[t.id].relationships;
        if graph::blocked_task(s, t.id, field, done, blockers) {
            let b = choose|b: Seq<char>| #[trigger]
                graph::dep_edges(s, blockers).contains((t.id, b)) && graph::open_task(
                    s,
                    b,
                    field,
                    done,
                );
            let rel = choose|rel: Seq<char>|
                blockers.contains(rel) && #[trigger] rels.contains_key(rel) && rels[rel].contains(b);
            assert(s[t.id].relationships[rel].contains(b));
        } else {
            assert forall|rel: Seq<char>, target: Seq<char>|
                #![trigger s[t.id].relationships[rel].contains(target)]
                rels.contains_key(rel) && rels[rel].contains(target) && types.contains_key(rel)
                    && types[rel].kind != config::RelKind::Info && s.contains_key(
                    target,
                ) implies has_status(s[target], field, done) by {
                assert(blockers.contains(rel));
                assert(graph::gates(s[t.id], blockers, target));
                assert(graph::dep_edges(s, blockers).contains((t.id, target)));
            }
        }
    }
}

/// Whether a field of a task holds a text.
pub open spec fn has_status(t: TaskV, field: Seq<char>, status: Seq<char>) -> bool {
    t.custom_fields.contains_key(field) && t.custom_fields[field] == JsonV::Str(status)
}

/// A listing holds every task that passes its filter and no other, each once.
pub proof fn listings_hold_what_passes(
    s: StateV,
    types: TypesV,
    field: Seq<char>,
    done: Seq<char>,
    ids: Seq<Seq<char>>,
    cs: Seq<CriterionV>,
    open: bool,
    ready: bool,
    t: TaskV,
)
    requires
        ids.no_duplicates(),
        forall|i: int| 0 <= i < ids.len() ==> s[#[trigger] ids[i]].id == ids[i],
    ensures
        passing(s, types, field, done, ids, cs, open, ready).contains(t) <==> ids.contains(t.id)
            && t == s[t.id] && passes(s, types, field, done, t, cs, open, ready),
        passing(s, types, field, done, ids, cs, open, ready).no_duplicates(),
    decreases ids.len(),
{
    if ids.len() > 0 {
        let rest = ids.drop_last();
        let last = ids.last();
        assert(s[ids[ids.len() - 1]].id == last);
        listings_hold_what_passes(s, types, field, done, rest, cs, open, ready, t);
        listings_hold_what_passes(s, types, field, done, rest, cs, open, ready, s[last]);
        strmap::lemma_contains_last(ids, t.id);
        let found = passing(s, types, field, done, rest, cs, open, ready);
        let all = passing(s, types, field, done, ids, cs, open, ready);
        assert(!rest.contains(last));
        if passes(s, types, field, done, s[last], cs, open, ready) {
            assert(all.drop_last() =~= found);
            strmap::lemma_contains_last(all, t);
        }
    }
}

/// Whether no character of a text starts an operator.
pub open spec fn free_of_operators(s: Seq<char>) -> bool {
    forall|i: int|
        0 <= i < s.len() ==> #[trigger] s[i] != '=' && s[i] != '<' && s[i] != '>' && s[i] != '!'
}

proof fn lemma_first_op(raw: Seq<char>, from: nat, n: nat)
    requires
        from <= n < raw.len(),
        forall|i: int| from <= i < n ==> op_at(raw, i) is None,
        op_at(raw, n as int) is Some,
    ensures
        first_op(raw, from) == n,
    decreases n - from,
{
    if from < n {
        lemma_first_op(raw, from + 1, n);
    }
}

/// A criterion reads back: a field name, an operator and a value written one
/// after the other are split into just these, and the operator means what it is
/// written as.
pub proof fn criteria_read_back(field: Seq<char>, value: Seq<char>)
    requires
        field.len() > 0,
        free_of_operators(field),
    ensures
        value.len() == 0 || value[0] != '~' ==> criterion_parts(field + seq!['='] + value) == Ok::<
            (Seq<char>, FilterOp, Seq<char>),
            Seq<char>,
        >((field, FilterOp::Eq, value)),
        criterion_parts(field + seq!['!', '='] + value) == Ok::<
            (Seq<char>, FilterOp, Seq<char>),
            Seq<char>,
        >((field, FilterOp::Ne, value)),
        criterion_parts(field + seq!['=', '~'] + value) == Ok::<
            (Seq<char>, FilterOp, Seq<char>),
            Seq<char>,
        >((field, FilterOp::Re, value)),
        criterion_parts(field + seq!['!', '~'] + value) == Ok::<
            (Seq<char>, FilterOp, Seq<char>),
            Seq<char>,
        >((field, FilterOp::NotRe, value)),
        value.len() == 0 || value[0] != '=' ==> criterion_parts(field + seq!['>'] + value) == Ok::<
            (Seq<char>, FilterOp, Seq<char>),
            Seq<char>,
        >((field, FilterOp::Gt, value)),
        criterion_parts(field + seq!['>', '='] + value) == Ok::<
            (Seq<char>, FilterOp, Seq<char>),
            Seq<char>,
        >((field, FilterOp::Ge, value)),
        value.len() == 0 || value[0] != '=' ==> criterion_parts(field + seq!['<'] + value) == Ok::<
            (Seq<char>, FilterOp, Seq<char>),
            Seq<char>,
        >((field, FilterOp::Lt, value)),
        criterion_parts(field + seq!['<', '='] + value) == Ok::<
            (Seq<char>, FilterOp, Seq<char>),
            Seq<char>,
        >((field, FilterOp::Le, value)),
        criterion_parts(field) is Err,
{
    if value.len() == 0 || value[0] != '~' {
        lemma_parts(field, seq!['='], value, FilterOp::Eq);
    }
    lemma_parts(field, seq!['!', '='], value, FilterOp::Ne);
    lemma_parts(field, seq!['=', '~'], value, FilterOp::Re);
    lemma_parts(field, seq!['!', '~'], value, FilterOp::NotRe);
    if value.len() == 0 || value[0] != '=' {
        lemma_parts(field, seq!['>'], value, FilterOp::Gt);
        lemma_parts(field, seq!['<'], value, FilterOp::Lt);
    }
    lemma_parts(field, seq!['>', '='], value, FilterOp::Ge);
    lemma_parts(field, seq!['<', '='], value, FilterOp::Le);
    lemma_no_op(field, 0);
}

proof fn lemma_no_op(s: Seq<char>, from: nat)
    requires
        from <= s.len(),
        free_of_operators(s),
    ensures
        first_op(s, from) == s.len(),
    decreases s.len() - from,
{
    if from < s.len() {
        lemma_no_op(s, from + 1);
    }
}

proof fn lemma_parts(field: Seq<char>, word: Seq<char>, value: Seq<char>, op: FilterOp)
    requires
        field.len() > 0,
        free_of_operators(field),
        word.len() > 0,
        op_at(field + word + value, field.len() as int) == Some((op, word.len())),
    ensures
        criterion_parts(field + word + value) == Ok::<(Seq<char>, FilterOp, Seq<char>), Seq<char>>(
            (field, op, value),
        ),
{
    let raw = field + word + value;
    assert forall|i: int| 0 <= i < field.len() implies op_at(raw, i) is None by {
        assert(raw[i] == field[i]);
    }
    lemma_first_op(raw, 0, field.len());
    assert(raw.take(field.len() as int) =~= field);
    assert(raw.skip((field.len() + word.len()) as int) =~= value);
}

/// A listing answers its query: it holds the tasks that the filter lets through
/// and no others, in the order of the column. A criterion that cannot be read is
/// refused, and so is a search for ready tasks where tasks wait for themselves.
pub proof fn listings_answer_their_query(
    store: Store,
    schema: SchemaReading,
    query: ListQuery,
    o: ListOutcome,
    t: TaskV,
)
    requires
        call_ensures(list_tasks, (&store, &schema, &query), Ok::<ListOutcome, String>(o)),
        store.shown(schema).dom().finite(),
        forall|id: Seq<char>|
            store.shown(schema).contains_key(id) ==> (#[trigger] store.shown(schema)[id]).id == id,
    ensures
        all_compiled(query.criteria.deep_view()) is Ok,
        ({
            let cs = all_compiled(query.criteria.deep_view())->Ok_0;
            let s = read::with_computed(
                store.shown(schema),
                query.display_columns.deep_view() + cs.map_values(|c: CriterionV| c.field),
                store.gates(),
                store.hierarchy(),
                store.config.workflow.status_field@,
                store.config.workflow.done_status@,
            );
            &&& o.tasks.deep_view().contains(t) <==> s.contains_key(t.id) && t == s[t.id] && passes(
                s,
                store.config.relationships.types@,
                store.config.workflow.status_field@,
                store.config.workflow.done_status@,
                t,
                cs,
                query.open,
                query.ready,
            )
            &&& order::in_column_order(o.tasks.deep_view(), query.sort@, query.reverse)
        }),
{
    broadcast use vstd::seq_lib::group_to_multiset_ensures;

    let cs = all_compiled(query.criteria.deep_view())->Ok_0;
    let s = query.over(store, schema, cs);
    let ids = strmap::sorted_of(s.dom());
    assert(s.dom() =~= store.shown(schema).dom());
    strmap::sorted_of_finite(s.dom());
    strmap::lemma_ascending_distinct(ids);
    assert forall|i: int| 0 <= i < ids.len() implies s[#[trigger] ids[i]].id == ids[i] by {
        assert(ids.contains(ids[i]));
        assert(ids.to_set().contains(ids[i]));
        assert(store.shown(schema).contains_key(ids[i]));
        assert(store.shown(schema)[ids[i]].id == ids[i]);
    }
    assert(ids.to_set().contains(t.id) <==> ids.contains(t.id));
    let types = store.config.relationships.types@;
    let field = store.config.workflow.status_field@;
    let done = store.config.workflow.done_status@;
    listings_hold_what_passes(s, types, field, done, ids, cs, query.open, query.ready, t);
    let found = passing(s, types, field, done, ids, cs, query.open, query.ready);
    assert(o.tasks.deep_view().to_multiset().count(t) == found.to_multiset().count(t));
    assert(o.tasks.deep_view().contains(t) <==> o.tasks.deep_view().to_multiset().count(t) > 0);
    assert(found.contains(t) <==> found.to_multiset().count(t) > 0);
}

/// What a criterion means: `=` and `!=` test for the value, which is JSON where
/// it is that and text otherwise, `=~` and `!~` for a match of the pattern, which
/// has to be one, and the comparisons for the side on which the value stands.
pub proof fn criteria_mean_what_they_say(field: Seq<char>, value: Seq<char>)
    requires
        field.len() > 0,
        free_of_operators(field),
        value.len() > 0 ==> value[0] != '~' && value[0] != '=',
    ensures
        ({
            let v = match json::json_parsed(value) {
                Ok(v) => v,
                Err(_) => JsonV::Str(value),
            };
            let means = |word: Seq<char>, matcher: MatcherV|
                compiled(field + word + value) == Ok::<CriterionV, Seq<char>>(
                    (CriterionV { field, matcher }),
                );
            &&& means(seq!['='], MatcherV::Eq(v))
            &&& means(seq!['!', '='], MatcherV::Ne(v))
            &&& means(seq!['>'], MatcherV::Ordered(FilterOp::Gt, v))
            &&& means(seq!['>', '='], MatcherV::Ordered(FilterOp::Ge, v))
            &&& means(seq!['<'], MatcherV::Ordered(FilterOp::Lt, v))
            &&& means(seq!['<', '='], MatcherV::Ordered(FilterOp::Le, v))
            &&& pattern::regex_error(value) is None ==> means(seq!['=', '~'], MatcherV::Re(value))
            &&& pattern::regex_error(value) is None ==> means(
                seq!['!', '~'],
                MatcherV::NotRe(value),
            )
            &&& pattern::regex_error(value) is Some ==> compiled(field + seq!['=', '~'] + value) is Err
            &&& pattern::regex_error(value) is Some ==> compiled(field + seq!['!', '~'] + value) is Err
            &&& compiled(field) is Err
        }),
{
    criteria_read_back(field, value);
}

proof fn lemma_all_compiled(raw: Seq<Seq<char>>)
    ensures
        all_compiled(raw) is Ok <==> forall|i: int|
            0 <= i < raw.len() ==> compiled(#[trigger] raw[i]) is Ok,
        all_compiled(raw) is Ok ==> all_compiled(raw)->Ok_0.len() == raw.len() && forall|i: int|
            0 <= i < raw.len() ==> compiled(raw[i]) == Ok::<CriterionV, Seq<char>>(
                #[trigger] all_compiled(raw)->Ok_0[i],
            ),
    decreases raw.len(),
{
    if raw.len() > 0 {
        let rest = raw.drop_last();
        lemma_all_compiled(rest);
        assert(raw[raw.len() - 1] == raw.last());
        if all_compiled(raw) is Ok {
            assert forall|i: int| 0 <= i < raw.len() implies compiled(#[trigger] raw[i]) is Ok by {
                if i < rest.len() {
                    assert(rest[i] == raw[i]);
                }
            }
            let few = all_compiled(rest)->Ok_0;
            let all = all_compiled(raw)->Ok_0;
            assert forall|i: int| 0 <= i < raw.len() implies compiled(raw[i]) == Ok::<
                CriterionV,
                Seq<char>,
            >(#[trigger] all[i]) by {
                if i < rest.len() {
                    assert(rest[i] == raw[i]);
                    assert(all[i] == few[i]);
                }
            }
        } else if forall|i: int| 0 <= i < raw.len() ==> compiled(#[trigger] raw[i]) is Ok {
            assert forall|i: int| 0 <= i < rest.len() implies compiled(#[trigger] rest[i]) is Ok by {
                assert(rest[i] == raw[i]);
            }
        }
    }
}

/// Criteria are read one by one: all of them where each can be read, and each as
/// it reads alone.
pub proof fn criteria_are_read_one_by_one(raw: Seq<Seq<char>>, i: int)
    requires
        0 <= i < raw.len(),
    ensures
        all_compiled(raw) is Ok ==> all_compiled(raw)->Ok_0.len() == raw.len() && compiled(raw[i])
            == Ok::<CriterionV, Seq<char>>(all_compiled(raw)->Ok_0[i]),
        compiled(raw[i]) is Err ==> all_compiled(raw) is Err,
        (forall|k: int| 0 <= k < raw.len() ==> compiled(#[trigger] raw[k]) is Ok) ==> all_compiled(
            raw,
        ) is Ok,
{
    lemma_all_compiled(raw);
}

} // verus!
