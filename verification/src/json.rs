//! JSON values as tasks hold them.

use crate::strmap::{self, Data, StrMap};
use crate::text;
use vstd::prelude::*;

verus! {

/// A number of the `serde_json` crate.
#[verifier::external_type_specification]
#[verifier::external_body]
pub struct ExNumber(serde_json::Number);

/// What a number of the `serde_json` crate is.
pub uninterp spec fn number_content(n: serde_json::Number) -> NumberV;

/// A JSON number.
#[derive(Debug)]
pub struct JsonNumber {
    inner: serde_json::Number,
}

/// The model of a [`JsonNumber`]: a non-negative integer, a negative one, or a
/// double by its bits.
pub enum NumberV {
    Pos(u64),
    Neg(i64),
    Float(u64),
}

/// What a [`JsonNumber`] is: a non-negative integer, a negative one, or a double by
/// its bits.
#[derive(Clone, Copy, Debug, PartialEq, Eq, Structural)]
pub enum NumberKind {
    Pos(u64),
    Neg(i64),
    Float(u64),
}

impl View for NumberKind {
    type V = NumberV;

    open spec fn view(&self) -> NumberV {
        match self {
            NumberKind::Pos(u) => NumberV::Pos(*u),
            NumberKind::Neg(i) => NumberV::Neg(*i),
            NumberKind::Float(bits) => NumberV::Float(*bits),
        }
    }
}

/// A JSON value. An object keeps its keys in order.
pub enum Json {
    Null,
    Bool(bool),
    Num(JsonNumber),
    Str(String),
    List(Vec<Json>),
    Obj(StrMap<Json>),
}

/// The model of a [`Json`]. An object is its entries in key order.
pub enum JsonV {
    Null,
    Bool(bool),
    Num(NumberV),
    Str(Seq<char>),
    List(Seq<JsonV>),
    Obj(Seq<(Seq<char>, JsonV)>),
}

impl View for JsonNumber {
    type V = NumberV;

    closed spec fn view(&self) -> NumberV {
        number_content(self.inner)
    }
}

impl JsonNumber {
    /// A non-negative integer.
    pub fn from_u64(u: u64) -> (r: Self)
        ensures
            r@ == NumberV::Pos(u),
    {
        JsonNumber { inner: make_number(u) }
    }

    /// What the number is.
    pub fn kind(&self) -> (r: NumberKind)
        ensures
            r@ == self@,
    {
        open_number(&self.inner)
    }
}

/// `serde_json::Number::from` of a `u64`.
#[verifier::external_body]
fn make_number(u: u64) -> (r: serde_json::Number)
    ensures
        number_content(r) == NumberV::Pos(u),
{
    serde_json::Number::from(u)
}

/// `serde_json::Number::as_u64`, `as_i64` and `as_f64`, which tell the three
/// kinds of number apart.
#[verifier::external_body]
fn open_number(n: &serde_json::Number) -> (r: NumberKind)
    ensures
        r@ == number_content(*n),
{
    match (n.as_u64(), n.as_i64()) {
        (Some(u), _) => NumberKind::Pos(u),
        (None, Some(i)) => NumberKind::Neg(i),
        (None, None) => NumberKind::Float(n.as_f64().map_or(0, |x| x.to_bits())),
    }
}

/// `serde_json::Number::clone`.
#[verifier::external_body]
fn clone_number(n: &serde_json::Number) -> (r: serde_json::Number)
    ensures
        number_content(r) == number_content(*n),
{
    n.clone()
}

/// The model of `v`.
pub open spec fn json_view(v: Json) -> JsonV
    decreases v,
{
    match v {
        Json::Null => JsonV::Null,
        Json::Bool(b) => JsonV::Bool(b),
        Json::Num(n) => JsonV::Num(n@),
        Json::Str(s) => JsonV::Str(s@),
        Json::List(items) => JsonV::List(
            Seq::new(
                items@.len(),
                |i: int|
                    if 0 <= i < items@.len() {
                        json_view(items@[i])
                    } else {
                        JsonV::Null
                    },
            ),
        ),
        Json::Obj(m) => JsonV::Obj(object_view(m)),
    }
}

/// The entries of an object in key order.
pub closed spec fn object_view(m: StrMap<Json>) -> Seq<(Seq<char>, JsonV)>
    decreases m,
{
    Seq::new(
        m.entries@.len(),
        |i: int|
            if 0 <= i < m.entries@.len() {
                (m.entries@[i].0@, json_view(m.entries@[i].1))
            } else {
                (Seq::empty(), JsonV::Null)
            },
    )
}

impl View for Json {
    type V = JsonV;

    open spec fn view(&self) -> JsonV {
        json_view(*self)
    }
}

impl DeepView for Json {
    type V = JsonV;

    open spec fn deep_view(&self) -> JsonV {
        self@
    }
}

/// The model of a list is the list of its items' models.
pub proof fn lemma_list_view(items: Vec<Json>)
    ensures
        Json::List(items)@ == JsonV::List(items.deep_view()),
{
    assert(json_view(Json::List(items))->List_0 =~= items.deep_view());
}

/// The model of an object is the list of its entries' models.
pub(crate) proof fn lemma_object_view(m: StrMap<Json>)
    ensures
        Json::Obj(m)@ == JsonV::Obj(object_view(m)),
        object_view(m).len() == m.entries@.len(),
        forall|i: int|
            0 <= i < m.entries@.len() ==> #[trigger] object_view(m)[i] == (
                m.entries@[i].0@,
                m.entries@[i].1@,
            ),
{
    reveal_with_fuel(object_view, 2);
    reveal_with_fuel(json_view, 2);
}

impl Data for Json {
    fn copy(&self) -> (r: Self) {
        copy_json(self)
    }
}

/// A copy of `v`.
fn copy_json(v: &Json) -> (r: Json)
    ensures
        r@ == v@,
    decreases v@,
{
    match v {
        Json::Null => Json::Null,
        Json::Bool(b) => Json::Bool(*b),
        Json::Num(n) => Json::Num(copy_number(n)),
        Json::Str(s) => Json::Str(s.clone()),
        Json::List(items) => {
            let mut out: Vec<Json> = Vec::new();
            let mut i: usize = 0;
            while i < items.len()
                invariant
                    i <= items.len(),
                    out.len() == i,
                    v == Json::List(*items),
                    forall|j: int| 0 <= j < i ==> (#[trigger] out@[j])@ == items@[j]@,
                decreases items.len() - i,
            {
                assert(v@->List_0[i as int] == items@[i as int]@);
                assert(decreases_to!(v@->List_0 => v@->List_0[i as int]));
                out.push(copy_json(&items[i]));
                i += 1;
            }
            proof {
                lemma_list_view(out);
                lemma_list_view(*items);
                assert(out.deep_view() =~= items.deep_view());
            }
            Json::List(out)
        },
        Json::Obj(m) => {
            let mut out: Vec<(String, Json)> = Vec::new();
            let mut i: usize = 0;
            while i < m.entries.len()
                invariant
                    i <= m.entries.len(),
                    out.len() == i,
                    v == Json::Obj(*m),
                    forall|j: int|
                        0 <= j < i ==> (#[trigger] out@[j]).0@ == m.entries@[j].0@ && out@[j].1@
                            == m.entries@[j].1@,
                decreases m.entries.len() - i,
            {
                proof {
                    lemma_object_view(*m);
                }
                assert(v@->Obj_0[i as int].1 == m.entries@[i as int].1@);
                assert(decreases_to!(v@->Obj_0 => v@->Obj_0[i as int]));
                out.push((m.entries[i].0.clone(), copy_json(&m.entries[i].1)));
                i += 1;
            }
            let n = m.len();
            proof {
                m.lemma_keys();
                assert forall|i: int, j: int| 0 <= i < j < out@.len() implies #[trigger] text::text_lt(
                    out@[i].0@,
                    out@[j].0@,
                ) by {
                    assert(text::text_lt(m.keys_view()[i], m.keys_view()[j]));
                }
            }
            let r = StrMap::from_ordered(out);
            proof {
                lemma_object_view(*m);
                lemma_object_view(r);
                assert(object_view(r) =~= object_view(*m));
            }
            Json::Obj(r)
        },
    }
}

fn copy_number(n: &JsonNumber) -> (r: JsonNumber)
    ensures
        r@ == n@,
{
    JsonNumber { inner: clone_number(&n.inner) }
}

/// Whether a double is a zero of either sign.
pub open spec fn zero_bits(bits: u64) -> bool {
    bits == 0 || bits == 0x8000_0000_0000_0000
}

/// Whether two numbers are the same number. The two zeros of a double are.
pub open spec fn number_same(a: NumberV, b: NumberV) -> bool {
    a == b || match (a, b) {
        (NumberV::Float(x), NumberV::Float(y)) => zero_bits(x) && zero_bits(y),
        _ => false,
    }
}

/// JSON equality: same shape, same numbers and texts.
pub open spec fn json_same(a: JsonV, b: JsonV) -> bool
    decreases a,
{
    match (a, b) {
        (JsonV::Num(x), JsonV::Num(y)) => number_same(x, y),
        (JsonV::List(x), JsonV::List(y)) => x.len() == y.len() && forall|i: int|
            0 <= i < x.len() ==> json_same(#[trigger] x[i], y[i]),
        (JsonV::Obj(x), JsonV::Obj(y)) => x.len() == y.len() && forall|i: int|
            0 <= i < x.len() ==> (#[trigger] x[i]).0 == y[i].0 && json_same(x[i].1, y[i].1),
        _ => a == b,
    }
}

/// JSON equality holds of equal models.
pub proof fn json_same_reflexive(a: JsonV)
    ensures
        json_same(a, a),
    decreases a,
{
    match a {
        JsonV::List(x) => {
            assert forall|i: int| 0 <= i < x.len() implies json_same(#[trigger] x[i], x[i]) by {
                json_same_reflexive(x[i]);
            }
        },
        JsonV::Obj(x) => {
            assert forall|i: int| 0 <= i < x.len() implies (#[trigger] x[i]).0 == x[i].0
                && json_same(x[i].1, x[i].1) by {
                json_same_reflexive(x[i].1);
            }
        },
        _ => {},
    }
}

/// The equality of values is symmetric.
pub proof fn json_same_symmetric(a: JsonV, b: JsonV)
    requires
        json_same(a, b),
    ensures
        json_same(b, a),
    decreases a,
{
    match (a, b) {
        (JsonV::List(x), JsonV::List(y)) => {
            assert forall|i: int| 0 <= i < y.len() implies json_same(#[trigger] y[i], x[i]) by {
                assert(json_same(x[i], y[i]));
                json_same_symmetric(x[i], y[i]);
            }
        },
        (JsonV::Obj(x), JsonV::Obj(y)) => {
            assert forall|i: int| 0 <= i < y.len() implies (#[trigger] y[i]).0 == x[i].0
                && json_same(y[i].1, x[i].1) by {
                assert(x[i].0 == y[i].0 && json_same(x[i].1, y[i].1));
                assert(decreases_to!(x[i] => x[i].1));
                json_same_symmetric(x[i].1, y[i].1);
            }
        },
        _ => {},
    }
}

/// The equality of values is transitive.
pub proof fn json_same_transitive(a: JsonV, b: JsonV, c: JsonV)
    requires
        json_same(a, b),
        json_same(b, c),
    ensures
        json_same(a, c),
    decreases a,
{
    match (a, b, c) {
        (JsonV::List(x), JsonV::List(y), JsonV::List(z)) => {
            assert forall|i: int| 0 <= i < x.len() implies json_same(#[trigger] x[i], z[i]) by {
                assert(json_same(x[i], y[i]));
                assert(json_same(y[i], z[i]));
                json_same_transitive(x[i], y[i], z[i]);
            }
        },
        (JsonV::Obj(x), JsonV::Obj(y), JsonV::Obj(z)) => {
            assert forall|i: int| 0 <= i < x.len() implies (#[trigger] x[i]).0 == z[i].0
                && json_same(x[i].1, z[i].1) by {
                assert(x[i].0 == y[i].0 && json_same(x[i].1, y[i].1));
                assert(y[i].0 == z[i].0 && json_same(y[i].1, z[i].1));
                assert(decreases_to!(x[i] => x[i].1));
                json_same_transitive(x[i].1, y[i].1, z[i].1);
            }
        },
        _ => {},
    }
}

fn same_number(a: &JsonNumber, b: &JsonNumber) -> (r: bool)
    ensures
        r == number_same(a@, b@),
{
    match (a.kind(), b.kind()) {
        (NumberKind::Pos(x), NumberKind::Pos(y)) => x == y,
        (NumberKind::Neg(x), NumberKind::Neg(y)) => x == y,
        (NumberKind::Float(x), NumberKind::Float(y)) => x == y || (is_zero(x) && is_zero(y)),
        _ => false,
    }
}

fn is_zero(bits: u64) -> (r: bool)
    ensures
        r == zero_bits(bits),
{
    bits == 0 || bits == 0x8000_0000_0000_0000
}

/// Whether two values are equal as JSON.
pub fn same_json(a: &Json, b: &Json) -> (r: bool)
    ensures
        r == json_same(a@, b@),
    decreases a@,
{
    match (a, b) {
        (Json::Null, Json::Null) => true,
        (Json::Bool(x), Json::Bool(y)) => *x == *y,
        (Json::Num(x), Json::Num(y)) => same_number(x, y),
        (Json::Str(x), Json::Str(y)) => text::same_text(x.as_str(), y.as_str()),
        (Json::List(x), Json::List(y)) => {
            if x.len() != y.len() {
                return false;
            }
            let mut i: usize = 0;
            while i < x.len()
                invariant
                    i <= x.len(),
                    x.len() == y.len(),
                    a == Json::List(*x),
                    b == Json::List(*y),
                    forall|j: int| 0 <= j < i ==> json_same(#[trigger] a@->List_0[j], b@->List_0[j]),
                decreases x.len() - i,
            {
                assert(a@->List_0[i as int] == x@[i as int]@);
                assert(b@->List_0[i as int] == y@[i as int]@);
                assert(decreases_to!(a@->List_0 => a@->List_0[i as int]));
                if !same_json(&x[i], &y[i]) {
                    return false;
                }
                i += 1;
            }
            true
        },
        (Json::Obj(x), Json::Obj(y)) => {
            proof {
                lemma_object_view(*x);
                lemma_object_view(*y);
            }
            if x.entries.len() != y.entries.len() {
                return false;
            }
            let mut i: usize = 0;
            while i < x.entries.len()
                invariant
                    i <= x.entries.len(),
                    x.entries.len() == y.entries.len(),
                    a == Json::Obj(*x),
                    b == Json::Obj(*y),
                    a@ == JsonV::Obj(object_view(*x)),
                    b@ == JsonV::Obj(object_view(*y)),
                    object_view(*x).len() == x.entries@.len(),
                    object_view(*y).len() == y.entries@.len(),
                    forall|j: int|
                        0 <= j < i ==> (#[trigger] a@->Obj_0[j]).0 == b@->Obj_0[j].0 && json_same(
                            a@->Obj_0[j].1,
                            b@->Obj_0[j].1,
                        ),
                decreases x.entries.len() - i,
            {
                proof {
                    lemma_object_view(*x);
                    lemma_object_view(*y);
                }
                assert(a@->Obj_0[i as int].1 == x.entries@[i as int].1@);
                assert(b@->Obj_0[i as int].1 == y.entries@[i as int].1@);
                assert(decreases_to!(a@->Obj_0 => a@->Obj_0[i as int]));
                if !text::same_text(x.entries[i].0.as_str(), y.entries[i].0.as_str()) {
                    return false;
                }
                if !same_json(&x.entries[i].1, &y.entries[i].1) {
                    return false;
                }
                i += 1;
            }
            true
        },
        _ => false,
    }
}

/// What `serde_json::to_string` writes for a text: quoted and escaped.
pub uninterp spec fn quoted(s: Seq<char>) -> Seq<char>;

/// `serde_json::to_string` on a text. The result is named by [`quoted`]: it
/// depends on the text alone. Writing a text to a string does not fail.
#[verifier::external_body]
pub(crate) fn quote(s: &str) -> (r: String)
    ensures
        r@ == quoted(s@),
{
    serde_json::to_string(s).unwrap_or_default()
}

/// The compact JSON text `serde_json` writes for a value.
pub uninterp spec fn compact(v: JsonV) -> Seq<char>;

/// `serde_json::Value::to_string`. The text depends on what the value holds
/// alone.
#[verifier::external_body]
fn write_value(v: &serde_json::Value) -> (r: String)
    ensures
        r@ == compact(json_content(*v)),
{
    v.to_string()
}

/// Writes a value as compact JSON.
pub fn compact_text(v: &Json) -> (r: String)
    ensures
        r@ == compact(v@),
{
    write_value(&value_of(v))
}

/// The bits of the double that `serde_json::Number::as_f64` gives for a number.
pub uninterp spec fn double_bits(n: NumberV) -> u64;

/// `serde_json::Number::as_f64`, as the bits of the double. The result depends
/// on the number alone, and a double gives itself.
#[verifier::external_body]
fn number_bits(n: &serde_json::Number) -> (r: u64)
    ensures
        r == double_bits(number_content(*n)),
        number_content(*n) matches NumberV::Float(bits) ==> r == bits,
{
    n.as_f64().map_or(0, |x| x.to_bits())
}

fn bits_of_double(n: &JsonNumber) -> (r: u64)
    ensures
        r == double_bits(n@),
{
    number_bits(&n.inner)
}

/// Where a finite double stands among the others: the integer order of these
/// keys is the numeric order, and both zeros have key 0.
pub open spec fn double_key(bits: u64) -> int {
    if bits < 0x8000_0000_0000_0000 {
        bits as int
    } else {
        0x8000_0000_0000_0000 - bits as int
    }
}

/// The comparison of two integers.
pub open spec fn int_order(a: int, b: int) -> text::Order {
    if a < b {
        text::Order::Less
    } else if a == b {
        text::Order::Equal
    } else {
        text::Order::Greater
    }
}

/// The rank of a value's type.
pub open spec fn rank(v: JsonV) -> int {
    match v {
        JsonV::Null => 0,
        JsonV::Bool(_) => 1,
        JsonV::Num(_) => 2,
        JsonV::Str(_) => 3,
        JsonV::List(_) => 4,
        JsonV::Obj(_) => 5,
    }
}

/// The order of JSON values: numbers by size, texts and booleans by their own
/// order, anything else by type and then by compact text.
pub open spec fn json_order(a: JsonV, b: JsonV) -> text::Order {
    match (a, b) {
        (JsonV::Num(x), JsonV::Num(y)) => int_order(
            double_key(double_bits(x)),
            double_key(double_bits(y)),
        ),
        (JsonV::Str(x), JsonV::Str(y)) => text::text_order(x, y),
        (JsonV::Bool(x), JsonV::Bool(y)) => int_order(
            if x { 1 } else { 0 },
            if y { 1 } else { 0 },
        ),
        _ => int_order(rank(a), rank(b)).or(text::text_order(compact(a), compact(b))),
    }
}

fn key_of_double(bits: u64) -> (r: i128)
    ensures
        r == double_key(bits),
{
    if bits < 0x8000_0000_0000_0000 {
        bits as i128
    } else {
        0x8000_0000_0000_0000i128 - bits as i128
    }
}

fn order_of(a: i128, b: i128) -> (r: text::Order)
    ensures
        r == int_order(a as int, b as int),
{
    if a < b {
        text::Order::Less
    } else if a == b {
        text::Order::Equal
    } else {
        text::Order::Greater
    }
}

/// The rank of a value's type, so that values of different types compare.
pub fn value_rank(v: &Json) -> (r: u8)
    ensures
        r == rank(v@),
{
    match v {
        Json::Null => 0,
        Json::Bool(_) => 1,
        Json::Num(_) => 2,
        Json::Str(_) => 3,
        Json::List(_) => 4,
        Json::Obj(_) => 5,
    }
}

fn rank_of(v: &Json) -> (r: i128)
    ensures
        r == rank(v@),
{
    value_rank(v) as i128
}

fn bool_key(b: bool) -> (r: i128)
    ensures
        r == (if b { 1int } else { 0int }),
{
    if b {
        1
    } else {
        0
    }
}

/// Compares two values in the order of JSON values.
pub fn cmp_json(a: &Json, b: &Json) -> (r: text::Order)
    ensures
        r == json_order(a@, b@),
{
    match (a, b) {
        (Json::Num(x), Json::Num(y)) => order_of(
            key_of_double(bits_of_double(x)),
            key_of_double(bits_of_double(y)),
        ),
        (Json::Str(x), Json::Str(y)) => text::compare_text(x.as_str(), y.as_str()),
        (Json::Bool(x), Json::Bool(y)) => order_of(bool_key(*x), bool_key(*y)),
        _ => {
            let o = order_of(rank_of(a), rank_of(b));
            match o {
                text::Order::Equal => text::compare_text(
                    compact_text(a).as_str(),
                    compact_text(b).as_str(),
                ),
                _ => o,
            }
        },
    }
}

/// A JSON document as the parser holds it.
#[verifier::external_type_specification]
#[verifier::external_body]
pub struct ExParsedValue(serde_json::Value);

/// What a parsed document holds.
pub uninterp spec fn json_content(v: serde_json::Value) -> JsonV;

/// What `serde_json::from_str` reads from a text, or the message of its error.
pub uninterp spec fn json_parsed(t: Seq<char>) -> Result<JsonV, Seq<char>>;

/// One level of a parsed document.
enum Shape {
    Null,
    Bool(bool),
    Num(serde_json::Number),
    Str(String),
    List(Vec<serde_json::Value>),
    Obj(Vec<(String, serde_json::Value)>),
}

spec fn shape_view(s: Shape) -> JsonV {
    match s {
        Shape::Null => JsonV::Null,
        Shape::Bool(b) => JsonV::Bool(b),
        Shape::Num(n) => JsonV::Num(number_content(n)),
        Shape::Str(s) => JsonV::Str(s@),
        Shape::List(items) => JsonV::List(items@.map_values(|v: serde_json::Value| json_content(v))),
        Shape::Obj(entries) => JsonV::Obj(
            entries@.map_values(|e: (String, serde_json::Value)| (e.0@, json_content(e.1))),
        ),
    }
}

/// `serde_json::from_str` into a `serde_json::Value`. What it reads, or the text
/// of its error, is named by [`json_parsed`]: it depends on the text alone.
#[verifier::external_body]
fn read_value(t: &str) -> (r: Result<serde_json::Value, String>)
    ensures
        match r {
            Ok(v) => json_parsed(t@) == Ok::<JsonV, Seq<char>>(json_content(v)),
            Err(e) => json_parsed(t@) == Err::<JsonV, Seq<char>>(e@),
        },
{
    serde_json::from_str::<serde_json::Value>(t).map_err(|e| e.to_string())
}

/// The variants of `serde_json::Value`, one level deep. An object's map hands
/// its entries out in key order, each key once.
#[verifier::external_body]
fn open_value(v: serde_json::Value) -> (r: Shape)
    ensures
        shape_view(r) == json_content(v),
        r matches Shape::Obj(entries) ==> forall|i: int, j: int|
            0 <= i < j < entries@.len() ==> #[trigger] text::text_lt(
                entries@[i].0@,
                entries@[j].0@,
            ),
{
    match v {
        serde_json::Value::Null => Shape::Null,
        serde_json::Value::Bool(b) => Shape::Bool(b),
        serde_json::Value::Number(n) => Shape::Num(n),
        serde_json::Value::String(s) => Shape::Str(s),
        serde_json::Value::Array(items) => Shape::List(items),
        serde_json::Value::Object(m) => Shape::Obj(m.into_iter().collect()),
    }
}

/// Makes a variant of `serde_json::Value`, one level deep. The map of an object
/// keeps its entries in key order.
#[verifier::external_body]
fn make_value(s: Shape) -> (r: serde_json::Value)
    requires
        s matches Shape::Obj(entries) ==> forall|i: int, j: int|
            0 <= i < j < entries@.len() ==> #[trigger] text::text_lt(
                entries@[i].0@,
                entries@[j].0@,
            ),
    ensures
        json_content(r) == shape_view(s),
{
    match s {
        Shape::Null => serde_json::Value::Null,
        Shape::Bool(b) => serde_json::Value::Bool(b),
        Shape::Num(n) => serde_json::Value::Number(n),
        Shape::Str(s) => serde_json::Value::String(s),
        Shape::List(items) => serde_json::Value::Array(items),
        Shape::Obj(entries) => serde_json::Value::Object(entries.into_iter().collect()),
    }
}

/// The `serde_json` form of a value.
pub fn value_of(v: &Json) -> (r: serde_json::Value)
    ensures
        json_content(r) == v@,
    decreases v@,
{
    match v {
        Json::Null => make_value(Shape::Null),
        Json::Bool(b) => make_value(Shape::Bool(*b)),
        Json::Num(n) => make_value(Shape::Num(clone_number(&n.inner))),
        Json::Str(s) => make_value(Shape::Str(s.clone())),
        Json::List(items) => {
            let mut out: Vec<serde_json::Value> = Vec::new();
            let mut i: usize = 0;
            while i < items.len()
                invariant
                    i <= items.len(),
                    out.len() == i,
                    v == Json::List(*items),
                    forall|j: int| 0 <= j < i ==> json_content(#[trigger] out@[j]) == items@[j]@,
                decreases items.len() - i,
            {
                assert(v@->List_0[i as int] == items@[i as int]@);
                assert(decreases_to!(v@->List_0 => v@->List_0[i as int]));
                out.push(value_of(&items[i]));
                i += 1;
            }
            proof {
                lemma_list_view(*items);
                assert(out@.map_values(|v: serde_json::Value| json_content(v))
                    =~= items.deep_view());
            }
            make_value(Shape::List(out))
        },
        Json::Obj(m) => {
            let mut out: Vec<(String, serde_json::Value)> = Vec::new();
            let mut i: usize = 0;
            while i < m.entries.len()
                invariant
                    i <= m.entries.len(),
                    out.len() == i,
                    v == Json::Obj(*m),
                    forall|j: int|
                        0 <= j < i ==> (#[trigger] out@[j]).0@ == m.entries@[j].0@ && json_content(
                            out@[j].1,
                        ) == m.entries@[j].1@,
                decreases m.entries.len() - i,
            {
                proof {
                    lemma_object_view(*m);
                }
                assert(v@->Obj_0[i as int].1 == m.entries@[i as int].1@);
                assert(decreases_to!(v@->Obj_0 => v@->Obj_0[i as int]));
                out.push((m.entries[i].0.clone(), value_of(&m.entries[i].1)));
                i += 1;
            }
            let n = m.len();
            proof {
                m.lemma_keys();
                assert forall|i: int, j: int| 0 <= i < j < out@.len() implies #[trigger] text::text_lt(
                    out@[i].0@,
                    out@[j].0@,
                ) by {
                    assert(text::text_lt(m.keys_view()[i], m.keys_view()[j]));
                }
                lemma_object_view(*m);
                assert(out@.map_values(|e: (String, serde_json::Value)| (e.0@, json_content(e.1)))
                    =~= object_view(*m));
            }
            make_value(Shape::Obj(out))
        },
    }
}

/// The value that a document of `serde_json` holds.
pub fn json_of(v: serde_json::Value) -> (r: Json)
    ensures
        r@ == json_content(v),
    decreases json_content(v),
{
    let ghost whole = json_content(v);
    match open_value(v) {
        Shape::Null => Json::Null,
        Shape::Bool(b) => Json::Bool(b),
        Shape::Num(n) => Json::Num(JsonNumber { inner: n }),
        Shape::Str(s) => Json::Str(s),
        Shape::List(items) => {
            let ghost given = items@;
            let mut left = items;
            let mut back: Vec<Json> = Vec::new();
            while left.len() > 0
                invariant
                    left.len() + back.len() == given.len(),
                    left@ == given.take(left.len() as int),
                    whole == json_content(v),
                    whole == JsonV::List(given.map_values(|v: serde_json::Value| json_content(v))),
                    forall|j: int|
                        0 <= j < back.len() ==> (#[trigger] back@[j])@ == json_content(
                            given[given.len() - 1 - j],
                        ),
                decreases left.len(),
            {
                let at: usize = left.len() - 1;
                let item = left.pop().unwrap();
                assert(item == given[at as int]);
                assert(whole->List_0[at as int] == json_content(item));
                assert(decreases_to!(whole->List_0 => whole->List_0[at as int]));
                back.push(json_of(item));
            }
            let r = reversed(back);
            proof {
                lemma_list_view(r);
                assert(r.deep_view() =~= whole->List_0);
            }
            Json::List(r)
        },
        Shape::Obj(entries) => {
            let ghost given = entries@;
            let mut left = entries;
            let mut back: Vec<(String, Json)> = Vec::new();
            while left.len() > 0
                invariant
                    left.len() + back.len() == given.len(),
                    left@ == given.take(left.len() as int),
                    whole == json_content(v),
                    whole == JsonV::Obj(
                        given.map_values(|e: (String, serde_json::Value)| (e.0@, json_content(e.1))),
                    ),
                    forall|j: int|
                        0 <= j < back.len() ==> {
                            &&& (#[trigger] back@[j]).0@ == given[given.len() - 1 - j].0@
                            &&& back@[j].1@ == json_content(given[given.len() - 1 - j].1)
                        },
                decreases left.len(),
            {
                let at: usize = left.len() - 1;
                let (key, item) = left.pop().unwrap();
                assert((key, item) == given[at as int]);
                assert(whole->Obj_0[at as int] == (key@, json_content(item)));
                assert(whole->Obj_0[at as int].1 == json_content(item));
                assert(decreases_to!(whole->Obj_0 => whole->Obj_0[at as int]));
                let value = json_of(item);
                back.push((key, value));
            }
            let ordered = reversed(back);
            proof {
                assert forall|i: int, j: int|
                    0 <= i < j < ordered@.len() implies #[trigger] text::text_lt(
                    ordered@[i].0@,
                    ordered@[j].0@,
                ) by {
                    assert(text::text_lt(given[i].0@, given[j].0@));
                }
            }
            let r = StrMap::from_ordered(ordered);
            proof {
                lemma_object_view(r);
                assert(object_view(r) =~= whole->Obj_0);
            }
            Json::Obj(r)
        },
    }
}

pub(crate) fn reversed<T>(v: Vec<T>) -> (r: Vec<T>)
    ensures
        r@ == v@.reverse(),
{
    let ghost given = v@;
    let mut left = v;
    let mut out: Vec<T> = Vec::new();
    while left.len() > 0
        invariant
            left.len() + out.len() == given.len(),
            left@ == given.take(left.len() as int),
            forall|j: int| 0 <= j < out.len() ==> #[trigger] out@[j] == given[given.len() - 1 - j],
        decreases left.len(),
    {
        out.push(left.pop().unwrap());
    }
    assert(out@ =~= given.reverse());
    out
}

/// Reads a JSON text, or says what is wrong with it.
pub fn read_text(t: &str) -> (r: Result<Json, String>)
    ensures
        match r {
            Ok(v) => json_parsed(t@) == Ok::<JsonV, Seq<char>>(v@),
            Err(e) => json_parsed(t@) == Err::<JsonV, Seq<char>>(e@),
        },
{
    match read_value(t) {
        Ok(v) => Ok(json_of(v)),
        Err(e) => Err(e),
    }
}

/// Reads a JSON text.
pub fn parse_json(t: &str) -> (r: Option<Json>)
    ensures
        match r {
            Some(v) => json_parsed(t@) == Ok::<JsonV, Seq<char>>(v@),
            None => json_parsed(t@) is Err,
        },
{
    match read_text(t) {
        Ok(v) => Some(v),
        Err(_) => None,
    }
}

/// The object with the given fields.
pub open spec fn object(m: Map<Seq<char>, JsonV>) -> JsonV {
    let keys = strmap::sorted_of(m.dom());
    JsonV::Obj(Seq::new(keys.len(), |i: int| (keys[i], m[keys[i]])))
}

/// Relates the fields of an object to its value.
pub(crate) fn relate(m: &StrMap<Json>)
    ensures
        Json::Obj(*m)@ == object(m@),
{
    m.expose();
    proof {
        lemma_object_view(*m);
        let keys = m.keys_view();
        assert(object_view(*m) =~= Seq::new(keys.len(), |i: int| (keys[i], m@[keys[i]])));
    }
}

/// Makes an object of its fields.
pub fn make_object(m: StrMap<Json>) -> (r: Json)
    ensures
        r@ == object(m@),
{
    relate(&m);
    Json::Obj(m)
}

/// The list with the given items.
pub fn make_list(items: Vec<Json>) -> (r: Json)
    ensures
        r@ == JsonV::List(items.deep_view()),
{
    proof {
        lemma_list_view(items);
    }
    Json::List(items)
}

/// A count as a JSON number.
pub fn count(n: usize) -> (r: Json)
    ensures
        r@ == JsonV::Num(NumberV::Pos(n as u64)),
{
    Json::Num(JsonNumber::from_u64(n as u64))
}

/// Values of one kind are ordered by what they hold. Texts go by their code
/// points, and false comes before true. Of numbers that are not negative the
/// larger double has the larger bits, of negative ones the smaller; a negative
/// number comes first, and the two zeros are equal.
pub proof fn values_of_one_kind_are_ordered(a: JsonV, b: JsonV)
    ensures
        a is Str && b is Str ==> json_order(a, b) == text::text_order(a->Str_0, b->Str_0),
        a is Bool && b is Bool ==> (json_order(a, b) == text::Order::Less <==> !a->Bool_0
            && b->Bool_0),
        a is Bool && b is Bool ==> (json_order(a, b) == text::Order::Greater <==> a->Bool_0
            && !b->Bool_0),
        a is Num && b is Num ==> {
            let x = double_bits(a->Num_0) as int;
            let y = double_bits(b->Num_0) as int;
            let half = 0x8000_0000_0000_0000int;
            &&& x < half && y < half ==> (json_order(a, b) == text::Order::Less <==> x < y)
            &&& x < half && y < half ==> (json_order(a, b) == text::Order::Greater <==> x > y)
            &&& x >= half && y >= half ==> (json_order(a, b) == text::Order::Less <==> x > y)
            &&& x >= half && y >= half ==> (json_order(a, b) == text::Order::Greater <==> x < y)
            &&& x > half && y < half ==> json_order(a, b) == text::Order::Less
            &&& x < half && y > half ==> json_order(a, b) == text::Order::Greater
            &&& x == half && y == 0 ==> json_order(a, b) == text::Order::Equal
            &&& x == half && 0 < y < half ==> json_order(a, b) == text::Order::Less
        },
{
}

/// Values of different kinds come in the order null, boolean, number, text,
/// list, object.
pub proof fn kinds_are_ordered(a: JsonV, b: JsonV)
    ensures
        a is Null && !(b is Null) ==> json_order(a, b) == text::Order::Less,
        a is Bool && (b is Num || b is Str || b is List || b is Obj) ==> json_order(a, b)
            == text::Order::Less,
        a is Num && (b is Str || b is List || b is Obj) ==> json_order(a, b) == text::Order::Less,
        a is Str && (b is List || b is Obj) ==> json_order(a, b) == text::Order::Less,
        a is List && b is Obj ==> json_order(a, b) == text::Order::Less,
{
}

/// Values are the same where they hold the same: texts, booleans and whole
/// numbers where they are equal, lists and objects part by part and in order. A
/// whole number is never the same as a double, and the two zeros of doubles are.
pub proof fn sameness_goes_by_content(a: JsonV, b: JsonV)
    ensures
        a is Str && b is Str ==> (json_same(a, b) <==> a->Str_0 == b->Str_0),
        a is Bool && b is Bool ==> (json_same(a, b) <==> a->Bool_0 == b->Bool_0),
        a is Null && b is Null ==> json_same(a, b),
        a is Num && b is Num && !(a->Num_0 is Float && b->Num_0 is Float) ==> (json_same(a, b)
            <==> a->Num_0 == b->Num_0),
        a is Num && b is Num && a->Num_0 is Float && b->Num_0 is Float ==> {
            let (x, y) = (a->Num_0->Float_0, b->Num_0->Float_0);
            json_same(a, b) <==> x == y || ((x == 0 || x == 0x8000_0000_0000_0000) && (y == 0 || y
                == 0x8000_0000_0000_0000))
        },
        a is List && b is List ==> (json_same(a, b) <==> a->List_0.len() == b->List_0.len()
            && forall|i: int|
            0 <= i < a->List_0.len() ==> json_same(#[trigger] a->List_0[i], b->List_0[i])),
        !(a is Str && b is Str) && !(a is Bool && b is Bool) && !(a is Null && b is Null) && !(
        a is Num && b is Num) && !(a is List && b is List) && !(a is Obj && b is Obj)
            ==> !json_same(a, b),
{
    reveal_with_fuel(json_same, 2);
}

} // verus!
