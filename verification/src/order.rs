//! The value of a column, and the order of tasks by it.

use crate::json::{self, Json, JsonV};
use crate::model::{RelsV, TaskState, TaskV, DEPS_KEY, ID_KEY};
use crate::sort::{self, Ranking};
use crate::strmap::{self, Data, StrMap};
use crate::text::{self, Order};
use vstd::prelude::*;

verus! {

/// Targets as a list of texts.
pub open spec fn text_list(items: Seq<Seq<char>>) -> JsonV {
    JsonV::List(items.map_values(|t: Seq<char>| JsonV::Str(t)))
}

/// Edges as an object: the targets under each relationship type.
pub open spec fn deps_value(rels: RelsV) -> JsonV {
    let keys = strmap::sorted_of(rels.dom());
    JsonV::Obj(Seq::new(keys.len(), |i: int| (keys[i], text_list(rels[keys[i]]))))
}

/// The value of a column: the id, the edges, or a field.
pub open spec fn cell(t: TaskV, column: Seq<char>) -> Option<JsonV> {
    if column == ID_KEY@ {
        Some(JsonV::Str(t.id))
    } else if column == DEPS_KEY@ {
        Some(deps_value(t.relationships))
    } else if t.custom_fields.contains_key(column) {
        Some(t.custom_fields[column])
    } else {
        None
    }
}

/// The list of texts as a value.
pub fn text_array(items: &Vec<String>) -> (r: Json)
    ensures
        r@ == text_list(items.deep_view()),
{
    let ghost all = items.deep_view();
    let mut out: Vec<Json> = Vec::new();
    let mut i: usize = 0;
    while i < items.len()
        invariant
            i <= items.len(),
            all == items.deep_view(),
            out.len() == i,
            forall|j: int| 0 <= j < i ==> (#[trigger] out@[j])@ == JsonV::Str(all[j]),
        decreases items.len() - i,
    {
        out.push(Json::Str(items[i].clone()));
        i += 1;
    }
    proof {
        json::lemma_list_view(out);
        assert(out.deep_view() =~= all.map_values(|t: Seq<char>| JsonV::Str(t)));
    }
    Json::List(out)
}

pub fn deps_object(rels: &StrMap<Vec<String>>) -> (r: Json)
    ensures
        r@ == deps_value(rels@),
{
    let n = rels.len();
    let ghost keys = rels.keys_view();
    let mut out: Vec<(String, Json)> = Vec::new();
    let mut i: usize = 0;
    while i < n
        invariant
            i <= n,
            n == keys.len(),
            keys == rels.keys_view(),
            strmap::ascending(keys),
            out.len() == i,
            forall|j: int|
                0 <= j < i ==> (#[trigger] out@[j]).0@ == keys[j] && out@[j].1@ == text_list(
                    rels@[keys[j]],
                ),
        decreases n - i,
    {
        out.push((rels.key_at(i).clone(), text_array(rels.value_at(i))));
        i += 1;
    }
    let m = StrMap::from_ordered(out);
    proof {
        json::lemma_object_view(m);
        let want = Seq::new(keys.len(), |i: int| (keys[i], text_list(rels@[keys[i]])));
        assert(json::object_view(m) =~= want);
    }
    Json::Obj(m)
}

/// The value of a column of a task.
///
/// `id` is the id, `deps` the edges by type, and anything else a field; only a
/// field can be missing.
pub fn cell_value(task: &TaskState, column: &str) -> (r: Option<Json>)
    ensures
        r.deep_view() == cell(task@, column@),
{
    if text::same_text(column, ID_KEY) {
        Some(Json::Str(task.id.clone()))
    } else if text::same_text(column, DEPS_KEY) {
        Some(deps_object(&task.relationships))
    } else {
        match task.custom_fields.get(column) {
            Some(v) => Some(v.copy()),
            None => None,
        }
    }
}

/// The order of two cells: by value, a missing one last.
pub open spec fn cell_order(a: Option<JsonV>, b: Option<JsonV>) -> Order {
    match (a, b) {
        (Some(x), Some(y)) => json::json_order(x, y),
        (Some(_), None) => Order::Less,
        (None, Some(_)) => Order::Greater,
        (None, None) => Order::Equal,
    }
}

/// The order of two tasks by a column, and by id where that leaves them equal.
pub open spec fn task_order(a: TaskV, b: TaskV, column: Seq<char>) -> Order {
    cell_order(cell(a, column), cell(b, column)).or(text::text_order(a.id, b.id))
}

/// Compares two tasks by one column, ascending, with the id as tiebreaker; a
/// present value sorts before a missing one.
pub fn task_cmp(a: &TaskState, b: &TaskState, column: &str) -> (r: Order)
    ensures
        r == task_order(a@, b@, column@),
{
    let first = match (cell_value(a, column), cell_value(b, column)) {
        (Some(x), Some(y)) => json::cmp_json(&x, &y),
        (Some(_), None) => Order::Less,
        (None, Some(_)) => Order::Greater,
        (None, None) => Order::Equal,
    };
    match first {
        Order::Equal => text::compare_text(a.id.as_str(), b.id.as_str()),
        other => other,
    }
}

/// Whether the orders of three things among each other fit together.
pub open spec fn fits(ab: Order, bc: Order, ac: Order) -> bool {
    let ba = ab.flip();
    let cb = bc.flip();
    let ca = ac.flip();
    &&& ab != Order::Greater && bc != Order::Greater ==> ac != Order::Greater
    &&& ac != Order::Greater && cb != Order::Greater ==> ab != Order::Greater
    &&& ba != Order::Greater && ac != Order::Greater ==> bc != Order::Greater
    &&& bc != Order::Greater && ca != Order::Greater ==> ba != Order::Greater
    &&& ca != Order::Greater && ab != Order::Greater ==> cb != Order::Greater
    &&& cb != Order::Greater && ba != Order::Greater ==> ca != Order::Greater
}

proof fn lemma_then(
    x_ab: Order,
    x_bc: Order,
    x_ac: Order,
    y_ab: Order,
    y_bc: Order,
    y_ac: Order,
)
    requires
        fits(x_ab, x_bc, x_ac),
        fits(y_ab, y_bc, y_ac),
    ensures
        fits(x_ab.or(y_ab), x_bc.or(y_bc), x_ac.or(y_ac)),
{
}

/// The order of texts reverses with its arguments.
pub proof fn text_order_flips(a: Seq<char>, b: Seq<char>)
    ensures
        text::text_order(b, a) == text::text_order(a, b).flip(),
{
    text::text_lt_total(a, b);
    if text::text_lt(a, b) {
        text::text_lt_asymmetric(a, b);
    }
    if text::text_lt(b, a) {
        text::text_lt_asymmetric(b, a);
    }
    text::text_lt_irreflexive(a);
}

proof fn lemma_le(a: Seq<char>, b: Seq<char>, c: Seq<char>)
    ensures
        text::text_order(a, b) != Order::Greater && text::text_order(b, c) != Order::Greater
            ==> text::text_order(a, c) != Order::Greater,
{
    if text::text_lt(a, b) && text::text_lt(b, c) {
        text::text_lt_transitive(a, b, c);
    }
}

/// The order of texts fits together on any three texts.
pub proof fn text_order_fits(a: Seq<char>, b: Seq<char>, c: Seq<char>)
    ensures
        fits(text::text_order(a, b), text::text_order(b, c), text::text_order(a, c)),
{
    text_order_flips(a, b);
    text_order_flips(b, c);
    text_order_flips(a, c);
    lemma_le(a, b, c);
    lemma_le(a, c, b);
    lemma_le(b, a, c);
    lemma_le(b, c, a);
    lemma_le(c, a, b);
    lemma_le(c, b, a);
}

proof fn lemma_int_fits(a: int, b: int, c: int)
    ensures
        fits(json::int_order(a, b), json::int_order(b, c), json::int_order(a, c)),
{
}

/// The order of values reverses with its arguments.
pub proof fn json_order_flips(a: JsonV, b: JsonV)
    ensures
        json::json_order(b, a) == json::json_order(a, b).flip(),
{
    match (a, b) {
        (JsonV::Str(x), JsonV::Str(y)) => {
            text_order_flips(x, y);
        },
        (JsonV::Num(_), JsonV::Num(_)) => {},
        (JsonV::Bool(_), JsonV::Bool(_)) => {},
        _ => {
            text_order_flips(json::compact(a), json::compact(b));
        },
    }
}

/// The order of values fits together on any three values.
pub proof fn json_order_fits(a: JsonV, b: JsonV, c: JsonV)
    ensures
        fits(json::json_order(a, b), json::json_order(b, c), json::json_order(a, c)),
{
    json_order_flips(a, b);
    json_order_flips(b, c);
    json_order_flips(a, c);
    lemma_int_fits(json::rank(a), json::rank(b), json::rank(c));
    if json::rank(a) == json::rank(b) && json::rank(b) == json::rank(c) {
        match (a, b, c) {
            (JsonV::Str(x), JsonV::Str(y), JsonV::Str(z)) => {
                text_order_fits(x, y, z);
            },
            (JsonV::Num(x), JsonV::Num(y), JsonV::Num(z)) => {},
            (JsonV::Bool(x), JsonV::Bool(y), JsonV::Bool(z)) => {},
            _ => {
                text_order_fits(json::compact(a), json::compact(b), json::compact(c));
            },
        }
    }
}

/// The order of tasks by a column reverses with its arguments.
pub proof fn task_order_flips(a: TaskV, b: TaskV, column: Seq<char>)
    ensures
        task_order(b, a, column) == task_order(a, b, column).flip(),
{
    text_order_flips(a.id, b.id);
    if let (Some(x), Some(y)) = (cell(a, column), cell(b, column)) {
        json_order_flips(x, y);
    }
}

/// The order of tasks by a column fits together on any three tasks.
pub proof fn task_order_fits(a: TaskV, b: TaskV, c: TaskV, column: Seq<char>)
    ensures
        fits(
            task_order(a, b, column),
            task_order(b, c, column),
            task_order(a, c, column),
        ),
{
    let x = cell(a, column);
    let y = cell(b, column);
    let z = cell(c, column);
    if let (Some(p), Some(q)) = (x, y) {
        json_order_flips(p, q);
    }
    if let (Some(p), Some(q)) = (y, z) {
        json_order_flips(p, q);
    }
    if let (Some(p), Some(q)) = (x, z) {
        json_order_flips(p, q);
    }
    if let (Some(p), Some(q), Some(s)) = (x, y, z) {
        json_order_fits(p, q, s);
    }
    text_order_fits(a.id, b.id, c.id);
    lemma_then(
        cell_order(x, y),
        cell_order(y, z),
        cell_order(x, z),
        text::text_order(a.id, b.id),
        text::text_order(b.id, c.id),
        text::text_order(a.id, c.id),
    );
}

/// Tasks ranked by a column.
pub struct ByColumn<'a> {
    pub tasks: &'a Vec<TaskState>,
    pub column: &'a str,
}

impl<'a> Ranking for ByColumn<'a> {
    open spec fn size(&self) -> nat {
        self.tasks.len() as nat
    }

    open spec fn precedes(&self, a: int, b: int) -> bool {
        task_order(self.tasks@[a]@, self.tasks@[b]@, self.column@) == Order::Less
    }

    proof fn lemma_orders(&self) {
        let n = self.size() as int;
        assert forall|a: int, b: int| 0 <= a < n && 0 <= b < n && #[trigger] self.precedes(
            a,
            b,
        ) implies !self.precedes(b, a) by {
            task_order_flips(self.tasks@[a]@, self.tasks@[b]@, self.column@);
        }
        assert forall|a: int, b: int, c: int|
            0 <= a < n && 0 <= b < n && 0 <= c < n && !(#[trigger] self.precedes(a, b)) && !(
            #[trigger] self.precedes(b, c)) implies !self.precedes(a, c) by {
            let x = self.tasks@[a]@;
            let y = self.tasks@[b]@;
            let z = self.tasks@[c]@;
            task_order_fits(x, y, z, self.column@);
        }
    }

    fn before(&self, a: usize, b: usize) -> (r: bool) {
        match task_cmp(&self.tasks[a], &self.tasks[b], self.column) {
            Order::Less => true,
            _ => false,
        }
    }
}

/// Whether tasks are in ascending order by a column, or in descending order.
pub open spec fn in_column_order(tasks: Seq<TaskV>, column: Seq<char>, reverse: bool) -> bool {
    forall|i: int, j: int|
        0 <= i < j < tasks.len() ==> #[trigger] task_order(tasks[i], tasks[j], column) != if reverse {
            Order::Less
        } else {
            Order::Greater
        }
}

/// The tasks in the order of a column, or in its reverse.
pub fn sort_tasks(tasks: &Vec<TaskState>, column: &str, reverse: bool) -> (r: Vec<TaskState>)
    ensures
        in_column_order(r.deep_view(), column@, reverse),
        r.deep_view().to_multiset() == tasks.deep_view().to_multiset(),
{
    let by = ByColumn { tasks, column };
    let idx = sort::sort_indices(tasks.len(), &by);
    let ghost all = tasks.deep_view();
    let n = idx.len();
    let mut out: Vec<TaskState> = Vec::new();
    let ghost mut used: Seq<usize> = Seq::empty();
    let mut i: usize = 0;
    while i < n
        invariant
            i <= n,
            n == idx.len(),
            n == tasks.len(),
            all == tasks.deep_view(),
            sort::is_permutation(idx@, n as nat),
            out.len() == i,
            used.len() == i,
            forall|j: int| 0 <= j < i ==> #[trigger] used[j] == idx@[if reverse { n - 1 - j } else { j }],
            forall|j: int| 0 <= j < i ==> (#[trigger] out@[j])@ == all[used[j] as int],
        decreases n - i,
    {
        let at = if reverse {
            idx[n - 1 - i]
        } else {
            idx[i]
        };
        proof {
            used = used.push(at);
        }
        out.push(tasks[at].copy());
        i += 1;
    }
    proof {
        assert(sort::is_permutation(used, n as nat));
        assert(out.deep_view() =~= sort::permuted(all, used));
        sort::lemma_permuted(all, used);
        assert forall|i: int, j: int| 0 <= i < j < out.deep_view().len() implies #[trigger] task_order(
            out.deep_view()[i],
            out.deep_view()[j],
            column@,
        ) != if reverse {
            Order::Less
        } else {
            Order::Greater
        } by {
            let a = out.deep_view()[i];
            let b = out.deep_view()[j];
            task_order_flips(a, b, column@);
            if reverse {
                assert(!by.precedes(idx@[n - 1 - i] as int, idx@[n - 1 - j] as int));
            } else {
                assert(!by.precedes(idx@[j] as int, idx@[i] as int));
            }
        }
    }
    out
}

/// What a sorted listing looks like: along the column the values rise, or fall
/// where the order is reversed; equal values go by id; and the tasks without a
/// value stand last, or first where the order is reversed.
pub proof fn listings_are_sorted(
    tasks: Seq<TaskV>,
    column: Seq<char>,
    reverse: bool,
    i: int,
    j: int,
)
    requires
        in_column_order(tasks, column, reverse),
        0 <= i < j < tasks.len(),
        column != DEPS_KEY@,
    ensures
        ({
            let a = if reverse {
                tasks[j]
            } else {
                tasks[i]
            };
            let b = if reverse {
                tasks[i]
            } else {
                tasks[j]
            };
            let x = a.custom_fields[column];
            let y = b.custom_fields[column];
            let has_a = a.custom_fields.contains_key(column);
            let has_b = b.custom_fields.contains_key(column);
            &&& column == ID_KEY@ ==> !text::text_lt(b.id, a.id)
            &&& column != ID_KEY@ ==> (has_b ==> has_a)
            &&& column != ID_KEY@ && !has_a && !has_b ==> !text::text_lt(b.id, a.id)
            &&& column != ID_KEY@ && has_a && has_b ==> json::json_order(x, y) != Order::Greater
            &&& column != ID_KEY@ && has_a && has_b && x == y ==> !text::text_lt(b.id, a.id)
            &&& column != ID_KEY@ && has_a && has_b && x is Str && y is Str ==> !text::text_lt(
                y->Str_0,
                x->Str_0,
            )
        }),
{
    let a = tasks[i];
    let b = tasks[j];
    assert(task_order(a, b, column) != if reverse {
        Order::Less
    } else {
        Order::Greater
    });
    task_order_flips(a, b, column);
    text_order_flips(a.id, b.id);
    if cell(a, column) is Some && cell(b, column) is Some {
        let x = cell(a, column)->0;
        let y = cell(b, column)->0;
        json_order_flips(x, y);
        json_order_flips(x, x);
        if x is Str && y is Str {
            text_order_flips(x->Str_0, y->Str_0);
            text::text_lt_irreflexive(x->Str_0);
            if text::text_lt(x->Str_0, y->Str_0) {
                text::text_lt_asymmetric(x->Str_0, y->Str_0);
            }
        }
    }
    text::text_lt_irreflexive(a.id);
    if text::text_lt(a.id, b.id) {
        text::text_lt_asymmetric(a.id, b.id);
    }
    if text::text_lt(b.id, a.id) {
        text::text_lt_asymmetric(b.id, a.id);
    }
}

} // verus!
