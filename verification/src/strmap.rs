//! A map with text keys, kept in key order.

use crate::text::{self, Order};
use vstd::prelude::*;

verus! {

/// Whether the keys ascend strictly, so that none occurs twice.
pub open spec fn ascending(keys: Seq<Seq<char>>) -> bool {
    forall|i: int, j: int| 0 <= i < j < keys.len() ==> #[trigger] text::text_lt(keys[i], keys[j])
}

/// The members of `s` in ascending order.
pub open spec fn sorted_of(s: Set<Seq<char>>) -> Seq<Seq<char>> {
    choose|q: Seq<Seq<char>>| ascending(q) && q.to_set() == s
}

/// An ascending sequence is determined by the set of its members.
pub proof fn ascending_is_unique(a: Seq<Seq<char>>, b: Seq<Seq<char>>)
    requires
        ascending(a),
        ascending(b),
        a.to_set() == b.to_set(),
    ensures
        a == b,
    decreases a.len(),
{
    if a.len() == 0 {
        if b.len() > 0 {
            assert(b.to_set().contains(b[0]));
            assert(a.contains(b[0]));
        }
        assert(a =~= b);
    } else {
        assert(a.to_set().contains(a.last()));
        assert(b.contains(a.last()));
        let j = choose|j: int| 0 <= j < b.len() && b[j] == a.last();
        assert(b.to_set().contains(b.last()));
        assert(a.contains(b.last()));
        let i = choose|i: int| 0 <= i < a.len() && a[i] == b.last();
        if j < b.len() - 1 {
            assert(text::text_lt(b[j], b[b.len() - 1]));
            text::text_lt_asymmetric(a.last(), b.last());
            if i < a.len() - 1 {
                assert(text::text_lt(a[i], a[a.len() - 1]));
            }
            text::text_lt_irreflexive(a.last());
        }
        assert(a.last() == b.last());
        let a1 = a.drop_last();
        let b1 = b.drop_last();
        assert forall|k: Seq<char>| a1.to_set().contains(k) <==> b1.to_set().contains(k) by {
            lemma_drop_last_members(a, k);
            lemma_drop_last_members(b, k);
            assert(a.to_set().contains(k) == a.contains(k));
            assert(b.to_set().contains(k) == b.contains(k));
            assert(a1.to_set().contains(k) == a1.contains(k));
            assert(b1.to_set().contains(k) == b1.contains(k));
        }
        assert(a1.to_set() =~= b1.to_set());
        assert forall|i: int, j: int| 0 <= i < j < a1.len() implies #[trigger] text::text_lt(
            a1[i],
            a1[j],
        ) by {
            assert(text::text_lt(a[i], a[j]));
        }
        assert forall|i: int, j: int| 0 <= i < j < b1.len() implies #[trigger] text::text_lt(
            b1[i],
            b1[j],
        ) by {
            assert(text::text_lt(b[i], b[j]));
        }
        ascending_is_unique(a1, b1);
        assert(a =~= a1.push(a.last()));
        assert(b =~= b1.push(b.last()));
    }
}

proof fn lemma_drop_last_members(a: Seq<Seq<char>>, k: Seq<char>)
    requires
        ascending(a),
        a.len() > 0,
    ensures
        a.drop_last().contains(k) <==> (a.contains(k) && k != a.last()),
{
    if a.drop_last().contains(k) {
        let i = choose|i: int| 0 <= i < a.len() - 1 && a.drop_last()[i] == k;
        assert(a[i] == k);
        assert(text::text_lt(a[i], a[a.len() - 1]));
        text::text_lt_irreflexive(k);
    }
    if a.contains(k) && k != a.last() {
        let i = choose|i: int| 0 <= i < a.len() && a[i] == k;
        assert(a.drop_last()[i] == k);
    }
}

/// Every finite set can be put in ascending order.
pub proof fn sorted_of_finite(s: Set<Seq<char>>)
    requires
        s.finite(),
    ensures
        ascending(sorted_of(s)),
        sorted_of(s).to_set() == s,
    decreases s.len(),
{
    if s.len() == 0 {
        assert(s =~= Set::empty());
        let q = Seq::<Seq<char>>::empty();
        assert(q.to_set() =~= s);
        assert(ascending(q) && q.to_set() == s);
    } else {
        let x = s.choose();
        let rest = s.remove(x);
        sorted_of_finite(rest);
        let q = sorted_of(rest);
        assert(!q.contains(x)) by {
            assert(q.to_set().contains(x) == q.contains(x));
        }
        let at = lemma_place(q, x, q.len());
        let all = q.insert(at as int, x);
        assert forall|i: int, j: int| 0 <= i < j < all.len() implies #[trigger] text::text_lt(
            all[i],
            all[j],
        ) by {
            let i0 = if i < at { i } else { i - 1 };
            let j0 = if j < at { j } else { j - 1 };
            if i != at && j != at {
                assert(text::text_lt(q[i0], q[j0]));
            } else if i == at {
                assert(text::text_lt(x, q[j0]));
            } else {
                assert(text::text_lt(q[i0], x));
            }
        }
        assert forall|k: Seq<char>| all.to_set().contains(k) <==> s.contains(k) by {
            assert(all.to_set().contains(k) == all.contains(k));
            assert(q.to_set().contains(k) == q.contains(k));
            if all.contains(k) {
                let i = choose|i: int| 0 <= i < all.len() && all[i] == k;
                if i != at {
                    assert(q[if i < at { i } else { i - 1 }] == k);
                }
            }
            if q.contains(k) {
                let i = choose|i: int| 0 <= i < q.len() && q[i] == k;
                assert(all[if i < at { i } else { i + 1 }] == k);
            }
            assert(all[at as int] == x);
        }
        assert(all.to_set() =~= s);
    }
}

/// Where a new text goes among the first `n` of an ascending sequence.
proof fn lemma_place(q: Seq<Seq<char>>, x: Seq<char>, n: nat) -> (at: nat)
    requires
        ascending(q),
        !q.contains(x),
        n <= q.len(),
        forall|i: int| n <= i < q.len() ==> text::text_lt(x, #[trigger] q[i]),
    ensures
        at <= n,
        forall|i: int| 0 <= i < at ==> text::text_lt(#[trigger] q[i], x),
        forall|i: int| at <= i < q.len() ==> text::text_lt(x, #[trigger] q[i]),
    decreases n,
{
    if n == 0 {
        0
    } else {
        let last = q[n - 1];
        text::text_lt_total(last, x);
        assert(q.contains(last));
        if text::text_lt(last, x) {
            assert forall|i: int| 0 <= i < n implies text::text_lt(#[trigger] q[i], x) by {
                if i < n - 1 {
                    assert(text::text_lt(q[i], q[n - 1]));
                    text::text_lt_transitive(q[i], last, x);
                }
            }
            n
        } else {
            lemma_place(q, x, (n - 1) as nat)
        }
    }
}

/// The part of `m` under the first `n` of its keys.
pub open spec fn prefix<T>(m: Map<Seq<char>, T>, keys: Seq<Seq<char>>, n: nat) -> Map<
    Seq<char>,
    T,
> {
    m.restrict(keys.take(n as int).to_set())
}

/// The part of a map under its first keys grows by one entry at a time, up to
/// the whole map.
pub proof fn lemma_prefix<T>(m: Map<Seq<char>, T>, keys: Seq<Seq<char>>, n: nat)
    requires
        ascending(keys),
        keys.to_set() == m.dom(),
        n <= keys.len(),
    ensures
        n == 0 ==> prefix(m, keys, n) == Map::<Seq<char>, T>::empty(),
        n == keys.len() ==> prefix(m, keys, n) == m,
        n < keys.len() ==> {
            &&& m.contains_key(keys[n as int])
            &&& !prefix(m, keys, n).contains_key(keys[n as int])
            &&& prefix(m, keys, n + 1) == prefix(m, keys, n).insert(
                keys[n as int],
                m[keys[n as int]],
            )
        },
{
    assert forall|k: Seq<char>| #[trigger] keys.contains(k) <==> m.contains_key(k) by {
        assert(keys.to_set().contains(k) == keys.contains(k));
    }
    if n == 0 {
        assert(prefix(m, keys, n) =~= Map::<Seq<char>, T>::empty());
    }
    if n == keys.len() {
        assert(keys.take(n as int) =~= keys);
        assert(prefix(m, keys, n) =~= m);
    }
    if n < keys.len() {
        let k = keys[n as int];
        assert(keys.contains(k));
        let shorter = keys.take(n as int);
        if shorter.contains(k) {
            let i = choose|i: int| 0 <= i < n && shorter[i] == k;
            assert(text::text_lt(keys[i], keys[n as int]));
            text::text_lt_irreflexive(k);
        }
        let longer = keys.take(n as int + 1);
        assert(longer =~= shorter.push(k));
        assert forall|q: Seq<char>| longer.contains(q) <==> (shorter.contains(q) || q == k) by {
            if shorter.contains(q) {
                let i = choose|i: int| 0 <= i < n && shorter[i] == q;
                assert(longer[i] == q);
            }
            assert(longer[n as int] == k);
        }
        assert(prefix(m, keys, n + 1) =~= prefix(m, keys, n).insert(k, m[k]));
    }
}

/// What can be copied and compared without losing anything of its model.
pub trait Data: DeepView + Sized {
    /// An independent copy.
    fn copy(&self) -> (r: Self)
        ensures
            r.deep_view() == self.deep_view(),
    ;
}

impl Data for String {
    fn copy(&self) -> (r: Self) {
        self.clone()
    }
}

impl Data for usize {
    fn copy(&self) -> (r: Self) {
        *self
    }
}

impl Data for bool {
    fn copy(&self) -> (r: Self) {
        *self
    }
}

impl<T: Data> Data for Vec<T> {
    fn copy(&self) -> (r: Self) {
        let mut out: Vec<T> = Vec::new();
        let mut i: usize = 0;
        while i < self.len()
            invariant
                i <= self.len(),
                out.len() == i,
                forall|j: int|
                    0 <= j < i ==> (#[trigger] out@[j]).deep_view() == self@[j].deep_view(),
            decreases self.len() - i,
        {
            out.push(self[i].copy());
            i += 1;
        }
        assert(out.deep_view() =~= self.deep_view());
        out
    }
}

impl<V: Data> Data for StrMap<V> {
    fn copy(&self) -> (r: Self) {
        proof {
            use_type_invariant(self);
        }
        let mut out: Vec<(String, V)> = Vec::new();
        let mut i: usize = 0;
        while i < self.entries.len()
            invariant
                i <= self.entries.len(),
                out.len() == i,
                forall|j: int|
                    0 <= j < i ==> {
                        &&& (#[trigger] out@[j]).0@ == self.entries@[j].0@
                        &&& out@[j].1.deep_view() == self.entries@[j].1.deep_view()
                    },
            decreases self.entries.len() - i,
        {
            out.push((self.entries[i].0.clone(), self.entries[i].1.copy()));
            i += 1;
        }
        proof {
            let keys = out@.map_values(|e: (String, V)| e.0@);
            assert(keys =~= self.keys_view());
        }
        let r = StrMap { entries: out };
        proof {
            assert(r.keys_view() =~= self.keys_view());
            assert forall|k: Seq<char>| self@.contains_key(k) implies self@[k] == r@[k] by {
                let i = choose|i: int| 0 <= i < self.keys_view().len() && self.keys_view()[i] == k;
                self.lemma_entry(i);
                r.lemma_entry(i);
            }
            assert(r@ =~= self@);
        }
        r
    }
}

/// A map from text to `V`, ordered by key.
pub struct StrMap<V> {
    pub(crate) entries: Vec<(String, V)>,
}

impl<V> StrMap<V> {
    /// The keys in order.
    pub closed spec fn keys_view(&self) -> Seq<Seq<char>> {
        self.entries@.map_values(|e: (String, V)| e.0@)
    }

    #[verifier::type_invariant]
    closed spec fn inv(&self) -> bool {
        ascending(self.keys_view())
    }

    /// The keys are the first parts of the entries.
    pub(crate) proof fn lemma_keys(&self)
        ensures
            self.keys_view().len() == self.entries@.len(),
            forall|i: int|
                0 <= i < self.entries@.len() ==> #[trigger] self.keys_view()[i]
                    == self.entries@[i].0@,
    {
    }

    /// A map made of entries that are in key order already.
    pub(crate) fn from_ordered(entries: Vec<(String, V)>) -> (r: Self)
        requires
            forall|i: int, j: int|
                0 <= i < j < entries@.len() ==> #[trigger] text::text_lt(
                    entries@[i].0@,
                    entries@[j].0@,
                ),
        ensures
            r.entries == entries,
    {
        let ghost keys = entries@.map_values(|e: (String, V)| e.0@);
        proof {
            assert forall|i: int, j: int| 0 <= i < j < keys.len() implies #[trigger] text::text_lt(
                keys[i],
                keys[j],
            ) by {
                assert(text::text_lt(entries@[i].0@, entries@[j].0@));
            }
        }
        StrMap { entries }
    }
}

impl<V: DeepView> StrMap<V> {
    spec fn index_of(&self, k: Seq<char>) -> int {
        choose|i: int| 0 <= i < self.entries@.len() && (#[trigger] self.entries@[i]).0@ == k
    }
}

impl<V: DeepView> View for StrMap<V> {
    type V = Map<Seq<char>, V::V>;

    closed spec fn view(&self) -> Map<Seq<char>, V::V> {
        Map::new(|k: Seq<char>| self.keys_view().contains(k), |k: Seq<char>| self.entries@[self.index_of(k)].1.deep_view())
    }
}

impl<V: DeepView> DeepView for StrMap<V> {
    type V = Map<Seq<char>, V::V>;

    open spec fn deep_view(&self) -> Map<Seq<char>, V::V> {
        self@
    }
}

impl<V: DeepView> StrMap<V> {
    /// An entry's key is in the map with the entry's value, and nothing else is.
    proof fn lemma_entry(&self, i: int)
        requires
            self.inv(),
            0 <= i < self.entries@.len(),
        ensures
            self@.contains_key(self.entries@[i].0@),
            self@[self.entries@[i].0@] == self.entries@[i].1.deep_view(),
            self.keys_view()[i] == self.entries@[i].0@,
    {
        let k = self.entries@[i].0@;
        assert(self.keys_view()[i] == k);
        let j = self.index_of(k);
        assert(0 <= j < self.entries@.len() && self.entries@[j].0@ == k) by {
            assert(self.entries@[i].0@ == k);
        }
        text::text_lt_irreflexive(k);
        if i < j {
            assert(text::text_lt(self.keys_view()[i], self.keys_view()[j]));
        } else if j < i {
            assert(text::text_lt(self.keys_view()[j], self.keys_view()[i]));
        }
    }

    /// The empty map.
    pub fn new() -> (r: Self)
        ensures
            r@ == Map::<Seq<char>, V::V>::empty(),
    {
        let r = StrMap { entries: Vec::new() };
        assert(r.keys_view() =~= Seq::empty());
        assert(r@ =~= Map::<Seq<char>, V::V>::empty());
        r
    }

    /// Where `key` is, or where it would go.
    fn position(&self, key: &str) -> (r: (bool, usize))
        ensures
            r.1 <= self.entries@.len(),
            forall|j: int| 0 <= j < r.1 ==> text::text_lt(#[trigger] self.keys_view()[j], key@),
            forall|j: int|
                (if r.0 { r.1 as int + 1 } else { r.1 as int }) <= j < self.entries@.len()
                    ==> text::text_lt(key@, #[trigger] self.keys_view()[j]),
            r.0 ==> r.1 < self.entries@.len() && self.entries@[r.1 as int].0@ == key@,
            r.0 == self@.contains_key(key@),
    {
        proof {
            use_type_invariant(self);
        }
        let ghost keys = self.keys_view();
        let mut lo: usize = 0;
        let mut hi: usize = self.entries.len();
        while lo < hi
            invariant
                lo <= hi <= self.entries@.len(),
                keys == self.keys_view(),
                ascending(keys),
                keys.len() == self.entries@.len(),
                forall|j: int| 0 <= j < lo ==> text::text_lt(#[trigger] keys[j], key@),
                forall|j: int| hi <= j < keys.len() ==> text::text_lt(key@, #[trigger] keys[j]),
            decreases hi - lo,
        {
            let mid: usize = lo + (hi - lo) / 2;
            let o = text::compare_text(self.entries[mid].0.as_str(), key);
            assert(keys[mid as int] == self.entries@[mid as int].0@);
            proof {
                text::text_lt_total(keys[mid as int], key@);
                assert forall|j: int| 0 <= j < mid implies text::text_lt(
                    #[trigger] keys[j],
                    keys[mid as int],
                ) by {}
                assert forall|j: int| mid < j < keys.len() implies text::text_lt(
                    keys[mid as int],
                    #[trigger] keys[j],
                ) by {}
            }
            match o {
                Order::Equal => {
                    proof {
                        assert(keys.contains(key@));
                    }
                    return (true, mid);
                },
                Order::Less => {
                    proof {
                        assert forall|j: int| 0 <= j < mid + 1 implies text::text_lt(
                            #[trigger] keys[j],
                            key@,
                        ) by {
                            if j < mid {
                                text::text_lt_transitive(keys[j], keys[mid as int], key@);
                            }
                        }
                    }
                    lo = mid + 1;
                },
                Order::Greater => {
                    proof {
                        assert forall|j: int| mid <= j < keys.len() implies text::text_lt(
                            key@,
                            #[trigger] keys[j],
                        ) by {
                            if j > mid {
                                text::text_lt_transitive(key@, keys[mid as int], keys[j]);
                            }
                        }
                    }
                    hi = mid;
                },
            }
        }
        proof {
            if keys.contains(key@) {
                let i = choose|i: int| 0 <= i < keys.len() && keys[i] == key@;
                text::text_lt_irreflexive(key@);
            }
        }
        (false, lo)
    }

    /// The value under `key`.
    pub fn get(&self, key: &str) -> (r: Option<&V>)
        ensures
            match r {
                Some(v) => self@.contains_key(key@) && self@[key@] == v.deep_view(),
                None => !self@.contains_key(key@),
            },
    {
        proof {
            use_type_invariant(self);
        }
        let (found, at) = self.position(key);
        if found {
            proof {
                self.lemma_entry(at as int);
            }
            Some(&self.entries[at].1)
        } else {
            None
        }
    }

    /// Whether `key` is in the map.
    pub fn contains_key(&self, key: &str) -> (r: bool)
        ensures
            r == self@.contains_key(key@),
    {
        self.position(key).0
    }

    /// How many keys the map has.
    pub fn len(&self) -> (r: usize)
        ensures
            r == self.keys_view().len(),
            ascending(self.keys_view()),
            self.keys_view().to_set() == self@.dom(),
            self.keys_view() == sorted_of(self@.dom()),
            self@.dom().finite(),
    {
        proof {
            use_type_invariant(self);
            assert(self.keys_view().to_set() =~= self@.dom());
            vstd::seq_lib::seq_to_set_is_finite(self.keys_view());
            ascending_is_unique(self.keys_view(), sorted_of(self@.dom()));
        }
        self.entries.len()
    }

    /// Whether the map has no keys.
    pub fn is_empty(&self) -> (r: bool)
        ensures
            r == (self@ == Map::<Seq<char>, V::V>::empty()),
    {
        let n = self.len();
        proof {
            if n == 0 {
                assert(self@ =~= Map::<Seq<char>, V::V>::empty()) by {
                    assert forall|k: Seq<char>| !self@.contains_key(k) by {
                        assert(self.keys_view().to_set().contains(k) == self.keys_view().contains(k));
                    }
                }
            } else {
                let k = self.keys_view()[0];
                assert(self.keys_view().contains(k));
                assert(self.keys_view().to_set().contains(k));
                assert(self@.contains_key(k));
            }
        }
        n == 0
    }

    /// The `i`-th key in order.
    pub fn key_at(&self, i: usize) -> (r: &String)
        requires
            i < self.keys_view().len(),
        ensures
            r@ == self.keys_view()[i as int],
            self@.contains_key(r@),
    {
        proof {
            use_type_invariant(self);
            self.lemma_entry(i as int);
        }
        &self.entries[i].0
    }

    /// Puts `value` under `key`, in place of what was there.
    pub fn insert(&mut self, key: String, value: V)
        ensures
            final(self)@ == old(self)@.insert(key@, value.deep_view()),
    {
        proof {
            use_type_invariant(&*self);
        }
        let (found, at) = self.position(key.as_str());
        let ghost before = *self;
        let ghost keys = self.keys_view();
        let ghost k = key@;
        let ghost v = value.deep_view();
        let mut entries: Vec<(String, V)> = Vec::new();
        std::mem::swap(&mut entries, &mut self.entries);
        if found {
            proof {
                before.lemma_entry(at as int);
            }
            entries.set(at, (key, value));
            let ghost after = StrMap { entries };
            proof {
                assert(after.keys_view() =~= keys);
            }
            self.entries = entries;
        } else {
            entries.insert(at, (key, value));
            let ghost after = StrMap { entries };
            proof {
                assert(after.keys_view() =~= keys.insert(at as int, k));
                assert forall|i: int, j: int|
                    0 <= i < j < after.keys_view().len() implies #[trigger] text::text_lt(
                    after.keys_view()[i],
                    after.keys_view()[j],
                ) by {
                    let i0 = if i < at { i } else { i - 1 };
                    let j0 = if j < at { j } else { j - 1 };
                    if i != at && j != at {
                        assert(text::text_lt(keys[i0], keys[j0]));
                    } else if i == at {
                        assert(text::text_lt(k, keys[j0]));
                    } else {
                        assert(text::text_lt(keys[i0], k));
                    }
                }
            }
            self.entries = entries;
        }
        proof {
            self.lemma_entry(at as int);
            let after = *self;
            assert forall|q: Seq<char>|
                after@.contains_key(q) <==> before@.insert(k, v).contains_key(q) by {
                if after@.contains_key(q) {
                    let i = choose|i: int|
                        0 <= i < after.keys_view().len() && after.keys_view()[i] == q;
                    if i != at {
                        let i0 = if found || i < at { i } else { i - 1 };
                        assert(keys[i0] == q);
                    }
                }
                if before@.contains_key(q) && q != k {
                    let i = choose|i: int| 0 <= i < keys.len() && keys[i] == q;
                    let i1 = if found || i < at { i } else { i + 1 };
                    assert(after.keys_view()[i1] == q);
                }
            }
            assert forall|q: Seq<char>| after@.contains_key(q) implies after@[q]
                == before@.insert(k, v)[q] by {
                let i = choose|i: int|
                    0 <= i < after.keys_view().len() && after.keys_view()[i] == q;
                after.lemma_entry(i);
                if i != at {
                    let i0 = if found || i < at { i } else { i - 1 };
                    before.lemma_entry(i0);
                    text::text_lt_irreflexive(k);
                    if q == k {
                        if i < at {
                            assert(text::text_lt(after.keys_view()[i], after.keys_view()[at as int]));
                        } else {
                            assert(text::text_lt(after.keys_view()[at as int], after.keys_view()[i]));
                        }
                    }
                }
            }
            assert(after@ =~= before@.insert(k, v));
        }
    }

    /// Takes `key` out of the map.
    pub fn remove(&mut self, key: &str) -> (r: bool)
        ensures
            final(self)@ == old(self)@.remove(key@),
            r == old(self)@.contains_key(key@),
    {
        self.take(key).is_some()
    }

    /// Takes `key` out of the map and hands its value out.
    pub fn take(&mut self, key: &str) -> (r: Option<V>)
        ensures
            final(self)@ == old(self)@.remove(key@),
            match r {
                Some(v) => old(self)@.contains_key(key@) && v.deep_view() == old(self)@[key@],
                None => !old(self)@.contains_key(key@),
            },
    {
        proof {
            use_type_invariant(&*self);
        }
        let (found, at) = self.position(key);
        let ghost before = *self;
        let ghost keys = self.keys_view();
        if !found {
            assert(before@ =~= before@.remove(key@));
            return None;
        }
        proof {
            before.lemma_entry(at as int);
        }
        let mut entries: Vec<(String, V)> = Vec::new();
        std::mem::swap(&mut entries, &mut self.entries);
        let gone = entries.remove(at);
        let ghost after = StrMap { entries };
        proof {
            assert(after.keys_view() =~= keys.remove(at as int));
            assert forall|i: int, j: int|
                0 <= i < j < after.keys_view().len() implies #[trigger] text::text_lt(
                after.keys_view()[i],
                after.keys_view()[j],
            ) by {
                let i0 = if i < at { i } else { i + 1 };
                let j0 = if j < at { j } else { j + 1 };
                assert(text::text_lt(keys[i0], keys[j0]));
            }
        }
        self.entries = entries;
        proof {
            let after = *self;
            text::text_lt_irreflexive(key@);
            assert(keys[at as int] == key@);
            assert forall|q: Seq<char>|
                after@.contains_key(q) <==> before@.remove(key@).contains_key(q) by {
                if after@.contains_key(q) {
                    let i = choose|i: int|
                        0 <= i < after.keys_view().len() && after.keys_view()[i] == q;
                    let i0 = if i < at { i } else { i + 1 };
                    assert(keys[i0] == q);
                    if i0 < at {
                        assert(text::text_lt(keys[i0], keys[at as int]));
                    } else {
                        assert(text::text_lt(keys[at as int], keys[i0]));
                    }
                }
                if before@.contains_key(q) && q != key@ {
                    let i = choose|i: int| 0 <= i < keys.len() && keys[i] == q;
                    let i1 = if i < at { i } else { i - 1 };
                    assert(after.keys_view()[i1] == q);
                }
            }
            assert forall|q: Seq<char>| after@.contains_key(q) implies after@[q]
                == before@.remove(key@)[q] by {
                let i = choose|i: int|
                    0 <= i < after.keys_view().len() && after.keys_view()[i] == q;
                after.lemma_entry(i);
                let i0 = if i < at { i } else { i + 1 };
                before.lemma_entry(i0);
            }
            assert(after@ =~= before@.remove(key@));
        }
        Some(gone.1)
    }

    /// Relates the entries to the map they stand for.
    pub(crate) fn expose(&self)
        ensures
            self.keys_view() == sorted_of(self@.dom()),
            self.keys_view().len() == self.entries@.len(),
            forall|i: int|
                0 <= i < self.entries@.len() ==> {
                    &&& (#[trigger] self.entries@[i]).0@ == self.keys_view()[i]
                    &&& self@[self.keys_view()[i]] == self.entries@[i].1.deep_view()
                },
    {
        let n = self.len();
        proof {
            use_type_invariant(self);
            self.lemma_keys();
            assert forall|i: int| 0 <= i < self.entries@.len() implies {
                &&& (#[trigger] self.entries@[i]).0@ == self.keys_view()[i]
                &&& self@[self.keys_view()[i]] == self.entries@[i].1.deep_view()
            } by {
                self.lemma_entry(i);
            }
        }
    }

    /// The value under the `i`-th key.
    pub fn value_at(&self, i: usize) -> (r: &V)
        requires
            i < self.keys_view().len(),
        ensures
            self@.contains_key(self.keys_view()[i as int]),
            r.deep_view() == self@[self.keys_view()[i as int]],
    {
        proof {
            use_type_invariant(self);
            self.lemma_entry(i as int);
        }
        &self.entries[i].1
    }
}

/// A set of texts, in order.
pub struct StrSet {
    map: StrMap<bool>,
}

impl View for StrSet {
    type V = Set<Seq<char>>;

    closed spec fn view(&self) -> Set<Seq<char>> {
        self.map@.dom()
    }
}

impl DeepView for StrSet {
    type V = Set<Seq<char>>;

    open spec fn deep_view(&self) -> Set<Seq<char>> {
        self@
    }
}

impl StrSet {
    /// The members in order.
    pub closed spec fn members(&self) -> Seq<Seq<char>> {
        self.map.keys_view()
    }

    /// The empty set.
    pub fn new() -> (r: Self)
        ensures
            r@ == Set::<Seq<char>>::empty(),
    {
        let r = StrSet { map: StrMap::new() };
        assert(r@ =~= Set::<Seq<char>>::empty());
        r
    }

    /// Puts `x` into the set. The result says whether it was new.
    pub fn insert(&mut self, x: String) -> (r: bool)
        ensures
            final(self)@ == old(self)@.insert(x@),
            r == !old(self)@.contains(x@),
    {
        let known = self.map.contains_key(x.as_str());
        let ghost before = self@;
        let ghost text = x@;
        self.map.insert(x, true);
        assert(self@ =~= before.insert(text));
        !known
    }

    /// Whether `x` is in the set.
    pub fn contains(&self, x: &str) -> (r: bool)
        ensures
            r == self@.contains(x@),
    {
        self.map.contains_key(x)
    }

    /// How many members the set has.
    pub fn len(&self) -> (r: usize)
        ensures
            r == self.members().len(),
            ascending(self.members()),
            self.members().to_set() == self@,
            self.members() == sorted_of(self@),
    {
        self.map.len()
    }

    /// Where `x` stands among the members.
    pub fn index_of(&self, x: &str) -> (r: Option<usize>)
        ensures
            match r {
                Some(i) => i < self.members().len() && self.members()[i as int] == x@ && self@.contains(x@),
                None => !self@.contains(x@),
            },
    {
        self.map.index_of_key(x)
    }

    /// The `i`-th member in order.
    pub fn at(&self, i: usize) -> (r: &String)
        requires
            i < self.members().len(),
        ensures
            r@ == self.members()[i as int],
            self@.contains(r@),
    {
        self.map.key_at(i)
    }
}

impl<V: DeepView> StrMap<V> {
    /// Where `key` stands among the keys.
    pub fn index_of_key(&self, key: &str) -> (r: Option<usize>)
        ensures
            match r {
                Some(i) => i < self.keys_view().len() && self.keys_view()[i as int] == key@
                    && self@.contains_key(key@),
                None => !self@.contains_key(key@),
            },
    {
        let (found, at) = self.position(key);
        if found {
            Some(at)
        } else {
            None
        }
    }
}

/// Members of an ascending sequence differ from each other.
pub proof fn lemma_ascending_distinct(keys: Seq<Seq<char>>)
    requires
        ascending(keys),
    ensures
        keys.no_duplicates(),
{
    assert forall|i: int, j: int| 0 <= i < keys.len() && 0 <= j < keys.len() && i != j implies keys[i]
        != keys[j] by {
        text::text_lt_irreflexive(keys[i]);
        if i < j {
            assert(text::text_lt(keys[i], keys[j]));
        } else {
            assert(text::text_lt(keys[j], keys[i]));
        }
    }
}

/// One more of a sequence's items holds one more text.
pub proof fn lemma_take_one_more(keys: Seq<Seq<char>>, n: int, k: Seq<char>)
    requires
        0 <= n < keys.len(),
    ensures
        keys.take(n + 1).contains(k) <==> keys.take(n).contains(k) || k == keys[n],
{
    let longer = keys.take(n + 1);
    let shorter = keys.take(n);
    if longer.contains(k) {
        let x = choose|x: int| 0 <= x < longer.len() && longer[x] == k;
        if x < n {
            assert(shorter[x] == k);
        }
    }
    if shorter.contains(k) {
        let x = choose|x: int| 0 <= x < shorter.len() && shorter[x] == k;
        assert(longer[x] == k);
    }
    assert(longer[n] == keys[n]);
}

/// What a sequence holds is its last element and what stands before it.
pub proof fn lemma_contains_last<T>(s: Seq<T>, x: T)
    requires
        s.len() > 0,
    ensures
        s.contains(x) <==> s.drop_last().contains(x) || x == s.last(),
{
    if s.drop_last().contains(x) {
        let i = choose|i: int| 0 <= i < s.len() - 1 && s.drop_last()[i] == x;
        assert(s[i] == x);
    }
    if s.contains(x) && x != s.last() {
        let i = choose|i: int| 0 <= i < s.len() && s[i] == x;
        assert(s.drop_last()[i] == x);
    }
    assert(s[s.len() - 1] == s.last());
}

} // verus!
