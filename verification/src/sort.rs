//! Sorting by a comparison.

use crate::text;
use vstd::prelude::*;

verus! {

/// Whether `lt` orders the numbers below `n`, ties allowed.
pub open spec fn orders(lt: spec_fn(int, int) -> bool, n: int) -> bool {
    &&& forall|a: int, b: int|
        0 <= a < n && 0 <= b < n && #[trigger] lt(a, b) ==> !lt(b, a)
    &&& forall|a: int, b: int, c: int|
        0 <= a < n && 0 <= b < n && 0 <= c < n && !(#[trigger] lt(a, b)) && !(#[trigger] lt(b, c))
            ==> !lt(a, c)
}

/// Whether no entry belongs before an earlier one.
pub open spec fn in_order(s: Seq<usize>, lt: spec_fn(int, int) -> bool) -> bool {
    forall|i: int, j: int|
        0 <= i < j < s.len() ==> !(#[trigger] lt(s[j] as int, s[i] as int))
}

/// Whether `s` holds each number below `n` once.
pub open spec fn is_permutation(s: Seq<usize>, n: nat) -> bool {
    &&& s.len() == n
    &&& s.no_duplicates()
    &&& forall|i: int| 0 <= i < s.len() ==> #[trigger] s[i] < n
}

/// A comparison of the first numbers, ties allowed.
pub trait Ranking {
    /// How many numbers there are to compare.
    spec fn size(&self) -> nat;

    /// Whether `a` belongs before `b`.
    spec fn precedes(&self, a: int, b: int) -> bool;

    /// The comparison is an order.
    proof fn lemma_orders(&self)
        ensures
            orders(|a: int, b: int| self.precedes(a, b), self.size() as int),
    ;

    /// Whether `a` belongs before `b`.
    fn before(&self, a: usize, b: usize) -> (r: bool)
        requires
            a < self.size(),
            b < self.size(),
        ensures
            r == self.precedes(a as int, b as int),
    ;
}

/// Whether no entry belongs before an earlier one.
pub open spec fn ranked<R: Ranking>(s: Seq<usize>, by: &R) -> bool {
    forall|i: int, j: int|
        0 <= i < j < s.len() ==> !(#[trigger] by.precedes(s[j] as int, s[i] as int))
}

/// The numbers below `n` in the order that `by` decides.
pub fn sort_indices<R: Ranking>(n: usize, by: &R) -> (r: Vec<usize>)
    requires
        n == by.size(),
    ensures
        is_permutation(r@, n as nat),
        ranked(r@, by),
{
    let ghost lt = |a: int, b: int| by.precedes(a, b);
    proof {
        by.lemma_orders();
    }
    let mut out: Vec<usize> = Vec::new();
    let mut x: usize = 0;
    while x < n
        invariant
            x <= n,
            n == by.size(),
            lt == (|a: int, b: int| by.precedes(a, b)),
            orders(lt, n as int),
            is_permutation(out@, x as nat),
            in_order(out@, lt),
        decreases n - x,
    {
        let mut lo: usize = 0;
        let mut hi: usize = out.len();
        while lo < hi
            invariant
                lo <= hi <= out.len(),
                x < n,
                n == by.size(),
                lt == (|a: int, b: int| by.precedes(a, b)),
                orders(lt, n as int),
                is_permutation(out@, x as nat),
                in_order(out@, lt),
                forall|k: int| 0 <= k < lo ==> !lt(x as int, #[trigger] out@[k] as int),
                forall|k: int| hi <= k < out@.len() ==> lt(x as int, #[trigger] out@[k] as int),
            decreases hi - lo,
        {
            let mid: usize = lo + (hi - lo) / 2;
            let ghost m = out@[mid as int] as int;
            if by.before(x, out[mid]) {
                proof {
                    assert forall|k: int| mid <= k < out@.len() implies lt(
                        x as int,
                        #[trigger] out@[k] as int,
                    ) by {
                        if k > mid {
                            assert(!lt(out@[k] as int, m));
                            if !lt(x as int, out@[k] as int) {
                                assert(!lt(x as int, m));
                            }
                        }
                    }
                }
                hi = mid;
            } else {
                proof {
                    assert forall|k: int| 0 <= k < mid + 1 implies !lt(
                        x as int,
                        #[trigger] out@[k] as int,
                    ) by {
                        assert(!lt(x as int, m));
                        if k < mid {
                            assert(!lt(m, out@[k] as int));
                        }
                    }
                }
                lo = mid + 1;
            }
        }
        let ghost was = out@;
        out.insert(lo, x);
        proof {
            assert forall|i: int, j: int| 0 <= i < j < out@.len() implies !(#[trigger] lt(
                out@[j] as int,
                out@[i] as int,
            )) by {
                let i0 = if i < lo { i } else { i - 1 };
                let j0 = if j < lo { j } else { j - 1 };
                if i != lo && j != lo {
                    assert(!lt(was[j0] as int, was[i0] as int));
                } else if i == lo {
                    assert(lt(x as int, was[j0] as int));
                } else {
                    assert(!lt(x as int, was[i0] as int));
                }
            }
            assert forall|i: int| 0 <= i < out@.len() implies #[trigger] out@[i] < x + 1 by {
                let i0 = if i < lo { i } else { i - 1 };
                if i != lo {
                    assert(was[i0] < x);
                }
            }
            assert forall|i: int, j: int|
                0 <= i < out@.len() && 0 <= j < out@.len() && i != j implies out@[i] != out@[j] by {
                let i0 = if i < lo { i } else { i - 1 };
                let j0 = if j < lo { j } else { j - 1 };
                if i != lo {
                    assert(was[i0] < x);
                }
                if j != lo {
                    assert(was[j0] < x);
                }
            }
        }
        x += 1;
    }
    proof {
        assert forall|i: int, j: int| 0 <= i < j < out@.len() implies !(#[trigger] by.precedes(
            out@[j] as int,
            out@[i] as int,
        )) by {
            assert(!lt(out@[j] as int, out@[i] as int));
        }
    }
    out
}

/// Lexicographic order of lists of texts.
pub open spec fn list_lt(a: Seq<Seq<char>>, b: Seq<Seq<char>>) -> bool
    decreases a.len(),
{
    if b.len() == 0 {
        false
    } else if a.len() == 0 {
        true
    } else if a[0] != b[0] {
        text::text_lt(a[0], b[0])
    } else {
        list_lt(a.drop_first(), b.drop_first())
    }
}

/// The order of lists is asymmetric.
pub proof fn list_lt_asymmetric(a: Seq<Seq<char>>, b: Seq<Seq<char>>)
    requires
        list_lt(a, b),
    ensures
        !list_lt(b, a),
    decreases a.len(),
{
    if a.len() > 0 {
        if a[0] != b[0] {
            text::text_lt_asymmetric(a[0], b[0]);
        } else {
            list_lt_asymmetric(a.drop_first(), b.drop_first());
        }
    }
}

/// What is not before another is not before anything the other is not before.
pub proof fn list_lt_negatively_transitive(
    a: Seq<Seq<char>>,
    b: Seq<Seq<char>>,
    c: Seq<Seq<char>>,
)
    requires
        !list_lt(a, b),
        !list_lt(b, c),
    ensures
        !list_lt(a, c),
    decreases a.len(),
{
    if a.len() > 0 && b.len() > 0 && c.len() > 0 {
        text::text_lt_total(a[0], b[0]);
        text::text_lt_total(b[0], c[0]);
        text::text_lt_irreflexive(a[0]);
        if a[0] == b[0] && b[0] == c[0] {
            list_lt_negatively_transitive(a.drop_first(), b.drop_first(), c.drop_first());
        } else if list_lt(a, c) {
            if a[0] != b[0] && b[0] != c[0] {
                text::text_lt_transitive(c[0], b[0], a[0]);
            }
            if a[0] != c[0] {
                text::text_lt_asymmetric(a[0], c[0]);
            }
            text::text_lt_irreflexive(b[0]);
            if a[0] == c[0] && a[0] != b[0] {
                text::text_lt_asymmetric(b[0], a[0]);
            }
        }
    }
}

/// Whether list `a` comes before list `b`.
pub fn list_before(a: &Vec<String>, b: &Vec<String>) -> (r: bool)
    ensures
        r == list_lt(a.deep_view(), b.deep_view()),
{
    let ghost da = a.deep_view();
    let ghost db = b.deep_view();
    let mut i: usize = 0;
    assert(da.skip(0) =~= da);
    assert(db.skip(0) =~= db);
    while i < a.len() && i < b.len()
        invariant
            i <= a.len(),
            i <= b.len(),
            da == a.deep_view(),
            db == b.deep_view(),
            list_lt(da.skip(i as int), db.skip(i as int)) == list_lt(da, db),
        decreases a.len() - i,
    {
        let ghost ra = da.skip(i as int);
        let ghost rb = db.skip(i as int);
        assert(ra[0] == a@[i as int]@ && rb[0] == b@[i as int]@);
        assert(ra.drop_first() =~= da.skip(i as int + 1));
        assert(rb.drop_first() =~= db.skip(i as int + 1));
        match text::compare_text(a[i].as_str(), b[i].as_str()) {
            text::Order::Less => {
                proof {
                    text::text_lt_irreflexive(ra[0]);
                }
                return true;
            },
            text::Order::Greater => {
                return false;
            },
            text::Order::Equal => {
                i += 1;
            },
        }
    }
    i < b.len()
}

/// The order of lists of texts, by their places.
pub struct ByList<'a> {
    pub lists: &'a Vec<Vec<String>>,
}

impl<'a> Ranking for ByList<'a> {
    open spec fn size(&self) -> nat {
        self.lists.len() as nat
    }

    open spec fn precedes(&self, a: int, b: int) -> bool {
        list_lt(self.lists.deep_view()[a], self.lists.deep_view()[b])
    }

    proof fn lemma_orders(&self) {
        let lists = self.lists.deep_view();
        let lt = |a: int, b: int| self.precedes(a, b);
        assert forall|a: int, b: int|
            0 <= a < lists.len() && 0 <= b < lists.len() && #[trigger] lt(a, b) implies !lt(b, a) by {
            list_lt_asymmetric(lists[a], lists[b]);
        }
        assert forall|a: int, b: int, c: int|
            0 <= a < lists.len() && 0 <= b < lists.len() && 0 <= c < lists.len() && !(
            #[trigger] lt(a, b)) && !(#[trigger] lt(b, c)) implies !lt(a, c) by {
            list_lt_negatively_transitive(lists[a], lists[b], lists[c]);
        }
    }

    fn before(&self, a: usize, b: usize) -> (r: bool) {
        list_before(&self.lists[a], &self.lists[b])
    }
}

/// The items of `s` in the order that `idx` gives.
pub open spec fn permuted<T>(s: Seq<T>, idx: Seq<usize>) -> Seq<T> {
    Seq::new(idx.len(), |i: int| s[idx[i] as int])
}

pub(crate) proof fn lemma_permutation_covers(idx: Seq<usize>, n: nat, m: int)
    requires
        is_permutation(idx, n),
        0 <= m < n,
    ensures
        exists|p: int| 0 <= p < idx.len() && #[trigger] idx[p] == m,
{
    let ints = Seq::new(idx.len(), |i: int| idx[i] as int);
    assert(ints.no_duplicates());
    ints.unique_seq_to_set();
    vstd::set_lib::lemma_int_range(0, n as int);
    assert(ints.to_set().subset_of(vstd::set_lib::set_int_range(0, n as int)));
    vstd::set_lib::lemma_subset_equality(
        ints.to_set(),
        vstd::set_lib::set_int_range(0, n as int),
    );
    assert(ints.to_set().contains(m));
    let p = choose|p: int| 0 <= p < ints.len() && ints[p] == m;
    assert(idx[p] == m);
}

/// A permutation keeps what is there and how often.
pub proof fn lemma_permuted<T>(s: Seq<T>, idx: Seq<usize>)
    requires
        is_permutation(idx, s.len()),
    ensures
        permuted(s, idx).to_multiset() == s.to_multiset(),
    decreases s.len(),
{
    broadcast use vstd::seq_lib::group_to_multiset_ensures;

    let n = s.len();
    if n == 0 {
        assert(permuted(s, idx) =~= s);
    } else {
        lemma_permutation_covers(idx, n, n - 1);
        let p = choose|p: int| 0 <= p < idx.len() && #[trigger] idx[p] == n - 1;
        let fewer = idx.remove(p);
        let short = s.drop_last();
        assert forall|i: int| 0 <= i < fewer.len() implies #[trigger] fewer[i] < n - 1 by {
            let i0 = if i < p { i } else { i + 1 };
            assert(fewer[i] == idx[i0]);
            assert(idx[i0] != idx[p]);
        }
        assert(fewer.no_duplicates()) by {
            assert forall|i: int, j: int|
                0 <= i < fewer.len() && 0 <= j < fewer.len() && i != j implies fewer[i]
                != fewer[j] by {
                let i0 = if i < p { i } else { i + 1 };
                let j0 = if j < p { j } else { j + 1 };
                assert(idx[i0] != idx[j0]);
            }
        }
        lemma_permuted(short, fewer);
        let whole = permuted(s, idx);
        assert(whole.remove(p) =~= permuted(short, fewer));
        assert(s =~= short.push(s.last()));
        assert(whole[p] == s.last());
        assert(whole.contains(whole[p]));
        vstd::seq_lib::to_multiset_remove(whole, p);
        vstd::seq_lib::to_multiset_build(short, s.last());
        assert(whole.to_multiset() =~= whole.to_multiset().remove(whole[p]).insert(whole[p]));
    }
}

/// Two lists of texts that are not before each other are the same.
pub proof fn list_lt_total(a: Seq<Seq<char>>, b: Seq<Seq<char>>)
    ensures
        list_lt(a, b) || list_lt(b, a) || a == b,
    decreases a.len(),
{
    if a.len() > 0 && b.len() > 0 {
        text::text_lt_total(a[0], b[0]);
        if a[0] == b[0] {
            list_lt_total(a.drop_first(), b.drop_first());
            if a.drop_first() == b.drop_first() {
                assert(a =~= seq![a[0]] + a.drop_first());
                assert(b =~= seq![b[0]] + b.drop_first());
            }
        }
    } else if a.len() == 0 && b.len() == 0 {
        assert(a =~= b);
    }
}

/// Whether lists of texts stand in order.
pub open spec fn lists_in_order(s: Seq<Seq<Seq<char>>>) -> bool {
    forall|i: int, j: int| 0 <= i < j < s.len() ==> !(#[trigger] list_lt(s[j], s[i]))
}

/// What a sequence of lists holds, and that it is in order, determines it.
pub proof fn lists_in_order_unique(a: Seq<Seq<Seq<char>>>, b: Seq<Seq<Seq<char>>>)
    requires
        lists_in_order(a),
        lists_in_order(b),
        a.to_multiset() == b.to_multiset(),
    ensures
        a == b,
    decreases a.len(),
{
    broadcast use vstd::seq_lib::group_to_multiset_ensures;

    assert(a.len() == a.to_multiset().len());
    assert(b.len() == b.to_multiset().len());
    if a.len() == 0 {
        assert(a =~= b);
    } else {
        let x = a.last();
        let y = b.last();
        assert(a.contains(x));
        assert(b.contains(y));
        assert(b.to_multiset().count(x) > 0);
        assert(a.to_multiset().count(y) > 0);
        assert(b.contains(x));
        assert(a.contains(y));
        let i = choose|i: int| 0 <= i < b.len() && b[i] == x;
        let j = choose|j: int| 0 <= j < a.len() && a[j] == y;
        list_lt_total(x, y);
        if x != y {
            assert(!list_lt(b[b.len() - 1], b[i]));
            assert(!list_lt(a[a.len() - 1], a[j]));
        }
        let a1 = a.drop_last();
        let b1 = b.drop_last();
        assert(a =~= a1.push(x));
        assert(b =~= b1.push(y));
        vstd::seq_lib::to_multiset_build(a1, x);
        vstd::seq_lib::to_multiset_build(b1, y);
        assert(a1.to_multiset() =~= a.to_multiset().remove(x));
        assert(b1.to_multiset() =~= b.to_multiset().remove(y));
        assert forall|i: int, j: int| 0 <= i < j < a1.len() implies !(#[trigger] list_lt(
            a1[j],
            a1[i],
        )) by {
            assert(!list_lt(a[j], a[i]));
        }
        assert forall|i: int, j: int| 0 <= i < j < b1.len() implies !(#[trigger] list_lt(
            b1[j],
            b1[i],
        )) by {
            assert(!list_lt(b[j], b[i]));
        }
        lists_in_order_unique(a1, b1);
    }
}

/// Whether indices ascend strictly in an order.
pub open spec fn strictly(s: Seq<usize>, lt: spec_fn(int, int) -> bool) -> bool {
    forall|i: int, j: int| 0 <= i < j < s.len() ==> #[trigger] lt(s[i] as int, s[j] as int)
}

proof fn lemma_strict_unique(a: Seq<usize>, b: Seq<usize>, lt: spec_fn(int, int) -> bool)
    requires
        strictly(a, lt),
        strictly(b, lt),
        forall|x: int, y: int| #[trigger] lt(x, y) ==> !lt(y, x),
        forall|x: usize| #[trigger] a.contains(x) <==> b.contains(x),
    ensures
        a == b,
    decreases a.len(),
{
    if a.len() == 0 {
        if b.len() > 0 {
            assert(b.contains(b[0]));
            assert(a.contains(b[0]));
        }
        assert(a =~= b);
    } else {
        let x = a.last();
        assert(a.contains(x));
        assert(b.contains(x));
        let y = b.last();
        assert(b.contains(y));
        assert(a.contains(y));
        let i = choose|i: int| 0 <= i < a.len() && a[i] == y;
        let j = choose|j: int| 0 <= j < b.len() && b[j] == x;
        if j < b.len() - 1 {
            assert(lt(b[j] as int, b[b.len() - 1] as int));
            if i < a.len() - 1 {
                assert(lt(a[i] as int, a[a.len() - 1] as int));
            }
        }
        assert(x == y);
        let a1 = a.drop_last();
        let b1 = b.drop_last();
        assert forall|e: usize| #[trigger] a1.contains(e) <==> b1.contains(e) by {
            assert(a.contains(e) <==> b.contains(e));
            if a1.contains(e) {
                let k = choose|k: int| 0 <= k < a1.len() && a1[k] == e;
                assert(lt(a[k] as int, a[a.len() - 1] as int));
                assert(a[k] == e);
                let m = choose|m: int| 0 <= m < b.len() && b[m] == e;
                assert(b1[m] == e);
            }
            if b1.contains(e) {
                let k = choose|k: int| 0 <= k < b1.len() && b1[k] == e;
                assert(lt(b[k] as int, b[b.len() - 1] as int));
                assert(b[k] == e);
                let m = choose|m: int| 0 <= m < a.len() && a[m] == e;
                assert(a1[m] == e);
            }
        }
        assert forall|p: int, q: int| 0 <= p < q < a1.len() implies #[trigger] lt(
            a1[p] as int,
            a1[q] as int,
        ) by {
            assert(lt(a[p] as int, a[q] as int));
        }
        assert forall|p: int, q: int| 0 <= p < q < b1.len() implies #[trigger] lt(
            b1[p] as int,
            b1[q] as int,
        ) by {
            assert(lt(b[p] as int, b[q] as int));
        }
        lemma_strict_unique(a1, b1, lt);
        assert(a =~= a1.push(x));
        assert(b =~= b1.push(x));
    }
}

/// There is one arrangement of `n` things in a strict order.
pub proof fn arrangement_is_unique(
    a: Seq<usize>,
    b: Seq<usize>,
    n: nat,
    lt: spec_fn(int, int) -> bool,
)
    requires
        is_permutation(a, n),
        is_permutation(b, n),
        strictly(a, lt),
        strictly(b, lt),
        forall|x: int, y: int| #[trigger] lt(x, y) ==> !lt(y, x),
    ensures
        a == b,
{
    assert forall|x: usize| #[trigger] a.contains(x) <==> b.contains(x) by {
        if a.contains(x) {
            let i = choose|i: int| 0 <= i < a.len() && a[i] == x;
            lemma_permutation_covers(b, n, x as int);
        }
        if b.contains(x) {
            let i = choose|i: int| 0 <= i < b.len() && b[i] == x;
            lemma_permutation_covers(a, n, x as int);
        }
    }
    lemma_strict_unique(a, b, lt);
}

/// Things that a strict order tells apart can be arranged in it.
pub proof fn arrangement_exists(n: nat, lt: spec_fn(int, int) -> bool) -> (r: Seq<usize>)
    requires
        n <= usize::MAX,
        orders(lt, n as int),
        forall|a: int, b: int| 0 <= a < n && 0 <= b < n && a != b ==> #[trigger] lt(a, b) || lt(b, a),
    ensures
        is_permutation(r, n),
        strictly(r, lt),
    decreases n,
{
    if n == 0 {
        Seq::empty()
    } else {
        let m = (n - 1) as nat;
        let s = arrangement_exists(m, lt);
        let p = lemma_cut(s, m, lt, m as int);
        let r = s.insert(p, m as usize);
        assert forall|i: int, j: int| 0 <= i < j < r.len() implies #[trigger] lt(
            r[i] as int,
            r[j] as int,
        ) by {
            let i0 = if i < p { i } else { i - 1 };
            let j0 = if j < p { j } else { j - 1 };
            if i == p {
                assert(!lt(s[j0] as int, m as int));
                assert(s[j0] < m);
            } else if j == p {
                assert(lt(s[i0] as int, m as int));
            } else {
                assert(lt(s[i0] as int, s[j0] as int));
            }
        }
        assert forall|i: int, j: int| 0 <= i < r.len() && 0 <= j < r.len() && i != j implies r[i]
            != r[j] by {
            let i0 = if i < p { i } else { i - 1 };
            let j0 = if j < p { j } else { j - 1 };
            if i == p {
                assert(s[j0] < m);
            } else if j == p {
                assert(s[i0] < m);
            } else {
                assert(s[i0] != s[j0]);
            }
        }
        assert forall|i: int| 0 <= i < r.len() implies #[trigger] r[i] < n by {
            let i0 = if i < p { i } else { i - 1 };
            if i != p {
                assert(s[i0] < m);
            }
        }
        r
    }
}

/// Where what comes before `x` in an arrangement ends.
proof fn lemma_cut(s: Seq<usize>, n: nat, lt: spec_fn(int, int) -> bool, x: int) -> (p: int)
    requires
        forall|i: int| 0 <= i < s.len() ==> #[trigger] s[i] < n,
        strictly(s, lt),
        n == x,
        orders(lt, x + 1),
    ensures
        0 <= p <= s.len(),
        forall|i: int| 0 <= i < p ==> lt(#[trigger] s[i] as int, x),
        forall|i: int| p <= i < s.len() ==> !lt(#[trigger] s[i] as int, x),
    decreases s.len(),
{
    if s.len() == 0 {
        0
    } else {
        let front = s.drop_last();
        assert forall|i: int, j: int| 0 <= i < j < front.len() implies #[trigger] lt(
            front[i] as int,
            front[j] as int,
        ) by {
            assert(lt(s[i] as int, s[j] as int));
        }
        let p = lemma_cut(front, n, lt, x);
        let last = s[s.len() - 1];
        if lt(last as int, x) {
            assert forall|i: int| 0 <= i < s.len() implies lt(#[trigger] s[i] as int, x) by {
                if i < s.len() - 1 {
                    assert(lt(s[i] as int, last as int));
                    if !lt(s[i] as int, x) {
                        assert(!lt(x, last as int));
                        assert(!lt(s[i] as int, last as int));
                    }
                }
            }
            s.len() as int
        } else {
            assert forall|i: int| p <= i < s.len() implies !lt(#[trigger] s[i] as int, x) by {
                if i < s.len() - 1 {
                    assert(front[i] == s[i]);
                }
            }
            assert forall|i: int| 0 <= i < p implies lt(#[trigger] s[i] as int, x) by {
                assert(front[i] == s[i]);
            }
            p
        }
    }
}

} // verus!
