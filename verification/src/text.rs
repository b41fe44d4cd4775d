//! Text helpers: building, comparing and scanning strings.

use vstd::prelude::*;

verus! {

/// Strict lexicographic order of two texts by code point, which is also the
/// order of their UTF-8 bytes.
pub open spec fn text_lt(a: Seq<char>, b: Seq<char>) -> bool
    decreases a.len(),
{
    if b.len() == 0 {
        false
    } else if a.len() == 0 {
        true
    } else if a[0] != b[0] {
        (a[0] as int) < (b[0] as int)
    } else {
        text_lt(a.drop_first(), b.drop_first())
    }
}

/// The order is irreflexive.
pub proof fn text_lt_irreflexive(a: Seq<char>)
    ensures
        !text_lt(a, a),
    decreases a.len(),
{
    if a.len() > 0 {
        text_lt_irreflexive(a.drop_first());
    }
}

/// The order is transitive.
pub proof fn text_lt_transitive(a: Seq<char>, b: Seq<char>, c: Seq<char>)
    requires
        text_lt(a, b),
        text_lt(b, c),
    ensures
        text_lt(a, c),
    decreases a.len(),
{
    if a.len() > 0 && a[0] == b[0] && b[0] == c[0] {
        text_lt_transitive(a.drop_first(), b.drop_first(), c.drop_first());
    }
}

/// Any two different texts are ordered one way or the other.
pub proof fn text_lt_total(a: Seq<char>, b: Seq<char>)
    ensures
        text_lt(a, b) || text_lt(b, a) || a == b,
    decreases a.len(),
{
    if a.len() > 0 && b.len() > 0 && a[0] == b[0] {
        text_lt_total(a.drop_first(), b.drop_first());
        if a.drop_first() == b.drop_first() {
            assert(a =~= seq![a[0]] + a.drop_first());
            assert(b =~= seq![b[0]] + b.drop_first());
        }
    } else if a.len() == 0 && b.len() == 0 {
        assert(a =~= b);
    }
}

/// The order is asymmetric.
pub proof fn text_lt_asymmetric(a: Seq<char>, b: Seq<char>)
    requires
        text_lt(a, b),
    ensures
        !text_lt(b, a),
{
    if text_lt(b, a) {
        text_lt_transitive(a, b, a);
        text_lt_irreflexive(a);
    }
}

/// How two texts compare.
#[derive(Clone, Copy, Debug, PartialEq, Eq, Structural)]
pub enum Order {
    Less,
    Equal,
    Greater,
}

impl Order {
    /// The same comparison seen from the other side.
    pub open spec fn flip(self) -> Order {
        match self {
            Order::Less => Order::Greater,
            Order::Equal => Order::Equal,
            Order::Greater => Order::Less,
        }
    }

    /// This comparison, or `next` when this one finds no difference.
    pub open spec fn or(self, next: Order) -> Order {
        if self == Order::Equal {
            next
        } else {
            self
        }
    }
}

/// The comparison of two texts under [`text_lt`].
pub open spec fn text_order(a: Seq<char>, b: Seq<char>) -> Order {
    if text_lt(a, b) {
        Order::Less
    } else if a == b {
        Order::Equal
    } else {
        Order::Greater
    }
}

/// Compares two texts by code point.
pub fn compare_text(a: &str, b: &str) -> (r: Order)
    ensures
        r == text_order(a@, b@),
{
    let mut ca = a.chars();
    let mut cb = b.chars();
    let ghost mut ra = a@;
    let ghost mut rb = b@;
    loop
        invariant
            vstd::std_specs::iter::IteratorSpec::remaining(&ca) == ra,
            vstd::std_specs::iter::IteratorSpec::remaining(&cb) == rb,
            text_order(ra, rb) == text_order(a@, b@),
        decreases ra.len(),
    {
        let x = ca.next();
        let y = cb.next();
        match (x, y) {
            (None, None) => {
                assert(ra =~= rb);
                proof { text_lt_irreflexive(ra); }
                return Order::Equal;
            },
            (None, Some(_)) => { return Order::Less; },
            (Some(_), None) => { return Order::Greater; },
            (Some(p), Some(q)) => {
                if p < q {
                    return Order::Less;
                }
                if q < p {
                    return Order::Greater;
                }
                proof {
                    let na = ra.drop_first();
                    let nb = rb.drop_first();
                    if na == nb {
                        assert(ra =~= seq![ra[0]] + na);
                        assert(rb =~= seq![rb[0]] + nb);
                    }
                    ra = na;
                    rb = nb;
                }
            },
        }
    }
}

/// Whether two texts are the same.
pub fn same_text(a: &str, b: &str) -> (r: bool)
    ensures
        r == (a@ == b@),
{
    match compare_text(a, b) {
        Order::Equal => true,
        _ => {
            proof {
                text_lt_irreflexive(a@);
            }
            false
        },
    }
}

/// Whether `a` comes strictly before `b`.
pub fn text_before(a: &str, b: &str) -> (r: bool)
    ensures
        r == text_lt(a@, b@),
{
    match compare_text(a, b) {
        Order::Less => true,
        _ => {
            proof {
                text_lt_irreflexive(a@);
            }
            false
        },
    }
}

/// `std::string::String::push`: appends one character.
pub assume_specification[ std::string::String::push ](s: &mut std::string::String, c: char)
    ensures
        final(s)@ == old(s)@.push(c),
;

/// Whether there is no text.
pub fn is_blank(s: &str) -> (r: bool)
    ensures
        r == (s@.len() == 0),
{
    proof {
        reveal_strlit("");
        if s@.len() == 0 {
            assert(s@ =~= ""@);
        }
    }
    same_text(s, "")
}

/// The characters of a text, one after the other.
pub fn chars_of(s: &str) -> (r: Vec<char>)
    ensures
        r@ == s@,
{
    let mut out: Vec<char> = Vec::new();
    for c in it: s.chars()
        invariant
            it.seq() == s@,
            out@ == s@.take(it.index() as int),
    {
        assert(s@.take(it.index() as int + 1) =~= s@.take(it.index() as int).push(c));
        out.push(c);
    }
    assert(s@.take(s@.len() as int) =~= s@);
    out
}

/// The text made of `v[from..to]`.
pub fn text_of(v: &Vec<char>, from: usize, to: usize) -> (r: String)
    requires
        from <= to <= v.len(),
    ensures
        r@ == v@.subrange(from as int, to as int),
{
    let mut out = String::new();
    let mut i: usize = from;
    assert(v@.subrange(from as int, from as int) =~= Seq::<char>::empty());
    while i < to
        invariant
            from <= i <= to <= v.len(),
            out@ == v@.subrange(from as int, i as int),
        decreases to - i,
    {
        assert(v@.subrange(from as int, i as int + 1) =~= v@.subrange(from as int, i as int).push(
            v@[i as int],
        ));
        out.push(v[i]);
        i += 1;
    }
    out
}

/// `a` followed by `b`.
pub fn cat2(a: &str, b: &str) -> (r: String)
    ensures
        r@ == a@ + b@,
{
    let mut out = String::from_str(a);
    out.append(b);
    out
}

/// `a`, `b` and `c` in one text.
pub fn cat3(a: &str, b: &str, c: &str) -> (r: String)
    ensures
        r@ == a@ + b@ + c@,
{
    let mut out = String::from_str(a);
    out.append(b);
    out.append(c);
    out
}

/// Five texts in one.
pub fn cat5(a: &str, b: &str, c: &str, d: &str, e: &str) -> (r: String)
    ensures
        r@ == a@ + b@ + c@ + d@ + e@,
{
    let mut out = cat3(a, b, c);
    out.append(d);
    out.append(e);
    out
}

/// Six texts in one.
pub fn cat6(a: &str, b: &str, c: &str, d: &str, e: &str, f: &str) -> (r: String)
    ensures
        r@ == a@ + b@ + c@ + d@ + e@ + f@,
{
    let mut out = cat5(a, b, c, d, e);
    out.append(f);
    out
}

/// Seven texts in one.
pub fn cat7(a: &str, b: &str, c: &str, d: &str, e: &str, f: &str, g: &str) -> (r: String)
    ensures
        r@ == a@ + b@ + c@ + d@ + e@ + f@ + g@,
{
    let mut out = cat5(a, b, c, d, e);
    out.append(f);
    out.append(g);
    out
}

/// The texts of `parts` with `sep` between neighbours.
pub open spec fn joined(parts: Seq<Seq<char>>, sep: Seq<char>) -> Seq<char>
    decreases parts.len(),
{
    if parts.len() == 0 {
        Seq::empty()
    } else if parts.len() == 1 {
        parts[0]
    } else {
        joined(parts.drop_last(), sep) + sep + parts.last()
    }
}

/// Joins `parts` with `sep` between neighbours.
pub fn join(parts: &Vec<String>, sep: &str) -> (r: String)
    ensures
        r@ == joined(parts.deep_view(), sep@),
{
    let mut out = String::new();
    let mut i: usize = 0;
    let ghost all = parts.deep_view();
    assert(all.take(0) =~= Seq::empty());
    while i < parts.len()
        invariant
            i <= parts.len(),
            all == parts.deep_view(),
            out@ == joined(all.take(i as int), sep@),
        decreases parts.len() - i,
    {
        let ghost next = all.take(i as int + 1);
        assert(next.drop_last() =~= all.take(i as int));
        assert(next.last() == parts[i as int]@);
        if i > 0 {
            out.append(sep);
            out.append(parts[i].as_str());
        } else {
            out = parts[i].clone();
        }
        i += 1;
    }
    assert(all.take(parts.len() as int) =~= all);
    out
}

/// The decimal digit for `d`.
pub open spec fn digit(d: nat) -> char {
    (48 + d) as char
}

/// `n` in decimal, without leading zeros.
pub open spec fn decimal(n: nat) -> Seq<char>
    decreases n,
{
    if n < 10 {
        seq![digit(n)]
    } else {
        decimal(n / 10).push(digit(n % 10))
    }
}

/// Writes `n` in decimal.
pub fn decimal_text(n: u64) -> (r: String)
    ensures
        r@ == decimal(n as nat),
    decreases n,
{
    let mut out = if n < 10 {
        String::new()
    } else {
        decimal_text(n / 10)
    };
    let d: u8 = 48 + (n % 10) as u8;
    out.push(d as char);
    out
}

/// A list of one text if `c` holds, and of none if not.
pub open spec fn listed(c: bool, m: Seq<char>) -> Seq<Seq<char>> {
    if c {
        seq![m]
    } else {
        Seq::empty()
    }
}

/// A list of one text if `c` holds, and of none if not.
pub fn list_if(c: bool, m: String) -> (r: Vec<String>)
    ensures
        r.deep_view() == listed(c, m@),
{
    let mut out: Vec<String> = Vec::new();
    let ghost text = m@;
    if c {
        out.push(m);
    }
    assert(out.deep_view() =~= listed(c, text));
    out
}

/// Puts `more` after what `out` holds.
pub fn extend(out: &mut Vec<String>, more: Vec<String>)
    ensures
        final(out).deep_view() == old(out).deep_view() + more.deep_view(),
{
    let ghost had = out.deep_view();
    let ghost all = more.deep_view();
    let mut rest = more;
    out.append(&mut rest);
    assert(out.deep_view() =~= had + all);
}

/// `n` blanks.
pub open spec fn blanks(n: nat) -> Seq<char> {
    Seq::new(n, |i: int| ' ')
}

/// A text with spaces after it, up to `width` characters.
pub open spec fn padded(s: Seq<char>, width: nat) -> Seq<char> {
    if s.len() < width {
        s + blanks((width - s.len()) as nat)
    } else {
        s
    }
}

/// A text with spaces before it, up to `width` characters.
pub open spec fn padded_left(s: Seq<char>, width: nat) -> Seq<char> {
    if s.len() < width {
        blanks((width - s.len()) as nat) + s
    } else {
        s
    }
}

/// `n` spaces.
pub fn spaces(n: usize) -> (r: String)
    ensures
        r@ == blanks(n as nat),
{
    let mut out = String::new();
    let mut i: usize = 0;
    assert(out@ =~= blanks(0));
    while i < n
        invariant
            i <= n,
            out@ == blanks(i as nat),
        decreases n - i,
    {
        out.push(' ');
        assert(out@ =~= blanks(i as nat + 1));
        i += 1;
    }
    out
}

/// Puts spaces after a text, up to `width` characters.
pub fn pad(s: &str, width: usize) -> (r: String)
    ensures
        r@ == padded(s@, width as nat),
{
    let n: usize = s.unicode_len();
    if n < width {
        cat2(s, spaces(width - n).as_str())
    } else {
        String::from_str(s)
    }
}

/// Puts spaces before a text, up to `width` characters.
pub fn pad_left(s: &str, width: usize) -> (r: String)
    ensures
        r@ == padded_left(s@, width as nat),
{
    let n: usize = s.unicode_len();
    if n < width {
        cat2(spaces(width - n).as_str(), s)
    } else {
        String::from_str(s)
    }
}

/// The place of the first `c`, or the length of the text.
pub open spec fn first_place(s: Seq<char>, c: char) -> nat
    decreases s.len(),
{
    if s.len() == 0 || s[0] == c {
        0
    } else {
        1 + first_place(s.drop_first(), c)
    }
}

/// The text before and after the first `c`, where there is one.
pub open spec fn halves(s: Seq<char>, c: char) -> Option<(Seq<char>, Seq<char>)> {
    let at = first_place(s, c) as int;
    if at < s.len() {
        Some((s.take(at), s.skip(at + 1)))
    } else {
        None
    }
}

/// The place of the first `c` in `v` at or after `from`, or the length.
pub fn find_char(v: &Vec<char>, from: usize, c: char) -> (r: usize)
    requires
        from <= v.len(),
    ensures
        r == from + first_place(v@.skip(from as int), c),
        from <= r <= v.len(),
        r < v.len() ==> v@[r as int] == c,
        forall|j: int| from <= j < r ==> v@[j] != c,
{
    let mut i: usize = from;
    while i < v.len() && v[i] != c
        invariant
            from <= i <= v.len(),
            i + first_place(v@.skip(i as int), c) == from + first_place(v@.skip(from as int), c),
            forall|j: int| from <= j < i ==> v@[j] != c,
        decreases v.len() - i,
    {
        assert(v@.skip(i as int).drop_first() =~= v@.skip(i as int + 1));
        i += 1;
    }
    i
}

/// Splits a text at its first `c`.
pub fn split_once(s: &str, c: char) -> (r: Option<(String, String)>)
    ensures
        r.deep_view() == halves(s@, c),
{
    let v = chars_of(s);
    let at = find_char(&v, 0, c);
    assert(v@.skip(0) =~= v@);
    if at < v.len() {
        let left = text_of(&v, 0, at);
        let right = text_of(&v, at + 1, v.len());
        assert(left@ =~= s@.take(at as int));
        assert(right@ =~= s@.skip(at as int + 1));
        Some((left, right))
    } else {
        None
    }
}

/// Whether a character is white space, by Unicode's White_Space property.
pub open spec fn space(c: char) -> bool {
    let n = c as u32;
    (9 <= n <= 13) || n == 0x20 || n == 0x85 || n == 0xa0 || n == 0x1680 || (0x2000 <= n <= 0x200a)
        || n == 0x2028 || n == 0x2029 || n == 0x202f || n == 0x205f || n == 0x3000
}

/// Whether a character is white space.
pub fn is_space(c: char) -> (r: bool)
    ensures
        r == space(c),
{
    let n: u32 = c as u32;
    (9 <= n && n <= 13) || n == 0x20 || n == 0x85 || n == 0xa0 || n == 0x1680 || (0x2000 <= n && n
        <= 0x200a) || n == 0x2028 || n == 0x2029 || n == 0x202f || n == 0x205f || n == 0x3000
}

/// The text without white space at its start.
pub open spec fn trimmed_start(s: Seq<char>) -> Seq<char>
    decreases s.len(),
{
    if s.len() > 0 && space(s[0]) {
        trimmed_start(s.drop_first())
    } else {
        s
    }
}

/// The text without white space at its end.
pub open spec fn trimmed_end(s: Seq<char>) -> Seq<char>
    decreases s.len(),
{
    if s.len() > 0 && space(s.last()) {
        trimmed_end(s.drop_last())
    } else {
        s
    }
}

/// The text without white space at its ends.
pub open spec fn trimmed(s: Seq<char>) -> Seq<char> {
    trimmed_end(trimmed_start(s))
}

/// Takes the white space off the end of a text.
pub fn trim_end(s: &str) -> (r: String)
    ensures
        r@ == trimmed_end(s@),
{
    let v = chars_of(s);
    let mut n: usize = v.len();
    assert(v@.take(n as int) =~= v@);
    while n > 0 && is_space(v[n - 1])
        invariant
            n <= v.len(),
            trimmed_end(v@.take(n as int)) == trimmed_end(v@),
        decreases n,
    {
        assert(v@.take(n as int).drop_last() =~= v@.take(n - 1));
        n -= 1;
    }
    let r = text_of(&v, 0, n);
    assert(r@ =~= v@.take(n as int));
    r
}

/// Takes the white space off both ends of a text.
pub fn trim(s: &str) -> (r: String)
    ensures
        r@ == trimmed(s@),
{
    let v = chars_of(s);
    let mut i: usize = 0;
    assert(v@.skip(0) =~= v@);
    while i < v.len() && is_space(v[i])
        invariant
            i <= v.len(),
            trimmed_start(v@.skip(i as int)) == trimmed_start(v@),
        decreases v.len() - i,
    {
        assert(v@.skip(i as int).drop_first() =~= v@.skip(i as int + 1));
        i += 1;
    }
    let rest = text_of(&v, i, v.len());
    assert(rest@ =~= v@.skip(i as int));
    trim_end(rest.as_str())
}

/// Whether a character is a decimal digit.
pub open spec fn is_digit_char(c: char) -> bool {
    '0' <= c <= '9'
}

/// The number that decimal digits write.
pub open spec fn digits_value(s: Seq<char>) -> nat
    decreases s.len(),
{
    if s.len() == 0 {
        0
    } else {
        digits_value(s.drop_last()) * 10 + (s.last() as u32 - '0' as u32) as nat
    }
}

proof fn lemma_digits_grow(s: Seq<char>, n: int)
    requires
        0 <= n <= s.len(),
    ensures
        digits_value(s.take(n)) <= digits_value(s),
    decreases s.len() - n,
{
    if n < s.len() {
        let longer = s.take(n + 1);
        assert(longer.drop_last() =~= s.take(n));
        lemma_digits_grow(s, n + 1);
    } else {
        assert(s.take(n) =~= s);
    }
}

/// Reads the decimal digits between two places, where they fit.
pub fn parse_digits(v: &Vec<char>, from: usize, to: usize) -> (r: Option<u64>)
    requires
        from <= to <= v.len(),
        forall|i: int| from <= i < to ==> is_digit_char(#[trigger] v@[i]),
    ensures
        match r {
            Some(n) => n == digits_value(v@.subrange(from as int, to as int)),
            None => digits_value(v@.subrange(from as int, to as int)) > u64::MAX,
        },
{
    let ghost all = v@.subrange(from as int, to as int);
    let mut n: u64 = 0;
    let mut i: usize = from;
    assert(all.take(0) =~= Seq::<char>::empty());
    while i < to
        invariant
            from <= i <= to <= v.len(),
            all == v@.subrange(from as int, to as int),
            forall|i: int| from <= i < to ==> is_digit_char(#[trigger] v@[i]),
            n == digits_value(all.take(i - from)),
        decreases to - i,
    {
        let c = v[i];
        let d: u64 = (c as u32 - '0' as u32) as u64;
        let ghost longer = all.take(i - from + 1);
        proof {
            assert(longer.drop_last() =~= all.take(i - from));
            assert(longer.last() == c);
            lemma_digits_grow(all, i - from + 1);
        }
        if n > (u64::MAX - d) / 10 {
            return None;
        }
        n = n * 10 + d;
        i += 1;
    }
    assert(all.take(all.len() as int) =~= all);
    Some(n)
}

/// The parts of `s` between the places of `c`.
pub open spec fn split_at(s: Seq<char>, c: char) -> Seq<Seq<char>>
    decreases s.len(),
{
    let at = first_place(s, c) as int;
    if 0 <= at < s.len() {
        seq![s.take(at)] + split_at(s.skip(at + 1), c)
    } else {
        seq![s]
    }
}

/// Splits `s` at every `c`.
pub fn split(s: &str, c: char) -> (r: Vec<String>)
    ensures
        r.deep_view() == split_at(s@, c),
        r.len() > 0,
{
    let v = chars_of(s);
    let mut out: Vec<String> = Vec::new();
    let mut from: usize = 0;
    let mut at = find_char(&v, 0, c);
    assert(v@.skip(0) =~= v@);
    assert(out.deep_view() + split_at(v@.skip(0), c) =~= split_at(v@, c));
    while at < v.len()
        invariant
            from <= at <= v.len(),
            at == from + first_place(v@.skip(from as int), c),
            out.deep_view() + split_at(v@.skip(from as int), c) == split_at(v@, c),
        decreases v.len() - from,
    {
        let ghost had = out.deep_view();
        let ghost rest = v@.skip(from as int);
        let piece = text_of(&v, from, at);
        out.push(piece);
        proof {
            assert(piece@ =~= rest.take(at - from));
            assert(out.deep_view() =~= had.push(piece@));
            assert(rest.skip(at - from + 1) =~= v@.skip(at as int + 1));
            assert(had + (seq![rest.take(at - from)] + split_at(v@.skip(at as int + 1), c))
                =~= out.deep_view() + split_at(v@.skip(at as int + 1), c));
        }
        from = at + 1;
        at = find_char(&v, from, c);
    }
    let ghost had = out.deep_view();
    let piece = text_of(&v, from, v.len());
    assert(piece@ =~= v@.skip(from as int));
    out.push(piece);
    assert(out.deep_view() =~= had + seq![piece@]);
    out
}

/// Where `p` first occurs in `s`.
pub open spec fn found(s: Seq<char>, p: Seq<char>) -> Option<int>
    decreases s.len(),
{
    if s.len() < p.len() {
        None
    } else if s.take(p.len() as int) == p {
        Some(0)
    } else if s.len() == 0 {
        None
    } else {
        match found(s.drop_first(), p) {
            Some(n) => Some(n + 1),
            None => None,
        }
    }
}

fn stands_at(v: &Vec<char>, at: usize, p: &Vec<char>) -> (r: bool)
    requires
        at + p.len() <= v.len(),
    ensures
        r == (v@.subrange(at as int, at + p.len()) == p@),
{
    let mut i: usize = 0;
    while i < p.len()
        invariant
            i <= p.len(),
            at + p.len() <= v.len(),
            forall|k: int| 0 <= k < i ==> v@[at + k] == p@[k],
        decreases p.len() - i,
    {
        if v[at + i] != p[i] {
            assert(v@.subrange(at as int, at + p.len())[i as int] != p@[i as int]);
            return false;
        }
        i += 1;
    }
    assert(v@.subrange(at as int, at + p.len()) =~= p@);
    true
}

/// Where `p` first occurs in `v` from place `from` on.
pub fn find(v: &Vec<char>, from: usize, p: &str) -> (r: Option<usize>)
    requires
        from <= v.len(),
    ensures
        match r {
            Some(at) => found(v@.skip(from as int), p@) == Some(at - from) && from <= at && at
                + p@.len() <= v.len(),
            None => found(v@.skip(from as int), p@) is None,
        },
{
    let pat = chars_of(p);
    let ghost whole = v@.skip(from as int);
    let mut i: usize = from;
    while i <= v.len() && v.len() - i >= pat.len()
        invariant
            from <= i <= v.len(),
            pat@ == p@,
            whole == v@.skip(from as int),
            found(whole, p@) == (match found(v@.skip(i as int), p@) {
                Some(n) => Some(n + (i - from)),
                None => None,
            }),
        decreases v.len() - i,
    {
        let ghost rest = v@.skip(i as int);
        assert(rest.take(p@.len() as int) =~= v@.subrange(i as int, i + p@.len()));
        if stands_at(v, i, &pat) {
            return Some(i);
        }
        if i == v.len() {
            return None;
        }
        assert(rest.drop_first() =~= v@.skip(i as int + 1));
        i += 1;
    }
    None
}

/// Whether `p` stands in `s` at place `n`.
pub open spec fn occurs(s: Seq<char>, p: Seq<char>, n: int) -> bool {
    0 <= n && n + p.len() <= s.len() && s.subrange(n, n + p.len()) == p
}

/// [`found`] gives the first place of a text.
pub proof fn found_is_first(s: Seq<char>, p: Seq<char>)
    ensures
        match found(s, p) {
            Some(n) => occurs(s, p, n) && forall|m: int| 0 <= m < n ==> !#[trigger] occurs(s, p, m),
            None => forall|m: int| !#[trigger] occurs(s, p, m),
        },
    decreases s.len(),
{
    if s.len() >= p.len() {
        assert(s.take(p.len() as int) =~= s.subrange(0, p.len() as int));
        if s.take(p.len() as int) != p && s.len() > 0 {
            let rest = s.drop_first();
            found_is_first(rest, p);
            assert forall|m: int| m > 0 implies #[trigger] occurs(s, p, m) == occurs(rest, p, m - 1) by {
                if m + p.len() <= s.len() {
                    assert(s.subrange(m, m + p.len()) =~= rest.subrange(m - 1, m - 1 + p.len()));
                }
            }
            if let Some(n) = found(rest, p) {
                assert(occurs(s, p, n + 1));
                assert forall|m: int| 0 <= m < n + 1 implies !#[trigger] occurs(s, p, m) by {
                    if m > 0 {
                        assert(!occurs(rest, p, m - 1));
                    }
                }
            } else {
                assert forall|m: int| !#[trigger] occurs(s, p, m) by {
                    if m > 0 {
                        assert(!occurs(rest, p, m - 1));
                    }
                }
            }
        }
    }
}

/// A place before which a text does not stand, and where it does, is where it is
/// found.
pub proof fn first_is_found(s: Seq<char>, p: Seq<char>, n: int)
    requires
        occurs(s, p, n),
        forall|m: int| 0 <= m < n ==> !#[trigger] occurs(s, p, m),
    ensures
        found(s, p) == Some(n),
{
    found_is_first(s, p);
}

/// Trimming keeps the front of a text.
pub proof fn trimmed_end_is_front(s: Seq<char>)
    ensures
        trimmed_end(s).len() <= s.len(),
        trimmed_end(s) == s.take(trimmed_end(s).len() as int),
    decreases s.len(),
{
    if s.len() > 0 && space(s.last()) {
        trimmed_end_is_front(s.drop_last());
        assert(s.take(trimmed_end(s).len() as int) =~= s.drop_last().take(
            trimmed_end(s).len() as int,
        ));
    } else {
        assert(s.take(s.len() as int) =~= s);
    }
}

/// Whether `s` begins with `p`.
pub open spec fn begins(s: Seq<char>, p: Seq<char>) -> bool {
    s.len() >= p.len() && s.take(p.len() as int) == p
}

/// Whether `v` begins with `p`.
pub fn starts_with(v: &Vec<char>, p: &str) -> (r: bool)
    ensures
        r == begins(v@, p@),
{
    let pat = chars_of(p);
    if v.len() < pat.len() {
        return false;
    }
    assert(v@.subrange(0, p@.len() as int) =~= v@.take(p@.len() as int));
    stands_at(v, 0, &pat)
}

/// `s` without a carriage return at its end.
pub open spec fn uncarried(s: Seq<char>) -> Seq<char> {
    if s.len() > 0 && s.last() == '\r' {
        s.drop_last()
    } else {
        s
    }
}

/// The lines of `s`: what stands before each line break, and what is left after
/// the last one, if anything is.
pub open spec fn lines_of(s: Seq<char>) -> Seq<Seq<char>> {
    let parts = split_at(s, '\n');
    let whole = Seq::new((parts.len() - 1) as nat, |i: int| uncarried(parts[i]));
    if parts.last().len() > 0 {
        whole.push(parts.last())
    } else {
        whole
    }
}

/// The lines of `s`.
pub fn lines(s: &str) -> (r: Vec<String>)
    ensures
        r.deep_view() == lines_of(s@),
{
    let parts = split(s, '\n');
    let ghost all = parts.deep_view();
    let n: usize = parts.len() - 1;
    let mut out: Vec<String> = Vec::new();
    let mut i: usize = 0;
    while i < n
        invariant
            i <= n,
            n == parts.len() - 1,
            all == parts.deep_view(),
            out@.len() == i,
            forall|k: int| 0 <= k < i ==> (#[trigger] out@[k])@ == uncarried(all[k]),
        decreases n - i,
    {
        let v = chars_of(parts[i].as_str());
        assert(all[i as int] == v@);
        if v.len() > 0 && v[v.len() - 1] == '\r' {
            let line = text_of(&v, 0, v.len() - 1);
            assert(line@ =~= v@.drop_last());
            out.push(line);
        } else {
            out.push(parts[i].clone());
        }
        i += 1;
    }
    let last = &parts[n];
    assert(all.last() == last@);
    let ghost whole = Seq::new((all.len() - 1) as nat, |i: int| uncarried(all[i]));
    assert(out.deep_view() =~= whole);
    if !is_blank(last.as_str()) {
        out.push(last.clone());
        assert(out.deep_view() =~= whole.push(last@));
    }
    out
}

proof fn lemma_first_place(s: Seq<char>, c: char)
    ensures
        first_place(s, c) <= s.len(),
        first_place(s, c) < s.len() ==> s[first_place(s, c) as int] == c,
        forall|i: int| 0 <= i < first_place(s, c) ==> #[trigger] s[i] != c,
    decreases s.len(),
{
    if s.len() > 0 && s[0] != c {
        lemma_first_place(s.drop_first(), c);
        assert forall|i: int| 0 <= i < first_place(s, c) implies #[trigger] s[i] != c by {
            if i > 0 {
                assert(s.drop_first()[i - 1] == s[i]);
            }
        }
    }
}

proof fn lemma_first_place_is(s: Seq<char>, c: char, n: int)
    requires
        0 <= n < s.len(),
        s[n] == c,
        forall|i: int| 0 <= i < n ==> #[trigger] s[i] != c,
    ensures
        first_place(s, c) == n,
{
    lemma_first_place(s, c);
    let m = first_place(s, c) as int;
    if m < n {
        assert(s[m] != c);
    }
    if n < m {
        assert(s[n] != c);
    }
}

/// A text put together with `c` between two parts splits into what the parts
/// split into.
pub proof fn split_parts(a: Seq<char>, b: Seq<char>, c: char)
    ensures
        split_at(a + seq![c] + b, c) == split_at(a, c) + split_at(b, c),
    decreases a.len(),
{
    let s = a + seq![c] + b;
    lemma_first_place(a, c);
    let n = first_place(a, c) as int;
    if n < a.len() {
        assert(s[n] == a[n]);
        assert forall|i: int| 0 <= i < n implies #[trigger] s[i] != c by {
            assert(a[i] == s[i]);
        }
        lemma_first_place_is(s, c, n);
        let rest = a.skip(n + 1);
        assert(s.take(n) =~= a.take(n));
        assert(s.skip(n + 1) =~= rest + seq![c] + b);
        split_parts(rest, b, c);
        assert(split_at(s, c) =~= split_at(a, c) + split_at(b, c));
    } else {
        assert(s[a.len() as int] == c);
        assert forall|i: int| 0 <= i < a.len() implies #[trigger] s[i] != c by {
            assert(a[i] == s[i]);
        }
        lemma_first_place_is(s, c, a.len() as int);
        assert(s.take(a.len() as int) =~= a);
        assert(s.skip(a.len() as int + 1) =~= b);
        assert(split_at(s, c) =~= split_at(a, c) + split_at(b, c));
    }
}

/// A text without `c` is one part.
pub proof fn split_whole(s: Seq<char>, c: char)
    requires
        !s.contains(c),
    ensures
        split_at(s, c) == seq![s],
{
    lemma_first_place(s, c);
    let n = first_place(s, c) as int;
    if n < s.len() {
        assert(s.contains(s[n]));
    }
}

/// A trimmed text does not end in a blank.
pub proof fn trimmed_end_is_bare(s: Seq<char>)
    ensures
        trimmed_end(s).len() > 0 ==> !space(trimmed_end(s).last()),
    decreases s.len(),
{
    if s.len() > 0 && space(s.last()) {
        trimmed_end_is_bare(s.drop_last());
    }
}

/// `c` in lower case, if it is an ASCII letter.
pub open spec fn lower_ascii(c: char) -> char {
    if 'A' <= c <= 'Z' {
        ((c as u8) + 32) as char
    } else {
        c
    }
}

/// `s` with its ASCII letters in lower case.
pub fn to_lower_ascii(s: &str) -> (r: String)
    ensures
        r@ == s@.map_values(|c: char| lower_ascii(c)),
{
    let v = chars_of(s);
    let mut out = String::new();
    let mut i: usize = 0;
    while i < v.len()
        invariant
            i <= v.len(),
            v@ == s@,
            out@.len() == i,
            forall|k: int| 0 <= k < i ==> #[trigger] out@[k] == lower_ascii(v@[k]),
        decreases v.len() - i,
    {
        let c = v[i];
        if 'A' <= c && c <= 'Z' {
            out.push(((c as u8) + 32) as char);
        } else {
            out.push(c);
        }
        i += 1;
    }
    assert(out@ =~= s@.map_values(|c: char| lower_ascii(c)));
    out
}

/// Texts are ordered where they first differ: by the code points there, and a
/// text comes before those that go on after it.
pub proof fn texts_differ_at_one_place(a: Seq<char>, b: Seq<char>, n: int)
    requires
        0 <= n <= a.len(),
        n <= b.len(),
        forall|i: int| 0 <= i < n ==> a[i] == b[i],
        n < a.len() && n < b.len() ==> a[n] != b[n],
    ensures
        n < a.len() && n < b.len() ==> (text_order(a, b) == Order::Less <==> (a[n] as int) < (
        b[n] as int)),
        n < a.len() && n < b.len() ==> (text_order(a, b) == Order::Greater <==> (a[n] as int) > (
        b[n] as int)),
        n == a.len() && n < b.len() ==> text_order(a, b) == Order::Less,
        n < a.len() && n == b.len() ==> text_order(a, b) == Order::Greater,
        n == a.len() && n == b.len() ==> text_order(a, b) == Order::Equal,
    decreases n,
{
    if n > 0 {
        let x = a.drop_first();
        let y = b.drop_first();
        assert forall|i: int| 0 <= i < n - 1 implies x[i] == y[i] by {
            assert(a[i + 1] == b[i + 1]);
        }
        texts_differ_at_one_place(x, y, n - 1);
        if a == b {
            text_lt_irreflexive(a);
        } else {
            assert(x =~= y ==> a =~= b);
        }
    } else if a.len() == 0 && b.len() == 0 {
        assert(a =~= b);
    }
}

/// A number in decimal reads back as itself, and has digits only.
pub proof fn numbers_read_back(n: nat)
    ensures
        digits_value(decimal(n)) == n,
        decimal(n).len() > 0,
        forall|i: int| 0 <= i < decimal(n).len() ==> is_digit_char(#[trigger] decimal(n)[i]),
        n > 0 ==> decimal(n)[0] != '0',
    decreases n,
{
    if n < 10 {
        let s = seq![digit(n)];
        assert(s.drop_last() =~= Seq::<char>::empty());
        assert(digits_value(s.drop_last()) == 0);
    } else {
        numbers_read_back(n / 10);
        let s = decimal(n);
        assert(s.drop_last() =~= decimal(n / 10));
        assert(s[0] == decimal(n / 10)[0]);
        assert forall|i: int| 0 <= i < s.len() implies is_digit_char(#[trigger] s[i]) by {
            if i < s.len() - 1 {
                assert(s[i] == decimal(n / 10)[i]);
            }
        }
    }
}

/// A text is cut in two at the first of a character: what stands before one, if
/// none stands there already, and all that follows. Without one it is not cut.
pub proof fn halves_meet_at_the_first(a: Seq<char>, b: Seq<char>, c: char)
    requires
        !a.contains(c),
    ensures
        halves(a + seq![c] + b, c) == Some((a, b)),
        halves(a, c) is None,
{
    let s = a + seq![c] + b;
    assert(s[a.len() as int] == c);
    assert forall|i: int| 0 <= i < a.len() implies #[trigger] s[i] != c by {
        assert(a[i] == s[i]);
        assert(a.contains(a[i]));
    }
    lemma_first_place_is(s, c, a.len() as int);
    assert(s.take(a.len() as int) =~= a);
    assert(s.skip(a.len() as int + 1) =~= b);
    lemma_first_place(a, c);
    if first_place(a, c) < a.len() {
        assert(a.contains(a[first_place(a, c) as int]));
    }
}

proof fn lemma_joined_front(first: Seq<char>, rest: Seq<Seq<char>>, sep: Seq<char>)
    requires
        rest.len() > 0,
    ensures
        joined(seq![first] + rest, sep) == first + sep + joined(rest, sep),
    decreases rest.len(),
{
    let all = seq![first] + rest;
    if rest.len() == 1 {
        assert(all.drop_last() =~= seq![first]);
        assert(joined(all.drop_last(), sep) == first);
        assert(all.last() == rest[0]);
    } else {
        let shorter = rest.drop_last();
        assert(all.drop_last() =~= seq![first] + shorter);
        assert(all.last() == rest.last());
        lemma_joined_front(first, shorter, sep);
        assert(first + sep + joined(shorter, sep) + sep + rest.last() =~= first + sep + (joined(
            shorter,
            sep,
        ) + sep + rest.last()));
    }
}

/// Joining undoes splitting, and no part of a split text holds the character
/// that it was split at.
pub proof fn joining_undoes_splitting(s: Seq<char>, c: char)
    ensures
        joined(split_at(s, c), seq![c]) == s,
        split_at(s, c).len() > 0,
        forall|i: int| 0 <= i < split_at(s, c).len() ==> !(#[trigger] split_at(s, c)[i]).contains(c),
    decreases s.len(),
{
    lemma_first_place(s, c);
    let at = first_place(s, c) as int;
    let parts = split_at(s, c);
    if at < s.len() {
        let rest = split_at(s.skip(at + 1), c);
        joining_undoes_splitting(s.skip(at + 1), c);
        lemma_joined_front(s.take(at), rest, seq![c]);
        assert(s.take(at) + seq![c] + s.skip(at + 1) =~= s);
        assert forall|i: int| 0 <= i < parts.len() implies !(#[trigger] parts[i]).contains(c) by {
            if i > 0 {
                assert(parts[i] == rest[i - 1]);
            }
        }
    } else {
        assert(parts =~= seq![s]);
    }
}

/// To trim a text takes white space off its ends and nothing else: what is left
/// stands in the text between two runs of white space, and neither starts nor
/// ends with any.
pub proof fn trimming_takes_white_space(s: Seq<char>)
    ensures
        ({
            let t = trimmed(s);
            exists|a: Seq<char>, b: Seq<char>| #[trigger]
                (a + t + b) == s && all_space(a) && all_space(b)
        }),
        trimmed(s).len() > 0 ==> !space(trimmed(s)[0]) && !space(trimmed(s).last()),
{
    let u = trimmed_start(s);
    let t = trimmed(s);
    let a = lemma_start_cut(s);
    let b = lemma_end_cut(u);
    assert(a + t + b =~= s);
    assert((a + t + b) == s && all_space(a) && all_space(b));
    if t.len() > 0 {
        assert(u[0] == t[0]);
    }
}

/// Whether a text is white space only.
pub open spec fn all_space(s: Seq<char>) -> bool {
    forall|i: int| 0 <= i < s.len() ==> space(#[trigger] s[i])
}

proof fn lemma_start_cut(s: Seq<char>) -> (a: Seq<char>)
    ensures
        a + trimmed_start(s) == s,
        all_space(a),
        trimmed_start(s).len() > 0 ==> !space(trimmed_start(s)[0]),
    decreases s.len(),
{
    if s.len() > 0 && space(s[0]) {
        let b = lemma_start_cut(s.drop_first());
        let a = seq![s[0]] + b;
        assert(a + trimmed_start(s) =~= seq![s[0]] + s.drop_first());
        assert(seq![s[0]] + s.drop_first() =~= s);
        assert forall|i: int| 0 <= i < a.len() implies space(#[trigger] a[i]) by {
            if i > 0 {
                assert(a[i] == b[i - 1]);
            }
        }
        a
    } else {
        assert(Seq::<char>::empty() + s =~= s);
        Seq::empty()
    }
}

proof fn lemma_end_cut(s: Seq<char>) -> (b: Seq<char>)
    ensures
        trimmed_end(s) + b == s,
        all_space(b),
        trimmed_end(s).len() > 0 ==> !space(trimmed_end(s).last()),
    decreases s.len(),
{
    if s.len() > 0 && space(s.last()) {
        let a = lemma_end_cut(s.drop_last());
        let b = a.push(s.last());
        assert(trimmed_end(s) + b =~= s.drop_last().push(s.last()));
        assert(s.drop_last().push(s.last()) =~= s);
        assert forall|i: int| 0 <= i < b.len() implies space(#[trigger] b[i]) by {
            if i < a.len() {
                assert(b[i] == a[i]);
            }
        }
        b
    } else {
        assert(s + Seq::<char>::empty() =~= s);
        Seq::empty()
    }
}

/// To pad a text makes it at least so wide and changes nothing of it: it stands
/// at the one end, and only spaces fill up to the width.
pub proof fn padding_fills_with_spaces(s: Seq<char>, width: nat)
    ensures
        padded(s, width).len() == if s.len() < width {
            width
        } else {
            s.len()
        },
        padded_left(s, width).len() == padded(s, width).len(),
        padded(s, width).take(s.len() as int) == s,
        padded_left(s, width).skip(padded_left(s, width).len() - s.len()) == s,
        forall|i: int|
            s.len() <= i < padded(s, width).len() ==> #[trigger] padded(s, width)[i] == ' ',
        forall|i: int|
            0 <= i < padded_left(s, width).len() - s.len() ==> #[trigger] padded_left(s, width)[i]
                == ' ',
{
    assert(padded(s, width).take(s.len() as int) =~= s);
    assert(padded_left(s, width).skip(padded_left(s, width).len() - s.len()) =~= s);
}

/// Splitting undoes joining, where no part holds the character between them.
pub proof fn splitting_undoes_joining(parts: Seq<Seq<char>>, c: char)
    requires
        parts.len() > 0,
        forall|i: int| 0 <= i < parts.len() ==> !(#[trigger] parts[i]).contains(c),
    ensures
        split_at(joined(parts, seq![c]), c) == parts,
    decreases parts.len(),
{
    assert(!parts[parts.len() - 1].contains(c));
    if parts.len() == 1 {
        split_whole(parts[0], c);
        assert(seq![parts[0]] =~= parts);
    } else {
        let front = parts.drop_last();
        assert forall|i: int| 0 <= i < front.len() implies !(#[trigger] front[i]).contains(c) by {
            assert(front[i] == parts[i]);
        }
        splitting_undoes_joining(front, c);
        split_parts(joined(front, seq![c]), parts.last(), c);
        split_whole(parts.last(), c);
        assert(front + seq![parts.last()] =~= parts);
    }
}

} // verus!
