use vstd::prelude::*;

verus! {

/// Strict lexicographic order on byte strings (the order of `[u8]` and `str`).
pub open spec fn lex_lt(a: Seq<u8>, b: Seq<u8>) -> bool
    decreases a.len(),
{
    if a.len() == 0 {
        b.len() > 0
    } else if b.len() == 0 {
        false
    } else if a[0] != b[0] {
        a[0] < b[0]
    } else {
        lex_lt(a.drop_first(), b.drop_first())
    }
}

pub proof fn lemma_lex_irreflexive(a: Seq<u8>)
    ensures
        !lex_lt(a, a),
    decreases a.len(),
{
    if a.len() > 0 {
        lemma_lex_irreflexive(a.drop_first());
    }
}

pub proof fn lemma_lex_asymmetric(a: Seq<u8>, b: Seq<u8>)
    ensures
        !(lex_lt(a, b) && lex_lt(b, a)),
    decreases a.len(),
{
    if a.len() > 0 && b.len() > 0 && a[0] == b[0] {
        lemma_lex_asymmetric(a.drop_first(), b.drop_first());
    }
}

pub proof fn lemma_lex_transitive(a: Seq<u8>, b: Seq<u8>, c: Seq<u8>)
    requires
        lex_lt(a, b),
        lex_lt(b, c),
    ensures
        lex_lt(a, c),
    decreases a.len(),
{
    if a.len() > 0 && b.len() > 0 && c.len() > 0 && a[0] == b[0] && b[0] == c[0] {
        lemma_lex_transitive(a.drop_first(), b.drop_first(), c.drop_first());
    }
}

pub proof fn lemma_lex_total(a: Seq<u8>, b: Seq<u8>)
    ensures
        a == b || lex_lt(a, b) || lex_lt(b, a),
    decreases a.len(),
{
    if a.len() == 0 || b.len() == 0 {
        if a.len() == 0 && b.len() == 0 {
            assert(a =~= b);
        }
    } else if a[0] == b[0] {
        lemma_lex_total(a.drop_first(), b.drop_first());
        if a.drop_first() == b.drop_first() {
            assert(a.drop_first().len() == b.drop_first().len());
            assert(a.len() == b.len());
            assert forall|i: int| 0 <= i < a.len() implies a[i] == b[i] by {
                if i > 0 {
                    assert(a[i] == a.drop_first()[i - 1]);
                    assert(b[i] == b.drop_first()[i - 1]);
                }
            }
            assert(a =~= b);
        }
    }
}

/// Compares two byte strings in lexicographic order.
pub fn bytes_lt(a: &[u8], b: &[u8]) -> (r: bool)
    ensures
        r == lex_lt(a@, b@),
{
    let mut i: usize = 0;
    assert(a@.subrange(0, a@.len() as int) =~= a@);
    assert(b@.subrange(0, b@.len() as int) =~= b@);
    while i < a.len() && i < b.len()
        invariant
            i <= a@.len(),
            i <= b@.len(),
            lex_lt(a@, b@) == lex_lt(a@.subrange(i as int, a@.len() as int), b@.subrange(i as int, b@.len() as int)),
        decreases a@.len() - i,
    {
        let ghost sa = a@.subrange(i as int, a@.len() as int);
        let ghost sb = b@.subrange(i as int, b@.len() as int);
        if a[i] != b[i] {
            assert(sa[0] == a@[i as int] && sb[0] == b@[i as int]);
            return a[i] < b[i];
        }
        assert(sa.drop_first() =~= a@.subrange(i + 1, a@.len() as int));
        assert(sb.drop_first() =~= b@.subrange(i + 1, b@.len() as int));
        i = i + 1;
    }
    i == a.len() && i < b.len()
}

/// `needle` occurs in `hay` at position `i`.
pub open spec fn occurs_at(hay: Seq<u8>, needle: Seq<u8>, i: int) -> bool {
    0 <= i && i + needle.len() <= hay.len() && hay.subrange(i, i + needle.len()) == needle
}

/// `needle` is a contiguous part of `hay`.
pub open spec fn contains_bytes(hay: Seq<u8>, needle: Seq<u8>) -> bool {
    exists|i: int| occurs_at(hay, needle, i)
}

pub fn occurs_at_exec(hay: &[u8], needle: &[u8], i: usize) -> (r: bool)
    requires
        i + needle@.len() <= hay@.len(),
    ensures
        r == occurs_at(hay@, needle@, i as int),
{
    let n: usize = hay.len();
    let mut j: usize = 0;
    while j < needle.len()
        invariant
            n == hay@.len(),
            j <= needle@.len(),
            i + needle@.len() <= hay@.len(),
            forall|k: int| 0 <= k < j ==> hay@[i + k] == needle@[k],
        decreases needle@.len() - j,
    {
        if hay[i + j] != needle[j] {
            assert(hay@.subrange(i as int, i + needle@.len())[j as int] != needle@[j as int]);
            return false;
        }
        j = j + 1;
    }
    assert(hay@.subrange(i as int, i + needle@.len()) =~= needle@);
    true
}

/// Tells whether `needle` is a contiguous part of `hay`.
pub fn contains_slice(hay: &[u8], needle: &[u8]) -> (r: bool)
    ensures
        r == contains_bytes(hay@, needle@),
{
    if needle.len() > hay.len() {
        return false;
    }
    if needle.len() == 0 {
        assert(hay@.subrange(0, 0) =~= needle@);
        assert(occurs_at(hay@, needle@, 0));
        return true;
    }
    let last: usize = hay.len() - needle.len();
    let mut i: usize = 0;
    while i <= last
        invariant
            last + needle@.len() == hay@.len(),
            hay@.len() <= usize::MAX,
            needle@.len() > 0,
            forall|k: int| 0 <= k < i ==> !occurs_at(hay@, needle@, k),
        decreases last + 1 - i,
    {
        if occurs_at_exec(hay, needle, i) {
            return true;
        }
        i = i + 1;
    }
    false
}

/// Big-endian encoding of a 32-bit integer.
pub open spec fn be32(n: u32) -> Seq<u8> {
    seq![(n >> 24u32) as u8, (n >> 16u32) as u8, (n >> 8u32) as u8, n as u8]
}

/// Big-endian encoding of a 16-bit integer.
pub open spec fn be16(n: u16) -> Seq<u8> {
    seq![(n >> 8u16) as u8, n as u8]
}

/// The 32-bit integer whose big-endian bytes start at `i`.
pub open spec fn read_be32(s: Seq<u8>, i: int) -> u32 {
    ((s[i] as u32) << 24u32) | ((s[i + 1] as u32) << 16u32) | ((s[i + 2] as u32) << 8u32) | (s[i + 3] as u32)
}

/// The 16-bit integer whose big-endian bytes start at `i`.
pub open spec fn read_be16(s: Seq<u8>, i: int) -> u16 {
    ((s[i] as u16) << 8u16) | (s[i + 1] as u16)
}

pub proof fn lemma_be32_read(n: u32)
    ensures
        read_be32(be32(n), 0) == n,
{
    let s = be32(n);
    let (b0, b1, b2, b3) = (s[0], s[1], s[2], s[3]);
    assert(b0 == (n >> 24u32) as u8 && b1 == (n >> 16u32) as u8 && b2 == (n >> 8u32) as u8 && b3 == n as u8);
    assert(((((n >> 24u32) as u8) as u32) << 24u32) | ((((n >> 16u32) as u8) as u32) << 16u32)
        | ((((n >> 8u32) as u8) as u32) << 8u32) | ((n as u8) as u32) == n) by (bit_vector);
}

pub proof fn lemma_be16_read(n: u16)
    ensures
        read_be16(be16(n), 0) == n,
{
    let s = be16(n);
    assert(s[0] == (n >> 8u16) as u8 && s[1] == n as u8);
    assert(((((n >> 8u16) as u8) as u16) << 8u16) | ((n as u8) as u16) == n) by (bit_vector);
}

/// Appends the big-endian bytes of `n`.
pub fn push_be32(out: &mut Vec<u8>, n: u32)
    ensures
        final(out)@ == old(out)@ + be32(n),
{
    out.push((n >> 24u32) as u8);
    out.push((n >> 16u32) as u8);
    out.push((n >> 8u32) as u8);
    out.push(n as u8);
    assert(final(out)@ =~= old(out)@ + be32(n));
}

/// Appends the big-endian bytes of `n`.
pub fn push_be16(out: &mut Vec<u8>, n: u16)
    ensures
        final(out)@ == old(out)@ + be16(n),
{
    out.push((n >> 8u16) as u8);
    out.push(n as u8);
    assert(final(out)@ =~= old(out)@ + be16(n));
}

/// Reads a big-endian 32-bit integer at `i`.
pub fn get_be32(s: &[u8], i: usize) -> (r: u32)
    requires
        i + 4 <= s@.len(),
    ensures
        r == read_be32(s@, i as int),
{
    ((s[i] as u32) << 24u32) | ((s[i + 1] as u32) << 16u32) | ((s[i + 2] as u32) << 8u32) | (s[i + 3] as u32)
}

/// Reads a big-endian 16-bit integer at `i`.
pub fn get_be16(s: &[u8], i: usize) -> (r: u16)
    requires
        i + 2 <= s@.len(),
    ensures
        r == read_be16(s@, i as int),
{
    ((s[i] as u16) << 8u16) | (s[i + 1] as u16)
}

/// ASCII decimal digits of `n`, without leading zeros.
pub open spec fn decimal(n: nat) -> Seq<u8>
    decreases n,
{
    if n < 10 {
        seq![(48 + n) as u8]
    } else {
        decimal(n / 10).push((48 + n % 10) as u8)
    }
}

/// Appends the decimal digits of `n`.
pub fn push_decimal(out: &mut Vec<u8>, n: u64)
    ensures
        final(out)@ == old(out)@ + decimal(n as nat),
    decreases n,
{
    if n >= 10 {
        push_decimal(out, n / 10);
    }
    out.push((48 + n % 10) as u8);
    assert(final(out)@ =~= old(out)@ + decimal(n as nat));
}

/// Appends every byte of `src`.
pub fn push_all(out: &mut Vec<u8>, src: &[u8])
    ensures
        final(out)@ == old(out)@ + src@,
{
    let mut i: usize = 0;
    while i < src.len()
        invariant
            i <= src@.len(),
            out@ == old(out)@ + src@.subrange(0, i as int),
        decreases src@.len() - i,
    {
        out.push(src[i]);
        assert(src@.subrange(0, i + 1) =~= src@.subrange(0, i as int).push(src@[i as int]));
        i = i + 1;
    }
    assert(src@.subrange(0, src@.len() as int) =~= src@);
}

/// Copies `s[from..to]` into a new vector.
pub fn copy_range(s: &[u8], from: usize, to: usize) -> (r: Vec<u8>)
    requires
        from <= to <= s@.len(),
    ensures
        r@ == s@.subrange(from as int, to as int),
{
    let mut r: Vec<u8> = Vec::new();
    let mut i: usize = from;
    while i < to
        invariant
            from <= i <= to,
            to <= s@.len(),
            r@ == s@.subrange(from as int, i as int),
        decreases to - i,
    {
        r.push(s[i]);
        assert(s@.subrange(from as int, i + 1) =~= s@.subrange(from as int, i as int).push(s@[i as int]));
        i = i + 1;
    }
    r
}

/// Byte-wise equality of two slices.
pub fn bytes_eq(a: &[u8], b: &[u8]) -> (r: bool)
    ensures
        r == (a@ == b@),
{
    if a.len() != b.len() {
        return false;
    }
    let mut i: usize = 0;
    while i < a.len()
        invariant
            a@.len() == b@.len(),
            i <= a@.len(),
            forall|k: int| 0 <= k < i ==> a@[k] == b@[k],
        decreases a@.len() - i,
    {
        if a[i] != b[i] {
            return false;
        }
        i = i + 1;
    }
    assert(a@ =~= b@);
    true
}

/// `s` is in strictly increasing order of `key`.
pub open spec fn strictly_sorted_by<A>(s: Seq<A>, key: spec_fn(A) -> Seq<u8>) -> bool {
    forall|i: int, j: int| 0 <= i < j < s.len() ==> lex_lt(key(s[i]), key(s[j]))
}

/// Two sequences in strictly increasing order of one key that hold the same
/// elements are equal.
pub proof fn lemma_sorted_same_elements<A>(x: Seq<A>, y: Seq<A>, key: spec_fn(A) -> Seq<u8>)
    requires
        strictly_sorted_by(x, key),
        strictly_sorted_by(y, key),
        forall|a: A| x.contains(a) <==> y.contains(a),
    ensures
        x == y,
    decreases x.len(),
{
    if x.len() == 0 {
        if y.len() > 0 {
            assert(y.contains(y[0]));
        }
        assert(x =~= y);
    } else {
        assert(x.contains(x[0]));
        let j = choose|j: int| 0 <= j < y.len() && y[j] == x[0];
        assert(y.contains(y[0]));
        let i = choose|i: int| 0 <= i < x.len() && x[i] == y[0];
        if j > 0 {
            if i > 0 {
                lemma_lex_asymmetric(key(x[0]), key(x[i]));
            } else {
                lemma_lex_irreflexive(key(x[0]));
            }
        }
        assert(j == 0);
        let x1 = x.drop_first();
        let y1 = y.drop_first();
        assert forall|a: A| x1.contains(a) <==> y1.contains(a) by {
            if x1.contains(a) {
                let k = choose|k: int| 0 <= k < x1.len() && x1[k] == a;
                assert(x[k + 1] == a);
                assert(y.contains(a));
                let l = choose|l: int| 0 <= l < y.len() && y[l] == a;
                if l == 0 {
                    lemma_lex_irreflexive(key(x[0]));
                }
                assert(y1[l - 1] == a);
            }
            if y1.contains(a) {
                let k = choose|k: int| 0 <= k < y1.len() && y1[k] == a;
                assert(y[k + 1] == a);
                assert(x.contains(a));
                let l = choose|l: int| 0 <= l < x.len() && x[l] == a;
                if l == 0 {
                    lemma_lex_irreflexive(key(y[0]));
                }
                assert(x1[l - 1] == a);
            }
        }
        lemma_sorted_same_elements(x1, y1, key);
        assert(x =~= seq![x[0]] + x1);
        assert(y =~= seq![y[0]] + y1);
    }
}

/// `d` is the canonical decimal text of a number: digits only, and no
/// leading zero unless it is the single digit `0`.
pub open spec fn canonical_digits(d: Seq<u8>) -> bool {
    &&& d.len() > 0
    &&& forall|k: int| 0 <= k < d.len() ==> 48 <= #[trigger] d[k] <= 57
    &&& (d.len() > 1 ==> d[0] != 48u8)
}

/// The number that decimal digits stand for.
pub open spec fn digits_value(d: Seq<u8>) -> nat
    decreases d.len(),
{
    if d.len() == 0 {
        0
    } else {
        digits_value(d.drop_last()) * 10 + (d.last() - 48) as nat
    }
}

proof fn lemma_leading_digit_positive(d: Seq<u8>)
    requires
        canonical_digits(d),
        d.len() > 1,
    ensures
        digits_value(d.drop_last()) >= 1,
    decreases d.len(),
{
    let t = d.drop_last();
    if t.len() > 1 {
        assert(canonical_digits(t)) by {
            assert forall|k: int| 0 <= k < t.len() implies 48 <= #[trigger] t[k] <= 57 by {
                assert(t[k] == d[k]);
            }
        }
        lemma_leading_digit_positive(t);
        assert(digits_value(t) == digits_value(t.drop_last()) * 10 + (t.last() - 48) as nat);
    } else {
        assert(t[0] == d[0]);
    }
}

/// Canonical digits are the decimal text of the number they stand for.
pub proof fn lemma_decimal_of_digits(d: Seq<u8>)
    requires
        canonical_digits(d),
    ensures
        decimal(digits_value(d)) == d,
    decreases d.len(),
{
    let n = digits_value(d);
    let t = d.drop_last();
    if d.len() == 1 {
        assert(t =~= Seq::<u8>::empty());
        assert(decimal(n) =~= d);
    } else {
        lemma_leading_digit_positive(d);
        assert(canonical_digits(t)) by {
            assert forall|k: int| 0 <= k < t.len() implies 48 <= #[trigger] t[k] <= 57 by {
                assert(t[k] == d[k]);
            }
            assert(t[0] == d[0]);
        }
        lemma_decimal_of_digits(t);
        let last = (d.last() - 48) as nat;
        assert(n == digits_value(t) * 10 + last);
        assert(n / 10 == digits_value(t) && n % 10 == last) by (nonlinear_arith)
            requires
                n == digits_value(t) * 10 + last,
                last < 10,
        ;
        assert(n >= 10) by (nonlinear_arith)
            requires
                n == digits_value(t) * 10 + last,
                digits_value(t) >= 1,
        ;
        assert(decimal(n) =~= d);
    }
}

/// Reads the canonical decimal number in `s[from..to]`, if it is one and
/// fits in 64 bits.
pub fn parse_digits(s: &[u8], from: usize, to: usize) -> (r: Option<u64>)
    requires
        from <= to <= s@.len(),
    ensures
        r matches Some(n) ==> canonical_digits(s@.subrange(from as int, to as int)) && n == digits_value(
            s@.subrange(from as int, to as int),
        ),
        canonical_digits(s@.subrange(from as int, to as int)) && digits_value(s@.subrange(from as int, to as int))
            <= u64::MAX ==> r is Some,
{
    let ghost d = s@.subrange(from as int, to as int);
    if from == to {
        return None;
    }
    if to - from > 1 && s[from] == 48u8 {
        return None;
    }
    let mut n: u64 = 0;
    let mut i: usize = from;
    assert(s@.subrange(from as int, from as int) =~= Seq::<u8>::empty());
    while i < to
        invariant
            from <= i <= to <= s@.len(),
            d == s@.subrange(from as int, to as int),
            n == digits_value(s@.subrange(from as int, i as int)),
            forall|k: int| from <= k < i ==> 48 <= #[trigger] s@[k] <= 57,
        decreases to - i,
    {
        let c = s[i];
        assert(s@.subrange(from as int, i + 1).drop_last() =~= s@.subrange(from as int, i as int));
        if c < 48u8 || c > 57u8 {
            proof {
                assert(d[i - from] == c);
            }
            return None;
        }
        if n > (u64::MAX - (c - 48u8) as u64) / 10 {
            proof {
                let p = s@.subrange(from as int, i + 1);
                assert(digits_value(p) == n * 10 + (c - 48) as nat);
                assert(digits_value(p) > u64::MAX) by (nonlinear_arith)
                    requires
                        n > (u64::MAX - (c - 48) as nat) / 10,
                        digits_value(p) == n * 10 + (c - 48) as nat,
                ;
                lemma_digits_value_prefix(d, i + 1 - from);
                assert(d.take(i + 1 - from) =~= p);
            }
            return None;
        }
        n = n * 10 + (c - 48u8) as u64;
        i = i + 1;
    }
    proof {
        assert forall|k: int| 0 <= k < d.len() implies 48 <= #[trigger] d[k] <= 57 by {
            assert(d[k] == s@[from + k]);
        }
    }
    Some(n)
}

/// A number's prefix digits stand for no more than the whole.
proof fn lemma_digits_value_prefix(d: Seq<u8>, j: int)
    requires
        0 <= j <= d.len(),
    ensures
        digits_value(d.take(j)) <= digits_value(d),
    decreases d.len() - j,
{
    if j < d.len() {
        lemma_digits_value_prefix(d, j + 1);
        assert(d.take(j + 1).drop_last() =~= d.take(j));
    } else {
        assert(d.take(j) =~= d);
    }
}

/// The decimal text of a number is canonical and stands for the number.
pub proof fn lemma_decimal_canonical(x: nat)
    ensures
        canonical_digits(decimal(x)),
        digits_value(decimal(x)) == x,
        decimal(x)[0] != 45u8,
    decreases x,
{
    let d = decimal(x);
    if x < 10 {
        assert(d.drop_last() =~= Seq::<u8>::empty());
        assert(d.last() == (48 + x) as u8);
        assert(digits_value(d) == digits_value(d.drop_last()) * 10 + (d.last() - 48) as nat);
    } else {
        lemma_decimal_canonical(x / 10);
        let t = decimal(x / 10);
        assert(d.drop_last() =~= t);
        assert(d[0] == t[0]);
        assert forall|k: int| 0 <= k < d.len() implies 48 <= #[trigger] d[k] <= 57 by {
            if k < t.len() {
                assert(d[k] == t[k]);
            }
        }
        if t.len() == 1 {
            assert(t.drop_last() =~= Seq::<u8>::empty());
            assert(digits_value(t) == digits_value(t.drop_last()) * 10 + (t.last() - 48) as nat);
            assert(x / 10 >= 1);
        }
        assert(digits_value(d) == digits_value(t) * 10 + (d.last() - 48) as nat);
        assert((x / 10) * 10 + x % 10 == x) by (nonlinear_arith);
    }
}

} // verus!
