use vstd::prelude::*;
use vstd::utf8::{decode_utf8, encode_utf8, valid_utf8, decode_utf8_encode_utf8};
use crate::bytes::{decimal, digits_value, canonical_digits, push_all, push_decimal, parse_digits, copy_range, lemma_decimal_of_digits, lemma_decimal_canonical};
use vstd::utf8::{encode_utf8_valid_utf8, encode_utf8_decode_utf8};
use crate::digest::utf8_string;
use crate::error::Error;

verus! {

/// Who made a commit, and when: seconds since the epoch and the offset of
/// the local time zone from UTC, in minutes.
#[derive(Debug)]
pub struct Author {
    pub name: String,
    pub email: String,
    pub time: i64,
    pub offset_minutes: i32,
}

/// Two ASCII digits of a number below 100.
pub open spec fn two_digits(n: nat) -> Seq<u8> {
    seq![(48 + n / 10) as u8, (48 + n % 10) as u8]
}

/// The `±HHMM` text of a time zone offset.
pub open spec fn tz_bytes(offset: int) -> Seq<u8> {
    let m = if offset < 0 { -offset } else { offset };
    seq![if offset < 0 { 45u8 } else { 43u8 }] + two_digits((m / 60) as nat) + two_digits((m % 60) as nat)
}

/// The decimal text of a signed number.
pub open spec fn signed_decimal(t: int) -> Seq<u8> {
    if t < 0 {
        seq![45u8] + decimal((-t) as nat)
    } else {
        decimal(t as nat)
    }
}

/// The author line: `name <email> epoch ±HHMM`.
pub open spec fn author_bytes(a: Author) -> Seq<u8> {
    encode_utf8(a.name@) + seq![32u8, 60u8] + encode_utf8(a.email@) + seq![62u8, 32u8] + signed_decimal(a.time as int)
        + seq![32u8] + tz_bytes(a.offset_minutes as int)
}

/// An author that `Author::parse` reads back from its line: in range, and
/// with no `<` in the email.
pub open spec fn author_parsable(a: Author) -> bool {
    &&& a.wf()
    &&& !encode_utf8(a.email@).contains(60u8)
}

/// Where the parts of an author line stand.
#[verifier::rlimit(40)]
proof fn lemma_author_facts(l: Seq<u8>, a: Author)
    requires
        author_parsable(a),
        l == author_bytes(a),
    ensures
        ({
            let nb = encode_utf8(a.name@);
            let eb = encode_utf8(a.email@);
            let tb = signed_decimal(a.time as int);
            let big_n = nb.len() as int;
            let big_e = eb.len() as int;
            let s1 = big_n + big_e + 3;
            let s2 = s1 + 1 + tb.len();
            let m = if a.offset_minutes < 0 { -a.offset_minutes } else { a.offset_minutes as int };
            &&& tb.len() >= 1
            &&& l.len() == s2 + 6
            &&& l[big_n] == 32u8
            &&& l[big_n + 1] == 60u8
            &&& l[s1 - 1] == 62u8
            &&& l[s1] == 32u8
            &&& l[s2] == 32u8
            &&& (forall|k: int| big_n + 2 <= k < s1 - 1 ==> l[k] != 60u8)
            &&& (forall|k: int| s1 < k < s2 ==> l[k] != 32u8)
            &&& l.subrange(0, big_n) == nb
            &&& l.subrange(big_n + 2, s1 - 1) == eb
            &&& l.subrange(s1 + 1, s2) == tb
            &&& l.subrange(s2 + 1, l.len() as int) == tz_bytes(a.offset_minutes as int)
            &&& (l[s1 + 1] == 45u8 <==> a.time < 0)
            &&& l.subrange(if a.time < 0 { s1 + 2 } else { s1 + 1 }, s2) == decimal(if a.time < 0 { -a.time } else { a.time as int } as nat)
            &&& l[s2 + 1] == if a.offset_minutes < 0 { 45u8 } else { 43u8 }
            &&& l[s2 + 2] == 48 + (m / 60) / 10 && l[s2 + 3] == 48 + (m / 60) % 10
            &&& l[s2 + 4] == 48 + (m % 60) / 10 && l[s2 + 5] == 48 + (m % 60) % 10
        }),
{
    let nb = encode_utf8(a.name@);
    let eb = encode_utf8(a.email@);
    let tb = signed_decimal(a.time as int);
    let big_n = nb.len() as int;
    let big_e = eb.len() as int;
    let s1 = big_n + big_e + 3;
    let s2 = s1 + 1 + tb.len();
    let x = if a.time < 0 { -a.time } else { a.time as int };
    lemma_decimal_canonical(x as nat);
    let d = decimal(x as nat);
    assert forall|k: int| 0 <= k < tb.len() implies tb[k] != 32u8 by {
        if a.time < 0 {
            if k > 0 {
                assert(tb[k] == d[k - 1]);
            }
        } else {
            assert(tb[k] == d[k]);
        }
    }
    assert forall|k: int| big_n + 2 <= k < s1 - 1 implies l[k] != 60u8 by {
        assert(l[k] == eb[k - big_n - 2]);
        if l[k] == 60u8 {
            assert(eb.contains(60u8));
        }
    }
    assert forall|k: int| s1 < k < s2 implies l[k] != 32u8 by {
        assert(l[k] == tb[k - s1 - 1]);
    }
    assert(l.subrange(0, big_n) =~= nb);
    assert(l.subrange(big_n + 2, s1 - 1) =~= eb);
    assert(l.subrange(s1 + 1, s2) =~= tb);
    assert(l.subrange(s2 + 1, l.len() as int) =~= tz_bytes(a.offset_minutes as int));
    if a.time < 0 {
        assert(l.subrange(s1 + 2, s2) =~= d);
        assert(l[s1 + 1] == 45u8);
    } else {
        assert(l.subrange(s1 + 1, s2) =~= d);
        assert(l[s1 + 1] == d[0]);
    }
}

impl Author {
    /// The offset is below 100 hours either way, and the time is not the
    /// most negative 64-bit value.
    pub open spec fn wf(&self) -> bool {
        -6000 < self.offset_minutes < 6000 && self.time > i64::MIN
    }

    /// Tells whether the offset and time are in range.
    pub fn wf_exec(&self) -> (r: bool)
        ensures
            r == self.wf(),
    {
        -6000 < self.offset_minutes && self.offset_minutes < 6000 && self.time > i64::MIN
    }

    /// An author with the given name, email, time and offset.
    pub fn new(name: &str, email: &str, time: i64, offset_minutes: i32) -> (r: Author)
        ensures
            r.name@ == name@,
            r.email@ == email@,
            r.time == time,
            r.offset_minutes == offset_minutes,
    {
        Author { name: name.to_owned(), email: email.to_owned(), time, offset_minutes }
    }

    /// The author line.
    pub fn to_bytes(&self) -> (r: Vec<u8>)
        requires
            self.wf(),
        ensures
            r@ == author_bytes(*self),
    {
        let mut out: Vec<u8> = Vec::new();
        push_all(&mut out, self.name.as_str().as_bytes());
        out.push(32u8);
        out.push(60u8);
        push_all(&mut out, self.email.as_str().as_bytes());
        out.push(62u8);
        out.push(32u8);
        let ghost before_time = out@;
        if self.time < 0 {
            out.push(45u8);
            push_decimal(&mut out, (0 - self.time) as u64);
        } else {
            push_decimal(&mut out, self.time as u64);
        }
        assert(out@ =~= before_time + signed_decimal(self.time as int));
        out.push(32u8);
        let off = self.offset_minutes;
        let m: i32 = if off < 0 { 0 - off } else { off };
        out.push(if off < 0 { 45u8 } else { 43u8 });
        let hh = (m / 60) as u8;
        let mm = (m % 60) as u8;
        out.push(48u8 + hh / 10);
        out.push(48u8 + hh % 10);
        out.push(48u8 + mm / 10);
        out.push(48u8 + mm % 10);
        assert(out@ =~= author_bytes(*self));
        out
    }

    /// Reads an author line `name <email> epoch ±HHMM`.
    #[verifier::rlimit(60)]
    pub fn parse(line: &[u8]) -> (r: Result<Author, Error>)
        ensures
            r matches Ok(a) ==> a.wf() && author_bytes(a) == line@,
            r matches Err(e) ==> e == Error::MalformedCommit,
            forall|a: Author| author_parsable(a) && line@ == author_bytes(a) ==> (r matches Ok(b) && b.name@ == a.name@
                && b.email@ == a.email@ && b.time == a.time && b.offset_minutes == a.offset_minutes),
    {
        let ghost any = exists|a: Author| author_parsable(a) && line@ == author_bytes(a);
        let ghost a0 = if any {
            choose|a: Author| author_parsable(a) && line@ == author_bytes(a)
        } else {
            arbitrary()
        };
        let ghost big_n = encode_utf8(a0.name@).len() as int;
        let ghost big_e = encode_utf8(a0.email@).len() as int;
        let n = line.len();
        assert(any ==> n >= 11 && line@[n - 6] == 32u8 && zone_at(line@, n - 6, a0.offset_minutes as int)
            && time_at(line@, big_n + big_e + 3, n - 6, a0.time as int) && email_at(line@, big_n + 1, big_n + big_e + 3))
            by {
            if any {
                lemma_author_facts(line@, a0);
            }
        }
        if n < 7 || line[n - 6] != 32u8 {
            return Err(Error::MalformedCommit);
        }
        let s2: usize = n - 6;
        let offset = match parse_zone(line, s2) {
            Some(o) => o,
            None => {
                return Err(Error::MalformedCommit);
            },
        };
        let (s1, time) = match parse_time(line, s2) {
            Some(p) => p,
            None => {
                return Err(Error::MalformedCommit);
            },
        };
        let lt = match parse_email(line, s1) {
            Some(p) => p,
            None => {
                return Err(Error::MalformedCommit);
            },
        };
        let name_bytes = copy_range(line, 0, lt - 1);
        let email_bytes = copy_range(line, lt + 1, s1 - 1);
        assert(any ==> valid_utf8(name_bytes@) && valid_utf8(email_bytes@)) by {
            if any {
                lemma_author_facts(line@, a0);
                encode_utf8_valid_utf8(a0.name@);
                encode_utf8_valid_utf8(a0.email@);
            }
        }
        let name = match utf8_string(name_bytes.as_slice()) {
            Some(s) => s,
            None => {
                return Err(Error::MalformedCommit);
            },
        };
        let email = match utf8_string(email_bytes.as_slice()) {
            Some(s) => s,
            None => {
                return Err(Error::MalformedCommit);
            },
        };
        let a = Author { name, email, time, offset_minutes: offset };
        proof {
            decode_utf8_encode_utf8(name_bytes@);
            decode_utf8_encode_utf8(email_bytes@);
            lemma_author_line(line@, lt as int, s1 as int, s2 as int, a);
            assert forall|b: Author| author_parsable(b) && line@ == author_bytes(b) implies a.name@ == b.name@
                && a.email@ == b.email@ && a.time == b.time && a.offset_minutes == b.offset_minutes by {
                lemma_parse_matches(line@, s1 as int, lt as int, s2 as int, a, b);
            }
        }
        Ok(a)
    }
}

/// The time zone `offset` stands after the space at `s2`, ending the line.
pub open spec fn zone_at(l: Seq<u8>, s2: int, offset: int) -> bool {
    &&& -6000 < offset < 6000
    &&& 0 <= s2
    &&& s2 + 6 == l.len()
    &&& l.subrange(s2 + 1, l.len() as int) == tz_bytes(offset)
}

/// The time `t` stands between the spaces at `s1` and `s2`.
pub open spec fn time_at(l: Seq<u8>, s1: int, s2: int, t: int) -> bool {
    &&& 0 <= s1 < s2 < l.len()
    &&& l[s1] == 32u8
    &&& (forall|k: int| s1 < k < s2 ==> l[k] != 32u8)
    &&& i64::MIN < t <= i64::MAX
    &&& l.subrange(s1 + 1, s2) == signed_decimal(t)
}

/// The email stands between the `<` at `lt` and the `>` before `s1`,
/// after a space.
pub open spec fn email_at(l: Seq<u8>, lt: int, s1: int) -> bool {
    &&& 1 <= lt < s1 - 1
    &&& s1 <= l.len()
    &&& l[lt - 1] == 32u8
    &&& l[lt] == 60u8
    &&& l[s1 - 1] == 62u8
    &&& (forall|k: int| lt < k < s1 - 1 ==> l[k] != 60u8)
}

/// Reads the time zone after the space at `s2`.
fn parse_zone(line: &[u8], s2: usize) -> (r: Option<i32>)
    requires
        s2 + 6 == line@.len(),
    ensures
        r matches Some(o) ==> zone_at(line@, s2 as int, o as int),
        forall|o: int| zone_at(line@, s2 as int, o) ==> r == Some(o as i32),
{
    let n = line.len();
    let sign = line[s2 + 1];
    let ghost any = exists|o: int| zone_at(line@, s2 as int, o);
    let ghost o0 = if any { choose|o: int| zone_at(line@, s2 as int, o) } else { 0 };
    let ghost m0: int = if o0 < 0 { -o0 } else { o0 };
    assert(any ==> {
        &&& (sign == 45u8 <==> o0 < 0)
        &&& (sign == 43u8 <==> o0 >= 0)
        &&& line@[s2 + 2] == 48 + (m0 / 60) / 10 && line@[s2 + 3] == 48 + (m0 / 60) % 10
        &&& line@[s2 + 4] == 48 + (m0 % 60) / 10 && line@[s2 + 5] == 48 + (m0 % 60) % 10
        &&& m0 / 60 < 100 && m0 % 60 < 60
    }) by {
        if any {
            let t = tz_bytes(o0);
            assert(line@[s2 + 1] == t[0] && line@[s2 + 2] == t[1] && line@[s2 + 3] == t[2]);
            assert(line@[s2 + 4] == t[3] && line@[s2 + 5] == t[4]);
        }
    }
    if sign != 43u8 && sign != 45u8 {
        return None;
    }
    let hh = match parse_two(line, s2 + 2) {
        Some(v) => v,
        None => {
            return None;
        },
    };
    let mm = match parse_two(line, s2 + 4) {
        Some(v) => v,
        None => {
            return None;
        },
    };
    if mm >= 60 || (sign == 45u8 && hh == 0 && mm == 0) {
        return None;
    }
    let mag: i32 = (hh as i32) * 60 + mm as i32;
    let offset: i32 = if sign == 45u8 { 0 - mag } else { mag };
    proof {
        lemma_tz_text(line@, s2 as int, sign, hh, mm, offset);
        assert forall|o: int| zone_at(line@, s2 as int, o) implies offset as int == o by {
            lemma_tz_injective(offset as int, o);
        }
    }
    Some(offset)
}

/// Reads the time before the space at `s2`, and where its token starts.
#[verifier::rlimit(40)]
fn parse_time(line: &[u8], s2: usize) -> (r: Option<(usize, i64)>)
    requires
        s2 < line@.len(),
    ensures
        r matches Some((s1, t)) ==> time_at(line@, s1 as int, s2 as int, t as int),
        forall|s1: int, t: int| time_at(line@, s1, s2 as int, t) ==> r == Some((s1 as usize, t as i64)),
{
    let mut s1: usize = s2;
    while s1 > 0 && line[s1 - 1] != 32u8
        invariant
            s1 <= s2 < line@.len(),
            forall|k: int| s1 <= k < s2 ==> line@[k] != 32u8,
        decreases s1,
    {
        s1 = s1 - 1;
    }
    let ghost any = exists|a: int, t: int| time_at(line@, a, s2 as int, t);
    let ghost p0 = if any { choose|a: int, t: int| time_at(line@, a, s2 as int, t) } else { (0int, 0int) };
    let ghost x0: int = if p0.1 < 0 { -p0.1 } else { p0.1 };
    assert(any ==> s1 == p0.0 + 1) by {
        if any {
            if s1 > p0.0 + 1 {
                assert(line@[s1 - 1] != 32u8);
            }
            if s1 < p0.0 + 1 {
                assert(line@[p0.0] != 32u8);
            }
        }
    }
    if s1 == 0 {
        return None;
    }
    let s1: usize = s1 - 1;
    if s1 + 1 >= s2 {
        proof {
            if any {
                lemma_decimal_canonical(x0 as nat);
                assert(signed_decimal(p0.1).len() >= 1);
            }
        }
        return None;
    }
    let neg = line[s1 + 1] == 45u8;
    let dstart: usize = if neg { s1 + 2 } else { s1 + 1 };
    assert(any ==> {
        &&& neg == (p0.1 < 0)
        &&& line@.subrange(dstart as int, s2 as int) == decimal(x0 as nat)
        &&& canonical_digits(decimal(x0 as nat))
        &&& digits_value(decimal(x0 as nat)) == x0
    }) by {
        if any {
            lemma_decimal_canonical(x0 as nat);
            let sd = signed_decimal(p0.1);
            assert(line@[s1 + 1] == sd[0]);
            if p0.1 < 0 {
                assert(line@.subrange(dstart as int, s2 as int) =~= sd.drop_first());
            }
        }
    }
    let v = match parse_digits(line, dstart, s2) {
        Some(v) => v,
        None => {
            return None;
        },
    };
    if v > i64::MAX as u64 || (neg && v == 0) {
        return None;
    }
    let time: i64 = if neg { 0 - (v as i64) } else { v as i64 };
    proof {
        lemma_time_text(line@, s1 as int, dstart as int, s2 as int, neg, v, time);
        assert forall|a: int, t: int| time_at(line@, a, s2 as int, t) implies a == s1 && t == time by {
            if a > s1 {
                assert(line@[a] == 32u8);
            }
            if a < s1 {
                assert(line@[s1 as int] != 32u8);
            }
            lemma_signed_decimal_injective(t, time as int);
        }
    }
    Some((s1, time))
}

/// Finds the `<` that opens the email, given the space at `s1` that ends it.
fn parse_email(line: &[u8], s1: usize) -> (r: Option<usize>)
    requires
        s1 < line@.len(),
    ensures
        r matches Some(lt) ==> email_at(line@, lt as int, s1 as int),
        forall|lt: int| email_at(line@, lt, s1 as int) ==> r == Some(lt as usize),
{
    if s1 < 3 || line[s1 - 1] != 62u8 {
        return None;
    }
    let mut lt: usize = s1 - 1;
    while lt > 0 && line[lt - 1] != 60u8
        invariant
            lt < s1 < line@.len(),
            forall|k: int| lt <= k < s1 - 1 ==> line@[k] != 60u8,
        decreases lt,
    {
        lt = lt - 1;
    }
    let ghost any = exists|p: int| email_at(line@, p, s1 as int);
    let ghost p0 = if any { choose|p: int| email_at(line@, p, s1 as int) } else { 0 };
    assert(any ==> lt == p0 + 1) by {
        if any {
            if lt > p0 + 1 {
                assert(line@[lt - 1] != 60u8);
            }
            if lt < p0 + 1 {
                assert(line@[p0] != 60u8);
            }
        }
    }
    if lt < 2 || line[lt - 2] != 32u8 {
        return None;
    }
    let lt: usize = lt - 1;
    proof {
        assert forall|p: int| email_at(line@, p, s1 as int) implies p == lt by {
            if p > lt {
                assert(line@[p] == 60u8);
            }
            if p < lt {
                assert(line@[lt as int] == 60u8);
            }
        }
    }
    Some(lt)
}

/// An author whose line `Author::parse` took apart at the given places is
/// any parsable author with that line.
#[verifier::rlimit(60)]
proof fn lemma_parse_matches(l: Seq<u8>, s1: int, lt: int, s2: int, a: Author, b: Author)
    requires
        author_parsable(b),
        l == author_bytes(b),
        author_bytes(a) == l,
        a.wf(),
        1 <= lt < s1 - 1,
        s1 < s2,
        l.len() == s2 + 6,
        l[s1] == 32u8,
        forall|k: int| s1 < k < s2 ==> l[k] != 32u8,
        l[lt] == 60u8,
        forall|k: int| lt < k < s1 - 1 ==> l[k] != 60u8,
        encode_utf8(a.name@) == l.subrange(0, lt - 1),
        encode_utf8(a.email@) == l.subrange(lt + 1, s1 - 1),
        signed_decimal(a.time as int) == l.subrange(s1 + 1, s2),
        tz_bytes(a.offset_minutes as int) == l.subrange(s2 + 1, l.len() as int),
    ensures
        a.name@ == b.name@,
        a.email@ == b.email@,
        a.time == b.time,
        a.offset_minutes == b.offset_minutes,
{
    lemma_author_facts(l, b);
    let bn = encode_utf8(b.name@).len() as int;
    let be = encode_utf8(b.email@).len() as int;
    if s1 > bn + be + 3 {
        assert(l[s1] != 32u8);
    }
    if s1 < bn + be + 3 {
        assert(l[bn + be + 3] != 32u8);
    }
    if lt > bn + 1 {
        assert(l[lt] != 60u8);
    }
    if lt < bn + 1 {
        assert(l[bn + 1] != 60u8);
    }
    encode_utf8_decode_utf8(b.name@);
    encode_utf8_decode_utf8(b.email@);
    encode_utf8_decode_utf8(a.name@);
    encode_utf8_decode_utf8(a.email@);
    lemma_signed_decimal_injective(a.time as int, b.time as int);
    lemma_tz_injective(a.offset_minutes as int, b.offset_minutes as int);
}

proof fn lemma_signed_decimal_injective(x: int, y: int)
    requires
        signed_decimal(x) == signed_decimal(y),
    ensures
        x == y,
{
    let ax = if x < 0 { -x } else { x };
    let ay = if y < 0 { -y } else { y };
    lemma_decimal_canonical(ax as nat);
    lemma_decimal_canonical(ay as nat);
    if x < 0 && y >= 0 {
        assert(signed_decimal(x)[0] == 45u8);
    } else if x >= 0 && y < 0 {
        assert(signed_decimal(y)[0] == 45u8);
    } else if x < 0 {
        assert(decimal(ax as nat) =~= signed_decimal(x).drop_first());
        assert(decimal(ay as nat) =~= signed_decimal(y).drop_first());
    }
}

proof fn lemma_tz_injective(x: int, y: int)
    requires
        -6000 < x < 6000,
        -6000 < y < 6000,
        tz_bytes(x) == tz_bytes(y),
    ensures
        x == y,
{
    let mx = if x < 0 { -x } else { x };
    let my = if y < 0 { -y } else { y };
    let tx = tz_bytes(x);
    let ty = tz_bytes(y);
    assert(tx[0] == ty[0] && tx[1] == ty[1] && tx[2] == ty[2] && tx[3] == ty[3] && tx[4] == ty[4]);
    assert(mx / 60 == my / 60 && mx % 60 == my % 60);
    assert((mx / 60) * 60 + mx % 60 == mx) by (nonlinear_arith);
    assert((my / 60) * 60 + my % 60 == my) by (nonlinear_arith);
}

proof fn lemma_tz_text(l: Seq<u8>, s2: int, sign: u8, hh: u8, mm: u8, offset: i32)
    requires
        0 <= s2,
        s2 + 6 == l.len(),
        l[s2 + 1] == sign,
        sign == 43u8 || sign == 45u8,
        hh < 100,
        mm < 60,
        l[s2 + 2] == 48 + hh / 10,
        l[s2 + 3] == 48 + hh % 10,
        l[s2 + 4] == 48 + mm / 10,
        l[s2 + 5] == 48 + mm % 10,
        !(sign == 45u8 && hh == 0 && mm == 0),
        offset == if sign == 45u8 { -(hh * 60 + mm) } else { hh * 60 + mm },
    ensures
        tz_bytes(offset as int) == l.subrange(s2 + 1, l.len() as int),
        -6000 < offset < 6000,
{
    let m: int = hh * 60 + mm;
    assert(m / 60 == hh && m % 60 == mm) by (nonlinear_arith)
        requires
            m == hh * 60 + mm,
            mm < 60,
            hh >= 0,
    ;
    assert(tz_bytes(offset as int) =~= l.subrange(s2 + 1, l.len() as int));
}

proof fn lemma_time_text(l: Seq<u8>, s1: int, dstart: int, s2: int, neg: bool, v: u64, time: i64)
    requires
        0 <= s1 < dstart <= s2 <= l.len(),
        neg ==> dstart == s1 + 2 && l[s1 + 1] == 45u8,
        !neg ==> dstart == s1 + 1,
        canonical_digits(l.subrange(dstart, s2)),
        v == digits_value(l.subrange(dstart, s2)),
        v <= i64::MAX,
        neg ==> v > 0,
        time == if neg { -(v as int) } else { v as int },
    ensures
        signed_decimal(time as int) == l.subrange(s1 + 1, s2),
        time > i64::MIN,
{
    lemma_decimal_of_digits(l.subrange(dstart, s2));
    if neg {
        assert(signed_decimal(time as int) =~= l.subrange(s1 + 1, s2));
    } else {
        assert(signed_decimal(time as int) =~= l.subrange(s1 + 1, s2));
    }
}

proof fn lemma_author_line(l: Seq<u8>, lt: int, s1: int, s2: int, a: Author)
    requires
        1 <= lt < s1 - 1,
        s1 < s2,
        s2 + 6 == l.len(),
        l[lt - 1] == 32u8,
        l[lt] == 60u8,
        l[s1 - 1] == 62u8,
        l[s1] == 32u8,
        l[s2] == 32u8,
        encode_utf8(a.name@) == l.subrange(0, lt - 1),
        encode_utf8(a.email@) == l.subrange(lt + 1, s1 - 1),
        signed_decimal(a.time as int) == l.subrange(s1 + 1, s2),
        tz_bytes(a.offset_minutes as int) == l.subrange(s2 + 1, l.len() as int),
    ensures
        author_bytes(a) == l,
{
    assert(author_bytes(a) =~= l);
}

/// Reads two ASCII digits at `i`.
fn parse_two(s: &[u8], i: usize) -> (r: Option<u8>)
    requires
        i + 2 <= s@.len(),
    ensures
        r matches Some(v) ==> 48 <= s@[i as int] <= 57 && 48 <= s@[i + 1] <= 57 && v == (s@[i as int] - 48) * 10 + (
            s@[i + 1] - 48) && v < 100 && s@[i as int] == 48 + v / 10 && s@[i + 1] == 48 + v % 10,
        48 <= s@[i as int] <= 57 && 48 <= s@[i + 1] <= 57 ==> r is Some,
{
    let a = s[i];
    let b = s[i + 1];
    if a < 48u8 || a > 57u8 || b < 48u8 || b > 57u8 {
        return None;
    }
    Some((a - 48u8) * 10 + (b - 48u8))
}

} // verus!
