use vstd::prelude::*;
use vstd::utf8::{decode_utf8, encode_utf8, valid_utf8, decode_utf8_encode_utf8, encode_utf8_valid_utf8, encode_utf8_decode_utf8};
use crate::author::{Author, author_bytes, author_parsable};
use crate::bytes::{push_all, copy_range, bytes_eq};
use crate::digest::{sha1, sha1_of, utf8_string};
use crate::error::Error;
use crate::object::{Object, frame, frame_object, commit_tag};

verus! {

/// A snapshot: the id (hexadecimal) of its root tree, the commit before it
/// if any, who made it, and why.
#[derive(Debug)]
pub struct Commit {
    pub tree_ref: String,
    pub author: Author,
    pub parent: Option<String>,
    pub message: String,
    /// The id it was built or loaded with.
    pub oid: Vec<u8>,
}

/// `tree`
pub open spec fn tree_key() -> Seq<u8> {
    seq![116u8, 114u8, 101u8, 101u8]
}

/// `author`
pub open spec fn author_key() -> Seq<u8> {
    seq![97u8, 117u8, 116u8, 104u8, 111u8, 114u8]
}

/// `parent`
pub open spec fn parent_key() -> Seq<u8> {
    seq![112u8, 97u8, 114u8, 101u8, 110u8, 116u8]
}

/// `committer`
pub open spec fn committer_key() -> Seq<u8> {
    seq![99u8, 111u8, 109u8, 109u8, 105u8, 116u8, 116u8, 101u8, 114u8]
}

/// A header line: key, space, value, newline.
pub open spec fn header(key: Seq<u8>, value: Seq<u8>) -> Seq<u8> {
    key + seq![32u8] + value + seq![10u8]
}

/// The optional `parent` line.
pub open spec fn parent_line(parent: Option<Seq<char>>) -> Seq<u8> {
    match parent {
        Some(p) => header(parent_key(), encode_utf8(p)),
        None => Seq::empty(),
    }
}

/// The payload of a commit: `tree`, optional `parent`, `author` and
/// `committer` header lines, a blank line, then the message.
pub open spec fn commit_payload(tree_ref: Seq<char>, author: Author, message: Seq<char>, parent: Option<Seq<char>>) -> Seq<u8> {
    header(tree_key(), encode_utf8(tree_ref)) + parent_line(parent) + header(author_key(), author_bytes(author))
        + header(committer_key(), author_bytes(author)) + seq![10u8] + encode_utf8(message)
}

/// `c` is what the payload `p` holds when its header ends with the blank
/// line at `h`: the message follows it, and the tree, author and parent
/// come from header lines before it.
pub open spec fn read_at(p: Seq<u8>, c: Commit, h: int) -> bool {
    &&& 0 <= h < p.len()
    &&& p[h] == 10u8
    &&& (h == 0 || p[h - 1] == 10u8)
    &&& encode_utf8(c.message@) == p.subrange(h + 1, p.len() as int)
    &&& has_header(p, h, tree_key(), encode_utf8(c.tree_ref@))
    &&& has_header(p, h, author_key(), author_bytes(c.author))
    &&& (c.parent matches Some(q) ==> has_header(p, h, parent_key(), encode_utf8(q@)))
}

/// A commit that `Commit::parse` reads back from its payload: a parsable
/// author, and no newline in the tree id, the parent id or the author line.
pub open spec fn commit_parsable(t: Seq<char>, a: Author, p: Option<Seq<char>>) -> bool {
    &&& author_parsable(a)
    &&& !encode_utf8(t).contains(10u8)
    &&& !author_bytes(a).contains(10u8)
    &&& (p matches Some(q) ==> !encode_utf8(q).contains(10u8))
}

/// The UTF-8 bytes of an optional text.
pub open spec fn opt_bytes(o: Option<Seq<char>>) -> Option<Seq<u8>> {
    match o {
        Some(q) => Some(encode_utf8(q)),
        None => None,
    }
}

/// The bytes of an optional vector.
pub open spec fn vec_bytes(o: Option<Vec<u8>>) -> Option<Seq<u8>> {
    match o {
        Some(v) => Some(v@),
        None => None,
    }
}

/// Where the header lines of a commit payload start, and the blank line.
pub open spec fn line_starts(t: Seq<char>, a: Author, p: Option<Seq<char>>) -> (int, int, int, int) {
    let b1 = header(tree_key(), encode_utf8(t)).len() as int;
    let b2 = b1 + parent_line(p).len();
    let b3 = b2 + header(author_key(), author_bytes(a)).len();
    let b4 = b3 + header(committer_key(), author_bytes(a)).len();
    (b1, b2, b3, b4)
}

/// What `Commit::parse` has collected when it reaches `pos` in the payload
/// of the commit `(t, a, p)`.
pub open spec fn scan_state(
    pos: int,
    tree: Option<Seq<u8>>,
    au: Option<Seq<u8>>,
    par: Option<Seq<u8>>,
    t: Seq<char>,
    a: Author,
    p: Option<Seq<char>>,
) -> bool {
    let (b1, b2, b3, b4) = line_starts(t, a, p);
    let tv = Some(encode_utf8(t));
    let av = Some(author_bytes(a));
    let pv = opt_bytes(p);
    ||| pos == 0 && tree is None && au is None && par is None
    ||| pos == b1 && tree == tv && au is None && par is None
    ||| pos == b2 && tree == tv && au is None && par == pv
    ||| pos == b3 && tree == tv && au == av && par == pv
    ||| pos == b4 && tree == tv && au == av && par == pv
}

/// A header line `key value` stands at `s`: the first space after `s` ends
/// the key and the first newline ends the value.
proof fn lemma_line_at(d: Seq<u8>, s: int, key: Seq<u8>, value: Seq<u8>)
    requires
        0 <= s,
        s + key.len() + value.len() + 2 <= d.len(),
        d.subrange(s, s + key.len() + value.len() + 2) == header(key, value),
        !key.contains(32u8),
        !key.contains(10u8),
        !value.contains(10u8),
    ensures
        d[s + key.len()] == 32u8,
        forall|k: int| s <= k < s + key.len() ==> d[k] != 32u8,
        d[s + key.len() + value.len() + 1] == 10u8,
        forall|k: int| s <= k < s + key.len() + value.len() + 1 ==> d[k] != 10u8,
        d.subrange(s, s + key.len()) == key,
        d.subrange(s + key.len() + 1, s + key.len() + value.len() + 1) == value,
{
    let h = header(key, value);
    assert forall|k: int| 0 <= k < h.len() implies d[s + k] == h[k] by {
        assert(d.subrange(s, s + h.len())[k] == d[s + k]);
    }
    assert forall|k: int| s <= k < s + key.len() implies d[k] != 32u8 && d[k] != 10u8 by {
        assert(d[s + (k - s)] == h[k - s]);
        assert(h[k - s] == key[k - s]);
        if d[k] == 32u8 || d[k] == 10u8 {
            assert(key.contains(d[k]));
        }
    }
    assert forall|k: int| s + key.len() < k < s + key.len() + value.len() + 1 implies d[k] != 10u8 by {
        assert(d[s + (k - s)] == h[k - s]);
        assert(h[k - s] == value[k - s - key.len() - 1]);
        if d[k] == 10u8 {
            assert(value.contains(10u8));
        }
    }
    assert(d[s + key.len()] == h[key.len() as int]);
    assert(d[s + key.len() + value.len() + 1] == h[key.len() + value.len() + 1 as int]);
    assert(d.subrange(s, s + key.len()) =~= key);
    assert forall|j: int| 0 <= j < value.len() implies d.subrange(s + key.len() + 1, s + key.len() + value.len() + 1)[j]
        == value[j] by {
        assert(d[s + (key.len() + 1 + j)] == h[key.len() + 1 + j]);
    }
    assert(d.subrange(s + key.len() + 1, s + key.len() + value.len() + 1) =~= value);
}

/// The header lines of a commit payload, one after the other.
proof fn lemma_commit_layout(d: Seq<u8>, t: Seq<char>, a: Author, m: Seq<char>, p: Option<Seq<char>>)
    requires
        d == commit_payload(t, a, m, p),
    ensures
        ({
            let (b1, b2, b3, b4) = line_starts(t, a, p);
            let ab = author_bytes(a);
            &&& d.subrange(0, b1) == header(tree_key(), encode_utf8(t))
            &&& (p matches Some(q) ==> d.subrange(b1, b2) == header(parent_key(), encode_utf8(q)))
            &&& (p is None ==> b2 == b1)
            &&& d.subrange(b2, b3) == header(author_key(), ab)
            &&& d.subrange(b3, b4) == header(committer_key(), ab)
            &&& b4 < d.len()
            &&& d[b4] == 10u8
            &&& d.subrange(b4 + 1, d.len() as int) == encode_utf8(m)
            &&& 0 < b1 <= b2 < b3 < b4
        }),
{
    let (b1, b2, b3, b4) = line_starts(t, a, p);
    let ab = author_bytes(a);
    let l0 = header(tree_key(), encode_utf8(t));
    let l1 = parent_line(p);
    let l2 = header(author_key(), ab);
    let l3 = header(committer_key(), ab);
    assert(d =~= l0 + l1 + l2 + l3 + seq![10u8] + encode_utf8(m));
    assert(d.subrange(0, b1) =~= l0);
    assert(d.subrange(b1, b2) =~= l1);
    assert(d.subrange(b2, b3) =~= l2);
    assert(d.subrange(b3, b4) =~= l3);
    assert(d.subrange(b4 + 1, d.len() as int) =~= encode_utf8(m));
}

/// The key and value of the header line of the commit `(t, a, p)` that
/// starts at `pos`.
pub open spec fn line_kv(pos: int, t: Seq<char>, a: Author, p: Option<Seq<char>>) -> (Seq<u8>, Seq<u8>) {
    let (b1, b2, b3, b4) = line_starts(t, a, p);
    if pos == 0 {
        (tree_key(), encode_utf8(t))
    } else if pos == b1 && p is Some {
        (parent_key(), encode_utf8(p->0))
    } else if pos == b2 {
        (author_key(), author_bytes(a))
    } else {
        (committer_key(), author_bytes(a))
    }
}

/// `cur`, or `v` when the line just read was the header in question.
pub open spec fn updated(cur: Option<Seq<u8>>, hit: bool, v: Seq<u8>) -> Option<Seq<u8>> {
    if hit {
        Some(v)
    } else {
        cur
    }
}

/// Reading the header line at `pos` takes `Commit::parse` from one state
/// of the scan to the next.
#[verifier::rlimit(60)]
proof fn lemma_scan_step(
    d: Seq<u8>,
    pos: int,
    tree: Option<Seq<u8>>,
    au: Option<Seq<u8>>,
    par: Option<Seq<u8>>,
    t: Seq<char>,
    a: Author,
    m: Seq<char>,
    p: Option<Seq<char>>,
)
    requires
        commit_parsable(t, a, p),
        d == commit_payload(t, a, m, p),
        scan_state(pos, tree, au, par, t, a, p),
        0 <= pos < d.len(),
        d[pos] != 10u8,
    ensures
        ({
            let (key, value) = line_kv(pos, t, a, p);
            let next = pos + key.len() + value.len() + 2;
            &&& next <= d.len()
            &&& d[pos + key.len()] == 32u8
            &&& (forall|k: int| pos <= k < pos + key.len() ==> d[k] != 32u8)
            &&& d[next - 1] == 10u8
            &&& (forall|k: int| pos <= k < next - 1 ==> d[k] != 10u8)
            &&& d.subrange(pos, pos + key.len()) == key
            &&& d.subrange(pos + key.len() + 1, next - 1) == value
            &&& scan_state(
                next,
                updated(tree, key == tree_key(), value),
                updated(au, key == author_key(), value),
                updated(par, key == parent_key(), value),
                t,
                a,
                p,
            )
        }),
{
    lemma_commit_layout(d, t, a, m, p);
    let (b1, b2, b3, b4) = line_starts(t, a, p);
    let (key, value) = line_kv(pos, t, a, p);
    let ab = author_bytes(a);
    assert(pos != b4);
    assert(!tree_key().contains(32u8) && !tree_key().contains(10u8)) by {
        assert(forall|k: int| 0 <= k < tree_key().len() ==> tree_key()[k] != 32u8 && tree_key()[k] != 10u8);
    }
    assert(!author_key().contains(32u8) && !author_key().contains(10u8)) by {
        assert(forall|k: int| 0 <= k < author_key().len() ==> author_key()[k] != 32u8 && author_key()[k] != 10u8);
    }
    assert(!parent_key().contains(32u8) && !parent_key().contains(10u8)) by {
        assert(forall|k: int| 0 <= k < parent_key().len() ==> parent_key()[k] != 32u8 && parent_key()[k] != 10u8);
    }
    assert(!committer_key().contains(32u8) && !committer_key().contains(10u8)) by {
        assert(forall|k: int| 0 <= k < committer_key().len() ==> committer_key()[k] != 32u8 && committer_key()[k]
            != 10u8);
    }
    assert(tree_key() != author_key() && tree_key() != parent_key() && tree_key() != committer_key()) by {
        assert(tree_key().len() != author_key().len());
        assert(tree_key().len() != committer_key().len());
    }
    assert(author_key() != parent_key() && author_key() != committer_key()) by {
        assert(author_key()[0] != parent_key()[0]);
        assert(author_key().len() != committer_key().len());
    }
    assert(parent_key() != committer_key()) by {
        assert(parent_key().len() != committer_key().len());
    }
    let next = pos + key.len() + value.len() + 2;
    if pos == 0 {
        assert(d.subrange(0, b1) == header(key, value));
        assert(next == b1);
    } else if pos == b1 && p is Some {
        assert(next == b2);
    } else if pos == b2 {
        assert(next == b3);
    } else {
        assert(pos == b3);
        assert(next == b4);
    }
    assert(d.subrange(pos, next) == header(key, value));
    lemma_line_at(d, pos, key, value);
}

/// The view of an optional string.
pub open spec fn opt_view(o: Option<String>) -> Option<Seq<char>> {
    match o {
        Some(s) => Some(s@),
        None => None,
    }
}

/// A header line `key value` that starts a line of `p` and ends, with its
/// newline, by `end`.
pub open spec fn has_header(p: Seq<u8>, end: int, key: Seq<u8>, value: Seq<u8>) -> bool {
    exists|s: int|
        0 <= s && s + key.len() + value.len() + 2 <= end && (s == 0 || p[s - 1] == 10u8) && #[trigger] p.subrange(
            s,
            s + key.len() + value.len() + 2,
        ) == key + seq![32u8] + value + seq![10u8]
}

/// Appends a header line.
fn push_header(out: &mut Vec<u8>, key: &[u8], value: &[u8])
    ensures
        final(out)@ == old(out)@ + header(key@, value@),
{
    push_all(out, key);
    out.push(32u8);
    push_all(out, value);
    out.push(10u8);
    assert(final(out)@ =~= old(out)@ + header(key@, value@));
}

/// Appends the payload of a commit.
fn write_payload(out: &mut Vec<u8>, tree_ref: &String, author: &Author, message: &String, parent: &Option<String>)
    requires
        author.wf(),
    ensures
        final(out)@ == old(out)@ + commit_payload(tree_ref@, *author, message@, opt_view(*parent)),
{
    let ghost start = out@;
    let tk: Vec<u8> = vec![116u8, 114u8, 101u8, 101u8];
    let pk: Vec<u8> = vec![112u8, 97u8, 114u8, 101u8, 110u8, 116u8];
    let ak: Vec<u8> = vec![97u8, 117u8, 116u8, 104u8, 111u8, 114u8];
    let ck: Vec<u8> = vec![99u8, 111u8, 109u8, 109u8, 105u8, 116u8, 116u8, 101u8, 114u8];
    assert(tk@ =~= tree_key() && pk@ =~= parent_key() && ak@ =~= author_key() && ck@ =~= committer_key());
    push_header(out, tk.as_slice(), tree_ref.as_str().as_bytes());
    match parent {
        Some(p) => {
            push_header(out, pk.as_slice(), p.as_str().as_bytes());
        },
        None => {},
    }
    let a = author.to_bytes();
    push_header(out, ak.as_slice(), a.as_slice());
    push_header(out, ck.as_slice(), a.as_slice());
    out.push(10u8);
    push_all(out, message.as_str().as_bytes());
    assert(out@ =~= start + commit_payload(tree_ref@, *author, message@, opt_view(*parent)));
}

/// Reading the line that ends at `e` updates the scan as the commit's
/// layout says.
proof fn lemma_scan_update(
    d: Seq<u8>,
    pos: int,
    sp: int,
    e: int,
    tree: Option<Seq<u8>>,
    au: Option<Seq<u8>>,
    par: Option<Seq<u8>>,
    t: Seq<char>,
    a: Author,
    m: Seq<char>,
    p: Option<Seq<char>>,
)
    requires
        commit_parsable(t, a, p),
        d == commit_payload(t, a, m, p),
        scan_state(pos, tree, au, par, t, a, p),
        d[pos] != 10u8,
        line_ends(d, pos, sp, e),
    ensures
        ({
            let kb = d.subrange(pos, sp);
            let vb = d.subrange(sp + 1, e);
            scan_state(
                e + 1,
                updated(tree, kb == tree_key(), vb),
                updated(au, kb == author_key(), vb),
                updated(par, kb == parent_key(), vb),
                t,
                a,
                p,
            )
        }),
{
    lemma_scan_step(d, pos, tree, au, par, t, a, m, p);
    let (k2, v2) = line_kv(pos, t, a, p);
    let z = pos + k2.len() + v2.len() + 1;
    let y = pos + k2.len();
    lemma_line_ends_unique(d, pos, y, z, sp, e);
}

/// At the blank line the scan has collected the commit's tree, author and
/// parent, and the message follows.
proof fn lemma_scan_end(
    d: Seq<u8>,
    h: int,
    tv: Option<Seq<u8>>,
    av: Option<Seq<u8>>,
    pv: Option<Seq<u8>>,
    t: Seq<char>,
    a: Author,
    m: Seq<char>,
    p: Option<Seq<char>>,
)
    requires
        commit_parsable(t, a, p),
        d == commit_payload(t, a, m, p),
        scan_state(h, tv, av, pv, t, a, p),
        0 <= h < d.len(),
        d[h] == 10u8,
    ensures
        tv == Some(encode_utf8(t)),
        av == Some(author_bytes(a)),
        pv == opt_bytes(p),
        d.subrange(h + 1, d.len() as int) == encode_utf8(m),
{
    lemma_commit_layout(d, t, a, m, p);
    let (b1, b2, b3, b4) = line_starts(t, a, p);
    if h != b4 {
        if h == 0 {
            assert(d.subrange(0, b1)[0] == d[0]);
        } else if h == b1 && p is Some {
            assert(d.subrange(b1, b2)[0] == d[b1]);
        } else if h == b2 {
            assert(d.subrange(b2, b3)[0] == d[b2]);
        } else {
            assert(d.subrange(b3, b4)[0] == d[b3]);
        }
    }
}

/// What the scan collected from the payload of the commit `(t, a, m, p)`
/// gives back its tree, message and parent, and the author's line.
proof fn lemma_parsed_commit(
    d: Seq<u8>,
    h: int,
    tv: Option<Seq<u8>>,
    av: Option<Seq<u8>>,
    pv: Option<Seq<u8>>,
    c_tree: Seq<char>,
    c_msg: Seq<char>,
    c_parent: Option<Seq<char>>,
    t: Seq<char>,
    a: Author,
    m: Seq<char>,
    p: Option<Seq<char>>,
)
    requires
        commit_parsable(t, a, p),
        d == commit_payload(t, a, m, p),
        scan_state(h, tv, av, pv, t, a, p),
        0 <= h < d.len(),
        d[h] == 10u8,
        tv == Some(encode_utf8(c_tree)),
        encode_utf8(c_msg) == d.subrange(h + 1, d.len() as int),
        pv == opt_bytes(c_parent),
    ensures
        c_tree == t,
        c_msg == m,
        c_parent == p,
        av == Some(author_bytes(a)),
{
    lemma_scan_end(d, h, tv, av, pv, t, a, m, p);
    encode_utf8_decode_utf8(t);
    encode_utf8_decode_utf8(c_tree);
    encode_utf8_decode_utf8(m);
    encode_utf8_decode_utf8(c_msg);
    match p {
        Some(q) => {
            encode_utf8_decode_utf8(q);
            encode_utf8_decode_utf8(c_parent->0);
        },
        None => {},
    }
}

/// Which header a key names: 1 for `tree`, 2 for `author`, 3 for
/// `parent`, 0 for any other.
fn header_kind(key: &[u8]) -> (r: u8)
    ensures
        r == 1 <==> key@ == tree_key(),
        r == 2 <==> key@ == author_key(),
        r == 3 <==> key@ == parent_key(),
{
    let t: Vec<u8> = vec![116u8, 114u8, 101u8, 101u8];
    let a: Vec<u8> = vec![97u8, 117u8, 116u8, 104u8, 111u8, 114u8];
    let p: Vec<u8> = vec![112u8, 97u8, 114u8, 101u8, 110u8, 116u8];
    assert(t@ =~= tree_key() && a@ =~= author_key() && p@ =~= parent_key());
    assert(tree_key() != author_key() && tree_key() != parent_key()) by {
        assert(tree_key().len() != author_key().len());
    }
    assert(author_key() != parent_key()) by {
        assert(author_key()[0] != parent_key()[0]);
    }
    if bytes_eq(key, t.as_slice()) {
        1
    } else if bytes_eq(key, a.as_slice()) {
        2
    } else if bytes_eq(key, p.as_slice()) {
        3
    } else {
        0
    }
}

/// The line at `pos` is a header line of the payload, ending by `e + 1`.
proof fn lemma_line_header(d: Seq<u8>, pos: int, sp: int, e: int)
    requires
        line_ends(d, pos, sp, e),
        pos == 0 || d[pos - 1] == 10u8,
    ensures
        has_header(d, e + 1, d.subrange(pos, sp), d.subrange(sp + 1, e)),
{
    let kb = d.subrange(pos, sp);
    let vb = d.subrange(sp + 1, e);
    assert(d.subrange(pos, e + 1) =~= kb + seq![32u8] + vb + seq![10u8]);
    assert(pos + kb.len() + vb.len() + 2 == e + 1);
}

/// A header line found before `pos` is still found before any later end.
proof fn lemma_header_later(d: Seq<u8>, pos: int, end: int, key: Seq<u8>, v: Option<Seq<u8>>)
    requires
        pos <= end,
        v matches Some(x) ==> has_header(d, pos, key, x),
    ensures
        v matches Some(x) ==> has_header(d, end, key, x),
{
    if v is Some {
        let x = v->0;
        let s = choose|s: int|
            0 <= s && s + key.len() + x.len() + 2 <= pos && (s == 0 || d[s - 1] == 10u8) && #[trigger] d.subrange(
                s,
                s + key.len() + x.len() + 2,
            ) == key + seq![32u8] + x + seq![10u8];
        assert(d.subrange(s, s + key.len() + x.len() + 2) == key + seq![32u8] + x + seq![10u8]);
    }
}

/// The line at `pos` has its first space at `sp` and ends with the
/// newline at `e`.
pub open spec fn line_ends(d: Seq<u8>, pos: int, sp: int, e: int) -> bool {
    &&& 0 <= pos <= sp < e < d.len()
    &&& d[e] == 10u8
    &&& (forall|k: int| pos <= k < e ==> d[k] != 10u8)
    &&& d[sp] == 32u8
    &&& (forall|k: int| pos <= k < sp ==> d[k] != 32u8)
}

proof fn lemma_line_ends_unique(d: Seq<u8>, pos: int, sp: int, e: int, sp2: int, e2: int)
    requires
        line_ends(d, pos, sp, e),
        line_ends(d, pos, sp2, e2),
    ensures
        sp == sp2,
        e == e2,
{
    if e < e2 {
        assert(d[e] != 10u8);
    }
    if e2 < e {
        assert(d[e2] != 10u8);
    }
    if sp < sp2 {
        assert(d[sp] != 32u8);
    }
    if sp2 < sp {
        assert(d[sp2] != 32u8);
    }
}

/// Finds the first space and the ending newline of the line at `pos`.
fn read_line(payload: &[u8], pos: usize) -> (r: Option<(usize, usize)>)
    requires
        pos < payload@.len(),
    ensures
        r matches Some((sp, e)) ==> line_ends(payload@, pos as int, sp as int, e as int),
        forall|sp: int, e: int| line_ends(payload@, pos as int, sp, e) ==> r == Some((sp as usize, e as usize)),
{
    let n = payload.len();
    let mut e: usize = pos;
    while e < n && payload[e] != 10u8
        invariant
            pos <= e <= n,
            n == payload@.len(),
            forall|k: int| pos <= k < e ==> payload@[k] != 10u8,
        decreases n - e,
    {
        e = e + 1;
    }
    if e == n {
        proof {
            assert forall|a: int, b: int| !line_ends(payload@, pos as int, a, b) by {
                if line_ends(payload@, pos as int, a, b) {
                    assert(payload@[b] != 10u8);
                }
            }
        }
        return None;
    }
    let mut sp: usize = pos;
    while sp < e && payload[sp] != 32u8
        invariant
            pos <= sp <= e,
            e < n == payload@.len(),
            forall|k: int| pos <= k < sp ==> payload@[k] != 32u8,
        decreases e - sp,
    {
        sp = sp + 1;
    }
    if sp == e {
        proof {
            assert forall|a: int, b: int| !line_ends(payload@, pos as int, a, b) by {
                if line_ends(payload@, pos as int, a, b) {
                    if b > e {
                        assert(payload@[e as int] != 10u8);
                    }
                    if b < e {
                        assert(payload@[b] != 10u8);
                    }
                    assert(payload@[a] != 32u8);
                }
            }
        }
        return None;
    }
    proof {
        assert forall|a: int, b: int| line_ends(payload@, pos as int, a, b) implies a == sp && b == e by {
            lemma_line_ends_unique(payload@, pos as int, sp as int, e as int, a, b);
        }
    }
    Some((sp, e))
}

/// The headers of a commit payload, up to the blank line that ends them:
/// its position, and the last `tree`, `author` and `parent` values.
#[verifier::rlimit(100)]
fn scan_headers(payload: &[u8]) -> (r: Result<(usize, Option<Vec<u8>>, Option<Vec<u8>>, Option<Vec<u8>>), Error>)
    ensures
        r matches Ok((pos, tree, author_line, parent)) ==> {
            &&& pos < payload@.len()
            &&& payload@[pos as int] == 10u8
            &&& (pos == 0 || payload@[pos - 1] == 10u8)
            &&& (tree matches Some(v) ==> has_header(payload@, pos as int, tree_key(), v@))
            &&& (author_line matches Some(v) ==> has_header(payload@, pos as int, author_key(), v@))
            &&& (parent matches Some(v) ==> has_header(payload@, pos as int, parent_key(), v@))
            &&& forall|t: Seq<char>, a: Author, m: Seq<char>, p: Option<Seq<char>>|
                commit_parsable(t, a, p) && payload@ == #[trigger] commit_payload(t, a, m, p) ==> scan_state(
                    pos as int,
                    vec_bytes(tree),
                    vec_bytes(author_line),
                    vec_bytes(parent),
                    t,
                    a,
                    p,
                )
        },
        r matches Err(e) ==> e == Error::MalformedCommit,
        forall|t: Seq<char>, a: Author, m: Seq<char>, p: Option<Seq<char>>|
            commit_parsable(t, a, p) && payload@ == #[trigger] commit_payload(t, a, m, p) ==> r is Ok,
{
    let n = payload.len();
    let mut pos: usize = 0;
    let mut tree: Option<Vec<u8>> = None;
    let mut author_line: Option<Vec<u8>> = None;
    let mut parent: Option<Vec<u8>> = None;
    loop
        invariant
            n == payload@.len(),
            pos <= n,
            pos == 0 || payload@[pos - 1] == 10u8,
            tree matches Some(v) ==> has_header(payload@, pos as int, tree_key(), v@),
            author_line matches Some(v) ==> has_header(payload@, pos as int, author_key(), v@),
            parent matches Some(v) ==> has_header(payload@, pos as int, parent_key(), v@),
            forall|t: Seq<char>, a: Author, m: Seq<char>, p: Option<Seq<char>>|
                commit_parsable(t, a, p) && payload@ == #[trigger] commit_payload(t, a, m, p) ==> scan_state(
                    pos as int,
                    vec_bytes(tree),
                    vec_bytes(author_line),
                    vec_bytes(parent),
                    t,
                    a,
                    p,
                ),
        ensures
            pos < n,
            payload@[pos as int] == 10u8,
            pos == 0 || payload@[pos - 1] == 10u8,
            tree matches Some(v) ==> has_header(payload@, pos as int, tree_key(), v@),
            author_line matches Some(v) ==> has_header(payload@, pos as int, author_key(), v@),
            parent matches Some(v) ==> has_header(payload@, pos as int, parent_key(), v@),
            forall|t: Seq<char>, a: Author, m: Seq<char>, p: Option<Seq<char>>|
                commit_parsable(t, a, p) && payload@ == #[trigger] commit_payload(t, a, m, p) ==> scan_state(
                    pos as int,
                    vec_bytes(tree),
                    vec_bytes(author_line),
                    vec_bytes(parent),
                    t,
                    a,
                    p,
                ),
        decreases n - pos,
    {
        if pos >= n {
            proof {
                assert forall|t: Seq<char>, a: Author, m: Seq<char>, p: Option<Seq<char>>|
                    commit_parsable(t, a, p) && payload@ == #[trigger] commit_payload(t, a, m, p) implies false by {
                    lemma_commit_layout(payload@, t, a, m, p);
                }
            }
            return Err(Error::MalformedCommit);
        }
        if payload[pos] == 10u8 {
            break;
        }
        let (sp, e) = match read_line(payload, pos) {
            Some(x) => x,
            None => {
                proof {
                    assert forall|t: Seq<char>, a: Author, m: Seq<char>, p: Option<Seq<char>>|
                        commit_parsable(t, a, p) && payload@ == #[trigger] commit_payload(t, a, m, p) implies false by {
                        lemma_scan_step(payload@, pos as int, vec_bytes(tree), vec_bytes(author_line), vec_bytes(parent), t, a, m, p);
                        let kv = line_kv(pos as int, t, a, p);
                        assert(line_ends(payload@, pos as int, pos + kv.0.len(), pos + kv.0.len() + kv.1.len() + 1));
                    }
                }
                return Err(Error::MalformedCommit);
            },
        };
        let key = copy_range(payload, pos, sp);
        let value = copy_range(payload, sp + 1, e);
        let ghost kb = key@;
        let ghost vb = value@;
        let ghost st = (vec_bytes(tree), vec_bytes(author_line), vec_bytes(parent));
        let kind = header_kind(key.as_slice());
        proof {
            lemma_line_header(payload@, pos as int, sp as int, e as int);
            lemma_header_later(payload@, pos as int, e + 1, tree_key(), vec_bytes(tree));
            lemma_header_later(payload@, pos as int, e + 1, author_key(), vec_bytes(author_line));
            lemma_header_later(payload@, pos as int, e + 1, parent_key(), vec_bytes(parent));
        }
        if kind == 1 {
            tree = Some(value);
        } else if kind == 2 {
            author_line = Some(value);
        } else if kind == 3 {
            parent = Some(value);
        }
        proof {
            assert forall|t: Seq<char>, a: Author, m: Seq<char>, p: Option<Seq<char>>|
                commit_parsable(t, a, p) && payload@ == #[trigger] commit_payload(t, a, m, p) implies scan_state(
                    e + 1,
                    vec_bytes(tree),
                    vec_bytes(author_line),
                    vec_bytes(parent),
                    t,
                    a,
                    p,
                ) by {
                lemma_scan_update(payload@, pos as int, sp as int, e as int, st.0, st.1, st.2, t, a, m, p);
            }
        }
        pos = e + 1;
    }
    Ok((pos, tree, author_line, parent))
}

impl Commit {
    /// A commit; its id is `oid` when given (a loaded commit), else the
    /// digest of its record.
    pub fn new(tree_ref: String, author: Author, message: String, parent: Option<String>, oid: Option<Vec<u8>>) -> (r: Commit)
        requires
            author.wf(),
        ensures
            r.tree_ref@ == tree_ref@,
            r.author == author,
            r.message@ == message@,
            opt_view(r.parent) == opt_view(parent),
            oid matches Some(o) ==> r.oid@ == o@,
            oid is None ==> r.oid@ == sha1_of(frame(commit_tag(), commit_payload(tree_ref@, author, message@, opt_view(parent)))),
    {
        let digest = match oid {
            Some(o) => o,
            None => {
                let mut payload: Vec<u8> = Vec::new();
                write_payload(&mut payload, &tree_ref, &author, &message, &parent);
                let tag: Vec<u8> = vec![99u8, 111u8, 109u8, 109u8, 105u8, 116u8];
                assert(tag@ =~= commit_tag());
                let data = frame_object(tag.as_slice(), payload.as_slice());
                sha1(data.as_slice())
            },
        };
        Commit { tree_ref, author, parent, message, oid: digest }
    }

    /// Reads a commit payload: header lines up to a blank line, then the
    /// message. `tree` and `author` are required; of a repeated header the
    /// last counts; other headers are skipped.
    #[verifier::rlimit(100)]
    pub fn parse(payload: &[u8], oid: Vec<u8>) -> (r: Result<Commit, Error>)
        ensures
            r matches Ok(c) ==> {
                &&& c.author.wf()
                &&& c.oid@ == oid@
                &&& exists|h: int| #[trigger] read_at(payload@, c, h)
            },
            r matches Err(e) ==> e == Error::MalformedCommit,
            forall|t: Seq<char>, a: Author, m: Seq<char>, p: Option<Seq<char>>|
                commit_parsable(t, a, p) && payload@ == #[trigger] commit_payload(t, a, m, p) ==> (r matches Ok(c) && {
                    &&& c.tree_ref@ == t
                    &&& c.author.name@ == a.name@
                    &&& c.author.email@ == a.email@
                    &&& c.author.time == a.time
                    &&& c.author.offset_minutes == a.offset_minutes
                    &&& c.message@ == m
                    &&& opt_view(c.parent) == p
                }),
    {
        let ghost any = exists|t: Seq<char>, a: Author, m: Seq<char>, p: Option<Seq<char>>|
            commit_parsable(t, a, p) && payload@ == #[trigger] commit_payload(t, a, m, p);
        let ghost w = if any {
            choose|t: Seq<char>, a: Author, m: Seq<char>, p: Option<Seq<char>>|
                commit_parsable(t, a, p) && payload@ == #[trigger] commit_payload(t, a, m, p)
        } else {
            arbitrary()
        };
        let n = payload.len();
        let (pos, tree, author_line, parent) = match scan_headers(payload) {
            Ok(x) => x,
            Err(e) => {
                return Err(e);
            },
        };
        let h = pos;
        let ghost tv = tree;
        let ghost av = author_line;
        let ghost pv = parent;
        assert(any ==> {
            &&& vec_bytes(tv) == Some(encode_utf8(w.0)) && valid_utf8(encode_utf8(w.0))
            &&& vec_bytes(av) == Some(author_bytes(w.1)) && author_parsable(w.1)
            &&& vec_bytes(pv) == opt_bytes(w.3) && (w.3 matches Some(q) ==> valid_utf8(encode_utf8(q)))
            &&& valid_utf8(payload@.subrange(h + 1, n as int))
        }) by {
            if any {
                lemma_scan_end(payload@, h as int, vec_bytes(tv), vec_bytes(av), vec_bytes(pv), w.0, w.1, w.2, w.3);
                encode_utf8_valid_utf8(w.0);
                encode_utf8_valid_utf8(w.2);
                if w.3 is Some {
                    encode_utf8_valid_utf8(w.3->0);
                }
            }
        }
        let tree_bytes = match tree {
            Some(t) => t,
            None => {
                return Err(Error::MalformedCommit);
            },
        };
        let tree_ref = match utf8_string(tree_bytes.as_slice()) {
            Some(s) => s,
            None => {
                return Err(Error::MalformedCommit);
            },
        };
        let author = match author_line {
            Some(a) => match Author::parse(a.as_slice()) {
                Ok(a) => a,
                Err(_) => {
                    return Err(Error::MalformedCommit);
                },
            },
            None => {
                return Err(Error::MalformedCommit);
            },
        };
        let parent_ref = match parent {
            Some(p) => match utf8_string(p.as_slice()) {
                Some(s) => Some(s),
                None => {
                    return Err(Error::MalformedCommit);
                },
            },
            None => None,
        };
        let msg_bytes = copy_range(payload, h + 1, n);
        let message = match utf8_string(msg_bytes.as_slice()) {
            Some(s) => s,
            None => {
                return Err(Error::MalformedCommit);
            },
        };
        proof {
            decode_utf8_encode_utf8(tree_bytes@);
            decode_utf8_encode_utf8(msg_bytes@);
            if pv is Some {
                decode_utf8_encode_utf8(pv->0@);
            }
            assert(tv == Some(tree_bytes));
            assert(has_header(payload@, h as int, tree_key(), encode_utf8(tree_ref@)));
            assert(has_header(payload@, h as int, author_key(), author_bytes(author)));
            assert(msg_bytes@ == payload@.subrange(h + 1, payload@.len() as int));
            assert(encode_utf8(message@) == payload@.subrange(h + 1, payload@.len() as int));
            if parent_ref is Some {
                assert(pv is Some);
                assert(parent_ref->0@ == decode_utf8(pv->0@));
                assert(has_header(payload@, h as int, parent_key(), encode_utf8(parent_ref->0@)));
            }
        }
        let c = Commit { tree_ref, author, parent: parent_ref, message, oid };
        proof {
            let hh = h as int;
            assert(0 <= hh < payload@.len() && payload@[hh] == 10u8 && (hh == 0 || payload@[hh - 1] == 10u8));
            assert(c.parent matches Some(p) ==> has_header(payload@, hh, parent_key(), encode_utf8(p@)));
            assert(read_at(payload@, c, hh));
            assert forall|t: Seq<char>, a: Author, m: Seq<char>, p: Option<Seq<char>>|
                commit_parsable(t, a, p) && payload@ == #[trigger] commit_payload(t, a, m, p) implies {
                &&& c.tree_ref@ == t
                &&& c.author.name@ == a.name@
                &&& c.author.email@ == a.email@
                &&& c.author.time == a.time
                &&& c.author.offset_minutes == a.offset_minutes
                &&& c.message@ == m
                &&& opt_view(c.parent) == p
            } by {
                lemma_parsed_commit(payload@, hh, vec_bytes(tv), vec_bytes(av), vec_bytes(pv), c.tree_ref@, c.message@, opt_view(c.parent), t, a, m, p);
            }
        }
        Ok(c)
    }
}

impl Object for Commit {
    open spec fn tag(&self) -> Seq<u8> {
        commit_tag()
    }

    open spec fn payload(&self) -> Seq<u8> {
        if self.author.wf() {
            commit_payload(self.tree_ref@, self.author, self.message@, opt_view(self.parent))
        } else {
            Seq::empty()
        }
    }

    fn get_data(&self) -> (r: Vec<u8>) {
        let mut out: Vec<u8> = Vec::new();
        if self.author.wf_exec() {
            write_payload(&mut out, &self.tree_ref, &self.author, &self.message, &self.parent);
        }
        out
    }

    fn type_(&self) -> (r: &'static str) {
        proof {
            reveal_strlit("commit");
        }
        "commit"
    }

    fn encode(&self) -> (r: Vec<u8>) {
        let payload = self.get_data();
        let tag: Vec<u8> = vec![99u8, 111u8, 109u8, 109u8, 105u8, 116u8];
        assert(tag@ =~= commit_tag());
        frame_object(tag.as_slice(), payload.as_slice())
    }

    fn get_oid(&self) -> (r: Vec<u8>) {
        let data = self.encode();
        sha1(data.as_slice())
    }
}

} // verus!
