use vstd::prelude::*;
use vstd::utf8::{decode_utf8, encode_utf8, valid_utf8, decode_utf8_encode_utf8};
use crate::bytes::{
    lex_lt, bytes_lt, push_all, copy_range, lemma_lex_total, lemma_lex_transitive, lemma_lex_irreflexive,
    strictly_sorted_by, lemma_sorted_same_elements,
};
use crate::digest::{sha1, sha1_of};
use crate::entry::{Entry, TreeEntryModel, name_key, tree_entry_bytes, tree_payload, tree_object};
use crate::error::Error;
use crate::object::{Object, frame, frame_object, tree_tag};

verus! {

/// The values of a vector of entries.
pub open spec fn entries_view(v: Seq<Entry>) -> Seq<TreeEntryModel> {
    v.map_values(|e: Entry| e@)
}

/// Entries in strictly increasing order of their names' bytes.
pub open spec fn sorted_by_name(s: Seq<TreeEntryModel>) -> bool {
    forall|i: int, j: int| 0 <= i < j < s.len() ==> lex_lt(name_key(s[i]), name_key(s[j]))
}

/// No two entries share a name.
pub open spec fn distinct_names(s: Seq<TreeEntryModel>) -> bool {
    forall|i: int, j: int| 0 <= i < j < s.len() ==> name_key(s[i]) != name_key(s[j])
}

/// The order of names as a key function.
pub open spec fn name_order() -> spec_fn(TreeEntryModel) -> Seq<u8> {
    |m: TreeEntryModel| name_key(m)
}

/// Two trees built from the same entries, whatever order they were given
/// in, hold them in the same order and so have the same bytes and the same
/// object id: `sx` and `sy` are the entry lists that `Tree::new_with_entries`
/// makes of `x` and `y`.
pub proof fn lemma_tree_order_independent(
    x: Seq<TreeEntryModel>,
    y: Seq<TreeEntryModel>,
    sx: Seq<TreeEntryModel>,
    sy: Seq<TreeEntryModel>,
)
    requires
        forall|m: TreeEntryModel| x.contains(m) <==> y.contains(m),
        sorted_by_name(sx),
        sorted_by_name(sy),
        forall|m: TreeEntryModel| sx.contains(m) <==> x.contains(m),
        forall|m: TreeEntryModel| sy.contains(m) <==> y.contains(m),
    ensures
        sx == sy,
        tree_object(sx) == tree_object(sy),
        sha1_of(tree_object(sx)) == sha1_of(tree_object(sy)),
{
    assert(strictly_sorted_by(sx, name_order()));
    assert(strictly_sorted_by(sy, name_order()));
    lemma_sorted_same_elements(sx, sy, name_order());
}

/// Inserts `e` into `out` at its place in name order.
fn insert_by_name(out: &mut Vec<Entry>, e: Entry)
    requires
        sorted_by_name(entries_view(old(out)@)),
        forall|k: int| 0 <= k < old(out)@.len() ==> name_key(#[trigger] entries_view(old(out)@)[k]) != name_key(e@),
    ensures
        sorted_by_name(entries_view(final(out)@)),
        forall|m: TreeEntryModel| #[trigger] entries_view(final(out)@).contains(m) <==> (m == e@ || entries_view(
            old(out)@,
        ).contains(m)),
{
    let ghost old_v = entries_view(out@);
    let ghost key = name_key(e@);
    let mut i: usize = 0;
    while i < out.len() && bytes_lt(out[i].name.as_str().as_bytes(), e.name.as_str().as_bytes())
        invariant
            entries_view(out@) == old_v,
            key == name_key(e@),
            i <= old_v.len(),
            forall|k: int| 0 <= k < i ==> lex_lt(name_key(#[trigger] old_v[k]), key),
        decreases old_v.len() - i,
    {
        assert(out@[i as int]@ == old_v[i as int]);
        i = i + 1;
    }
    proof {
        if i < old_v.len() {
            assert(out@[i as int]@ == old_v[i as int]);
            lemma_lex_total(name_key(old_v[i as int]), key);
        }
    }
    out.insert(i, e);
    proof {
        let n = entries_view(out@);
        assert(n =~= old_v.insert(i as int, e@));
        assert forall|k: int| i <= k < old_v.len() implies lex_lt(key, name_key(#[trigger] old_v[k])) by {
            if k > i {
                lemma_lex_transitive(key, name_key(old_v[i as int]), name_key(old_v[k]));
            }
        }
        assert forall|a: int, b: int| 0 <= a < b < n.len() implies lex_lt(name_key(n[a]), name_key(n[b])) by {
            if a < i && b == i {
            } else if a == i {
                assert(n.len() == old_v.len() + 1);
                assert(old_v.insert(i as int, e@)[b] == old_v[b - 1]);
                assert(n[b] == old_v[b - 1]);
            } else if a < i && b > i {
                assert(n[b] == old_v[b - 1]);
                lemma_lex_transitive(name_key(n[a]), key, name_key(n[b]));
            } else {
                let ao = if a < i { a } else { a - 1 };
                let bo = if b < i { b } else { b - 1 };
                assert(n[a] == old_v[ao]);
                assert(n[b] == old_v[bo]);
            }
        }
        assert forall|m: TreeEntryModel| n.contains(m) <==> (m == e@ || old_v.contains(m)) by {
            if n.contains(m) && m != e@ {
                let k = choose|k: int| 0 <= k < n.len() && n[k] == m;
                let ko = if k < i { k } else { k - 1 };
                assert(old_v[ko] == m);
            }
            if old_v.contains(m) {
                let k = choose|k: int| 0 <= k < old_v.len() && old_v[k] == m;
                let kn = if k < i { k } else { k + 1 };
                assert(n[kn] == m);
            }
            if m == e@ {
                assert(n[i as int] == m);
            }
        }
    }
}

/// The same entries in name order.
fn sort_by_name(entries: Vec<Entry>) -> (r: Vec<Entry>)
    requires
        distinct_names(entries_view(entries@)),
    ensures
        sorted_by_name(entries_view(r@)),
        forall|m: TreeEntryModel| entries_view(r@).contains(m) <==> entries_view(entries@).contains(m),
{
    let ghost orig = entries_view(entries@);
    let mut rest = entries;
    let mut out: Vec<Entry> = Vec::new();
    assert(entries_view(rest@) =~= orig.take(orig.len() as int));
    while rest.len() > 0
        invariant
            rest@.len() <= orig.len(),
            entries_view(rest@) == orig.take(rest@.len() as int),
            distinct_names(orig),
            sorted_by_name(entries_view(out@)),
            forall|m: TreeEntryModel| entries_view(out@).contains(m) <==> (exists|k: int| rest@.len() <= k < orig.len()
                && orig[k] == m),
            forall|a: int, k: int| 0 <= a < out@.len() && 0 <= k < rest@.len() ==> name_key(
                #[trigger] entries_view(out@)[a],
            ) != name_key(#[trigger] orig[k]),
        decreases rest@.len(),
    {
        let ghost n = rest@.len() as int;
        let ghost before = entries_view(out@);
        let e = rest.pop().unwrap();
        proof {
            assert(e@ == entries_view(rest@.push(e))[n - 1]);
            assert(entries_view(rest@.push(e)) == orig.take(n));
            assert(e@ == orig[n - 1]);
            assert(entries_view(rest@) =~= orig.take(n - 1));
            assert forall|k: int| 0 <= k < before.len() implies name_key(#[trigger] before[k]) != name_key(e@) by {
                assert(name_key(before[k]) != name_key(orig[n - 1]));
            }
        }
        insert_by_name(&mut out, e);
        proof {
            let after = entries_view(out@);
            assert forall|m: TreeEntryModel| after.contains(m) <==> (exists|k: int| rest@.len() <= k < orig.len()
                && orig[k] == m) by {
                if after.contains(m) && m != e@ {
                    assert(before.contains(m));
                }
                if exists|k: int| rest@.len() <= k < orig.len() && orig[k] == m {
                    let k = choose|k: int| rest@.len() <= k < orig.len() && orig[k] == m;
                    if k > n - 1 {
                        assert(before.contains(m));
                    }
                }
            }
            assert forall|a: int, k: int| 0 <= a < out@.len() && 0 <= k < rest@.len() implies name_key(
                #[trigger] after[a],
            ) != name_key(#[trigger] orig[k]) by {
                assert(after.contains(after[a]));
                if after[a] == e@ {
                    assert(name_key(orig[k]) != name_key(orig[n - 1]));
                } else {
                    assert(before.contains(after[a]));
                    let b = choose|b: int| 0 <= b < before.len() && before[b] == after[a];
                    assert(name_key(before[b]) != name_key(orig[k]));
                }
            }
        }
    }
    proof {
        assert forall|m: TreeEntryModel| entries_view(out@).contains(m) <==> orig.contains(m) by {
            if orig.contains(m) {
                let k = choose|k: int| 0 <= k < orig.len() && orig[k] == m;
                assert(rest@.len() <= k);
            }
        }
    }
    out
}

/// A directory listing: entries in name order and the tree's object id.
#[derive(Debug)]
pub struct Tree {
    pub entries: Vec<Entry>,
    pub sha1_hash: Vec<u8>,
}

/// The framed tree record of `entries`, written in order.
fn record_of(entries: &Vec<Entry>) -> (r: Vec<u8>)
    ensures
        r@ == tree_object(entries_view(entries@)),
{
    let payload = payload_of(entries);
    let tag: Vec<u8> = vec![116u8, 114u8, 101u8, 101u8];
    assert(tag@ =~= tree_tag());
    frame_object(tag.as_slice(), payload.as_slice())
}

/// The tree payload of `entries`, written in order.
fn payload_of(entries: &Vec<Entry>) -> (r: Vec<u8>)
    ensures
        r@ == tree_payload(entries_view(entries@)),
{
    let ghost v = entries_view(entries@);
    let mut data: Vec<u8> = Vec::new();
    let mut i: usize = 0;
    assert(v.take(0) =~= Seq::<TreeEntryModel>::empty());
    while i < entries.len()
        invariant
            v == entries_view(entries@),
            i <= v.len(),
            data@ == tree_payload(v.take(i as int)),
        decreases v.len() - i,
    {
        assert(entries@[i as int]@ == v[i as int]);
        let rec = entries[i].data();
        push_all(&mut data, rec.as_slice());
        assert(v.take(i + 1).drop_last() =~= v.take(i as int));
        i = i + 1;
    }
    assert(v.take(v.len() as int) =~= v);
    data
}

impl Tree {
    /// Entries in name order.
    pub open spec fn wf(&self) -> bool {
        sorted_by_name(entries_view(self.entries@))
    }

    /// The tree of `entries`, which are put in name order first; its id is
    /// the digest of the record in that order.
    pub fn new_with_entries(entries: Vec<Entry>) -> (r: Tree)
        requires
            distinct_names(entries_view(entries@)),
        ensures
            r.wf(),
            forall|m: TreeEntryModel| entries_view(r.entries@).contains(m) <==> entries_view(entries@).contains(m),
            r.sha1_hash@ == sha1_of(tree_object(entries_view(r.entries@))),
    {
        let entries = sort_by_name(entries);
        let payload = payload_of(&entries);
        let tag: Vec<u8> = vec![116u8, 114u8, 101u8, 101u8];
        assert(tag@ =~= tree_tag());
        let data = frame_object(tag.as_slice(), payload.as_slice());
        let sha1_hash = sha1(data.as_slice());
        Tree { entries, sha1_hash }
    }

    /// The framed record of the tree; its entries are in name order, so the
    /// bytes depend on the set of entries alone.
    pub fn get_data_to_write(&self) -> (r: Vec<u8>)
        requires
            self.wf(),
        ensures
            r@ == tree_object(entries_view(self.entries@)),
    {
        record_of(&self.entries)
    }

    /// Reads a tree payload; `sha1_hash` is the id it was loaded under.
    #[verifier::rlimit(80)]
    pub fn parse(payload: &[u8], sha1_hash: Vec<u8>) -> (r: Result<Tree, Error>)
        ensures
            r matches Ok(t) ==> {
                &&& tree_payload(entries_view(t.entries@)) == payload@
                &&& t.sha1_hash@ == sha1_hash@
                &&& forall|k: int| 0 <= k < t.entries@.len() ==> parsed_entry(#[trigger] entries_view(t.entries@)[k])
            },
            r matches Err(e) ==> e == Error::MalformedTree,
            forall|es: Seq<TreeEntryModel>| encodable(es) && payload@ == tree_payload(es) ==> (r matches Ok(t)
                && entries_view(t.entries@) == es),
    {
        let n = payload.len();
        let mut entries: Vec<Entry> = Vec::new();
        let mut pos: usize = 0;
        assert(payload@.subrange(0, 0) =~= tree_payload(entries_view(entries@)));
        while pos < n
            invariant
                n == payload@.len(),
                pos <= n,
                payload@.subrange(0, pos as int) == tree_payload(entries_view(entries@)),
                forall|k: int| 0 <= k < entries@.len() ==> parsed_entry(#[trigger] entries_view(entries@)[k]),
                forall|es: Seq<TreeEntryModel>| encodable(es) && payload@ == tree_payload(es) ==> {
                    &&& entries@.len() <= es.len()
                    &&& entries_view(entries@) == es.take(entries@.len() as int)
                    &&& pos == tree_payload(es.take(entries@.len() as int)).len()
                },
            decreases n - pos,
        {
            let ghost i = entries@.len() as int;
            let ghost any = exists|es: Seq<TreeEntryModel>| encodable(es) && payload@ == tree_payload(es);
            let ghost es0 = if any {
                choose|es: Seq<TreeEntryModel>| encodable(es) && payload@ == tree_payload(es)
            } else {
                arbitrary()
            };
            proof {
                if any {
                    if i >= es0.len() {
                        assert(es0.take(i) =~= es0);
                    }
                    lemma_tree_record_facts(payload@, es0, i);
                }
            }
            let mut sp: usize = pos;
            while sp < n && payload[sp] != 32u8
                invariant
                    pos <= sp <= n,
                    n == payload@.len(),
                    forall|k: int| pos <= k < sp ==> payload@[k] != 32u8,
                decreases n - sp,
            {
                sp = sp + 1;
            }
            let ghost m0 = encode_utf8(es0[i].mode);
            let ghost nm0 = encode_utf8(es0[i].name);
            proof {
                if any {
                    if sp > pos + m0.len() {
                        assert(payload@[pos + m0.len()] != 32u8);
                    }
                    if sp < pos + m0.len() {
                        assert(payload@[sp as int] != 32u8);
                    }
                }
            }
            if sp == n {
                return Err(Error::MalformedTree);
            }
            let mut nul: usize = sp + 1;
            while nul < n && payload[nul] != 0u8
                invariant
                    sp < nul <= n,
                    n == payload@.len(),
                    forall|k: int| sp < k < nul ==> payload@[k] != 0u8,
                decreases n - nul,
            {
                nul = nul + 1;
            }
            proof {
                if any {
                    let z = sp + 1 + nm0.len();
                    if nul > z {
                        assert(payload@[z] != 0u8);
                    }
                    if nul < z {
                        assert(payload@[nul as int] != 0u8);
                    }
                }
            }
            if nul == n || n - nul - 1 < 20 {
                return Err(Error::MalformedTree);
            }
            let mode_bytes = copy_range(payload, pos, sp);
            let name_bytes = copy_range(payload, sp + 1, nul);
            let mode = match crate::digest::utf8_string(mode_bytes.as_slice()) {
                Some(s) => s,
                None => {
                    proof {
                        if any {
                            vstd::utf8::encode_utf8_valid_utf8(es0[i].mode);
                        }
                    }
                    return Err(Error::MalformedTree);
                },
            };
            let name = match crate::digest::utf8_string(name_bytes.as_slice()) {
                Some(s) => s,
                None => {
                    proof {
                        if any {
                            vstd::utf8::encode_utf8_valid_utf8(es0[i].name);
                        }
                    }
                    return Err(Error::MalformedTree);
                },
            };
            let oid = copy_range(payload, nul + 1, nul + 21);
            let ghost before = entries_view(entries@);
            let e = Entry::new(mode, oid, String::new(), name);
            proof {
                decode_utf8_encode_utf8(mode_bytes@);
                decode_utf8_encode_utf8(name_bytes@);
                assert(tree_entry_bytes(e@) =~= payload@.subrange(pos as int, nul + 21));
                assert forall|k: int| 0 <= k < mode_bytes@.len() implies mode_bytes@[k] != 32u8 by {
                    assert(mode_bytes@[k] == payload@[pos + k]);
                }
                assert forall|k: int| 0 <= k < name_bytes@.len() implies name_bytes@[k] != 0u8 by {
                    assert(name_bytes@[k] == payload@[sp + 1 + k]);
                }
            }
            entries.push(e);
            proof {
                let after = entries_view(entries@);
                assert(after =~= before.push(e@));
                assert(after.drop_last() =~= before);
                assert(payload@.subrange(0, nul + 21) =~= payload@.subrange(0, pos as int) + payload@.subrange(
                    pos as int,
                    nul + 21,
                ));
                assert forall|k: int| 0 <= k < after.len() implies parsed_entry(#[trigger] after[k]) by {
                    if k < before.len() {
                        assert(after[k] == before[k]);
                    }
                }
            }
            proof {
                assert forall|es: Seq<TreeEntryModel>| encodable(es) && payload@ == tree_payload(es) implies {
                    &&& entries@.len() <= es.len()
                    &&& entries_view(entries@) == es.take(entries@.len() as int)
                    &&& nul + 21 == tree_payload(es.take(entries@.len() as int)).len()
                } by {
                    if i >= es.len() {
                        assert(es.take(i) =~= es);
                    }
                    lemma_tree_record_facts(payload@, es, i);
                    let m = encode_utf8(es[i].mode);
                    let nm = encode_utf8(es[i].name);
                    if sp > pos + m.len() {
                        assert(payload@[pos + m.len()] != 32u8);
                    }
                    if sp < pos + m.len() {
                        assert(payload@[sp as int] != 32u8);
                    }
                    let z = sp + 1 + nm.len();
                    if nul > z {
                        assert(payload@[z] != 0u8);
                    }
                    if nul < z {
                        assert(payload@[nul as int] != 0u8);
                    }
                    vstd::utf8::encode_utf8_decode_utf8(es[i].mode);
                    vstd::utf8::encode_utf8_decode_utf8(es[i].name);
                    assert(e@.mode == es[i].mode);
                    assert(e@.name == es[i].name);
                    assert(e@.oid =~= es[i].oid);
                    assert(e@.path =~= es[i].path);
                    assert(entries_view(entries@) =~= es.take(i + 1));
                }
            }
            pos = nul + 21;
        }
        proof {
            assert forall|es: Seq<TreeEntryModel>| encodable(es) && payload@ == tree_payload(es) implies entries_view(entries@)
                == es by {
                if entries@.len() < es.len() {
                    lemma_tree_record_facts(payload@, es, entries@.len() as int);
                }
                assert(es.take(es.len() as int) =~= es);
            }
        }
        assert(payload@.subrange(0, n as int) =~= payload@);
        Ok(Tree { entries, sha1_hash })
    }
}

/// An entry as a tree payload holds it: a mode without spaces, a name
/// without NUL bytes, and a 20-byte object id.
pub open spec fn parsed_entry(m: TreeEntryModel) -> bool {
    &&& !encode_utf8(m.mode).contains(32u8)
    &&& !encode_utf8(m.name).contains(0u8)
    &&& m.oid.len() == 20
    &&& m.path.len() == 0
}

/// Every entry is as a tree payload can hold it.
pub open spec fn encodable(es: Seq<TreeEntryModel>) -> bool {
    forall|k: int| 0 <= k < es.len() ==> parsed_entry(#[trigger] es[k])
}

proof fn lemma_payload_step(s: Seq<TreeEntryModel>, i: int)
    requires
        0 <= i < s.len(),
    ensures
        tree_payload(s.take(i + 1)) == tree_payload(s.take(i)) + tree_entry_bytes(s[i]),
{
    assert(s.take(i + 1).drop_last() =~= s.take(i));
}

proof fn lemma_payload_prefix(s: Seq<TreeEntryModel>, j: int)
    requires
        0 <= j <= s.len(),
    ensures
        tree_payload(s.take(j)).len() <= tree_payload(s).len(),
        tree_payload(s).subrange(0, tree_payload(s.take(j)).len() as int) == tree_payload(s.take(j)),
    decreases s.len(),
{
    if j == s.len() {
        assert(s.take(j) =~= s);
        assert(tree_payload(s).subrange(0, tree_payload(s).len() as int) =~= tree_payload(s));
    } else {
        let t = s.drop_last();
        lemma_payload_prefix(t, j);
        assert(t.take(j) =~= s.take(j));
        let a = tree_payload(t);
        let b = tree_payload(s.take(j));
        assert((a + tree_entry_bytes(s.last())).subrange(0, b.len() as int) =~= a.subrange(0, b.len() as int));
    }
}

/// What the record of entry `i` of `es` says of the payload bytes.
#[verifier::rlimit(40)]
proof fn lemma_tree_record_facts(p: Seq<u8>, es: Seq<TreeEntryModel>, i: int)
    requires
        encodable(es),
        p == tree_payload(es),
        0 <= i < es.len(),
    ensures
        ({
            let pos = tree_payload(es.take(i)).len() as int;
            let m = encode_utf8(es[i].mode);
            let nm = encode_utf8(es[i].name);
            let sp = pos + m.len();
            let nul = sp + 1 + nm.len();
            &&& nul + 21 <= p.len()
            &&& p[sp] == 32u8
            &&& (forall|k: int| pos <= k < sp ==> p[k] != 32u8)
            &&& p[nul] == 0u8
            &&& (forall|k: int| sp < k < nul ==> p[k] != 0u8)
            &&& p.subrange(pos, sp) == m
            &&& p.subrange(sp + 1, nul) == nm
            &&& p.subrange(nul + 1, nul + 21) == es[i].oid
            &&& tree_payload(es.take(i + 1)).len() == nul + 21
        }),
{
    lemma_payload_step(es, i);
    lemma_payload_prefix(es, i + 1);
    let pos = tree_payload(es.take(i)).len() as int;
    let r = tree_entry_bytes(es[i]);
    let pre = tree_payload(es.take(i + 1));
    let m = encode_utf8(es[i].mode);
    let nm = encode_utf8(es[i].name);
    assert(parsed_entry(es[i]));
    assert forall|k: int| 0 <= k < r.len() implies p[pos + k] == r[k] by {
        assert(pre[pos + k] == r[k]);
        assert(p.subrange(0, pre.len() as int)[pos + k] == p[pos + k]);
    }
    assert forall|k: int| pos <= k < pos + m.len() implies p[k] != 32u8 by {
        assert(p[k] == r[k - pos]);
        assert(r[k - pos] == m[k - pos]);
        if p[k] == 32u8 {
            assert(m.contains(32u8));
        }
    }
    assert forall|k: int| pos + m.len() < k < pos + m.len() + 1 + nm.len() implies p[k] != 0u8 by {
        assert(p[k] == r[k - pos]);
        assert(r[k - pos] == nm[k - pos - m.len() - 1]);
        if p[k] == 0u8 {
            assert(nm.contains(0u8));
        }
    }
    assert(p[pos + m.len()] == r[m.len() as int]);
    assert(p[pos + m.len() + 1 + nm.len()] == r[m.len() + 1 + nm.len() as int]);
    assert(p.subrange(pos, pos + m.len()) =~= m) by {
        assert forall|k: int| 0 <= k < m.len() implies p.subrange(pos, pos + m.len())[k] == m[k] by {
            assert(p[pos + k] == r[k]);
        }
    }
    assert(p.subrange(pos + m.len() + 1, pos + m.len() + 1 + nm.len()) =~= nm) by {
        assert forall|k: int| 0 <= k < nm.len() implies p.subrange(pos + m.len() + 1, pos + m.len() + 1 + nm.len())[k] == nm[k] by {
            assert(p[pos + m.len() + 1 + k] == r[m.len() + 1 + k]);
        }
    }
    let nul = pos + m.len() + 1 + nm.len();
    assert(p.subrange(nul + 1, nul + 21) =~= es[i].oid) by {
        assert forall|k: int| 0 <= k < 20 implies p.subrange(nul + 1, nul + 21)[k] == es[i].oid[k] by {
            assert(p[nul + 1 + k] == r[m.len() + nm.len() + 2 + k]);
        }
    }
}

impl Object for Tree {
    open spec fn tag(&self) -> Seq<u8> {
        tree_tag()
    }

    open spec fn payload(&self) -> Seq<u8> {
        tree_payload(entries_view(self.entries@))
    }

    fn get_data(&self) -> (r: Vec<u8>) {
        payload_of(&self.entries)
    }

    fn type_(&self) -> (r: &'static str) {
        proof {
            reveal_strlit("tree");
        }
        "tree"
    }

    fn encode(&self) -> (r: Vec<u8>) {
        record_of(&self.entries)
    }

    fn get_oid(&self) -> (r: Vec<u8>) {
        let data = record_of(&self.entries);
        sha1(data.as_slice())
    }
}

} // verus!
