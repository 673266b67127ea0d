use vstd::prelude::*;
use vstd::seq_lib::{to_multiset_build, to_multiset_insert};
use vstd::multiset::Multiset;
use crate::bytes::{lex_lt, bytes_lt, lemma_lex_transitive, lemma_lex_asymmetric};

verus! {

/// A value ordered by a byte-string key.
pub trait Keyed {
    /// The key.
    spec fn key(&self) -> Seq<u8>;

    /// The key's bytes.
    fn key_bytes(&self) -> (r: &[u8])
        ensures
            r@ == self.key(),
    ;
}

impl Keyed for String {
    open spec fn key(&self) -> Seq<u8> {
        vstd::utf8::encode_utf8(self@)
    }

    fn key_bytes(&self) -> (r: &[u8]) {
        self.as_str().as_bytes()
    }
}

/// `s` is in non-decreasing order of its keys.
pub open spec fn sorted_by_key<T: Keyed>(s: Seq<T>) -> bool {
    forall|i: int, j: int| 0 <= i < j < s.len() ==> !lex_lt(s[j].key(), s[i].key())
}

/// Inserts `e` after every element whose key is not greater than its own.
fn insert_sorted<T: Keyed>(out: &mut Vec<T>, e: T)
    requires
        sorted_by_key(old(out)@),
    ensures
        sorted_by_key(final(out)@),
        final(out)@.to_multiset() == old(out)@.to_multiset().insert(e),
{
    let ghost old_v = out@;
    let mut i: usize = 0;
    while i < out.len() && !bytes_lt(e.key_bytes(), out[i].key_bytes())
        invariant
            out@ == old_v,
            i <= old_v.len(),
            forall|k: int| 0 <= k < i ==> !lex_lt(e.key(), #[trigger] old_v[k].key()),
        decreases old_v.len() - i,
    {
        i = i + 1;
    }
    proof {
        if i < old_v.len() {
            assert(lex_lt(e.key(), old_v[i as int].key()));
            lemma_lex_asymmetric(e.key(), old_v[i as int].key());
        }
    }
    out.insert(i, e);
    proof {
        let n = out@;
        assert(n =~= old_v.insert(i as int, e));
        to_multiset_insert(old_v, i as int, e);
        assert forall|a: int, b: int| 0 <= a < b < n.len() implies !lex_lt(n[b].key(), n[a].key()) by {
            if a < i && b == i {
            } else if a == i {
                assert(n[b] == old_v[b - 1]);
                if lex_lt(old_v[b - 1].key(), e.key()) {
                    if b - 1 > i {
                        lemma_lex_transitive(old_v[b - 1].key(), e.key(), old_v[i as int].key());
                    }
                }
            } else if a < i && b > i {
                assert(n[b] == old_v[b - 1]);
            } else {
                let ao = if a < i { a } else { a - 1 };
                let bo = if b < i { b } else { b - 1 };
                assert(n[a] == old_v[ao]);
                assert(n[b] == old_v[bo]);
            }
        }
    }
}

/// The same elements in non-decreasing order of their keys; elements with
/// equal keys keep their relative order.
pub fn sort_by_key<T: Keyed>(v: Vec<T>) -> (r: Vec<T>)
    ensures
        sorted_by_key(r@),
        r@.to_multiset() == v@.to_multiset(),
{
    let ghost orig = v@;
    let mut rest = v;
    let mut out: Vec<T> = Vec::new();
    let mut rev: Vec<T> = Vec::new();
    // reverse first, so that popping yields the input order
    while rest.len() > 0
        invariant
            rest@.len() + rev@.len() == orig.len(),
            rest@ == orig.take(rest@.len() as int),
            forall|k: int| 0 <= k < rev@.len() ==> rev@[k] == #[trigger] orig[orig.len() - 1 - k],
        decreases rest@.len(),
    {
        let e = rest.pop().unwrap();
        rev.push(e);
        assert(rest@ =~= orig.take(rest@.len() as int));
    }
    proof {
        broadcast use vstd::seq_lib::group_to_multiset_ensures;

        assert(out@ =~= Seq::<T>::empty());
        assert(orig.take(0) =~= Seq::<T>::empty());
    }
    while rev.len() > 0
        invariant
            rev@.len() <= orig.len(),
            forall|k: int| 0 <= k < rev@.len() ==> rev@[k] == #[trigger] orig[orig.len() - 1 - k],
            sorted_by_key(out@),
            out@.to_multiset() == orig.take(orig.len() - rev@.len()).to_multiset(),
        decreases rev@.len(),
    {
        let ghost n = rev@.len() as int;
        assert(rev@[n - 1] == orig[orig.len() - 1 - (n - 1)]);
        let e = rev.pop().unwrap();
        proof {
            let t = orig.take(orig.len() - n);
            assert(e == orig[orig.len() - n]);
            assert(orig.take(orig.len() - n + 1) =~= t.push(e));
            to_multiset_build(t, e);
        }
        insert_sorted(&mut out, e);
    }
    assert(orig.take(orig.len() as int) =~= orig);
    out
}

} // verus!
