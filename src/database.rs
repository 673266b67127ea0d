use vstd::prelude::*;
use crate::bytes::{decimal, copy_range, bytes_eq};
use crate::author::Author;
use crate::commit::{Commit, commit_parsable, commit_payload, opt_view};
use crate::entry::{TreeEntryModel, tree_payload};
use crate::tree::{encodable, entries_view};
use crate::digest::{deflate, inflate, hex, hex_lower, sha1, sha1_of, zlib_deflate};
use crate::error::Error;
use crate::object::{Blob, Object, frame, blob_tag, tree_tag, commit_tag};
use crate::tree::Tree;
use crate::status::{lookup, keys_of, position_of, first_index, lemma_first_index_props, lemma_first_index_push};
use vstd::utf8::encode_utf8;

verus! {

/// A parsed loose object.
#[derive(Debug)]
pub enum ObjectType {
    CommitType { commit: Commit },
    BlobType { blob: Blob },
    TreeType { tree: Tree },
}

/// A loose object to write: directory and file name under the store root,
/// and the compressed record.
#[derive(Debug)]
pub struct LooseWrite {
    pub dir: String,
    pub file: String,
    pub data: Vec<u8>,
}

/// Where the object with id `oid` lives, relative to the store root:
/// the first two hexadecimal digits name the directory, the rest the file.
pub open spec fn loose_path(oid: Seq<u8>) -> (Seq<char>, Seq<char>) {
    let h = hex_lower(oid);
    (h.take(2), h.skip(2))
}

proof fn lemma_hex_concat(a: Seq<u8>, b: Seq<u8>)
    ensures
        hex_lower(a + b) == hex_lower(a) + hex_lower(b),
    decreases b.len(),
{
    if b.len() == 0 {
        assert(a + b =~= a);
        assert(hex_lower(b) =~= Seq::<char>::empty());
        assert(hex_lower(a) + hex_lower(b) =~= hex_lower(a));
    } else {
        lemma_hex_concat(a, b.drop_last());
        assert((a + b).drop_last() =~= a + b.drop_last());
        assert((a + b).last() == b.last());
        assert(hex_lower(a + b) =~= hex_lower(a) + hex_lower(b));
    }
}

proof fn lemma_hex_len(a: Seq<u8>)
    ensures
        hex_lower(a).len() == 2 * a.len(),
    decreases a.len(),
{
    if a.len() > 0 {
        lemma_hex_len(a.drop_last());
    }
}

/// The directory and file names of the object with id `oid`.
pub fn object_path(oid: &[u8]) -> (r: (String, String))
    requires
        oid@.len() >= 1,
    ensures
        (r.0@, r.1@) == loose_path(oid@),
{
    let first = copy_range(oid, 0, 1);
    let rest = copy_range(oid, 1, oid.len());
    let dir = hex(first.as_slice());
    let file = hex(rest.as_slice());
    proof {
        lemma_hex_concat(first@, rest@);
        assert(first@ + rest@ =~= oid@);
        lemma_hex_len(first@);
        assert(hex_lower(oid@).take(2) =~= dir@);
        assert(hex_lower(oid@).skip(2) =~= file@);
    }
    (dir, file)
}

/// The hexadecimal text of an object id, as HEAD and commits hold it.
pub fn oid_hex(oid: &[u8]) -> (r: String)
    ensures
        r@ == hex_lower(oid@),
{
    hex(oid)
}

/// Decimal digits are ASCII digits.
proof fn lemma_decimal_digits(n: nat)
    ensures
        decimal(n).len() >= 1,
        forall|k: int| 0 <= k < decimal(n).len() ==> 48 <= #[trigger] decimal(n)[k] <= 57,
    decreases n,
{
    if n >= 10 {
        lemma_decimal_digits(n / 10);
    }
}

/// The position of the first `b` in `s` from `from`, or `s.len()`.
pub open spec fn first_byte(s: Seq<u8>, b: u8, from: int) -> int
    decreases s.len() - from,
{
    if from >= s.len() || from < 0 {
        s.len() as int
    } else if s[from] == b {
        from
    } else {
        first_byte(s, b, from + 1)
    }
}

fn find_byte(s: &[u8], b: u8, from: usize) -> (r: usize)
    requires
        from <= s@.len(),
    ensures
        r == first_byte(s@, b, from as int),
        from <= r <= s@.len(),
{
    let mut i = from;
    while i < s.len() && s[i] != b
        invariant
            from <= i <= s@.len(),
            first_byte(s@, b, from as int) == first_byte(s@, b, i as int),
        decreases s@.len() - i,
    {
        i = i + 1;
    }
    i
}

proof fn lemma_first_byte_at(s: Seq<u8>, b: u8, from: int, at: int)
    requires
        0 <= from <= at < s.len(),
        s[at] == b,
        forall|k: int| from <= k < at ==> s[k] != b,
    ensures
        first_byte(s, b, from) == at,
    decreases at - from,
{
    if from < at {
        lemma_first_byte_at(s, b, from + 1, at);
    }
}

/// The type tag of a record: the bytes before its first space.
pub open spec fn record_tag(d: Seq<u8>) -> Seq<u8> {
    d.take(first_byte(d, 32u8, 0))
}

/// The payload of a record: the bytes after the first NUL that follows the
/// first space.
pub open spec fn record_payload(d: Seq<u8>) -> Seq<u8> {
    d.skip(first_byte(d, 0u8, first_byte(d, 32u8, 0)) + 1)
}

/// The record has a space and, after it, a NUL.
pub open spec fn record_framed(d: Seq<u8>) -> bool {
    first_byte(d, 0u8, first_byte(d, 32u8, 0)) < d.len()
}

/// The record has a space after its type tag.
pub open spec fn record_tagged(d: Seq<u8>) -> bool {
    first_byte(d, 32u8, 0) < d.len()
}

/// A known type tag.
pub open spec fn known_tag(t: Seq<u8>) -> bool {
    t == blob_tag() || t == tree_tag() || t == commit_tag()
}

/// What reading the decompressed record `d`, loaded under id `oid`, gives.
pub open spec fn read_result(d: Seq<u8>, oid: Seq<u8>, r: Result<ObjectType, Error>) -> bool {
    &&& !record_tagged(d) ==> r == Err::<ObjectType, Error>(Error::MalformedObject)
    &&& record_tagged(d) && !known_tag(record_tag(d)) ==> r == Err::<ObjectType, Error>(Error::UnknownObjectType)
    &&& record_tagged(d) && known_tag(record_tag(d)) && !record_framed(d) ==> r == Err::<ObjectType, Error>(
        Error::MalformedObject,
    )
    &&& record_framed(d) && record_tag(d) == blob_tag() ==> (r matches Ok(ObjectType::BlobType { blob })
        && blob.content() == record_payload(d))
    &&& record_framed(d) && record_tag(d) == tree_tag() ==> (r matches Ok(ObjectType::TreeType { tree })
        && tree.payload() == record_payload(d)) || r == Err::<ObjectType, Error>(Error::MalformedTree)
    &&& record_framed(d) && record_tag(d) == commit_tag() ==> (r matches Ok(ObjectType::CommitType { commit })
        && commit.oid@ == oid) || r == Err::<ObjectType, Error>(Error::MalformedCommit)
    &&& forall|es: Seq<TreeEntryModel>| record_framed(d) && record_tag(d) == tree_tag() && encodable(es)
        && record_payload(d) == #[trigger] tree_payload(es) ==> (r matches Ok(ObjectType::TreeType { tree })
        && entries_view(tree.entries@) == es)
    &&& forall|t: Seq<char>, a: Author, m: Seq<char>, p: Option<Seq<char>>| record_framed(d) && record_tag(d)
        == commit_tag() && commit_parsable(t, a, p) && record_payload(d) == #[trigger] commit_payload(t, a, m, p)
        ==> (r matches Ok(ObjectType::CommitType { commit }) && commit.tree_ref@ == t && commit.message@ == m
        && opt_view(commit.parent) == p)
}

/// Parses a decompressed record `<type> SP <len> NUL <payload>` into the
/// object of its type; `oid` is the id it was loaded under. A tag other
/// than blob, tree or commit is refused whatever follows it.
pub fn read_object(d: &[u8], oid: &[u8]) -> (r: Result<ObjectType, Error>)
    ensures
        read_result(d@, oid@, r),
{
    let sp = find_byte(d, 32u8, 0);
    if sp >= d.len() {
        return Err(Error::MalformedObject);
    }
    let tag = copy_range(d, 0, sp);
    assert(tag@ =~= record_tag(d@));
    let b: Vec<u8> = vec![98u8, 108u8, 111u8, 98u8];
    let t: Vec<u8> = vec![116u8, 114u8, 101u8, 101u8];
    let c: Vec<u8> = vec![99u8, 111u8, 109u8, 109u8, 105u8, 116u8];
    assert(b@ =~= blob_tag() && t@ =~= tree_tag() && c@ =~= commit_tag());
    assert(blob_tag() != tree_tag()) by {
        assert(blob_tag()[0] != tree_tag()[0]);
    }
    assert(blob_tag() != commit_tag()) by {
        assert(blob_tag().len() != commit_tag().len());
    }
    assert(tree_tag() != commit_tag()) by {
        assert(tree_tag().len() != commit_tag().len());
    }
    let is_blob = bytes_eq(tag.as_slice(), b.as_slice());
    let is_tree = bytes_eq(tag.as_slice(), t.as_slice());
    let is_commit = bytes_eq(tag.as_slice(), c.as_slice());
    if !is_blob && !is_tree && !is_commit {
        return Err(Error::UnknownObjectType);
    }
    let z = find_byte(d, 0u8, sp);
    if z >= d.len() {
        return Err(Error::MalformedObject);
    }
    let payload = copy_range(d, z + 1, d.len());
    assert(payload@ =~= record_payload(d@));
    assert(record_framed(d@) && record_tagged(d@));
    let r = if is_blob {
        Ok(ObjectType::BlobType { blob: Blob::parse(payload.as_slice()) })
    } else if is_tree {
        let id = copy_range(oid, 0, oid.len());
        match Tree::parse(payload.as_slice(), id) {
            Ok(tree) => Ok(ObjectType::TreeType { tree }),
            Err(e) => Err(e),
        }
    } else {
        let id = copy_range(oid, 0, oid.len());
        match Commit::parse(payload.as_slice(), id) {
            Ok(commit) => Ok(ObjectType::CommitType { commit }),
            Err(e) => Err(e),
        }
    };
    proof {
        assert(!record_tagged(d@) ==> r == Err::<ObjectType, Error>(Error::MalformedObject));
        assert(record_tagged(d@) && !known_tag(record_tag(d@)) ==> r == Err::<ObjectType, Error>(Error::UnknownObjectType));
        assert(record_framed(d@) && record_tag(d@) == blob_tag() ==> (r matches Ok(ObjectType::BlobType { blob })
            && blob.content() == record_payload(d@)));
        assert(record_framed(d@) && record_tag(d@) == tree_tag() ==> (r matches Ok(ObjectType::TreeType { tree })
            && tree.payload() == record_payload(d@)) || r == Err::<ObjectType, Error>(Error::MalformedTree));
        assert(record_framed(d@) && record_tag(d@) == commit_tag() ==> (r matches Ok(ObjectType::CommitType { commit })
            && commit.oid@ == oid@) || r == Err::<ObjectType, Error>(Error::MalformedCommit));
    }
    r
}

/// The record of an object reads back as its tag and payload.
pub proof fn lemma_frame_parts(tag: Seq<u8>, payload: Seq<u8>)
    requires
        tag.len() > 0,
        forall|k: int| 0 <= k < tag.len() ==> tag[k] != 32u8 && tag[k] != 0u8,
    ensures
        record_tagged(frame(tag, payload)),
        record_framed(frame(tag, payload)),
        record_tag(frame(tag, payload)) == tag,
        record_payload(frame(tag, payload)) == payload,
{
    let d = frame(tag, payload);
    let dl = decimal(payload.len());
    lemma_decimal_digits(payload.len());
    lemma_first_byte_at(d, 32u8, 0, tag.len() as int);
    assert forall|k: int| tag.len() <= k < tag.len() + 1 + dl.len() implies d[k] != 0u8 by {
        if k > tag.len() {
            assert(d[k] == dl[k - tag.len() - 1]);
        }
    }
    lemma_first_byte_at(d, 0u8, tag.len() as int, tag.len() + 1 + dl.len() as int);
    assert(d.take(tag.len() as int) =~= tag);
    assert(d.skip(tag.len() + 1 + dl.len() + 1 as int) =~= payload);
}

/// The record of a blob with any content reads back as a blob with that
/// content.
pub proof fn lemma_blob_round_trip(b: Seq<u8>)
    ensures
        record_tagged(frame(blob_tag(), b)),
        record_framed(frame(blob_tag(), b)),
        record_tag(frame(blob_tag(), b)) == blob_tag(),
        record_payload(frame(blob_tag(), b)) == b,
{
    lemma_frame_parts(blob_tag(), b);
}

/// Decompresses and parses a loose object file.
pub fn load_object(compressed: &[u8], oid: &[u8]) -> (r: Result<ObjectType, Error>)
    ensures
        forall|x: Seq<u8>| compressed@ == #[trigger] zlib_deflate(x) ==> read_result(x, oid@, r),
        forall|b: Seq<u8>| compressed@ == #[trigger] zlib_deflate(frame(blob_tag(), b)) ==> (r matches Ok(
            ObjectType::BlobType { blob },
        ) && blob.content() == b),
{
    match inflate(compressed) {
        None => Err(Error::Compression),
        Some(d) => {
            proof {
                assert forall|b: Seq<u8>| compressed@ == #[trigger] zlib_deflate(frame(blob_tag(), b)) implies d@ == frame(
                    blob_tag(),
                    b,
                ) && record_tagged(d@) && record_framed(d@) && record_tag(d@) == blob_tag() && record_payload(d@) == b by {
                    lemma_frame_parts(blob_tag(), b);
                }
            }
            read_object(d.as_slice(), oid)
        },
    }
}

/// The relative path of a loose object as one text: directory, `/`, file.
pub open spec fn loose_key(oid: Seq<u8>) -> Seq<char> {
    loose_path(oid).0 + "/"@ + loose_path(oid).1
}

/// The store's files after storing the record `raw`: a new file at its
/// path holding the compressed record, unless a file is already there.
pub open spec fn store_effect(disk: Map<Seq<char>, Seq<u8>>, raw: Seq<u8>) -> Map<Seq<char>, Seq<u8>> {
    let p = loose_key(sha1_of(raw));
    if disk.contains_key(p) {
        disk
    } else {
        disk.insert(p, zlib_deflate(raw))
    }
}

/// How many files storing the record `raw` writes.
pub open spec fn store_writes(disk: Map<Seq<char>, Seq<u8>>, raw: Seq<u8>) -> nat {
    if disk.contains_key(loose_key(sha1_of(raw))) {
        0
    } else {
        1
    }
}

/// Storing the same record twice writes once, and the second store
/// changes nothing.
pub proof fn lemma_store_idempotent(disk: Map<Seq<char>, Seq<u8>>, raw: Seq<u8>)
    ensures
        store_effect(store_effect(disk, raw), raw) == store_effect(disk, raw),
        store_writes(disk, raw) + store_writes(store_effect(disk, raw), raw) == store_writes(disk, raw),
        store_writes(disk, raw) <= 1,
        !disk.contains_key(loose_key(sha1_of(raw))) ==> store_writes(disk, raw) == 1 && store_effect(disk, raw)[loose_key(
            sha1_of(raw),
        )] == zlib_deflate(raw),
        disk.contains_key(loose_key(sha1_of(raw))) ==> store_effect(disk, raw) == disk,
{
}

/// The loose-object store: where it lives, and the objects loaded so far.
pub struct Database {
    pathname: String,
    objects: Vec<(String, ObjectType)>,
}

impl Database {
    /// The object loaded under id `id`, if any.
    pub closed spec fn cached(&self, id: Seq<char>) -> Option<ObjectType> {
        lookup(self.objects@, id)
    }

    /// Where the store lives.
    pub closed spec fn root(&self) -> Seq<char> {
        self.pathname@
    }

    /// Where the store lives.
    pub fn pathname(&self) -> (r: &String)
        ensures
            r@ == self.root(),
    {
        &self.pathname
    }

    /// A store rooted at `pathname`, with nothing loaded.
    pub fn new(pathname: &String) -> (r: Database)
        ensures
            r.root() == pathname@,
            forall|id: Seq<char>| r.cached(id) is None,
    {
        let r = Database { pathname: pathname.clone(), objects: Vec::new() };
        proof {
            assert forall|id: Seq<char>| r.cached(id) is None by {
                lemma_first_index_props(keys_of(r.objects@), id);
            }
        }
        r
    }

    /// What storing the record `raw` under id `oid` writes, given whether
    /// the object's file exists already: nothing if it does, else the
    /// compressed record at the object's path.
    pub fn write_object(&self, oid: &[u8], raw: &[u8], exists: bool) -> (r: Result<Option<LooseWrite>, Error>)
        requires
            oid@.len() >= 1,
        ensures
            exists ==> r matches Ok(None),
            !exists ==> (r matches Ok(Some(w)) && (w.dir@, w.file@) == loose_path(oid@) && w.data@ == zlib_deflate(raw@)),
    {
        if exists {
            return Ok(None);
        }
        let (dir, file) = object_path(oid);
        match deflate(raw) {
            Some(data) => Ok(Some(LooseWrite { dir, file, data })),
            None => Err(Error::Compression),
        }
    }

    /// What storing `object` writes, given whether its file exists already.
    pub fn store<W: Object>(&self, object: &W, exists: bool) -> (r: Result<Option<LooseWrite>, Error>)
        ensures
            exists ==> r matches Ok(None),
            !exists ==> (r matches Ok(Some(w)) && (w.dir@, w.file@) == loose_path(
                sha1_of(frame(object.tag(), object.payload())),
            ) && w.data@ == zlib_deflate(frame(object.tag(), object.payload()))),
    {
        let raw = object.encode();
        let oid = sha1(raw.as_slice());
        self.write_object(oid.as_slice(), raw.as_slice(), exists)
    }

    /// The object loaded earlier under id `oid` (hexadecimal), if any.
    pub fn load(&self, oid: &String) -> (r: Option<&ObjectType>)
        ensures
            r is Some <==> self.cached(oid@) is Some,
            r matches Some(o) ==> self.cached(oid@) == Some(*o),
    {
        proof {
            lemma_first_index_props(keys_of(self.objects@), oid@);
        }
        match position_of(&self.objects, oid) {
            Some(i) => Some(&self.objects[i].1),
            None => None,
        }
    }

    /// Decompresses and parses the file of object `oid` (hexadecimal) and
    /// keeps the result under that id, unless one is kept already.
    pub fn load_bytes(&mut self, oid: &String, compressed: &[u8]) -> (r: Result<(), Error>)
        ensures
            final(self).root() == old(self).root(),
            forall|id: Seq<char>| id != oid@ ==> final(self).cached(id) == old(self).cached(id),
            old(self).cached(oid@) is Some ==> final(self).cached(oid@) == old(self).cached(oid@),
            r is Err ==> final(self).cached(oid@) == old(self).cached(oid@),
            r is Ok && old(self).cached(oid@) is None ==> forall|x: Seq<u8>| compressed@ == #[trigger] zlib_deflate(x)
                ==> read_result(x, encode_utf8(oid@), Ok(final(self).cached(oid@)->0)),
            forall|b: Seq<u8>| compressed@ == #[trigger] zlib_deflate(frame(blob_tag(), b)) ==> r is Ok && (old(
                self,
            ).cached(oid@) is None ==> (final(self).cached(oid@) matches Some(ObjectType::BlobType { blob })
                && blob.content() == b)),
    {
        let id = oid.as_str().as_bytes();
        let res = load_object(compressed, id);
        match res {
            Ok(o) => {
                let ghost before = self.objects@;
                let ghost ov = o;
                self.objects.push((oid.clone(), o));
                proof {
                    assert(keys_of(self.objects@) =~= keys_of(before).push(oid@));
                    assert forall|k: Seq<char>| #![auto] true implies self.cached(k) == (if lookup(before, k) is Some {
                        lookup(before, k)
                    } else if k == oid@ {
                        Some(ov)
                    } else {
                        None::<ObjectType>
                    }) by {
                        lemma_first_index_push(keys_of(before), oid@, k);
                        lemma_first_index_props(keys_of(before), k);
                        lemma_first_index_props(keys_of(self.objects@), k);
                    }
                }
                Ok(())
            },
            Err(e) => Err(e),
        }
    }

}

} // verus!
