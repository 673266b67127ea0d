use vstd::prelude::*;
use vstd::utf8::encode_utf8;
use crate::bytes::{push_all, bytes_eq};
use crate::object::{tree_tag, frame, blob_tag, Blob, Object};
use crate::digest::sha1_of;

verus! {

/// One entry of a tree: a mode, a name and the id of the object it names.
#[derive(Debug)]
pub struct Entry {
    /// The mode as ASCII octal digits (`100644`, `100755`, `040000`).
    pub mode: String,
    pub name: String,
    pub sha1_hash: Vec<u8>,
    /// Where the entry was found in the working tree, if anywhere.
    pub path: String,
}

/// Mathematical value of a tree entry.
pub struct TreeEntryModel {
    pub mode: Seq<char>,
    pub name: Seq<char>,
    pub oid: Seq<u8>,
    pub path: Seq<char>,
}

impl View for Entry {
    type V = TreeEntryModel;

    open spec fn view(&self) -> TreeEntryModel {
        TreeEntryModel { mode: self.mode@, name: self.name@, oid: self.sha1_hash@, path: self.path@ }
    }
}

/// The bytes that order entries within a tree.
pub open spec fn name_key(m: TreeEntryModel) -> Seq<u8> {
    encode_utf8(m.name)
}

/// The record of one entry inside a tree payload.
pub open spec fn tree_entry_bytes(m: TreeEntryModel) -> Seq<u8> {
    encode_utf8(m.mode) + seq![32u8] + encode_utf8(m.name) + seq![0u8] + m.oid
}

/// The payload of a tree: the records of its entries, one after the other.
pub open spec fn tree_payload(s: Seq<TreeEntryModel>) -> Seq<u8>
    decreases s.len(),
{
    if s.len() == 0 {
        Seq::empty()
    } else {
        tree_payload(s.drop_last()) + tree_entry_bytes(s.last())
    }
}

/// The framed record of a tree with entries `s`, in that order.
pub open spec fn tree_object(s: Seq<TreeEntryModel>) -> Seq<u8> {
    frame(tree_tag(), tree_payload(s))
}

/// The mode of a directory entry, as ASCII.
pub open spec fn dir_mode() -> Seq<u8> {
    seq![48u8, 52u8, 48u8, 48u8, 48u8, 48u8]
}

impl Entry {
    /// An entry with the given fields.
    pub fn new(mode: String, sha1_hash: Vec<u8>, path: String, name: String) -> (r: Entry)
        ensures
            r@ == (TreeEntryModel { mode: mode@, name: name@, oid: sha1_hash@, path: path@ }),
    {
        Entry { mode, name, sha1_hash, path }
    }

    /// The record of this entry inside a tree payload.
    pub fn data(&self) -> (r: Vec<u8>)
        ensures
            r@ == tree_entry_bytes(self@),
    {
        let mut data: Vec<u8> = Vec::new();
        push_all(&mut data, self.mode.as_str().as_bytes());
        data.push(32u8);
        push_all(&mut data, self.name.as_str().as_bytes());
        data.push(0u8);
        push_all(&mut data, self.sha1_hash.as_slice());
        assert(data@ =~= tree_entry_bytes(self@));
        data
    }

    /// The entry of a file with POSIX mode bits `unix_mode` and content
    /// `content`, found at `path` under the name `name`: executable or
    /// regular by the execute bit for others, and the id of its blob.
    pub fn from_file(path: String, name: String, unix_mode: u32, content: &[u8]) -> (r: Entry)
        ensures
            r@ == (TreeEntryModel {
                mode: crate::status::mode_text(unix_mode),
                name: name@,
                oid: sha1_of(frame(blob_tag(), content@)),
                path: path@,
            }),
    {
        let blob = Blob::parse(content);
        let oid = blob.get_oid();
        Entry::new(crate::status::get_mode_u(unix_mode), oid, path, name)
    }

    /// A copy of this entry.
    pub fn duplicate(&self) -> (r: Entry)
        ensures
            r@ == self@,
    {
        let r = Entry {
            mode: self.mode.clone(),
            name: self.name.clone(),
            sha1_hash: crate::bytes::copy_range(self.sha1_hash.as_slice(), 0, self.sha1_hash.len()),
            path: self.path.clone(),
        };
        assert(r.sha1_hash@ =~= self.sha1_hash@);
        assert(r@ == self@);
        r
    }

    /// Tells whether the entry names a subtree.
    pub fn is_tree(&self) -> (r: bool)
        ensures
            r == (encode_utf8(self.mode@) == dir_mode()),
    {
        let d: Vec<u8> = vec![48u8, 52u8, 48u8, 48u8, 48u8, 48u8];
        assert(d@ =~= dir_mode());
        bytes_eq(self.mode.as_str().as_bytes(), d.as_slice())
    }
}

} // verus!
