use vstd::prelude::*;
use crate::bytes::{decimal, push_all, push_decimal, copy_range};
use crate::digest::{sha1, sha1_of};

verus! {

/// The type tag of a blob.
pub open spec fn blob_tag() -> Seq<u8> {
    seq![98u8, 108u8, 111u8, 98u8]
}

/// The type tag of a tree.
pub open spec fn tree_tag() -> Seq<u8> {
    seq![116u8, 114u8, 101u8, 101u8]
}

/// The type tag of a commit.
pub open spec fn commit_tag() -> Seq<u8> {
    seq![99u8, 111u8, 109u8, 109u8, 105u8, 116u8]
}

/// The canonical record of an object: tag, space, decimal length of the
/// payload, NUL, payload.
pub open spec fn frame(tag: Seq<u8>, payload: Seq<u8>) -> Seq<u8> {
    tag + seq![32u8] + decimal(payload.len()) + seq![0u8] + payload
}

/// Wraps `payload` in the object header for `tag`.
pub fn frame_object(tag: &[u8], payload: &[u8]) -> (r: Vec<u8>)
    ensures
        r@ == frame(tag@, payload@),
{
    let mut data: Vec<u8> = Vec::new();
    push_all(&mut data, tag);
    data.push(32u8);
    push_decimal(&mut data, payload.len() as u64);
    data.push(0u8);
    push_all(&mut data, payload);
    assert(data@ =~= frame(tag@, payload@));
    data
}

/// An object of the store: it has a type tag and a payload, and its id is
/// the SHA-1 digest of its framed record.
pub trait Object {
    /// The type tag.
    spec fn tag(&self) -> Seq<u8>;

    /// The payload.
    spec fn payload(&self) -> Seq<u8>;

    /// The payload.
    fn get_data(&self) -> (r: Vec<u8>)
        ensures
            r@ == self.payload(),
    ;

    /// The type tag, as text.
    fn type_(&self) -> (r: &'static str)
        ensures
            r@.len() == self.tag().len(),
            forall|i: int| 0 <= i < r@.len() ==> r@[i] as u8 == self.tag()[i],
    ;

    /// The framed record that the object id is the digest of.
    fn encode(&self) -> (r: Vec<u8>)
        ensures
            r@ == frame(self.tag(), self.payload()),
    ;

    /// The object id: SHA-1 of the framed record.
    fn get_oid(&self) -> (r: Vec<u8>)
        ensures
            r@ == sha1_of(frame(self.tag(), self.payload())),
            r@.len() == 20,
    ;
}

/// File content.
#[derive(Debug)]
pub struct Blob {
    content: Vec<u8>,
}

impl Blob {
    /// The content.
    pub closed spec fn content(&self) -> Seq<u8> {
        self.content@
    }

    /// A blob holding `content`.
    pub fn new(content: Vec<u8>) -> (r: Blob)
        ensures
            r.content() == content@,
    {
        Blob { content }
    }

    /// The blob whose payload is `payload`.
    pub fn parse(payload: &[u8]) -> (r: Blob)
        ensures
            r.content() == payload@,
    {
        Blob { content: copy_range(payload, 0, payload.len()) }
    }

    /// The content.
    pub fn content_ref(&self) -> (r: &Vec<u8>)
        ensures
            r@ == self.content(),
    {
        &self.content
    }
}

impl Object for Blob {
    open spec fn tag(&self) -> Seq<u8> {
        blob_tag()
    }

    open spec fn payload(&self) -> Seq<u8> {
        self.content()
    }

    fn get_data(&self) -> (r: Vec<u8>) {
        copy_range(self.content.as_slice(), 0, self.content.len())
    }

    fn type_(&self) -> (r: &'static str) {
        proof {
            reveal_strlit("blob");
        }
        "blob"
    }

    fn encode(&self) -> (r: Vec<u8>) {
        let tag: Vec<u8> = vec![98u8, 108u8, 111u8, 98u8];
        assert(tag@ =~= blob_tag());
        frame_object(tag.as_slice(), self.content.as_slice())
    }

    fn get_oid(&self) -> (r: Vec<u8>) {
        let data = self.encode();
        sha1(data.as_slice())
    }
}

} // verus!
