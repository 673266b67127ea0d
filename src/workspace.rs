use vstd::prelude::*;
use vstd::string::StringExecFns;
use vstd::utf8::encode_utf8;
use crate::author::Author;
use crate::builder::{comps_free, build_add_tree, create_tree_from_index, tree_ok, trie_of, TreeAux, sorted_of, built_level, level_stored, lemma_level_stored_mono};
use crate::commit::{Commit, commit_payload, opt_view};
use crate::digest::{hex, hex_lower, sha1_of};
use crate::entry::tree_object;
use crate::error::Error;
use crate::index::{EntryModel, FileStat, Index, created, survives_add, valid_entry_path, MAX_RECORD_PATH};
use crate::object::{frame, commit_tag};
use crate::tree::{Tree, entries_view};

verus! {

/// The working tree: where it is rooted.
#[derive(Debug)]
pub struct Workspace {
    pub pathname: String,
}

/// A file to stage: its path, the id of its content, and its metadata.
#[derive(Debug)]
pub struct AddedFile {
    pub path: String,
    pub oid: Vec<u8>,
    pub stat: FileStat,
}

impl Workspace {
    /// A working tree rooted at `pathname`.
    pub fn new(pathname: &String) -> (r: Workspace)
        ensures
            r.pathname@ == pathname@,
    {
        Workspace { pathname: pathname.clone() }
    }

    /// The metadata directory: `<root>/.git`.
    pub fn get_git_path(&self) -> (r: String)
        ensures
            r@ == self.pathname@ + "/.git"@,
    {
        let mut p = self.pathname.clone();
        p.append("/.git");
        p
    }

    /// The object store: `<root>/.git/objects`.
    pub fn get_db_path(&self) -> (r: String)
        ensures
            r@ == self.pathname@ + "/.git"@ + "/objects"@,
    {
        let mut p = self.get_git_path();
        p.append("/objects");
        p
    }

    /// Stages each file in turn, as `Index::add` does. If some file has an
    /// id that is not 20 bytes or a path that cannot stand in the index,
    /// nothing is staged.
    pub fn create_index_entry(&self, files: Vec<AddedFile>, index: &mut Index) -> (r: Result<(), Error>)
        requires
            old(index).wf(),
        ensures
            final(index).wf(),
            final(index).location() == old(index).location(),
            r is Ok <==> forall|k: int| 0 <= k < files@.len() ==> file_ok(#[trigger] files@[k]),
            r matches Err(e) ==> e == Error::MalformedIndex,
            r is Err ==> final(index)@ == old(index)@ && final(index).is_dirty() == old(index).is_dirty(),
            r is Ok ==> forall|m: EntryModel| #[trigger] final(index)@.contains(m) <==> staged_has(old(index)@, files@, m),
            r is Ok ==> final(index).is_dirty() == (old(index).is_dirty() || files@.len() > 0),
            comps_free(old(index)@) ==> comps_free(final(index)@),
    {
        let mut i: usize = 0;
        while i < files.len()
            invariant
                i <= files@.len(),
                forall|k: int| 0 <= k < i ==> file_ok(#[trigger] files@[k]),
                index.wf(),
                index@ == old(index)@,
                index.is_dirty() == old(index).is_dirty(),
                index.location() == old(index).location(),
            decreases files@.len() - i,
        {
            let f = &files[i];
            let plen = f.path.as_str().as_bytes().len();
            let nul: Vec<u8> = vec![0u8];
            let has_nul = crate::bytes::contains_slice(f.path.as_str().as_bytes(), nul.as_slice());
            proof {
                let pb = encode_utf8(f.path@);
                if pb.contains(0u8) {
                    let k = choose|k: int| 0 <= k < pb.len() && pb[k] == 0u8;
                    assert(pb.subrange(k, k + 1) =~= nul@);
                    assert(crate::bytes::occurs_at(pb, nul@, k));
                }
                if has_nul {
                    let k = choose|k: int| crate::bytes::occurs_at(pb, nul@, k);
                    assert(pb.subrange(k, k + 1)[0] == 0u8);
                    assert(pb[k] == 0u8);
                }
            }
            if f.oid.len() != 20 || plen > MAX_RECORD_PATH || has_nul {
                return Err(Error::MalformedIndex);
            }
            i = i + 1;
        }
        let ghost v0 = index@;
        let mut j: usize = 0;
        proof {
            assert forall|m: EntryModel| #[trigger] index@.contains(m) <==> staged_has(v0, files@.take(0), m) by {
            }
        }
        while j < files.len()
            invariant
                j <= files@.len(),
                forall|k: int| 0 <= k < files@.len() ==> file_ok(#[trigger] files@[k]),
                index.wf(),
                index.location() == old(index).location(),
                v0 == old(index)@,
                forall|m: EntryModel| #[trigger] index@.contains(m) <==> staged_has(v0, files@.take(j as int), m),
                index.is_dirty() == (old(index).is_dirty() || j > 0),
                comps_free(v0) ==> comps_free(index@),
            decreases files@.len() - j,
        {
            let f = &files[j];
            assert(file_ok(files@[j as int]));
            let oid = crate::bytes::copy_range(f.oid.as_slice(), 0, f.oid.len());
            assert(oid@ =~= f.oid@);
            let path = f.path.clone();
            assert(path@ == f.path@);
            let ghost before = index@;
            index.add(path, oid, f.stat);
            proof {
                assert(files@.take(j + 1).drop_last() =~= files@.take(j as int));
                assert(files@.take(j + 1).last() == files@[j as int]);
                let fl = files@[j as int];
                assert forall|m: EntryModel| #[trigger] index@.contains(m) <==> staged_has(v0, files@.take(j + 1), m) by {
                    assert(staged_has(v0, files@.take(j + 1), m) == (m == created(fl.path@, fl.oid@, fl.stat) || (
                    staged_has(v0, files@.take(j as int), m) && survives_add(m, encode_utf8(fl.path@)))));
                    assert(before.contains(m) == staged_has(v0, files@.take(j as int), m));
                }
            }
            j = j + 1;
        }
        assert(files@.take(files@.len() as int) =~= files@);
        Ok(())
    }
}

/// A file that can be staged: a 20-byte id and a path the index can hold.
pub open spec fn file_ok(f: AddedFile) -> bool {
    f.oid@.len() == 20 && valid_entry_path(f.path@)
}

/// `m` is in the index `v` after staging `files` one after the other.
pub open spec fn staged_has(v: Seq<EntryModel>, files: Seq<AddedFile>, m: EntryModel) -> bool
    decreases files.len(),
{
    if files.len() == 0 {
        v.contains(m)
    } else {
        let f = files.last();
        m == created(f.path@, f.oid@, f.stat) || (staged_has(v, files.drop_last(), m) && survives_add(
            m,
            encode_utf8(f.path@),
        ))
    }
}

/// The single-slot ref store.
#[derive(Debug)]
pub struct Refs {
    pub pathname: String,
}

impl Refs {
    /// Refs kept under the metadata directory `pathname`.
    pub fn new(pathname: &String) -> (r: Refs)
        ensures
            r.pathname@ == pathname@,
    {
        Refs { pathname: pathname.clone() }
    }

    /// The HEAD file: `<metadata>/HEAD`.
    pub fn head_path(&self) -> (r: String)
        ensures
            r@ == self.pathname@ + "/HEAD"@,
    {
        let mut p = self.pathname.clone();
        p.append("/HEAD");
        p
    }
}

/// The last of `trees` is the tree folded from the trie `t`, and the tree
/// of every directory of `t`, at any depth, is among `trees`.
pub open spec fn root_of(trees: Seq<Tree>, t: TreeAux) -> bool {
    &&& trees.len() >= 1
    &&& entries_view(trees.last().entries@) == sorted_of(built_level(t.entries@, t.entries@.len() as nat))
    &&& level_stored(t.entries@, t.entries@.len() as nat, trees, 0)
}

/// Builds the commit of the index: the trees of its paths, bottom-up, and a
/// commit of the root tree with `author`, `message` and `parent`. Returns
/// every tree to store, the root last, and the commit.
pub fn prepare_commit(index: &Index, author: Author, message: String, parent: Option<String>) -> (r: Result<(Vec<Tree>, Commit), Error>)
    requires
        author.wf(),
    ensures
        r matches Ok((trees, c)) ==> {
            &&& trees@.len() >= 1
            &&& forall|k: int| 0 <= k < trees@.len() ==> tree_ok(#[trigger] trees@[k])
            &&& c.tree_ref@ == hex_lower(trees@.last().sha1_hash@)
            &&& c.oid@ == sha1_of(frame(commit_tag(), commit_payload(c.tree_ref@, c.author, c.message@, opt_view(c.parent))))
            &&& c.message@ == message@
            &&& opt_view(c.parent) == opt_view(parent)
            &&& c.author == author
            &&& exists|t: TreeAux| #[trigger] trie_of(t, index@) && root_of(trees@, t)
        },
        r is Ok,
{
    let root = match create_tree_from_index(index) {
        Ok(t) => t,
        Err(e) => {
            return Err(e);
        },
    };
    let mut trees: Vec<Tree> = Vec::new();
    let tree = match build_add_tree(&root, &mut trees) {
        Ok(t) => t,
        Err(e) => {
            return Err(e);
        },
    };
    let tree_ref = hex(tree.sha1_hash.as_slice());
    let ghost before = trees@;
    trees.push(tree);
    proof {
        lemma_level_stored_mono(root.entries@, root.entries@.len() as nat, before, 0, trees@, 0);
        assert(root_of(trees@, root));
    }
    let commit = Commit::new(tree_ref, author, message, parent, None);
    Ok((trees, commit))
}

} // verus!
