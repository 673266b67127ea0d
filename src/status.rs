use vstd::prelude::*;
use vstd::string::StringExecFns;
use vstd::utf8::encode_utf8;
use crate::digest::sha1_of;
use crate::entry::{Entry, TreeEntryModel, dir_mode};
use crate::tree::{Tree, entries_view};
use crate::database::ObjectType;
use crate::digest::{hex, hex_lower};
use crate::error::Error;
use crate::index::{EntryAdd, EntryModel, FileStat, Index, tracked_mode, with_stat, path_key, is_ancestor};
use crate::bytes::{contains_bytes, copy_range};
use crate::index::is_ancestor_path;
use crate::sort::{Keyed, sorted_by_key, sort_by_key};
use crate::object::{Blob, Object, blob_tag, frame};

verus! {

/// How a working file differs from its index entry.
#[derive(Clone, Copy, Debug, PartialEq, Eq, Structural)]
pub enum WorkspaceStatus {
    Deleted,
    Modified,
    Default,
}

/// How an index entry differs from the HEAD commit.
#[derive(Clone, Copy, Debug, PartialEq, Eq, Structural)]
pub enum IndexStatus {
    Added,
    Modified,
    Deleted,
    Default,
}

/// The classification of one path.
#[derive(Debug)]
pub struct StatusChange {
    pub path: String,
    pub workspace: WorkspaceStatus,
    pub index: IndexStatus,
}

/// The mode text of a tracked mode: executable or regular.
pub open spec fn mode_text(mode: u32) -> Seq<char> {
    if mode & 1u32 != 0 {
        "100755"@
    } else {
        "100644"@
    }
}

/// Mode text of a tracked mode, as it stands in a tree entry.
pub fn get_mode_u(mode: u32) -> (r: String)
    ensures
        r@ == mode_text(mode),
{
    if mode & 1u32 != 0 {
        String::from_str("100755")
    } else {
        String::from_str("100644")
    }
}

/// Index of the first key equal to `p`, or -1.
pub open spec fn first_index(keys: Seq<Seq<char>>, p: Seq<char>) -> int
    decreases keys.len(),
{
    if keys.len() == 0 {
        -1
    } else if keys[0] == p {
        0
    } else {
        let r = first_index(keys.drop_first(), p);
        if r < 0 {
            -1
        } else {
            r + 1
        }
    }
}

pub proof fn lemma_first_index(keys: Seq<Seq<char>>, p: Seq<char>, i: int)
    requires
        -1 <= i < keys.len(),
        i >= 0 ==> keys[i] == p,
        forall|j: int| 0 <= j < keys.len() && (i < 0 || j < i) ==> keys[j] != p,
    ensures
        first_index(keys, p) == i,
    decreases keys.len(),
{
    if keys.len() > 0 && i != 0 {
        let t = keys.drop_first();
        assert(keys[0] != p);
        if i > 0 {
            assert forall|j: int| 0 <= j < t.len() && j < i - 1 implies t[j] != p by {
                assert(t[j] == keys[j + 1]);
            }
            assert(t[i - 1] == keys[i]);
            lemma_first_index(t, p, i - 1);
        } else {
            assert forall|j: int| 0 <= j < t.len() implies t[j] != p by {
                assert(t[j] == keys[j + 1]);
            }
            lemma_first_index(t, p, -1);
        }
    }
}

/// What `first_index` says: the key stands there and not before; or
/// nowhere.
pub proof fn lemma_first_index_props(keys: Seq<Seq<char>>, p: Seq<char>)
    ensures
        -1 <= first_index(keys, p) < keys.len(),
        first_index(keys, p) >= 0 ==> keys[first_index(keys, p)] == p,
        forall|j: int| 0 <= j < keys.len() && (first_index(keys, p) < 0 || j < first_index(keys, p)) ==> keys[j] != p,
    decreases keys.len(),
{
    if keys.len() > 0 && keys[0] != p {
        let t = keys.drop_first();
        lemma_first_index_props(t, p);
        assert forall|j: int| 0 <= j < keys.len() && (first_index(keys, p) < 0 || j < first_index(keys, p)) implies keys[j]
            != p by {
            if j > 0 {
                assert(keys[j] == t[j - 1]);
            }
        }
    }
}

/// The first index of a key after one more key is appended.
pub proof fn lemma_first_index_push(keys: Seq<Seq<char>>, k: Seq<char>, p: Seq<char>)
    ensures
        first_index(keys.push(k), p) == if first_index(keys, p) >= 0 {
            first_index(keys, p)
        } else if k == p {
            keys.len() as int
        } else {
            -1
        },
{
    let n = keys.push(k);
    lemma_first_index_props(keys, p);
    let i = first_index(keys, p);
    if i >= 0 {
        assert(n[i] == p);
        lemma_first_index(n, p, i);
    } else if k == p {
        assert(n[keys.len() as int] == p);
        lemma_first_index(n, p, keys.len() as int);
    } else {
        lemma_first_index(n, p, -1);
    }
}

/// The keys of a list of pairs.
pub open spec fn keys_of<V>(s: Seq<(String, V)>) -> Seq<Seq<char>> {
    s.map_values(|x: (String, V)| x.0@)
}

/// Where the first pair with key `p` stands, if any.
pub fn position_of<V>(s: &Vec<(String, V)>, p: &String) -> (r: Option<usize>)
    ensures
        r matches Some(i) ==> i < s@.len() && first_index(keys_of(s@), p@) == i,
        r is None ==> first_index(keys_of(s@), p@) == -1,
{
    let ghost keys = keys_of(s@);
    let mut i: usize = 0;
    while i < s.len()
        invariant
            keys == keys_of(s@),
            i <= s@.len(),
            forall|j: int| 0 <= j < i ==> keys[j] != p@,
        decreases s@.len() - i,
    {
        if s[i].0 == *p {
            proof {
                lemma_first_index(keys, p@, i as int);
            }
            return Some(i);
        }
        i = i + 1;
    }
    proof {
        lemma_first_index(keys, p@, -1);
    }
    None
}

/// Index against HEAD: added when HEAD lacks the path, modified when mode or
/// id differ.
pub open spec fn index_status_of(m: EntryModel, head: Option<TreeEntryModel>) -> IndexStatus {
    match head {
        None => IndexStatus::Added,
        Some(h) => if mode_text(m.mode) == h.mode && m.oid == h.oid {
            IndexStatus::Default
        } else {
            IndexStatus::Modified
        },
    }
}

/// Mode or size of the working file differ from the entry.
pub open spec fn stat_mismatch(m: EntryModel, st: FileStat) -> bool {
    m.mode != tracked_mode(st.mode) || m.size != st.size
}

/// The cached change and modification times equal the file's.
pub open spec fn times_match(m: EntryModel, st: FileStat) -> bool {
    m.ctime == st.ctime && m.ctime_nsec == st.ctime_nsec && m.mtime == st.mtime && m.mtime_nsec == st.mtime_nsec
}

/// The object id of a blob with content `c`.
pub open spec fn blob_oid(c: Seq<u8>) -> Seq<u8> {
    sha1_of(frame(blob_tag(), c))
}

/// The content must be read to classify the entry.
pub open spec fn needs_content(m: EntryModel, st: Option<FileStat>) -> bool {
    match st {
        None => false,
        Some(s) => !stat_mismatch(m, s) && !times_match(m, s),
    }
}

/// Working file against index, cheapest test first; the content is only
/// looked at when metadata cannot decide.
pub open spec fn workspace_status_of(m: EntryModel, st: Option<FileStat>, content: Seq<u8>) -> WorkspaceStatus {
    match st {
        None => WorkspaceStatus::Deleted,
        Some(s) => if stat_mismatch(m, s) {
            WorkspaceStatus::Modified
        } else if times_match(m, s) {
            WorkspaceStatus::Default
        } else if blob_oid(content) == m.oid {
            WorkspaceStatus::Default
        } else {
            WorkspaceStatus::Modified
        },
    }
}

/// The entry's cache is refreshed: its content is unchanged though its
/// times differ.
pub open spec fn refreshes(m: EntryModel, st: Option<FileStat>, content: Seq<u8>) -> bool {
    needs_content(m, st) && blob_oid(content) == m.oid
}

/// The value stored with the first key `p`, if any.
pub open spec fn lookup<V>(s: Seq<(String, V)>, p: Seq<char>) -> Option<V> {
    let i = first_index(keys_of(s), p);
    if 0 <= i < s.len() {
        Some(s[i].1)
    } else {
        None
    }
}

/// The content stored with the first key `p`, or nothing.
pub open spec fn content_for(s: Seq<(String, Vec<u8>)>, p: Seq<char>) -> Seq<u8> {
    match lookup(s, p) {
        Some(v) => v@,
        None => Seq::empty(),
    }
}

/// The head entry stored with the first key `p`, if any.
pub open spec fn head_for(s: Seq<(String, Entry)>, p: Seq<char>) -> Option<TreeEntryModel> {
    match lookup(s, p) {
        Some(e) => Some(e@),
        None => None,
    }
}

/// Classifies an index entry against HEAD.
pub fn index_status(entry: &EntryAdd, head: &Vec<(String, Entry)>) -> (r: IndexStatus)
    ensures
        r == index_status_of(entry@, head_for(head@, entry.path@)),
{
    match position_of(head, &entry.path) {
        None => IndexStatus::Added,
        Some(i) => {
            let h = &head[i].1;
            let mode = get_mode_u(entry.mode);
            if mode == h.mode && crate::bytes::bytes_eq(entry.oid.as_slice(), h.sha1_hash.as_slice()) {
                IndexStatus::Default
            } else {
                IndexStatus::Modified
            }
        },
    }
}

/// Tells whether the entry's content must be read to classify it.
pub fn content_needed(entry: &EntryAdd, stats: &Vec<(String, FileStat)>) -> (r: bool)
    ensures
        r == needs_content(entry@, lookup(stats@, entry.path@)),
{
    match position_of(stats, &entry.path) {
        None => false,
        Some(i) => {
            let st = stats[i].1;
            let mismatch = entry.mode != crate::index::get_mode(st.mode) || entry.size != st.size;
            let same_times = entry.ctime == st.ctime && entry.ctime_nsec == st.ctime_nsec && entry.mtime == st.mtime
                && entry.mtime_nsec == st.mtime_nsec;
            !mismatch && !same_times
        },
    }
}

/// The entry after a status run: refreshed when its content proved
/// unchanged, as it was otherwise.
pub open spec fn after_check(
    m: EntryModel,
    stats: Seq<(String, FileStat)>,
    contents: Seq<(String, Vec<u8>)>,
) -> EntryModel {
    let st = lookup(stats, m.path);
    if refreshes(m, st, content_for(contents, m.path)) {
        with_stat(m, st->0)
    } else {
        m
    }
}

/// The content of every entry that needs it was supplied.
pub open spec fn contents_complete(
    v: Seq<EntryModel>,
    stats: Seq<(String, FileStat)>,
    contents: Seq<(String, Vec<u8>)>,
) -> bool {
    forall|k: int| 0 <= k < v.len() && needs_content(#[trigger] v[k], lookup(stats, v[k].path)) ==> lookup(contents, v[k].path) is Some
}

/// Classifies every index entry against HEAD (`head`, path to entry) and
/// against the working tree (`stats`, path to metadata of the tracked files
/// found; `contents`, path to content of the files whose metadata could not
/// decide). Entries whose content proved unchanged get their cached
/// metadata refreshed. One result per entry, in index order.
pub fn check_index_entries(
    index: &mut Index,
    stats: &Vec<(String, FileStat)>,
    contents: &Vec<(String, Vec<u8>)>,
    head: &Vec<(String, Entry)>,
) -> (r: Result<Vec<StatusChange>, Error>)
    requires
        old(index).wf(),
    ensures
        final(index).wf(),
        final(index).location() == old(index).location(),
        r is Ok <==> contents_complete(old(index)@, stats@, contents@),
        r matches Err(e) ==> e == Error::Unreadable,
        r matches Ok(v) ==> {
            &&& v@.len() == old(index)@.len()
            &&& forall|k: int| 0 <= k < v@.len() ==> {
                let m = #[trigger] old(index)@[k];
                &&& v@[k].path@ == m.path
                &&& v@[k].index == index_status_of(m, head_for(head@, m.path))
                &&& v@[k].workspace == workspace_status_of(m, lookup(stats@, m.path), content_for(contents@, m.path))
            }
        },
        r is Ok ==> final(index)@.len() == old(index)@.len() && forall|k: int| 0 <= k < old(index)@.len() ==> #[trigger] final(index)@[k]
            == after_check(old(index)@[k], stats@, contents@),
        r is Ok ==> final(index).is_dirty() == (old(index).is_dirty() || exists|k: int| 0 <= k < old(index)@.len()
            && #[trigger] refreshes(old(index)@[k], lookup(stats@, old(index)@[k].path), content_for(contents@, old(index)@[k].path))),
{
    let ghost old_v = index@;
    let mut out: Vec<StatusChange> = Vec::new();
    let mut k: usize = 0;
    while k < index.len()
        invariant
            index.wf(),
            index.location() == old(index).location(),
            index@.len() == old_v.len(),
            old_v == old(index)@,
            k <= old_v.len(),
            out@.len() == k,
            contents_complete(old_v.take(k as int), stats@, contents@),
            forall|a: int| k <= a < old_v.len() ==> #[trigger] index@[a] == old_v[a],
            index.is_dirty() == (old(index).is_dirty() || exists|a: int| 0 <= a < k
                && #[trigger] refreshes(old_v[a], lookup(stats@, old_v[a].path), content_for(contents@, old_v[a].path))),
            forall|a: int| 0 <= a < k ==> #[trigger] index@[a] == after_check(old_v[a], stats@, contents@),
            forall|a: int| 0 <= a < k ==> {
                let m = #[trigger] old_v[a];
                &&& out@[a].path@ == m.path
                &&& out@[a].index == index_status_of(m, head_for(head@, m.path))
                &&& out@[a].workspace == workspace_status_of(m, lookup(stats@, m.path), content_for(contents@, m.path))
            },
        decreases old_v.len() - k,
    {
        let ghost m = old_v[k as int];
        let e = index.entry_at(k);
        let path = e.path.clone();
        let istat = index_status(e, head);
        let mut refresh: Option<FileStat> = None;
        let wstat = match position_of(stats, &e.path) {
            None => WorkspaceStatus::Deleted,
            Some(i) => {
                let st = stats[i].1;
                if e.mode != crate::index::get_mode(st.mode) || e.size != st.size {
                    WorkspaceStatus::Modified
                } else if e.ctime == st.ctime && e.ctime_nsec == st.ctime_nsec && e.mtime == st.mtime
                    && e.mtime_nsec == st.mtime_nsec {
                    WorkspaceStatus::Default
                } else {
                    match position_of(contents, &e.path) {
                        None => {
                            proof {
                                assert(needs_content(old_v[k as int], lookup(stats@, old_v[k as int].path)));
                                assert(!contents_complete(old(index)@, stats@, contents@));
                            }
                            return Err(Error::Unreadable);
                        },
                        Some(j) => {
                            let blob = Blob::new(crate::bytes::copy_range(contents[j].1.as_slice(), 0, contents[j].1.len()));
                            let oid = blob.get_oid();
                            proof {
                                assert(e@ == m);
                                assert(lookup(contents@, m.path) == Some(contents@[j as int].1));
                                assert(blob.content() == contents@[j as int].1@);
                                assert(blob.payload() == blob.content());
                                assert(blob.tag() == blob_tag());
                                assert(oid@ == blob_oid(content_for(contents@, m.path)));
                                assert(lookup(stats@, m.path) == Some(st));
                            }
                            if crate::bytes::bytes_eq(oid.as_slice(), e.oid.as_slice()) {
                                refresh = Some(st);
                                WorkspaceStatus::Default
                            } else {
                                WorkspaceStatus::Modified
                            }
                        },
                    }
                }
            },
        };
        proof {
            assert(refresh is Some <==> refreshes(m, lookup(stats@, m.path), content_for(contents@, m.path)));
            assert(refresh matches Some(st) ==> Some(st) == lookup(stats@, m.path));
        }
        match refresh {
            Some(st) => {
                index.refresh_stat_at(k, st);
            },
            None => {},
        }
        out.push(StatusChange { path, workspace: wstat, index: istat });
        proof {
            assert forall|a: int| 0 <= a < k + 1 && needs_content(#[trigger] old_v.take(k + 1)[a], lookup(stats@, old_v.take(k + 1)[a].path))
                implies lookup(contents@, old_v.take(k + 1)[a].path) is Some by {
                if a < k {
                    assert(old_v.take(k + 1)[a] == old_v.take(k as int)[a]);
                }
            }
        }
        k = k + 1;
    }
    proof {
        assert(old_v.take(k as int) =~= old_v);
    }
    Ok(out)
}

impl Keyed for StatusChange {
    open spec fn key(&self) -> Seq<u8> {
        encode_utf8(self.path@)
    }

    fn key_bytes(&self) -> (r: &[u8]) {
        self.path.as_str().as_bytes()
    }
}

/// The prefix that a status line gives a pair of classifications; empty
/// for an unchanged path, which gets no line.
pub open spec fn code_of(ws: WorkspaceStatus, is: IndexStatus) -> Seq<char> {
    match (ws, is) {
        (WorkspaceStatus::Deleted, IndexStatus::Added) => "AD "@,
        (WorkspaceStatus::Deleted, IndexStatus::Default) => " D "@,
        (WorkspaceStatus::Deleted, IndexStatus::Modified) => "MD "@,
        (WorkspaceStatus::Deleted, IndexStatus::Deleted) => "DD "@,
        (WorkspaceStatus::Modified, IndexStatus::Added) => "AM "@,
        (WorkspaceStatus::Modified, IndexStatus::Default) => " M "@,
        (WorkspaceStatus::Modified, IndexStatus::Modified) => "MM "@,
        (WorkspaceStatus::Modified, IndexStatus::Deleted) => "DM "@,
        (WorkspaceStatus::Default, IndexStatus::Default) => ""@,
        (WorkspaceStatus::Default, IndexStatus::Added) => " A "@,
        (WorkspaceStatus::Default, IndexStatus::Modified) => " M "@,
        (WorkspaceStatus::Default, IndexStatus::Deleted) => " D "@,
    }
}

/// A path with this pair of classifications is reported.
pub open spec fn shown(ws: WorkspaceStatus, is: IndexStatus) -> bool {
    !(ws == WorkspaceStatus::Default && is == IndexStatus::Default)
}

/// The status lines of `s`, in its order, unchanged paths left out.
pub open spec fn change_lines(s: Seq<StatusChange>) -> Seq<Seq<char>>
    decreases s.len(),
{
    if s.len() == 0 {
        Seq::empty()
    } else {
        let rest = change_lines(s.drop_last());
        let c = s.last();
        if shown(c.workspace, c.index) {
            rest.push(code_of(c.workspace, c.index) + c.path@)
        } else {
            rest
        }
    }
}

/// The lines of untracked paths, in the order of `s`.
pub open spec fn untracked_lines(s: Seq<String>) -> Seq<Seq<char>> {
    s.map_values(|p: String| "?? "@ + p@)
}

/// The views of a list of lines.
pub open spec fn lines_view(v: Seq<String>) -> Seq<Seq<char>> {
    v.map_values(|l: String| l@)
}

fn code(ws: WorkspaceStatus, is: IndexStatus) -> (r: &'static str)
    ensures
        r@ == code_of(ws, is),
{
    match (ws, is) {
        (WorkspaceStatus::Deleted, IndexStatus::Added) => "AD ",
        (WorkspaceStatus::Deleted, IndexStatus::Default) => " D ",
        (WorkspaceStatus::Deleted, IndexStatus::Modified) => "MD ",
        (WorkspaceStatus::Deleted, IndexStatus::Deleted) => "DD ",
        (WorkspaceStatus::Modified, IndexStatus::Added) => "AM ",
        (WorkspaceStatus::Modified, IndexStatus::Default) => " M ",
        (WorkspaceStatus::Modified, IndexStatus::Modified) => "MM ",
        (WorkspaceStatus::Modified, IndexStatus::Deleted) => "DM ",
        (WorkspaceStatus::Default, IndexStatus::Default) => "",
        (WorkspaceStatus::Default, IndexStatus::Added) => " A ",
        (WorkspaceStatus::Default, IndexStatus::Modified) => " M ",
        (WorkspaceStatus::Default, IndexStatus::Deleted) => " D ",
    }
}

/// The status lines of `changes`, in their order, unchanged paths left out.
pub fn render_changes(changes: &Vec<StatusChange>) -> (r: Vec<String>)
    ensures
        lines_view(r@) == change_lines(changes@),
{
    let mut out: Vec<String> = Vec::new();
    let mut i: usize = 0;
    assert(changes@.take(0) =~= Seq::<StatusChange>::empty());
    assert(lines_view(out@) =~= Seq::<Seq<char>>::empty());
    while i < changes.len()
        invariant
            i <= changes@.len(),
            lines_view(out@) == change_lines(changes@.take(i as int)),
        decreases changes@.len() - i,
    {
        let c = &changes[i];
        let ghost before = out@;
        assert(changes@.take(i + 1).drop_last() =~= changes@.take(i as int));
        if !(c.workspace == WorkspaceStatus::Default && c.index == IndexStatus::Default) {
            let mut line = String::from_str(code(c.workspace, c.index));
            line.append(c.path.as_str());
            out.push(line);
            assert(lines_view(out@) =~= lines_view(before).push(code_of(c.workspace, c.index) + c.path@));
        }
        i = i + 1;
    }
    assert(changes@.take(changes@.len() as int) =~= changes@);
    out
}

/// The lines of untracked paths, in their order.
pub fn render_untracked(untracked: &Vec<String>) -> (r: Vec<String>)
    ensures
        lines_view(r@) == untracked_lines(untracked@),
{
    let mut out: Vec<String> = Vec::new();
    let mut i: usize = 0;
    while i < untracked.len()
        invariant
            i <= untracked@.len(),
            lines_view(out@) == untracked_lines(untracked@.take(i as int)),
        decreases untracked@.len() - i,
    {
        let ghost before = out@;
        let mut line = String::from_str("?? ");
        line.append(untracked[i].as_str());
        let ghost lv = line@;
        out.push(line);
        assert(lines_view(out@) =~= lines_view(before).push(lv));
        assert(untracked_lines(untracked@.take(i + 1)) =~= untracked_lines(untracked@.take(i as int)).push(
            "?? "@ + untracked@[i as int]@,
        ));
        i = i + 1;
    }
    assert(untracked@.take(untracked@.len() as int) =~= untracked@);
    out
}

/// The output of a status run: the changed paths in path order, then the
/// untracked paths in path order.
pub fn status_lines(changes: Vec<StatusChange>, untracked: Vec<String>) -> (r: Vec<String>)
    ensures
        exists|s: Seq<StatusChange>, u: Seq<String>| {
            &&& sorted_by_key(s)
            &&& s.to_multiset() == changes@.to_multiset()
            &&& sorted_by_key(u)
            &&& u.to_multiset() == untracked@.to_multiset()
            &&& lines_view(r@) == change_lines(s) + untracked_lines(u)
        },
{
    let s = sort_by_key(changes);
    let u = sort_by_key(untracked);
    let mut out = render_changes(&s);
    let mut tail = render_untracked(&u);
    let ghost head = out@;
    let ghost t = tail@;
    out.append(&mut tail);
    proof {
        assert(out@ == head + t);
        assert(lines_view(out@) =~= lines_view(head) + lines_view(t));
    }
    out
}

/// One path of the working tree, relative to its root, with its metadata.
#[derive(Debug)]
pub struct WorkspaceItem {
    pub path: String,
    pub is_dir: bool,
    pub is_file: bool,
    pub stat: FileStat,
}

/// The bytes `q` occur in the path of some entry.
pub open spec fn tracked_in(idx: Seq<EntryModel>, q: Seq<u8>) -> bool {
    exists|i: int| 0 <= i < idx.len() && contains_bytes(path_key(#[trigger] idx[i]), q)
}

/// The scan reaches `p`: every directory above it is tracked.
pub open spec fn visible(idx: Seq<EntryModel>, p: Seq<u8>) -> bool {
    forall|j: int| 0 <= j < p.len() && p[j] == 47u8 ==> tracked_in(idx, #[trigger] p.take(j))
}

/// Some file of the listing lies beneath directory `d`.
pub open spec fn has_file_under(items: Seq<WorkspaceItem>, d: Seq<u8>) -> bool {
    exists|k: int| 0 <= k < items.len() && (#[trigger] items[k]).is_file && is_ancestor(d, encode_utf8(items[k].path@))
}

/// The metadata that the scan records: tracked files it reaches, in
/// listing order.
pub open spec fn scan_stats(idx: Seq<EntryModel>, s: Seq<WorkspaceItem>) -> Seq<(Seq<char>, FileStat)>
    decreases s.len(),
{
    if s.len() == 0 {
        Seq::empty()
    } else {
        let rest = scan_stats(idx, s.drop_last());
        let it = s.last();
        let p = encode_utf8(it.path@);
        if visible(idx, p) && tracked_in(idx, p) && it.is_file {
            rest.push((it.path@, it.stat))
        } else {
            rest
        }
    }
}

/// The untracked paths that the scan reports, in listing order: files
/// as they are, directories holding some file with a trailing `/`.
pub open spec fn scan_untracked(idx: Seq<EntryModel>, all: Seq<WorkspaceItem>, s: Seq<WorkspaceItem>) -> Seq<Seq<char>>
    decreases s.len(),
{
    if s.len() == 0 {
        Seq::empty()
    } else {
        let rest = scan_untracked(idx, all, s.drop_last());
        let it = s.last();
        let p = encode_utf8(it.path@);
        if visible(idx, p) && !tracked_in(idx, p) {
            if it.is_file {
                rest.push(it.path@)
            } else if it.is_dir && has_file_under(all, p) {
                rest.push(it.path@ + "/"@)
            } else {
                rest
            }
        } else {
            rest
        }
    }
}

/// The views of a list of path and metadata pairs.
pub open spec fn stats_view(v: Seq<(String, FileStat)>) -> Seq<(Seq<char>, FileStat)> {
    v.map_values(|x: (String, FileStat)| (x.0@, x.1))
}

/// The views of a list of paths.
pub open spec fn paths_view(v: Seq<String>) -> Seq<Seq<char>> {
    v.map_values(|x: String| x@)
}

/// Tells whether every directory above `p` is tracked.
fn visible_path(index: &Index, p: &[u8]) -> (r: bool)
    ensures
        r == visible(index@, p@),
{
    let mut j: usize = 0;
    while j < p.len()
        invariant
            j <= p@.len(),
            forall|k: int| 0 <= k < j && p@[k] == 47u8 ==> tracked_in(index@, #[trigger] p@.take(k)),
        decreases p@.len() - j,
    {
        if p[j] == 47u8 {
            let pre = copy_range(p, 0, j);
            assert(pre@ =~= p@.take(j as int));
            if !index.is_tracked_bytes(pre.as_slice()) {
                return false;
            }
        }
        j = j + 1;
    }
    true
}

/// Tells whether some file of the listing lies beneath directory `dir`.
pub fn any_trackable_file(items: &Vec<WorkspaceItem>, dir: &[u8]) -> (r: bool)
    ensures
        r == has_file_under(items@, dir@),
{
    let mut k: usize = 0;
    while k < items.len()
        invariant
            k <= items@.len(),
            forall|a: int| 0 <= a < k ==> !((#[trigger] items@[a]).is_file && is_ancestor(dir@, encode_utf8(items@[a].path@))),
        decreases items@.len() - k,
    {
        if items[k].is_file && is_ancestor_path(dir, items[k].path.as_str().as_bytes()) {
            return true;
        }
        k = k + 1;
    }
    false
}

/// Walks the listing of the working tree the way the status scan does:
/// it enters only tracked directories, records the metadata of tracked
/// files, and reports untracked files and untracked directories that hold
/// some file.
pub fn scan_workspace(index: &Index, items: &Vec<WorkspaceItem>) -> (r: (Vec<(String, FileStat)>, Vec<String>))
    ensures
        stats_view(r.0@) == scan_stats(index@, items@),
        paths_view(r.1@) == scan_untracked(index@, items@, items@),
{
    let mut stats: Vec<(String, FileStat)> = Vec::new();
    let mut untracked: Vec<String> = Vec::new();
    let mut k: usize = 0;
    assert(items@.take(0) =~= Seq::<WorkspaceItem>::empty());
    assert(stats_view(stats@) =~= Seq::<(Seq<char>, FileStat)>::empty());
    assert(paths_view(untracked@) =~= Seq::<Seq<char>>::empty());
    while k < items.len()
        invariant
            k <= items@.len(),
            stats_view(stats@) == scan_stats(index@, items@.take(k as int)),
            paths_view(untracked@) == scan_untracked(index@, items@, items@.take(k as int)),
        decreases items@.len() - k,
    {
        let it = &items[k];
        let p = it.path.as_str().as_bytes();
        let ghost s0 = stats@;
        let ghost u0 = untracked@;
        assert(items@.take(k + 1).drop_last() =~= items@.take(k as int));
        if visible_path(index, p) {
            if index.is_tracked_bytes(p) {
                if it.is_file {
                    stats.push((it.path.clone(), it.stat));
                    assert(stats_view(stats@) =~= stats_view(s0).push((it.path@, it.stat)));
                }
            } else if it.is_file {
                untracked.push(it.path.clone());
                assert(paths_view(untracked@) =~= paths_view(u0).push(it.path@));
            } else if it.is_dir && any_trackable_file(items, p) {
                let mut d = it.path.clone();
                d.append("/");
                untracked.push(d);
                assert(paths_view(untracked@) =~= paths_view(u0).push(it.path@ + "/"@));
            }
        }
        k = k + 1;
    }
    assert(items@.take(items@.len() as int) =~= items@);
    (stats, untracked)
}

/// The HEAD paths that the index no longer tracks, as deletions.
pub open spec fn deleted_from_head(idx: Seq<EntryModel>, head: Seq<(String, Entry)>) -> Seq<(Seq<char>, WorkspaceStatus, IndexStatus)>
    decreases head.len(),
{
    if head.len() == 0 {
        Seq::empty()
    } else {
        let rest = deleted_from_head(idx, head.drop_last());
        let p = head.last().0@;
        if exists|i: int| 0 <= i < idx.len() && path_key(#[trigger] idx[i]) == encode_utf8(p) {
            rest
        } else {
            rest.push((p, WorkspaceStatus::Default, IndexStatus::Deleted))
        }
    }
}

/// The views of a list of status changes.
pub open spec fn changes_view(v: Seq<StatusChange>) -> Seq<(Seq<char>, WorkspaceStatus, IndexStatus)> {
    v.map_values(|c: StatusChange| (c.path@, c.workspace, c.index))
}

/// Every HEAD path that no index entry has, as a deletion staged in the
/// index.
pub fn collect_deleted_head_entries(index: &Index, head: &Vec<(String, Entry)>) -> (r: Vec<StatusChange>)
    ensures
        changes_view(r@) == deleted_from_head(index@, head@),
{
    let mut out: Vec<StatusChange> = Vec::new();
    let mut k: usize = 0;
    assert(head@.take(0) =~= Seq::<(String, Entry)>::empty());
    assert(changes_view(out@) =~= Seq::<(Seq<char>, WorkspaceStatus, IndexStatus)>::empty());
    while k < head.len()
        invariant
            k <= head@.len(),
            changes_view(out@) == deleted_from_head(index@, head@.take(k as int)),
        decreases head@.len() - k,
    {
        let ghost o0 = out@;
        assert(head@.take(k + 1).drop_last() =~= head@.take(k as int));
        if !index.is_tracked_file(head[k].0.as_str()) {
            out.push(StatusChange { path: head[k].0.clone(), workspace: WorkspaceStatus::Default, index: IndexStatus::Deleted });
            assert(changes_view(out@) =~= changes_view(o0).push((head@[k as int].0@, WorkspaceStatus::Default, IndexStatus::Deleted)));
        }
        k = k + 1;
    }
    assert(head@.take(head@.len() as int) =~= head@);
    out
}

/// The path of `name` inside directory `prefix` (the root when empty).
pub open spec fn joined(prefix: Seq<char>, name: Seq<char>) -> Seq<char> {
    if prefix.len() == 0 {
        name
    } else {
        prefix + "/"@ + name
    }
}

/// What one level of a HEAD tree at `prefix` contributes: its files, with
/// their full paths, and its subtrees, as hexadecimal id and full path.
pub open spec fn tree_level(prefix: Seq<char>, s: Seq<TreeEntryModel>) -> (Seq<(Seq<char>, TreeEntryModel)>, Seq<(Seq<char>, Seq<char>)>)
    decreases s.len(),
{
    if s.len() == 0 {
        (Seq::empty(), Seq::empty())
    } else {
        let rest = tree_level(prefix, s.drop_last());
        let e = s.last();
        let p = joined(prefix, e.name);
        if encode_utf8(e.mode) == dir_mode() {
            (rest.0, rest.1.push((hex_lower(e.oid), p)))
        } else {
            (rest.0.push((p, e)), rest.1)
        }
    }
}

/// The views of a list of path and entry pairs.
pub open spec fn head_view(v: Seq<(String, Entry)>) -> Seq<(Seq<char>, TreeEntryModel)> {
    v.map_values(|x: (String, Entry)| (x.0@, x.1@))
}

/// The views of a list of id and path pairs.
pub open spec fn pending_view(v: Seq<(String, String)>) -> Seq<(Seq<char>, Seq<char>)> {
    v.map_values(|x: (String, String)| (x.0@, x.1@))
}

/// Splits one loaded tree of HEAD, found at `prefix`, into its files (full
/// path and entry) and the subtrees still to load (hexadecimal id and full
/// path).
pub fn read_tree(tree: &Tree, prefix: &String) -> (r: (Vec<(String, Entry)>, Vec<(String, String)>))
    ensures
        head_view(r.0@) == tree_level(prefix@, entries_view(tree.entries@)).0,
        pending_view(r.1@) == tree_level(prefix@, entries_view(tree.entries@)).1,
{
    let ghost v = entries_view(tree.entries@);
    let mut files: Vec<(String, Entry)> = Vec::new();
    let mut subtrees: Vec<(String, String)> = Vec::new();
    let mut k: usize = 0;
    assert(v.take(0) =~= Seq::<TreeEntryModel>::empty());
    assert(head_view(files@) =~= Seq::<(Seq<char>, TreeEntryModel)>::empty());
    assert(pending_view(subtrees@) =~= Seq::<(Seq<char>, Seq<char>)>::empty());
    while k < tree.entries.len()
        invariant
            v == entries_view(tree.entries@),
            k <= v.len(),
            head_view(files@) == tree_level(prefix@, v.take(k as int)).0,
            pending_view(subtrees@) == tree_level(prefix@, v.take(k as int)).1,
        decreases v.len() - k,
    {
        let e = &tree.entries[k];
        assert(e@ == v[k as int]);
        assert(v.take(k + 1).drop_last() =~= v.take(k as int));
        let mut path = String::new();
        if !prefix.as_str().is_empty() {
            path.append(prefix.as_str());
            path.append("/");
        }
        path.append(e.name.as_str());
        proof {
            if prefix@.len() == 0 {
                assert(path@ =~= e.name@);
            } else {
                assert(path@ =~= prefix@ + "/"@ + e.name@);
            }
        }
        let ghost f0 = files@;
        let ghost s0 = subtrees@;
        if e.is_tree() {
            let id = hex(e.sha1_hash.as_slice());
            subtrees.push((id, path));
            assert(pending_view(subtrees@) =~= pending_view(s0).push((hex_lower(e.sha1_hash@), joined(prefix@, e.name@))));
        } else {
            files.push((path, e.duplicate()));
            assert(head_view(files@) =~= head_view(f0).push((joined(prefix@, e.name@), e@)));
        }
        k = k + 1;
    }
    assert(v.take(v.len() as int) =~= v);
    (files, subtrees)
}

/// The root tree id (hexadecimal) of the object HEAD names, which must be
/// a commit.
pub fn get_commit_tree(head: &ObjectType) -> (r: Result<String, Error>)
    ensures
        head matches ObjectType::CommitType { commit } ==> r matches Ok(t) && t@ == commit.tree_ref@,
        !(head is CommitType) ==> r == Err::<String, Error>(Error::InvalidCommit),
{
    match head {
        ObjectType::CommitType { commit } => Ok(commit.tree_ref.clone()),
        _ => Err(Error::InvalidCommit),
    }
}

} // verus!
