use vstd::prelude::*;
use vstd::utf8::{decode_utf8, encode_utf8, valid_utf8, decode_utf8_encode_utf8, encode_utf8_decode_utf8, encode_scalar};
use vstd::string::{StringExecFns, StrSliceExecFns};
use crate::bytes::{bytes_eq, copy_range};
use crate::digest::{sha1_of, utf8_string};
use crate::entry::{Entry, TreeEntryModel, name_key, tree_object};
use crate::error::Error;
use crate::index::{Index, EntryModel, path_key, sorted_by_path, survives_add};
use crate::bytes::{lex_lt, lemma_lex_irreflexive};
use crate::status::{get_mode_u, mode_text};
use crate::tree::{Tree, entries_view, distinct_names, sorted_by_name, name_order};
use crate::bytes::{strictly_sorted_by, lemma_sorted_same_elements};
use crate::workspace::Workspace;

verus! {

broadcast use vstd::std_specs::vec::group_vec_axioms;

/// A node of the path trie: a file, or a directory with its own trie.
#[derive(Debug)]
pub enum TreeEntryAux {
    TreeBranchAux { tree: TreeAux },
    TreeLeafAux { entry: Entry },
}

/// One directory level of the path trie: component name to node.
#[derive(Debug)]
pub struct TreeAux {
    pub entries: Vec<(String, TreeEntryAux)>,
}

/// The tree entry that a trie node folds into: a file's own entry, or a
/// directory entry carrying the id of the tree folded from its node.
pub open spec fn built_node(x: (String, TreeEntryAux)) -> TreeEntryModel
    decreases x, 0nat,
{
    match x.1 {
        TreeEntryAux::TreeLeafAux { entry } => entry@,
        TreeEntryAux::TreeBranchAux { tree } => TreeEntryModel {
            mode: "040000"@,
            name: x.0@,
            oid: sha1_of(tree_object(sorted_of(built_level(tree.entries@, tree.entries@.len() as nat)))),
            path: x.0@,
        },
    }
}

/// The entries that the first `n` nodes of a level fold into, in node order.
pub open spec fn built_level(e: Seq<(String, TreeEntryAux)>, n: nat) -> Seq<TreeEntryModel>
    decreases e, n,
{
    if n == 0 || n > e.len() {
        Seq::empty()
    } else {
        built_level(e, (n - 1) as nat).push(built_node(e[n - 1]))
    }
}

/// The trie node is well formed: a file's entry is named by its key, and
/// a directory's level is well formed.
pub open spec fn node_wf(x: (String, TreeEntryAux)) -> bool
    decreases x, 0nat,
{
    match x.1 {
        TreeEntryAux::TreeLeafAux { entry } => entry.name@ == x.0@,
        TreeEntryAux::TreeBranchAux { tree } => distinct_level(tree) && level_wf(tree.entries@, tree.entries@.len() as nat),
    }
}

/// The first `n` nodes of a level are well formed.
pub open spec fn level_wf(e: Seq<(String, TreeEntryAux)>, n: nat) -> bool
    decreases e, n,
{
    if n == 0 || n > e.len() {
        true
    } else {
        level_wf(e, (n - 1) as nat) && node_wf(e[n - 1])
    }
}

/// The whole trie is well formed: names are distinct at every level, and
/// each file's entry is named by its key.
pub open spec fn aux_wf(t: TreeAux) -> bool {
    distinct_level(t) && level_wf(t.entries@, t.entries@.len() as nat)
}

/// A level is well formed exactly when each of its nodes is.
pub proof fn lemma_level_wf_all(e: Seq<(String, TreeEntryAux)>, n: nat)
    requires
        n <= e.len(),
    ensures
        level_wf(e, n) <==> forall|j: int| 0 <= j < n ==> node_wf(#[trigger] e[j]),
    decreases n,
{
    if n > 0 {
        lemma_level_wf_all(e, (n - 1) as nat);
    }
}

/// The entries of `s` in name order, when names are distinct.
pub open spec fn sorted_of(s: Seq<TreeEntryModel>) -> Seq<TreeEntryModel> {
    choose|x: Seq<TreeEntryModel>| sorted_by_name(x) && forall|m: TreeEntryModel| x.contains(m) <==> s.contains(m)
}

/// The component names of one level.
pub open spec fn level_names(t: TreeAux) -> Seq<Seq<char>> {
    t.entries@.map_values(|x: (String, TreeEntryAux)| x.0@)
}

/// No two nodes of one level share a name.
pub open spec fn distinct_level(t: TreeAux) -> bool {
    forall|i: int, j: int| 0 <= i < j < t.entries@.len() ==> t.entries@[i].0@ != t.entries@[j].0@
}

/// The views of a list of texts.
pub open spec fn names_view(v: Seq<String>) -> Seq<Seq<char>> {
    v.map_values(|x: String| x@)
}

/// Following the directories `dirs` down from `t` reaches a file named
/// `name` whose entry is `leaf`, or stops at a file that stands where one
/// of the directories should be.
pub open spec fn placed(t: TreeAux, dirs: Seq<Seq<char>>, name: Seq<char>, leaf: TreeEntryModel) -> bool
    decreases dirs.len(),
{
    if dirs.len() == 0 {
        exists|k: int|
            0 <= k < t.entries@.len() && #[trigger] t.entries@[k].0@ == name && (t.entries@[k].1 matches TreeEntryAux::TreeLeafAux {
                entry,
            } && entry@ == leaf)
    } else {
        exists|k: int|
            0 <= k < t.entries@.len() && #[trigger] t.entries@[k].0@ == dirs[0] && match t.entries@[k].1 {
                TreeEntryAux::TreeLeafAux { entry } => true,
                TreeEntryAux::TreeBranchAux { tree } => placed(tree, dirs.drop_first(), name, leaf),
            }
    }
}

/// A file of `t` stands where one of the directories `dirs` should be.
pub open spec fn blocked(t: TreeAux, dirs: Seq<Seq<char>>) -> bool
    decreases dirs.len(),
{
    dirs.len() > 0 && exists|k: int|
        0 <= k < t.entries@.len() && #[trigger] t.entries@[k].0@ == dirs[0] && match t.entries@[k].1 {
            TreeEntryAux::TreeLeafAux { entry } => true,
            TreeEntryAux::TreeBranchAux { tree } => blocked(tree, dirs.drop_first()),
        }
}

/// Following the directories `dirs` down from `t`, through directory
/// nodes only, reaches a file named `name` whose entry is `leaf`.
pub open spec fn reached(t: TreeAux, dirs: Seq<Seq<char>>, name: Seq<char>, leaf: TreeEntryModel) -> bool
    decreases dirs.len(),
{
    exists|k: int|
        0 <= k < t.entries@.len() && if dirs.len() == 0 {
            #[trigger] t.entries@[k].0@ == name && (t.entries@[k].1 matches TreeEntryAux::TreeLeafAux { entry } && entry@
                == leaf)
        } else {
            t.entries@[k].0@ == dirs[0] && match t.entries@[k].1 {
                TreeEntryAux::TreeLeafAux { entry } => false,
                TreeEntryAux::TreeBranchAux { tree } => reached(tree, dirs.drop_first(), name, leaf),
            }
        }
}

/// The node `x` of a level is where `reached` goes on: the file itself when
/// no directory is left, else the directory `dirs[0]`.
pub open spec fn reached_via(x: (String, TreeEntryAux), dirs: Seq<Seq<char>>, name: Seq<char>, leaf: TreeEntryModel) -> bool {
    if dirs.len() == 0 {
        x.0@ == name && (x.1 matches TreeEntryAux::TreeLeafAux { entry } && entry@ == leaf)
    } else {
        x.0@ == dirs[0] && match x.1 {
            TreeEntryAux::TreeLeafAux { entry } => false,
            TreeEntryAux::TreeBranchAux { tree } => reached(tree, dirs.drop_first(), name, leaf),
        }
    }
}

proof fn lemma_reached_intro(t: TreeAux, k: int, d: Seq<Seq<char>>, n: Seq<char>, l: TreeEntryModel)
    requires
        0 <= k < t.entries@.len(),
        reached_via(t.entries@[k], d, n, l),
    ensures
        reached(t, d, n, l),
{
    assert(t.entries@[k].0@ == t.entries@[k].0@);
}

proof fn lemma_reached_witness(t: TreeAux, d: Seq<Seq<char>>, n: Seq<char>, l: TreeEntryModel) -> (k: int)
    requires
        reached(t, d, n, l),
    ensures
        0 <= k < t.entries@.len(),
        reached_via(t.entries@[k], d, n, l),
{
    let k = choose|k: int|
        0 <= k < t.entries@.len() && if d.len() == 0 {
            #[trigger] t.entries@[k].0@ == n && (t.entries@[k].1 matches TreeEntryAux::TreeLeafAux { entry } && entry@ == l)
        } else {
            t.entries@[k].0@ == d[0] && match t.entries@[k].1 {
                TreeEntryAux::TreeLeafAux { entry } => false,
                TreeEntryAux::TreeBranchAux { tree } => reached(tree, d.drop_first(), n, l),
            }
        };
    k
}

/// One level of `add_entry` that goes down the directory `dirs[0]`, at
/// position `pos` of `mid` (the old level, or the old level and a new empty
/// directory when `fresh`): the other files stay reachable, and only the new
/// one is added.
#[verifier::rlimit(60)]
proof fn lemma_branch_level(
    t_old: TreeAux,
    t_new: TreeAux,
    mid: Seq<(String, TreeEntryAux)>,
    pos: int,
    fresh: bool,
    dirs: Seq<Seq<char>>,
    name: Seq<char>,
    leaf: TreeEntryModel,
)
    requires
        dirs.len() > 0,
        0 <= pos < mid.len(),
        t_new.entries@.len() == mid.len(),
        forall|k: int| 0 <= k < mid.len() && k != pos ==> t_new.entries@[k] == mid[k],
        mid[pos].0@ == dirs[0],
        fresh ==> pos == t_old.entries@.len() && mid.len() == pos + 1,
        fresh ==> forall|j: int| 0 <= j < pos ==> mid[j] == t_old.entries@[j],
        fresh ==> (mid[pos].1 matches TreeEntryAux::TreeBranchAux { tree } && tree.entries@.len() == 0),
        fresh ==> forall|j: int| 0 <= j < t_old.entries@.len() ==> t_old.entries@[j].0@ != dirs[0],
        !fresh ==> mid == t_old.entries@,
        node_wf(mid[pos]) ==> forall|d2: Seq<Seq<char>>, n2: Seq<char>, l2: TreeEntryModel|
            #[trigger] reached_via(mid[pos], d2, n2, l2) && !comp_conflict(dirs.push(name), d2.push(n2)) ==> reached_via(
                t_new.entries@[pos],
                d2,
                n2,
                l2,
            ),
        forall|d2: Seq<Seq<char>>, n2: Seq<char>, l2: TreeEntryModel|
            #[trigger] reached_via(t_new.entries@[pos], d2, n2, l2) ==> reached_via(mid[pos], d2, n2, l2) || (d2 == dirs
                && n2 == name && l2 == leaf),
    ensures
        forall|d2: Seq<Seq<char>>, n2: Seq<char>, l2: TreeEntryModel| #[trigger] reached(t_new, d2, n2, l2) ==> reached(
            t_old,
            d2,
            n2,
            l2,
        ) || (d2 == dirs && n2 == name && l2 == leaf),
        aux_wf(t_old) ==> forall|d2: Seq<Seq<char>>, n2: Seq<char>, l2: TreeEntryModel|
            #[trigger] reached(t_old, d2, n2, l2) && !comp_conflict(dirs.push(name), d2.push(n2)) ==> reached(t_new, d2, n2, l2),
{
    let n = t_new.entries@;
    let o = t_old.entries@;
    assert forall|d2: Seq<Seq<char>>, n2: Seq<char>, l2: TreeEntryModel| #[trigger] reached(t_new, d2, n2, l2) implies reached(
        t_old,
        d2,
        n2,
        l2,
    ) || (d2 == dirs && n2 == name && l2 == leaf) by {
        let k = lemma_reached_witness(t_new, d2, n2, l2);
        if k != pos {
            assert(n[k] == mid[k]);
            assert(reached_via(o[k], d2, n2, l2));
            lemma_reached_intro(t_old, k, d2, n2, l2);
        } else if !(d2 == dirs && n2 == name && l2 == leaf) {
            assert(reached_via(mid[pos], d2, n2, l2));
            if fresh {
                assert(false);
            } else {
                lemma_reached_intro(t_old, pos, d2, n2, l2);
            }
        }
    }
    if aux_wf(t_old) {
        assert forall|d2: Seq<Seq<char>>, n2: Seq<char>, l2: TreeEntryModel| #[trigger] reached(t_old, d2, n2, l2)
            && !comp_conflict(dirs.push(name), d2.push(n2)) implies reached(t_new, d2, n2, l2) by {
            let k = lemma_reached_witness(t_old, d2, n2, l2);
            if o[k].0@ != dirs[0] {
                assert(mid[k] == o[k]);
                assert(n[k] == mid[k]);
                lemma_reached_intro(t_new, k, d2, n2, l2);
            } else {
                assert(!fresh);
                assert(k == pos) by {
                    if k != pos {
                        assert(o[pos].0@ == dirs[0]);
                    }
                }
                lemma_level_wf_all(o, o.len() as nat);
                assert(node_wf(mid[pos]));
                lemma_reached_intro(t_new, pos, d2, n2, l2);
            }
        }
    }
}

/// One level of `add_entry` that sets the file `name` at position `i` (or
/// after the old nodes, when it is new there): the other files stay
/// reachable, and only the new one is added.
proof fn lemma_leaf_level(
    t_old: TreeAux,
    t_new: TreeAux,
    i: int,
    replaced: bool,
    dirs: Seq<Seq<char>>,
    name: Seq<char>,
    leaf: TreeEntryModel,
)
    requires
        dirs.len() == 0,
        replaced ==> 0 <= i < t_old.entries@.len() && t_new.entries@.len() == t_old.entries@.len()
            && t_old.entries@[i].0@ == name,
        !replaced ==> i == t_old.entries@.len() && t_new.entries@.len() == i + 1,
        forall|k: int| 0 <= k < t_old.entries@.len() && k != i ==> t_new.entries@[k] == t_old.entries@[k],
        t_new.entries@[i].0@ == name,
        t_new.entries@[i].1 matches TreeEntryAux::TreeLeafAux { entry } && entry@ == leaf,
    ensures
        reached(t_new, dirs, name, leaf),
        forall|d2: Seq<Seq<char>>, n2: Seq<char>, l2: TreeEntryModel| #[trigger] reached(t_new, d2, n2, l2) ==> reached(
            t_old,
            d2,
            n2,
            l2,
        ) || (d2 == dirs && n2 == name && l2 == leaf),
        forall|d2: Seq<Seq<char>>, n2: Seq<char>, l2: TreeEntryModel| #[trigger] reached(t_old, d2, n2, l2)
            && !comp_conflict(dirs.push(name), d2.push(n2)) ==> reached(t_new, d2, n2, l2),
{
    let n = t_new.entries@;
    let o = t_old.entries@;
    let fv = dirs.push(name);
    lemma_reached_intro(t_new, i, dirs, name, leaf);
    assert forall|d2: Seq<Seq<char>>, n2: Seq<char>, l2: TreeEntryModel| #[trigger] reached(t_new, d2, n2, l2) implies reached(
        t_old,
        d2,
        n2,
        l2,
    ) || (d2 == dirs && n2 == name && l2 == leaf) by {
        let k = lemma_reached_witness(t_new, d2, n2, l2);
        if k != i {
            assert(n[k] == o[k]);
            lemma_reached_intro(t_old, k, d2, n2, l2);
        } else {
            assert(d2.len() == 0);
            assert(d2 =~= dirs);
        }
    }
    assert forall|d2: Seq<Seq<char>>, n2: Seq<char>, l2: TreeEntryModel| #[trigger] reached(t_old, d2, n2, l2)
        && !comp_conflict(fv, d2.push(n2)) implies reached(t_new, d2, n2, l2) by {
        let k = lemma_reached_witness(t_old, d2, n2, l2);
        let gv = d2.push(n2);
        if o[k].0@ == name {
            assert(gv[0] == name);
            assert(gv.take(1) =~= fv);
            assert(false);
        }
        assert(k != i);
        assert(n[k] == o[k]);
        lemma_reached_intro(t_new, k, d2, n2, l2);
    }
}

/// The path `a` (as components) is `b` or a directory above it.
pub open spec fn comp_prefix(a: Seq<Seq<char>>, b: Seq<Seq<char>>) -> bool {
    a.len() <= b.len() && b.take(a.len() as int) == a
}

/// Two paths cannot both be files of one tree: they are equal, or one is a
/// directory above the other.
pub open spec fn comp_conflict(a: Seq<Seq<char>>, b: Seq<Seq<char>>) -> bool {
    comp_prefix(a, b) || comp_prefix(b, a)
}

proof fn lemma_conflict_tail(f: Seq<Seq<char>>, g: Seq<Seq<char>>)
    requires
        f.len() > 0,
        g.len() > 0,
        f[0] == g[0],
    ensures
        comp_conflict(f, g) <==> comp_conflict(f.drop_first(), g.drop_first()),
{
    let ft = f.drop_first();
    let gt = g.drop_first();
    if comp_prefix(f, g) {
        assert(gt.take(ft.len() as int) =~= g.take(f.len() as int).drop_first());
    }
    if comp_prefix(g, f) {
        assert(ft.take(gt.len() as int) =~= f.take(g.len() as int).drop_first());
    }
    if comp_prefix(ft, gt) {
        assert(g.take(f.len() as int) =~= seq![g[0]] + gt.take(ft.len() as int));
        assert(f =~= seq![f[0]] + ft);
    }
    if comp_prefix(gt, ft) {
        assert(f.take(g.len() as int) =~= seq![f[0]] + ft.take(gt.len() as int));
        assert(g =~= seq![g[0]] + gt);
    }
}

proof fn lemma_push_keeps(a: Seq<Seq<char>>, x: Seq<char>)
    ensures
        forall|s: Seq<char>| a.contains(s) ==> a.push(x).contains(s),
        a.push(x).contains(x),
{
    assert forall|s: Seq<char>| a.contains(s) implies a.push(x).contains(s) by {
        let k = choose|k: int| 0 <= k < a.len() && a[k] == s;
        assert(a.push(x)[k] == s);
    }
    assert(a.push(x)[a.len() as int] == x);
}

/// Where the node named `name` stands in a level, if anywhere.
fn position_in(t: &TreeAux, name: &String) -> (r: Option<usize>)
    ensures
        r matches Some(i) ==> i < t.entries@.len() && t.entries@[i as int].0@ == name@,
        r is None ==> forall|k: int| 0 <= k < t.entries@.len() ==> t.entries@[k].0@ != name@,
{
    let mut i: usize = 0;
    while i < t.entries.len()
        invariant
            i <= t.entries@.len(),
            forall|k: int| 0 <= k < i ==> t.entries@[k].0@ != name@,
        decreases t.entries@.len() - i,
    {
        if t.entries[i].0 == *name {
            return Some(i);
        }
        i = i + 1;
    }
    None
}

impl TreeAux {
    /// An empty trie.
    pub fn new() -> (r: TreeAux)
        ensures
            r.entries@.len() == 0,
    {
        TreeAux { entries: Vec::new() }
    }

    /// Sets the file `name` of this level to `entry`, replacing a node of
    /// that name or adding one.
    #[verifier::rlimit(60)]
    fn put_leaf(&mut self, name: String, entry: Entry)
        requires
            entry.name@ == name@,
        ensures
            distinct_level(*old(self)) ==> distinct_level(*final(self)),
            aux_wf(*old(self)) ==> aux_wf(*final(self)),
            forall|s: Seq<char>| level_names(*old(self)).contains(s) ==> level_names(*final(self)).contains(s),
            exists|k: int| {
                &&& 0 <= k < final(self).entries@.len()
                &&& #[trigger] final(self).entries@[k].0@ == name@
                &&& final(self).entries@[k].1 matches TreeEntryAux::TreeLeafAux { entry: e }
                &&& e@ == entry@
            },
            reached(*final(self), Seq::<Seq<char>>::empty(), name@, entry@),
            forall|j: int| 0 <= j < old(self).entries@.len() && old(self).entries@[j].0@ != name@
                ==> final(self).entries@.contains(#[trigger] old(self).entries@[j]),
            forall|d2: Seq<Seq<char>>, n2: Seq<char>, l2: TreeEntryModel| #[trigger] reached(*final(self), d2, n2, l2)
                ==> reached(*old(self), d2, n2, l2) || (d2 == Seq::<Seq<char>>::empty() && n2 == name@ && l2 == entry@),
            forall|d2: Seq<Seq<char>>, n2: Seq<char>, l2: TreeEntryModel| #[trigger] reached(*old(self), d2, n2, l2)
                && !comp_conflict(seq![name@], d2.push(n2)) ==> reached(*final(self), d2, n2, l2),
    {
        let ghost dirs = Seq::<Seq<char>>::empty();
        let ghost leaf = entry@;
        proof {
            assert(dirs.push(name@) =~= seq![name@]);
        }
        match position_in(self, &name) {
            Some(i) => {
                let ghost before = self.entries@;
                self.entries.remove(i);
                self.entries.insert(i, (name, TreeEntryAux::TreeLeafAux { entry }));
                proof {
                    let n = self.entries@;
                    assert forall|k: int| 0 <= k < n.len() implies n[k].0@ == before[k].0@ by {
                        if k != i {
                            assert(n[k] == before[k]);
                        }
                    }
                    assert(n[i as int].0@ == name@);
                    lemma_leaf_level(*old(self), *self, i as int, true, dirs, name@, leaf);
                    assert forall|j: int| 0 <= j < before.len() && before[j].0@ != name@ implies n.contains(#[trigger] before[j]) by {
                        assert(j != i);
                        assert(n[j] == before[j]);
                    }
                    assert(level_names(*self) =~= level_names(*old(self)));
                    assert(aux_wf(*old(self)) ==> aux_wf(*self)) by {
                        if aux_wf(*old(self)) {
                            lemma_level_wf_all(before, before.len() as nat);
                            lemma_level_wf_all(n, n.len() as nat);
                            assert forall|j: int| 0 <= j < n.len() implies node_wf(#[trigger] n[j]) by {
                                if j != i {
                                    assert(n[j] == before[j]);
                                }
                            }
                            assert forall|a: int, b: int| 0 <= a < b < n.len() implies n[a].0@ != n[b].0@ by {
                                assert(n[a].0@ == before[a].0@ && n[b].0@ == before[b].0@);
                            }
                        }
                    }
                    assert forall|a: int, b: int| 0 <= a < b < n.len() && distinct_level(*old(self)) implies n[a].0@ != n[b].0@ by {
                        assert(n[a].0@ == before[a].0@ && n[b].0@ == before[b].0@);
                    }
                }
            },
            None => {
                let ghost before = self.entries@;
                self.entries.push((name, TreeEntryAux::TreeLeafAux { entry }));
                proof {
                    let n = self.entries@;
                    let last = n.len() - 1;
                    assert(n[last].0@ == name@);
                    lemma_leaf_level(*old(self), *self, last, false, dirs, name@, leaf);
                    assert forall|j: int| 0 <= j < before.len() implies n.contains(#[trigger] before[j]) by {
                        assert(n[j] == before[j]);
                    }
                    assert(level_names(*self) =~= level_names(*old(self)).push(name@));
                    lemma_push_keeps(level_names(*old(self)), name@);
                    assert(aux_wf(*old(self)) ==> aux_wf(*self)) by {
                        if aux_wf(*old(self)) {
                            lemma_level_wf_all(before, before.len() as nat);
                            lemma_level_wf_all(n, n.len() as nat);
                            assert forall|j: int| 0 <= j < n.len() implies node_wf(#[trigger] n[j]) by {
                                if j < last {
                                    assert(n[j] == before[j]);
                                }
                            }
                            assert forall|a: int, b: int| 0 <= a < b < n.len() implies n[a].0@ != n[b].0@ by {
                                if b == last {
                                    assert(n[a] == before[a]);
                                    assert(!level_names(*old(self)).contains(name@)) by {
                                        if level_names(*old(self)).contains(name@) {
                                            let q = choose|q: int| 0 <= q < level_names(*old(self)).len() && level_names(*old(self))[q] == name@;
                                            assert(before[q].0@ == name@);
                                        }
                                    }
                                    assert(level_names(*old(self))[a] == before[a].0@);
                                } else {
                                    assert(n[a] == before[a] && n[b] == before[b]);
                                }
                            }
                        }
                    }
                    assert forall|a: int, b: int| 0 <= a < b < n.len() && distinct_level(*old(self)) implies n[a].0@ != n[b].0@ by {
                        if b == last {
                            assert(n[a] == before[a]);
                        } else {
                            assert(n[a] == before[a] && n[b] == before[b]);
                        }
                    }
                }
            },
        }
    }

    /// Adds the file `name` (at `path`, with id `oid` and tracked `mode`)
    /// beneath the directories `ancestors`, root first, making the
    /// directories that are missing. A file already standing where a
    /// directory is needed is kept, and the new file is dropped.
    #[verifier::rlimit(100)]
    pub fn add_entry(&mut self, ancestors: Vec<String>, name: String, path: String, oid: Vec<u8>, mode: u32)
        ensures
            distinct_level(*old(self)) ==> distinct_level(*final(self)),
            aux_wf(*old(self)) ==> aux_wf(*final(self)),
            ancestors@.len() == 0 ==> exists|k: int| {
                &&& 0 <= k < final(self).entries@.len()
                &&& #[trigger] final(self).entries@[k].0@ == name@
                &&& final(self).entries@[k].1 matches TreeEntryAux::TreeLeafAux { entry }
                &&& entry@ == (TreeEntryModel { mode: mode_text(mode), name: name@, oid: oid@, path: path@ })
            },
            ancestors@.len() > 0 ==> level_names(*final(self)).contains(ancestors@[0]@),
            forall|s: Seq<char>| level_names(*old(self)).contains(s) ==> level_names(*final(self)).contains(s),
            placed(*final(self), names_view(ancestors@), name@, TreeEntryModel { mode: mode_text(mode), name: name@, oid: oid@, path: path@ }),
            !blocked(*old(self), names_view(ancestors@)) ==> reached(*final(self), names_view(ancestors@), name@,
                TreeEntryModel { mode: mode_text(mode), name: name@, oid: oid@, path: path@ }),
            forall|j: int| 0 <= j < old(self).entries@.len() && old(self).entries@[j].0@ != (if ancestors@.len() > 0 {
                ancestors@[0]@
            } else {
                name@
            }) ==> final(self).entries@.contains(#[trigger] old(self).entries@[j]),
            aux_wf(*old(self)) ==> forall|d2: Seq<Seq<char>>, n2: Seq<char>, l2: TreeEntryModel|
                #[trigger] reached(*old(self), d2, n2, l2) && !comp_conflict(names_view(ancestors@).push(name@), d2.push(n2))
                    ==> reached(*final(self), d2, n2, l2),
            forall|d2: Seq<Seq<char>>, n2: Seq<char>, l2: TreeEntryModel| #[trigger] reached(*final(self), d2, n2, l2) ==> reached(
                *old(self),
                d2,
                n2,
                l2,
            ) || (d2 == names_view(ancestors@) && n2 == name@ && l2 == (TreeEntryModel {
                mode: mode_text(mode),
                name: name@,
                oid: oid@,
                path: path@,
            })),
        decreases ancestors@.len(),
    {
        let ghost dirs = names_view(ancestors@);
        let ghost leaf = TreeEntryModel { mode: mode_text(mode), name: name@, oid: oid@, path: path@ };
        if ancestors.len() > 0 {
            let mut rest = ancestors;
            let first = rest.remove(0);
            assert(names_view(rest@) =~= dirs.drop_first());
            assert(dirs[0] == first@);
            let pos = match position_in(self, &first) {
                Some(i) => i,
                None => {
                    let ghost before = self.entries@;
                    self.entries.push((first.clone(), TreeEntryAux::TreeBranchAux { tree: TreeAux::new() }));
                    proof {
                        let n = self.entries@.len() as int;
                        assert forall|i: int, j: int| 0 <= i < j < n && distinct_level(*old(self)) implies self.entries@[i].0@
                            != self.entries@[j].0@ by {
                            if j == n - 1 {
                                assert(self.entries@[j].0@ == first@);
                                assert(self.entries@[i] == before[i]);
                            } else {
                                assert(self.entries@[i] == before[i] && self.entries@[j] == before[j]);
                            }
                        }
                        assert(level_names(*self) =~= level_names(*old(self)).push(first@));
                        lemma_push_keeps(level_names(*old(self)), first@);
                        lemma_level_wf_all(before, before.len() as nat);
                        lemma_level_wf_all(self.entries@, self.entries@.len() as nat);
                        assert(aux_wf(*old(self)) ==> aux_wf(*self)) by {
                            if aux_wf(*old(self)) {
                                assert forall|j: int| 0 <= j < self.entries@.len() implies node_wf(#[trigger] self.entries@[j]) by {
                                    if j < before.len() {
                                        assert(self.entries@[j] == before[j]);
                                    } else {
                                        lemma_level_wf_all(Seq::<(String, TreeEntryAux)>::empty(), 0);
                                    }
                                }
                            }
                        }
                    }
                    (self.entries.len() - 1) as usize
                },
            };
            let ghost fresh = pos >= old(self).entries@.len();
            assert(fresh ==> forall|j: int| 0 <= j < old(self).entries@.len() ==> old(self).entries@[j].0@ != dirs[0]);
            assert(!fresh ==> self.entries@ == old(self).entries@);
            proof {
                assert(forall|j: int| 0 <= j < old(self).entries@.len() ==> self.entries@[j] == old(self).entries@[j]);
                if fresh {
                    assert(self.entries@[pos as int].1 matches TreeEntryAux::TreeBranchAux { tree } && tree.entries@.len() == 0);
                }
            }
            let ghost mid = self.entries@;
            proof {
                assert(distinct_level(*old(self)) ==> distinct_level(*self));
                assert(forall|s: Seq<char>| level_names(*old(self)).contains(s) ==> level_names(*self).contains(s));
                assert(mid[pos as int].0@ == first@);
                assert(aux_wf(*old(self)) ==> aux_wf(*self));
            }
            let (key, node) = self.entries.remove(pos);
            let node = match node {
                TreeEntryAux::TreeLeafAux { entry } => TreeEntryAux::TreeLeafAux { entry },
                TreeEntryAux::TreeBranchAux { tree } => {
                    let ghost t0 = tree;
                    let mut tree = tree;
                    let ghost rv = names_view(rest@);
                    tree.add_entry(rest, name, path, oid, mode);
                    proof {
                        let fv = dirs.push(name@);
                        assert(fv.drop_first() =~= rv.push(name@));
                        assert(node_wf(mid[pos as int]) ==> forall|d2: Seq<Seq<char>>, n2: Seq<char>, l2: TreeEntryModel|
                            #[trigger] reached_via((key, TreeEntryAux::TreeBranchAux { tree: t0 }), d2, n2, l2) && !comp_conflict(
                                fv,
                                d2.push(n2),
                            ) ==> reached_via((key, TreeEntryAux::TreeBranchAux { tree }), d2, n2, l2)) by {
                            assert forall|d2: Seq<Seq<char>>, n2: Seq<char>, l2: TreeEntryModel|
                                node_wf(mid[pos as int]) && #[trigger] reached_via((key, TreeEntryAux::TreeBranchAux { tree: t0 }), d2, n2, l2)
                                    && !comp_conflict(fv, d2.push(n2)) implies reached_via((key, TreeEntryAux::TreeBranchAux { tree }), d2, n2, l2) by {
                                let gv = d2.push(n2);
                                assert(d2.len() > 0);
                                assert(gv.drop_first() =~= d2.drop_first().push(n2));
                                lemma_conflict_tail(fv, gv);
                                assert(reached(t0, d2.drop_first(), n2, l2));
                            }
                        }
                        assert forall|d2: Seq<Seq<char>>, n2: Seq<char>, l2: TreeEntryModel|
                            #[trigger] reached_via((key, TreeEntryAux::TreeBranchAux { tree }), d2, n2, l2) implies reached_via(
                            (key, TreeEntryAux::TreeBranchAux { tree: t0 }),
                            d2,
                            n2,
                            l2,
                        ) || (d2 == dirs && n2 == name@ && l2 == leaf) by {
                            assert(d2.len() > 0);
                            assert(reached(tree, d2.drop_first(), n2, l2));
                            if !reached(t0, d2.drop_first(), n2, l2) {
                                assert(d2.drop_first() == rv);
                                assert(key@ == dirs[0]);
                                assert(d2.len() == dirs.len());
                                assert forall|q: int| 0 <= q < d2.len() implies d2[q] == dirs[q] by {
                                    if q > 0 {
                                        assert(d2[q] == d2.drop_first()[q - 1]);
                                        assert(dirs[q] == dirs.drop_first()[q - 1]);
                                    }
                                }
                                assert(d2 =~= dirs);
                            }
                        }
                    }
                    TreeEntryAux::TreeBranchAux { tree }
                },
            };
            proof {
                let fv = dirs.push(name@);
                assert(node_wf(mid[pos as int]) ==> forall|d2: Seq<Seq<char>>, n2: Seq<char>, l2: TreeEntryModel|
                    #[trigger] reached_via(mid[pos as int], d2, n2, l2) && !comp_conflict(fv, d2.push(n2)) ==> reached_via(
                        (key, node),
                        d2,
                        n2,
                        l2,
                    ));
                assert(forall|d2: Seq<Seq<char>>, n2: Seq<char>, l2: TreeEntryModel|
                    #[trigger] reached_via((key, node), d2, n2, l2) ==> reached_via(mid[pos as int], d2, n2, l2) || (d2
                        == dirs && n2 == name@ && l2 == leaf));
                assert(node_wf(mid[pos as int]) ==> node_wf((key, node)));
                assert(!blocked(*old(self), dirs) ==> (node matches TreeEntryAux::TreeBranchAux { tree } && reached(
                    tree,
                    dirs.drop_first(),
                    name@,
                    leaf,
                ))) by {
                    if !blocked(*old(self), dirs) {
                        if !fresh {
                            assert(old(self).entries@[pos as int] == mid[pos as int]);
                        }
                    }
                }
            }
            self.entries.insert(pos, (key, node));
            proof {
                assert(aux_wf(*old(self)) ==> aux_wf(*self)) by {
                    if aux_wf(*old(self)) {
                        lemma_level_wf_all(mid, mid.len() as nat);
                        lemma_level_wf_all(self.entries@, self.entries@.len() as nat);
                        assert forall|j: int| 0 <= j < self.entries@.len() implies node_wf(#[trigger] self.entries@[j]) by {
                            if j != pos {
                                assert(self.entries@[j] == mid[j]);
                            }
                        }
                        assert(distinct_level(*self)) by {
                            assert forall|a: int, b: int| 0 <= a < b < self.entries@.len() implies self.entries@[a].0@
                                != self.entries@[b].0@ by {
                                if a != pos {
                                    assert(self.entries@[a] == mid[a]);
                                }
                                if b != pos {
                                    assert(self.entries@[b] == mid[b]);
                                }
                            }
                        }
                    }
                }
                let n = self.entries@;
                assert(n[pos as int].0@ == dirs[0]);
                assert(placed(*self, dirs, name@, leaf));
                assert(!blocked(*old(self), dirs) ==> reached(*self, dirs, name@, leaf)) by {
                    if !blocked(*old(self), dirs) {
                        assert(reached_via(n[pos as int], dirs, name@, leaf));
                        lemma_reached_intro(*self, pos as int, dirs, name@, leaf);
                    }
                }
                lemma_branch_level(*old(self), *self, mid, pos as int, fresh, dirs, name@, leaf);
                assert forall|j: int| 0 <= j < old(self).entries@.len() && old(self).entries@[j].0@ != dirs[0] implies self.entries@.contains(
                    #[trigger] old(self).entries@[j]) by {
                    assert(mid[j] == old(self).entries@[j]);
                    assert(j != pos);
                    assert(n[j] == mid[j]);
                }
                assert forall|k: int| 0 <= k < n.len() implies n[k].0@ == mid[k].0@ by {
                    if k != pos {
                        assert(n[k] == mid[k]);
                    }
                }
                assert(n[pos as int].0@ == first@);
                assert(level_names(*self) =~= mid.map_values(|x: (String, TreeEntryAux)| x.0@));
                assert(level_names(*self)[pos as int] == first@);
                assert forall|a: int, b: int| 0 <= a < b < n.len() && distinct_level(*old(self)) implies n[a].0@ != n[b].0@ by {
                    assert(n[a].0@ == mid[a].0@ && n[b].0@ == mid[b].0@);
                }
            }
        } else {
            let entry = Entry::new(get_mode_u(mode), oid, path, name.clone());
            proof {
                assert(dirs =~= Seq::<Seq<char>>::empty());
                assert(dirs.push(name@) =~= seq![name@]);
            }
            self.put_leaf(name, entry);
        }
    }
}

/// A tree whose entries are in name order and whose id is the digest of
/// its record.
pub open spec fn tree_ok(t: Tree) -> bool {
    &&& t.wf()
    &&& t.sha1_hash@ == sha1_of(tree_object(entries_view(t.entries@)))
}

/// Some tree of `out`, from position `from` on, has id `oid`.
pub open spec fn stored_with_oid(out: Seq<Tree>, from: int, oid: Seq<u8>) -> bool {
    exists|k: int| from <= k < out.len() && #[trigger] out[k].sha1_hash@ == oid
}

/// Tells whether no two entries share a name.
fn names_distinct(v: &Vec<Entry>) -> (r: bool)
    ensures
        r == distinct_names(entries_view(v@)),
{
    let ghost w = entries_view(v@);
    let mut i: usize = 0;
    while i < v.len()
        invariant
            w == entries_view(v@),
            i <= w.len(),
            forall|a: int, b: int| 0 <= a < b < w.len() && a < i ==> name_key(w[a]) != name_key(w[b]),
        decreases w.len() - i,
    {
        let mut j: usize = i + 1;
        while j < v.len()
            invariant
                w == entries_view(v@),
                i < w.len(),
                i + 1 <= j <= w.len(),
                forall|a: int, b: int| 0 <= a < b < w.len() && a < i ==> name_key(w[a]) != name_key(w[b]),
                forall|b: int| i < b < j ==> name_key(w[i as int]) != name_key(w[b]),
            decreases w.len() - j,
        {
            assert(v@[i as int]@ == w[i as int] && v@[j as int]@ == w[j as int]);
            if bytes_eq(v[i].name.as_str().as_bytes(), v[j].name.as_str().as_bytes()) {
                return false;
            }
            j = j + 1;
        }
        i = i + 1;
    }
    true
}

/// The directory node `x`, and every directory beneath it, has its folded
/// tree stored in `out` from position `from` on.
pub open spec fn node_stored(x: (String, TreeEntryAux), out: Seq<Tree>, from: int) -> bool
    decreases x, 0nat,
{
    match x.1 {
        TreeEntryAux::TreeLeafAux { entry } => true,
        TreeEntryAux::TreeBranchAux { tree } => stored_with_oid(out, from, built_node(x).oid) && level_stored(
            tree.entries@,
            tree.entries@.len() as nat,
            out,
            from,
        ),
    }
}

/// The first `n` nodes of a level have all their directories stored.
pub open spec fn level_stored(e: Seq<(String, TreeEntryAux)>, n: nat, out: Seq<Tree>, from: int) -> bool
    decreases e, n,
{
    if n == 0 || n > e.len() {
        true
    } else {
        level_stored(e, (n - 1) as nat, out, from) && node_stored(e[n - 1], out, from)
    }
}

pub proof fn lemma_node_stored_mono(x: (String, TreeEntryAux), o1: Seq<Tree>, f1: int, o2: Seq<Tree>, f2: int)
    requires
        node_stored(x, o1, f1),
        0 <= f2 <= f1,
        o1.len() <= o2.len(),
        forall|k: int| 0 <= k < o1.len() ==> o2[k] == o1[k],
    ensures
        node_stored(x, o2, f2),
    decreases x, 0nat,
{
    match x.1 {
        TreeEntryAux::TreeBranchAux { tree } => {
            let k = choose|k: int| f1 <= k < o1.len() && #[trigger] o1[k].sha1_hash@ == built_node(x).oid;
            assert(o2[k] == o1[k]);
            lemma_level_stored_mono(tree.entries@, tree.entries@.len() as nat, o1, f1, o2, f2);
        },
        TreeEntryAux::TreeLeafAux { entry } => {},
    }
}

pub proof fn lemma_level_stored_mono(e: Seq<(String, TreeEntryAux)>, n: nat, o1: Seq<Tree>, f1: int, o2: Seq<Tree>, f2: int)
    requires
        level_stored(e, n, o1, f1),
        0 <= f2 <= f1,
        o1.len() <= o2.len(),
        forall|k: int| 0 <= k < o1.len() ==> o2[k] == o1[k],
    ensures
        level_stored(e, n, o2, f2),
    decreases e, n,
{
    if n > 0 && n <= e.len() {
        lemma_level_stored_mono(e, (n - 1) as nat, o1, f1, o2, f2);
        lemma_node_stored_mono(e[n - 1], o1, f1, o2, f2);
    }
}

proof fn lemma_level_wf_index(e: Seq<(String, TreeEntryAux)>, n: nat, j: int)
    requires
        level_wf(e, n),
        0 <= j < n <= e.len(),
    ensures
        node_wf(e[j]),
    decreases n,
{
    if j < n - 1 {
        lemma_level_wf_index(e, (n - 1) as nat, j);
    }
}

proof fn lemma_built_level_index(e: Seq<(String, TreeEntryAux)>, n: nat)
    requires
        n <= e.len(),
    ensures
        built_level(e, n).len() == n,
        forall|j: int| 0 <= j < n ==> #[trigger] built_level(e, n)[j] == built_node(e[j]),
    decreases n,
{
    if n > 0 {
        lemma_built_level_index(e, (n - 1) as nat);
    }
}

/// Folds the trie, bottom-up, into trees: each directory node becomes a
/// subtree, built first and appended to `out` for storing, and the level
/// itself becomes the returned tree. It fails exactly when the trie is not
/// well formed.
pub fn build_add_tree(root: &TreeAux, out: &mut Vec<Tree>) -> (r: Result<Tree, Error>)
    ensures
        r is Ok <==> aux_wf(*root),
        r matches Ok(t) ==> tree_ok(t),
        r matches Ok(t) ==> entries_view(t.entries@) == sorted_of(built_level(root.entries@, root.entries@.len() as nat)),
        r is Ok ==> forall|j: int| 0 <= j < root.entries@.len() && (#[trigger] root.entries@[j]).1 is TreeBranchAux
            ==> stored_with_oid(final(out)@, old(out)@.len() as int, built_node(root.entries@[j]).oid),
        r is Ok ==> level_stored(root.entries@, root.entries@.len() as nat, final(out)@, old(out)@.len() as int),
        r matches Err(e) ==> e == Error::MalformedTree,
        old(out)@.len() <= final(out)@.len(),
        forall|k: int| 0 <= k < old(out)@.len() ==> #[trigger] final(out)@[k] == old(out)@[k],
        forall|k: int| old(out)@.len() <= k < final(out)@.len() ==> tree_ok(#[trigger] final(out)@[k]),
    decreases root,
{
    let ghost e = root.entries@;
    let mut entries: Vec<Entry> = Vec::new();
    let mut i: usize = 0;
    while i < root.entries.len()
        invariant
            e == root.entries@,
            i <= e.len(),
            entries_view(entries@) == built_level(e, i as nat),
            level_wf(e, i as nat),
            old(out)@.len() <= out@.len(),
            forall|k: int| 0 <= k < old(out)@.len() ==> #[trigger] out@[k] == old(out)@[k],
            forall|k: int| old(out)@.len() <= k < out@.len() ==> tree_ok(#[trigger] out@[k]),
            forall|j: int| 0 <= j < i && (#[trigger] e[j]).1 is TreeBranchAux ==> stored_with_oid(out@,
                old(out)@.len() as int, built_node(e[j]).oid),
            level_stored(e, i as nat, out@, old(out)@.len() as int),
        decreases e.len() - i,
    {
        let ghost ev0 = entries@;
        let ghost o0 = out@;
        match &root.entries[i].1 {
            TreeEntryAux::TreeLeafAux { entry } => {
                if !(entry.name == root.entries[i].0) {
                    proof {
                        if level_wf(e, e.len() as nat) {
                            lemma_level_wf_index(e, e.len() as nat, i as int);
                        }
                    }
                    return Err(Error::MalformedTree);
                }
                entries.push(entry.duplicate());
                proof {
                    assert(entries_view(entries@) =~= entries_view(ev0).push(built_node(e[i as int])));
                    assert(node_stored(e[i as int], out@, old(out)@.len() as int));
                    assert(level_stored(e, (i + 1) as nat, out@, old(out)@.len() as int));
                    assert(node_wf(e[i as int]));
                    assert(level_wf(e, (i + 1) as nat));
                }
            },
            TreeEntryAux::TreeBranchAux { tree } => {
                proof {
                    assert(decreases_to!(root => root.entries));
                    assert(decreases_to!(root.entries => root.entries[i as int]));
                }
                let ghost o_call = out@;
                let sub = match build_add_tree(tree, out) {
                    Ok(t) => t,
                    Err(err) => {
                        proof {
                            if level_wf(e, e.len() as nat) {
                                lemma_level_wf_index(e, e.len() as nat, i as int);
                            }
                        }
                        return Err(err);
                    },
                };
                let name = root.entries[i].0.clone();
                let ent = Entry::new(
                    String::from_str("040000"),
                    copy_range(sub.sha1_hash.as_slice(), 0, sub.sha1_hash.len()),
                    name.clone(),
                    name,
                );
                let ghost entv = ent@;
                proof {
                    assert(aux_wf(*tree));
                    assert(node_wf(e[i as int]));
                    assert(level_wf(e, (i + 1) as nat));
                    assert(entv.oid =~= sub.sha1_hash@);
                    assert(entv == built_node(e[i as int]));
                }
                let ghost before = out@;
                out.push(sub);
                entries.push(ent);
                proof {
                    assert(entries_view(entries@) =~= entries_view(ev0).push(built_node(e[i as int])));
                    assert forall|k: int| 0 <= k < old(out)@.len() implies #[trigger] out@[k] == old(out)@[k] by {
                        assert(out@[k] == before[k]);
                    }
                    assert forall|k: int| old(out)@.len() <= k < out@.len() implies tree_ok(#[trigger] out@[k]) by {
                        if k < before.len() {
                            assert(out@[k] == before[k]);
                        }
                    }
                    let last = out@.len() - 1;
                    assert(out@[last].sha1_hash@ == entv.oid);
                    lemma_level_stored_mono(e, i as nat, o0, old(out)@.len() as int, out@, old(out)@.len() as int);
                    lemma_level_stored_mono(tree.entries@, tree.entries@.len() as nat, before, o_call.len() as int, out@,
                        old(out)@.len() as int);
                    assert(stored_with_oid(out@, old(out)@.len() as int, built_node(e[i as int]).oid));
                    assert(node_stored(e[i as int], out@, old(out)@.len() as int));
                    assert(level_stored(e, (i + 1) as nat, out@, old(out)@.len() as int));
                    assert forall|j: int| 0 <= j < i + 1 && (#[trigger] e[j]).1 is TreeBranchAux implies stored_with_oid(
                        out@,
                        old(out)@.len() as int,
                        built_node(e[j]).oid,
                    ) by {
                        if j < i {
                            let k = choose|k: int| old(out)@.len() <= k < o0.len() && #[trigger] o0[k].sha1_hash@
                                == built_node(e[j]).oid;
                            assert(out@[k] == o0[k]);
                        } else {
                            assert(out@[last].sha1_hash@ == built_node(e[j]).oid);
                        }
                    }
                }
            },
        }
        i = i + 1;
    }
    let ghost ev = entries_view(entries@);
    proof {
        lemma_built_level_index(e, e.len() as nat);
        assert forall|j: int| 0 <= j < e.len() implies #[trigger] ev[j].name == e[j].0@ by {
            lemma_level_wf_index(e, e.len() as nat, j);
        }
    }
    let distinct = names_distinct(&entries);
    proof {
        assert(distinct <==> distinct_level(*root)) by {
            if distinct {
                assert forall|a: int, b: int| 0 <= a < b < e.len() implies e[a].0@ != e[b].0@ by {
                    assert(name_key(ev[a]) != name_key(ev[b]));
                }
            }
            if distinct_level(*root) {
                assert forall|a: int, b: int| 0 <= a < b < ev.len() implies name_key(ev[a]) != name_key(ev[b]) by {
                    encode_utf8_decode_utf8(ev[a].name);
                    encode_utf8_decode_utf8(ev[b].name);
                }
            }
        }
    }
    if !distinct {
        return Err(Error::MalformedTree);
    }
    let t = Tree::new_with_entries(entries);
    proof {
        let tv = entries_view(t.entries@);
        assert(sorted_by_name(tv) && forall|m: TreeEntryModel| tv.contains(m) <==> ev.contains(m));
        let so = sorted_of(ev);
        assert(sorted_by_name(so) && forall|m: TreeEntryModel| so.contains(m) <==> ev.contains(m));
        assert(strictly_sorted_by(tv, name_order()));
        assert(strictly_sorted_by(so, name_order()));
        lemma_sorted_same_elements(tv, so, name_order());
    }
    Ok(t)
}

/// The components of a path: the texts between its `/` separators.
pub open spec fn comps(p: Seq<char>) -> Seq<Seq<char>>
    decreases p.len(),
{
    if p.len() == 0 {
        seq![Seq::<char>::empty()]
    } else {
        let c = comps(p.drop_last());
        if p.last() == '/' {
            c.push(Seq::<char>::empty())
        } else {
            c.update(c.len() - 1, c.last().push(p.last()))
        }
    }
}

proof fn lemma_comps_len(p: Seq<char>)
    ensures
        comps(p).len() >= 1,
    decreases p.len(),
{
    if p.len() > 0 {
        lemma_comps_len(p.drop_last());
    }
}

/// Components joined back with `/` separators.
pub open spec fn join_comps(s: Seq<Seq<char>>) -> Seq<char>
    decreases s.len(),
{
    if s.len() <= 1 {
        if s.len() == 1 {
            s[0]
        } else {
            Seq::empty()
        }
    } else {
        join_comps(s.drop_last()) + seq!['/'] + s.last()
    }
}

proof fn lemma_join_comps(p: Seq<char>)
    ensures
        join_comps(comps(p)) == p,
    decreases p.len(),
{
    lemma_comps_len(p);
    if p.len() > 0 {
        let q = p.drop_last();
        lemma_join_comps(q);
        lemma_comps_len(q);
        let c = comps(q);
        if p.last() == '/' {
            assert(comps(p).drop_last() =~= c);
            assert(p =~= q + seq!['/'] + Seq::<char>::empty());
        } else {
            let u = c.update(c.len() - 1, c.last().push(p.last()));
            if c.len() == 1 {
                assert(p =~= q.push(p.last()));
            } else {
                assert(u.drop_last() =~= c.drop_last());
                assert(join_comps(c) == join_comps(c.drop_last()) + seq!['/'] + c.last());
                assert(p =~= q.push(p.last()));
                assert(join_comps(u) =~= join_comps(c).push(p.last()));
            }
        }
    }
}

proof fn lemma_join_concat(x: Seq<Seq<char>>, y: Seq<Seq<char>>)
    requires
        x.len() >= 1,
        y.len() >= 1,
    ensures
        join_comps(x + y) == join_comps(x) + seq!['/'] + join_comps(y),
    decreases y.len(),
{
    if y.len() == 1 {
        assert((x + y).drop_last() =~= x);
    } else {
        let y1 = y.drop_last();
        lemma_join_concat(x, y1);
        assert((x + y).drop_last() =~= x + y1);
        assert((x + y).last() == y.last());
        assert(join_comps(x + y) =~= join_comps(x) + seq!['/'] + join_comps(y));
    }
}

/// A path whose components start with those of `a` is `a` itself or lies
/// beneath the directory `a`.
pub proof fn lemma_comp_prefix_chars(a: Seq<char>, b: Seq<char>)
    requires
        comp_prefix(comps(a), comps(b)),
    ensures
        a == b || (a.len() < b.len() && b.take(a.len() as int) == a && b[a.len() as int] == '/'),
{
    let ca = comps(a);
    let cb = comps(b);
    lemma_join_comps(a);
    lemma_join_comps(b);
    lemma_comps_len(a);
    if ca.len() == cb.len() {
        assert(cb =~= cb.take(ca.len() as int));
    } else {
        let rest = cb.skip(ca.len() as int);
        assert(cb =~= ca + rest);
        lemma_join_concat(ca, rest);
        assert(b == a + seq!['/'] + join_comps(rest));
        assert(b.take(a.len() as int) =~= a);
    }
}

proof fn lemma_encode_concat(a: Seq<char>, b: Seq<char>)
    ensures
        encode_utf8(a + b) == encode_utf8(a) + encode_utf8(b),
    decreases a.len(),
{
    if a.len() > 0 {
        lemma_encode_concat(a.drop_first(), b);
        assert((a + b).drop_first() =~= a.drop_first() + b);
        assert((a + b)[0] == a[0]);
    } else {
        assert(a + b =~= b);
    }
}

/// Two paths whose components conflict are equal, or one names a
/// directory of the other in the index's byte order.
pub proof fn lemma_conflict_bytes(a: Seq<char>, b: Seq<char>)
    requires
        comp_conflict(comps(a), comps(b)),
    ensures
        encode_utf8(a) == encode_utf8(b) || crate::index::is_ancestor(encode_utf8(a), encode_utf8(b))
            || crate::index::is_ancestor(encode_utf8(b), encode_utf8(a)),
{
    if comp_prefix(comps(a), comps(b)) {
        lemma_comp_prefix_chars(a, b);
        if a != b {
            lemma_ancestor_bytes(a, b);
        }
    } else {
        lemma_comp_prefix_chars(b, a);
        if a != b {
            lemma_ancestor_bytes(b, a);
        }
    }
}

proof fn lemma_ancestor_bytes(a: Seq<char>, b: Seq<char>)
    requires
        a.len() < b.len(),
        b.take(a.len() as int) == a,
        b[a.len() as int] == '/',
    ensures
        crate::index::is_ancestor(encode_utf8(a), encode_utf8(b)),
{
    let r = b.skip(a.len() + 1 as int);
    assert(b =~= a + (seq!['/'] + r));
    lemma_encode_concat(a, seq!['/'] + r);
    lemma_encode_concat(seq!['/'], r);
    let sl = encode_utf8(seq!['/']);
    assert(seq!['/'].drop_first() =~= Seq::<char>::empty());
    assert(sl == encode_scalar('/' as u32) + encode_utf8(Seq::<char>::empty()));
    assert(('/' as u32) == 47u32);
    assert((47u32 & 0x7Fu32) as u8 == 47u8) by (bit_vector);
    assert(encode_scalar('/' as u32) =~= seq![47u8]);
    let eb = encode_utf8(b);
    let ea = encode_utf8(a);
    assert(eb =~= ea + (seq![47u8] + encode_utf8(r)));
    assert(eb.subrange(0, ea.len() as int) =~= ea);
    assert(eb[ea.len() as int] == 47u8);
}

/// Adding an entry to an index keeps it free of conflicting paths: the
/// entries that survive the add are neither the new path nor a directory
/// of it nor beneath it.
pub proof fn lemma_add_keeps_free(o: Seq<EntryModel>, n: Seq<EntryModel>, mn: EntryModel)
    requires
        comps_free(o),
        sorted_by_path(n),
        forall|m: EntryModel| #[trigger] n.contains(m) <==> (m == mn || (o.contains(m) && survives_add(m, path_key(mn)))),
    ensures
        comps_free(n),
{
    assert forall|i: int, j: int| 0 <= i < n.len() && 0 <= j < n.len() && i != j implies !comp_conflict(
        comps(#[trigger] n[i].path),
        comps(#[trigger] n[j].path),
    ) by {
        assert(path_key(n[i]) != path_key(n[j])) by {
            if i < j {
                assert(lex_lt(path_key(n[i]), path_key(n[j])));
                lemma_lex_irreflexive(path_key(n[i]));
            } else {
                assert(lex_lt(path_key(n[j]), path_key(n[i])));
                lemma_lex_irreflexive(path_key(n[j]));
            }
        }
        assert(n.contains(n[i]) && n.contains(n[j]));
        if comp_conflict(comps(n[i].path), comps(n[j].path)) {
            lemma_conflict_bytes(n[i].path, n[j].path);
            if n[i] == mn {
                assert(survives_add(n[j], path_key(mn)));
            } else if n[j] == mn {
                assert(survives_add(n[i], path_key(mn)));
            } else {
                let a = choose|a: int| 0 <= a < o.len() && o[a] == n[i];
                let b = choose|b: int| 0 <= b < o.len() && o[b] == n[j];
                assert(a != b);
                assert(!comp_conflict(comps(o[a].path), comps(o[b].path)));
            }
        }
    }
}

/// Splits a path at its `/` separators.
fn split_path(p: &String) -> (r: Vec<String>)
    ensures
        names_view(r@) == comps(p@),
        r@.len() >= 1,
{
    let s = p.as_str();
    let n = s.unicode_len();
    let mut parts: Vec<String> = Vec::new();
    let mut start: usize = 0;
    let mut i: usize = 0;
    proof {
        assert(s@.take(0) =~= Seq::<char>::empty());
        assert(names_view(parts@).push(s@.subrange(0, 0)) =~= comps(s@.take(0)));
    }
    while i < n
        invariant
            start <= i <= n,
            n == s@.len(),
            s@ == p@,
            names_view(parts@).push(s@.subrange(start as int, i as int)) == comps(s@.take(i as int)),
        decreases n - i,
    {
        let c = s.get_char(i);
        let ghost before = names_view(parts@);
        proof {
            lemma_comps_len(s@.take(i as int));
            assert(s@.take(i + 1).drop_last() =~= s@.take(i as int));
            assert(s@.take(i + 1).last() == c);
        }
        if c == '/' {
            let ghost st0 = start as int;
            let part = s.substring_char(start, i).to_owned();
            parts.push(part);
            start = i + 1;
            proof {
                assert(names_view(parts@) =~= before.push(s@.subrange(st0, i as int)));
                assert(s@.subrange(start as int, i + 1) =~= Seq::<char>::empty());
                assert(names_view(parts@).push(s@.subrange(start as int, i + 1)) =~= comps(s@.take(i + 1)));
            }
        } else {
            proof {
                assert(s@.subrange(start as int, i + 1) =~= s@.subrange(start as int, i as int).push(c));
                assert(names_view(parts@).push(s@.subrange(start as int, i + 1)) =~= comps(s@.take(i + 1)));
            }
        }
        i = i + 1;
    }
    let last = s.substring_char(start, n).to_owned();
    parts.push(last);
    proof {
        assert(s@.take(n as int) =~= s@);
        assert(names_view(parts@) =~= comps(p@));
    }
    parts
}

/// The file entry that a trie holds for the index entry `m`.
pub open spec fn leaf_of(m: EntryModel) -> TreeEntryModel {
    TreeEntryModel { mode: mode_text(m.mode), name: comps(m.path).last(), oid: m.oid, path: m.path }
}

/// No two index entries conflict as paths: none is a directory of another.
pub open spec fn comps_free(v: Seq<EntryModel>) -> bool {
    forall|i: int, j: int|
        0 <= i < v.len() && 0 <= j < v.len() && i != j ==> !comp_conflict(comps(#[trigger] v[i].path), comps(#[trigger] v[j].path))
}

/// `t` is the trie of the index entries `v`: it is well formed; every file it
/// reaches is one of the entries, at that entry's path; and, when no entry
/// is a directory of another, every entry is reached at its path.
pub open spec fn trie_of(t: TreeAux, v: Seq<EntryModel>) -> bool {
    &&& aux_wf(t)
    &&& forall|d: Seq<Seq<char>>, n: Seq<char>, l: TreeEntryModel| #[trigger] reached(t, d, n, l) ==> exists|k: int|
        0 <= k < v.len() && d.push(n) == comps(#[trigger] v[k].path) && l == leaf_of(v[k])
    &&& comps_free(v) ==> forall|k: int| 0 <= k < v.len() ==> reached(
        t,
        comps(v[k].path).drop_last(),
        comps(v[k].path).last(),
        leaf_of(#[trigger] v[k]),
    )
}

/// A blocked path meets a file that `t` reaches above it.
proof fn lemma_blocked_witness(t: TreeAux, dirs: Seq<Seq<char>>) -> (w: (Seq<Seq<char>>, Seq<char>, TreeEntryModel))
    requires
        blocked(t, dirs),
    ensures
        reached(t, w.0, w.1, w.2),
        comp_prefix(w.0.push(w.1), dirs),
    decreases dirs.len(),
{
    let k = choose|k: int|
        0 <= k < t.entries@.len() && #[trigger] t.entries@[k].0@ == dirs[0] && match t.entries@[k].1 {
            TreeEntryAux::TreeLeafAux { entry } => true,
            TreeEntryAux::TreeBranchAux { tree } => blocked(tree, dirs.drop_first()),
        };
    match t.entries@[k].1 {
        TreeEntryAux::TreeLeafAux { entry } => {
            let w = (Seq::<Seq<char>>::empty(), dirs[0], entry@);
            assert(reached_via(t.entries@[k], w.0, w.1, w.2));
            lemma_reached_intro(t, k, w.0, w.1, w.2);
            assert(dirs.take(1) =~= w.0.push(w.1));
            w
        },
        TreeEntryAux::TreeBranchAux { tree } => {
            let w1 = lemma_blocked_witness(tree, dirs.drop_first());
            let w = (seq![dirs[0]] + w1.0, w1.1, w1.2);
            assert(w.0.drop_first() =~= w1.0);
            assert(reached_via(t.entries@[k], w.0, w.1, w.2));
            lemma_reached_intro(t, k, w.0, w.1, w.2);
            assert(w.0.push(w.1) =~= seq![dirs[0]] + w1.0.push(w1.1));
            assert(dirs.take(w.0.push(w.1).len() as int) =~= seq![dirs[0]] + dirs.drop_first().take(w1.0.push(w1.1).len() as int));
            w
        },
    }
}

impl Workspace {
    /// The trie of the index: each entry's file under its directories.
    pub fn create_tree_from_index(&self, index: &Index) -> (r: Result<TreeAux, Error>)
        ensures
            r matches Ok(t) && trie_of(t, index@),
    {
        create_tree_from_index(index)
    }
}

/// The trie of the index: each entry's file under its directories. The
/// trie is well formed, so it always folds into trees.
#[verifier::rlimit(60)]
pub fn create_tree_from_index(index: &Index) -> (r: Result<TreeAux, Error>)
    ensures
        r matches Ok(t) && trie_of(t, index@),
{
    let ghost v = index@;
    let mut root = TreeAux::new();
    proof {
        lemma_level_wf_all(root.entries@, 0);
    }
    let mut k: usize = 0;
    while k < index.len()
        invariant
            v == index@,
            k <= v.len(),
            aux_wf(root),
            forall|d: Seq<Seq<char>>, n: Seq<char>, l: TreeEntryModel| #[trigger] reached(root, d, n, l) ==> exists|j: int|
                0 <= j < k && d.push(n) == comps(#[trigger] v[j].path) && l == leaf_of(v[j]),
            comps_free(v) ==> forall|j: int| 0 <= j < k ==> reached(
                root,
                comps(v[j].path).drop_last(),
                comps(v[j].path).last(),
                leaf_of(#[trigger] v[j]),
            ),
        decreases v.len() - k,
    {
        let e = index.entry_at(k);
        let mut parts = split_path(&e.path);
        let ghost cs = comps(v[k as int].path);
        let name = parts.pop().unwrap();
        let ghost dirs = names_view(parts@);
        proof {
            assert(dirs =~= cs.drop_last());
            assert(name@ == cs.last());
            assert(dirs.push(name@) =~= cs);
        }
        let path = e.path.clone();
        let oid = copy_range(e.oid.as_slice(), 0, e.oid.len());
        let ghost leaf = TreeEntryModel { mode: mode_text(e.mode), name: name@, oid: oid@, path: path@ };
        proof {
            assert(oid@ =~= v[k as int].oid);
            assert(leaf == leaf_of(v[k as int]));
        }
        let ghost old_root = root;
        proof {
            if comps_free(v) && blocked(old_root, dirs) {
                let w = lemma_blocked_witness(old_root, dirs);
                let j = choose|j: int| 0 <= j < k && w.0.push(w.1) == comps(#[trigger] v[j].path) && w.2 == leaf_of(v[j]);
                assert(comp_prefix(comps(v[j].path), cs)) by {
                    assert(cs.take(w.0.push(w.1).len() as int) =~= dirs.take(w.0.push(w.1).len() as int));
                }
                assert(!comp_conflict(comps(v[j].path), comps(v[k as int].path)));
            }
        }
        root.add_entry(parts, name, path, oid, e.mode);
        proof {
            assert forall|d: Seq<Seq<char>>, n: Seq<char>, l: TreeEntryModel| #[trigger] reached(root, d, n, l) implies exists|j: int|
                0 <= j < k + 1 && d.push(n) == comps(#[trigger] v[j].path) && l == leaf_of(v[j]) by {
                if !reached(old_root, d, n, l) {
                    assert(d.push(n) == comps(v[k as int].path));
                }
            }
            assert forall|j: int| comps_free(v) && 0 <= j < k + 1 implies reached(
                root,
                comps(v[j].path).drop_last(),
                comps(v[j].path).last(),
                leaf_of(#[trigger] v[j]),
            ) by {
                if j < k {
                    let cj = comps(v[j].path);
                    lemma_comps_len(v[j].path);
                    assert(cj.drop_last().push(cj.last()) =~= cj);
                    assert(!comp_conflict(cs, cj));
                } else {
                    assert(!blocked(old_root, dirs));
                }
            }
        }
        k = k + 1;
    }
    Ok(root)
}

} // verus!
