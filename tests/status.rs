use jit_core::author::Author;
use jit_core::database::{read_object, ObjectType};
use jit_core::entry::Entry;
use jit_core::index::{FileStat, Index};
use jit_core::object::{Blob, Object};
use jit_core::status::{
    check_index_entries, collect_deleted_head_entries, content_needed, read_tree, scan_workspace, status_lines,
    IndexStatus, StatusChange, WorkspaceItem, WorkspaceStatus,
};
use jit_core::tree::Tree;
use jit_core::workspace::{prepare_commit, AddedFile, Workspace};

/// A working tree held in memory: files with content and metadata.
struct Disk {
    files: Vec<(String, Vec<u8>, FileStat)>,
    dirs: Vec<String>,
}

fn st(size: usize, mtime: u32) -> FileStat {
    FileStat {
        ctime: 100,
        ctime_nsec: 0,
        mtime,
        mtime_nsec: 0,
        dev: 1,
        ino: 2,
        mode: 0o100644,
        uid: 3,
        gid: 4,
        size: size as u32,
    }
}

impl Disk {
    fn new(files: &[(&str, &str)]) -> Disk {
        let mut d = Disk { files: Vec::new(), dirs: Vec::new() };
        for (p, c) in files {
            d.write(p, c, 1);
        }
        d
    }

    fn write(&mut self, path: &str, content: &str, mtime: u32) {
        self.files.retain(|f| f.0 != path);
        self.files.push((path.to_string(), content.as_bytes().to_vec(), st(content.len(), mtime)));
        let parts: Vec<&str> = path.split('/').collect();
        for k in 1..parts.len() {
            let dir = parts[..k].join("/");
            if !self.dirs.contains(&dir) {
                self.dirs.push(dir);
            }
        }
    }

    fn remove(&mut self, path: &str) {
        self.files.retain(|f| f.0 != path);
    }

    fn listing(&self) -> Vec<WorkspaceItem> {
        let mut v: Vec<WorkspaceItem> = self
            .dirs
            .iter()
            .map(|d| WorkspaceItem { path: d.clone(), is_dir: true, is_file: false, stat: st(0, 0) })
            .collect();
        for (p, _, s) in &self.files {
            v.push(WorkspaceItem { path: p.clone(), is_dir: false, is_file: true, stat: *s });
        }
        v
    }

    fn add(&self, index: &mut Index, paths: &[&str]) {
        let ws = Workspace::new(&"/repo".to_string());
        let files: Vec<AddedFile> = self
            .files
            .iter()
            .filter(|f| paths.iter().any(|p| f.0 == *p || f.0.starts_with(&format!("{}/", p)) || *p == "."))
            .map(|f| AddedFile { path: f.0.clone(), oid: Blob::new(f.1.clone()).get_oid(), stat: f.2 })
            .collect();
        ws.create_index_entry(files, index).unwrap();
    }
}

/// A repository: working tree, index and the trees of the last commit.
struct Repo {
    disk: Disk,
    index: Index,
    head: Vec<Tree>,
}

impl Repo {
    fn commit(&mut self) {
        let author = Author::new("A", "a@a", 1, 0);
        let (trees, commit) = prepare_commit(&self.index, author, "x".to_string(), None).unwrap();
        match read_object(&commit.encode(), b"c").unwrap() {
            ObjectType::CommitType { commit: c } => {
                assert_eq!(c.tree_ref, data_encoding::HEXLOWER.encode(&trees.last().unwrap().sha1_hash))
            },
            _ => panic!("not a commit"),
        }
        self.head = trees;
    }

    fn head_entries(&self) -> Vec<(String, Entry)> {
        let mut out = Vec::new();
        let root = match self.head.last() {
            Some(t) => t,
            None => return out,
        };
        let mut work: Vec<(String, String)> =
            vec![(data_encoding::HEXLOWER.encode(&root.sha1_hash), String::new())];
        while let Some((id, prefix)) = work.pop() {
            let tree = self.head.iter().find(|t| data_encoding::HEXLOWER.encode(&t.sha1_hash) == id).unwrap();
            let (files, subtrees) = read_tree(tree, &prefix);
            out.extend(files);
            work.extend(subtrees);
        }
        out
    }

    fn status(&mut self) -> Vec<String> {
        let listing = self.disk.listing();
        let (stats, untracked) = scan_workspace(&self.index, &listing);
        let mut contents: Vec<(String, Vec<u8>)> = Vec::new();
        for e in self.index.each_entry() {
            if content_needed(e, &stats) {
                let f = self.disk.files.iter().find(|f| f.0 == e.path).unwrap();
                contents.push((f.0.clone(), f.1.clone()));
            }
        }
        let head = self.head_entries();
        let mut changes = check_index_entries(&mut self.index, &stats, &contents, &head).unwrap();
        changes.extend(collect_deleted_head_entries(&self.index, &head));
        status_lines(changes, untracked)
    }
}

fn repo(files: &[(&str, &str)]) -> Repo {
    Repo { disk: Disk::new(files), index: Index::new(&".git/index".to_string()), head: Vec::new() }
}

fn committed() -> Repo {
    let mut r = repo(&[("1.txt", "one"), ("a/2.txt", "two"), ("a/b/3.txt", "three")]);
    let disk = &r.disk;
    disk.add(&mut r.index, &["."]);
    r.commit();
    r
}

#[test]
fn list_untracked_files_in_name_order() {
    let mut r = repo(&[("file.txt", ""), ("another.txt", "")]);
    assert_eq!(r.status(), vec!["?? another.txt".to_string(), "?? file.txt".to_string()]);
}

#[test]
fn list_files_as_untracked_if_they_are_not_in_index() {
    let mut r = repo(&[("commited.txt", "")]);
    let disk = &r.disk;
    disk.add(&mut r.index, &["commited.txt"]);
    r.commit();
    r.disk.write("file.txt", "", 1);
    assert_eq!(r.status(), vec!["?? file.txt".to_string()]);
}

#[test]
fn list_untracked_directories_not_their_contents() {
    let mut r = repo(&[("file.txt", ""), ("dir/another.txt", "")]);
    assert_eq!(r.status(), vec!["?? dir/".to_string(), "?? file.txt".to_string()]);
}

#[test]
fn list_untracked_files_inside_tracked_directories() {
    let mut r = repo(&[("a/b/inner.txt", "")]);
    let disk = &r.disk;
    disk.add(&mut r.index, &["."]);
    r.commit();
    r.disk.write("a/outer.txt", "", 1);
    r.disk.write("a/b/c/file.txt", "", 1);
    assert_eq!(r.status(), vec!["?? a/b/c/".to_string(), "?? a/outer.txt".to_string()]);
}

#[test]
fn does_not_list_empty_untracked_directories() {
    let mut r = repo(&[]);
    r.disk.dirs.push("outer".to_string());
    assert_eq!(r.status(), Vec::<String>::new());
}

#[test]
fn list_untracked_directories_that_indirectly_contain_files() {
    let mut r = repo(&[("outer/inner/file.txt", "")]);
    assert_eq!(r.status(), vec!["?? outer/".to_string()]);
}

#[test]
fn prints_nothing_when_no_files_are_changed() {
    let mut r = committed();
    assert_eq!(r.status(), Vec::<String>::new());
}

#[test]
fn reports_files_with_modified_contents() {
    let mut r = committed();
    r.disk.write("1.txt", "changed", 2);
    r.disk.write("a/2.txt", "modified", 2);
    assert_eq!(r.status(), vec![" M 1.txt".to_string(), " M a/2.txt".to_string()]);
}

#[test]
fn same_length_change_is_found_by_hashing() {
    let mut r = committed();
    r.disk.write("1.txt", "ONE", 2);
    assert_eq!(r.status(), vec![" M 1.txt".to_string()]);
}

#[test]
fn touched_file_is_unchanged_and_refreshed() {
    let mut r = committed();
    r.disk.write("a/2.txt", "two", 7);
    assert_eq!(r.status(), Vec::<String>::new());
    assert!(r.index.is_changed());
    let e = r.index.each_entry().iter().find(|e| e.path == "a/2.txt").unwrap();
    assert_eq!(e.mtime, 7);
    let listing = r.disk.listing();
    let (stats, _) = scan_workspace(&r.index, &listing);
    assert!(r.index.each_entry().iter().all(|e| !content_needed(e, &stats)));
}

#[test]
fn deleted_file_is_reported() {
    let mut r = committed();
    r.disk.remove("a/2.txt");
    assert_eq!(r.status(), vec![" D a/2.txt".to_string()]);
}

#[test]
fn new_staged_file_is_reported_as_added() {
    let mut r = committed();
    r.disk.write("a/4.txt", "four", 3);
    let disk = &r.disk;
    disk.add(&mut r.index, &["a/4.txt"]);
    assert_eq!(r.status(), vec![" A a/4.txt".to_string()]);
}

#[test]
fn file_removed_from_index_is_a_staged_deletion() {
    let mut r = committed();
    let mut fresh = Index::new(&".git/index".to_string());
    let disk = &r.disk;
    disk.add(&mut fresh, &["1.txt", "a/2.txt"]);
    r.index = fresh;
    r.disk.remove("a/b/3.txt");
    assert_eq!(r.status(), vec![" D a/b/3.txt".to_string()]);
}

#[test]
fn status_codes_for_every_pair() {
    let pairs = [
        (WorkspaceStatus::Deleted, IndexStatus::Added, "AD p"),
        (WorkspaceStatus::Deleted, IndexStatus::Default, " D p"),
        (WorkspaceStatus::Deleted, IndexStatus::Modified, "MD p"),
        (WorkspaceStatus::Deleted, IndexStatus::Deleted, "DD p"),
        (WorkspaceStatus::Modified, IndexStatus::Added, "AM p"),
        (WorkspaceStatus::Modified, IndexStatus::Default, " M p"),
        (WorkspaceStatus::Modified, IndexStatus::Modified, "MM p"),
        (WorkspaceStatus::Modified, IndexStatus::Deleted, "DM p"),
        (WorkspaceStatus::Default, IndexStatus::Added, " A p"),
        (WorkspaceStatus::Default, IndexStatus::Modified, " M p"),
        (WorkspaceStatus::Default, IndexStatus::Deleted, " D p"),
    ];
    for (ws, is, line) in pairs {
        let c = StatusChange { path: "p".to_string(), workspace: ws, index: is };
        assert_eq!(status_lines(vec![c], vec![]), vec![line.to_string()]);
    }
    let c = StatusChange { path: "p".to_string(), workspace: WorkspaceStatus::Default, index: IndexStatus::Default };
    assert_eq!(status_lines(vec![c], vec![]), Vec::<String>::new());
}

#[test]
fn mode_text_of_tracked_modes() {
    assert_eq!(jit_core::status::get_mode_u(0o100755), "100755");
    assert_eq!(jit_core::status::get_mode_u(0o100644), "100644");
}
