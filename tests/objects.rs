use jit_core::author::Author;
use jit_core::index::{FileStat, Index};
use jit_core::workspace::prepare_commit;
use jit_core::database::{load_object, object_path, read_object, Database, ObjectType};
use jit_core::entry::Entry;
use jit_core::error::Error;
use jit_core::object::{frame_object, Blob, Object};
use jit_core::tree::Tree;

fn hexs(b: &[u8]) -> String {
    data_encoding::HEXLOWER.encode(b)
}

fn entry(mode: &str, name: &str, fill: u8) -> Entry {
    Entry::new(mode.to_string(), vec![fill; 20], name.to_string(), name.to_string())
}

#[test]
fn blob_record_and_oid() {
    let blob = Blob::new(b"hello".to_vec());
    assert_eq!(blob.encode(), b"blob 5\0hello".to_vec());
    assert_eq!(hexs(&blob.get_oid()), "b6fc4c620b67d95f953a5c1c1230aaab5db5a1b0");
    assert_eq!(blob.get_data(), b"hello".to_vec());
    assert_eq!(blob.type_(), "blob");
}

#[test]
fn empty_blob_oid() {
    let blob = Blob::new(Vec::new());
    assert_eq!(blob.encode(), b"blob 0\0".to_vec());
    assert_eq!(hexs(&blob.get_oid()), "e69de29bb2d1d6434b8b29ae775ad8c2e48c5391");
}

#[test]
fn frame_uses_decimal_length() {
    let payload = vec![7u8; 1234];
    let f = frame_object(b"blob", &payload);
    assert_eq!(&f[..10], b"blob 1234\0");
    assert_eq!(f.len(), 10 + 1234);
}

#[test]
fn empty_tree_oid() {
    let tree = Tree::new_with_entries(Vec::new());
    assert_eq!(tree.get_data_to_write(), b"tree 0\0".to_vec());
    assert_eq!(hexs(&tree.sha1_hash), "4b825dc642cb6eb9a060e54bf8d69288fbee4904");
}

#[test]
fn tree_entries_are_sorted_and_encoded() {
    let tree = Tree::new_with_entries(vec![entry("100644", "b.txt", 2), entry("040000", "a", 1)]);
    let names: Vec<String> = tree.entries.iter().map(|e| e.name.clone()).collect();
    assert_eq!(names, vec!["a".to_string(), "b.txt".to_string()]);
    let mut payload = b"040000 a\0".to_vec();
    payload.extend_from_slice(&[1u8; 20]);
    payload.extend_from_slice(b"100644 b.txt\0");
    payload.extend_from_slice(&[2u8; 20]);
    let mut record = format!("tree {}\0", payload.len()).into_bytes();
    record.extend_from_slice(&payload);
    assert_eq!(tree.get_data_to_write(), record);
    let digest = ring::digest::digest(&ring::digest::SHA1_FOR_LEGACY_USE_ONLY, &record);
    assert_eq!(tree.sha1_hash, digest.as_ref().to_vec());
    assert_eq!(tree.get_oid(), tree.sha1_hash);
    assert!(tree.entries[0].is_tree());
    assert!(!tree.entries[1].is_tree());
}

#[test]
fn tree_order_does_not_change_the_oid() {
    let x = Tree::new_with_entries(vec![
        entry("100644", "zeta", 3),
        entry("100755", "alpha", 1),
        entry("040000", "mid", 2),
    ]);
    let y = Tree::new_with_entries(vec![
        entry("040000", "mid", 2),
        entry("100644", "zeta", 3),
        entry("100755", "alpha", 1),
    ]);
    assert_eq!(x.get_data_to_write(), y.get_data_to_write());
    assert_eq!(x.sha1_hash, y.sha1_hash);
}

#[test]
fn tree_payload_parses_back() {
    let tree = Tree::new_with_entries(vec![entry("100644", "one.txt", 5), entry("040000", "dir", 6)]);
    let parsed = Tree::parse(&tree.get_data(), tree.sha1_hash.clone()).unwrap();
    let got: Vec<(String, String, Vec<u8>)> =
        parsed.entries.iter().map(|e| (e.mode.clone(), e.name.clone(), e.sha1_hash.clone())).collect();
    assert_eq!(
        got,
        vec![
            ("040000".to_string(), "dir".to_string(), vec![6u8; 20]),
            ("100644".to_string(), "one.txt".to_string(), vec![5u8; 20]),
        ]
    );
    assert_eq!(Tree::parse(b"100644 x", vec![]).err(), Some(Error::MalformedTree));
    let mut short = b"100644 x\0".to_vec();
    short.extend_from_slice(&[1u8; 19]);
    assert_eq!(Tree::parse(&short, vec![]).err(), Some(Error::MalformedTree));
}

#[test]
fn entry_data_layout() {
    let e = entry("100644", "f", 9);
    let mut expect = b"100644 f\0".to_vec();
    expect.extend_from_slice(&[9u8; 20]);
    assert_eq!(e.data(), expect);
}

#[test]
fn oid_hex_is_lower_case() {
    assert_eq!(jit_core::database::oid_hex(&[0xab, 0x01, 0xff]), "ab01ff");
}

#[test]
fn object_path_splits_hex() {
    let oid: Vec<u8> = (0..20u8).collect();
    let (dir, file) = object_path(&oid);
    assert_eq!(dir, "00");
    assert_eq!(file, "0102030405060708090a0b0c0d0e0f10111213");
}

#[test]
fn stored_blob_loads_back() {
    let db = Database::new(&".git/objects".to_string());
    for content in [b"".to_vec(), b"hello".to_vec(), vec![0u8, 1, 2, 255, 10, 0]] {
        let blob = Blob::new(content.clone());
        let w = db.store(&blob, false).unwrap().unwrap();
        let oid = blob.get_oid();
        let hex = hexs(&oid);
        assert_eq!(w.dir, hex[..2].to_string());
        assert_eq!(w.file, hex[2..].to_string());
        match load_object(&w.data, hex.as_bytes()).unwrap() {
            ObjectType::BlobType { blob: b } => assert_eq!(b.content_ref(), &content),
            _ => panic!("not a blob"),
        }
    }
}

#[test]
fn storing_twice_writes_once() {
    let db = Database::new(&".git/objects".to_string());
    let blob = Blob::new(b"same".to_vec());
    let first = db.store(&blob, false).unwrap();
    assert!(first.is_some());
    let second = db.store(&blob, true).unwrap();
    assert!(second.is_none());
}

#[test]
fn database_caches_loaded_objects() {
    let mut db = Database::new(&".git/objects".to_string());
    let blob = Blob::new(b"cached".to_vec());
    let w = db.store(&blob, false).unwrap().unwrap();
    let id = hexs(&blob.get_oid());
    assert!(db.load(&id).is_none());
    db.load_bytes(&id, &w.data).unwrap();
    assert!(db.load(&id).is_some());
    assert_eq!(db.load_bytes(&id, b"not zlib"), Err(Error::Compression));
}

#[test]
fn read_object_dispatches_on_type() {
    assert_eq!(read_object(b"blob 3", b"x").err(), Some(Error::MalformedObject));
    assert_eq!(read_object(b"tag 3\0abc", b"x").err(), Some(Error::UnknownObjectType));
    assert_eq!(read_object(b"tag 3", b"x").err(), Some(Error::UnknownObjectType));
    assert_eq!(read_object(b"blob3", b"x").err(), Some(Error::MalformedObject));
    match read_object(b"blob 3\0abc", b"x").unwrap() {
        ObjectType::BlobType { blob } => assert_eq!(blob.content_ref(), &b"abc".to_vec()),
        _ => panic!("not a blob"),
    }
    let tree = Tree::new_with_entries(vec![entry("100644", "f", 1)]);
    match read_object(&tree.get_data_to_write(), b"x").unwrap() {
        ObjectType::TreeType { tree: t } => assert_eq!(t.entries[0].name, "f"),
        _ => panic!("not a tree"),
    }
}

#[test]
fn commit_trees_hold_the_index() {
    let st = FileStat { ctime: 1, ctime_nsec: 0, mtime: 1, mtime_nsec: 0, dev: 1, ino: 1, mode: 0o100644, uid: 0, gid: 0, size: 1 };
    let mut index = Index::new(&"index".to_string());
    index.add("a/b.txt".to_string(), vec![1u8; 20], st);
    index.add("c.txt".to_string(), vec![2u8; 20], st);
    let (trees, commit) = prepare_commit(&index, Author::new("A", "a@a", 1, 0), "m".to_string(), None).unwrap();
    assert_eq!(trees.len(), 2);
    let root = trees.last().unwrap();
    let names: Vec<(String, String)> = root.entries.iter().map(|e| (e.mode.clone(), e.name.clone())).collect();
    assert_eq!(names, vec![("040000".to_string(), "a".to_string()), ("100644".to_string(), "c.txt".to_string())]);
    assert_eq!(root.entries[0].sha1_hash, trees[0].sha1_hash);
    assert_eq!(trees[0].entries[0].name, "b.txt");
    assert_eq!(commit.tree_ref, hexs(&root.sha1_hash));
}
