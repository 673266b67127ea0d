use jit_core::error::Error;
use jit_core::index::{EntryAdd, FileStat, Index, EXECUTABLE_MODE, REGULAR_MODE};

fn stat(size: u32, mtime: u32) -> FileStat {
    FileStat {
        ctime: 1_600_000_000,
        ctime_nsec: 5,
        mtime,
        mtime_nsec: 7,
        dev: 2049,
        ino: 42,
        mode: 0o100644,
        uid: 1000,
        gid: 1000,
        size,
    }
}

fn oid(seed: u8) -> Vec<u8> {
    (0..20u8).map(|i| i.wrapping_mul(7).wrapping_add(seed)).collect()
}

fn paths(index: &Index) -> Vec<String> {
    index.each_entry().iter().map(|e| e.get_path()).collect()
}

fn new_index() -> Index {
    Index::new(&"index".to_string())
}

#[test]
fn add_a_single_file() {
    let mut index = new_index();
    index.add("alice.txt".to_string(), oid(1), stat(3, 10));
    assert_eq!(paths(&index), vec!["alice.txt".to_string()]);
}

#[test]
fn replace_a_file_with_directory() {
    let mut index = new_index();
    index.add("alice.txt".to_string(), oid(1), stat(3, 10));
    index.add("bob.txt".to_string(), oid(1), stat(3, 10));
    index.add("alice.txt/nested.txt".to_string(), oid(1), stat(3, 10));
    assert_eq!(paths(&index), vec!["alice.txt/nested.txt".to_string(), "bob.txt".to_string()]);
}

#[test]
fn replace_dir_with_file() {
    let mut index = new_index();
    index.add("alice.txt".to_string(), oid(1), stat(3, 10));
    index.add("nested/bob.txt".to_string(), oid(1), stat(3, 10));
    index.add("nested".to_string(), oid(1), stat(3, 10));
    assert_eq!(paths(&index), vec!["alice.txt".to_string(), "nested".to_string()]);
}

#[test]
fn replace_recursively_dir_with_file() {
    let mut index = new_index();
    index.add("alice.txt".to_string(), oid(1), stat(3, 10));
    index.add("nested/bob.txt".to_string(), oid(1), stat(3, 10));
    index.add("nested/inner/claire.txt".to_string(), oid(1), stat(3, 10));
    index.add("nested".to_string(), oid(1), stat(3, 10));
    assert_eq!(paths(&index), vec!["alice.txt".to_string(), "nested".to_string()]);
}

#[test]
fn adding_a_then_a_b_keeps_only_a_b() {
    let mut index = new_index();
    index.add("a".to_string(), oid(1), stat(1, 1));
    index.add("a/b".to_string(), oid(2), stat(1, 1));
    assert_eq!(paths(&index), vec!["a/b".to_string()]);
    assert!(!index.is_tracked_file("a"));
}

#[test]
fn adding_a_b_then_a_keeps_only_a() {
    let mut index = new_index();
    index.add("a/b".to_string(), oid(2), stat(1, 1));
    index.add("a".to_string(), oid(1), stat(1, 1));
    assert_eq!(paths(&index), vec!["a".to_string()]);
    assert!(!index.is_tracked_file("a/b"));
}

#[test]
fn sibling_with_common_prefix_is_not_a_conflict() {
    let mut index = new_index();
    index.add("ab".to_string(), oid(1), stat(1, 1));
    index.add("a".to_string(), oid(2), stat(1, 1));
    assert_eq!(paths(&index), vec!["a".to_string(), "ab".to_string()]);
}

#[test]
fn entries_come_in_byte_order() {
    let mut index = new_index();
    index.add("b.txt".to_string(), oid(1), stat(1, 1));
    index.add("a/z.txt".to_string(), oid(1), stat(1, 1));
    index.add("a.txt".to_string(), oid(1), stat(1, 1));
    index.add("B.txt".to_string(), oid(1), stat(1, 1));
    assert_eq!(
        paths(&index),
        vec!["B.txt".to_string(), "a.txt".to_string(), "a/z.txt".to_string(), "b.txt".to_string()]
    );
}

#[test]
fn re_adding_a_path_overwrites_its_entry() {
    let mut index = new_index();
    index.add("f".to_string(), oid(1), stat(1, 1));
    index.add("f".to_string(), oid(9), stat(4, 2));
    assert_eq!(index.each_entry().len(), 1);
    assert_eq!(index.each_entry()[0].oid, oid(9));
    assert_eq!(index.each_entry()[0].size, 4);
}

#[test]
fn executable_bit_selects_the_mode() {
    let mut index = new_index();
    let mut s = stat(1, 1);
    s.mode = 0o100755;
    index.add("run.sh".to_string(), oid(1), s);
    index.add("doc.txt".to_string(), oid(1), stat(1, 1));
    let e = index.each_entry();
    assert_eq!(e[0].get_mode(), REGULAR_MODE);
    assert_eq!(e[1].get_mode(), EXECUTABLE_MODE);
    assert_eq!(jit_core::index::get_mode(0o100755), 0o100755);
    assert_eq!(jit_core::index::get_mode(0o100644), 0o100644);
    assert_eq!(jit_core::index::get_mode(0o100750), 0o100644);
}

#[test]
fn is_tracked_matches_substrings() {
    let mut index = new_index();
    index.add("a/b/c.txt".to_string(), oid(1), stat(1, 1));
    assert!(index.is_tracked("a"));
    assert!(index.is_tracked("a/b"));
    assert!(index.is_tracked("c.txt"));
    assert!(!index.is_tracked("d"));
    assert!(index.is_tracked_file("a/b/c.txt"));
    assert!(!index.is_tracked_file("a/b"));
}

#[test]
fn entry_record_layout() {
    let mut index = new_index();
    index.add("ab".to_string(), vec![0xaa; 20], stat(3, 10));
    let e = &index.each_entry()[0];
    let rec = e.get_data();
    // 62 fixed bytes and 2 of path fill 64: the NUL terminator opens another block
    assert_eq!(rec.len(), 72);
    assert_eq!(&rec[64..72], &[0u8; 8]);
    assert_eq!(&rec[0..4], &1_600_000_000u32.to_be_bytes());
    assert_eq!(&rec[24..28], &0o100644u32.to_be_bytes());
    assert_eq!(&rec[36..40], &3u32.to_be_bytes());
    assert_eq!(&rec[40..60], &[0xaa; 20][..]);
    assert_eq!(&rec[60..62], &[0, 2]);
    assert_eq!(&rec[62..64], b"ab");
    let mut one = new_index();
    one.add("a".to_string(), vec![1; 20], stat(3, 10));
    // 62 + 1 = 63 bytes of head, one NUL makes 64
    assert_eq!(one.each_entry()[0].get_data().len(), 64);
    let mut long = new_index();
    long.add("abcdefgh".to_string(), vec![1; 20], stat(3, 10));
    // 62 + 8 = 70 bytes of head, padded to 72
    assert_eq!(long.each_entry()[0].get_data().len(), 72);
    let mut exact = new_index();
    exact.add("ab".repeat(1) + "cd", vec![1; 20], stat(3, 10));
    // 62 + 4 = 66: padded to 72
    assert_eq!(exact.each_entry()[0].get_data().len(), 72);
}

fn sample() -> Index {
    let mut index = new_index();
    index.add("1.txt".to_string(), oid(1), stat(3, 10));
    index.add("a/2.txt".to_string(), oid(2), stat(3, 11));
    index.add("a/b/3.txt".to_string(), oid(3), stat(5, 12));
    let mut s = stat(9, 13);
    s.mode = 0o100755;
    index.add("run.sh".to_string(), oid(4), s);
    index
}

#[test]
fn index_round_trip() {
    let index = sample();
    let data = index.write_updates();
    assert_eq!(&data[0..4], b"DIRC");
    assert_eq!(&data[4..8], &[0, 0, 0, 2]);
    assert_eq!(&data[8..12], &[0, 0, 0, 4]);
    let mut loaded = new_index();
    assert_eq!(loaded.load(&data), Ok(()));
    let a: Vec<(String, Vec<u8>, u32)> =
        index.each_entry().iter().map(|e| (e.get_path(), e.oid.clone(), e.mode)).collect();
    let b: Vec<(String, Vec<u8>, u32)> =
        loaded.each_entry().iter().map(|e| (e.get_path(), e.oid.clone(), e.mode)).collect();
    assert_eq!(a, b);
    assert_eq!(loaded.write_updates(), data);
}

#[test]
fn empty_index_round_trip() {
    let index = new_index();
    let data = index.write_updates();
    assert_eq!(data.len(), 32);
    let mut loaded = sample();
    assert_eq!(loaded.load(&data), Ok(()));
    assert_eq!(loaded.each_entry().len(), 0);
}

#[test]
fn any_corrupted_byte_fails_the_checksum() {
    let data = sample().write_updates();
    for k in 0..data.len() {
        let mut bad = data.clone();
        bad[k] ^= 0x01;
        let mut loaded = new_index();
        assert_eq!(loaded.load(&bad), Err(Error::ChecksumMismatch), "byte {}", k);
        assert_eq!(loaded.each_entry().len(), 0);
    }
}

fn with_checksum(mut body: Vec<u8>) -> Vec<u8> {
    let d = ring::digest::digest(&ring::digest::SHA1_FOR_LEGACY_USE_ONLY, &body);
    body.extend_from_slice(d.as_ref());
    body
}

#[test]
fn header_errors() {
    let mut loaded = new_index();
    assert_eq!(loaded.load(&[0u8; 31]), Err(Error::IndexTruncated));
    let mut body = b"DIRX".to_vec();
    body.extend_from_slice(&[0, 0, 0, 2, 0, 0, 0, 0]);
    assert_eq!(loaded.load(&with_checksum(body)), Err(Error::BadSignature));
    let mut body = b"DIRC".to_vec();
    body.extend_from_slice(&[0, 0, 0, 3, 0, 0, 0, 0]);
    assert_eq!(loaded.load(&with_checksum(body)), Err(Error::BadVersion));
    let mut body = b"DIRC".to_vec();
    body.extend_from_slice(&[0, 0, 0, 2, 0, 0, 0, 1]);
    assert_eq!(loaded.load(&with_checksum(body)), Err(Error::MalformedIndex));
}

#[test]
fn refresh_updates_cached_metadata() {
    let mut index = sample();
    assert!(index.is_changed());
    let mut loaded = new_index();
    loaded.load(&index.write_updates()).unwrap();
    assert!(!loaded.is_changed());
    loaded.update_entry_stat("a/2.txt", stat(3, 99));
    assert!(loaded.is_changed());
    let e: Vec<&EntryAdd> = loaded.each_entry().iter().filter(|e| e.get_path() == "a/2.txt").collect();
    assert_eq!(e[0].mtime, 99);
    assert_eq!(e[0].oid, oid(2));
    index.clear();
    assert_eq!(index.each_entry().len(), 0);
}

#[test]
fn tree_listing_of_an_index_entry() {
    let mut index = new_index();
    index.add("a/b.txt".to_string(), vec![7u8; 20], stat(1, 1));
    let mut expect = b"100644 b.txt\0".to_vec();
    expect.extend_from_slice(&[7u8; 20]);
    assert_eq!(index.each_entry()[0].get_data_to_tree(), expect);
}
