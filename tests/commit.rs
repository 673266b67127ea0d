use jit_core::author::Author;
use jit_core::commit::Commit;
use jit_core::database::{read_object, ObjectType};
use jit_core::error::Error;
use jit_core::object::Object;

#[test]
fn author_line_format() {
    let a = Author::new("Ada", "ada@example.com", 1_700_000_000, 60);
    assert_eq!(a.to_bytes(), b"Ada <ada@example.com> 1700000000 +0100".to_vec());
    let b = Author::new("Bob Ross", "b@r", 5, -150);
    assert_eq!(b.to_bytes(), b"Bob Ross <b@r> 5 -0230".to_vec());
    let c = Author::new("C", "c@c", -42, 0);
    assert_eq!(c.to_bytes(), b"C <c@c> -42 +0000".to_vec());
}

#[test]
fn author_line_parses_back() {
    let a = Author::parse(b"Bob Ross <b@r> 1700000000 -0230").unwrap();
    assert_eq!(a.name, "Bob Ross");
    assert_eq!(a.email, "b@r");
    assert_eq!(a.time, 1_700_000_000);
    assert_eq!(a.offset_minutes, -150);
    assert_eq!(Author::parse(b"Bob <b@r> 17x0 +0000").err(), Some(Error::MalformedCommit));
    assert_eq!(Author::parse(b"Bob <b@r> 01 +0000").err(), Some(Error::MalformedCommit));
    assert_eq!(Author::parse(b"Bob b@r 1 +0000").err(), Some(Error::MalformedCommit));
    assert_eq!(Author::parse(b"Bob <b@r> 1 +01").err(), Some(Error::MalformedCommit));
}

fn tree_hex() -> String {
    "4b825dc642cb6eb9a060e54bf8d69288fbee4904".to_string()
}

#[test]
fn commit_payload_format() {
    let author = Author::new("Ada", "ada@example.com", 1_700_000_000, 60);
    let c = Commit::new(tree_hex(), author, "first\n".to_string(), None, None);
    let expect = format!(
        "tree {}\nauthor Ada <ada@example.com> 1700000000 +0100\ncommitter Ada <ada@example.com> 1700000000 +0100\n\nfirst\n",
        tree_hex()
    );
    assert_eq!(c.get_data(), expect.as_bytes().to_vec());
    let mut record = format!("commit {}\0", expect.len()).into_bytes();
    record.extend_from_slice(expect.as_bytes());
    assert_eq!(c.encode(), record);
    let digest = ring::digest::digest(&ring::digest::SHA1_FOR_LEGACY_USE_ONLY, &record);
    assert_eq!(c.oid, digest.as_ref().to_vec());
    assert_eq!(c.get_oid(), c.oid);
}

#[test]
fn commit_with_parent_parses_back() {
    let author = Author::new("Ada", "ada@example.com", 1_700_000_000, -300);
    let parent = "0123456789abcdef0123456789abcdef01234567".to_string();
    let c = Commit::new(tree_hex(), author, "msg".to_string(), Some(parent.clone()), None);
    let p = Commit::parse(&c.get_data(), c.oid.clone()).unwrap();
    assert_eq!(p.tree_ref, tree_hex());
    assert_eq!(p.parent, Some(parent));
    assert_eq!(p.message, "msg");
    assert_eq!(p.author.name, "Ada");
    assert_eq!(p.author.offset_minutes, -300);
    assert_eq!(p.oid, c.oid);
    match read_object(&c.encode(), b"id").unwrap() {
        ObjectType::CommitType { commit } => assert_eq!(commit.message, "msg"),
        _ => panic!("not a commit"),
    }
}

#[test]
fn commit_without_tree_is_rejected() {
    let payload = b"author A <a> 1 +0000\n\nm";
    assert_eq!(Commit::parse(payload, vec![]).err(), Some(Error::MalformedCommit));
    let no_blank = b"tree abc\nauthor A <a> 1 +0000\n";
    assert_eq!(Commit::parse(no_blank, vec![]).err(), Some(Error::MalformedCommit));
}
