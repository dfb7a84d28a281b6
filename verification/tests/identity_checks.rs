//! The identity functions and the selector parsers on concrete values.

use find_doubles::identity::{
    ScanErrorKind, get_file_id, get_file_id_by_both, get_file_id_by_file_name,
    get_file_id_by_hash,
};
use find_doubles::tree::FsTree;
use find_doubles::{Backend, Comparison, ParseError};

fn file(name: &str, content: &str) -> FsTree {
    FsTree::File { name: name.to_string(), content: content.as_bytes().to_vec() }
}

fn path(parts: &[&str]) -> Vec<String> {
    parts.iter().map(|s| s.to_string()).collect()
}

fn hex_of_sha3(content: &[u8]) -> String {
    let digest = <sha3::Sha3_256 as sha3::Digest>::digest(content);
    let mut s = "0x".to_string();
    for b in digest.as_slice() {
        s.push_str(&format!("{:02x}", b));
    }
    s
}

#[test]
fn name_identity_is_the_base_name() {
    let r = get_file_id_by_file_name(&path(&["", "a", "x.txt"]));
    assert_eq!(r, Ok("x.txt".to_string()));
}

#[test]
fn name_identity_fails_on_empty_path() {
    let r = get_file_id_by_file_name(&path(&[]));
    assert_eq!(r, Err(ScanErrorKind::NoName));
}

#[test]
fn hash_identity_matches_reference_digest() {
    // Computed independently of the library's own hashing path: the library
    // must produce `0x` plus the lowercase hex SHA3-256 digest.
    let node = file("x.txt", "hello");
    let r = get_file_id_by_hash(&node).expect("readable file hashes");
    assert_eq!(r, hex_of_sha3(b"hello"));
    assert_eq!(r.len(), 66);
    assert!(r.starts_with("0x"));
}

#[test]
fn hash_identity_of_empty_content() {
    let node = file("x.txt", "");
    let r = get_file_id_by_hash(&node).expect("empty file hashes");
    assert_eq!(r, hex_of_sha3(b""));
}

#[test]
fn hash_identity_fails_on_unreadable_file() {
    let node = FsTree::FileUnreadable { name: "x.txt".to_string() };
    assert_eq!(get_file_id_by_hash(&node), Err(ScanErrorKind::UnreadableFile));
}

#[test]
fn both_identity_joins_name_and_hash() {
    let node = file("x.txt", "hello");
    let r = get_file_id_by_both(&path(&["", "a", "x.txt"]), &node).expect("both parts succeed");
    assert_eq!(r, format!("x.txt:{}", hex_of_sha3(b"hello")));
}

#[test]
fn both_identity_fails_on_missing_name_first() {
    let node = file("x.txt", "hello");
    assert_eq!(get_file_id_by_both(&path(&[]), &node), Err(ScanErrorKind::NoName));
    let unreadable = FsTree::FileUnreadable { name: "x.txt".to_string() };
    assert_eq!(
        get_file_id_by_both(&path(&["x.txt"]), &unreadable),
        Err(ScanErrorKind::UnreadableFile)
    );
}

#[test]
fn dispatch_picks_the_selected_strategy() {
    let node = file("x.txt", "hello");
    let p = path(&["", "a", "x.txt"]);
    assert_eq!(get_file_id(Comparison::FileName, &p, &node), Ok("x.txt".to_string()));
    assert_eq!(get_file_id(Comparison::Hash, &p, &node), Ok(hex_of_sha3(b"hello")));
    assert_eq!(
        get_file_id(Comparison::Both, &p, &node),
        Ok(format!("x.txt:{}", hex_of_sha3(b"hello")))
    );
}

#[test]
fn different_content_gives_different_hash_tokens() {
    let a = get_file_id_by_hash(&file("a", "one")).unwrap();
    let b = get_file_id_by_hash(&file("b", "two")).unwrap();
    assert_ne!(a, b);
}

#[test]
fn comparison_selectors_parse_case_insensitively() {
    assert_eq!(Comparison::from_str("name"), Ok(Comparison::FileName));
    assert_eq!(Comparison::from_str("NAME"), Ok(Comparison::FileName));
    assert_eq!(Comparison::from_str("Hash"), Ok(Comparison::Hash));
    assert_eq!(Comparison::from_str("both"), Ok(Comparison::Both));
    assert_eq!(Comparison::from_str("names"), Err(ParseError::UnknownComparison));
    assert_eq!(Comparison::from_str(""), Err(ParseError::UnknownComparison));
}

#[test]
fn backend_selectors_parse_case_insensitively() {
    assert_eq!(Backend::from_str("sync"), Ok(Backend::Sync));
    assert_eq!(Backend::from_str("Async"), Ok(Backend::Async));
    assert_eq!(Backend::from_str("MULTI_ASYNC"), Ok(Backend::MultiAsync));
    assert_eq!(Backend::from_str("thread"), Ok(Backend::Threaded));
    assert_eq!(Backend::from_str("multi_thread"), Ok(Backend::MultiThreaded));
    assert_eq!(Backend::from_str("all"), Ok(Backend::All));
    assert_eq!(Backend::from_str("threads"), Err(ParseError::UnknownBackend));
}

#[test]
fn group_insert_appends_in_arrival_order() {
    let mut groups = find_doubles::groups::DuplicateGroups::new();
    groups.insert("t".to_string(), path(&["a"]));
    groups.insert("u".to_string(), path(&["b"]));
    groups.insert("t".to_string(), path(&["c"]));
    assert_eq!(groups.len(), 2);
    let t = groups.get(&"t".to_string()).expect("t present");
    assert_eq!(*t, vec![path(&["a"]), path(&["c"])]);
    let u = groups.get(&"u".to_string()).expect("u present");
    assert_eq!(*u, vec![path(&["b"])]);
    assert!(groups.get(&"v".to_string()).is_none());
    // Only groups with more than one path are duplicates.
    let dups = groups.duplicates();
    assert_eq!(dups.len(), 1);
    assert_eq!(dups[0].0, "t");
}
