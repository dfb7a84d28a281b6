//! Scans over small synthetic trees: the worked example, scheduler
//! agreement, error handling, counters and the limiter.

use find_doubles::engine::{ScanOutcome, scan_sequential};
use find_doubles::identity::ScanErrorKind;
use find_doubles::limiter::ResourceLimiter;
use find_doubles::schedule::{QueueOrder, scan_scheduled};
use find_doubles::tree::FsTree;
use find_doubles::{Backend, Comparison, find_doubles};

fn file(name: &str, content: &str) -> FsTree {
    FsTree::File { name: name.to_string(), content: content.as_bytes().to_vec() }
}

fn dir(name: &str, entries: Vec<FsTree>) -> FsTree {
    FsTree::Dir { name: name.to_string(), entries }
}

fn path(parts: &[&str]) -> Vec<String> {
    parts.iter().map(|s| s.to_string()).collect()
}

/// The tree of the worked example: /a/x.txt="hello", /b/x.txt="hello",
/// /c/y.txt="hello".
fn example_tree() -> FsTree {
    dir(
        "",
        vec![
            dir("a", vec![file("x.txt", "hello")]),
            dir("b", vec![file("x.txt", "hello")]),
            dir("c", vec![file("y.txt", "hello")]),
        ],
    )
}

fn hex_of_sha3(content: &[u8]) -> String {
    let digest = <sha3::Sha3_256 as sha3::Digest>::digest(content);
    let mut s = "0x".to_string();
    for b in digest.as_slice() {
        s.push_str(&format!("{:02x}", b));
    }
    s
}

/// Group membership as a comparable value: token to sorted path list,
/// sorted by token.
fn membership(o: &ScanOutcome) -> Vec<(String, Vec<Vec<String>>)> {
    let mut m: Vec<(String, Vec<Vec<String>>)> = o
        .groups
        .groups
        .iter()
        .map(|(t, ps)| {
            let mut ps = ps.clone();
            ps.sort();
            (t.clone(), ps)
        })
        .collect();
    m.sort();
    m
}

#[test]
fn example_by_name_groups_by_base_name() {
    let tree = example_tree();
    let o = find_doubles(Comparison::FileName, Backend::Sync, 1, &tree);
    assert_eq!(o.groups.groups.len(), 2);
    let x = o.groups.get(&"x.txt".to_string()).expect("x.txt grouped");
    assert_eq!(*x, vec![path(&["", "a", "x.txt"]), path(&["", "b", "x.txt"])]);
    let y = o.groups.get(&"y.txt".to_string()).expect("y.txt grouped");
    assert_eq!(*y, vec![path(&["", "c", "y.txt"])]);
    assert!(o.errors.is_empty());
    // Only x.txt is a duplicate group.
    let dups = o.groups.duplicates();
    assert_eq!(dups.len(), 1);
    assert_eq!(dups[0].0, "x.txt");
    assert_eq!(dups[0].1.len(), 2);
}

#[test]
fn example_by_hash_groups_all_three() {
    let tree = example_tree();
    let o = find_doubles(Comparison::Hash, Backend::Sync, 1, &tree);
    assert_eq!(o.groups.groups.len(), 1);
    let token = hex_of_sha3(b"hello");
    let g = o.groups.get(&token).expect("hash token grouped");
    assert_eq!(g.len(), 3);
    assert!(g.contains(&path(&["", "a", "x.txt"])));
    assert!(g.contains(&path(&["", "b", "x.txt"])));
    assert!(g.contains(&path(&["", "c", "y.txt"])));
}

#[test]
fn example_by_both_requires_name_and_content() {
    let tree = example_tree();
    let o = find_doubles(Comparison::Both, Backend::Sync, 1, &tree);
    assert_eq!(o.groups.groups.len(), 2);
    let hash = hex_of_sha3(b"hello");
    let x = o.groups.get(&format!("x.txt:{}", hash)).expect("x.txt:<hash> grouped");
    assert_eq!(x.len(), 2);
    let y = o.groups.get(&format!("y.txt:{}", hash)).expect("y.txt:<hash> grouped");
    assert_eq!(y.len(), 1);
}

#[test]
fn all_backends_yield_identical_membership() {
    let tree = dir(
        "root",
        vec![
            dir("a", vec![file("x.txt", "hello"), file("z.txt", "zebra")]),
            dir("b", vec![file("x.txt", "hello"), dir("bb", vec![file("z.txt", "zebra")])]),
            dir("c", vec![file("y.txt", "hello")]),
        ],
    );
    for comp in [Comparison::FileName, Comparison::Hash, Comparison::Both] {
        let baseline = membership(&find_doubles(comp, Backend::Sync, 4, &tree));
        for backend in [
            Backend::Async,
            Backend::MultiAsync,
            Backend::Threaded,
            Backend::MultiThreaded,
            Backend::All,
        ] {
            let other = find_doubles(comp, backend, 4, &tree);
            assert_eq!(membership(&other), baseline);
            assert_eq!(other.files, 5);
            assert_eq!(other.dirs, 5);
        }
    }
}

#[test]
fn rescan_yields_same_membership() {
    let tree = example_tree();
    for backend in [Backend::Sync, Backend::MultiAsync] {
        let first = find_doubles(Comparison::Both, backend, 3, &tree);
        let second = find_doubles(Comparison::Both, backend, 3, &tree);
        assert_eq!(membership(&first), membership(&second));
        assert_eq!(first.files, second.files);
        assert_eq!(first.dirs, second.dirs);
        assert_eq!(first.errors.len(), second.errors.len());
    }
}

#[test]
fn unreadable_dir_is_logged_and_siblings_proceed() {
    let tree = dir(
        "",
        vec![
            dir("a", vec![file("x.txt", "hello")]),
            FsTree::DirUnreadable { name: "locked".to_string() },
            dir("c", vec![file("x.txt", "hello")]),
        ],
    );
    let o = find_doubles(Comparison::FileName, Backend::Sync, 1, &tree);
    assert_eq!(o.errors.len(), 1);
    assert_eq!(o.errors[0].path, path(&["", "locked"]));
    assert_eq!(o.errors[0].kind, ScanErrorKind::UnreadableDir);
    // Both siblings were still traversed and grouped.
    let x = o.groups.get(&"x.txt".to_string()).expect("siblings grouped");
    assert_eq!(x.len(), 2);
    // The unreadable directory is still a visited directory.
    assert_eq!(o.dirs, 4);
    assert_eq!(o.files, 2);
}

#[test]
fn unreadable_file_errors_under_hash_but_groups_under_name() {
    let tree = dir(
        "",
        vec![
            file("x.txt", "hello"),
            FsTree::FileUnreadable { name: "x.txt".to_string() },
        ],
    );
    let by_hash = find_doubles(Comparison::Hash, Backend::Sync, 1, &tree);
    assert_eq!(by_hash.errors.len(), 1);
    assert_eq!(by_hash.errors[0].kind, ScanErrorKind::UnreadableFile);
    assert_eq!(by_hash.groups.groups.len(), 1);
    assert_eq!(by_hash.files, 2);

    let by_name = find_doubles(Comparison::FileName, Backend::Sync, 1, &tree);
    assert!(by_name.errors.is_empty());
    let x = by_name.groups.get(&"x.txt".to_string()).expect("grouped by name");
    assert_eq!(x.len(), 2);
}

#[test]
fn unknown_entry_is_logged_and_counted_nowhere() {
    let tree = dir(
        "",
        vec![file("a.txt", "one"), FsTree::Unknown { name: "ghost".to_string() }],
    );
    let o = find_doubles(Comparison::FileName, Backend::Sync, 1, &tree);
    assert_eq!(o.errors.len(), 1);
    assert_eq!(o.errors[0].path, path(&["", "ghost"]));
    assert_eq!(o.errors[0].kind, ScanErrorKind::Metadata);
    assert_eq!(o.files, 1);
    assert_eq!(o.dirs, 1);
}

#[test]
fn every_file_is_grouped_or_logged() {
    let tree = dir(
        "",
        vec![
            dir("a", vec![file("x.txt", "hello"), FsTree::FileUnreadable { name: "bad".to_string() }]),
            FsTree::DirUnreadable { name: "locked".to_string() },
            file("y.txt", "world"),
        ],
    );
    let o = find_doubles(Comparison::Hash, Backend::MultiThreaded, 4, &tree);
    let grouped: u64 = o.groups.groups.iter().map(|(_, ps)| ps.len() as u64).sum();
    let file_errors = o
        .errors
        .iter()
        .filter(|e| e.kind == ScanErrorKind::UnreadableFile)
        .count() as u64;
    assert_eq!(grouped + file_errors, o.files);
    assert_eq!(o.files, 3);
    // The directory error is logged too.
    assert!(o.errors.iter().any(|e| e.kind == ScanErrorKind::UnreadableDir));
}

#[test]
fn empty_directory_scans_clean() {
    let tree = dir("empty", vec![]);
    let o = find_doubles(Comparison::Both, Backend::Sync, 1, &tree);
    assert_eq!(o.groups.groups.len(), 0);
    assert!(o.errors.is_empty());
    assert_eq!(o.files, 0);
    assert_eq!(o.dirs, 1);
}

#[test]
fn unreadable_root_logs_one_error() {
    let tree = FsTree::DirUnreadable { name: "root".to_string() };
    let o = find_doubles(Comparison::FileName, Backend::Async, 1, &tree);
    assert_eq!(o.groups.groups.len(), 0);
    assert_eq!(o.errors.len(), 1);
    assert_eq!(o.errors[0].kind, ScanErrorKind::UnreadableDir);
    assert_eq!(o.dirs, 1);
    assert_eq!(o.files, 0);
}

fn wide_tree(width: usize) -> FsTree {
    let mut entries = Vec::new();
    for i in 0..width {
        entries.push(dir(
            &format!("d{}", i),
            vec![file("a.txt", "same"), file(&format!("f{}", i), "same")],
        ));
    }
    dir("root", entries)
}

#[test]
fn limiter_caps_concurrently_held_slots() {
    let tree = wide_tree(16);
    let o = scan_scheduled(Comparison::Hash, &tree, QueueOrder::Fifo, 8, 2);
    assert!(o.peak_handles <= 2);
    assert!(o.peak_handles >= 1);
    let unbounded = scan_scheduled(Comparison::Hash, &tree, QueueOrder::Fifo, 8, 8);
    assert!(unbounded.peak_handles <= 8);
    // The same membership either way: the limiter defers work, never drops it.
    assert_eq!(membership(&o), membership(&unbounded));
}

#[test]
fn instrumented_limiter_never_exceeds_capacity() {
    let mut limiter = ResourceLimiter::new(3);
    assert!(limiter.try_acquire());
    assert!(limiter.try_acquire());
    assert!(limiter.try_acquire());
    // All slots are taken: admission is refused, not blocked.
    assert!(!limiter.try_acquire());
    limiter.release();
    assert!(limiter.try_acquire());
    assert!(!limiter.try_acquire());
    assert_eq!(limiter.peak_held(), 3);
}

#[test]
fn sequential_keeps_depth_first_arrival_order() {
    let tree = example_tree();
    let o = scan_sequential(Comparison::FileName, &tree);
    let x = o.groups.get(&"x.txt".to_string()).expect("grouped");
    // Depth-first order: a before b.
    assert_eq!(*x, vec![path(&["", "a", "x.txt"]), path(&["", "b", "x.txt"])]);
    assert_eq!(o.peak_handles, 1);
}

#[test]
fn lifo_and_fifo_orders_agree_on_membership() {
    let tree = wide_tree(6);
    let fifo = scan_scheduled(Comparison::Both, &tree, QueueOrder::Fifo, 3, 4);
    let lifo = scan_scheduled(Comparison::Both, &tree, QueueOrder::Lifo, 3, 4);
    assert_eq!(membership(&fifo), membership(&lifo));
    assert_eq!(fifo.files, 12);
    assert_eq!(fifo.dirs, 7);
    assert_eq!(lifo.files, 12);
}

#[test]
fn same_name_different_content_split_by_strategy() {
    let tree = dir(
        "",
        vec![
            dir("a", vec![file("x.txt", "one")]),
            dir("b", vec![file("x.txt", "two")]),
        ],
    );
    // ByName joins them regardless of directory and content.
    let by_name = find_doubles(Comparison::FileName, Backend::Sync, 1, &tree);
    assert_eq!(by_name.groups.get(&"x.txt".to_string()).unwrap().len(), 2);
    // ByContentHash splits them: the contents differ.
    let by_hash = find_doubles(Comparison::Hash, Backend::Sync, 1, &tree);
    assert_eq!(by_hash.groups.groups.len(), 2);
    // ByBoth requires both, so it splits them too.
    let by_both = find_doubles(Comparison::Both, Backend::Sync, 1, &tree);
    assert_eq!(by_both.groups.groups.len(), 2);
    assert!(by_both.groups.duplicates().is_empty());
}
