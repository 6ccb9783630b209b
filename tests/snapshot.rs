use sync_mv::path::{normalize_base_dir, parent_dir, path_less};
use sync_mv::{EntryKind, Metadata, SnapshotBuilder, Summary};

fn listing(s: &Summary) -> Vec<(String, u64, u128)> {
    s.files.iter().map(|e| (e.path.clone(), e.meta.size, e.meta.modified)).collect()
}

#[test]
fn threshold_filters_small_files() {
    let mut s = Summary::new("/r/", 100);
    s.add_file("/r/small".to_string(), 99, 1);
    s.add_file("/r/exact".to_string(), 100, 2);
    s.add_file("/r/big/one".to_string(), 1000, 3);
    assert_eq!(
        listing(&s),
        vec![("big/one".to_string(), 1000, 3), ("exact".to_string(), 100, 2)]
    );
}

#[test]
fn symlinks_are_not_recorded_or_followed() {
    let mut s = Summary::new("/r/", 0);
    assert!(!s.visit("/r/link".to_string(), EntryKind::Symlink));
    assert!(!s.visit("/r/fifo".to_string(), EntryKind::Special));
    assert!(s.visit("/r/dir".to_string(), EntryKind::Directory));
    assert!(!s.visit("/r/file".to_string(), EntryKind::File { size: 3, modified: 4 }));
    assert_eq!(listing(&s), vec![("file".to_string(), 3, 4)]);
}

#[test]
fn later_record_of_a_path_wins() {
    let mut s = Summary::new("/r/", 0);
    s.insert_relative("a".to_string(), Metadata { size: 1, modified: 1 });
    s.insert_relative("a".to_string(), Metadata { size: 2, modified: 2 });
    assert_eq!(listing(&s), vec![("a".to_string(), 2, 2)]);
}

#[test]
fn listing_does_not_depend_on_order_of_discovery() {
    let files = [("b/x", 1u64), ("a", 2), ("b", 3), ("a/z", 4), ("é", 5), ("Z", 6)];
    let mut one = Summary::new("/r/", 0);
    for (p, size) in files.iter() {
        one.insert_relative(p.to_string(), Metadata { size: *size, modified: 0 });
    }
    let mut two = Summary::new("/r/", 0);
    for (p, size) in files.iter().rev() {
        two.insert_relative(p.to_string(), Metadata { size: *size, modified: 0 });
    }
    assert_eq!(listing(&one), listing(&two));
    let paths: Vec<String> = one.files.iter().map(|e| e.path.clone()).collect();
    let mut sorted = paths.clone();
    sorted.sort();
    assert_eq!(paths, sorted);
}

#[test]
fn path_order_is_byte_order() {
    assert!(path_less("a", "b"));
    assert!(path_less("a", "a/b"));
    assert!(!path_less("a", "a"));
    assert!(path_less("Z", "a"));
    assert!(path_less("z", "é"));
    assert!(!path_less("b", "a/c"));
}

#[test]
fn parent_directories() {
    assert_eq!(parent_dir("/d/x/a"), Some("/d/x".to_string()));
    assert_eq!(parent_dir("/a"), Some("".to_string()));
    assert_eq!(parent_dir("a"), None);
}

#[test]
fn base_dir_gets_a_separator() {
    assert_eq!(normalize_base_dir("tests/data"), "tests/data/");
    assert_eq!(normalize_base_dir("tests/data/"), "tests/data/");
    assert_eq!(normalize_base_dir(""), "/");
}

#[test]
fn builder_walks_a_stack_of_directories() {
    let mut b = SnapshotBuilder::new("/root", 10);
    assert_eq!(b.summary.base_dir, "/root/");
    assert_eq!(b.next_dir(), Some("/root/".to_string()));
    b.visit("/root/sub".to_string(), EntryKind::Directory);
    b.visit("/root/big".to_string(), EntryKind::File { size: 10, modified: 7 });
    b.visit("/root/tiny".to_string(), EntryKind::File { size: 9, modified: 7 });
    b.visit("/root/link".to_string(), EntryKind::Symlink);
    assert_eq!(b.next_dir(), Some("/root/sub".to_string()));
    b.visit("/root/sub/f".to_string(), EntryKind::File { size: 11, modified: 8 });
    assert_eq!(b.next_dir(), None);
    let s = b.finish();
    assert_eq!(
        listing(&s),
        vec![("big".to_string(), 10, 7), ("sub/f".to_string(), 11, 8)]
    );
}
