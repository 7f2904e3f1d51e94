use std::collections::HashSet;

use oldirs::classify::classify;
use oldirs::classify::DirEntry;
use oldirs::classify::FsTree;

fn entry(name: &str, node: FsTree) -> DirEntry {
    DirEntry {
        name: name.to_string(),
        node,
    }
}

fn file(atime: u64, size: u64, uid: u32) -> FsTree {
    FsTree::File { atime, size, uid }
}

fn dir(uid: u32, entries: Vec<DirEntry>) -> FsTree {
    FsTree::Dir { uid, entries }
}

/// The example tree: `a/w` and everything under `b` were last accessed
/// long ago, `a/x` recently.
fn example_tree(cutoff: u64) -> FsTree {
    dir(
        0,
        vec![
            entry(
                "a",
                dir(
                    0,
                    vec![
                        entry("w", file(cutoff - 1000, 10, 0)),
                        entry("x", file(cutoff + 1000, 20, 0)),
                    ],
                ),
            ),
            entry(
                "b",
                dir(
                    0,
                    vec![
                        entry("y", file(cutoff - 1000, 30, 0)),
                        entry("z", file(cutoff - 500, 40, 0)),
                    ],
                ),
            ),
        ],
    )
}

fn epoch_secs(t: std::time::SystemTime) -> u64 {
    t.duration_since(std::time::UNIX_EPOCH).unwrap().as_secs()
}

#[test]
fn test_oldir() {
    let five_years_ago = humantime::parse_rfc3339("2018-12-30T00:00:00Z").unwrap();
    let cutoff = epoch_secs(five_years_ago);
    let tree = example_tree(cutoff);
    let (records, _total) = classify("example_dir", &tree, cutoff);
    let actual: HashSet<String> = records.into_iter().map(|r| r.path).collect();
    let expected: HashSet<String> = ["example_dir/a/w", "example_dir/b"]
        .iter()
        .map(|s| s.to_string())
        .collect();
    assert_eq!(actual, expected)
}

#[test]
fn test_partially_stale_tree_details() {
    let cutoff: u64 = 10_000;
    let tree = example_tree(cutoff);
    let (records, total) = classify("r", &tree, cutoff);
    // b collapses into one summary; a cannot, so a/w is reported alone.
    assert_eq!(records.len(), 2);
    assert_eq!(records[0].path, "r/a/w");
    assert_eq!(records[0].size, 10);
    assert!(!records[0].summary);
    assert_eq!(records[1].path, "r/b");
    assert_eq!(records[1].size, 70);
    assert!(records[1].summary);
    assert_eq!(total, 80);
}

#[test]
fn test_wholly_stale_tree_collapses_to_root() {
    let cutoff: u64 = 500;
    let tree = dir(
        7,
        vec![
            entry("f", file(1, 11, 1)),
            entry("sub", dir(8, vec![entry("g", file(2, 22, 2))])),
        ],
    );
    let (records, total) = classify("root", &tree, cutoff);
    assert_eq!(records.len(), 1);
    assert_eq!(records[0].path, "root");
    assert_eq!(records[0].size, 33);
    assert_eq!(records[0].uid, 7);
    assert!(records[0].summary);
    assert_eq!(total, 33);
}

#[test]
fn test_empty_directory_is_wholly_stale() {
    let tree = dir(3, vec![]);
    let (records, total) = classify("empty", &tree, 100);
    assert_eq!(records.len(), 1);
    assert_eq!(records[0].path, "empty");
    assert_eq!(records[0].size, 0);
    assert!(records[0].summary);
    assert_eq!(total, 0);
}

#[test]
fn test_fresh_file_keeps_root_uncollapsed() {
    let cutoff: u64 = 100;
    let tree = dir(
        0,
        vec![
            entry("old", file(1, 5, 0)),
            entry("new", file(200, 6, 0)),
        ],
    );
    let (records, total) = classify("top", &tree, cutoff);
    assert_eq!(records.len(), 1);
    assert_eq!(records[0].path, "top/old");
    assert!(!records[0].summary);
    assert_eq!(total, 5);
}

#[test]
fn test_symlink_suppresses_collapse() {
    let cutoff: u64 = 100;
    let tree = dir(
        0,
        vec![entry("old", file(1, 5, 0)), entry("link", FsTree::Symlink)],
    );
    let (records, _) = classify("top", &tree, cutoff);
    // The symlink itself is never reported, but it keeps `top` from
    // collapsing, so the stale file is reported alone.
    assert_eq!(records.len(), 1);
    assert_eq!(records[0].path, "top/old");
    assert!(!records[0].summary);
}

#[test]
fn test_skipped_entry_does_not_suppress_collapse() {
    let cutoff: u64 = 100;
    let tree = dir(
        0,
        vec![
            entry("old", file(1, 5, 0)),
            entry("unreadable", FsTree::Skipped),
        ],
    );
    let (records, total) = classify("top", &tree, cutoff);
    assert_eq!(records.len(), 1);
    assert_eq!(records[0].path, "top");
    assert!(records[0].summary);
    assert_eq!(records[0].size, 5);
    assert_eq!(total, 5);
}

#[test]
fn test_reclassifying_unchanged_tree_is_identical() {
    let cutoff: u64 = 10_000;
    let tree = example_tree(cutoff);
    let (first, first_total) = classify("r", &tree, cutoff);
    let (second, second_total) = classify("r", &tree, cutoff);
    assert_eq!(first.len(), second.len());
    for (a, b) in first.iter().zip(second.iter()) {
        assert_eq!(a.path, b.path);
        assert_eq!(a.uid, b.uid);
        assert_eq!(a.size, b.size);
        assert_eq!(a.summary, b.summary);
    }
    assert_eq!(first_total, second_total);
}
