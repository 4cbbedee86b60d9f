use dust::dirwalker::{clean_inodes, walk, walk_it, EntryKind, FsEntry};
use dust::node::{build_node, Node};

fn file(path: &str, name: &str, size: u64, id: Option<(u64, u64)>) -> FsEntry {
    FsEntry {
        path: path.to_string(),
        name: name.to_string(),
        kind: Some(EntryKind::Other),
        metadata: Some((size, id)),
        listing_failed: false,
        entries: Vec::new(),
    }
}

fn dir(path: &str, name: &str, size: u64, entries: Vec<FsEntry>) -> FsEntry {
    FsEntry {
        path: path.to_string(),
        name: name.to_string(),
        kind: Some(EntryKind::Directory),
        metadata: Some((size, None)),
        listing_failed: false,
        entries,
    }
}

#[test]
fn aggregates_sizes_bottom_up() {
    // R (own 10) holds a (100), b (200) and S (own 20) holding c (50).
    let s = dir("/r/s", "s", 20, vec![file("/r/s/c", "c", 50, None)]);
    let r = dir(
        "/r",
        "r",
        10,
        vec![file("/r/a", "a", 100, None), file("/r/b", "b", 200, None), s],
    );
    let (trees, failed) = walk_it(vec![r], Vec::new(), true, false, false);
    assert!(!failed);
    assert_eq!(trees.len(), 1);
    assert_eq!(trees[0].size, 10 + 100 + 200 + (20 + 50));
    assert_eq!(trees[0].children.len(), 3);
    check_sizes_cover_children(&trees[0]);
}

// Every node's size covers the sum of its children's sizes.
fn check_sizes_cover_children(n: &Node) {
    let child_sum: u64 = n.children.iter().map(|c| c.size).sum();
    assert!(n.size >= child_sum);
    for c in &n.children {
        check_sizes_cover_children(c);
    }
}

#[test]
fn hardlinks_counted_once_under_apparent_size() {
    let r = dir(
        "/r",
        "r",
        7,
        vec![
            file("/r/a", "a", 500, Some((1, 42))),
            file("/r/b", "b", 500, Some((1, 42))),
        ],
    );
    let (trees, failed) = walk_it(vec![r], Vec::new(), true, false, false);
    assert!(!failed);
    assert_eq!(trees.len(), 1);
    assert_eq!(trees[0].size, 7 + 500);
    assert_eq!(trees[0].children.len(), 1);
}

#[test]
fn hardlinks_counted_twice_under_disk_usage() {
    let r = dir(
        "/r",
        "r",
        7,
        vec![
            file("/r/a", "a", 500, Some((1, 42))),
            file("/r/b", "b", 500, Some((1, 42))),
        ],
    );
    let (trees, failed) = walk_it(vec![r], Vec::new(), false, false, false);
    assert!(!failed);
    assert_eq!(trees[0].size, 7 + 500 + 500);
    assert_eq!(trees[0].children.len(), 2);
}

#[test]
fn hardlinks_not_deduplicated_across_roots() {
    let r1 = dir("/r1", "r1", 1, vec![file("/r1/a", "a", 500, Some((1, 42)))]);
    let r2 = dir("/r2", "r2", 1, vec![file("/r2/b", "b", 500, Some((1, 42)))]);
    let (trees, failed) = walk_it(vec![r1, r2], Vec::new(), true, false, false);
    assert!(!failed);
    assert_eq!(trees.len(), 2);
    assert_eq!(trees[0].size, 501);
    assert_eq!(trees[1].size, 501);
}

#[test]
fn unreadable_listing_flags_and_keeps_own_node() {
    let broken = FsEntry {
        path: "/r/locked".to_string(),
        name: "locked".to_string(),
        kind: Some(EntryKind::Directory),
        metadata: Some((30, None)),
        listing_failed: true,
        entries: Vec::new(),
    };
    let ok = dir("/ok", "ok", 5, vec![file("/ok/a", "a", 10, None)]);
    let (trees, failed) = walk_it(vec![broken, ok], Vec::new(), true, false, false);
    assert!(failed);
    assert_eq!(trees.len(), 2);
    assert_eq!(trees[0].size, 30);
    assert_eq!(trees[0].children.len(), 0);
    // The unrelated sibling root is aggregated fully and correctly.
    assert_eq!(trees[1].size, 15);
    assert_eq!(trees[1].children.len(), 1);
}

#[test]
fn ignored_path_contributes_nothing_and_no_flag() {
    let sub = dir("/r/skip", "skip", 20, vec![file("/r/skip/c", "c", 50, None)]);
    let r = dir("/r", "r", 10, vec![file("/r/a", "a", 100, None), sub]);
    let ignore = vec!["/r/skip".to_string()];
    let (trees, failed) = walk_it(vec![r], ignore, true, false, false);
    assert!(!failed);
    assert_eq!(trees[0].size, 110);
    assert_eq!(trees[0].children.len(), 1);
}

#[test]
fn hidden_entry_skipped_unless_requested() {
    let build = || {
        dir(
            "/r",
            "r",
            10,
            vec![file("/r/.secret", ".secret", 100, None), file("/r/a", "a", 1, None)],
        )
    };
    let (trees, failed) = walk_it(vec![build()], Vec::new(), true, false, false);
    assert!(!failed);
    assert_eq!(trees[0].size, 11);
    assert_eq!(trees[0].children.len(), 1);

    let (trees, failed) = walk_it(vec![build()], Vec::new(), true, false, true);
    assert!(!failed);
    assert_eq!(trees[0].size, 111);
    assert_eq!(trees[0].children.len(), 2);
}

#[test]
fn filecount_mode_counts_included_entries() {
    let s = dir("/r/s", "s", 20, vec![file("/r/s/c", "c", 50, None)]);
    let r = dir(
        "/r",
        "r",
        10,
        vec![file("/r/a", "a", 100, None), file("/r/b", "b", 200, None), s],
    );
    let (trees, failed) = walk_it(vec![r], Vec::new(), true, true, false);
    assert!(!failed);
    // r, a, b, s and c: five included entries, each weighted one.
    assert_eq!(trees[0].size, 5);
}

#[test]
fn filecount_mode_still_deduplicates_hardlinks() {
    let r = dir(
        "/r",
        "r",
        7,
        vec![
            file("/r/a", "a", 500, Some((1, 42))),
            file("/r/b", "b", 500, Some((1, 42))),
        ],
    );
    let (trees, _) = walk_it(vec![r], Vec::new(), true, true, false);
    // The root and one of the two hardlinked entries.
    assert_eq!(trees[0].size, 2);
}

#[test]
fn symlink_is_a_leaf_and_never_followed() {
    // The link's listing fields point back at a whole tree, as a cycle on
    // disk would; they must never be consulted.
    let target_like = dir("/r/loop", "loop", 999, vec![file("/r/loop/x", "x", 999, None)]);
    let link = FsEntry {
        path: "/r/link".to_string(),
        name: "link".to_string(),
        kind: Some(EntryKind::Symlink),
        metadata: Some((3, None)),
        listing_failed: false,
        entries: vec![target_like],
    };
    let r = dir("/r", "r", 10, vec![link]);
    let (trees, failed) = walk_it(vec![r], Vec::new(), true, false, false);
    assert!(!failed);
    assert_eq!(trees[0].size, 13);
    assert_eq!(trees[0].children.len(), 1);
    assert_eq!(trees[0].children[0].size, 3);
    assert_eq!(trees[0].children[0].children.len(), 0);
}

#[test]
fn unknown_entry_kind_flags_and_skips() {
    let unknown = FsEntry {
        path: "/r/ghost".to_string(),
        name: "ghost".to_string(),
        kind: None,
        metadata: None,
        listing_failed: false,
        entries: Vec::new(),
    };
    let r = dir("/r", "r", 10, vec![unknown, file("/r/a", "a", 4, None)]);
    let (trees, failed) = walk_it(vec![r], Vec::new(), true, false, false);
    assert!(failed);
    assert_eq!(trees[0].size, 14);
    assert_eq!(trees[0].children.len(), 1);
}

#[test]
fn unresolvable_metadata_drops_subtree_silently() {
    let vanished = FsEntry {
        path: "/r/gone".to_string(),
        name: "gone".to_string(),
        kind: Some(EntryKind::Other),
        metadata: None,
        listing_failed: false,
        entries: Vec::new(),
    };
    let r = dir("/r", "r", 10, vec![vanished, file("/r/a", "a", 4, None)]);
    let (trees, failed) = walk_it(vec![r], Vec::new(), true, false, false);
    assert!(!failed);
    assert_eq!(trees[0].size, 14);
    assert_eq!(trees[0].children.len(), 1);
}

#[test]
fn unresolvable_root_yields_no_tree() {
    let mut bad = dir("/gone", "gone", 1, Vec::new());
    bad.metadata = None;
    let ok = dir("/ok", "ok", 2, Vec::new());
    let (trees, failed) = walk_it(vec![bad, ok], Vec::new(), true, false, false);
    assert!(!failed);
    assert_eq!(trees.len(), 1);
    assert_eq!(trees[0].size, 2);
}

#[test]
fn walk_alone_keeps_own_sizes_unaggregated() {
    let r = dir("/r", "r", 10, vec![file("/r/a", "a", 100, None)]);
    let ignore: Vec<String> = Vec::new();
    let (node, failed) = walk(&r, &ignore, false, false);
    assert!(!failed);
    let node = node.unwrap();
    assert_eq!(node.size, 10);
    assert_eq!(node.children.len(), 1);
    assert_eq!(node.children[0].size, 100);
}

#[test]
fn clean_inodes_aggregates_and_records_identities() {
    let raw = Node {
        name: "/r".to_string(),
        size: 10,
        children: vec![
            Node {
                name: "/r/a".to_string(),
                size: 100,
                children: Vec::new(),
                inode_device: Some((1, 7)),
            },
            Node {
                name: "/r/b".to_string(),
                size: 100,
                children: Vec::new(),
                inode_device: Some((1, 7)),
            },
        ],
        inode_device: Some((1, 9)),
    };
    let mut inodes: Vec<(u64, u64)> = Vec::new();
    let cleaned = clean_inodes(raw, &mut inodes, true).unwrap();
    assert_eq!(cleaned.size, 110);
    assert_eq!(cleaned.children.len(), 1);
    assert_eq!(inodes.len(), 2);
}

#[test]
fn clean_inodes_drops_already_seen_root() {
    let raw = Node {
        name: "/r".to_string(),
        size: 10,
        children: Vec::new(),
        inode_device: Some((1, 9)),
    };
    let mut inodes: Vec<(u64, u64)> = vec![(1, 9)];
    assert!(clean_inodes(raw, &mut inodes, true).is_none());
    assert_eq!(inodes.len(), 1);
}

#[test]
fn build_node_uses_resolved_metadata() {
    let n = build_node("/x".to_string(), Vec::new(), Some((44, Some((2, 3)))), false).unwrap();
    assert_eq!(n.size, 44);
    assert_eq!(n.inode_device, Some((2, 3)));
    assert_eq!(n.name, "/x");
    assert!(build_node("/x".to_string(), Vec::new(), None, false).is_none());
}

#[test]
fn build_node_filecount_keeps_identity() {
    let n = build_node("/x".to_string(), Vec::new(), Some((44, Some((2, 3)))), true).unwrap();
    assert_eq!(n.size, 1);
    assert_eq!(n.inode_device, Some((2, 3)));
}

#[test]
fn hidden_names_are_those_starting_with_a_dot() {
    assert!(dust::dirwalker::name_is_hidden(&".git".to_string()));
    assert!(!dust::dirwalker::name_is_hidden(&"src".to_string()));
    assert!(!dust::dirwalker::name_is_hidden(&"".to_string()));
}

#[test]
fn ignore_set_matches_whole_paths_only() {
    let ignore = vec!["/r/skip".to_string()];
    assert!(dust::dirwalker::contains_string(&ignore, &"/r/skip".to_string()));
    assert!(!dust::dirwalker::contains_string(&ignore, &"/r/skip/deeper".to_string()));
    assert!(!dust::dirwalker::contains_string(&ignore, &"/r/ski".to_string()));
}

#[test]
fn empty_roots_give_empty_result() {
    let (trees, failed) = walk_it(Vec::new(), Vec::new(), true, false, false);
    assert!(trees.is_empty());
    assert!(!failed);
}
