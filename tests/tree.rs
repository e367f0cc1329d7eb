use dupdirs::clones::db::{CloneGroups, ClonesDB};
use dupdirs::error_behavior::{error_action, ErrorAction, ErrorBehavior};
use dupdirs::fs::dir::{is_unique_dir, unique_dirs, WalkEntry, WalkError};
use dupdirs::fs::tree::{FSTree, FilesIterKind, NodeKind, PathKind, TraversalOrder};
use dupdirs::path::HashedAbsolutePath;
use dupdirs::paths::{PathRefs, Paths};

fn hap(s: &str) -> HashedAbsolutePath {
    HashedAbsolutePath::from(s)
}

fn db(groups: Vec<(u64, Vec<HashedAbsolutePath>)>) -> ClonesDB {
    ClonesDB::new(None, CloneGroups::from(groups))
}

fn tree_with(files: &[&str]) -> FSTree {
    let mut tree = FSTree::new();
    for f in files {
        tree.insert_file(f).unwrap();
    }
    tree
}

#[test]
fn insert_then_lookup_round_trip() {
    let mut tree = FSTree::new();
    tree.insert_path("/a/b/c", PathKind::File).unwrap();
    let node = tree.node_with_path("/a/b/c").unwrap();
    assert_eq!(node.kind(), NodeKind::File);
    assert_eq!(node.path(), "/a/b/c");
    let dir = tree.node_with_path("/a/b").unwrap();
    assert_eq!(dir.kind(), NodeKind::Directory);
    assert!(tree.node_with_path("/a/x").is_err());
}

#[test]
fn reinserting_a_directory_changes_nothing() {
    let mut tree = FSTree::new();
    tree.insert_directory("/a/b").unwrap();
    tree.insert_file("/a/b/f").unwrap();
    let before = tree.node_count();
    let again = tree.insert_directory("/a/b").unwrap();
    assert_eq!(tree.node_count(), before);
    assert_eq!(again.path(), "/a/b");
    assert!(tree.contains_file("/a/b/f"));
    assert_eq!(tree.children_ids(again.node_id()).len(), 1);
}

#[test]
fn inserting_below_a_file_fails() {
    let mut tree = FSTree::new();
    tree.insert_file("/a/f").unwrap();
    let before = tree.node_count();
    assert!(tree.insert_file("/a/f/g").is_err());
    assert_eq!(tree.node_count(), before);
}

#[test]
fn traversals_and_counts() {
    let tree = tree_with(&["/a/b/x", "/a/y", "/c/z"]);
    assert_eq!(tree.file_count(), 3);
    assert_eq!(tree.directory_count(), 4);
    assert!(tree.contains_directory("/a/b"));
    assert!(!tree.contains_directory("/a/y"));
    let a = tree.node_with_path("/a").unwrap().node_id();
    let pre = tree.path_texts(&tree.traverse_ids(a, TraversalOrder::Pre, false, None));
    assert_eq!(pre, vec!["/a/b", "/a/b/x", "/a/y"]);
    let level = tree.path_texts(&tree.traverse_ids(a, TraversalOrder::Level, true, None));
    assert_eq!(level, vec!["/a", "/a/b", "/a/y", "/a/b/x"]);
    let children = tree.path_texts(&tree.file_ids(a, FilesIterKind::Children));
    assert_eq!(children, vec!["/a/y"]);
    assert!(tree.path_files("/a/y", FilesIterKind::Children).is_err());
    assert!(tree.path_files("/nope", FilesIterKind::Children).is_err());
}

#[test]
fn end_to_end_clones_and_unique_files() {
    let db = db(vec![
        (100, vec![hap("/a/x"), hap("/b/x")]),
        (50, vec![hap("/a/y"), hap("/c/y")]),
    ]);
    let tree = tree_with(&["/a/x", "/a/y", "/a/z"]);
    let unique = tree.path_texts(&tree.unique_file_ids(&db));
    assert_eq!(unique, vec!["/a/z"]);
}

#[test]
fn clone_directory_detection() {
    let db = db(vec![
        (100, vec![hap("/a/x"), hap("/b/x")]),
        (50, vec![hap("/a/y"), hap("/c/y")]),
    ]);
    let tree = tree_with(&["/a/x", "/a/y"]);
    let dirs = tree.clone_dirs("/a", &db, false).unwrap();
    assert_eq!(dirs.len(), 1);
    assert_eq!(dirs[0].path().as_path(), "/a");
    assert_eq!(dirs[0].file_count(), 2);
    assert_eq!(dirs[0].size_bytes(), 150);

    let tree = tree_with(&["/a/x", "/a/y", "/a/z"]);
    assert!(tree.clone_dirs("/a", &db, false).unwrap().is_empty());
    assert!(tree.clone_dirs("/a/x", &db, false).is_err());
}

#[test]
fn recursive_search_descends_past_disqualified_dirs() {
    let db = db(vec![(10, vec![hap("/r/d/x"), hap("/s/x")])]);
    let tree = tree_with(&["/r/d/x", "/r/own"]);
    let dirs = tree.clone_dirs("/r", &db, true).unwrap();
    assert_eq!(dirs.len(), 1);
    assert_eq!(dirs[0].path().as_path(), "/r/d");
}

#[test]
fn deep_path_follows_single_child_chain() {
    let db = db(vec![(10, vec![hap("/a/b/c/x"), hap("/s/x")])]);
    let tree = tree_with(&["/a/b/c/x"]);
    let dirs = tree.clone_dirs("/a", &db, true).unwrap();
    assert_eq!(dirs.len(), 1);
    assert_eq!(dirs[0].deep_path().unwrap().as_path(), "/a/b/c");
    assert_eq!(dirs[0].deep_path_rel().unwrap(), "b/c");
}

#[test]
fn duplicate_directories_are_grouped_with_reference_dirs() {
    let db = db(vec![
        (10, vec![hap("/p/a/x"), hap("/p/b/x"), hap("/q/x")]),
        (20, vec![hap("/p/a/y"), hap("/p/b/y")]),
    ]);
    let tree = tree_with(&["/p/a/x", "/p/a/y", "/p/b/x", "/p/b/y"]);
    let groups = tree.clone_dir_groups("/p", &db, true).unwrap();
    let names: Vec<Vec<&str>> = groups
        .iter()
        .map(|g| g.0.iter().map(|d| d.path().as_path()).collect())
        .collect();
    assert_eq!(names, vec![vec!["/p/a", "/p/b"]]);
    assert_eq!(groups[0].minimum_reclaimable_size(), 30);
    let refs = groups[0].ref_dirs();
    assert_eq!(refs.len(), 1);
    assert_eq!(refs[0].path().as_path(), "/q");
    let missing = refs[0].missing(&db);
    let missing: Vec<&str> = missing.iter().map(|p| p.inner()).collect();
    assert_eq!(missing, vec!["/p/a/y"]);
    let extra = refs[0].extra(&vec![hap("/q/x"), hap("/q/other")]);
    let extra: Vec<&str> = extra.iter().map(|p| p.as_path()).collect();
    assert_eq!(extra, vec!["/q/other"]);
}

#[test]
fn unique_directories() {
    let db = db(vec![(10, vec![hap("/u/d/x"), hap("/s/x")])]);
    let tree = tree_with(&["/u/d/x", "/u/e/f/y", "/u/e/g"]);
    assert!(is_unique_dir("/u/e", &db));
    assert!(!is_unique_dir("/u", &db));
    let found = unique_dirs(&tree, "/u", true, &db).unwrap();
    assert_eq!(tree.path_texts(&found), vec!["/u/e"]);
    let children = unique_dirs(&tree, "/u", false, &db).unwrap();
    assert_eq!(tree.path_texts(&children), vec!["/u/e"]);
}

#[test]
fn error_policy_actions() {
    assert_eq!(error_action(ErrorBehavior::Ignore), ErrorAction::Skip);
    assert_eq!(error_action(ErrorBehavior::Display), ErrorAction::Report);
    assert_eq!(error_action(ErrorBehavior::Stop), ErrorAction::Abort);
}

#[test]
fn path_lists_dedup_in_order() {
    let paths = Paths::new(vec!["/b".to_owned(), "/a".to_owned(), "/b".to_owned()]);
    let set = paths.into_set();
    assert_eq!(set.0, vec!["/b".to_owned(), "/a".to_owned()]);
    let refs = PathRefs::new(vec!["/a".to_owned()]);
    assert_eq!(refs.into_set().into_path_refs().0, vec!["/a".to_owned()]);
}

#[test]
fn inserting_below_a_node_checks_the_hierarchy() {
    let mut tree = FSTree::new();
    let a = tree.insert_directory("/a").unwrap().node_id();
    let f = tree.insert_file("/a/f").unwrap().node_id();
    assert!(tree.insert_child_file(a, "/b/x").is_err());
    assert!(tree.insert_child_file(f, "/a/f/x").is_err());
    let c = tree.insert_child_directory(a, "/a/c/d").unwrap();
    assert_eq!(c.path(), "/a/c/d");
    assert!(tree.contains_directory("/a/c"));
}

#[test]
fn lookup_relative_to_a_node() {
    let tree = tree_with(&["/a/b/x"]);
    let a = tree.node_with_path("/a").unwrap().node_id();
    let x = tree.node_path_node_id(a, "b/x").unwrap();
    assert_eq!(tree.path_texts(&vec![x]), vec!["/a/b/x"]);
    assert!(tree.node_path_node_id(a, "/c").is_err());
    assert!(tree.node_path_node_id(a, "b/nope").is_err());
}

#[test]
fn decloned_files_keep_one_per_group() {
    let db = db(vec![(10, vec![hap("/a/x1"), hap("/a/x2"), hap("/b/x")])]);
    let tree = tree_with(&["/a/x1", "/a/x2", "/a/solo"]);
    let kept = tree.dir_decloned_inside_files("/a", false, &db).unwrap();
    assert_eq!(tree.path_texts(&kept), vec!["/a/x1", "/a/solo"]);
    assert!(tree.dir_decloned_inside_files("/a/x1", false, &db).is_err());
}

#[test]
fn inside_clones_lists_groups_with_two_copies_inside() {
    let db = db(vec![
        (10, vec![hap("/a/x1"), hap("/a/x2"), hap("/b/x")]),
        (20, vec![hap("/a/y"), hap("/b/y")]),
    ]);
    let dirs = PathRefs::new(vec!["/a".to_owned()]);
    let (stats, files) = dirs.inside_clones(false, &db).unwrap();
    let files: Vec<&str> = files.iter().map(|p| p.inner()).collect();
    assert_eq!(files, vec!["/a/x1", "/a/x2"]);
    assert_eq!(stats.total_count, 2);
    assert_eq!(stats.total_size, 20);
    assert_eq!(stats.reclaimable_count, 1);
    assert_eq!(stats.reclaimable_size, 10);
}

#[test]
fn walk_entries_extend_the_tree_under_the_error_policy() {
    let entries = vec![
        WalkEntry::Directory("/w".to_owned()),
        WalkEntry::File("/w/a".to_owned()),
        WalkEntry::Unreadable("cannot read /w/locked".to_owned()),
        WalkEntry::Directory("/w/d".to_owned()),
        WalkEntry::File("/w/d/b".to_owned()),
    ];
    let mut tree = FSTree::new();
    let report = tree.extend_with_entries(&entries, ErrorBehavior::Display).unwrap();
    assert_eq!((report.dir_count, report.file_count), (2, 2));
    assert_eq!(report.shown_errors, vec!["cannot read /w/locked".to_owned()]);
    assert!(tree.contains_file("/w/d/b"));

    let mut quiet = FSTree::new();
    let report = quiet.extend_with_entries(&entries, ErrorBehavior::Ignore).unwrap();
    assert!(report.shown_errors.is_empty());

    let mut strict = FSTree::new();
    match strict.extend_with_entries(&entries, ErrorBehavior::Stop) {
        Err(WalkError::Stopped(message)) => assert_eq!(message, "cannot read /w/locked"),
        other => panic!("unexpected {other:?}"),
    }
}

#[test]
fn walk_below_a_file_fails_without_change() {
    let mut tree = FSTree::new();
    tree.insert_file("/w").unwrap();
    let before = tree.node_count();
    let entries = vec![WalkEntry::File("/w/x".to_owned())];
    assert!(matches!(tree.extend_with_entries(&entries, ErrorBehavior::Display), Err(WalkError::Insert(_))));
    assert_eq!(tree.node_count(), before);
}

#[test]
fn grouping_keeps_search_order_and_leaves_non_matching_dirs_alone() {
    let db = db(vec![
        (10, vec![hap("/p/a/x"), hap("/p/b/x"), hap("/p/c/x")]),
        (20, vec![hap("/p/c/y"), hap("/q/y")]),
    ]);
    let tree = tree_with(&["/p/a/x", "/p/b/x", "/p/c/x", "/p/c/y"]);
    let groups = tree.clone_dir_groups("/p", &db, true).unwrap();
    let names: Vec<Vec<&str>> = groups
        .iter()
        .map(|g| g.0.iter().map(|d| d.path().as_path()).collect())
        .collect();
    assert_eq!(names, vec![vec!["/p/a", "/p/b"], vec!["/p/c"]]);
}
