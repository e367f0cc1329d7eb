use dupdirs::fs::tree::NodeKind;
use dupdirs::clones::db::{
    clone_groups_from_texts, prune_clone_groups, CloneGroups, CloneRefGroup, DirCloneFilesStats,
};
use dupdirs::path::{HashedAbsolutePath, HashedAbsolutePathRef, HashedAbsolutePathRefSet};

fn hap(s: &str) -> HashedAbsolutePath {
    HashedAbsolutePath::from(s)
}

fn two_groups() -> CloneGroups {
    CloneGroups::from(vec![
        (100, vec![hap("/a/x"), hap("/b/x")]),
        (50, vec![hap("/a/y"), hap("/c/y")]),
    ])
}

fn texts(v: &[HashedAbsolutePathRef]) -> Vec<String> {
    let mut t: Vec<String> = v.iter().map(|p| p.inner().to_owned()).collect();
    t.sort();
    t
}

#[test]
fn clones_under_dir_non_recursive() {
    let groups = two_groups();
    let files = groups.dir_clone_files("/a", false).unwrap();
    assert_eq!(texts(files.clones().paths()), vec!["/a/x", "/a/y"]);
    assert_eq!(files.stats().total_size(), 300);
    assert_eq!(files.stats().reclaimable_count(), 2);
    assert_eq!(files.stats().reclaimable_size(), 150);
}

#[test]
fn reclaimable_keeps_one_copy() {
    let mut set = HashedAbsolutePathRefSet::new();
    for p in ["/a/1", "/b/1", "/c/1", "/d/1"] {
        set.insert(HashedAbsolutePathRef::new(p).unwrap());
    }
    let group = CloneRefGroup::from_parts(10, set);
    assert_eq!(group.total_count(), 4);
    assert_eq!(group.total_size(), 40);
    assert_eq!(group.reclaimable_count(), 3);
    assert_eq!(group.reclaimable_size(), 30);
    let empty = CloneRefGroup::from_parts(10, HashedAbsolutePathRefSet::new());
    assert_eq!(empty.reclaimable_count(), 0);
    assert_eq!(empty.reclaimable_size(), 0);
}

#[test]
fn partition_by_unrelated_dir_is_all_outside() {
    let groups = two_groups();
    assert!(groups.dir_clone_groups("/d", true).is_empty());
    let group = groups.clone_group("/a/x").unwrap();
    let outside = group.filter_out_dir("/d");
    assert_eq!(outside.len(), 2);
    let outside_a = group.filter_out_dir("/a");
    assert_eq!(texts(outside_a.files().paths()), vec!["/b/x"]);
}

#[test]
fn partition_splits_inside_and_outside() {
    let groups = two_groups();
    let parts = groups.dir_clone_groups("/a", false);
    assert_eq!(parts.len(), 2);
    assert_eq!(texts(parts[0].inside().files().paths()), vec!["/a/x"]);
    assert_eq!(texts(parts[0].outside().files().paths()), vec!["/b/x"]);
    assert_eq!(parts[0].file_count(), 2);
    assert_eq!(parts[0].total_size(), 200);
    assert_eq!(parts[0].reclaimable_size(), 100);
    assert_eq!(parts[0].inside_reclaimable_count(), 1);
    assert_eq!(parts[0].inside_reclaimable_size(), 100);
}

#[test]
fn file_lookups() {
    let groups = two_groups();
    assert!(groups.file_is_a_clone("/a/x"));
    assert!(!groups.file_is_a_clone("/a/z"));
    let clones = groups.file_clones("/a/x").unwrap();
    assert_eq!(clones.file_size(), 100);
    assert_eq!(texts(clones.clones().paths()), vec!["/b/x"]);
    assert_eq!(clones.reclaimable_size(), 100);
    assert!(groups.file_clones("/nowhere").is_none());
    let mut it = groups.file_clones_iter("/c/y");
    assert_eq!(it.next().unwrap().inner(), "/a/y");
    assert!(it.next().is_none());
}

#[test]
fn member_listings() {
    let groups = two_groups();
    assert_eq!(texts(&groups.files_iter().remaining()), vec!["/a/x", "/a/y", "/b/x", "/c/y"]);
    assert_eq!(texts(&groups.dir_clone_files_iter("/", true).remaining()).len(), 4);
    assert_eq!(texts(&groups.dir_clone_files_iter("/b", false).remaining()), vec!["/b/x"]);
}

#[test]
fn pruning_drops_deleted_files_and_small_groups() {
    let lists = vec![
        (100, vec![hap("/a/x"), hap("/b/x"), hap("/c/x")]),
        (50, vec![hap("/a/y"), hap("/c/y")]),
    ];
    let on_disk = vec![vec![true, false, true], vec![true, false]];
    let pruned = prune_clone_groups(&lists, &on_disk);
    assert_eq!(pruned.len(), 1);
    assert_eq!(pruned[0].0, 100);
    let kept: Vec<&str> = pruned[0].1.iter().map(|p| p.as_path()).collect();
    assert_eq!(kept, vec!["/a/x", "/c/x"]);
}

#[test]
fn report_groups_with_one_file_are_left_out() {
    let raw = vec![
        (10, vec!["/a/x".to_owned(), "/b/x".to_owned()]),
        (20, vec!["/a/lonely".to_owned()]),
    ];
    let groups = clone_groups_from_texts(&raw, "/");
    assert_eq!(groups.len(), 1);
    assert_eq!(groups[0].0, 10);
}

#[test]
fn sizes_are_written_by_the_size_crate() {
    let stats = DirCloneFilesStats::new(1024, 1, 2048);
    assert_eq!(stats.total_size_human(), size::Size::from_bytes(1024u64).to_string());
    assert_eq!(stats.reclaimable_size_human(), size::Size::from_bytes(2048u64).to_string());
    assert_ne!(stats.total_size_human(), "1024");
}

#[test]
fn scanned_paths_are_pruned_by_presence() {
    let mut set = dupdirs::path::HashedAbsolutePathSet::new();
    set.insert(hap("/kept"));
    set.insert(hap("/gone"));
    let flags: Vec<bool> = set.paths().iter().map(|p| p.as_path() == "/kept").collect();
    let pruned = dupdirs::clones::db::prune_scanned_paths(&set, &flags);
    let left: Vec<&str> = pruned.paths().iter().map(|p| p.as_path()).collect();
    assert_eq!(left, vec!["/kept"]);
}

#[test]
fn file_clones_leave_out_exactly_the_file_itself() {
    let groups = CloneGroups::from(vec![(7, vec![hap("/a/x"), hap("/b/x"), hap("/c/x")])]);
    let clones = groups.file_clones("/b/x").unwrap();
    assert_eq!(clones.clones().len(), 2);
    assert_eq!(clones.reclaimable_size(), 14);
}

#[test]
fn listings_for_several_paths_hold_each_duplicate_once() {
    let groups = two_groups();
    let queries = vec![
        (hap("/a"), Some(NodeKind::Directory)),
        (hap("/a/x"), Some(NodeKind::File)),
        (hap("/nowhere"), None),
    ];
    let found = groups.paths_clones_iter_hap(&queries, false).remaining();
    assert_eq!(texts(&found), vec!["/a/x", "/a/y", "/b/x"]);
}
