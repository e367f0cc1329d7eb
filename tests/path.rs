use dupdirs::path::{HashedAbsolutePath, HashedAbsolutePathRef, HashedAbsolutePathSet};

#[test]
fn starts_with() {
    let x = HashedAbsolutePath::from("/a/b/c");
    let y = HashedAbsolutePath::from("/a");
    let z = HashedAbsolutePath::from("/b");
    assert!(x.starts_with_hap(&y));
    assert!(x.starts_with(y.as_path()).unwrap());
    assert!(!x.starts_with(z.as_path()).unwrap());
}

#[test]
fn is_parent() {
    let x = HashedAbsolutePath::from("/a/b/c");
    let y = HashedAbsolutePath::from("/a/b");
    let z = HashedAbsolutePath::from("/b");
    assert!(x.parent_is_hap(&y));
    assert!(x.parent_is(y.as_path()).unwrap());
    assert!(!x.parent_is_hap(&z));
    assert!(!x.parent_is(z.as_path()).unwrap());
}

#[test]
fn eq() {
    let x = HashedAbsolutePath::from("/a/b/c");
    let y = HashedAbsolutePath::from("/a/b/c");
    let z = HashedAbsolutePath::from("/b");
    assert_eq!(x, y);
    assert_eq!(y, x);
    assert_ne!(x, z);
    assert_ne!(z, x);
}

#[test]
fn ord() {
    let x = HashedAbsolutePath::from("/a/b/cde");
    let y = HashedAbsolutePath::from("/a/b/def");
    assert!(x < y);
    assert!(y > x);
}

#[test]
fn every_ancestor_passes_and_others_fail() {
    let p = HashedAbsolutePath::from("/a/b/c");
    for anc in ["/", "/a", "/a/b", "/a/b/c"] {
        assert!(p.starts_with(anc).unwrap(), "{anc}");
    }
    for other in ["/b", "/a/c", "/a/b/c/d", "/a/bc"] {
        assert!(!p.starts_with(other).unwrap(), "{other}");
    }
}

#[test]
fn root_is_ancestor_of_every_path() {
    let root = HashedAbsolutePath::from("/");
    for p in ["/", "/x", "/x/y/z"] {
        assert!(HashedAbsolutePath::from(p).starts_with_hap(&root));
    }
}

#[test]
fn parent_test_is_exact() {
    let p = HashedAbsolutePath::from("/a/b");
    assert!(p.parent_is("/a").unwrap());
    assert!(!p.parent_is("/").unwrap());
    assert!(!p.parent_is("/a/b").unwrap());
    let top = HashedAbsolutePath::from("/a");
    assert!(top.parent_is("/").unwrap());
    let root = HashedAbsolutePath::from("/");
    assert!(!root.parent_is("/").unwrap());
    assert!(!root.parent_is_hap(&root));
}

#[test]
fn relative_paths_are_refused() {
    let p = HashedAbsolutePath::from("/a/b");
    assert!(p.starts_with("a").is_err());
    assert!(p.parent_is("").is_err());
    assert!(HashedAbsolutePathRef::new("a/b").is_err());
}

#[test]
fn dots_and_double_separators_are_resolved() {
    let p = HashedAbsolutePath::from("/a//b/./c/../d/");
    assert_eq!(p.as_path(), "/a/b/d");
    assert_eq!(p, HashedAbsolutePath::from("/a/b/d"));
}

#[test]
fn ref_variant_agrees_with_owned() {
    let r = HashedAbsolutePathRef::new("/a/b/c").unwrap();
    assert_eq!(r.inner(), "/a/b/c");
    assert!(r.starts_with("/a").unwrap());
    assert!(r.parent_is("/a/b").unwrap());
    assert!(!r.parent_is("/a").unwrap());
    assert_eq!(r.hash(), HashedAbsolutePath::from("/a/b/c").hash());
}

#[test]
fn path_set_keeps_path_order_and_one_of_each() {
    let mut set = HashedAbsolutePathSet::new();
    assert!(set.insert(HashedAbsolutePath::from("/b")));
    assert!(set.insert(HashedAbsolutePath::from("/a/z")));
    assert!(!set.insert(HashedAbsolutePath::from("/b")));
    assert_eq!(set.len(), 2);
    let texts: Vec<&str> = set.paths().iter().map(|p| p.as_path()).collect();
    assert_eq!(texts, vec!["/a/z", "/b"]);
    assert!(set.contains_parent_of("/a").unwrap());
    assert!(!set.contains_parent_of("/c").unwrap());
}

#[test]
fn root_text_passes_every_ancestor_test() {
    for p in ["/", "/a", "/a/b"] {
        let r = HashedAbsolutePathRef::new(p).unwrap();
        assert!(r.starts_with("/").unwrap());
    }
    let top = HashedAbsolutePathRef::new("/a").unwrap();
    assert!(top.parent_is("/").unwrap());
    let owned = HashedAbsolutePath::from("/a/b");
    assert_eq!(owned.to_absolute_path_ref().comp_hashes(), owned.comp_hashes());
}
