use vstd::prelude::*;
use vstd::string::StrSliceExecFns;
use vstd::string::StringExecFns;

use crate::clones::db::{
    human_size, human_size_text, in_some_group, keep, outside_pred, ClonesDB, CloneGroups,
    CloneRefGroup, PathModel, PathRefQueue,
};
use crate::fs::tree::{
    ids_where, children_of_kind, traversal, tree_has_kind, FSTree, FilesIterKind, NodeKind, NodeView,
    TraversalOrder, TraversePathError, PathNotFound, PathIsNotADirectory,
};
use crate::path::{
    hash_ancestor, hash_member, hash_parent, is_ancestor, parse_path, path_hash, paths_view,
    ref_paths_view, HashedAbsolutePath, HashedAbsolutePathRef,
};

verus! {

/// The files that the test of directory `d` looks at: its direct files, or all files below
/// it when `recursive`.
pub open spec fn dir_files(t: Seq<NodeView>, d: int, recursive: bool) -> Seq<usize> {
    if recursive {
        traversal(t, d, TraversalOrder::Pre, true, Some(NodeKind::File))
    } else {
        children_of_kind(t, t[d].children, Some(NodeKind::File))
    }
}

/// The members of the group of file `f` that lie outside directory `d`, if `f` is in a group.
pub open spec fn outside_copies(db: CloneGroups, t: Seq<NodeView>, f: int, d: int) -> Option<
    (u64, Seq<PathModel>),
> {
    match db.index_of_hash(path_hash(t[f].path)) {
        Some(i) => Some((db@[i as int].0, keep(db@[i as int].1, outside_pred(t[d].path, true)))),
        None => None,
    }
}

/// File `f` has a duplicate outside directory `d`.
pub open spec fn has_outside_copy(db: CloneGroups, t: Seq<NodeView>, f: int, d: int) -> bool {
    match outside_copies(db, t, f, d) {
        Some(g) => g.1.len() > 0,
        None => false,
    }
}

/// Directory `d` is a clone directory: it has files to look at, and each of them has a
/// duplicate outside it.
pub open spec fn qualifies(db: CloneGroups, t: Seq<NodeView>, d: int, recursive: bool) -> bool {
    let fs = dir_files(t, d, recursive);
    fs.len() > 0 && forall|k: int| 0 <= k < fs.len() ==> has_outside_copy(db, t, #[trigger] fs[k] as int, d)
}

/// Directory `x` lies in `dir`'s subtree and is a clone directory.
pub open spec fn q_at(db: CloneGroups, t: Seq<NodeView>, dir: int, x: int, recursive: bool) -> bool {
    is_ancestor(t[dir].path, t[x].path) && t[x].kind == NodeKind::Directory && qualifies(
        db,
        t,
        x,
        recursive,
    )
}

/// Some directory on the way from `dir` down to `x` (`x` excluded) is a clone directory.
pub open spec fn shadowed(db: CloneGroups, t: Seq<NodeView>, dir: int, x: int, recursive: bool) -> bool
    decreases x,
{
    if x <= dir || x >= t.len() || x < 0 {
        false
    } else {
        match t[x].parent {
            Some(p) => if (p as int) < x {
                q_at(db, t, dir, p as int, recursive) || shadowed(db, t, dir, p as int, recursive)
            } else {
                false
            },
            None => false,
        }
    }
}

/// The clone directories that a search from `dir` reports: `dir` itself when not
/// `recursive`; else each clone directory of the subtree with no clone directory above it on
/// the way from `dir`.
pub open spec fn reported(db: CloneGroups, t: Seq<NodeView>, dir: int, recursive: bool) -> spec_fn(
    int,
) -> bool {
    |x: int|
        0 <= x < t.len() && if recursive {
            q_at(db, t, dir, x, recursive) && !shadowed(db, t, dir, x, recursive)
        } else {
            x == dir && qualifies(db, t, x, recursive)
        }
}

/// The end of the chain of single child directories that starts at `i`.
pub open spec fn deep_end(t: Seq<NodeView>, i: int) -> int
    decreases t.len() - i,
{
    if 0 <= i < t.len() && t[i].children.len() == 1 && i < t[i].children[0] < t.len()
        && t[t[i].children[0] as int].children.len() > 0 {
        deep_end(t, t[i].children[0] as int)
    } else {
        i
    }
}

/// The view of a file's duplicates outside a directory.
pub open spec fn clone_pairs_view(v: Seq<(HashedAbsolutePathRef, CloneRefGroup)>) -> Seq<
    (PathModel, (u64, Seq<PathModel>)),
> {
    v.map_values(|e: (HashedAbsolutePathRef, CloneRefGroup)| (e.0@, e.1@))
}

/// A clone directory: its node, its path, the end of its chain of single child directories
/// (where that is below it), and for each file looked at, its duplicates outside it.
#[derive(Debug)]
pub struct CloneDir {
    node_id: usize,
    path: HashedAbsolutePath,
    deep_path: Option<HashedAbsolutePath>,
    clones: Vec<(HashedAbsolutePathRef, CloneRefGroup)>,
}

impl CloneDir {
    pub closed spec fn spec_id(&self) -> usize {
        self.node_id
    }

    pub closed spec fn spec_path(&self) -> PathModel {
        self.path@
    }

    pub closed spec fn spec_deep_path(&self) -> Option<PathModel> {
        match self.deep_path {
            Some(p) => Some(p@),
            None => None,
        }
    }

    pub closed spec fn spec_clones(&self) -> Seq<(PathModel, (u64, Seq<PathModel>))> {
        clone_pairs_view(self.clones@)
    }
}

/// What a clone directory found at node `x` holds.
pub open spec fn clone_dir_of(
    db: CloneGroups,
    t: Seq<NodeView>,
    x: int,
    recursive: bool,
    c: CloneDir,
) -> bool {
    let fs = dir_files(t, x, recursive);
    &&& c.spec_id() == x
    &&& c.spec_path() == t[x].path
    &&& c.spec_deep_path() == if deep_end(t, x) != x {
        Some(t[deep_end(t, x)].path)
    } else {
        None::<PathModel>
    }
    &&& c.spec_clones().len() == fs.len()
    &&& forall|k: int|
        0 <= k < fs.len() ==> (#[trigger] c.spec_clones()[k]).0 == t[fs[k] as int].path && Some(
            c.spec_clones()[k].1,
        ) == outside_copies(db, t, fs[k] as int, x)
}

impl FSTree {
    /// For each file that the test of directory `d` looks at, its path and its duplicates
    /// outside `d`; None where one of them has none.
    fn dir_clone_map(&self, db: &CloneGroups, d: usize, recursive: bool) -> (r: Option<
        Vec<(HashedAbsolutePathRef, CloneRefGroup)>,
    >)
        requires
            self.wf(),
            d < self@.len(),
        ensures
            r is Some <==> (forall|k: int|
                0 <= k < dir_files(self@, d as int, recursive).len() ==> has_outside_copy(
                    *db,
                    self@,
                    #[trigger] dir_files(self@, d as int, recursive)[k] as int,
                    d as int,
                )),
            r is Some ==> clone_pairs_view(r->Some_0@).len() == dir_files(
                self@,
                d as int,
                recursive,
            ).len() && forall|k: int|
                0 <= k < dir_files(self@, d as int, recursive).len() ==> (#[trigger] clone_pairs_view(
                    r->Some_0@,
                )[k]).0 == self@[dir_files(self@, d as int, recursive)[k] as int].path && Some(
                    clone_pairs_view(r->Some_0@)[k].1,
                ) == outside_copies(
                    *db,
                    self@,
                    dir_files(self@, d as int, recursive)[k] as int,
                    d as int,
                ),
    {
        let ghost fs = dir_files(self@, d as int, recursive);
        let kind = if recursive {
            FilesIterKind::RecursivePreOrder
        } else {
            FilesIterKind::Children
        };
        let files = self.file_ids(d, kind);
        let count = self.node_count();
        assert(files@ == fs);
        let dir_path = self.path_of(d);
        let mut out: Vec<(HashedAbsolutePathRef, CloneRefGroup)> = Vec::new();
        let mut k: usize = 0;
        while k < files.len()
            invariant
                self.wf(),
                d < self@.len(),
                files@ == fs,
                fs == dir_files(self@, d as int, recursive),
                dir_path@ == self@[d as int].path,
                count == self@.len(),
                k <= files.len(),
                forall|j: int| 0 <= j < k ==> has_outside_copy(*db, self@, #[trigger] fs[j] as int, d as int),
                clone_pairs_view(out@).len() == k,
                forall|j: int|
                    0 <= j < k ==> (#[trigger] clone_pairs_view(out@)[j]).0 == self@[fs[j] as int].path
                        && Some(clone_pairs_view(out@)[j].1) == outside_copies(
                        *db,
                        self@,
                        fs[j] as int,
                        d as int,
                    ),
            decreases files.len() - k,
        {
            let f = files[k];
            proof {
                dir_files_are_nodes(self@, d as int, recursive, k as int);
            }
            let fpath = self.path_of(f);
            match db.clone_group_hap(fpath) {
                None => {
                    return None;
                },
                Some(group) => {
                    let outside = group.filter_out_dir_hap(dir_path);
                    if outside.is_empty() {
                        return None;
                    }
                    let ghost before = out@;
                    out.push((fpath.to_absolute_path_ref(), outside));
                    proof {
                        assert(clone_pairs_view(out@) =~= clone_pairs_view(before).push(
                            (fpath@, outside@),
                        ));
                    }
                },
            }
            k = k + 1;
        }
        Some(out)
    }
}

/// The files that a test looks at are nodes of the tree.
proof fn dir_files_are_nodes(t: Seq<NodeView>, d: int, recursive: bool, k: int)
    requires
        0 <= d < t.len(),
        0 <= k < dir_files(t, d, recursive).len(),
        crate::fs::tree::tree_wf(t),
        t.len() <= usize::MAX,
    ensures
        (dir_files(t, d, recursive)[k] as int) < t.len(),
{
    let fs = dir_files(t, d, recursive);
    if recursive {
        crate::fs::tree::lemma_ids_where_below(t.len() as int, crate::fs::tree::in_subtree(t, d, true, Some(NodeKind::File)), k);
    } else {
        crate::fs::tree::lemma_children_of_kind_in(t, t[d].children, Some(NodeKind::File), k);
        let c = fs[k];
        let j = choose|j: int| 0 <= j < t[d].children.len() && t[d].children[j] == c;
        assert(t[d].children[j] == c);
    }
}

pub open spec fn clone_dirs_view_ok(
    db: CloneGroups,
    t: Seq<NodeView>,
    dir: int,
    recursive: bool,
    v: Seq<CloneDir>,
) -> bool {
    let ids = crate::fs::tree::ids_where(t.len() as int, reported(db, t, dir, recursive));
    &&& v.len() == ids.len()
    &&& forall|k: int| 0 <= k < v.len() ==> clone_dir_of(db, t, ids[k] as int, recursive, #[trigger] v[k])
}

impl FSTree {
    /// The only child of `i`, where it has exactly one and that child has children.
    fn single_inner_child(&self, i: usize) -> (r: Option<usize>)
        requires
            self.wf(),
            i < self@.len(),
        ensures
            r is Some <==> (self@[i as int].children.len() == 1 && i < self@[i as int].children[0]
                < self@.len() && self@[self@[i as int].children[0] as int].children.len() > 0),
            r is Some ==> r->Some_0 == self@[i as int].children[0],
    {
        let cs = self.children_ids(i);
        if cs.len() != 1 {
            return None;
        }
        let c = cs[0];
        if i < c && c < self.node_count() && self.children_ids(c).len() > 0 {
            Some(c)
        } else {
            None
        }
    }

    /// The end of the chain of single child directories that starts at `i`.
    fn deep_end_of(&self, i: usize) -> (r: usize)
        requires
            self.wf(),
            i < self@.len(),
        ensures
            r as int == deep_end(self@, i as int),
            (r as int) < self@.len(),
    {
        let mut cur = i;
        let mut next = self.single_inner_child(cur);
        while next.is_some()
            invariant
                self.wf(),
                (cur as int) < self@.len(),
                deep_end(self@, cur as int) == deep_end(self@, i as int),
                next is Some <==> (self@[cur as int].children.len() == 1 && cur < self@[cur as int].children[0]
                    < self@.len() && self@[self@[cur as int].children[0] as int].children.len() > 0),
                next is Some ==> next->Some_0 == self@[cur as int].children[0],
            decreases self@.len() - cur,
        {
            cur = next.unwrap();
            next = self.single_inner_child(cur);
        }
        cur
    }

    /// The clone directories found from node `dir` (see `reported`), in id order.
    fn clone_dirs_at(&self, dir: usize, db: &CloneGroups, recursive: bool) -> (r: Vec<CloneDir>)
        requires
            self.wf(),
            dir < self@.len(),
        ensures
            clone_dirs_view_ok(*db, self@, dir as int, recursive, r@),
    {
        let ghost want = reported(*db, self@, dir as int, recursive);
        let n = self.node_count();
        let dir_path = self.path_of(dir);
        let mut qual: Vec<bool> = Vec::new();
        let mut shad: Vec<bool> = Vec::new();
        let mut out: Vec<CloneDir> = Vec::new();
        let mut x: usize = 0;
        while x < n
            invariant
                self.wf(),
                dir < self@.len(),
                n == self@.len(),
                dir_path@ == self@[dir as int].path,
                want == reported(*db, self@, dir as int, recursive),
                x <= n,
                qual@.len() == x,
                shad@.len() == x,
                recursive ==> forall|y: int| 0 <= y < x ==> #[trigger] shad@[y] == shadowed(*db, self@, dir as int, y, recursive),
                recursive ==> forall|y: int| 0 <= y < x && !shad@[y] ==> #[trigger] qual@[y] == q_at(*db, self@, dir as int, y, recursive),
                out@.len() == crate::fs::tree::ids_where(x as int, want).len(),
                forall|k: int| 0 <= k < out@.len() ==> clone_dir_of(*db, self@, crate::fs::tree::ids_where(x as int, want)[k] as int, recursive, #[trigger] out@[k]),
            decreases n - x,
        {
            let node_path = self.path_of(x);
            let under = node_path.has_ancestor_exact(dir_path);
            let is_dir = self.kind_of(x) == NodeKind::Directory;
            let sh = if x <= dir {
                false
            } else {
                match self.parent_of(x) {
                    Some(p) => {
                        if p < x {
                            shad[p] || qual[p]
                        } else {
                            false
                        }
                    },
                    None => false,
                }
            };
            let consider = if recursive {
                !sh && under && is_dir
            } else {
                x == dir
            };
            let mut q = false;
            if consider {
                match self.dir_clone_map(db, x, recursive) {
                    Some(map) => {
                        if map.len() > 0 {
                            q = true;
                            let end = self.deep_end_of(x);
                            let deep_path = if end != x {
                                Some(self.path_of(end).duplicate())
                            } else {
                                None
                            };
                            let c = CloneDir {
                                node_id: x,
                                path: node_path.duplicate(),
                                deep_path,
                                clones: map,
                            };
                            let ghost before = out@;
                            out.push(c);
                        }
                    },
                    None => {},
                }
            }
            proof {
                assert(crate::fs::tree::ids_where(x + 1, want) == if want(x as int) {
                    crate::fs::tree::ids_where(x as int, want).push(x)
                } else {
                    crate::fs::tree::ids_where(x as int, want)
                });
            }
            qual.push(q);
            shad.push(sh);
            x = x + 1;
        }
        out
    }
}

/// A directory with files, each of which has a duplicate outside it, is a clone directory;
/// one file without such a duplicate keeps it from being one.
pub proof fn lemma_clone_dir_needs_every_file(db: CloneGroups, t: Seq<NodeView>, d: int, recursive: bool)
    ensures
        dir_files(t, d, recursive).len() > 0 && (forall|k: int|
            0 <= k < dir_files(t, d, recursive).len() ==> has_outside_copy(
                db,
                t,
                #[trigger] dir_files(t, d, recursive)[k] as int,
                d,
            )) ==> qualifies(db, t, d, recursive),
        forall|k: int|
            0 <= k < dir_files(t, d, recursive).len() && !has_outside_copy(
                db,
                t,
                #[trigger] dir_files(t, d, recursive)[k] as int,
                d,
            ) ==> !qualifies(db, t, d, recursive),
{
}

/// The ids of the tree's files that are in no duplicate group, in the order they were added.
pub open spec fn unique_file_ids(db: CloneGroups, t: Seq<NodeView>) -> Seq<usize> {
    crate::fs::tree::ids_where(
        t.len() as int,
        |i: int|
            crate::fs::tree::in_subtree(t, 0, true, Some(NodeKind::File))(i) && !in_some_group(
                db@,
                path_hash(t[i].path),
            ),
    )
}

/// A node is listed as a unique file exactly when it is a file of the tree and no member of
/// any duplicate group has its hash.
pub proof fn lemma_unique_files_exact(db: CloneGroups, t: Seq<NodeView>, x: usize)
    requires
        crate::fs::tree::tree_wf(t),
        t.len() <= usize::MAX,
    ensures
        unique_file_ids(db, t).contains(x) <==> (x < t.len() && t[x as int].kind == NodeKind::File
            && !in_some_group(db@, path_hash(t[x as int].path))),
{
    let want = |i: int|
        crate::fs::tree::in_subtree(t, 0, true, Some(NodeKind::File))(i) && !in_some_group(
            db@,
            path_hash(t[i].path),
        );
    crate::fs::tree::lemma_ids_where_contains(t.len() as int, want, x);
    if x < t.len() {
        assert(t[0].path.len() == 0);
        assert(t[x as int].path.take(0) =~= t[0].path);
    }
}

impl FSTree {
    /// The clone directories found from the directory that `dir` names: that directory when
    /// not `recursive`; else every clone directory below it, itself included, that has no
    /// clone directory above it on the way down. Fails where `dir` is not a directory of the
    /// tree.
    pub fn clone_dirs(&self, dir: &str, clones_db: &ClonesDB, recursive: bool) -> (r: Result<
        Vec<CloneDir>,
        TraversePathError,
    >)
        requires
            self.wf(),
        ensures
            r is Ok <==> tree_has_kind(self@, parse_path(dir@), NodeKind::Directory),
            r is Ok ==> exists|d: int|
                0 <= d < self@.len() && (#[trigger] self@[d]).path == parse_path(dir@)
                    && clone_dirs_view_ok(clones_db.spec_index(), self@, d, recursive, r->Ok_0@),
    {
        let p = HashedAbsolutePath::from_text(dir);
        match self.path_node_id(&p) {
            None => Err(TraversePathError::PathNotFound(PathNotFound { path: p.as_path().to_owned() })),
            Some(id) => {
                if self.kind_of(id) == NodeKind::File {
                    proof {
                        if tree_has_kind(self@, p@, NodeKind::Directory) {
                            let j = choose|j: int| 0 <= j < self@.len() && (#[trigger] self@[j]).path == p@ && self@[j].kind == NodeKind::Directory;
                            assert(j == id as int);
                        }
                    }
                    return Err(
                        TraversePathError::PathIsNotADirectory(
                            PathIsNotADirectory { path: p.as_path().to_owned() },
                        ),
                    );
                }
                let r = self.clone_dirs_at(id, clones_db.clone_groups(), recursive);
                Ok(r)
            },
        }
    }

    /// The ids of the tree's files that are in no duplicate group.
    pub fn unique_file_ids(&self, clones_db: &ClonesDB) -> (r: Vec<usize>)
        requires
            self.wf(),
        ensures
            r@ == unique_file_ids(clones_db.spec_index(), self@),
    {
        let db = clones_db.clone_groups();
        let n = self.node_count();
        let root = self.path_of(0);
        let ghost want = |i: int|
            crate::fs::tree::in_subtree(self@, 0, true, Some(NodeKind::File))(i) && !in_some_group(
                db@,
                path_hash(self@[i].path),
            );
        let mut out: Vec<usize> = Vec::new();
        let mut i: usize = 0;
        while i < n
            invariant
                self.wf(),
                n == self@.len(),
                root@ == self@[0].path,
                want == (|i: int|
                    crate::fs::tree::in_subtree(self@, 0, true, Some(NodeKind::File))(i) && !in_some_group(
                        db@,
                        path_hash(self@[i].path),
                    )),
                i <= n,
                out@ == crate::fs::tree::ids_where(i as int, want),
            decreases n - i,
        {
            let path = self.path_of(i);
            if self.kind_of(i) == NodeKind::File && path.has_ancestor_exact(root)
                && db.group_index_of(path).is_none() {
                out.push(i);
            }
            i = i + 1;
        }
        out
    }

    /// The texts of the paths of the given nodes.
    pub fn path_texts(&self, ids: &Vec<usize>) -> (r: Vec<String>)
        requires
            forall|k: int| 0 <= k < ids@.len() ==> (#[trigger] ids@[k] as int) < self@.len(),
        ensures
            r@.len() == ids@.len(),
            forall|k: int| 0 <= k < ids@.len() ==> (#[trigger] r@[k])@ == crate::path::path_text(
                self@[ids@[k] as int].path,
            ),
    {
        let mut out: Vec<String> = Vec::new();
        let mut k: usize = 0;
        while k < ids.len()
            invariant
                forall|j: int| 0 <= j < ids@.len() ==> (#[trigger] ids@[j] as int) < self@.len(),
                k <= ids.len(),
                out@.len() == k,
                forall|j: int| 0 <= j < k ==> (#[trigger] out@[j])@ == crate::path::path_text(
                    self@[ids@[j] as int].path,
                ),
            decreases ids.len() - k,
        {
            let t = self.path_of(ids[k]).as_path().to_owned();
            out.push(t);
            k = k + 1;
        }
        out
    }
}

/// The file sizes of a clone directory's entries, added up.
pub open spec fn clone_sizes(cs: Seq<(PathModel, (u64, Seq<PathModel>))>) -> nat
    decreases cs.len(),
{
    if cs.len() == 0 {
        0
    } else {
        clone_sizes(cs.drop_last()) + (cs.last().1.0 as nat)
    }
}

/// The files of a clone directory's entries, in order.
pub open spec fn clone_files_of(cs: Seq<(PathModel, (u64, Seq<PathModel>))>) -> Seq<PathModel> {
    cs.map_values(|e: (PathModel, (u64, Seq<PathModel>))| e.0)
}

/// The text of the components of `deep` that follow the first `base_len`, joined by
/// separators.
pub open spec fn rel_text(deep: PathModel, base_len: int) -> Seq<char> {
    if deep.len() > base_len {
        crate::path::joined(deep.skip(base_len)).drop_first()
    } else {
        Seq::empty()
    }
}

fn duplicate_pairs(v: &Vec<(HashedAbsolutePathRef, CloneRefGroup)>) -> (r: Vec<(HashedAbsolutePathRef, CloneRefGroup)>)
    ensures
        clone_pairs_view(r@) == clone_pairs_view(v@),
{
    let mut out: Vec<(HashedAbsolutePathRef, CloneRefGroup)> = Vec::new();
    let mut i: usize = 0;
    while i < v.len()
        invariant
            i <= v.len(),
            clone_pairs_view(out@) == clone_pairs_view(v@).take(i as int),
        decreases v.len() - i,
    {
        let e = (v[i].0.duplicate(), v[i].1.duplicate());
        let ghost before = out@;
        out.push(e);
        assert(clone_pairs_view(out@) =~= clone_pairs_view(before).push((e.0@, e.1@)));
        assert(clone_pairs_view(v@).take(i + 1) =~= clone_pairs_view(v@).take(i as int).push(
            clone_pairs_view(v@)[i as int],
        ));
        i = i + 1;
    }
    assert(clone_pairs_view(v@).take(v.len() as int) =~= clone_pairs_view(v@));
    out
}

impl CloneDir {
    pub fn duplicate(&self) -> (r: CloneDir)
        ensures
            r.spec_id() == self.spec_id(),
            r.spec_path() == self.spec_path(),
            r.spec_deep_path() == self.spec_deep_path(),
            r.spec_clones() == self.spec_clones(),
    {
        let deep_path = match &self.deep_path {
            Some(p) => Some(p.duplicate()),
            None => None,
        };
        CloneDir {
            node_id: self.node_id,
            path: self.path.duplicate(),
            deep_path,
            clones: duplicate_pairs(&self.clones),
        }
    }

    pub fn node_id(&self) -> (r: usize)
        ensures
            r == self.spec_id(),
    {
        self.node_id
    }

    pub fn path(&self) -> (r: &HashedAbsolutePath)
        ensures
            r@ == self.spec_path(),
    {
        &self.path
    }

    pub fn deep_path(&self) -> (r: Option<&HashedAbsolutePath>)
        ensures
            r is Some <==> self.spec_deep_path() is Some,
            r is Some ==> r->Some_0@ == self.spec_deep_path()->Some_0,
    {
        match &self.deep_path {
            Some(p) => Some(p),
            None => None,
        }
    }

    /// Each file looked at, with its duplicates outside this directory.
    pub fn clones(&self) -> (r: &Vec<(HashedAbsolutePathRef, CloneRefGroup)>)
        ensures
            clone_pairs_view(r@) == self.spec_clones(),
    {
        &self.clones
    }

    /// The files looked at, handed out one at a time in order.
    pub fn files_iter(&self) -> (r: CloneDirFilesIter)
        ensures
            r@ == clone_files_of(self.spec_clones()),
    {
        CloneDirFilesIter { queue: PathRefQueue::new(self.files()) }
    }

    /// The files looked at, in order.
    pub fn files(&self) -> (r: Vec<HashedAbsolutePathRef>)
        ensures
            ref_paths_view(r@) == clone_files_of(self.spec_clones()),
    {
        let mut out: Vec<HashedAbsolutePathRef> = Vec::new();
        let mut i: usize = 0;
        while i < self.clones.len()
            invariant
                i <= self.clones.len(),
                ref_paths_view(out@) == clone_files_of(self.spec_clones()).take(i as int),
            decreases self.clones.len() - i,
        {
            let f = self.clones[i].0.duplicate();
            let ghost before = out@;
            out.push(f);
            assert(ref_paths_view(out@) =~= ref_paths_view(before).push(f@));
            assert(clone_files_of(self.spec_clones()).take(i + 1) =~= clone_files_of(self.spec_clones()).take(i as int).push(
                self.spec_clones()[i as int].0,
            ));
            i = i + 1;
        }
        assert(clone_files_of(self.spec_clones()).take(self.clones.len() as int) =~= clone_files_of(self.spec_clones()));
        out
    }

    pub fn file_count(&self) -> (r: usize)
        ensures
            r == self.spec_clones().len(),
    {
        self.clones.len()
    }

    /// The bytes of the files looked at.
    pub fn size_bytes(&self) -> (r: u64)
        requires
            clone_sizes(self.spec_clones()) <= u64::MAX,
        ensures
            r == clone_sizes(self.spec_clones()),
    {
        let ghost cs = self.spec_clones();
        let mut total: u64 = 0;
        let mut i: usize = 0;
        while i < self.clones.len()
            invariant
                cs == self.spec_clones(),
                clone_sizes(cs) <= u64::MAX,
                i <= self.clones.len(),
                total == clone_sizes(cs.take(i as int)),
            decreases self.clones.len() - i,
        {
            proof {
                assert(cs.take(i + 1).drop_last() =~= cs.take(i as int));
                lemma_clone_sizes_prefix(cs, i + 1);
            }
            total = total + self.clones[i].1.file_size();
            i = i + 1;
        }
        assert(cs.take(self.clones.len() as int) =~= cs);
        total
    }

    /// The text of the part of the deep path below this directory ("b/c" for a deep path
    /// "/a/b/c" of the directory "/a").
    pub fn deep_path_rel(&self) -> (r: Option<String>)
        ensures
            r is Some <==> self.spec_deep_path() is Some,
            r is Some ==> r->Some_0@ == rel_text(self.spec_deep_path()->Some_0, self.spec_path().len() as int),
    {
        match &self.deep_path {
            None => None,
            Some(deep) => {
                let comps = deep.components();
                let base = self.path.components().len();
                let ghost c = deep@;
                if comps.len() <= base {
                    return Some(String::new());
                }
                let mut text = String::new();
                let mut j: usize = base;
                proof {
                    reveal_strlit("/");
                    assert(c.skip(base as int).take(0) =~= Seq::<Seq<char>>::empty());
                }
                while j < comps.len()
                    invariant
                        comps_view_eq(comps@, c),
                        base <= j <= comps.len(),
                        text@ == crate::path::joined(c.skip(base as int).take(j - base)),
                        "/"@ == seq!['/'],
                    decreases comps.len() - j,
                {
                    text.append("/");
                    text.append(comps[j].as_str());
                    proof {
                        let s = c.skip(base as int);
                        assert(s.take(j + 1 - base).drop_last() =~= s.take(j - base));
                        assert(s.take(j + 1 - base).last() == comps@[j as int]@);
                    }
                    j = j + 1;
                }
                assert(c.skip(base as int).take(comps.len() - base) =~= c.skip(base as int));
                let n = text.unicode_len();
                proof {
                    lemma_joined_len(c.skip(base as int));
                }
                let rel = text.as_str().substring_char(1, n).to_owned();
                assert(rel@ =~= text@.drop_first());
                Some(rel)
            },
        }
    }
}

pub open spec fn comps_view_eq(v: Seq<String>, c: PathModel) -> bool {
    crate::path::comps_view(v) == c
}

proof fn lemma_joined_len(c: PathModel)
    requires
        c.len() > 0,
    ensures
        crate::path::joined(c).len() >= 1,
        crate::path::joined(c)[0] == '/',
    decreases c.len(),
{
    let j = crate::path::joined(c.drop_last());
    if c.len() > 1 {
        lemma_joined_len(c.drop_last());
        assert((j + seq!['/'] + c.last())[0] == j[0]);
    } else {
        assert(j =~= Seq::<char>::empty());
        assert((j + seq!['/'] + c.last())[0] == '/');
    }
}

proof fn lemma_clone_sizes_prefix(cs: Seq<(PathModel, (u64, Seq<PathModel>))>, i: int)
    requires
        0 <= i <= cs.len(),
    ensures
        clone_sizes(cs.take(i)) <= clone_sizes(cs),
    decreases cs.len(),
{
    if i < cs.len() {
        assert(cs.drop_last().take(i) =~= cs.take(i));
        lemma_clone_sizes_prefix(cs.drop_last(), i);
    } else {
        assert(cs.take(i) =~= cs);
    }
}

pub type EntryModel = (PathModel, (u64, Seq<PathModel>));

/// The files of the entries that `pred` selects, in order.
pub open spec fn entries_where(cs: Seq<EntryModel>, pred: spec_fn(EntryModel) -> bool) -> Seq<PathModel>
    decreases cs.len(),
{
    if cs.len() == 0 {
        Seq::empty()
    } else if pred(cs.last()) {
        entries_where(cs.drop_last(), pred).push(cs.last().0)
    } else {
        entries_where(cs.drop_last(), pred)
    }
}

/// The duplicates outside the directory of all entries that `pred` selects, entry after entry.
pub open spec fn copies_where(cs: Seq<EntryModel>, pred: spec_fn(PathModel) -> bool) -> Seq<PathModel>
    decreases cs.len(),
{
    if cs.len() == 0 {
        Seq::empty()
    } else {
        copies_where(cs.drop_last(), pred) + keep(cs.last().1.1, pred)
    }
}

/// A directory outside a clone directory that holds duplicates of its files.
#[derive(Debug)]
pub struct RefDir {
    clone_dir: CloneDir,
    path: HashedAbsolutePath,
}

impl RefDir {
    pub closed spec fn spec_path(&self) -> PathModel {
        self.path@
    }

    pub closed spec fn spec_clone_dir(&self) -> CloneDir {
        self.clone_dir
    }

    pub fn new(clone_dir: CloneDir, path: HashedAbsolutePath) -> (r: RefDir)
        ensures
            r.spec_path() == path@,
            r.spec_clone_dir() == clone_dir,
    {
        RefDir { clone_dir, path }
    }

    pub fn path(&self) -> (r: &HashedAbsolutePath)
        ensures
            r@ == self.spec_path(),
    {
        &self.path
    }

    pub fn clone_dir(&self) -> (r: &CloneDir)
        ensures
            *r == self.spec_clone_dir(),
    {
        &self.clone_dir
    }

    /// The files of the clone directory that have a duplicate directly in this directory.
    pub fn clone_dir_clone_files(&self) -> (r: Vec<HashedAbsolutePathRef>)
        ensures
            ref_paths_view(r@) == entries_where(
                self.spec_clone_dir().spec_clones(),
                |e: EntryModel| exists|m: int| 0 <= m < e.1.1.len() && hash_parent(self.spec_path(), #[trigger] e.1.1[m]),
            ),
    {
        let ghost pred = |e: EntryModel| exists|m: int| 0 <= m < e.1.1.len() && hash_parent(self.spec_path(), #[trigger] e.1.1[m]);
        let ghost cs = self.clone_dir.spec_clones();
        let entries = self.clone_dir.clones();
        let mut out: Vec<HashedAbsolutePathRef> = Vec::new();
        let mut i: usize = 0;
        while i < entries.len()
            invariant
                pred == (|e: EntryModel| exists|m: int| 0 <= m < e.1.1.len() && hash_parent(self.spec_path(), #[trigger] e.1.1[m])),
                cs == self.clone_dir.spec_clones(),
                clone_pairs_view(entries@) == cs,
                i <= entries.len(),
                ref_paths_view(out@) == entries_where(cs.take(i as int), pred),
            decreases entries.len() - i,
        {
            let members = entries[i].1.files().paths();
            let ghost g = cs[i as int].1.1;
            assert(ref_paths_view(members@) == g);
            let mut found = false;
            let mut m: usize = 0;
            while m < members.len() && !found
                invariant
                    ref_paths_view(members@) == g,
                    m <= members.len(),
                    found ==> exists|m2: int| 0 <= m2 < g.len() && hash_parent(self.path@, #[trigger] g[m2]),
                    !found ==> forall|m2: int| 0 <= m2 < m ==> !hash_parent(self.path@, #[trigger] g[m2]),
                decreases members.len() - m,
            {
                if members[m].parent_is_hap(&self.path) {
                    assert(hash_parent(self.path@, g[m as int]));
                    found = true;
                }
                m = m + 1;
            }
            proof {
                assert(cs.take(i + 1).drop_last() =~= cs.take(i as int));
                assert(cs.take(i + 1).last() == cs[i as int]);
                assert(found == pred(cs[i as int]));
            }
            if found {
                let f = entries[i].0.duplicate();
                let ghost before = out@;
                out.push(f);
                assert(ref_paths_view(out@) =~= ref_paths_view(before).push(f@));
            }
            i = i + 1;
        }
        assert(cs.take(entries.len() as int) =~= cs);
        out
    }

    /// The duplicates, of any file of the clone directory, that lie directly in this
    /// directory.
    pub fn clone_files(&self) -> (r: Vec<HashedAbsolutePathRef>)
        ensures
            ref_paths_view(r@) == copies_where(
                self.spec_clone_dir().spec_clones(),
                |c: PathModel| hash_parent(self.spec_path(), c),
            ),
    {
        let ghost pred = |c: PathModel| hash_parent(self.spec_path(), c);
        let ghost cs = self.clone_dir.spec_clones();
        let entries = self.clone_dir.clones();
        let mut out: Vec<HashedAbsolutePathRef> = Vec::new();
        let mut i: usize = 0;
        while i < entries.len()
            invariant
                pred == (|c: PathModel| hash_parent(self.spec_path(), c)),
                cs == self.clone_dir.spec_clones(),
                clone_pairs_view(entries@) == cs,
                i <= entries.len(),
                ref_paths_view(out@) == copies_where(cs.take(i as int), pred),
            decreases entries.len() - i,
        {
            let members = entries[i].1.files().paths();
            let ghost g = cs[i as int].1.1;
            let ghost start = ref_paths_view(out@);
            let mut m: usize = 0;
            while m < members.len()
                invariant
                    pred == (|c: PathModel| hash_parent(self.spec_path(), c)),
                    ref_paths_view(members@) == g,
                    m <= members.len(),
                    ref_paths_view(out@) == start + keep(g.take(m as int), pred),
                decreases members.len() - m,
            {
                proof {
                    assert(g.take(m + 1).drop_last() =~= g.take(m as int));
                    assert(g.take(m + 1).last() == g[m as int]);
                }
                if members[m].parent_is_hap(&self.path) {
                    let c = members[m].duplicate();
                    let ghost before = out@;
                    out.push(c);
                    assert(ref_paths_view(out@) =~= ref_paths_view(before).push(c@));
                }
                m = m + 1;
            }
            proof {
                assert(g.take(members.len() as int) =~= g);
                assert(cs.take(i + 1).drop_last() =~= cs.take(i as int));
                assert(cs.take(i + 1).last() == cs[i as int]);
            }
            i = i + 1;
        }
        assert(cs.take(entries.len() as int) =~= cs);
        out
    }

    /// The files of the clone directory with no duplicate anywhere below this directory.
    pub fn missing(&self, clones_db: &ClonesDB) -> (r: Vec<HashedAbsolutePathRef>)
        ensures
            ref_paths_view(r@) == entries_where(
                self.spec_clone_dir().spec_clones(),
                |e: EntryModel| match clones_db.spec_index().index_of_hash(path_hash(e.0)) {
                    Some(i) => !exists|m: int| 0 <= m < clones_db.spec_index()@[i as int].1.len()
                        && hash_ancestor(self.spec_path(), #[trigger] clones_db.spec_index()@[i as int].1[m]),
                    None => true,
                },
            ),
    {
        let db = clones_db.clone_groups();
        let ghost pred = |e: EntryModel| match clones_db.spec_index().index_of_hash(path_hash(e.0)) {
            Some(i) => !exists|m: int| 0 <= m < clones_db.spec_index()@[i as int].1.len()
                && hash_ancestor(self.spec_path(), #[trigger] clones_db.spec_index()@[i as int].1[m]),
            None => true,
        };
        let ghost cs = self.clone_dir.spec_clones();
        let entries = self.clone_dir.clones();
        let mut out: Vec<HashedAbsolutePathRef> = Vec::new();
        let mut i: usize = 0;
        while i < entries.len()
            invariant
                *db == clones_db.spec_index(),
                pred == (|e: EntryModel| match clones_db.spec_index().index_of_hash(path_hash(e.0)) {
                    Some(i) => !exists|m: int| 0 <= m < clones_db.spec_index()@[i as int].1.len()
                        && hash_ancestor(self.spec_path(), #[trigger] clones_db.spec_index()@[i as int].1[m]),
                    None => true,
                }),
                cs == self.clone_dir.spec_clones(),
                clone_pairs_view(entries@) == cs,
                i <= entries.len(),
                ref_paths_view(out@) == entries_where(cs.take(i as int), pred),
            decreases entries.len() - i,
        {
            let file = entries[i].0.as_hashed();
            let is_missing = match db.clone_group_hap(file) {
                None => true,
                Some(group) => {
                    let members = group.files().paths();
                    let ghost g = group@.1;
                    let mut found = false;
                    let mut m: usize = 0;
                    while m < members.len() && !found
                        invariant
                            ref_paths_view(members@) == g,
                            m <= members.len(),
                            found ==> exists|m2: int| 0 <= m2 < g.len() && hash_ancestor(self.path@, #[trigger] g[m2]),
                            !found ==> forall|m2: int| 0 <= m2 < m ==> !hash_ancestor(self.path@, #[trigger] g[m2]),
                        decreases members.len() - m,
                    {
                        if members[m].starts_with_hashed_path(&self.path) {
                            assert(hash_ancestor(self.path@, g[m as int]));
                            found = true;
                        }
                        m = m + 1;
                    }
                    !found
                },
            };
            proof {
                assert(cs.take(i + 1).drop_last() =~= cs.take(i as int));
                assert(cs.take(i + 1).last() == cs[i as int]);
                assert(is_missing == pred(cs[i as int]));
            }
            if is_missing {
                let f = entries[i].0.duplicate();
                let ghost before = out@;
                out.push(f);
                assert(ref_paths_view(out@) =~= ref_paths_view(before).push(f@));
            }
            i = i + 1;
        }
        assert(cs.take(entries.len() as int) =~= cs);
        out
    }

    /// Of the files found below this directory (`on_disk`), those that are not duplicates
    /// of the clone directory's files in it and do not lie in the clone directory itself.
    pub fn extra(&self, on_disk: &Vec<HashedAbsolutePath>) -> (r: Vec<HashedAbsolutePath>)
        ensures
            paths_view(r@) == keep(
                paths_view(on_disk@),
                |f: PathModel| !hash_member(
                    copies_where(self.spec_clone_dir().spec_clones(), |c: PathModel| hash_parent(self.spec_path(), c)),
                    f,
                ) && !hash_ancestor(self.spec_clone_dir().spec_path(), f),
            ),
    {
        let ghost known = copies_where(self.spec_clone_dir().spec_clones(), |c: PathModel| hash_parent(self.spec_path(), c));
        let ghost pred = |f: PathModel| !hash_member(known, f) && !hash_ancestor(self.spec_clone_dir().spec_path(), f);
        let copies = self.clone_files();
        let ghost s = paths_view(on_disk@);
        let mut out: Vec<HashedAbsolutePath> = Vec::new();
        let mut i: usize = 0;
        while i < on_disk.len()
            invariant
                ref_paths_view(copies@) == known,
                pred == (|f: PathModel| !hash_member(known, f) && !hash_ancestor(self.spec_clone_dir().spec_path(), f)),
                s == paths_view(on_disk@),
                i <= on_disk.len(),
                paths_view(out@) == keep(s.take(i as int), pred),
            decreases on_disk.len() - i,
        {
            let f = &on_disk[i];
            let h = f.hash();
            let mut seen = false;
            let mut m: usize = 0;
            while m < copies.len() && !seen
                invariant
                    ref_paths_view(copies@) == known,
                    h == path_hash(f@),
                    m <= copies.len(),
                    seen ==> hash_member(known, f@),
                    !seen ==> forall|m2: int| 0 <= m2 < m ==> path_hash(#[trigger] known[m2]) != h,
                decreases copies.len() - m,
            {
                if copies[m].hash() == h {
                    assert(path_hash(known[m as int]) == path_hash(f@));
                    seen = true;
                }
                m = m + 1;
            }
            let inside = f.starts_with_hap(self.clone_dir.path());
            proof {
                assert(s.take(i + 1).drop_last() =~= s.take(i as int));
                assert(s.take(i + 1).last() == f@);
                lemma_keep_step(s.take(i + 1), pred);
            }
            if !seen && !inside {
                let c = f.duplicate();
                let ghost before = out@;
                out.push(c);
                assert(paths_view(out@) =~= paths_view(before).push(c@));
            }
            i = i + 1;
        }
        assert(s.take(on_disk.len() as int) =~= s);
        out
    }
}

proof fn lemma_keep_step(s: Seq<PathModel>, pred: spec_fn(PathModel) -> bool)
    requires
        s.len() > 0,
    ensures
        keep(s, pred) == if pred(s.last()) {
            keep(s.drop_last(), pred).push(s.last())
        } else {
            keep(s.drop_last(), pred)
        },
{
}

/// The paths of clone directories.
pub open spec fn dir_paths(v: Seq<CloneDir>) -> Seq<PathModel> {
    v.map_values(|c: CloneDir| c.spec_path())
}

/// A path lies outside every one of the given directories (by hashes).
pub open spec fn outside_all(dirs: Seq<PathModel>) -> spec_fn(PathModel) -> bool {
    |c: PathModel| forall|j: int| 0 <= j < dirs.len() ==> !hash_ancestor(#[trigger] dirs[j], c)
}

/// Some path of `s` has a parent with the hash of `q`.
pub open spec fn has_parent_in(s: Seq<PathModel>, q: PathModel) -> bool {
    exists|k: int| 0 <= k < s.len() && (#[trigger] s[k]).len() > 0 && path_hash(s[k].drop_last()) == path_hash(q)
}

pub open spec fn any_path() -> spec_fn(PathModel) -> bool {
    |c: PathModel| true
}

/// The parent directories of the paths of `s` that `pred` selects, each hash once.
fn parent_dirs(copies: &Vec<HashedAbsolutePathRef>) -> (r: crate::path::HashedAbsolutePathSet)
    ensures
        forall|q: PathModel| hash_member(r@, q) <==> has_parent_in(ref_paths_view(copies@), q),
{
    let ghost s = ref_paths_view(copies@);
    let mut set = crate::path::HashedAbsolutePathSet::new();
    let mut i: usize = 0;
    while i < copies.len()
        invariant
            s == ref_paths_view(copies@),
            i <= copies.len(),
            forall|q: PathModel| hash_member(set@, q) <==> has_parent_in(s.take(i as int), q),
        decreases copies.len() - i,
    {
        let ghost before = set@;
        let parent = copies[i].as_hashed().parent();
        match parent {
            Some(p) => {
                let ghost pv = p@;
                set.insert(p);
                proof {
                    assert forall|q: PathModel| hash_member(set@, q) <==> has_parent_in(s.take(i + 1), q) by {
                        let t = s.take(i + 1);
                        if has_parent_in(s.take(i as int), q) {
                            let k = choose|k: int| 0 <= k < s.take(i as int).len() && (#[trigger] s.take(i as int)[k]).len() > 0 && path_hash(s.take(i as int)[k].drop_last()) == path_hash(q);
                            assert(t[k] == s.take(i as int)[k]);
                        }
                        if path_hash(q) == path_hash(pv) {
                            assert(t[i as int] == s[i as int]);
                        }
                        if has_parent_in(t, q) {
                            let k = choose|k: int| 0 <= k < t.len() && (#[trigger] t[k]).len() > 0 && path_hash(t[k].drop_last()) == path_hash(q);
                            if k < i {
                                assert(s.take(i as int)[k] == t[k]);
                            }
                        }
                    }
                }
            },
            None => {
                proof {
                    assert forall|q: PathModel| hash_member(set@, q) <==> has_parent_in(s.take(i + 1), q) by {
                        let t = s.take(i + 1);
                        if has_parent_in(s.take(i as int), q) {
                            let k = choose|k: int| 0 <= k < s.take(i as int).len() && (#[trigger] s.take(i as int)[k]).len() > 0 && path_hash(s.take(i as int)[k].drop_last()) == path_hash(q);
                            assert(t[k] == s.take(i as int)[k]);
                        }
                        if has_parent_in(t, q) {
                            let k = choose|k: int| 0 <= k < t.len() && (#[trigger] t[k]).len() > 0 && path_hash(t[k].drop_last()) == path_hash(q);
                            if k < i {
                                assert(s.take(i as int)[k] == t[k]);
                            } else {
                                assert(t[k] == s[i as int]);
                            }
                        }
                    }
                }
            },
        }
        i = i + 1;
    }
    assert(s.take(copies.len() as int) =~= s);
    set
}

impl CloneDir {
    /// The duplicates outside this directory that lie outside every directory of
    /// `sel_dirs` too (by hashes), entry after entry.
    fn copies_outside(&self, sel_dirs: &Vec<CloneDir>) -> (r: Vec<HashedAbsolutePathRef>)
        ensures
            ref_paths_view(r@) == copies_where(self.spec_clones(), outside_all(dir_paths(sel_dirs@))),
    {
        let ghost cs = self.spec_clones();
        let ghost pred = outside_all(dir_paths(sel_dirs@));
        let mut out: Vec<HashedAbsolutePathRef> = Vec::new();
        let mut i: usize = 0;
        while i < self.clones.len()
            invariant
                cs == self.spec_clones(),
                pred == outside_all(dir_paths(sel_dirs@)),
                i <= self.clones.len(),
                ref_paths_view(out@) == copies_where(cs.take(i as int), pred),
            decreases self.clones.len() - i,
        {
            let members = self.clones[i].1.files().paths();
            let ghost g = cs[i as int].1.1;
            let ghost start = ref_paths_view(out@);
            let mut m: usize = 0;
            while m < members.len()
                invariant
                    pred == outside_all(dir_paths(sel_dirs@)),
                    ref_paths_view(members@) == g,
                    m <= members.len(),
                    ref_paths_view(out@) == start + keep(g.take(m as int), pred),
                decreases members.len() - m,
            {
                proof {
                    assert(g.take(m + 1).drop_last() =~= g.take(m as int));
                    assert(g.take(m + 1).last() == g[m as int]);
                }
                let c = &members[m];
                let mut inside = false;
                let mut j: usize = 0;
                while j < sel_dirs.len() && !inside
                    invariant
                        j <= sel_dirs.len(),
                        inside ==> exists|j2: int| 0 <= j2 < sel_dirs@.len() && hash_ancestor((#[trigger] sel_dirs@[j2]).spec_path(), c@),
                        !inside ==> forall|j2: int| 0 <= j2 < j ==> !hash_ancestor((#[trigger] sel_dirs@[j2]).spec_path(), c@),
                    decreases sel_dirs.len() - j,
                {
                    if c.starts_with_hashed_path(sel_dirs[j].path()) {
                        inside = true;
                    }
                    j = j + 1;
                }
                proof {
                    if inside {
                        let j2 = choose|j2: int| 0 <= j2 < sel_dirs@.len() && hash_ancestor((#[trigger] sel_dirs@[j2]).spec_path(), c@);
                        assert(dir_paths(sel_dirs@)[j2] == sel_dirs@[j2].spec_path());
                    } else {
                        assert forall|j2: int| 0 <= j2 < dir_paths(sel_dirs@).len() implies !hash_ancestor(#[trigger] dir_paths(sel_dirs@)[j2], c@) by {
                            assert(dir_paths(sel_dirs@)[j2] == sel_dirs@[j2].spec_path());
                        }
                    }
                    assert(pred(c@) == !inside);
                }
                if !inside {
                    let d = c.duplicate();
                    let ghost before = out@;
                    out.push(d);
                    assert(ref_paths_view(out@) =~= ref_paths_view(before).push(d@));
                }
                m = m + 1;
            }
            proof {
                assert(g.take(members.len() as int) =~= g);
                assert(cs.take(i + 1).drop_last() =~= cs.take(i as int));
                assert(cs.take(i + 1).last() == cs[i as int]);
            }
            i = i + 1;
        }
        assert(cs.take(self.clones.len() as int) =~= cs);
        out
    }

    /// The directories that hold duplicates of this directory's files, each once, as
    /// reference directories of this one.
    pub fn ref_dirs_iter(&self) -> (r: RefDirsIter)
        ensures
            forall|q: PathModel| r.spec_holds(q) <==> has_parent_in(
                copies_where(self.spec_clones(), any_path()),
                q,
            ),
            forall|k: int| 0 <= k < r.spec_items().len() ==> (#[trigger] r.spec_items()[k]).spec_clone_dir().spec_path() == self.spec_path(),
            forall|k1: int, k2: int|
                0 <= k1 < r.spec_items().len() && 0 <= k2 < r.spec_items().len() && k1 != k2 ==> path_hash(
                    (#[trigger] r.spec_items()[k1]).spec_path(),
                ) != path_hash((#[trigger] r.spec_items()[k2]).spec_path()),
    {
        let copies = self.all_copies();
        let parents = parent_dirs(&copies);
        let paths = parents.paths();
        let mut items: Vec<RefDir> = Vec::new();
        let mut i: usize = 0;
        while i < paths.len()
            invariant
                i <= paths.len(),
                paths_view(paths@) == parents@,
                crate::path::distinct_hashes(parents@),
                items@.len() == i,
                forall|k: int| 0 <= k < i ==> (#[trigger] items@[k]).spec_path() == parents@[k],
                forall|k: int| 0 <= k < i ==> (#[trigger] items@[k]).spec_clone_dir().spec_path() == self.spec_path(),
            decreases paths.len() - i,
        {
            items.push(RefDir::new(self.duplicate(), paths[i].duplicate()));
            i = i + 1;
        }
        let r = RefDirsIter { items };
        proof {
            assert forall|q: PathModel| r.spec_holds(q) <==> hash_member(parents@, q) by {
                if r.spec_holds(q) {
                    let k = choose|k: int| 0 <= k < r.spec_items().len() && path_hash((#[trigger] r.spec_items()[k]).spec_path()) == path_hash(q);
                    assert(parents@[k] == r.spec_items()[k].spec_path());
                }
                if hash_member(parents@, q) {
                    let k = choose|k: int| 0 <= k < parents@.len() && path_hash(#[trigger] parents@[k]) == path_hash(q);
                    assert(r.spec_items()[k].spec_path() == parents@[k]);
                }
            }
        }
        r
    }

    /// All duplicates outside this directory, entry after entry.
    fn all_copies(&self) -> (r: Vec<HashedAbsolutePathRef>)
        ensures
            ref_paths_view(r@) == copies_where(self.spec_clones(), any_path()),
    {
        let ghost cs = self.spec_clones();
        let ghost pred = any_path();
        let mut out: Vec<HashedAbsolutePathRef> = Vec::new();
        let mut i: usize = 0;
        while i < self.clones.len()
            invariant
                cs == self.spec_clones(),
                pred == any_path(),
                i <= self.clones.len(),
                ref_paths_view(out@) == copies_where(cs.take(i as int), pred),
            decreases self.clones.len() - i,
        {
            let members = self.clones[i].1.files().paths();
            let ghost g = cs[i as int].1.1;
            let ghost start = ref_paths_view(out@);
            let mut m: usize = 0;
            while m < members.len()
                invariant
                    pred == any_path(),
                    ref_paths_view(members@) == g,
                    m <= members.len(),
                    ref_paths_view(out@) == start + keep(g.take(m as int), pred),
                decreases members.len() - m,
            {
                proof {
                    assert(g.take(m + 1).drop_last() =~= g.take(m as int));
                    assert(g.take(m + 1).last() == g[m as int]);
                }
                let c = members[m].duplicate();
                let ghost before = out@;
                out.push(c);
                assert(ref_paths_view(out@) =~= ref_paths_view(before).push(c@));
                m = m + 1;
            }
            proof {
                assert(g.take(members.len() as int) =~= g);
                assert(cs.take(i + 1).drop_last() =~= cs.take(i as int));
                assert(cs.take(i + 1).last() == cs[i as int]);
            }
            i = i + 1;
        }
        assert(cs.take(self.clones.len() as int) =~= cs);
        out
    }
}

/// Reference directories, handed out one at a time.
#[derive(Debug)]
pub struct RefDirsIter {
    items: Vec<RefDir>,
}

impl RefDirsIter {
    pub closed spec fn spec_items(&self) -> Seq<RefDir> {
        self.items@
    }

    /// Some reference directory left has the hash of `q`.
    pub open spec fn spec_holds(&self, q: PathModel) -> bool {
        exists|k: int| 0 <= k < self.spec_items().len() && path_hash((#[trigger] self.spec_items()[k]).spec_path()) == path_hash(q)
    }

    pub fn new(items: Vec<RefDir>) -> (r: RefDirsIter)
        ensures
            r.spec_items() == items@,
    {
        RefDirsIter { items }
    }

    /// Hands out one of the reference directories left.
    pub fn next(&mut self) -> (r: Option<RefDir>)
        ensures
            old(self).spec_items().len() == 0 ==> r is None,
            old(self).spec_items().len() > 0 ==> r is Some && r->Some_0 == old(self).spec_items().last()
                && final(self).spec_items() == old(self).spec_items().drop_last(),
    {
        self.items.pop()
    }

    pub fn len(&self) -> (r: usize)
        ensures
            r == self.spec_items().len(),
    {
        self.items.len()
    }
}

/// The sum of `w` over clone directories.
pub open spec fn sum_dirs(v: Seq<CloneDir>, w: spec_fn(CloneDir) -> nat) -> nat
    decreases v.len(),
{
    if v.len() == 0 {
        0
    } else {
        sum_dirs(v.drop_last(), w) + w(v.last())
    }
}

pub open spec fn count_weight() -> spec_fn(CloneDir) -> nat {
    |c: CloneDir| c.spec_clones().len()
}

pub open spec fn size_weight() -> spec_fn(CloneDir) -> nat {
    |c: CloneDir| clone_sizes(c.spec_clones())
}

proof fn lemma_sum_dirs_prefix(v: Seq<CloneDir>, w: spec_fn(CloneDir) -> nat, i: int)
    requires
        0 <= i <= v.len(),
    ensures
        sum_dirs(v.take(i), w) <= sum_dirs(v, w),
        i < v.len() ==> sum_dirs(v.take(i + 1), w) == sum_dirs(v.take(i), w) + w(v[i]),
    decreases v.len(),
{
    if i < v.len() {
        assert(v.take(i + 1).drop_last() =~= v.take(i));
        assert(v.drop_last().take(i) =~= v.take(i));
        lemma_sum_dirs_prefix(v.drop_last(), w, i);
    } else {
        assert(v.take(i) =~= v);
    }
}

/// Adds `w` over `v`, where the total fits.
fn sum_over(v: &Vec<CloneDir>, use_size: bool) -> (r: u64)
    requires
        sum_dirs(v@, if use_size { size_weight() } else { count_weight() }) <= u64::MAX,
    ensures
        r == sum_dirs(v@, if use_size { size_weight() } else { count_weight() }),
{
    let ghost w = if use_size { size_weight() } else { count_weight() };
    let mut total: u64 = 0;
    let mut i: usize = 0;
    while i < v.len()
        invariant
            w == if use_size { size_weight() } else { count_weight() },
            sum_dirs(v@, w) <= u64::MAX,
            i <= v.len(),
            total == sum_dirs(v@.take(i as int), w),
        decreases v.len() - i,
    {
        proof {
            lemma_sum_dirs_prefix(v@, w, i as int);
            lemma_sum_dirs_prefix(v@, w, i + 1);
        }
        let part = if use_size {
            assert(clone_sizes(v@[i as int].spec_clones()) <= u64::MAX);
            v[i].size_bytes()
        } else {
            v[i].file_count() as u64
        };
        total = total + part;
        i = i + 1;
    }
    assert(v@.take(v.len() as int) =~= v@);
    total
}

/// Clone directories, as a search lists them.
#[derive(Debug)]
pub struct CloneDirs(pub Vec<CloneDir>);

impl CloneDirs {
    pub fn file_count(&self) -> (r: u64)
        requires
            sum_dirs(self.0@, count_weight()) <= u64::MAX,
        ensures
            r == sum_dirs(self.0@, count_weight()),
    {
        sum_over(&self.0, false)
    }

    pub fn size_bytes(&self) -> (r: u64)
        requires
            sum_dirs(self.0@, size_weight()) <= u64::MAX,
        ensures
            r == sum_dirs(self.0@, size_weight()),
    {
        sum_over(&self.0, true)
    }

    pub fn size_human(&self) -> (r: String)
        requires
            sum_dirs(self.0@, size_weight()) <= u64::MAX,
        ensures
            r@ == human_size(sum_dirs(self.0@, size_weight()) as u64),
    {
        human_size_text(self.size_bytes())
    }
}

/// Clone directories judged duplicates of each other; the first is the one the others were
/// matched against.
#[derive(Debug)]
pub struct CloneDirGroup(pub Vec<CloneDir>);

/// What keeping one of `n` duplicate directories of `size` bytes each frees at least.
pub open spec fn group_min_reclaimable(v: Seq<CloneDir>) -> nat {
    if v.len() < 1 {
        0
    } else {
        ((v.len() - 1) * clone_sizes(v[0].spec_clones())) as nat
    }
}

impl CloneDirGroup {
    pub fn file_count(&self) -> (r: u64)
        requires
            sum_dirs(self.0@, count_weight()) <= u64::MAX,
        ensures
            r == sum_dirs(self.0@, count_weight()),
    {
        sum_over(&self.0, false)
    }

    pub fn size_bytes(&self) -> (r: u64)
        requires
            sum_dirs(self.0@, size_weight()) <= u64::MAX,
        ensures
            r == sum_dirs(self.0@, size_weight()),
    {
        sum_over(&self.0, true)
    }

    /// The bytes freed by keeping only the first directory, counting nothing outside the
    /// group.
    pub fn minimum_reclaimable_size(&self) -> (r: u64)
        requires
            group_min_reclaimable(self.0@) <= u64::MAX,
            self.0@.len() > 0 ==> clone_sizes(self.0@[0].spec_clones()) <= u64::MAX,
        ensures
            r == group_min_reclaimable(self.0@),
    {
        if self.0.len() < 1 {
            return 0;
        }
        let size = self.0[0].size_bytes();
        let n = (self.0.len() - 1) as u64;
        assert((self.0@.len() - 1) * clone_sizes(self.0@[0].spec_clones()) >= 0) by (nonlinear_arith)
            requires self.0@.len() >= 1;
        n * size
    }

    /// The reference directories of the first directory: the parents of its duplicates that
    /// lie outside every directory of the group, each once.
    pub fn ref_dirs(&self) -> (r: Vec<RefDir>)
        ensures
            self.0@.len() == 0 ==> r@.len() == 0,
            forall|k: int| 0 <= k < r@.len() ==> (#[trigger] r@[k]).spec_clone_dir().spec_path() == self.0@[0].spec_path(),
            self.0@.len() > 0 ==> forall|q: PathModel|
                (exists|k: int| 0 <= k < r@.len() && path_hash((#[trigger] r@[k]).spec_path()) == path_hash(q))
                    <==> has_parent_in(copies_where(self.0@[0].spec_clones(), outside_all(dir_paths(self.0@))), q),
            forall|k1: int, k2: int|
                0 <= k1 < r@.len() && 0 <= k2 < r@.len() && k1 != k2 ==> path_hash(
                    (#[trigger] r@[k1]).spec_path(),
                ) != path_hash((#[trigger] r@[k2]).spec_path()),
    {
        if self.0.len() == 0 {
            return Vec::new();
        }
        let first = &self.0[0];
        let copies = first.copies_outside(&self.0);
        let parents = parent_dirs(&copies);
        let paths = parents.paths();
        let mut out: Vec<RefDir> = Vec::new();
        let mut i: usize = 0;
        while i < paths.len()
            invariant
                self.0@.len() > 0,
                *first == self.0@[0],
                i <= paths.len(),
                paths_view(paths@) == parents@,
                crate::path::distinct_hashes(parents@),
                forall|q: PathModel| hash_member(parents@, q) <==> has_parent_in(
                    copies_where(self.0@[0].spec_clones(), outside_all(dir_paths(self.0@))),
                    q,
                ),
                out@.len() == i,
                forall|k: int| 0 <= k < i ==> (#[trigger] out@[k]).spec_path() == parents@[k],
                forall|k: int| 0 <= k < out@.len() ==> (#[trigger] out@[k]).spec_clone_dir().spec_path() == self.0@[0].spec_path(),
            decreases paths.len() - i,
        {
            out.push(RefDir::new(first.duplicate(), paths[i].duplicate()));
            i = i + 1;
        }
        proof {
            assert forall|q: PathModel|
                (exists|k: int| 0 <= k < out@.len() && path_hash((#[trigger] out@[k]).spec_path()) == path_hash(q))
                    <==> hash_member(parents@, q) by {
                if exists|k: int| 0 <= k < out@.len() && path_hash((#[trigger] out@[k]).spec_path()) == path_hash(q) {
                    let k = choose|k: int| 0 <= k < out@.len() && path_hash((#[trigger] out@[k]).spec_path()) == path_hash(q);
                    assert(parents@[k] == out@[k].spec_path());
                }
                if hash_member(parents@, q) {
                    let k = choose|k: int| 0 <= k < parents@.len() && path_hash(#[trigger] parents@[k]) == path_hash(q);
                    assert(out@[k].spec_path() == parents@[k]);
                }
            }
            assert forall|q: PathModel|
                (exists|k: int| 0 <= k < out@.len() && path_hash((#[trigger] out@[k]).spec_path()) == path_hash(q))
                    <==> has_parent_in(copies_where(self.0@[0].spec_clones(), outside_all(dir_paths(self.0@))), q) by {
                assert(hash_member(parents@, q) <==> has_parent_in(
                    copies_where(self.0@[0].spec_clones(), outside_all(dir_paths(self.0@))),
                    q,
                ));
            }
        }
        out
    }
}

/// Groups of duplicate directories.
#[derive(Debug)]
pub struct CloneDirGroups(pub Vec<CloneDirGroup>);

pub open spec fn groups_dirs(v: Seq<CloneDirGroup>) -> Seq<Seq<CloneDir>> {
    v.map_values(|g: CloneDirGroup| g.0@)
}

/// The sum of `w` over the directories of all groups.
pub open spec fn sum_groups(v: Seq<Seq<CloneDir>>, w: spec_fn(Seq<CloneDir>) -> nat) -> nat
    decreases v.len(),
{
    if v.len() == 0 {
        0
    } else {
        sum_groups(v.drop_last(), w) + w(v.last())
    }
}

pub open spec fn group_len_weight() -> spec_fn(Seq<CloneDir>) -> nat {
    |g: Seq<CloneDir>| g.len()
}

pub open spec fn group_count_weight() -> spec_fn(Seq<CloneDir>) -> nat {
    |g: Seq<CloneDir>| sum_dirs(g, count_weight())
}

pub open spec fn group_size_weight() -> spec_fn(Seq<CloneDir>) -> nat {
    |g: Seq<CloneDir>| sum_dirs(g, size_weight())
}

pub open spec fn group_min_weight() -> spec_fn(Seq<CloneDir>) -> nat {
    |g: Seq<CloneDir>| group_min_reclaimable(g)
}

proof fn lemma_sum_groups_prefix(v: Seq<Seq<CloneDir>>, w: spec_fn(Seq<CloneDir>) -> nat, i: int)
    requires
        0 <= i <= v.len(),
    ensures
        sum_groups(v.take(i), w) <= sum_groups(v, w),
        i < v.len() ==> sum_groups(v.take(i + 1), w) == sum_groups(v.take(i), w) + w(v[i]),
    decreases v.len(),
{
    if i < v.len() {
        assert(v.take(i + 1).drop_last() =~= v.take(i));
        assert(v.drop_last().take(i) =~= v.take(i));
        lemma_sum_groups_prefix(v.drop_last(), w, i);
    } else {
        assert(v.take(i) =~= v);
    }
}

/// Which total over groups to take.
pub enum GroupTotal {
    Dirs,
    Files,
    Bytes,
    MinimumReclaimable,
}

pub open spec fn total_weight(which: GroupTotal) -> spec_fn(Seq<CloneDir>) -> nat {
    match which {
        GroupTotal::Dirs => group_len_weight(),
        GroupTotal::Files => group_count_weight(),
        GroupTotal::Bytes => group_size_weight(),
        GroupTotal::MinimumReclaimable => group_min_weight(),
    }
}

impl CloneDirGroups {
    fn total(&self, which: GroupTotal) -> (r: u64)
        requires
            sum_groups(groups_dirs(self.0@), total_weight(which)) <= u64::MAX,
            forall|k: int| 0 <= k < self.0@.len() ==> #[trigger] self.0@[k].0@.len() > 0 ==> clone_sizes(self.0@[k].0@[0].spec_clones()) <= u64::MAX,
        ensures
            r == sum_groups(groups_dirs(self.0@), total_weight(which)),
    {
        let ghost v = groups_dirs(self.0@);
        let ghost w = total_weight(which);
        let mut total: u64 = 0;
        let mut i: usize = 0;
        while i < self.0.len()
            invariant
                v == groups_dirs(self.0@),
                w == total_weight(which),
                sum_groups(v, w) <= u64::MAX,
                forall|k: int| 0 <= k < self.0@.len() ==> #[trigger] self.0@[k].0@.len() > 0 ==> clone_sizes(self.0@[k].0@[0].spec_clones()) <= u64::MAX,
                i <= self.0.len(),
                total == sum_groups(v.take(i as int), w),
            decreases self.0.len() - i,
        {
            proof {
                lemma_sum_groups_prefix(v, w, i as int);
                lemma_sum_groups_prefix(v, w, i + 1);
                assert(v[i as int] == self.0@[i as int].0@);
            }
            let g = &self.0[i];
            let part = match which {
                GroupTotal::Dirs => g.0.len() as u64,
                GroupTotal::Files => g.file_count(),
                GroupTotal::Bytes => g.size_bytes(),
                GroupTotal::MinimumReclaimable => g.minimum_reclaimable_size(),
            };
            total = total + part;
            i = i + 1;
        }
        assert(v.take(self.0.len() as int) =~= v);
        total
    }

    /// How many directories the groups hold.
    pub fn dir_count(&self) -> (r: u64)
        requires
            sum_groups(groups_dirs(self.0@), group_len_weight()) <= u64::MAX,
        ensures
            r == sum_groups(groups_dirs(self.0@), group_len_weight()),
    {
        self.total_no_first(GroupTotal::Dirs)
    }

    fn total_no_first(&self, which: GroupTotal) -> (r: u64)
        requires
            sum_groups(groups_dirs(self.0@), total_weight(which)) <= u64::MAX,
            which is Dirs || which is Files,
        ensures
            r == sum_groups(groups_dirs(self.0@), total_weight(which)),
    {
        let ghost v = groups_dirs(self.0@);
        let ghost w = total_weight(which);
        let mut total: u64 = 0;
        let mut i: usize = 0;
        while i < self.0.len()
            invariant
                v == groups_dirs(self.0@),
                w == total_weight(which),
                which is Dirs || which is Files,
                sum_groups(v, w) <= u64::MAX,
                i <= self.0.len(),
                total == sum_groups(v.take(i as int), w),
            decreases self.0.len() - i,
        {
            proof {
                lemma_sum_groups_prefix(v, w, i as int);
                lemma_sum_groups_prefix(v, w, i + 1);
                assert(v[i as int] == self.0@[i as int].0@);
            }
            let g = &self.0[i];
            let part = match which {
                GroupTotal::Dirs => g.0.len() as u64,
                _ => g.file_count(),
            };
            total = total + part;
            i = i + 1;
        }
        assert(v.take(self.0.len() as int) =~= v);
        total
    }

    /// How many files the directories of the groups hold.
    pub fn file_count(&self) -> (r: u64)
        requires
            sum_groups(groups_dirs(self.0@), group_count_weight()) <= u64::MAX,
        ensures
            r == sum_groups(groups_dirs(self.0@), group_count_weight()),
    {
        self.total_no_first(GroupTotal::Files)
    }

    /// The bytes of the files of the directories of the groups.
    pub fn size_bytes(&self) -> (r: u64)
        requires
            sum_groups(groups_dirs(self.0@), group_size_weight()) <= u64::MAX,
        ensures
            r == sum_groups(groups_dirs(self.0@), group_size_weight()),
    {
        proof {
            self.lemma_first_sizes_fit(group_size_weight());
        }
        self.total(GroupTotal::Bytes)
    }

    pub fn size_human(&self) -> (r: String)
        requires
            sum_groups(groups_dirs(self.0@), group_size_weight()) <= u64::MAX,
        ensures
            r@ == human_size(sum_groups(groups_dirs(self.0@), group_size_weight()) as u64),
    {
        human_size_text(self.size_bytes())
    }

    /// The bytes freed at least by keeping the first directory of each group.
    pub fn minimum_reclaimable_size(&self) -> (r: u64)
        requires
            sum_groups(groups_dirs(self.0@), group_min_weight()) <= u64::MAX,
            sum_groups(groups_dirs(self.0@), group_size_weight()) <= u64::MAX,
        ensures
            r == sum_groups(groups_dirs(self.0@), group_min_weight()),
    {
        proof {
            self.lemma_first_sizes_fit(group_size_weight());
        }
        self.total(GroupTotal::MinimumReclaimable)
    }

    pub fn minimum_reclaimable_size_human(&self) -> (r: String)
        requires
            sum_groups(groups_dirs(self.0@), group_min_weight()) <= u64::MAX,
            sum_groups(groups_dirs(self.0@), group_size_weight()) <= u64::MAX,
        ensures
            r@ == human_size(sum_groups(groups_dirs(self.0@), group_min_weight()) as u64),
    {
        human_size_text(self.minimum_reclaimable_size())
    }

    proof fn lemma_first_sizes_fit(&self, w: spec_fn(Seq<CloneDir>) -> nat)
        requires
            w == group_size_weight(),
            sum_groups(groups_dirs(self.0@), w) <= u64::MAX,
        ensures
            forall|k: int| 0 <= k < self.0@.len() ==> #[trigger] self.0@[k].0@.len() > 0 ==> clone_sizes(self.0@[k].0@[0].spec_clones()) <= u64::MAX,
    {
        let v = groups_dirs(self.0@);
        assert forall|k: int| 0 <= k < self.0@.len() && #[trigger] self.0@[k].0@.len() > 0 implies clone_sizes(self.0@[k].0@[0].spec_clones()) <= u64::MAX by {
            if self.0@[k].0@.len() > 0 {
                lemma_sum_groups_prefix(v, w, k);
                lemma_sum_groups_prefix(v, w, k + 1);
                let g = v[k];
                assert(g == self.0@[k].0@);
                lemma_sum_dirs_prefix(g, size_weight(), 0);
                lemma_sum_dirs_prefix(g, size_weight(), 1);
                assert(g.take(0) =~= Seq::<CloneDir>::empty());
            }
        }
    }
}

/// Clone directory `m` duplicates clone directory `d`: every file of `d` has, in its group,
/// a member in `m`, and every file in `m` is one of `d`'s duplicates.
pub open spec fn dir_match(db: CloneGroups, t: Seq<NodeView>, d: CloneDir, m: CloneDir) -> bool {
    &&& forall|k: int|
        0 <= k < d.spec_clones().len() ==> match db.index_of_hash(path_hash((#[trigger] d.spec_clones()[k]).0)) {
            Some(i) => exists|j: int|
                0 <= j < db@[i as int].1.len() && hash_ancestor(m.spec_path(), #[trigger] db@[i as int].1[j]),
            None => false,
        }
    &&& forall|k: int|
        0 <= k < traversal(t, m.spec_id() as int, TraversalOrder::Pre, true, Some(NodeKind::File)).len()
            ==> hash_member(
            copies_where(d.spec_clones(), any_path()),
            t[#[trigger] traversal(t, m.spec_id() as int, TraversalOrder::Pre, true, Some(NodeKind::File))[k] as int].path,
        )
}

impl FSTree {
    /// Whether clone directory `m` duplicates clone directory `d`.
    fn dirs_match(&self, db: &CloneGroups, d: &CloneDir, m: &CloneDir) -> (r: bool)
        requires
            self.wf(),
            m.spec_id() < self@.len(),
        ensures
            r == dir_match(*db, self@, *d, *m),
    {
        let entries = d.clones();
        let mut k: usize = 0;
        while k < entries.len()
            invariant
                clone_pairs_view(entries@) == d.spec_clones(),
                k <= entries.len(),
                forall|k2: int|
                    0 <= k2 < k ==> match db.index_of_hash(path_hash((#[trigger] d.spec_clones()[k2]).0)) {
                        Some(i) => exists|j: int|
                            0 <= j < db@[i as int].1.len() && hash_ancestor(m.spec_path(), #[trigger] db@[i as int].1[j]),
                        None => false,
                    },
            decreases entries.len() - k,
        {
            let file = entries[k].0.as_hashed();
            assert(file@ == d.spec_clones()[k as int].0);
            match db.clone_group_hap(file) {
                None => {
                    return false;
                },
                Some(group) => {
                    let members = group.files().paths();
                    let ghost g = group@.1;
                    let mut found = false;
                    let mut j: usize = 0;
                    while j < members.len() && !found
                        invariant
                            ref_paths_view(members@) == g,
                            j <= members.len(),
                            found ==> exists|j2: int| 0 <= j2 < g.len() && hash_ancestor(m.spec_path(), #[trigger] g[j2]),
                            !found ==> forall|j2: int| 0 <= j2 < j ==> !hash_ancestor(m.spec_path(), #[trigger] g[j2]),
                        decreases members.len() - j,
                    {
                        if members[j].starts_with_hashed_path(m.path()) {
                            assert(hash_ancestor(m.spec_path(), g[j as int]));
                            found = true;
                        }
                        j = j + 1;
                    }
                    if !found {
                        return false;
                    }
                },
            }
            k = k + 1;
        }
        let copies = d.all_copies();
        let files = self.traverse_ids(m.node_id(), TraversalOrder::Pre, true, Some(NodeKind::File));
        let ghost fs = traversal(self@, m.spec_id() as int, TraversalOrder::Pre, true, Some(NodeKind::File));
        let count = self.node_count();
        let mut i: usize = 0;
        while i < files.len()
            invariant
                self.wf(),
                count == self@.len(),
                m.spec_id() < self@.len(),
                files@ == fs,
                fs == traversal(self@, m.spec_id() as int, TraversalOrder::Pre, true, Some(NodeKind::File)),
                ref_paths_view(copies@) == copies_where(d.spec_clones(), any_path()),
                i <= files.len(),
                forall|k2: int| 0 <= k2 < i ==> hash_member(
                    copies_where(d.spec_clones(), any_path()),
                    self@[#[trigger] fs[k2] as int].path,
                ),
            decreases files.len() - i,
        {
            proof {
                assert(fs == crate::fs::tree::ids_where(
                    self@.len() as int,
                    crate::fs::tree::in_subtree(self@, m.spec_id() as int, true, Some(NodeKind::File)),
                ));
                crate::fs::tree::lemma_ids_where_below(
                    self@.len() as int,
                    crate::fs::tree::in_subtree(self@, m.spec_id() as int, true, Some(NodeKind::File)),
                    i as int,
                );
            }
            let f = self.path_of(files[i]);
            let h = f.hash();
            let mut seen = false;
            let mut j: usize = 0;
            while j < copies.len() && !seen
                invariant
                    ref_paths_view(copies@) == copies_where(d.spec_clones(), any_path()),
                    h == path_hash(f@),
                    j <= copies.len(),
                    seen ==> hash_member(copies_where(d.spec_clones(), any_path()), f@),
                    !seen ==> forall|j2: int| 0 <= j2 < j ==> path_hash(#[trigger] copies_where(d.spec_clones(), any_path())[j2]) != h,
                decreases copies.len() - j,
            {
                if copies[j].hash() == h {
                    assert(path_hash(copies_where(d.spec_clones(), any_path())[j as int]) == path_hash(f@));
                    seen = true;
                }
                j = j + 1;
            }
            if !seen {
                proof {
                    assert(f@ == self@[fs[i as int] as int].path);
                    assert(!hash_member(copies_where(d.spec_clones(), any_path()), f@));
                }
                return false;
            }
            i = i + 1;
        }
        true
    }

    /// Groups of duplicate directories among the clone directories found from `dir`: each
    /// directory not yet grouped anchors a group of itself and the ungrouped directories
    /// that duplicate it. Every clone directory found lands in exactly one group.
    pub fn clone_dir_groups(&self, dir: &str, clones_db: &ClonesDB, recursive: bool) -> (r: Result<
        Vec<CloneDirGroup>,
        TraversePathError,
    >)
        requires
            self.wf(),
        ensures
            r is Ok <==> tree_has_kind(self@, parse_path(dir@), NodeKind::Directory),
            r is Ok ==> forall|g: int| 0 <= g < r->Ok_0@.len() ==> (#[trigger] r->Ok_0@[g]).0@.len() > 0,
            r is Ok ==> forall|g: int, k: int|
                0 <= g < r->Ok_0@.len() && 1 <= k < r->Ok_0@[g].0@.len() ==> dir_match(
                    clones_db.spec_index(),
                    self@,
                    r->Ok_0@[g].0@[0],
                    #[trigger] r->Ok_0@[g].0@[k],
                ),
            r is Ok ==> flat_ids(r->Ok_0@).no_duplicates(),
            r is Ok ==> members_ok(clones_db.spec_index(), self@, recursive, r->Ok_0@),
            r is Ok ==> increasing(anchors(r->Ok_0@)),
            r is Ok ==> exists|d: int|
                0 <= d < self@.len() && (#[trigger] self@[d]).path == parse_path(dir@) && greedy_ok(
                    clones_db.spec_index(),
                    self@,
                    recursive,
                    crate::fs::tree::ids_where(
                        self@.len() as int,
                        reported(clones_db.spec_index(), self@, d, recursive),
                    ),
                    r->Ok_0@,
                ),
            r is Ok ==> exists|d: int|
                0 <= d < self@.len() && (#[trigger] self@[d]).path == parse_path(dir@) && forall|x: usize|
                    flat_ids(r->Ok_0@).contains(x) <==> crate::fs::tree::ids_where(
                        self@.len() as int,
                        reported(clones_db.spec_index(), self@, d, recursive),
                    ).contains(x),
    {
        let dirs = match self.clone_dirs(dir, clones_db, recursive) {
            Ok(dirs) => dirs,
            Err(e) => {
                return Err(e);
            },
        };
        let ghost d = choose|d: int|
            0 <= d < self@.len() && (#[trigger] self@[d]).path == parse_path(dir@)
                && clone_dirs_view_ok(clones_db.spec_index(), self@, d, recursive, dirs@);
        let ghost ids = crate::fs::tree::ids_where(self@.len() as int, reported(clones_db.spec_index(), self@, d, recursive));
        let db = clones_db.clone_groups();
        let n = dirs.len();
        let count = self.node_count();
        proof {
            assert forall|p: int| 0 <= p < n implies (#[trigger] dirs@[p]).spec_id() == ids[p] by {
                assert(clone_dir_of(clones_db.spec_index(), self@, ids[p] as int, recursive, dirs@[p]));
            }
        }
        let mut selected: Vec<bool> = Vec::new();
        let mut z: usize = 0;
        while z < n
            invariant
                z <= n,
                selected@.len() == z,
                forall|p: int| 0 <= p < z ==> !selected@[p],
            decreases n - z,
        {
            selected.push(false);
            z = z + 1;
        }
        let mut groups: Vec<CloneDirGroup> = Vec::new();
        let mut a: usize = 0;
        while a < n
            invariant
                self.wf(),
                count == self@.len(),
                *db == clones_db.spec_index(),
                n == dirs@.len(),
                0 <= d < self@.len(),
                clone_dirs_view_ok(clones_db.spec_index(), self@, d, recursive, dirs@),
                ids == crate::fs::tree::ids_where(self@.len() as int, reported(clones_db.spec_index(), self@, d, recursive)),
                ids.len() == n,
                forall|p: int| 0 <= p < n ==> (#[trigger] dirs@[p]).spec_id() == ids[p],
                selected@.len() == n,
                a <= n,
                forall|p: int| 0 <= p < a ==> #[trigger] selected@[p],
                forall|p: int| 0 <= p < n ==> (#[trigger] selected@[p] <==> flat_ids(groups@).contains(ids[p])),
                forall|x: usize| flat_ids(groups@).contains(x) ==> ids.contains(x),
                flat_ids(groups@).no_duplicates(),
                forall|g: int| 0 <= g < groups@.len() ==> (#[trigger] groups@[g]).0@.len() > 0,
                forall|g: int, k: int|
                    0 <= g < groups@.len() && 1 <= k < groups@[g].0@.len() ==> dir_match(
                        clones_db.spec_index(),
                        self@,
                        groups@[g].0@[0],
                        #[trigger] groups@[g].0@[k],
                    ),
                members_ok(clones_db.spec_index(), self@, recursive, groups@),
                increasing(anchors(groups@)),
                forall|g: int, p: int| 0 <= g < groups@.len() && a <= p < n ==> #[trigger] anchors(groups@)[g] < #[trigger] ids[p],
                greedy_ok(clones_db.spec_index(), self@, recursive, ids, groups@),
            decreases n - a,
        {
            if !selected[a] {
                let anchor = &dirs[a];
                let mut members: Vec<CloneDir> = Vec::new();
                let first = anchor.duplicate();
                members.push(first);
                let ghost sel_before = selected@;
                selected.set(a, true);
                proof {
                    assert(selected@ == sel_before.update(a as int, true));
                    assert(group_ids(members@) =~= seq![ids[a as int]]);
                    assert forall|p: int| 0 <= p < n implies (#[trigger] selected@[p] <==> (flat_ids(groups@) + group_ids(members@)).contains(ids[p])) by {
                        if p != a as int {
                            lemma_ids_distinct(self@.len() as int, reported(clones_db.spec_index(), self@, d, recursive), p, a as int);
                            assert(selected@[p] == sel_before[p]);
                        }
                        lemma_contains_concat(flat_ids(groups@), group_ids(members@), ids[p]);
                        assert(group_ids(members@)[0] == ids[a as int]);
                        assert(group_ids(members@).len() == 1);
                        assert(group_ids(members@).contains(ids[p]) <==> ids[p] == ids[a as int]);
                    }
                    assert((flat_ids(groups@) + group_ids(members@)).no_duplicates()) by {
                        lemma_no_dup_push(flat_ids(groups@), ids[a as int]);
                        assert(flat_ids(groups@) + group_ids(members@) =~= flat_ids(groups@).push(ids[a as int]));
                    }
                }
                let ghost mut last_pos: int = a as int;
                proof {
                    assert(clone_dir_of(clones_db.spec_index(), self@, ids[a as int] as int, recursive, dirs@[a as int]));
                    assert(members@[0] == first);
                }
                let mut b: usize = 0;
                while b < n
                    invariant
                        self.wf(),
                        count == self@.len(),
                        *db == clones_db.spec_index(),
                        n == dirs@.len(),
                        0 <= d < self@.len(),
                        clone_dirs_view_ok(clones_db.spec_index(), self@, d, recursive, dirs@),
                        ids == crate::fs::tree::ids_where(self@.len() as int, reported(clones_db.spec_index(), self@, d, recursive)),
                        ids.len() == n,
                        forall|p: int| 0 <= p < n ==> (#[trigger] dirs@[p]).spec_id() == ids[p],
                        selected@.len() == n,
                        a < n,
                        forall|p: int| 0 <= p <= a ==> #[trigger] selected@[p],
                        forall|p: int| 0 <= p < n ==> (#[trigger] selected@[p] <==> (flat_ids(groups@) + group_ids(members@)).contains(ids[p])),
                        forall|x: usize| flat_ids(groups@).contains(x) ==> ids.contains(x),
                        forall|x: usize| group_ids(members@).contains(x) ==> ids.contains(x),
                        (flat_ids(groups@) + group_ids(members@)).no_duplicates(),
                        *anchor == dirs@[a as int],
                        b <= n,
                        members@.len() > 0,
                        members@[0].spec_path() == anchor.spec_path(),
                        members@[0].spec_clones() == anchor.spec_clones(),
                        forall|k: int| 1 <= k < members@.len() ==> dir_match(
                            clones_db.spec_index(),
                            self@,
                            *anchor,
                            #[trigger] members@[k],
                        ),
                        members_ok(clones_db.spec_index(), self@, recursive, groups@),
                        increasing(anchors(groups@)),
                        forall|g: int, p: int| 0 <= g < groups@.len() && a <= p < n ==> #[trigger] anchors(groups@)[g] < #[trigger] ids[p],
                        greedy_ok(clones_db.spec_index(), self@, recursive, ids, groups@),
                        forall|k: int| 0 <= k < members@.len() ==> clone_dir_of(
                            clones_db.spec_index(),
                            self@,
                            (#[trigger] members@[k]).spec_id() as int,
                            recursive,
                            members@[k],
                        ),
                        members@[0].spec_id() == ids[a as int],
                        increasing(group_ids(members@)),
                        0 <= last_pos < n,
                        last_pos == a || last_pos < b,
                        group_ids(members@)[members@.len() - 1] == ids[last_pos],
                        forall|k: int| 0 <= k < members@.len() ==> exists|q: int|
                            0 <= q < n && (q == a || q < b) && #[trigger] group_ids(members@)[k] == ids[q],
                        forall|p: int|
                            0 <= p < b && p != a && !flat_ids(groups@).contains(ids[p]) ==> (group_ids(members@).contains(#[trigger] ids[p])
                                <==> matches_at(clones_db.spec_index(), self@, recursive, *anchor, ids[p] as int)),
                    decreases n - b,
                {
                    if !selected[b] {
                        proof {
                            assert(clone_dir_of(clones_db.spec_index(), self@, ids[b as int] as int, recursive, dirs@[b as int]));
                            crate::fs::tree::lemma_ids_where_below(self@.len() as int, reported(clones_db.spec_index(), self@, d, recursive), b as int);
                        }
                        if self.dirs_match(db, anchor, &dirs[b]) {
                            let c = dirs[b].duplicate();
                            let ghost before = members@;
                            let ghost taken = flat_ids(groups@) + group_ids(before);
                            members.push(c);
                            proof {
                                assert(group_ids(members@) =~= group_ids(before).push(ids[b as int]));
                                assert(flat_ids(groups@) + group_ids(members@) =~= taken.push(ids[b as int]));
                                lemma_no_dup_push(taken, ids[b as int]);
                                assert forall|k: int| 1 <= k < members@.len() implies dir_match(
                                    clones_db.spec_index(),
                                    self@,
                                    *anchor,
                                    #[trigger] members@[k],
                                ) by {
                                    if k < before.len() {
                                        assert(members@[k] == before[k]);
                                    } else {
                                        lemma_dir_match_same(clones_db.spec_index(), self@, dirs@[b as int], c);
                                    }
                                }
                                assert forall|x: usize| group_ids(members@).contains(x) implies ids.contains(x) by {
                                    if x == ids[b as int] {
                                        assert(ids[b as int] == ids[b as int]);
                                    } else {
                                        let k = choose|k: int| 0 <= k < group_ids(members@).len() && group_ids(members@)[k] == x;
                                        assert(group_ids(before)[k] == x);
                                    }
                                }
                            }
                            let ghost sel_before = selected@;
                            selected.set(b, true);
                            proof {
                                assert(selected@ == sel_before.update(b as int, true));
                                assert forall|p: int| 0 <= p < n implies (#[trigger] selected@[p] <==> (flat_ids(groups@) + group_ids(members@)).contains(ids[p])) by {
                                    lemma_contains_concat(taken, seq![ids[b as int]], ids[p]);
                                    assert(taken.push(ids[b as int]) =~= taken + seq![ids[b as int]]);
                                    if p != b as int {
                                        lemma_ids_distinct(self@.len() as int, reported(clones_db.spec_index(), self@, d, recursive), p, b as int);
                                        assert(selected@[p] == sel_before[p]);
                                        assert(seq![ids[b as int]].contains(ids[p]) ==> ids[p] == ids[b as int]);
                                    } else {
                                        assert(seq![ids[b as int]][0] == ids[p]);
                                    }
                                }
                                assert(b > a);
                                lemma_ids_increasing(self@.len() as int, reported(clones_db.spec_index(), self@, d, recursive), last_pos, b as int);
                                assert forall|i: int, j: int| 0 <= i < j < group_ids(members@).len() implies group_ids(members@)[i] < group_ids(members@)[j] by {
                                    if j < before.len() {
                                        assert(group_ids(before)[i] == group_ids(members@)[i]);
                                        assert(group_ids(before)[j] == group_ids(members@)[j]);
                                    } else {
                                        assert(group_ids(members@)[i] == group_ids(before)[i]);
                                        if i < before.len() - 1 {
                                            assert(group_ids(before)[i] < group_ids(before)[before.len() - 1]);
                                        }
                                    }
                                }
                                assert forall|k: int| 0 <= k < members@.len() implies clone_dir_of(
                                    clones_db.spec_index(),
                                    self@,
                                    (#[trigger] members@[k]).spec_id() as int,
                                    recursive,
                                    members@[k],
                                ) by {
                                    if k < before.len() {
                                        assert(members@[k] == before[k]);
                                    }
                                }
                                assert forall|k: int| 0 <= k < members@.len() implies exists|q: int|
                                    0 <= q < n && (q == a || q < b + 1) && #[trigger] group_ids(members@)[k] == ids[q] by {
                                    if k < before.len() {
                                        assert(group_ids(members@)[k] == group_ids(before)[k]);
                                    } else {
                                        assert(group_ids(members@)[k] == ids[b as int]);
                                    }
                                }
                                lemma_matches_at_from_one(clones_db.spec_index(), self@, recursive, *anchor, ids[b as int] as int, dirs@[b as int]);
                                assert forall|p: int|
                                    0 <= p < b + 1 && p != a && !flat_ids(groups@).contains(ids[p]) implies (group_ids(members@).contains(#[trigger] ids[p])
                                        <==> matches_at(clones_db.spec_index(), self@, recursive, *anchor, ids[p] as int)) by {
                                    if p < b {
                                        lemma_ids_distinct(self@.len() as int, reported(clones_db.spec_index(), self@, d, recursive), p, b as int);
                                        assert(group_ids(members@) =~= group_ids(before).push(ids[b as int]));
                                        if group_ids(members@).contains(ids[p]) {
                                            let k = choose|k: int| 0 <= k < group_ids(members@).len() && group_ids(members@)[k] == ids[p];
                                            assert(group_ids(before)[k] == ids[p]);
                                        }
                                        if group_ids(before).contains(ids[p]) {
                                            let k = choose|k: int| 0 <= k < group_ids(before).len() && group_ids(before)[k] == ids[p];
                                            assert(group_ids(members@)[k] == ids[p]);
                                        }
                                    } else {
                                        assert(group_ids(members@)[members@.len() - 1] == ids[p]);
                                    }
                                }
                                last_pos = b as int;
                            }
                        } else {
                            proof {
                                assert(!dir_match(clones_db.spec_index(), self@, *anchor, dirs@[b as int]));
                                assert(!matches_at(clones_db.spec_index(), self@, recursive, *anchor, ids[b as int] as int));
                                assert(!group_ids(members@).contains(ids[b as int])) by {
                                    if group_ids(members@).contains(ids[b as int]) {
                                        let k = choose|k: int| 0 <= k < group_ids(members@).len() && group_ids(members@)[k] == ids[b as int];
                                        let q = choose|q: int| 0 <= q < n && (q == a || q < b) && #[trigger] group_ids(members@)[k] == ids[q];
                                        lemma_ids_distinct(self@.len() as int, reported(clones_db.spec_index(), self@, d, recursive), q, b as int);
                                    }
                                }
                            }
                        }
                    } else {
                        proof {
                            if b != a && !flat_ids(groups@).contains(ids[b as int]) {
                                lemma_contains_concat(flat_ids(groups@), group_ids(members@), ids[b as int]);
                                let k = choose|k: int| 0 <= k < group_ids(members@).len() && group_ids(members@)[k] == ids[b as int];
                                let q = choose|q: int| 0 <= q < n && (q == a || q < b) && #[trigger] group_ids(members@)[k] == ids[q];
                                lemma_ids_distinct(self@.len() as int, reported(clones_db.spec_index(), self@, d, recursive), q, b as int);
                            }
                        }
                    }
                    b = b + 1;
                }
                proof {
                    assert forall|k: int| 1 <= k < members@.len() implies dir_match(
                        clones_db.spec_index(),
                        self@,
                        members@[0],
                        #[trigger] members@[k],
                    ) by {
                        lemma_dir_match_anchor(clones_db.spec_index(), self@, *anchor, members@[0], members@[k]);
                    }
                }
                let ghost before = groups@;
                let ghost mem = members@;
                groups.push(CloneDirGroup(members));
                proof {
                    assert(groups@.drop_last() =~= before);
                    assert(flat_ids(groups@) == flat_ids(before) + group_ids(mem));
                    assert forall|x: usize| flat_ids(groups@).contains(x) implies ids.contains(x) by {
                        lemma_contains_concat(flat_ids(before), group_ids(mem), x);
                    }
                    assert forall|g: int| 0 <= g < groups@.len() implies (#[trigger] groups@[g]).0@.len() > 0 by {
                        if g < before.len() {
                            assert(groups@[g] == before[g]);
                        }
                    }
                    assert forall|g: int, k: int|
                        0 <= g < groups@.len() && 1 <= k < groups@[g].0@.len() implies dir_match(
                            clones_db.spec_index(),
                            self@,
                            groups@[g].0@[0],
                            #[trigger] groups@[g].0@[k],
                        ) by {
                        if g < before.len() {
                            assert(groups@[g] == before[g]);
                        }
                    }
                    assert(anchors(groups@) =~= anchors(before).push(ids[a as int]));
                    assert forall|g: int, p: int| 0 <= g < groups@.len() && a + 1 <= p < n implies #[trigger] anchors(groups@)[g] < #[trigger] ids[p] by {
                        lemma_ids_increasing(self@.len() as int, reported(clones_db.spec_index(), self@, d, recursive), a as int, p);
                        if g < before.len() {
                            assert(anchors(groups@)[g] == anchors(before)[g]);
                        }
                    }
                    assert forall|i: int, j: int| 0 <= i < j < anchors(groups@).len() implies anchors(groups@)[i] < anchors(groups@)[j] by {
                        if j < before.len() {
                            assert(anchors(groups@)[i] == anchors(before)[i]);
                            assert(anchors(groups@)[j] == anchors(before)[j]);
                        } else {
                            assert(anchors(groups@)[i] == anchors(before)[i]);
                            assert(anchors(before)[i] < ids[a as int]);
                        }
                    }
                    assert forall|g: int, k: int|
                        0 <= g < groups@.len() && 0 <= k < groups@[g].0@.len() implies clone_dir_of(
                            clones_db.spec_index(),
                            self@,
                            (#[trigger] groups@[g].0@[k]).spec_id() as int,
                            recursive,
                            groups@[g].0@[k],
                        ) by {
                        if g < before.len() {
                            assert(groups@[g] == before[g]);
                        }
                    }
                    assert forall|g: int| 0 <= g < groups@.len() implies increasing(group_ids((#[trigger] groups@[g]).0@)) by {
                        if g < before.len() {
                            assert(groups@[g] == before[g]);
                        }
                    }
                    assert forall|g: int, x: usize|
                        0 <= g < groups@.len() && ids.contains(x) && !flat_ids(groups@.take(g)).contains(x) && x != groups@[g].0@[0].spec_id()
                            implies (#[trigger] group_ids(groups@[g].0@).contains(x) <==> matches_at(clones_db.spec_index(), self@, recursive, groups@[g].0@[0], x as int)) by {
                        if g < before.len() {
                            assert(groups@[g] == before[g]);
                            assert(groups@.take(g) =~= before.take(g));
                        } else {
                            assert(groups@.take(g) =~= before);
                            let p = choose|p: int| 0 <= p < ids.len() && ids[p] == x;
                            assert(p != a as int);
                            lemma_matches_at_anchor(clones_db.spec_index(), self@, recursive, *anchor, mem[0], x as int);
                            assert(group_ids(mem).contains(ids[p]) <==> matches_at(clones_db.spec_index(), self@, recursive, *anchor, ids[p] as int));
                        }
                    }
                }
            }
            a = a + 1;
        }
        proof {
            assert forall|x: usize| flat_ids(groups@).contains(x) <==> ids.contains(x) by {
                if ids.contains(x) {
                    let p = choose|p: int| 0 <= p < ids.len() && ids[p] == x;
                    assert(selected@[p]);
                }
            }
        }
        Ok(groups)
    }
}

/// Every directory that clone directory `a` would be matched with at node `x` duplicates it.
pub open spec fn matches_at(db: CloneGroups, t: Seq<NodeView>, recursive: bool, a: CloneDir, x: int) -> bool {
    forall|c: CloneDir| #[trigger] clone_dir_of(db, t, x, recursive, c) ==> dir_match(db, t, a, c)
}

pub open spec fn increasing(v: Seq<usize>) -> bool {
    forall|i: int, j: int| 0 <= i < j < v.len() ==> v[i] < v[j]
}

/// The ids of the first directory of each group.
pub open spec fn anchors(v: Seq<CloneDirGroup>) -> Seq<usize> {
    v.map_values(|g: CloneDirGroup| g.0@[0].spec_id())
}

/// Each grouped directory is the clone directory found at its node, and each group lists its
/// directories in the order the search found them.
pub open spec fn members_ok(db: CloneGroups, t: Seq<NodeView>, recursive: bool, v: Seq<CloneDirGroup>) -> bool {
    &&& forall|g: int, k: int|
        0 <= g < v.len() && 0 <= k < v[g].0@.len() ==> clone_dir_of(
            db,
            t,
            (#[trigger] v[g].0@[k]).spec_id() as int,
            recursive,
            v[g].0@[k],
        )
    &&& forall|g: int| 0 <= g < v.len() ==> increasing(group_ids((#[trigger] v[g]).0@))
}

/// The greedy rule: a clone directory (of `ids`) that no earlier group took, other than a
/// group's first directory, is in that group exactly when it duplicates the first directory.
pub open spec fn greedy_ok(db: CloneGroups, t: Seq<NodeView>, recursive: bool, ids: Seq<usize>, v: Seq<CloneDirGroup>) -> bool {
    forall|g: int, x: usize|
        0 <= g < v.len() && ids.contains(x) && !flat_ids(v.take(g)).contains(x) && x != v[g].0@[0].spec_id()
            ==> (#[trigger] group_ids(v[g].0@).contains(x) <==> matches_at(db, t, recursive, v[g].0@[0], x as int))
}

/// Two clone directories found at one node agree on everything a match looks at.
proof fn lemma_clone_dir_of_same(db: CloneGroups, t: Seq<NodeView>, x: int, recursive: bool, c1: CloneDir, c2: CloneDir)
    requires
        clone_dir_of(db, t, x, recursive, c1),
        clone_dir_of(db, t, x, recursive, c2),
    ensures
        c1.spec_id() == c2.spec_id(),
        c1.spec_path() == c2.spec_path(),
        c1.spec_clones() == c2.spec_clones(),
{
    assert forall|k: int| 0 <= k < c1.spec_clones().len() implies c1.spec_clones()[k] == c2.spec_clones()[k] by {
        let fs = dir_files(t, x, recursive);
        assert(c1.spec_clones()[k].0 == t[fs[k] as int].path);
        assert(c2.spec_clones()[k].0 == t[fs[k] as int].path);
        assert(Some(c1.spec_clones()[k].1) == outside_copies(db, t, fs[k] as int, x));
        assert(Some(c2.spec_clones()[k].1) == outside_copies(db, t, fs[k] as int, x));
    }
    assert(c1.spec_clones() =~= c2.spec_clones());
}

/// A match against one clone directory found at `x` is a match against all of them.
proof fn lemma_matches_at_from_one(db: CloneGroups, t: Seq<NodeView>, recursive: bool, a: CloneDir, x: int, c: CloneDir)
    requires
        clone_dir_of(db, t, x, recursive, c),
        dir_match(db, t, a, c),
    ensures
        matches_at(db, t, recursive, a, x),
{
    assert forall|c2: CloneDir| #[trigger] clone_dir_of(db, t, x, recursive, c2) implies dir_match(db, t, a, c2) by {
        lemma_clone_dir_of_same(db, t, x, recursive, c, c2);
    }
}

/// Matching depends on the first directory's entries only.
proof fn lemma_matches_at_anchor(db: CloneGroups, t: Seq<NodeView>, recursive: bool, a: CloneDir, a2: CloneDir, x: int)
    requires
        a.spec_clones() == a2.spec_clones(),
    ensures
        matches_at(db, t, recursive, a, x) <==> matches_at(db, t, recursive, a2, x),
{
}

/// `ids_where` gives ids in increasing order.
proof fn lemma_ids_increasing(n: int, want: spec_fn(int) -> bool, p: int, q: int)
    requires
        0 <= p < q < ids_where(n, want).len(),
        n <= usize::MAX,
    ensures
        ids_where(n, want)[p] < ids_where(n, want)[q],
    decreases n,
{
    if n > 0 {
        let prev = ids_where(n - 1, want);
        if want(n - 1) {
            if q < prev.len() {
                lemma_ids_increasing(n - 1, want, p, q);
            } else {
                crate::fs::tree::lemma_ids_where_below(n - 1, want, p);
            }
        } else {
            lemma_ids_increasing(n - 1, want, p, q);
        }
    }
}

/// The ids of the directories of each group, group after group.
pub open spec fn flat_ids(v: Seq<CloneDirGroup>) -> Seq<usize>
    decreases v.len(),
{
    if v.len() == 0 {
        Seq::empty()
    } else {
        flat_ids(v.drop_last()) + group_ids(v.last().0@)
    }
}

pub open spec fn group_ids(g: Seq<CloneDir>) -> Seq<usize> {
    g.map_values(|c: CloneDir| c.spec_id())
}

proof fn lemma_contains_concat(a: Seq<usize>, b: Seq<usize>, x: usize)
    ensures
        (a + b).contains(x) <==> a.contains(x) || b.contains(x),
{
    if (a + b).contains(x) {
        let k = choose|k: int| 0 <= k < (a + b).len() && (a + b)[k] == x;
        if k < a.len() {
            assert(a[k] == x);
        } else {
            assert(b[k - a.len()] == x);
        }
    }
    if a.contains(x) {
        let k = choose|k: int| 0 <= k < a.len() && a[k] == x;
        assert((a + b)[k] == x);
    }
    if b.contains(x) {
        let k = choose|k: int| 0 <= k < b.len() && b[k] == x;
        assert((a + b)[k + a.len()] == x);
    }
}

proof fn lemma_no_dup_push(s: Seq<usize>, x: usize)
    requires
        s.no_duplicates(),
        !s.contains(x),
    ensures
        s.push(x).no_duplicates(),
{
    assert forall|i: int, j: int| 0 <= i < s.push(x).len() && 0 <= j < s.push(x).len() && i != j implies s.push(x)[i] != s.push(x)[j] by {
        if i < s.len() && j < s.len() {
        } else if i < s.len() {
            assert(s[i] != x);
        } else {
            assert(s[j] != x);
        }
    }
}

/// `ids_where` gives each id once: two positions with one id are one position.
proof fn lemma_ids_distinct(n: int, want: spec_fn(int) -> bool, p: int, q: int)
    requires
        0 <= p < ids_where(n, want).len(),
        0 <= q < ids_where(n, want).len(),
        p != q,
        n <= usize::MAX,
    ensures
        ids_where(n, want)[p] != ids_where(n, want)[q],
    decreases n,
{
    if n > 0 {
        let prev = ids_where(n - 1, want);
        if want(n - 1) {
            if p < prev.len() && q < prev.len() {
                lemma_ids_distinct(n - 1, want, p, q);
            } else if p < prev.len() {
                crate::fs::tree::lemma_ids_where_below(n - 1, want, p);
            } else {
                crate::fs::tree::lemma_ids_where_below(n - 1, want, q);
            }
        } else {
            lemma_ids_distinct(n - 1, want, p, q);
        }
    }
}

proof fn lemma_dir_match_same(db: CloneGroups, t: Seq<NodeView>, m: CloneDir, c: CloneDir)
    requires
        c.spec_id() == m.spec_id(),
        c.spec_path() == m.spec_path(),
        c.spec_clones() == m.spec_clones(),
    ensures
        forall|d: CloneDir| dir_match(db, t, d, m) ==> dir_match(db, t, d, c),
{
}

proof fn lemma_dir_match_anchor(db: CloneGroups, t: Seq<NodeView>, a: CloneDir, a2: CloneDir, m: CloneDir)
    requires
        a2.spec_path() == a.spec_path(),
        a2.spec_clones() == a.spec_clones(),
        dir_match(db, t, a, m),
    ensures
        dir_match(db, t, a2, m),
{
}

/// The files of a clone directory, handed out one at a time.
#[derive(Debug)]
pub struct CloneDirFilesIter {
    queue: PathRefQueue,
}

impl View for CloneDirFilesIter {
    type V = Seq<PathModel>;

    closed spec fn view(&self) -> Seq<PathModel> {
        self.queue@
    }
}

impl CloneDirFilesIter {
    pub fn next(&mut self) -> (r: Option<HashedAbsolutePathRef>)
        ensures
            old(self)@.len() == 0 ==> r is None && final(self)@ == old(self)@,
            old(self)@.len() > 0 ==> r is Some && r->Some_0@ == old(self)@[0] && final(self)@
                == old(self)@.drop_first(),
    {
        self.queue.next()
    }
}

/// Walking the files `fs` in order: the files kept, and the groups met so far. A file is
/// kept unless a group already met holds it; keeping it meets its own group.
pub open spec fn declone(db: CloneGroups, t: Seq<NodeView>, fs: Seq<usize>) -> (Seq<usize>, Seq<usize>)
    decreases fs.len(),
{
    if fs.len() == 0 {
        (Seq::empty(), Seq::empty())
    } else {
        let prev = declone(db, t, fs.drop_last());
        let f = fs.last() as int;
        if exists|j: int| 0 <= j < prev.1.len() && hash_member(db@[#[trigger] prev.1[j] as int].1, t[f].path) {
            prev
        } else {
            (prev.0.push(fs.last()), match db.index_of_hash(path_hash(t[f].path)) {
                Some(g) => prev.1.push(g),
                None => prev.1,
            })
        }
    }
}

impl FSTree {
    /// The files of the directory that `dir` names (its direct files, or all below it when
    /// `recursive`) with the duplicates among them left out: of each group, only the first
    /// file met stays. Fails where `dir` is not a directory of the tree.
    pub fn dir_decloned_inside_files(&self, dir: &str, recursive: bool, clones_db: &ClonesDB) -> (r: Result<
        Vec<usize>,
        TraversePathError,
    >)
        requires
            self.wf(),
        ensures
            r is Ok <==> tree_has_kind(self@, parse_path(dir@), NodeKind::Directory),
            r is Ok ==> exists|d: int|
                0 <= d < self@.len() && (#[trigger] self@[d]).path == parse_path(dir@) && r->Ok_0@
                    == declone(clones_db.spec_index(), self@, dir_files(self@, d, recursive)).0,
    {
        let p = HashedAbsolutePath::from_text(dir);
        let d = match self.path_node_id(&p) {
            None => {
                return Err(TraversePathError::PathNotFound(PathNotFound { path: p.as_path().to_owned() }));
            },
            Some(d) => d,
        };
        if self.kind_of(d) == NodeKind::File {
            proof {
                if tree_has_kind(self@, p@, NodeKind::Directory) {
                    let j = choose|j: int| 0 <= j < self@.len() && (#[trigger] self@[j]).path == p@ && self@[j].kind == NodeKind::Directory;
                    assert(j == d as int);
                }
            }
            return Err(TraversePathError::PathIsNotADirectory(PathIsNotADirectory { path: p.as_path().to_owned() }));
        }
        let db = clones_db.clone_groups();
        let groups = db.ref_groups();
        let kind = if recursive {
            FilesIterKind::RecursivePreOrder
        } else {
            FilesIterKind::Children
        };
        let files = self.file_ids(d, kind);
        let ghost fs = dir_files(self@, d as int, recursive);
        assert(files@ == fs);
        let count = self.node_count();
        let mut kept: Vec<usize> = Vec::new();
        let mut present: Vec<usize> = Vec::new();
        let mut i: usize = 0;
        while i < files.len()
            invariant
                self.wf(),
                count == self@.len(),
                d < self@.len(),
                *db == clones_db.spec_index(),
                groups@.len() == db@.len(),
                forall|g: int| 0 <= g < groups@.len() ==> (#[trigger] groups@[g])@ == db@[g],
                files@ == fs,
                fs == dir_files(self@, d as int, recursive),
                i <= files.len(),
                (kept@, present@) == declone(*db, self@, fs.take(i as int)),
                forall|j: int| 0 <= j < present@.len() ==> (#[trigger] present@[j] as int) < db@.len(),
            decreases files.len() - i,
        {
            proof {
                dir_files_are_nodes(self@, d as int, recursive, i as int);
                assert(fs.take(i + 1).drop_last() =~= fs.take(i as int));
                assert(fs.take(i + 1).last() == fs[i as int]);
            }
            let f = files[i];
            let fpath = self.path_of(f);
            let fref = fpath.to_absolute_path_ref();
            let mut seen = false;
            let mut j: usize = 0;
            while j < present.len() && !seen
                invariant
                    groups@.len() == db@.len(),
                    forall|g: int| 0 <= g < groups@.len() ==> (#[trigger] groups@[g])@ == db@[g],
                    forall|j2: int| 0 <= j2 < present@.len() ==> (#[trigger] present@[j2] as int) < db@.len(),
                    j <= present.len(),
                    seen ==> exists|j2: int| 0 <= j2 < present@.len() && hash_member(db@[#[trigger] present@[j2] as int].1, fref@),
                    !seen ==> forall|j2: int| 0 <= j2 < j ==> !hash_member(db@[#[trigger] present@[j2] as int].1, fref@),
                decreases present.len() - j,
            {
                let g = present[j];
                if groups[g].contains(&fref) {
                    seen = true;
                }
                j = j + 1;
            }
            if !seen {
                kept.push(f);
                match db.group_index_of(fpath) {
                    Some(g) => {
                        present.push(g);
                    },
                    None => {},
                }
            }
            i = i + 1;
        }
        assert(fs.take(files.len() as int) =~= fs);
        Ok(kept)
    }
}

} // verus!
