use vstd::prelude::*;

use crate::clones::db::{concat_kept, inside_pred, ClonesDB, PathModel};
use crate::error_behavior::{error_action, ErrorAction, ErrorBehavior};
use crate::fs::tree::{
    blocked_by_file, ids_where, in_subtree, tree_has, tree_has_kind, FSTree, InsertChildError,
    NodeKind, NodeView,
};
use crate::path::is_ancestor;
use crate::path::{parse_path, HashedAbsolutePath};

verus! {

/// No member of any group lies in `dir`, at any depth.
pub open spec fn unique_dir(db: ClonesDB, dir: PathModel) -> bool {
    concat_kept(db.spec_groups(), inside_pred(dir, true)).len() == 0
}

/// The unique directories that a search from node `d` reports: when `recursive`, each
/// unique directory of the subtree whose parent is not unique (or `d` itself, if unique);
/// else the unique child directories of `d`.
pub open spec fn unique_reported(db: ClonesDB, t: Seq<NodeView>, d: int, recursive: bool) -> spec_fn(int) -> bool {
    |x: int|
        0 <= x < t.len() && t[x].kind == NodeKind::Directory && unique_dir(db, t[x].path) && if recursive {
            in_subtree(t, d, true, None)(x) && (x == d || match t[x].parent {
                Some(p) => !unique_dir(db, t[p as int].path),
                None => true,
            })
        } else {
            t[x].parent == Some(d as usize)
        }
}

/// Whether the directory that `dir` names holds no member of any group, at any depth.
pub fn is_unique_dir(dir: &str, clones_db: &ClonesDB) -> (r: bool)
    ensures
        r == unique_dir(*clones_db, parse_path(dir@)),
{
    let d = HashedAbsolutePath::from_text(dir);
    is_unique_dir_hap(&d, clones_db)
}

/// Whether `dir` holds no member of any group, at any depth.
pub fn is_unique_dir_hap(dir: &HashedAbsolutePath, clones_db: &ClonesDB) -> (r: bool)
    ensures
        r == unique_dir(*clones_db, dir@),
{
    let mut iter = clones_db.clone_groups().dir_clone_files_iter_hap(dir, true);
    iter.next().is_none()
}

/// The unique directories found from the directory of the tree that `dir` names (see
/// `unique_reported`), in the order they were added; None where `dir` is not a directory
/// of the tree.
pub fn unique_dirs(tree: &FSTree, dir: &str, recursive: bool, clones_db: &ClonesDB) -> (r: Option<Vec<usize>>)
    requires
        tree.wf(),
    ensures
        r is Some <==> tree_has_kind(tree@, parse_path(dir@), NodeKind::Directory),
        r is Some ==> exists|d: int|
            0 <= d < tree@.len() && (#[trigger] tree@[d]).path == parse_path(dir@)
                && r->Some_0@ == ids_where(tree@.len() as int, unique_reported(*clones_db, tree@, d, recursive)),
{
    let p = HashedAbsolutePath::from_text(dir);
    let d = match tree.path_node_id(&p) {
        Some(d) => d,
        None => {
            return None;
        },
    };
    if tree.kind_of(d) == NodeKind::File {
        proof {
            if tree_has_kind(tree@, p@, NodeKind::Directory) {
                let j = choose|j: int| 0 <= j < tree@.len() && (#[trigger] tree@[j]).path == p@ && tree@[j].kind == NodeKind::Directory;
                assert(j == d as int);
            }
        }
        return None;
    }
    let ghost want = unique_reported(*clones_db, tree@, d as int, recursive);
    let n = tree.node_count();
    let base = tree.path_of(d);
    let mut out: Vec<usize> = Vec::new();
    let mut x: usize = 0;
    while x < n
        invariant
            tree.wf(),
            n == tree@.len(),
            d < tree@.len(),
            base@ == tree@[d as int].path,
            want == unique_reported(*clones_db, tree@, d as int, recursive),
            x <= n,
            out@ == ids_where(x as int, want),
        decreases n - x,
    {
        let chosen = if tree.kind_of(x) != NodeKind::Directory {
            false
        } else if recursive {
            if !tree.path_of(x).has_ancestor_exact(base) {
                false
            } else if !is_unique_dir_hap(tree.path_of(x), clones_db) {
                false
            } else if x == d {
                true
            } else {
                match tree.parent_of(x) {
                    Some(p) => !is_unique_dir_hap(tree.path_of(p), clones_db),
                    None => true,
                }
            }
        } else {
            tree.parent_of(x) == Some(d) && is_unique_dir_hap(tree.path_of(x), clones_db)
        };
        if chosen {
            out.push(x);
        }
        x = x + 1;
    }
    Some(out)
}

/// One entry met by a walk of a directory on disk: a directory, a file, or something that
/// could not be read (with the error's text).
#[derive(Debug)]
pub enum WalkEntry {
    Directory(String),
    File(String),
    Unreadable(String),
}

/// Why extending the tree from a walk stopped.
#[derive(Debug)]
pub enum WalkError {
    /// An entry could not be read and the policy says to stop.
    Stopped(String),
    /// An entry could not be inserted.
    Insert(InsertChildError),
}

/// What a walk found: the number of directories and of files inserted, and the errors to
/// show.
#[derive(Debug)]
pub struct WalkReport {
    pub dir_count: u64,
    pub file_count: u64,
    pub shown_errors: Vec<String>,
}

pub open spec fn is_dir_entry(e: WalkEntry) -> bool {
    e is Directory
}

pub open spec fn is_file_entry(e: WalkEntry) -> bool {
    e is File
}

/// How many entries of `s` `pred` selects.
pub open spec fn count_entries(s: Seq<WalkEntry>, pred: spec_fn(WalkEntry) -> bool) -> nat
    decreases s.len(),
{
    if s.len() == 0 {
        0
    } else {
        count_entries(s.drop_last(), pred) + if pred(s.last()) {
            1nat
        } else {
            0nat
        }
    }
}

/// The error texts of the unreadable entries of `s`, in order.
pub open spec fn error_texts(s: Seq<WalkEntry>) -> Seq<Seq<char>>
    decreases s.len(),
{
    if s.len() == 0 {
        Seq::empty()
    } else {
        match s.last() {
            WalkEntry::Unreadable(m) => error_texts(s.drop_last()).push(m@),
            _ => error_texts(s.drop_last()),
        }
    }
}

/// The path that an entry names, for a directory or a file.
pub open spec fn entry_path(e: WalkEntry) -> Option<PathModel> {
    match e {
        WalkEntry::Directory(p) => Some(parse_path(p@)),
        WalkEntry::File(p) => Some(parse_path(p@)),
        WalkEntry::Unreadable(_) => None,
    }
}

proof fn lemma_count_bound(s: Seq<WalkEntry>, pred: spec_fn(WalkEntry) -> bool)
    ensures
        count_entries(s, pred) <= s.len(),
    decreases s.len(),
{
    if s.len() > 0 {
        lemma_count_bound(s.drop_last(), pred);
    }
}

/// The kind of node an entry asks for.
pub open spec fn entry_kind(e: WalkEntry) -> NodeKind {
    match e {
        WalkEntry::File(_) => NodeKind::File,
        _ => NodeKind::Directory,
    }
}

/// No file entry's path is a proper, non-root ancestor of another entry's path.
pub open spec fn files_are_leaves(s: Seq<WalkEntry>) -> bool {
    forall|a: int, b: int|
        0 <= a < s.len() && 0 <= b < s.len() && (#[trigger] s[a]) is File && (#[trigger] entry_path(
            s[b],
        )) is Some ==> !(entry_path(s[a])->Some_0.len() >= 1 && entry_path(s[a])->Some_0.len()
            < entry_path(s[b])->Some_0.len() && is_ancestor(
            entry_path(s[a])->Some_0,
            entry_path(s[b])->Some_0,
        ))
}

/// Extending `t` with the entries `s` under `behavior` cannot fail: stopping is not asked
/// for an unreadable entry, no entry lies below a file of `t`, and files are leaves.
pub open spec fn walk_can_succeed(t: Seq<NodeView>, s: Seq<WalkEntry>, behavior: ErrorBehavior) -> bool {
    &&& (behavior != ErrorBehavior::Stop || error_texts(s).len() == 0)
    &&& forall|k: int|
        0 <= k < s.len() && (#[trigger] entry_path(s[k])) is Some ==> !blocked_by_file(
            t,
            entry_path(s[k])->Some_0,
        )
    &&& files_are_leaves(s)
}

/// `q` is an ancestor of the path of one of the first `n` entries.
pub open spec fn under_entries(s: Seq<WalkEntry>, n: int, q: PathModel) -> bool {
    exists|k: int|
        0 <= k < n && (#[trigger] entry_path(s[k])) is Some && is_ancestor(q, entry_path(s[k])->Some_0)
}

/// Entry `k`'s path is new: not in `t` and not an ancestor of an earlier entry's path.
pub open spec fn fresh(t: Seq<NodeView>, s: Seq<WalkEntry>, k: int) -> bool {
    &&& entry_path(s[k]) is Some
    &&& !tree_has(t, entry_path(s[k])->Some_0)
    &&& forall|k2: int|
        0 <= k2 < k && (#[trigger] entry_path(s[k2])) is Some ==> !is_ancestor(
            entry_path(s[k])->Some_0,
            entry_path(s[k2])->Some_0,
        )
}

proof fn lemma_under_step(s: Seq<WalkEntry>, i: int, q: PathModel)
    requires
        0 <= i < s.len(),
    ensures
        under_entries(s, i + 1, q) <==> under_entries(s, i, q) || (entry_path(s[i]) is Some
            && is_ancestor(q, entry_path(s[i])->Some_0)),
{
    if under_entries(s, i + 1, q) && !under_entries(s, i, q) {
        let k = choose|k: int| 0 <= k < i + 1 && (#[trigger] entry_path(s[k])) is Some && is_ancestor(q, entry_path(s[k])->Some_0);
        if k < i {
            assert(under_entries(s, i, q));
        }
    }
    if under_entries(s, i, q) {
        let k = choose|k: int| 0 <= k < i && (#[trigger] entry_path(s[k])) is Some && is_ancestor(q, entry_path(s[k])->Some_0);
        assert(0 <= k < i + 1);
    }
    if entry_path(s[i]) is Some && is_ancestor(q, entry_path(s[i])->Some_0) {
        assert(0 <= i < i + 1 && entry_path(s[i]) is Some);
    }
}

proof fn lemma_error_texts_prefix(s: Seq<WalkEntry>, n: int)
    requires
        0 <= n <= s.len(),
    ensures
        error_texts(s.take(n)).len() <= error_texts(s).len(),
    decreases s.len(),
{
    if n < s.len() {
        assert(s.drop_last().take(n) =~= s.take(n));
        lemma_error_texts_prefix(s.drop_last(), n);
    } else {
        assert(s.take(n) =~= s);
    }
}

/// The kind of insertion an entry asks for.
pub open spec fn entry_path_kind(e: WalkEntry) -> crate::fs::tree::PathKind {
    match e {
        WalkEntry::File(_) => crate::fs::tree::PathKind::File,
        _ => crate::fs::tree::PathKind::Directory,
    }
}

/// What holds of the tree after the first `i` entries of a walk into `t0`.
pub open spec fn walk_state(t0: Seq<NodeView>, t: Seq<NodeView>, s: Seq<WalkEntry>, i: int) -> bool {
    &&& t.len() >= t0.len()
    &&& forall|j: int| 0 <= j < t0.len() ==> (#[trigger] t[j]).path == t0[j].path && t[j].kind == t0[j].kind
    &&& forall|q: PathModel| tree_has(t, q) <==> tree_has(t0, q) || under_entries(s, i, q)
    &&& forall|j: int|
        0 <= j < t.len() && (#[trigger] t[j]).kind == NodeKind::File ==> (j < t0.len() && t0[j].kind
            == NodeKind::File) || exists|k: int|
            0 <= k < i && (#[trigger] s[k]) is File && entry_path(s[k])->Some_0 == t[j].path
    &&& forall|k: int|
        0 <= k < i && #[trigger] fresh(t0, s, k) ==> tree_has_kind(t, entry_path(s[k])->Some_0, entry_kind(s[k]))
}

/// An entry that could not be inserted shows that the walk could not succeed.
proof fn lemma_walk_blocked(t0: Seq<NodeView>, before: Seq<NodeView>, s: Seq<WalkEntry>, i: int, behavior: ErrorBehavior)
    requires
        0 <= i < s.len(),
        walk_state(t0, before, s, i),
        entry_path(s[i]) is Some,
        blocked_by_file(before, entry_path(s[i])->Some_0),
    ensures
        !walk_can_succeed(t0, s, behavior),
{
    let pp = entry_path(s[i])->Some_0;
    let k0 = choose|k0: int| 1 <= k0 < pp.len() && tree_has_kind(before, #[trigger] pp.take(k0), NodeKind::File);
    let j = choose|j: int| 0 <= j < before.len() && (#[trigger] before[j]).path == pp.take(k0) && before[j].kind == NodeKind::File;
    if j < t0.len() && t0[j].kind == NodeKind::File {
        assert(tree_has_kind(t0, pp.take(k0), NodeKind::File));
        assert(blocked_by_file(t0, pp));
    } else {
        let a = choose|a: int| 0 <= a < i && (#[trigger] s[a]) is File && entry_path(s[a])->Some_0 == before[j].path;
        assert(is_ancestor(entry_path(s[a])->Some_0, pp));
        assert(!files_are_leaves(s));
    }
}

/// Inserting entry `i` carries the walk's state over to the first `i + 1` entries.
proof fn lemma_walk_step(t0: Seq<NodeView>, before: Seq<NodeView>, after: Seq<NodeView>, s: Seq<WalkEntry>, i: int, id: int)
    requires
        0 <= i < s.len(),
        walk_state(t0, before, s, i),
        crate::fs::tree::tree_wf(after),
        entry_path(s[i]) is Some,
        crate::fs::tree::inserted(before, after, entry_path(s[i])->Some_0, entry_path_kind(s[i]), id),
    ensures
        walk_state(t0, after, s, i + 1),
{
    let pp = entry_path(s[i])->Some_0;
    assert forall|q: PathModel| tree_has(after, q) <==> tree_has(t0, q) || under_entries(s, i + 1, q) by {
        lemma_under_step(s, i, q);
    }
    assert forall|j: int|
        0 <= j < after.len() && (#[trigger] after[j]).kind == NodeKind::File implies (j < t0.len()
            && t0[j].kind == NodeKind::File) || exists|k: int|
            0 <= k < i + 1 && (#[trigger] s[k]) is File && entry_path(s[k])->Some_0 == after[j].path by {
        if j < before.len() {
            assert(before[j].kind == NodeKind::File);
            if !(j < t0.len() && t0[j].kind == NodeKind::File) {
                let k = choose|k: int| 0 <= k < i && (#[trigger] s[k]) is File && entry_path(s[k])->Some_0 == before[j].path;
                assert(0 <= k < i + 1 && s[k] is File && entry_path(s[k])->Some_0 == after[j].path);
            }
        } else {
            assert(after[j].path == pp);
            if crate::fs::tree::tree_has(before, pp) {
                assert(after == before);
            }
            assert(j == id);
            assert(after[id].kind == entry_path_kind(s[i]).node_kind());
            assert(s[i] is File);
        }
    }
    assert forall|k: int|
        0 <= k < i + 1 && #[trigger] fresh(t0, s, k) implies tree_has_kind(after, entry_path(s[k])->Some_0, entry_kind(s[k])) by {
        if k < i {
            let j = choose|j: int| 0 <= j < before.len() && (#[trigger] before[j]).path == entry_path(s[k])->Some_0 && before[j].kind == entry_kind(s[k]);
            assert(after[j].path == before[j].path);
        } else {
            if tree_has(before, pp) {
                if !tree_has(t0, pp) {
                    let k2 = choose|k2: int| 0 <= k2 < i && (#[trigger] entry_path(s[k2])) is Some && is_ancestor(pp, entry_path(s[k2])->Some_0);
                }
            }
            assert(!tree_has(before, pp));
            assert(after[id].kind == entry_path_kind(s[i]).node_kind());
        }
    }
}

impl FSTree {
    /// Inserts the directories and files that a walk met, in order, applying the error
    /// policy to the entries that could not be read: leave them out, show them, or stop.
    pub fn extend_with_entries(&mut self, entries: &Vec<WalkEntry>, behavior: ErrorBehavior) -> (r:
        Result<WalkReport, WalkError>)
        requires
            old(self).wf(),
        ensures
            final(self).wf(),
            walk_can_succeed(old(self)@, entries@, behavior) ==> r is Ok,
            r is Ok ==> r->Ok_0.dir_count == count_entries(entries@, |e: WalkEntry| is_dir_entry(e)),
            r is Ok ==> r->Ok_0.file_count == count_entries(entries@, |e: WalkEntry| is_file_entry(e)),
            r is Ok ==> r->Ok_0.shown_errors@.map_values(|m: String| m@) == if behavior == ErrorBehavior::Display {
                error_texts(entries@)
            } else {
                Seq::<Seq<char>>::empty()
            },
            r is Ok ==> behavior != ErrorBehavior::Stop || error_texts(entries@).len() == 0,
            r is Ok ==> forall|q: PathModel|
                tree_has(final(self)@, q) <==> tree_has(old(self)@, q) || under_entries(
                    entries@,
                    entries@.len() as int,
                    q,
                ),
            r is Ok ==> forall|k: int|
                0 <= k < entries@.len() && #[trigger] fresh(old(self)@, entries@, k) ==> tree_has_kind(
                    final(self)@,
                    entry_path(entries@[k])->Some_0,
                    entry_kind(entries@[k]),
                ),
            forall|q: PathModel| tree_has(old(self)@, q) ==> tree_has(final(self)@, q),
            r matches Err(WalkError::Stopped(_)) ==> behavior == ErrorBehavior::Stop,
    {
        let ghost s = entries@;
        let ghost t0 = self@;
        let mut dir_count: u64 = 0;
        let mut file_count: u64 = 0;
        let mut shown: Vec<String> = Vec::new();
        let mut i: usize = 0;
        while i < entries.len()
            invariant
                self.wf(),
                s == entries@,
                t0 == old(self)@,
                i <= entries.len(),
                walk_state(t0, self@, s, i as int),
                dir_count == count_entries(s.take(i as int), |e: WalkEntry| is_dir_entry(e)),
                file_count == count_entries(s.take(i as int), |e: WalkEntry| is_file_entry(e)),
                shown@.map_values(|m: String| m@) == if behavior == ErrorBehavior::Display {
                    error_texts(s.take(i as int))
                } else {
                    Seq::<Seq<char>>::empty()
                },
                behavior == ErrorBehavior::Stop ==> error_texts(s.take(i as int)).len() == 0,
            decreases entries.len() - i,
        {
            proof {
                assert(s.take(i + 1).drop_last() =~= s.take(i as int));
                assert(s.take(i + 1).last() == s[i as int]);
                lemma_count_bound(s.take(i as int), |e: WalkEntry| is_dir_entry(e));
                lemma_count_bound(s.take(i as int), |e: WalkEntry| is_file_entry(e));
            }
            let ghost before = self@;
            let ghost p = entry_path(s[i as int]);
            let mut inserted_ok = true;
            let mut failure: Option<InsertChildError> = None;
            let ghost mut new_id: int = 0;
            match &entries[i] {
                WalkEntry::Directory(t) => {
                    match self.insert_directory(t.as_str()) {
                        Ok(node) => {
                            proof {
                                new_id = node.spec_id() as int;
                            }
                        },
                        Err(e) => {
                            inserted_ok = false;
                            failure = Some(e);
                        },
                    }
                },
                WalkEntry::File(t) => {
                    match self.insert_file(t.as_str()) {
                        Ok(node) => {
                            proof {
                                new_id = node.spec_id() as int;
                            }
                        },
                        Err(e) => {
                            inserted_ok = false;
                            failure = Some(e);
                        },
                    }
                },
                WalkEntry::Unreadable(m) => {
                    proof {
                        assert(self@ == before);
                        assert forall|q: PathModel| tree_has(self@, q) <==> tree_has(t0, q) || under_entries(s, i + 1, q) by {
                            lemma_under_step(s, i as int, q);
                        }
                    }
                    match error_action(behavior) {
                        ErrorAction::Skip => {},
                        ErrorAction::Report => {
                            let ghost old_shown = shown@;
                            shown.push(m.clone());
                            assert(shown@.map_values(|m: String| m@) =~= old_shown.map_values(|m: String| m@).push(m@));
                        },
                        ErrorAction::Abort => {
                            proof {
                                lemma_error_texts_prefix(s, i + 1);
                            }
                            return Err(WalkError::Stopped(m.clone()));
                        },
                    }
                },
            }
            if !inserted_ok {
                proof {
                    lemma_walk_blocked(t0, before, s, i as int, behavior);
                }
                match failure {
                    Some(e) => {
                        return Err(WalkError::Insert(e));
                    },
                    None => {
                        return Err(WalkError::Stopped(String::new()));
                    },
                }
            }
            match &entries[i] {
                WalkEntry::Directory(_) => {
                    dir_count = dir_count + 1;
                },
                WalkEntry::File(_) => {
                    file_count = file_count + 1;
                },
                WalkEntry::Unreadable(_) => {},
            }
            proof {
                if p is Some {
                    lemma_walk_step(t0, before, self@, s, i as int, new_id);
                }
            }
            i = i + 1;
        }
        assert(s.take(entries.len() as int) =~= s);
        Ok(WalkReport { dir_count, file_count, shown_errors: shown })
    }
}

} // verus!
