use std::collections::HashMap;
use std::string::ToString;
use vstd::prelude::*;

use crate::path::{
    distinct_hashes, hash_ancestor, hash_member, hash_parent, is_absolute_text, parse_path,
    path_hash, path_sorted, paths_view, resolve_path,
    ref_paths_view, HashedAbsolutePath, HashedAbsolutePathRef, HashedAbsolutePathRefSet,
    HashedAbsolutePathSet,
};

verus! {

broadcast use vstd::std_specs::hash::group_hash_axioms;

/// The model of an absolute path: its components.
pub type PathModel = Seq<Seq<char>>;

/// The entries of `s` that `pred` selects, in order.
pub open spec fn keep(s: Seq<PathModel>, pred: spec_fn(PathModel) -> bool) -> Seq<PathModel>
    decreases s.len(),
{
    if s.len() == 0 {
        Seq::empty()
    } else if pred(s.last()) {
        keep(s.drop_last(), pred).push(s.last())
    } else {
        keep(s.drop_last(), pred)
    }
}

/// `p` lies in `dir`: anywhere below it when `recursive`, else directly in it (by hashes).
pub open spec fn in_dir(p: PathModel, dir: PathModel, recursive: bool) -> bool {
    if recursive {
        hash_ancestor(dir, p)
    } else {
        hash_parent(dir, p)
    }
}

pub open spec fn inside_pred(dir: PathModel, recursive: bool) -> spec_fn(PathModel) -> bool {
    |p: PathModel| in_dir(p, dir, recursive)
}

/// The opposite selection.
pub open spec fn negate(pred: spec_fn(PathModel) -> bool) -> spec_fn(PathModel) -> bool {
    |p: PathModel| !pred(p)
}

pub open spec fn outside_pred(dir: PathModel, recursive: bool) -> spec_fn(PathModel) -> bool {
    negate(inside_pred(dir, recursive))
}

pub open spec fn other_than_pred(h: u64) -> spec_fn(PathModel) -> bool {
    |p: PathModel| path_hash(p) != h
}

/// Files that could be freed by keeping one copy of `n` identical files.
pub open spec fn reclaimable(n: nat) -> nat {
    if n == 0 {
        0
    } else {
        (n - 1) as nat
    }
}

/// Which members a split selects.
enum Selector {
    InDir { dir: HashedAbsolutePath, recursive: bool },
    OtherThan { hash: u64 },
}

impl Selector {
    spec fn pred(&self) -> spec_fn(PathModel) -> bool {
        match self {
            Selector::InDir { dir, recursive } => inside_pred(dir@, *recursive),
            Selector::OtherThan { hash } => other_than_pred(*hash),
        }
    }

    fn selects(&self, p: &HashedAbsolutePathRef) -> (r: bool)
        ensures
            r == (self.pred())(p@),
    {
        match self {
            Selector::InDir { dir, recursive } => {
                if *recursive {
                    p.starts_with_hashed_path(dir)
                } else {
                    p.parent_is_hap(dir)
                }
            },
            Selector::OtherThan { hash } => p.hash() != *hash,
        }
    }
}

/// Where no member of `g` has hash `h`, selecting the members of another hash keeps all.
proof fn lemma_keep_none_removed(g: Seq<PathModel>, h: u64)
    requires
        forall|k: int| 0 <= k < g.len() ==> path_hash(#[trigger] g[k]) != h,
    ensures
        keep(g, other_than_pred(h)).len() == g.len(),
    decreases g.len(),
{
    if g.len() > 0 {
        assert(path_hash(g[g.len() - 1]) != h);
        assert forall|k: int| 0 <= k < g.drop_last().len() implies path_hash(#[trigger] g.drop_last()[k]) != h by {
            assert(g.drop_last()[k] == g[k]);
        }
        lemma_keep_none_removed(g.drop_last(), h);
    }
}

/// Where exactly one member of `g` has hash `h` (the hashes of `g` being distinct), selecting
/// the members of another hash leaves one out.
pub proof fn lemma_keep_one_removed(g: Seq<PathModel>, h: u64)
    requires
        distinct_hashes(g),
        has_hash(g, h),
    ensures
        keep(g, other_than_pred(h)).len() + 1 == g.len(),
    decreases g.len(),
{
    let n = g.len() - 1;
    let d = g.drop_last();
    if path_hash(g[n]) == h {
        assert forall|k: int| 0 <= k < d.len() implies path_hash(#[trigger] d[k]) != h by {
            assert(d[k] == g[k]);
        }
        lemma_keep_none_removed(d, h);
    } else {
        let k0 = choose|k: int| 0 <= k < g.len() && path_hash(#[trigger] g[k]) == h;
        assert(d[k0] == g[k0]);
        assert(distinct_hashes(d)) by {
            assert forall|i: int, j: int| 0 <= i < d.len() && 0 <= j < d.len() && i != j implies path_hash(#[trigger] d[i]) != path_hash(#[trigger] d[j]) by {
                assert(d[i] == g[i]);
                assert(d[j] == g[j]);
            }
        }
        lemma_keep_one_removed(d, h);
    }
}

proof fn lemma_keep_push(s: Seq<PathModel>, x: PathModel, pred: spec_fn(PathModel) -> bool)
    ensures
        keep(s.push(x), pred) == if pred(x) {
            keep(s, pred).push(x)
        } else {
            keep(s, pred)
        },
{
    assert(s.push(x).drop_last() =~= s);
}

/// Splits a set of paths into the members that `sel` selects and the others, keeping order.
fn split_set(files: &HashedAbsolutePathRefSet, sel: &Selector) -> (r: (
    HashedAbsolutePathRefSet,
    HashedAbsolutePathRefSet,
))
    ensures
        r.0@ == keep(files@, sel.pred()),
        r.1@ == keep(files@, negate(sel.pred())),
{
    let ghost pred = sel.pred();
    let ghost npred = negate(sel.pred());
    let ghost s = files@;
    let paths = files.paths();
    let mut yes: Vec<HashedAbsolutePathRef> = Vec::new();
    let mut no: Vec<HashedAbsolutePathRef> = Vec::new();
    let mut i: usize = 0;
    while i < paths.len()
        invariant
            i <= paths.len(),
            s == files@,
            ref_paths_view(paths@) == s,
            distinct_hashes(s),
            pred == sel.pred(),
            npred == negate(sel.pred()),
            ref_paths_view(yes@) == keep(s.take(i as int), pred),
            ref_paths_view(no@) == keep(s.take(i as int), npred),
            distinct_hashes(ref_paths_view(yes@)),
            distinct_hashes(ref_paths_view(no@)),
            forall|k: int|
                0 <= k < yes@.len() ==> exists|j: int|
                    0 <= j < i && path_hash(#[trigger] yes@[k]@) == path_hash(s[j]),
            forall|k: int|
                0 <= k < no@.len() ==> exists|j: int|
                    0 <= j < i && path_hash(#[trigger] no@[k]@) == path_hash(s[j]),
        decreases paths.len() - i,
    {
        let p = paths[i].duplicate();
        proof {
            assert(s.take(i + 1) =~= s.take(i as int).push(s[i as int]));
            lemma_keep_push(s.take(i as int), s[i as int], pred);
            lemma_keep_push(s.take(i as int), s[i as int], npred);
            assert(p@ == s[i as int]);
        }
        let chosen = sel.selects(&p);
        let ghost old_yes = yes@;
        let ghost old_no = no@;
        if chosen {
            yes.push(p);
            proof {
                assert(ref_paths_view(yes@) =~= ref_paths_view(old_yes).push(s[i as int]));
                assert forall|a: int, b: int|
                    0 <= a < yes@.len() && 0 <= b < yes@.len() && a != b implies path_hash(
                        #[trigger] ref_paths_view(yes@)[a],
                    ) != path_hash(#[trigger] ref_paths_view(yes@)[b]) by {
                    if a == old_yes.len() {
                        let j = choose|j: int| 0 <= j < i && path_hash(old_yes[b]@) == path_hash(s[j]);
                        assert(path_hash(s[j]) != path_hash(s[i as int]));
                    } else if b == old_yes.len() {
                        let j = choose|j: int| 0 <= j < i && path_hash(old_yes[a]@) == path_hash(s[j]);
                        assert(path_hash(s[j]) != path_hash(s[i as int]));
                    } else {
                        assert(ref_paths_view(old_yes)[a] == ref_paths_view(yes@)[a]);
                        assert(ref_paths_view(old_yes)[b] == ref_paths_view(yes@)[b]);
                    }
                }
                assert forall|k: int| 0 <= k < yes@.len() implies exists|j: int|
                    0 <= j < i + 1 && path_hash(#[trigger] yes@[k]@) == path_hash(s[j]) by {
                    if k < old_yes.len() {
                        assert(yes@[k] == old_yes[k]);
                    } else {
                        assert(path_hash(yes@[k]@) == path_hash(s[i as int]));
                    }
                }
            }
        } else {
            no.push(p);
            proof {
                assert(ref_paths_view(no@) =~= ref_paths_view(old_no).push(s[i as int]));
                assert forall|a: int, b: int|
                    0 <= a < no@.len() && 0 <= b < no@.len() && a != b implies path_hash(
                        #[trigger] ref_paths_view(no@)[a],
                    ) != path_hash(#[trigger] ref_paths_view(no@)[b]) by {
                    if a == old_no.len() {
                        let j = choose|j: int| 0 <= j < i && path_hash(old_no[b]@) == path_hash(s[j]);
                        assert(path_hash(s[j]) != path_hash(s[i as int]));
                    } else if b == old_no.len() {
                        let j = choose|j: int| 0 <= j < i && path_hash(old_no[a]@) == path_hash(s[j]);
                        assert(path_hash(s[j]) != path_hash(s[i as int]));
                    } else {
                        assert(ref_paths_view(old_no)[a] == ref_paths_view(no@)[a]);
                        assert(ref_paths_view(old_no)[b] == ref_paths_view(no@)[b]);
                    }
                }
                assert forall|k: int| 0 <= k < no@.len() implies exists|j: int|
                    0 <= j < i + 1 && path_hash(#[trigger] no@[k]@) == path_hash(s[j]) by {
                    if k < old_no.len() {
                        assert(no@[k] == old_no[k]);
                    } else {
                        assert(path_hash(no@[k]@) == path_hash(s[i as int]));
                    }
                }
            }
        }
        i = i + 1;
    }
    assert(s.take(paths.len() as int) =~= s);
    (HashedAbsolutePathRefSet::from_distinct(yes), HashedAbsolutePathRefSet::from_distinct(no))
}

/// A duplicate group as its derived view holds it: the file size and the member paths.
#[derive(Debug)]
pub struct CloneRefGroup {
    file_size: u64,
    files: HashedAbsolutePathRefSet,
}

impl View for CloneRefGroup {
    type V = (u64, Seq<PathModel>);

    closed spec fn view(&self) -> (u64, Seq<PathModel>) {
        (self.file_size, self.files@)
    }
}

impl CloneRefGroup {
    pub fn from_parts(file_size: u64, files: HashedAbsolutePathRefSet) -> (r: CloneRefGroup)
        ensures
            r@ == (file_size, files@),
    {
        CloneRefGroup { file_size, files }
    }

    pub fn file_size(&self) -> (r: u64)
        ensures
            r == self@.0,
    {
        self.file_size
    }

    pub fn files(&self) -> (r: &HashedAbsolutePathRefSet)
        ensures
            r@ == self@.1,
    {
        &self.files
    }

    pub fn len(&self) -> (r: usize)
        ensures
            r == self@.1.len(),
    {
        self.files.len()
    }

    pub fn is_empty(&self) -> (r: bool)
        ensures
            r == (self@.1.len() == 0),
    {
        self.files.is_empty()
    }

    /// Whether a member has the hash of `path`.
    pub fn contains(&self, path: &HashedAbsolutePathRef) -> (r: bool)
        ensures
            r == hash_member(self@.1, path@),
    {
        self.files.contains(path)
    }

    pub fn total_count(&self) -> (r: usize)
        ensures
            r == self@.1.len(),
    {
        self.files.len()
    }

    /// The bytes that all members take together.
    pub fn total_size(&self) -> (r: u64)
        requires
            self@.1.len() * self@.0 <= u64::MAX,
        ensures
            r == self@.1.len() * self@.0,
    {
        self.total_count() as u64 * self.file_size
    }

    /// The members beyond the one copy that is kept.
    pub fn reclaimable_count(&self) -> (r: usize)
        ensures
            r == reclaimable(self@.1.len()),
    {
        if self.is_empty() {
            return 0;
        }
        self.files.len() - 1
    }

    /// The bytes that the members beyond the one kept copy take.
    pub fn reclaimable_size(&self) -> (r: u64)
        requires
            reclaimable(self@.1.len()) * self@.0 <= u64::MAX,
        ensures
            r == reclaimable(self@.1.len()) * self@.0,
    {
        self.reclaimable_count() as u64 * self.file_size
    }

    /// The members that do not lie in `dir`, at any depth; `dir` is read as an absolute path.
    pub fn filter_out_dir(&self, dir: &str) -> (r: CloneRefGroup)
        ensures
            r@ == (self@.0, keep(self@.1, outside_pred(parse_path(dir@), true))),
    {
        let dir = HashedAbsolutePath::from_text(dir);
        self.filter_out_dir_hap(&dir)
    }

    /// The members that do not lie in `dir`, at any depth.
    pub fn filter_out_dir_hap(&self, dir: &HashedAbsolutePath) -> (r: CloneRefGroup)
        ensures
            r@ == (self@.0, keep(self@.1, outside_pred(dir@, true))),
    {
        let sel = Selector::InDir { dir: dir.duplicate(), recursive: true };
        let (_inside, outside) = split_set(&self.files, &sel);
        CloneRefGroup { file_size: self.file_size, files: outside }
    }

    pub fn duplicate(&self) -> (r: CloneRefGroup)
        ensures
            r@ == self@,
    {
        let paths = self.files.paths();
        let mut v: Vec<HashedAbsolutePathRef> = Vec::new();
        let mut i: usize = 0;
        while i < paths.len()
            invariant
                i <= paths.len(),
                ref_paths_view(paths@) == self@.1,
                distinct_hashes(self@.1),
                ref_paths_view(v@) == self@.1.take(i as int),
            decreases paths.len() - i,
        {
            let p = paths[i].duplicate();
            assert(p@ == self@.1[i as int]);
            let ghost before = v@;
            v.push(p);
            assert(ref_paths_view(v@) =~= ref_paths_view(before).push(p@));
            assert(self@.1.take(i + 1) =~= self@.1.take(i as int).push(self@.1[i as int]));
            i = i + 1;
        }
        assert(self@.1.take(paths.len() as int) =~= self@.1);
        CloneRefGroup { file_size: self.file_size, files: HashedAbsolutePathRefSet::from_distinct(v) }
    }
}

/// A duplicate group: the size of each member and the member paths, in path order.
#[derive(Debug)]
pub struct CloneGroup {
    file_size: u64,
    files: HashedAbsolutePathSet,
}

impl View for CloneGroup {
    type V = (u64, Seq<PathModel>);

    closed spec fn view(&self) -> (u64, Seq<PathModel>) {
        (self.file_size, self.files@)
    }
}

impl CloneGroup {
    pub fn from_parts(file_size: u64, files: HashedAbsolutePathSet) -> (r: CloneGroup)
        ensures
            r@ == (file_size, files@),
    {
        CloneGroup { file_size, files }
    }

    pub fn file_size(&self) -> (r: u64)
        ensures
            r == self@.0,
    {
        self.file_size
    }

    pub fn files(&self) -> (r: &HashedAbsolutePathSet)
        ensures
            r@ == self@.1,
    {
        &self.files
    }

    pub fn total_count(&self) -> (r: usize)
        ensures
            r == self@.1.len(),
    {
        self.files.len()
    }

    pub fn total_size(&self) -> (r: u64)
        requires
            self@.1.len() * self@.0 <= u64::MAX,
        ensures
            r == self@.1.len() * self@.0,
    {
        self.files.len() as u64 * self.file_size
    }

    pub fn reclaimable_count(&self) -> (r: usize)
        ensures
            r == reclaimable(self@.1.len()),
    {
        if self.files.len() == 0 {
            return 0;
        }
        self.files.len() - 1
    }

    pub fn reclaimable_size(&self) -> (r: u64)
        requires
            reclaimable(self@.1.len()) * self@.0 <= u64::MAX,
        ensures
            r == reclaimable(self@.1.len()) * self@.0,
    {
        self.reclaimable_count() as u64 * self.file_size
    }

    /// The derived view of this group, holding the same paths.
    pub fn to_ref_group(&self) -> (r: CloneRefGroup)
        ensures
            r@ == self@,
    {
        let paths = self.files.paths();
        let mut v: Vec<HashedAbsolutePathRef> = Vec::new();
        let mut i: usize = 0;
        while i < paths.len()
            invariant
                i <= paths.len(),
                paths_view(paths@) == self@.1,
                distinct_hashes(self@.1),
                ref_paths_view(v@) == self@.1.take(i as int),
            decreases paths.len() - i,
        {
            let p = paths[i].to_absolute_path_ref();
            assert(p@ == self@.1[i as int]);
            let ghost before = v@;
            v.push(p);
            assert(ref_paths_view(v@) =~= ref_paths_view(before).push(p@));
            assert(self@.1.take(i + 1) =~= self@.1.take(i as int).push(self@.1[i as int]));
            i = i + 1;
        }
        assert(self@.1.take(paths.len() as int) =~= self@.1);
        CloneRefGroup { file_size: self.file_size, files: HashedAbsolutePathRefSet::from_distinct(v) }
    }
}

/// Counts and sizes of a duplicate group.
pub trait CloneGroupFileCountAndSize {
    fn file_size(&self) -> u64;

    fn total_count(&self) -> usize;
}

/// What keeping one copy of a duplicate group frees.
pub trait CloneGroupReclaimable {
    fn reclaimable_count(&self) -> usize;
}

impl CloneGroupFileCountAndSize for CloneGroup {
    fn file_size(&self) -> u64 {
        CloneGroup::file_size(self)
    }

    fn total_count(&self) -> usize {
        CloneGroup::total_count(self)
    }
}

impl CloneGroupFileCountAndSize for CloneRefGroup {
    fn file_size(&self) -> u64 {
        CloneRefGroup::file_size(self)
    }

    fn total_count(&self) -> usize {
        CloneRefGroup::total_count(self)
    }
}

impl CloneGroupReclaimable for CloneGroup {
    fn reclaimable_count(&self) -> usize {
        CloneGroup::reclaimable_count(self)
    }
}

impl CloneGroupReclaimable for CloneRefGroup {
    fn reclaimable_count(&self) -> usize {
        CloneRefGroup::reclaimable_count(self)
    }
}

/// The other members of the group of one file.
#[derive(Debug)]
pub struct FileClones {
    file_size: u64,
    clones: HashedAbsolutePathRefSet,
}

impl View for FileClones {
    type V = (u64, Seq<PathModel>);

    closed spec fn view(&self) -> (u64, Seq<PathModel>) {
        (self.file_size, self.clones@)
    }
}

impl FileClones {
    pub fn new(file_size: u64, clones: HashedAbsolutePathRefSet) -> (r: FileClones)
        ensures
            r@ == (file_size, clones@),
    {
        FileClones { file_size, clones }
    }

    pub fn file_size(&self) -> (r: u64)
        ensures
            r == self@.0,
    {
        self.file_size
    }

    pub fn clones(&self) -> (r: &HashedAbsolutePathRefSet)
        ensures
            r@ == self@.1,
    {
        &self.clones
    }

    /// The bytes that the other copies take: all of them could go.
    pub fn reclaimable_size(&self) -> (r: u64)
        requires
            self@.1.len() * self@.0 <= u64::MAX,
        ensures
            r == self@.1.len() * self@.0,
    {
        self.clones.len() as u64 * self.file_size
    }
}

/// A duplicate group split by a directory: the members inside it and those outside.
#[derive(Debug)]
pub struct PartitionedDirClones {
    file_size: u64,
    inside: CloneRefGroup,
    outside: CloneRefGroup,
}

impl View for PartitionedDirClones {
    type V = (u64, Seq<PathModel>, Seq<PathModel>);

    closed spec fn view(&self) -> (u64, Seq<PathModel>, Seq<PathModel>) {
        (self.file_size, self.inside@.1, self.outside@.1)
    }
}

impl PartitionedDirClones {
    pub fn new(file_size: u64, inside: CloneRefGroup, outside: CloneRefGroup) -> (r:
        PartitionedDirClones)
        ensures
            r@ == (file_size, inside@.1, outside@.1),
            r.inside_group()@ == inside@,
            r.outside_group()@ == outside@,
    {
        PartitionedDirClones { file_size, inside, outside }
    }

    pub closed spec fn inside_group(&self) -> CloneRefGroup {
        self.inside
    }

    pub closed spec fn outside_group(&self) -> CloneRefGroup {
        self.outside
    }

    pub fn file_size(&self) -> (r: u64)
        ensures
            r == self@.0,
    {
        self.file_size
    }

    pub fn inside(&self) -> (r: &CloneRefGroup)
        ensures
            r@.1 == self@.1,
            r == self.inside_group(),
    {
        &self.inside
    }

    pub fn outside(&self) -> (r: &CloneRefGroup)
        ensures
            r@.1 == self@.2,
            r == self.outside_group(),
    {
        &self.outside
    }

    /// Members inside and outside together.
    pub fn file_count(&self) -> (r: usize)
        requires
            self@.1.len() + self@.2.len() <= usize::MAX,
        ensures
            r == self@.1.len() + self@.2.len(),
    {
        self.inside.len() + self.outside.len()
    }

    pub fn total_size(&self) -> (r: u64)
        requires
            (self@.1.len() + self@.2.len()) * self@.0 <= u64::MAX,
        ensures
            r == (self@.1.len() + self@.2.len()) * self@.0,
    {
        if self.file_size == 0 {
            assert((self@.1.len() + self@.2.len()) * 0 == 0) by (nonlinear_arith);
            return 0;
        }
        let ghost n = self@.1.len() + self@.2.len();
        assert(n <= n * self@.0) by (nonlinear_arith)
            requires
                self@.0 >= 1,
                n >= 0,
        ;
        (self.inside.len() as u64 + self.outside.len() as u64) * self.file_size
    }

    /// The bytes freed by keeping one copy of the whole group.
    pub fn reclaimable_size(&self) -> (r: u64)
        requires
            reclaimable(self@.1.len() + self@.2.len()) * self@.0 <= u64::MAX,
            self@.1.len() + self@.2.len() <= usize::MAX,
        ensures
            r == reclaimable(self@.1.len() + self@.2.len()) * self@.0,
    {
        let file_count = self.file_count();
        if file_count == 0 {
            assert(0 * self@.0 == 0) by (nonlinear_arith);
            return 0;
        }
        (file_count as u64 - 1) * self.file_size
    }

    /// The inside members that could go: all of them when a copy stays outside, else all
    /// but one.
    pub fn inside_reclaimable_count(&self) -> (r: usize)
        ensures
            r == if self@.2.len() == 0 {
                reclaimable(self@.1.len())
            } else {
                self@.1.len()
            },
    {
        if self.outside.is_empty() {
            self.inside.reclaimable_count()
        } else {
            self.inside.total_count()
        }
    }

    /// The bytes that the inside members that could go take, at the inside group's size.
    pub fn inside_reclaimable_size(&self) -> (r: u64)
        requires
            self@.1.len() * self.inside_group()@.0 <= u64::MAX,
        ensures
            r == (if self@.2.len() == 0 {
                reclaimable(self@.1.len())
            } else {
                self@.1.len()
            }) * self.inside_group()@.0,
    {
        let ghost n = self@.1.len();
        let ghost z = self.inside_group()@.0;
        if self.outside.is_empty() {
            assert(reclaimable(n) * z <= n * z) by (nonlinear_arith)
                requires
                    reclaimable(n) <= n,
            ;
            self.inside.reclaimable_size()
        } else {
            self.inside.total_size()
        }
    }
}

/// Some member of `s` has the hash `h`.
pub open spec fn has_hash(s: Seq<PathModel>, h: u64) -> bool {
    exists|k: int| 0 <= k < s.len() && path_hash(#[trigger] s[k]) == h
}

/// Some group of `gs` holds a member with the hash `h`.
pub open spec fn in_some_group(gs: Seq<(u64, Seq<PathModel>)>, h: u64) -> bool {
    exists|i: int| 0 <= i < gs.len() && has_hash(#[trigger] gs[i].1, h)
}

pub open spec fn groups_view(v: Seq<CloneGroup>) -> Seq<(u64, Seq<PathModel>)> {
    v.map_values(|g: CloneGroup| g@)
}

/// The lookup from member hashes to groups is right: its keys are the hashes of all members,
/// and each leads to a group holding a member with that hash.
pub open spec fn index_agrees(gs: Seq<(u64, Seq<PathModel>)>, files: Map<u64, usize>) -> bool {
    &&& forall|h: u64|
        #[trigger] files.contains_key(h) ==> files[h] < gs.len() && has_hash(
            gs[files[h] as int].1,
            h,
        )
    &&& forall|i: int, k: int|
        0 <= i < gs.len() && 0 <= k < gs[i].1.len() ==> files.contains_key(
            path_hash(#[trigger] gs[i].1[k]),
        )
}

/// The split of each group that has members in `dir` into (size, inside, outside), in
/// group order.
pub open spec fn partitions(gs: Seq<(u64, Seq<PathModel>)>, dir: PathModel, recursive: bool) -> Seq<
    (u64, Seq<PathModel>, Seq<PathModel>),
>
    decreases gs.len(),
{
    if gs.len() == 0 {
        Seq::empty()
    } else {
        let prev = partitions(gs.drop_last(), dir, recursive);
        let g = gs.last();
        let inside = keep(g.1, inside_pred(dir, recursive));
        if inside.len() > 0 {
            prev.push((g.0, inside, keep(g.1, outside_pred(dir, recursive))))
        } else {
            prev
        }
    }
}

pub open spec fn partitions_view(v: Seq<PartitionedDirClones>) -> Seq<
    (u64, Seq<PathModel>, Seq<PathModel>),
> {
    v.map_values(|p: PartitionedDirClones| p@)
}

/// The duplicate group index: the groups, their derived views, and the lookup from the hash
/// of each member path to the index of its group.
#[derive(Debug)]
pub struct CloneGroups {
    groups: Vec<CloneGroup>,
    ref_groups: Vec<CloneRefGroup>,
    files: HashMap<u64, usize>,
}

impl View for CloneGroups {
    type V = Seq<(u64, Seq<PathModel>)>;

    closed spec fn view(&self) -> Seq<(u64, Seq<PathModel>)> {
        groups_view(self.groups@)
    }
}

impl CloneGroups {
    #[verifier::type_invariant]
    closed spec fn inv(&self) -> bool {
        &&& self.ref_groups@.len() == self.groups@.len()
        &&& forall|i: int| 0 <= i < self.groups@.len() ==> #[trigger] self.ref_groups@[i]@ == self.groups@[i]@
        &&& forall|i: int| 0 <= i < self@.len() ==> path_sorted(#[trigger] self@[i].1)
        &&& index_agrees(self@, self.files@)
    }

    /// Builds the index over the given groups.
    pub fn from_groups(groups: Vec<CloneGroup>) -> (r: CloneGroups)
        ensures
            r@ == groups_view(groups@),
    {
        let ghost gs = groups_view(groups@);
        let n = groups.len();
        let mut ref_groups: Vec<CloneRefGroup> = Vec::new();
        let mut i: usize = 0;
        while i < n
            invariant
                i <= n,
                n == groups.len(),
                ref_groups@.len() == i,
                forall|j: int| 0 <= j < i ==> #[trigger] ref_groups@[j]@ == groups@[j]@,
                forall|j: int| 0 <= j < i ==> path_sorted((#[trigger] groups@[j])@.1),
            decreases n - i,
        {
            let _members = groups[i].files().paths();
            let rg = groups[i].to_ref_group();
            ref_groups.push(rg);
            i = i + 1;
        }
        let mut files: HashMap<u64, usize> = HashMap::new();
        let mut i: usize = 0;
        while i < n
            invariant
                i <= n,
                n == groups.len(),
                gs == groups_view(groups@),
                gs.len() == n,
                forall|h: u64|
                    #[trigger] files@.contains_key(h) ==> files@[h] < i && has_hash(
                        gs[files@[h] as int].1,
                        h,
                    ),
                forall|a: int, k: int|
                    0 <= a < i && 0 <= k < gs[a].1.len() ==> files@.contains_key(
                        path_hash(#[trigger] gs[a].1[k]),
                    ),
            decreases n - i,
        {
            let members = groups[i].files().paths();
            assert(gs[i as int] == groups@[i as int]@);
            let mut k: usize = 0;
            while k < members.len()
                invariant
                    i < n,
                    n == groups.len(),
                    gs == groups_view(groups@),
                    gs.len() == n,
                    k <= members.len(),
                    paths_view(members@) == gs[i as int].1,
                    forall|h: u64|
                        #[trigger] files@.contains_key(h) ==> files@[h] <= i && has_hash(
                            gs[files@[h] as int].1,
                            h,
                        ),
                    forall|a: int, k2: int|
                        0 <= a < i && 0 <= k2 < gs[a].1.len() ==> files@.contains_key(
                            path_hash(#[trigger] gs[a].1[k2]),
                        ),
                    forall|k2: int|
                        0 <= k2 < k ==> files@.contains_key(path_hash(#[trigger] gs[i as int].1[k2])),
                decreases members.len() - k,
            {
                let h = members[k].hash();
                assert(path_hash(gs[i as int].1[k as int]) == h);
                files.insert(h, i);
                k = k + 1;
            }
            i = i + 1;
        }
        CloneGroups { groups, ref_groups, files }
    }

    /// Builds the groups from (file size, member paths) lists, then the index; a path listed
    /// twice in one list counts once.
    pub fn from_lists(lists: &Vec<(u64, Vec<HashedAbsolutePath>)>) -> (r: CloneGroups)
        ensures
            r@.len() == lists@.len(),
            forall|i: int|
                0 <= i < lists@.len() ==> (#[trigger] r@[i]).0 == lists@[i].0 && forall|
                    q: PathModel,
                | hash_member(r@[i].1, q) <==> hash_member(paths_view(lists@[i].1@), q),
    {
        let mut groups: Vec<CloneGroup> = Vec::new();
        let mut i: usize = 0;
        while i < lists.len()
            invariant
                i <= lists.len(),
                groups@.len() == i,
                forall|j: int|
                    0 <= j < i ==> (#[trigger] groups@[j])@.0 == lists@[j].0 && forall|
                        q: PathModel,
                    | hash_member(groups@[j]@.1, q) <==> hash_member(paths_view(lists@[j].1@), q),
            decreases lists.len() - i,
        {
            let (size, members) = (lists[i].0, &lists[i].1);
            let mut set = HashedAbsolutePathSet::new();
            let mut k: usize = 0;
            while k < members.len()
                invariant
                    k <= members.len(),
                    forall|q: PathModel|
                        hash_member(set@, q) <==> hash_member(paths_view(members@).take(k as int), q),
                decreases members.len() - k,
            {
                let ghost before = set@;
                set.insert(members[k].duplicate());
                proof {
                    let pv = paths_view(members@);
                    assert(pv.take(k + 1) =~= pv.take(k as int).push(pv[k as int]));
                    assert forall|q: PathModel|
                        hash_member(set@, q) <==> hash_member(pv.take(k + 1), q) by {
                        let t = pv.take(k + 1);
                        if hash_member(pv.take(k as int), q) {
                            let j = choose|j: int| 0 <= j < k && path_hash(#[trigger] pv.take(k as int)[j]) == path_hash(q);
                            assert(t[j] == pv.take(k as int)[j]);
                        }
                        if path_hash(q) == path_hash(pv[k as int]) {
                            assert(t[k as int] == pv[k as int]);
                        }
                        if hash_member(t, q) {
                            let j = choose|j: int| 0 <= j < k + 1 && path_hash(#[trigger] t[j]) == path_hash(q);
                            if j < k {
                                assert(pv.take(k as int)[j] == t[j]);
                            }
                        }
                    }
                }
                k = k + 1;
            }
            proof {
                assert(paths_view(members@).take(members.len() as int) =~= paths_view(members@));
            }
            groups.push(CloneGroup::from_parts(size, set));
            i = i + 1;
        }
        let r = CloneGroups::from_groups(groups);
        proof {
            assert forall|i: int| 0 <= i < lists@.len() implies (#[trigger] r@[i]).0 == lists@[i].0 && forall|
                q: PathModel,
            | hash_member(r@[i].1, q) <==> hash_member(paths_view(lists@[i].1@), q) by {
                assert(r@[i] == groups@[i]@);
            }
        }
        r
    }

    pub fn len(&self) -> (r: usize)
        ensures
            r == self@.len(),
    {
        self.groups.len()
    }

    /// The groups, in the order they were given.
    pub fn groups(&self) -> (r: &Vec<CloneGroup>)
        ensures
            groups_view(r@) == self@,
            forall|i: int| 0 <= i < self@.len() ==> path_sorted(#[trigger] self@[i].1),
    {
        proof {
            use_type_invariant(self);
        }
        &self.groups
    }

    /// The derived views of the groups, one for each group, in the same order.
    pub fn ref_groups(&self) -> (r: &Vec<CloneRefGroup>)
        ensures
            r@.len() == self@.len(),
            forall|i: int| 0 <= i < r@.len() ==> (#[trigger] r@[i])@ == self@[i],
    {
        proof {
            use_type_invariant(self);
        }
        &self.ref_groups
    }

    /// The index of the group that the lookup gives for a member hash.
    pub closed spec fn index_of_hash(&self, h: u64) -> Option<usize> {
        if self.files@.contains_key(h) {
            Some(self.files@[h])
        } else {
            None
        }
    }

    /// The index of the group that holds a member with the hash of `path`.
    pub fn group_index_of(&self, path: &HashedAbsolutePath) -> (r: Option<usize>)
        ensures
            r == self.index_of_hash(path_hash(path@)),
            r is Some <==> in_some_group(self@, path_hash(path@)),
            r is Some ==> r->Some_0 < self@.len() && has_hash(
                self@[r->Some_0 as int].1,
                path_hash(path@),
            ),
    {
        proof {
            use_type_invariant(self);
        }
        let h = path.hash();
        match self.files.get(&h) {
            Some(i) => Some(*i),
            None => {
                proof {
                    if in_some_group(self@, h) {
                        let i = choose|i: int| 0 <= i < self@.len() && has_hash(#[trigger] self@[i].1, h);
                        let k = choose|k: int| 0 <= k < self@[i].1.len() && path_hash(#[trigger] self@[i].1[k]) == h;
                        assert(self.files@.contains_key(path_hash(self@[i].1[k])));
                    }
                }
                None
            },
        }
    }

    /// The group of `path`, as its derived view.
    pub fn clone_group_hap(&self, path: &HashedAbsolutePath) -> (r: Option<&CloneRefGroup>)
        ensures
            r is Some <==> in_some_group(self@, path_hash(path@)),
            r is Some <==> self.index_of_hash(path_hash(path@)) is Some,
            r is Some ==> r->Some_0@ == self@[self.index_of_hash(path_hash(path@))->Some_0 as int],
            r is Some ==> has_hash(self@[self.index_of_hash(path_hash(path@))->Some_0 as int].1, path_hash(path@)),
            r is Some ==> exists|i: int|
                0 <= i < self@.len() && has_hash(self@[i].1, path_hash(path@)) && r->Some_0@
                    == #[trigger] self@[i],
    {
        proof {
            use_type_invariant(self);
        }
        match self.group_index_of(path) {
            Some(i) => {
                assert(self.ref_groups@[i as int]@ == self@[i as int]);
                Some(&self.ref_groups[i])
            },
            None => None,
        }
    }

    /// The group of the file that `path` names, as its derived view.
    pub fn clone_group(&self, path: &str) -> (r: Option<&CloneRefGroup>)
        ensures
            r is Some <==> in_some_group(self@, path_hash(parse_path(path@))),
            r is Some ==> exists|i: int|
                0 <= i < self@.len() && has_hash(self@[i].1, path_hash(parse_path(path@)))
                    && r->Some_0@ == #[trigger] self@[i],
    {
        let p = HashedAbsolutePath::from_text(path);
        self.clone_group_hap(&p)
    }

    /// Whether the file that `path` names is a member of some group.
    pub fn file_is_a_clone(&self, path: &str) -> (r: bool)
        ensures
            r == in_some_group(self@, path_hash(parse_path(path@))),
    {
        let p = HashedAbsolutePath::from_text(path);
        self.group_index_of(&p).is_some()
    }

    /// The other members of the group of `file`, with its file size.
    pub fn file_clones_hap(&self, file: &HashedAbsolutePath) -> (r: Option<FileClones>)
        ensures
            r is Some <==> in_some_group(self@, path_hash(file@)),
            r is Some <==> self.index_of_hash(path_hash(file@)) is Some,
            r is Some ==> exists|i: int|
                0 <= i < self@.len() && has_hash(self@[i].1, path_hash(file@)) && r->Some_0@ == (
                    self@[i].0,
                    keep(#[trigger] self@[i].1, other_than_pred(path_hash(file@))),
                ),
            r is Some ==> self.index_of_hash(path_hash(file@)) is Some && r->Some_0@ == (
                self@[self.index_of_hash(path_hash(file@))->Some_0 as int].0,
                keep(self@[self.index_of_hash(path_hash(file@))->Some_0 as int].1, other_than_pred(path_hash(file@))),
            ) && r->Some_0@.1.len() + 1 == self@[self.index_of_hash(path_hash(file@))->Some_0 as int].1.len(),
    {
        match self.clone_group_hap(file) {
            Some(group) => {
                let ghost i = self.index_of_hash(path_hash(file@))->Some_0 as int;
                let members = group.files().paths();
                proof {
                    lemma_keep_one_removed(group@.1, path_hash(file@));
                }
                let sel = Selector::OtherThan { hash: file.hash() };
                let (others, _same) = split_set(group.files(), &sel);
                Some(FileClones::new(group.file_size(), others))
            },
            None => None,
        }
    }

    /// The other members of the group of the file that `path` names.
    pub fn file_clones(&self, path: &str) -> (r: Option<FileClones>)
        ensures
            r is Some <==> in_some_group(self@, path_hash(parse_path(path@))),
            r is Some ==> exists|i: int|
                0 <= i < self@.len() && has_hash(self@[i].1, path_hash(parse_path(path@)))
                    && r->Some_0@ == (
                    self@[i].0,
                    keep(#[trigger] self@[i].1, other_than_pred(path_hash(parse_path(path@)))),
                ),
            r is Some ==> self.index_of_hash(path_hash(parse_path(path@))) is Some && r->Some_0@.1.len() + 1
                == self@[self.index_of_hash(path_hash(parse_path(path@)))->Some_0 as int].1.len(),
    {
        let p = HashedAbsolutePath::from_text(path);
        self.file_clones_hap(&p)
    }

    /// For each group with members in `dir` (directly in it, or at any depth when
    /// `recursive`), the split into members inside and outside, in group order.
    pub fn dir_clone_groups_hap(&self, dir: &HashedAbsolutePath, recursive: bool) -> (r: Vec<
        PartitionedDirClones,
    >)
        ensures
            partitions_view(r@) == partitions(self@, dir@, recursive),
            forall|j: int|
                0 <= j < r@.len() ==> (#[trigger] r@[j]).inside_group()@.0 == r@[j]@.0
                    && r@[j].outside_group()@.0 == r@[j]@.0,
    {
        proof {
            use_type_invariant(self);
        }
        let ghost gs = self@;
        let sel = Selector::InDir { dir: dir.duplicate(), recursive };
        let mut out: Vec<PartitionedDirClones> = Vec::new();
        let mut i: usize = 0;
        while i < self.ref_groups.len()
            invariant
                i <= self.ref_groups.len(),
                gs == self@,
                self.ref_groups@.len() == gs.len(),
                forall|j: int| 0 <= j < gs.len() ==> #[trigger] self.ref_groups@[j]@ == gs[j],
                sel.pred() == inside_pred(dir@, recursive),
                partitions_view(out@) == partitions(gs.take(i as int), dir@, recursive),
                forall|j: int|
                    0 <= j < out@.len() ==> (#[trigger] out@[j]).inside_group()@.0 == out@[j]@.0
                        && out@[j].outside_group()@.0 == out@[j]@.0,
            decreases self.ref_groups.len() - i,
        {
            let group = &self.ref_groups[i];
            let (inside, outside) = split_set(group.files(), &sel);
            proof {
                assert(gs.take(i + 1).drop_last() =~= gs.take(i as int));
                assert(gs.take(i + 1).last() == gs[i as int]);
                assert(group@ == gs[i as int]);
            }
            if !inside.is_empty() {
                let size = group.file_size();
                let p = PartitionedDirClones::new(
                    size,
                    CloneRefGroup::from_parts(size, inside),
                    CloneRefGroup::from_parts(size, outside),
                );
                let ghost before = out@;
                out.push(p);
                assert(partitions_view(out@) =~= partitions_view(before).push(p@));
            }
            i = i + 1;
        }
        assert(gs.take(self.ref_groups.len() as int) =~= gs);
        out
    }

    /// The split of each group with members in the directory that `dir` names.
    pub fn dir_clone_groups(&self, dir: &str, recursive: bool) -> (r: Vec<PartitionedDirClones>)
        ensures
            partitions_view(r@) == partitions(self@, parse_path(dir@), recursive),
    {
        let d = HashedAbsolutePath::from_text(dir);
        self.dir_clone_groups_hap(&d, recursive)
    }
}

impl From<Vec<(u64, Vec<HashedAbsolutePath>)>> for CloneGroups {
    fn from(lists: Vec<(u64, Vec<HashedAbsolutePath>)>) -> Self {
        CloneGroups::from_lists(&lists)
    }
}

impl vstd::std_specs::convert::FromSpecImpl<Vec<(u64, Vec<HashedAbsolutePath>)>> for CloneGroups {
    open spec fn obeys_from_spec() -> bool {
        false
    }

    open spec fn from_spec(v: Vec<(u64, Vec<HashedAbsolutePath>)>) -> CloneGroups {
        arbitrary()
    }
}

/// The members of all groups that `pred` selects, group after group.
pub open spec fn concat_kept(gs: Seq<(u64, Seq<PathModel>)>, pred: spec_fn(PathModel) -> bool) -> Seq<
    PathModel,
>
    decreases gs.len(),
{
    if gs.len() == 0 {
        Seq::empty()
    } else {
        concat_kept(gs.drop_last(), pred) + keep(gs.last().1, pred)
    }
}

pub open spec fn any_pred() -> spec_fn(PathModel) -> bool {
    |p: PathModel| true
}

/// The paths that remain to be handed out, in order.
#[derive(Debug)]
pub struct PathRefQueue {
    items: Vec<HashedAbsolutePathRef>,
    pos: usize,
}

impl View for PathRefQueue {
    type V = Seq<PathModel>;

    closed spec fn view(&self) -> Seq<PathModel> {
        ref_paths_view(self.items@).skip(self.pos as int)
    }
}

impl PathRefQueue {
    #[verifier::type_invariant]
    closed spec fn inv(&self) -> bool {
        self.pos <= self.items@.len()
    }

    pub fn new(items: Vec<HashedAbsolutePathRef>) -> (r: PathRefQueue)
        ensures
            r@ == ref_paths_view(items@),
    {
        let r = PathRefQueue { items, pos: 0 };
        assert(r@ =~= ref_paths_view(r.items@));
        r
    }

    pub fn empty() -> (r: PathRefQueue)
        ensures
            r@.len() == 0,
    {
        PathRefQueue::new(Vec::new())
    }

    /// Hands out the next path.
    pub fn next(&mut self) -> (r: Option<HashedAbsolutePathRef>)
        ensures
            old(self)@.len() == 0 ==> r is None && final(self)@ == old(self)@,
            old(self)@.len() > 0 ==> r is Some && r->Some_0@ == old(self)@[0] && final(self)@
                == old(self)@.drop_first(),
    {
        proof {
            use_type_invariant(&*self);
        }
        if self.pos < self.items.len() {
            let p = self.items[self.pos].duplicate();
            let ghost before = self@;
            self.pos = self.pos + 1;
            assert(self@ =~= before.drop_first());
            Some(p)
        } else {
            None
        }
    }

    /// The paths that remain, in order.
    pub fn remaining(&self) -> (r: Vec<HashedAbsolutePathRef>)
        ensures
            ref_paths_view(r@) == self@,
    {
        proof {
            use_type_invariant(self);
        }
        let mut out: Vec<HashedAbsolutePathRef> = Vec::new();
        let mut i: usize = self.pos;
        while i < self.items.len()
            invariant
                self.pos <= i <= self.items.len(),
                ref_paths_view(out@) == ref_paths_view(self.items@).subrange(
                    self.pos as int,
                    i as int,
                ),
            decreases self.items.len() - i,
        {
            let p = self.items[i].duplicate();
            let ghost before = out@;
            out.push(p);
            assert(ref_paths_view(out@) =~= ref_paths_view(before).push(p@));
            assert(ref_paths_view(self.items@).subrange(self.pos as int, i + 1) =~= ref_paths_view(
                self.items@,
            ).subrange(self.pos as int, i as int).push(p@));
            i = i + 1;
        }
        assert(self@ =~= ref_paths_view(self.items@).subrange(
            self.pos as int,
            self.items@.len() as int,
        ));
        out
    }
}

/// Appends the members of `files` that `sel` selects (all of them when `sel` is None).
fn push_selected(
    out: &mut Vec<HashedAbsolutePathRef>,
    files: &HashedAbsolutePathRefSet,
    sel: &Option<Selector>,
)
    ensures
        ref_paths_view(final(out)@) == ref_paths_view(old(out)@) + keep(
            files@,
            match sel {
                Some(s) => s.pred(),
                None => any_pred(),
            },
        ),
{
    let ghost pred = match sel {
        Some(s) => s.pred(),
        None => any_pred(),
    };
    let ghost start = ref_paths_view(out@);
    let paths = files.paths();
    let mut i: usize = 0;
    while i < paths.len()
        invariant
            i <= paths.len(),
            ref_paths_view(paths@) == files@,
            pred == match sel {
                Some(s) => s.pred(),
                None => any_pred(),
            },
            ref_paths_view(out@) == start + keep(files@.take(i as int), pred),
        decreases paths.len() - i,
    {
        let p = paths[i].duplicate();
        proof {
            assert(files@.take(i + 1) =~= files@.take(i as int).push(files@[i as int]));
            lemma_keep_push(files@.take(i as int), files@[i as int], pred);
        }
        let chosen = match sel {
            Some(s) => s.selects(&p),
            None => true,
        };
        if chosen {
            let ghost before = out@;
            out.push(p);
            assert(ref_paths_view(out@) =~= ref_paths_view(before).push(p@));
        }
        i = i + 1;
    }
    assert(files@.take(paths.len() as int) =~= files@);
}

impl CloneGroups {
    /// The members of all groups that `sel` selects, group after group.
    fn collect_members(&self, sel: &Option<Selector>) -> (r: Vec<HashedAbsolutePathRef>)
        ensures
            ref_paths_view(r@) == concat_kept(
                self@,
                match sel {
                    Some(s) => s.pred(),
                    None => any_pred(),
                },
            ),
    {
        proof {
            use_type_invariant(self);
        }
        let ghost pred = match sel {
            Some(s) => s.pred(),
            None => any_pred(),
        };
        let ghost gs = self@;
        let mut out: Vec<HashedAbsolutePathRef> = Vec::new();
        let mut i: usize = 0;
        while i < self.ref_groups.len()
            invariant
                i <= self.ref_groups.len(),
                gs == self@,
                self.ref_groups@.len() == gs.len(),
                forall|j: int| 0 <= j < gs.len() ==> #[trigger] self.ref_groups@[j]@ == gs[j],
                pred == match sel {
                    Some(s) => s.pred(),
                    None => any_pred(),
                },
                ref_paths_view(out@) == concat_kept(gs.take(i as int), pred),
            decreases self.ref_groups.len() - i,
        {
            assert(self.ref_groups@[i as int]@ == gs[i as int]);
            push_selected(&mut out, self.ref_groups[i].files(), sel);
            assert(gs.take(i + 1).drop_last() =~= gs.take(i as int));
            assert(gs.take(i + 1).last() == gs[i as int]);
            i = i + 1;
        }
        assert(gs.take(self.ref_groups.len() as int) =~= gs);
        out
    }

    /// Every member of every group, group after group.
    pub fn files_iter(&self) -> (r: CloneFilesIter)
        ensures
            r@ == concat_kept(self@, any_pred()),
    {
        let items = self.collect_members(&None);
        CloneFilesIter { queue: PathRefQueue::new(items) }
    }

    /// The members that lie in `dir` (directly, or at any depth when `recursive`).
    pub fn dir_clone_files_iter_hap(&self, dir: &HashedAbsolutePath, recursive: bool) -> (r:
        DirCloneFilesIter)
        ensures
            r@ == concat_kept(self@, inside_pred(dir@, recursive)),
    {
        let sel = Some(Selector::InDir { dir: dir.duplicate(), recursive });
        let items = self.collect_members(&sel);
        DirCloneFilesIter { queue: PathRefQueue::new(items) }
    }

    /// The members that lie in the directory that `dir` names.
    pub fn dir_clone_files_iter(&self, dir: &str, recursive: bool) -> (r: DirCloneFilesIter)
        ensures
            r@ == concat_kept(self@, inside_pred(parse_path(dir@), recursive)),
    {
        let d = HashedAbsolutePath::from_text(dir);
        self.dir_clone_files_iter_hap(&d, recursive)
    }

    /// The other members of the group of `file`; none when it is in no group.
    pub fn file_clones_iter_hap(&self, file: &HashedAbsolutePath) -> (r: FileClonesIter)
        ensures
            !in_some_group(self@, path_hash(file@)) ==> r@.len() == 0,
            in_some_group(self@, path_hash(file@)) ==> exists|i: int|
                0 <= i < self@.len() && has_hash(self@[i].1, path_hash(file@)) && r@ == keep(
                    #[trigger] self@[i].1,
                    other_than_pred(path_hash(file@)),
                ),
            r@ == self.file_listing(path_hash(file@)),
    {
        match self.file_clones_hap(file) {
            Some(clones) => {
                let mut items: Vec<HashedAbsolutePathRef> = Vec::new();
                push_selected(&mut items, clones.clones(), &None);
                proof {
                    lemma_keep_all(clones@.1);
                    assert(ref_paths_view(items@) =~= clones@.1);
                }
                FileClonesIter { queue: PathRefQueue::new(items) }
            },
            None => FileClonesIter { queue: PathRefQueue::empty() },
        }
    }

    /// The other members of the group of the file that `path` names.
    pub fn file_clones_iter(&self, path: &str) -> (r: FileClonesIter)
        ensures
            !in_some_group(self@, path_hash(parse_path(path@))) ==> r@.len() == 0,
            in_some_group(self@, path_hash(parse_path(path@))) ==> exists|i: int|
                0 <= i < self@.len() && has_hash(self@[i].1, path_hash(parse_path(path@))) && r@
                    == keep(#[trigger] self@[i].1, other_than_pred(path_hash(parse_path(path@)))),
    {
        let p = HashedAbsolutePath::from_text(path);
        self.file_clones_iter_hap(&p)
    }
}

proof fn lemma_keep_all(s: Seq<PathModel>)
    ensures
        keep(s, any_pred()) == s,
    decreases s.len(),
{
    if s.len() > 0 {
        lemma_keep_all(s.drop_last());
        assert(s.drop_last().push(s.last()) =~= s);
    }
}

/// Every member of every group, handed out one at a time.
#[derive(Debug)]
pub struct CloneFilesIter {
    queue: PathRefQueue,
}

/// The group members in one directory, handed out one at a time.
#[derive(Debug)]
pub struct DirCloneFilesIter {
    queue: PathRefQueue,
}

/// The other members of one file's group, handed out one at a time.
#[derive(Debug)]
pub struct FileClonesIter {
    queue: PathRefQueue,
}

impl View for CloneFilesIter {
    type V = Seq<PathModel>;

    closed spec fn view(&self) -> Seq<PathModel> {
        self.queue@
    }
}

impl View for DirCloneFilesIter {
    type V = Seq<PathModel>;

    closed spec fn view(&self) -> Seq<PathModel> {
        self.queue@
    }
}

impl View for FileClonesIter {
    type V = Seq<PathModel>;

    closed spec fn view(&self) -> Seq<PathModel> {
        self.queue@
    }
}

impl CloneFilesIter {
    pub fn next(&mut self) -> (r: Option<HashedAbsolutePathRef>)
        ensures
            old(self)@.len() == 0 ==> r is None && final(self)@ == old(self)@,
            old(self)@.len() > 0 ==> r is Some && r->Some_0@ == old(self)@[0] && final(self)@
                == old(self)@.drop_first(),
    {
        self.queue.next()
    }

    pub fn remaining(&self) -> (r: Vec<HashedAbsolutePathRef>)
        ensures
            ref_paths_view(r@) == self@,
    {
        self.queue.remaining()
    }
}

impl DirCloneFilesIter {
    pub fn next(&mut self) -> (r: Option<HashedAbsolutePathRef>)
        ensures
            old(self)@.len() == 0 ==> r is None && final(self)@ == old(self)@,
            old(self)@.len() > 0 ==> r is Some && r->Some_0@ == old(self)@[0] && final(self)@
                == old(self)@.drop_first(),
    {
        self.queue.next()
    }

    pub fn remaining(&self) -> (r: Vec<HashedAbsolutePathRef>)
        ensures
            ref_paths_view(r@) == self@,
    {
        self.queue.remaining()
    }
}

impl FileClonesIter {
    pub fn next(&mut self) -> (r: Option<HashedAbsolutePathRef>)
        ensures
            old(self)@.len() == 0 ==> r is None && final(self)@ == old(self)@,
            old(self)@.len() > 0 ==> r is Some && r->Some_0@ == old(self)@[0] && final(self)@
                == old(self)@.drop_first(),
    {
        self.queue.next()
    }

    pub fn remaining(&self) -> (r: Vec<HashedAbsolutePathRef>)
        ensures
            ref_paths_view(r@) == self@,
    {
        self.queue.remaining()
    }
}

/// How `size` writes a byte count for people to read.
pub uninterp spec fn human_size(bytes: u64) -> Seq<char>;

/// Relies on the `size` crate: `Size::from_bytes` and its `Display`, which depend on the
/// byte count alone.
#[verifier::external_body]
pub(crate) fn human_size_text(bytes: u64) -> (r: String)
    ensures
        r@ == human_size(bytes),
{
    size::Size::from_bytes(bytes).to_string()
}

pub type PartModel = (u64, Seq<PathModel>, Seq<PathModel>);

/// The inside members of a split group that could go.
pub open spec fn inside_reclaimable(p: PartModel) -> nat {
    if p.2.len() == 0 {
        reclaimable(p.1.len())
    } else {
        p.1.len()
    }
}

pub open spec fn part_total_size(p: PartModel) -> nat {
    ((p.1.len() + p.2.len()) * p.0) as nat
}

pub open spec fn part_reclaimable_size(p: PartModel) -> nat {
    (inside_reclaimable(p) * p.0) as nat
}

pub open spec fn part_reclaimable_count(p: PartModel) -> nat {
    inside_reclaimable(p)
}

pub open spec fn total_size_weight() -> spec_fn(PartModel) -> nat {
    |p: PartModel| part_total_size(p)
}

pub open spec fn reclaimable_count_weight() -> spec_fn(PartModel) -> nat {
    |p: PartModel| part_reclaimable_count(p)
}

pub open spec fn reclaimable_size_weight() -> spec_fn(PartModel) -> nat {
    |p: PartModel| part_reclaimable_size(p)
}

/// The three totals over the split groups fit their integer types.
pub open spec fn totals_fit(ps: Seq<PartModel>) -> bool {
    &&& sum_by(ps, total_size_weight()) <= u64::MAX
    &&& sum_by(ps, reclaimable_count_weight()) <= usize::MAX
    &&& sum_by(ps, reclaimable_size_weight()) <= u64::MAX
}

/// The sum of `w` over the split groups.
pub open spec fn sum_by(ps: Seq<PartModel>, w: spec_fn(PartModel) -> nat) -> nat
    decreases ps.len(),
{
    if ps.len() == 0 {
        0
    } else {
        sum_by(ps.drop_last(), w) + w(ps.last())
    }
}

pub proof fn lemma_sum_prefix(ps: Seq<PartModel>, w: spec_fn(PartModel) -> nat, i: int)
    requires
        0 <= i <= ps.len(),
    ensures
        sum_by(ps.take(i), w) <= sum_by(ps, w),
    decreases ps.len(),
{
    if i < ps.len() {
        assert(ps.drop_last().take(i) =~= ps.take(i));
        lemma_sum_prefix(ps.drop_last(), w, i);
    } else {
        assert(ps.take(i) =~= ps);
    }
}

pub proof fn lemma_sum_step(ps: Seq<PartModel>, w: spec_fn(PartModel) -> nat, i: int)
    requires
        0 <= i < ps.len(),
    ensures
        sum_by(ps.take(i + 1), w) == sum_by(ps.take(i), w) + w(ps[i]),
{
    assert(ps.take(i + 1).drop_last() =~= ps.take(i));
}

/// Totals over the groups split by a directory.
#[derive(Debug, Clone, Copy, PartialEq, Eq, Structural)]
pub struct DirCloneFilesStats {
    pub total_size: u64,
    pub reclaimable_count: usize,
    pub reclaimable_size: u64,
}

impl DirCloneFilesStats {
    pub fn new(total_size: u64, reclaimable_count: usize, reclaimable_size: u64) -> (r:
        DirCloneFilesStats)
        ensures
            r == (DirCloneFilesStats { total_size, reclaimable_count, reclaimable_size }),
    {
        DirCloneFilesStats { total_size, reclaimable_count, reclaimable_size }
    }

    pub fn total_size(&self) -> (r: u64)
        ensures
            r == self.total_size,
    {
        self.total_size
    }

    pub fn reclaimable_count(&self) -> (r: usize)
        ensures
            r == self.reclaimable_count,
    {
        self.reclaimable_count
    }

    pub fn reclaimable_size(&self) -> (r: u64)
        ensures
            r == self.reclaimable_size,
    {
        self.reclaimable_size
    }

    /// The field-wise sum of two totals.
    pub fn add(&self, other: &DirCloneFilesStats) -> (r: DirCloneFilesStats)
        requires
            self.total_size + other.total_size <= u64::MAX,
            self.reclaimable_count + other.reclaimable_count <= usize::MAX,
            self.reclaimable_size + other.reclaimable_size <= u64::MAX,
        ensures
            r.total_size == self.total_size + other.total_size,
            r.reclaimable_count == self.reclaimable_count + other.reclaimable_count,
            r.reclaimable_size == self.reclaimable_size + other.reclaimable_size,
    {
        DirCloneFilesStats {
            total_size: self.total_size + other.total_size,
            reclaimable_count: self.reclaimable_count + other.reclaimable_count,
            reclaimable_size: self.reclaimable_size + other.reclaimable_size,
        }
    }

    pub fn total_size_human(&self) -> (r: String)
        ensures
            r@ == human_size(self.total_size),
    {
        human_size_text(self.total_size)
    }

    pub fn reclaimable_size_human(&self) -> (r: String)
        ensures
            r@ == human_size(self.reclaimable_size),
    {
        human_size_text(self.reclaimable_size)
    }
}

/// The group members in a directory, with the totals over their groups.
#[derive(Debug)]
pub struct DirCloneFiles {
    stats: DirCloneFilesStats,
    clones: HashedAbsolutePathRefSet,
}

impl DirCloneFiles {
    pub closed spec fn spec_stats(&self) -> DirCloneFilesStats {
        self.stats
    }

    pub closed spec fn spec_clones(&self) -> Seq<PathModel> {
        self.clones@
    }

    pub fn stats(&self) -> (r: &DirCloneFilesStats)
        ensures
            *r == self.spec_stats(),
    {
        &self.stats
    }

    pub fn clones(&self) -> (r: &HashedAbsolutePathRefSet)
        ensures
            r@ == self.spec_clones(),
    {
        &self.clones
    }
}

impl CloneGroups {
    /// The members in `dir` (each hash once) and, over the groups with members there: the
    /// bytes of all their members, and the inside members that could go, with their bytes.
    /// None when one of these totals does not fit its integer type.
    pub fn dir_clone_files_hap(&self, dir: &HashedAbsolutePath, recursive: bool) -> (r: Option<
        DirCloneFiles,
    >)
        ensures
            r is Some <==> totals_fit(partitions(self@, dir@, recursive)),
            r is Some ==> r->Some_0.spec_stats().total_size == sum_by(
                partitions(self@, dir@, recursive),
                total_size_weight(),
            ) && r->Some_0.spec_stats().reclaimable_count == sum_by(
                partitions(self@, dir@, recursive),
                reclaimable_count_weight(),
            ) && r->Some_0.spec_stats().reclaimable_size == sum_by(
                partitions(self@, dir@, recursive),
                reclaimable_size_weight(),
            ),
            r is Some ==> forall|q: PathModel|
                hash_member(r->Some_0.spec_clones(), q) <==> hash_member(
                    concat_kept(self@, inside_pred(dir@, recursive)),
                    q,
                ),
    {
        let ghost ps = partitions(self@, dir@, recursive);
        let ghost wt = total_size_weight();
        let ghost wc = reclaimable_count_weight();
        let ghost ws = reclaimable_size_weight();
        let groups = self.dir_clone_groups_hap(dir, recursive);
        let mut total_size: u64 = 0;
        let mut reclaimable_count: usize = 0;
        let mut reclaimable_size: u64 = 0;
        let mut i: usize = 0;
        while i < groups.len()
            invariant
                i <= groups.len(),
                partitions_view(groups@) == ps,
                ps == partitions(self@, dir@, recursive),
                forall|j: int|
                    0 <= j < groups@.len() ==> (#[trigger] groups@[j]).inside_group()@.0
                        == groups@[j]@.0 && groups@[j].outside_group()@.0 == groups@[j]@.0,
                wt == total_size_weight(),
                wc == reclaimable_count_weight(),
                ws == reclaimable_size_weight(),
                total_size == sum_by(ps.take(i as int), wt),
                reclaimable_count == sum_by(ps.take(i as int), wc),
                reclaimable_size == sum_by(ps.take(i as int), ws),
            decreases groups.len() - i,
        {
            let g = &groups[i];
            let ghost a = g@.1.len();
            let ghost b = g@.2.len();
            let ghost z = g@.0;
            let ghost q = inside_reclaimable(g@);
            proof {
                lemma_sum_step(ps, wt, i as int);
                lemma_sum_step(ps, wc, i as int);
                lemma_sum_step(ps, ws, i as int);
                lemma_sum_prefix(ps, wt, i + 1);
                lemma_sum_prefix(ps, wc, i + 1);
                lemma_sum_prefix(ps, ws, i + 1);
                assert(ps[i as int] == g@);
                assert((a + b) * z >= 0) by (nonlinear_arith)
                    requires
                        a >= 0,
                        b >= 0,
                        z >= 0,
                ;
                assert(q * z >= 0) by (nonlinear_arith)
                    requires
                        q >= 0,
                        z >= 0,
                ;
                assert(wt(ps[i as int]) == (a + b) * z);
                assert(wc(ps[i as int]) == q);
                assert(ws(ps[i as int]) == q * z);
                assert(sum_by(ps, wt) >= (a + b) * z);
                assert(sum_by(ps, wc) >= q);
                assert(sum_by(ps, ws) >= q * z);
                assert(ps == partitions(self@, dir@, recursive));
            }
            let size = g.file_size();
            let count = g.inside_reclaimable_count();
            let part_total: u64 = if size == 0 {
                assert((a + b) * z == 0) by (nonlinear_arith)
                    requires
                        z == 0,
                ;
                0
            } else {
                let n = (g.inside().len() as u64).checked_add(g.outside().len() as u64);
                let n = match n {
                    Some(n) => n,
                    None => {
                        assert((a + b) * z >= a + b) by (nonlinear_arith)
                            requires
                                z >= 1,
                                a + b >= 0,
                        ;
                        return None;
                    },
                };
                match n.checked_mul(size) {
                    Some(t) => t,
                    None => {
                        return None;
                    },
                }
            };
            let part_reclaimable: u64 = match (count as u64).checked_mul(size) {
                Some(t) => t,
                None => {
                    return None;
                },
            };
            total_size = match total_size.checked_add(part_total) {
                Some(t) => t,
                None => {
                    return None;
                },
            };
            reclaimable_count = match reclaimable_count.checked_add(count) {
                Some(t) => t,
                None => {
                    return None;
                },
            };
            reclaimable_size = match reclaimable_size.checked_add(part_reclaimable) {
                Some(t) => t,
                None => {
                    return None;
                },
            };
            i = i + 1;
        }
        assert(ps.take(groups.len() as int) =~= ps);
        let clones = self.dir_members_set(dir, recursive);
        Some(
            DirCloneFiles {
                stats: DirCloneFilesStats { total_size, reclaimable_count, reclaimable_size },
                clones,
            },
        )
    }

    /// The members in the directory that `dir` names, with the totals over their groups.
    pub fn dir_clone_files(&self, dir: &str, recursive: bool) -> (r: Option<DirCloneFiles>)
        ensures
            r is Some <==> totals_fit(partitions(self@, parse_path(dir@), recursive)),
            r is Some ==> r->Some_0.spec_stats().total_size == sum_by(
                partitions(self@, parse_path(dir@), recursive),
                total_size_weight(),
            ) && r->Some_0.spec_stats().reclaimable_count == sum_by(
                partitions(self@, parse_path(dir@), recursive),
                reclaimable_count_weight(),
            ) && r->Some_0.spec_stats().reclaimable_size == sum_by(
                partitions(self@, parse_path(dir@), recursive),
                reclaimable_size_weight(),
            ),
            r is Some ==> forall|q: PathModel|
                hash_member(r->Some_0.spec_clones(), q) <==> hash_member(
                    concat_kept(self@, inside_pred(parse_path(dir@), recursive)),
                    q,
                ),
    {
        let d = HashedAbsolutePath::from_text(dir);
        self.dir_clone_files_hap(&d, recursive)
    }

    /// The members in `dir`, each hash once.
    fn dir_members_set(&self, dir: &HashedAbsolutePath, recursive: bool) -> (r:
        HashedAbsolutePathRefSet)
        ensures
            forall|q: PathModel|
                hash_member(r@, q) <==> hash_member(
                    concat_kept(self@, inside_pred(dir@, recursive)),
                    q,
                ),
    {
        let members = self.collect_members(&Some(Selector::InDir { dir: dir.duplicate(), recursive }));
        let ghost mv = ref_paths_view(members@);
        let mut set = HashedAbsolutePathRefSet::new();
        let mut k: usize = 0;
        while k < members.len()
            invariant
                k <= members.len(),
                mv == ref_paths_view(members@),
                forall|q: PathModel| hash_member(set@, q) <==> hash_member(mv.take(k as int), q),
            decreases members.len() - k,
        {
            set.insert(members[k].duplicate());
            proof {
                assert(mv.take(k + 1) =~= mv.take(k as int).push(mv[k as int]));
                assert forall|q: PathModel| hash_member(set@, q) <==> hash_member(mv.take(k + 1), q) by {
                    let t = mv.take(k + 1);
                    if hash_member(mv.take(k as int), q) {
                        let j = choose|j: int| 0 <= j < k && path_hash(#[trigger] mv.take(k as int)[j]) == path_hash(q);
                        assert(t[j] == mv.take(k as int)[j]);
                    }
                    if path_hash(q) == path_hash(mv[k as int]) {
                        assert(t[k as int] == mv[k as int]);
                    }
                    if hash_member(t, q) {
                        let j = choose|j: int| 0 <= j < k + 1 && path_hash(#[trigger] t[j]) == path_hash(q);
                        if j < k {
                            assert(mv.take(k as int)[j] == t[j]);
                        }
                    }
                }
            }
            k = k + 1;
        }
        assert(mv.take(members.len() as int) =~= mv);
        set
    }
}

/// The members of `g` whose flag says they are still on disk.
pub open spec fn prune_members(g: Seq<PathModel>, on_disk: Seq<bool>) -> Seq<PathModel>
    decreases g.len(),
{
    if g.len() == 0 {
        Seq::empty()
    } else if on_disk[g.len() - 1] {
        prune_members(g.drop_last(), on_disk).push(g.last())
    } else {
        prune_members(g.drop_last(), on_disk)
    }
}

/// The groups after dropping the members no longer on disk, and then the groups left with
/// fewer than two members.
pub open spec fn pruned(gs: Seq<(u64, Seq<PathModel>)>, on_disk: Seq<Seq<bool>>) -> Seq<
    (u64, Seq<PathModel>),
>
    decreases gs.len(),
{
    if gs.len() == 0 {
        Seq::empty()
    } else {
        let prev = pruned(gs.drop_last(), on_disk);
        let kept = prune_members(gs.last().1, on_disk[gs.len() - 1]);
        if kept.len() >= 2 {
            prev.push((gs.last().0, kept))
        } else {
            prev
        }
    }
}

/// The groups as lists of paths.
pub open spec fn lists_view(v: Seq<(u64, Vec<HashedAbsolutePath>)>) -> Seq<(u64, Seq<PathModel>)> {
    v.map_values(|g: (u64, Vec<HashedAbsolutePath>)| (g.0, paths_view(g.1@)))
}

/// `on_disk` has one flag for each member of each group.
pub open spec fn flags_match(gs: Seq<(u64, Seq<PathModel>)>, on_disk: Seq<Seq<bool>>) -> bool {
    on_disk.len() == gs.len() && forall|i: int|
        0 <= i < gs.len() ==> (#[trigger] on_disk[i]).len() == gs[i].1.len()
}

proof fn lemma_prune_members_contains(g: Seq<PathModel>, on_disk: Seq<bool>, p: PathModel)
    requires
        on_disk.len() == g.len(),
    ensures
        prune_members(g, on_disk).contains(p) ==> exists|j: int|
            0 <= j < g.len() && g[j] == p && on_disk[j],
    decreases g.len(),
{
    if g.len() > 0 {
        lemma_prune_members_contains(g.drop_last(), on_disk.take(g.len() - 1), p);
        lemma_prune_members_take(g.drop_last(), on_disk);
        if prune_members(g, on_disk).contains(p) {
            if on_disk[g.len() - 1] && p == g.last() {
                assert(g[g.len() - 1] == p);
            } else {
                let k = choose|k: int| 0 <= k < prune_members(g, on_disk).len() && prune_members(g, on_disk)[k] == p;
                if on_disk[g.len() - 1] {
                    assert(k < prune_members(g.drop_last(), on_disk).len() || prune_members(g, on_disk)[k] == g.last());
                    if k < prune_members(g.drop_last(), on_disk).len() {
                        assert(prune_members(g.drop_last(), on_disk)[k] == p);
                    }
                } else {
                    assert(prune_members(g.drop_last(), on_disk)[k] == p);
                }
                let j = choose|j: int| 0 <= j < g.drop_last().len() && g.drop_last()[j] == p && on_disk.take(g.len() - 1)[j];
                assert(g[j] == p);
            }
        }
    }
}

proof fn lemma_prune_members_take(g: Seq<PathModel>, on_disk: Seq<bool>)
    requires
        on_disk.len() >= g.len(),
    ensures
        prune_members(g, on_disk.take(g.len() as int)) == prune_members(g, on_disk),
    decreases g.len(),
{
    if g.len() > 0 {
        assert(on_disk.take(g.len() as int).take(g.len() - 1) =~= on_disk.take(g.len() - 1));
        lemma_prune_members_take(g.drop_last(), on_disk.take(g.len() as int));
        lemma_prune_members_take(g.drop_last(), on_disk);
    }
}

/// After pruning, a path that is no longer on disk is in no group, and every group left
/// has at least two members.
pub proof fn lemma_pruning_drops_deleted(
    gs: Seq<(u64, Seq<PathModel>)>,
    on_disk: Seq<Seq<bool>>,
    p: PathModel,
)
    requires
        flags_match(gs, on_disk),
        forall|i: int, j: int|
            0 <= i < gs.len() && 0 <= j < gs[i].1.len() && #[trigger] gs[i].1[j] == p ==> !on_disk[i][j],
    ensures
        forall|k: int| 0 <= k < pruned(gs, on_disk).len() ==> !(#[trigger] pruned(gs, on_disk)[k]).1.contains(p),
        forall|k: int| 0 <= k < pruned(gs, on_disk).len() ==> (#[trigger] pruned(gs, on_disk)[k]).1.len() >= 2,
    decreases gs.len(),
{
    if gs.len() > 0 {
        let n = gs.len() - 1;
        assert(flags_match(gs.drop_last(), on_disk.take(n))) by {
            assert forall|i: int| 0 <= i < gs.drop_last().len() implies (#[trigger] on_disk.take(n)[i]).len() == gs.drop_last()[i].1.len() by {
                assert(on_disk.take(n)[i] == on_disk[i]);
            }
        }
        lemma_pruned_take(gs.drop_last(), on_disk);
        lemma_pruning_drops_deleted(gs.drop_last(), on_disk.take(n), p);
        lemma_prune_members_contains(gs.last().1, on_disk[n], p);
        let prev = pruned(gs.drop_last(), on_disk);
        assert(pruned(gs.drop_last(), on_disk.take(n)) == prev);
        assert forall|k: int| 0 <= k < pruned(gs, on_disk).len() implies !(#[trigger] pruned(gs, on_disk)[k]).1.contains(p)
            && pruned(gs, on_disk)[k].1.len() >= 2 by {
            if k < prev.len() {
                assert(pruned(gs, on_disk)[k] == prev[k]);
            } else {
                if prune_members(gs.last().1, on_disk[n]).contains(p) {
                    let j = choose|j: int| 0 <= j < gs.last().1.len() && gs.last().1[j] == p && on_disk[n][j];
                    assert(gs[n].1[j] == p);
                }
            }
        }
    }
}

proof fn lemma_pruned_take(gs: Seq<(u64, Seq<PathModel>)>, on_disk: Seq<Seq<bool>>)
    requires
        on_disk.len() >= gs.len(),
    ensures
        pruned(gs, on_disk.take(gs.len() as int)) == pruned(gs, on_disk),
    decreases gs.len(),
{
    if gs.len() > 0 {
        let n = gs.len() - 1;
        assert(on_disk.take(gs.len() as int).take(n) =~= on_disk.take(n));
        lemma_pruned_take(gs.drop_last(), on_disk.take(gs.len() as int));
        lemma_pruned_take(gs.drop_last(), on_disk);
    }
}

/// Drops the members that are no longer on disk (one flag per member), then the groups left
/// with fewer than two members.
pub fn prune_clone_groups(lists: &Vec<(u64, Vec<HashedAbsolutePath>)>, on_disk: &Vec<Vec<bool>>) -> (r:
    Vec<(u64, Vec<HashedAbsolutePath>)>)
    requires
        flags_match(lists_view(lists@), on_disk@.map_values(|f: Vec<bool>| f@)),
    ensures
        lists_view(r@) == pruned(lists_view(lists@), on_disk@.map_values(|f: Vec<bool>| f@)),
{
    let ghost gs = lists_view(lists@);
    let ghost fl = on_disk@.map_values(|f: Vec<bool>| f@);
    let mut out: Vec<(u64, Vec<HashedAbsolutePath>)> = Vec::new();
    let mut i: usize = 0;
    while i < lists.len()
        invariant
            i <= lists.len(),
            gs == lists_view(lists@),
            fl == on_disk@.map_values(|f: Vec<bool>| f@),
            flags_match(gs, fl),
            lists_view(out@) == pruned(gs.take(i as int), fl),
        decreases lists.len() - i,
    {
        let members = &lists[i].1;
        let flags = &on_disk[i];
        assert(fl[i as int] == flags@);
        assert(gs[i as int].1 == paths_view(members@));
        let mut kept: Vec<HashedAbsolutePath> = Vec::new();
        let mut j: usize = 0;
        while j < members.len()
            invariant
                i < lists.len(),
                gs == lists_view(lists@),
                fl == on_disk@.map_values(|f: Vec<bool>| f@),
                flags_match(gs, fl),
                lists_view(out@) == pruned(gs.take(i as int), fl),
                members == &lists@[i as int].1,
                flags == &on_disk@[i as int],
                j <= members.len(),
                flags@.len() == members@.len(),
                paths_view(kept@) == prune_members(paths_view(members@).take(j as int), flags@),
            decreases members.len() - j,
        {
            let ghost mv = paths_view(members@);
            assert(mv.take(j + 1).drop_last() =~= mv.take(j as int));
            if flags[j] {
                let p = members[j].duplicate();
                let ghost before = kept@;
                kept.push(p);
                assert(paths_view(kept@) =~= paths_view(before).push(p@));
            }
            j = j + 1;
        }
        assert(paths_view(members@).take(members.len() as int) =~= paths_view(members@));
        proof {
            assert(gs.take(i + 1).drop_last() =~= gs.take(i as int));
            assert(gs.take(i + 1).last() == gs[i as int]);
        }
        if kept.len() >= 2 {
            let ghost before = out@;
            out.push((lists[i].0, kept));
            assert(lists_view(out@) =~= lists_view(before).push((gs[i as int].0, paths_view(kept@))));
        }
        i = i + 1;
    }
    assert(gs.take(lists.len() as int) =~= gs);
    out
}

/// The paths that texts name, relative ones read from `base`.
pub open spec fn parse_texts(v: Seq<String>, base: Seq<char>) -> Seq<PathModel> {
    v.map_values(|t: String| resolve_path(t@, base))
}

/// The report's groups as (file size, member texts).
pub open spec fn text_lists_view(v: Seq<(u64, Vec<String>)>) -> Seq<(u64, Seq<String>)> {
    v.map_values(|g: (u64, Vec<String>)| (g.0, g.1@))
}

/// The paths of `s`, each hash kept at its first occurrence.
pub open spec fn dedup_hashes(s: Seq<PathModel>) -> Seq<PathModel>
    decreases s.len(),
{
    if s.len() == 0 {
        Seq::empty()
    } else if has_hash(dedup_hashes(s.drop_last()), path_hash(s.last())) {
        dedup_hashes(s.drop_last())
    } else {
        dedup_hashes(s.drop_last()).push(s.last())
    }
}

/// The report's groups read as paths (relative ones read from `base`), each path once,
/// leaving out those with fewer than two distinct members.
pub open spec fn loaded(gs: Seq<(u64, Seq<String>)>, base: Seq<char>) -> Seq<(u64, Seq<PathModel>)>
    decreases gs.len(),
{
    if gs.len() == 0 {
        Seq::empty()
    } else if dedup_hashes(parse_texts(gs.last().1, base)).len() >= 2 {
        loaded(gs.drop_last(), base).push((gs.last().0, dedup_hashes(parse_texts(gs.last().1, base))))
    } else {
        loaded(gs.drop_last(), base)
    }
}

/// The report's groups read into hashed paths, relative member texts read from the absolute
/// `base`, each path once; groups with fewer than two distinct members are left out.
pub fn clone_groups_from_texts(groups: &Vec<(u64, Vec<String>)>, base: &str) -> (r: Vec<(u64, Vec<HashedAbsolutePath>)>)
    requires
        is_absolute_text(base@),
    ensures
        lists_view(r@) == loaded(text_lists_view(groups@), base@),
{
    let ghost gs = text_lists_view(groups@);
    let mut out: Vec<(u64, Vec<HashedAbsolutePath>)> = Vec::new();
    let mut i: usize = 0;
    while i < groups.len()
        invariant
            i <= groups.len(),
            is_absolute_text(base@),
            gs == text_lists_view(groups@),
            lists_view(out@) == loaded(gs.take(i as int), base@),
        decreases groups.len() - i,
    {
        let texts = &groups[i].1;
        let ghost pt = parse_texts(texts@, base@);
        let mut paths: Vec<HashedAbsolutePath> = Vec::new();
        let mut j: usize = 0;
        while j < texts.len()
            invariant
                j <= texts.len(),
                is_absolute_text(base@),
                pt == parse_texts(texts@, base@),
                paths_view(paths@) == dedup_hashes(pt.take(j as int)),
            decreases texts.len() - j,
        {
            let p = HashedAbsolutePath::from_text_against(texts[j].as_str(), base);
            proof {
                assert(pt.take(j + 1).drop_last() =~= pt.take(j as int));
                assert(pt.take(j + 1).last() == p@);
            }
            let h = p.hash();
            let mut seen = false;
            let mut k: usize = 0;
            while k < paths.len() && !seen
                invariant
                    k <= paths.len(),
                    h == path_hash(p@),
                    seen ==> has_hash(paths_view(paths@), h),
                    !seen ==> forall|k2: int| 0 <= k2 < k ==> path_hash(#[trigger] paths_view(paths@)[k2]) != h,
                decreases paths.len() - k,
            {
                if paths[k].hash() == h {
                    assert(path_hash(paths_view(paths@)[k as int]) == h);
                    seen = true;
                }
                k = k + 1;
            }
            if !seen {
                let ghost before = paths@;
                paths.push(p);
                assert(paths_view(paths@) =~= paths_view(before).push(p@));
            }
            j = j + 1;
        }
        assert(pt.take(texts.len() as int) =~= pt);
        assert(gs.take(i + 1).drop_last() =~= gs.take(i as int));
        assert(gs.take(i + 1).last() == gs[i as int]);
        assert(gs[i as int].1 == texts@);
        if paths.len() >= 2 {
            let ghost before = out@;
            out.push((groups[i].0, paths));
            assert(lists_view(out@) =~= lists_view(before).push((gs[i as int].0, paths_view(paths@))));
        }
        i = i + 1;
    }
    assert(gs.take(groups.len() as int) =~= gs);
    out
}

/// Keeps the scanned paths whose flag says they are still on disk (one flag per path, in
/// the set's order).
pub fn prune_scanned_paths(paths: &HashedAbsolutePathSet, on_disk: &Vec<bool>) -> (r: HashedAbsolutePathSet)
    requires
        on_disk@.len() == paths@.len(),
    ensures
        forall|q: PathModel|
            hash_member(r@, q) <==> exists|k: int|
                0 <= k < paths@.len() && on_disk@[k] && path_hash(#[trigger] paths@[k]) == path_hash(q),
{
    let v = paths.paths();
    let mut out = HashedAbsolutePathSet::new();
    let mut i: usize = 0;
    while i < v.len()
        invariant
            paths_view(v@) == paths@,
            on_disk@.len() == paths@.len(),
            i <= v.len(),
            forall|q: PathModel|
                hash_member(out@, q) <==> exists|k: int|
                    0 <= k < i && on_disk@[k] && path_hash(#[trigger] paths@[k]) == path_hash(q),
        decreases v.len() - i,
    {
        if on_disk[i] {
            let p = v[i].duplicate();
            let ghost pv = p@;
            out.insert(p);
            proof {
                assert(pv == paths@[i as int]);
                assert forall|q: PathModel|
                    hash_member(out@, q) <==> exists|k: int|
                        0 <= k < i + 1 && on_disk@[k] && path_hash(#[trigger] paths@[k]) == path_hash(q) by {
                    if exists|k: int| 0 <= k < i + 1 && on_disk@[k] && path_hash(#[trigger] paths@[k]) == path_hash(q) {
                        let k = choose|k: int| 0 <= k < i + 1 && on_disk@[k] && path_hash(#[trigger] paths@[k]) == path_hash(q);
                        if k < i {
                            assert(0 <= k < i && on_disk@[k] && path_hash(paths@[k]) == path_hash(q));
                        }
                    }
                }
            }
        } else {
            proof {
                assert forall|q: PathModel|
                    hash_member(out@, q) <==> exists|k: int|
                        0 <= k < i + 1 && on_disk@[k] && path_hash(#[trigger] paths@[k]) == path_hash(q) by {
                    if exists|k: int| 0 <= k < i + 1 && on_disk@[k] && path_hash(#[trigger] paths@[k]) == path_hash(q) {
                        let k = choose|k: int| 0 <= k < i + 1 && on_disk@[k] && path_hash(#[trigger] paths@[k]) == path_hash(q);
                        assert(k < i);
                    }
                }
            }
        }
        i = i + 1;
    }
    out
}

/// What was loaded from the duplicate report: the scanned paths, if it lists them, and the
/// index of its groups.
#[derive(Debug)]
pub struct ClonesDB {
    scanned_paths: Option<HashedAbsolutePathSet>,
    clone_groups: CloneGroups,
}

impl ClonesDB {
    pub closed spec fn spec_groups(&self) -> Seq<(u64, Seq<PathModel>)> {
        self.clone_groups@
    }

    pub fn new(scanned_paths: Option<HashedAbsolutePathSet>, clone_groups: CloneGroups) -> (r:
        ClonesDB)
        ensures
            r.spec_groups() == clone_groups@,
            r.spec_index() == clone_groups,
            r.spec_scanned() == match scanned_paths {
                Some(s) => Some(s@),
                None => None::<Seq<PathModel>>,
            },
    {
        ClonesDB { scanned_paths, clone_groups }
    }

    pub closed spec fn spec_scanned(&self) -> Option<Seq<PathModel>> {
        match self.scanned_paths {
            Some(s) => Some(s@),
            None => None,
        }
    }

    /// The directories that the report says were scanned, if it lists them.
    pub fn scanned_paths(&self) -> (r: &Option<HashedAbsolutePathSet>)
        ensures
            r is Some <==> self.spec_scanned() is Some,
            r is Some ==> r->Some_0@ == self.spec_scanned()->Some_0,
    {
        &self.scanned_paths
    }

    pub closed spec fn spec_index(&self) -> CloneGroups {
        self.clone_groups
    }

    pub fn clone_groups(&self) -> (r: &CloneGroups)
        ensures
            r@ == self.spec_groups(),
            *r == self.spec_index(),
    {
        &self.clone_groups
    }
}

/// A group with `n` members frees `n - 1` of them, and `(n - 1) * size` bytes.
pub proof fn lemma_reclaimable_keeps_one(n: nat, file_size: nat)
    requires
        n >= 2,
    ensures
        reclaimable(n) == n - 1,
        reclaimable(n) * file_size == (n - 1) * file_size,
{
}

/// Splitting a group by a directory that holds none of its members leaves nothing inside and
/// the whole group outside.
pub proof fn lemma_partition_of_unrelated_dir(g: Seq<PathModel>, dir: PathModel, recursive: bool)
    requires
        forall|k: int| 0 <= k < g.len() ==> !in_dir(#[trigger] g[k], dir, recursive),
    ensures
        keep(g, inside_pred(dir, recursive)) == Seq::<PathModel>::empty(),
        keep(g, outside_pred(dir, recursive)) == g,
    decreases g.len(),
{
    if g.len() > 0 {
        assert(!in_dir(g[g.len() - 1], dir, recursive));
        lemma_partition_of_unrelated_dir(g.drop_last(), dir, recursive);
        assert(g.drop_last().push(g.last()) =~= g);
    }
}

/// A group that has no member in a directory gets no split in that directory's partitions.
pub proof fn lemma_unrelated_group_not_partitioned(
    gs: Seq<(u64, Seq<PathModel>)>,
    dir: PathModel,
    recursive: bool,
)
    requires
        forall|i: int, k: int|
            0 <= i < gs.len() && 0 <= k < gs[i].1.len() ==> !in_dir(#[trigger] gs[i].1[k], dir, recursive),
    ensures
        partitions(gs, dir, recursive).len() == 0,
    decreases gs.len(),
{
    if gs.len() > 0 {
        let n = gs.len() - 1;
        assert forall|k: int| 0 <= k < gs.last().1.len() implies !in_dir(#[trigger] gs.last().1[k], dir, recursive) by {
            assert(gs[n].1[k] == gs.last().1[k]);
        }
        lemma_partition_of_unrelated_dir(gs.last().1, dir, recursive);
        assert forall|i: int, k: int|
            0 <= i < gs.drop_last().len() && 0 <= k < gs.drop_last()[i].1.len() implies !in_dir(
                #[trigger] gs.drop_last()[i].1[k],
                dir,
                recursive,
            ) by {
            assert(gs.drop_last()[i] == gs[i]);
        }
        lemma_unrelated_group_not_partitioned(gs.drop_last(), dir, recursive);
    }
}

/// The duplicates that a path leads to: the other members of a file's group, or the members
/// in a directory; nothing for a path that is neither.
#[derive(Debug)]
pub enum PathClonesIter {
    File(FileClonesIter),
    Dir(DirCloneFilesIter),
    Other,
}

impl PathClonesIter {
    pub open spec fn spec_rest(&self) -> Seq<PathModel> {
        match self {
            PathClonesIter::File(it) => it@,
            PathClonesIter::Dir(it) => it@,
            PathClonesIter::Other => Seq::empty(),
        }
    }

    /// The paths that remain, in order.
    pub fn remaining(&self) -> (r: Vec<HashedAbsolutePathRef>)
        ensures
            ref_paths_view(r@) == self.spec_rest(),
    {
        match self {
            PathClonesIter::File(it) => it.remaining(),
            PathClonesIter::Dir(it) => it.remaining(),
            PathClonesIter::Other => Vec::new(),
        }
    }

    pub fn next(&mut self) -> (r: Option<HashedAbsolutePathRef>)
        ensures
            old(self).spec_rest().len() == 0 ==> r is None,
            old(self).spec_rest().len() > 0 ==> r is Some && r->Some_0@ == old(self).spec_rest()[0]
                && final(self).spec_rest() == old(self).spec_rest().drop_first(),
    {
        match self {
            PathClonesIter::File(it) => it.next(),
            PathClonesIter::Dir(it) => it.next(),
            PathClonesIter::Other => None,
        }
    }
}

/// The duplicates that several paths lead to, each hash once, handed out one at a time.
#[derive(Debug)]
pub struct PathsClonesIter {
    queue: PathRefQueue,
}

impl View for PathsClonesIter {
    type V = Seq<PathModel>;

    closed spec fn view(&self) -> Seq<PathModel> {
        self.queue@
    }
}

impl PathsClonesIter {
    pub fn next(&mut self) -> (r: Option<HashedAbsolutePathRef>)
        ensures
            old(self)@.len() == 0 ==> r is None && final(self)@ == old(self)@,
            old(self)@.len() > 0 ==> r is Some && r->Some_0@ == old(self)@[0] && final(self)@
                == old(self)@.drop_first(),
    {
        self.queue.next()
    }

    pub fn remaining(&self) -> (r: Vec<HashedAbsolutePathRef>)
        ensures
            ref_paths_view(r@) == self@,
    {
        self.queue.remaining()
    }
}

/// `set` with every path of `items` added.
fn add_all(set: HashedAbsolutePathRefSet, items: &Vec<HashedAbsolutePathRef>) -> (r: HashedAbsolutePathRefSet)
    ensures
        forall|q: PathModel|
            hash_member(r@, q) <==> hash_member(set@, q) || hash_member(ref_paths_view(items@), q),
{
    let ghost mv = ref_paths_view(items@);
    let ghost start = set@;
    let mut out = set;
    let mut k: usize = 0;
    assert(mv.take(0) =~= Seq::<PathModel>::empty());
    while k < items.len()
        invariant
            k <= items.len(),
            mv == ref_paths_view(items@),
            forall|q: PathModel| hash_member(out@, q) <==> hash_member(start, q) || hash_member(mv.take(k as int), q),
        decreases items.len() - k,
    {
        let ghost before = out@;
        let item = items[k].duplicate();
        let ghost iv = item@;
        out.insert(item);
        proof {
            assert(iv == mv[k as int]);
            assert(forall|q: PathModel| #[trigger] hash_member(out@, q) <==> hash_member(before, q) || path_hash(q) == path_hash(iv));
            assert(forall|q: PathModel| #[trigger] hash_member(before, q) <==> hash_member(start, q) || hash_member(mv.take(k as int), q));
            assert(mv.take(k + 1) =~= mv.take(k as int).push(mv[k as int]));
            assert forall|q: PathModel| hash_member(out@, q) <==> hash_member(start, q) || hash_member(mv.take(k + 1), q) by {
                let t = mv.take(k + 1);
                if hash_member(mv.take(k as int), q) {
                    let j = choose|j: int| 0 <= j < k && path_hash(#[trigger] mv.take(k as int)[j]) == path_hash(q);
                    assert(t[j] == mv.take(k as int)[j]);
                }
                if path_hash(q) == path_hash(mv[k as int]) {
                    assert(t[k as int] == mv[k as int]);
                }
                if hash_member(t, q) {
                    let j = choose|j: int| 0 <= j < k + 1 && path_hash(#[trigger] t[j]) == path_hash(q);
                    if j < k {
                        assert(mv.take(k as int)[j] == t[j]);
                    }
                }
            }
        }
        k = k + 1;
    }
    assert(mv.take(items.len() as int) =~= mv);
    assert(forall|q: PathModel| #[trigger] hash_member(out@, q) <==> hash_member(start, q) || hash_member(mv, q));
    out
}

impl CloneGroups {
    /// The other members of the group that the lookup gives for hash `h`; none without one.
    pub open spec fn file_listing(&self, h: u64) -> Seq<PathModel> {
        match self.index_of_hash(h) {
            Some(i) => keep(self@[i as int].1, other_than_pred(h)),
            None => Seq::empty(),
        }
    }

    /// The duplicates that path `p` of the given kind leads to.
    pub open spec fn path_listing(
        &self,
        p: PathModel,
        kind: Option<crate::fs::tree::NodeKind>,
        recursive: bool,
    ) -> Seq<PathModel> {
        match kind {
            Some(crate::fs::tree::NodeKind::Directory) => concat_kept(self@, inside_pred(p, recursive)),
            Some(crate::fs::tree::NodeKind::File) => self.file_listing(path_hash(p)),
            None => Seq::empty(),
        }
    }

    /// The duplicates that each (path, kind) of `paths` leads to, each hash once.
    pub fn paths_clones_iter_hap(
        &self,
        paths: &Vec<(HashedAbsolutePath, Option<crate::fs::tree::NodeKind>)>,
        recursive: bool,
    ) -> (r: PathsClonesIter)
        ensures
            distinct_hashes(r@),
            forall|q: PathModel|
                hash_member(r@, q) <==> exists|i: int|
                    0 <= i < paths@.len() && hash_member(
                        self.path_listing((#[trigger] paths@[i]).0@, paths@[i].1, recursive),
                        q,
                    ),
    {
        let mut set = HashedAbsolutePathRefSet::new();
        let mut i: usize = 0;
        while i < paths.len()
            invariant
                i <= paths.len(),
                forall|q: PathModel|
                    hash_member(set@, q) <==> exists|i2: int|
                        0 <= i2 < i && hash_member(
                            self.path_listing((#[trigger] paths@[i2]).0@, paths@[i2].1, recursive),
                            q,
                        ),
            decreases paths.len() - i,
        {
            let it = self.path_clones_iter_hap(&paths[i].0, paths[i].1, recursive);
            let ghost listing = self.path_listing(paths@[i as int].0@, paths@[i as int].1, recursive);
            let ghost start = set@;
            let items = it.remaining();
            set = add_all(set, &items);
            proof {
                assert(forall|q: PathModel| hash_member(set@, q) <==> hash_member(start, q) || hash_member(listing, q));
            }
            proof {
                assert forall|q: PathModel|
                    hash_member(set@, q) <==> exists|i2: int|
                        0 <= i2 < i + 1 && hash_member(
                            self.path_listing((#[trigger] paths@[i2]).0@, paths@[i2].1, recursive),
                            q,
                        ) by {
                    if hash_member(listing, q) {
                        assert(0 <= i < i + 1 && hash_member(self.path_listing(paths@[i as int].0@, paths@[i as int].1, recursive), q));
                    }
                    if exists|i2: int|
                        0 <= i2 < i + 1 && hash_member(
                            self.path_listing((#[trigger] paths@[i2]).0@, paths@[i2].1, recursive),
                            q,
                        ) {
                        let i2 = choose|i2: int|
                            0 <= i2 < i + 1 && hash_member(
                                self.path_listing((#[trigger] paths@[i2]).0@, paths@[i2].1, recursive),
                                q,
                            );
                        if i2 < i {
                            assert(exists|i3: int|
                                0 <= i3 < i && hash_member(
                                    self.path_listing((#[trigger] paths@[i3]).0@, paths@[i3].1, recursive),
                                    q,
                                ));
                        }
                    }
                }
            }
            i = i + 1;
        }
        let r = PathsClonesIter { queue: PathRefQueue::new(set.into_paths()) };
        r
    }
}

impl CloneGroups {
    /// The duplicates that `path` leads to, by what it is on disk (`kind`; None for neither a
    /// file nor a directory).
    pub fn path_clones_iter_hap(
        &self,
        path: &HashedAbsolutePath,
        kind: Option<crate::fs::tree::NodeKind>,
        recursive: bool,
    ) -> (r: PathClonesIter)
        ensures
            kind == Some(crate::fs::tree::NodeKind::Directory) ==> r.spec_rest() == concat_kept(
                self@,
                inside_pred(path@, recursive),
            ),
            kind == Some(crate::fs::tree::NodeKind::File) && !in_some_group(self@, path_hash(path@))
                ==> r.spec_rest().len() == 0,
            kind == Some(crate::fs::tree::NodeKind::File) && in_some_group(self@, path_hash(path@))
                ==> exists|i: int|
                0 <= i < self@.len() && has_hash(self@[i].1, path_hash(path@)) && r.spec_rest()
                    == keep(#[trigger] self@[i].1, other_than_pred(path_hash(path@))),
            kind is None ==> r.spec_rest().len() == 0,
            r.spec_rest() == self.path_listing(path@, kind, recursive),
    {
        match kind {
            Some(crate::fs::tree::NodeKind::Directory) => PathClonesIter::Dir(
                self.dir_clone_files_iter_hap(path, recursive),
            ),
            Some(crate::fs::tree::NodeKind::File) => PathClonesIter::File(self.file_clones_iter_hap(path)),
            None => PathClonesIter::Other,
        }
    }

    /// The duplicates that the path that `path` names leads to.
    pub fn path_clones_iter(&self, path: &str, kind: Option<crate::fs::tree::NodeKind>, recursive: bool) -> (r:
        PathClonesIter)
        ensures
            kind == Some(crate::fs::tree::NodeKind::Directory) ==> r.spec_rest() == concat_kept(
                self@,
                inside_pred(parse_path(path@), recursive),
            ),
            kind == Some(crate::fs::tree::NodeKind::File) && !in_some_group(
                self@,
                path_hash(parse_path(path@)),
            ) ==> r.spec_rest().len() == 0,
            kind == Some(crate::fs::tree::NodeKind::File) && in_some_group(
                self@,
                path_hash(parse_path(path@)),
            ) ==> exists|i: int|
                0 <= i < self@.len() && has_hash(self@[i].1, path_hash(parse_path(path@)))
                    && r.spec_rest() == keep(
                    #[trigger] self@[i].1,
                    other_than_pred(path_hash(parse_path(path@))),
                ),
            kind is None ==> r.spec_rest().len() == 0,
    {
        let p = HashedAbsolutePath::from_text(path);
        self.path_clones_iter_hap(&p, kind, recursive)
    }
}

} // verus!
