use vstd::prelude::*;

use crate::clones::db::{
    human_size, human_size_text, lemma_sum_prefix, lemma_sum_step, partitions, partitions_view,
    reclaimable, sum_by, ClonesDB, PartModel, PartitionedDirClones,
};
use crate::path::{ref_paths_view, HashedAbsolutePathRef};
use crate::path::parse_path;

verus! {

pub open spec fn texts_view(v: Seq<String>) -> Seq<Seq<char>> {
    v.map_values(|s: String| s@)
}

/// The texts of `s`, each kept at its first occurrence.
pub open spec fn dedup(s: Seq<Seq<char>>) -> Seq<Seq<char>>
    decreases s.len(),
{
    if s.len() == 0 {
        Seq::empty()
    } else if dedup(s.drop_last()).contains(s.last()) {
        dedup(s.drop_last())
    } else {
        dedup(s.drop_last()).push(s.last())
    }
}

fn contains_text(v: &Vec<String>, t: &String) -> (r: bool)
    ensures
        r == texts_view(v@).contains(t@),
{
    let mut i: usize = 0;
    while i < v.len()
        invariant
            i <= v.len(),
            forall|k: int| 0 <= k < i ==> texts_view(v@)[k] != t@,
        decreases v.len() - i,
    {
        if v[i] == *t {
            assert(texts_view(v@)[i as int] == t@);
            return true;
        }
        i = i + 1;
    }
    false
}

fn dedup_texts(v: &Vec<String>) -> (r: Vec<String>)
    ensures
        texts_view(r@) == dedup(texts_view(v@)),
{
    let ghost s = texts_view(v@);
    let mut out: Vec<String> = Vec::new();
    let mut i: usize = 0;
    while i < v.len()
        invariant
            s == texts_view(v@),
            i <= v.len(),
            texts_view(out@) == dedup(s.take(i as int)),
        decreases v.len() - i,
    {
        assert(s.take(i + 1).drop_last() =~= s.take(i as int));
        assert(s.take(i + 1).last() == v@[i as int]@);
        if !contains_text(&out, &v[i]) {
            let t = v[i].clone();
            let ghost before = out@;
            out.push(t);
            assert(texts_view(out@) =~= texts_view(before).push(t@));
        }
        i = i + 1;
    }
    assert(s.take(v.len() as int) =~= s);
    out
}

fn copy_texts(v: &Vec<String>) -> (r: Vec<String>)
    ensures
        texts_view(r@) == texts_view(v@),
{
    let r = v.clone();
    assert(texts_view(r@) =~= texts_view(v@)) by {
        assert forall|k: int| 0 <= k < v@.len() implies r@[k] == v@[k] by {
            assert(vstd::pervasive::cloned::<String>(v@[k], r@[k]));
        }
    }
    r
}

/// Path texts, in a given order.
#[derive(Debug)]
pub struct Paths(pub Vec<String>);

/// Path texts as handed in by a caller.
#[derive(Debug)]
pub struct PathRefs(pub Vec<String>);

/// Path texts, each once.
#[derive(Debug)]
pub struct PathSet(pub Vec<String>);

/// Path texts as handed in by a caller, each once.
#[derive(Debug)]
pub struct PathRefSet(pub Vec<String>);

impl Paths {
    pub fn new(inner: Vec<String>) -> (r: Paths)
        ensures
            r.0@ == inner@,
    {
        Paths(inner)
    }

    /// The same texts, each once.
    pub fn into_set(self) -> (r: PathSet)
        ensures
            texts_view(r.0@) == dedup(texts_view(self.0@)),
    {
        PathSet(dedup_texts(&self.0))
    }

    pub fn iter(&self) -> (r: PathsIter)
        ensures
            r.spec_rest() == texts_view(self.0@),
    {
        PathsIter { paths: copy_texts(&self.0), pos: 0 }
    }
}

impl PathRefs {
    pub fn new(inner: Vec<String>) -> (r: PathRefs)
        ensures
            r.0@ == inner@,
    {
        PathRefs(inner)
    }

    /// The same texts, each once.
    pub fn into_set(self) -> (r: PathRefSet)
        ensures
            texts_view(r.0@) == dedup(texts_view(self.0@)),
    {
        PathRefSet(dedup_texts(&self.0))
    }
}

impl PathSet {
    pub fn to_paths(&self) -> (r: Paths)
        ensures
            texts_view(r.0@) == texts_view(self.0@),
    {
        Paths(copy_texts(&self.0))
    }
}

impl PathRefSet {
    pub fn into_path_refs(self) -> (r: PathRefs)
        ensures
            r.0@ == self.0@,
    {
        PathRefs(self.0)
    }
}

/// Path texts handed out one at a time.
#[derive(Debug)]
pub struct PathsIter {
    paths: Vec<String>,
    pos: usize,
}

impl PathsIter {
    pub closed spec fn spec_rest(&self) -> Seq<Seq<char>> {
        if self.pos <= self.paths@.len() {
            texts_view(self.paths@).skip(self.pos as int)
        } else {
            Seq::empty()
        }
    }

    pub fn next(&mut self) -> (r: Option<String>)
        ensures
            old(self).spec_rest().len() == 0 ==> r is None,
            old(self).spec_rest().len() > 0 ==> r is Some && r->Some_0@ == old(self).spec_rest()[0]
                && final(self).spec_rest() == old(self).spec_rest().drop_first(),
    {
        if self.pos < self.paths.len() {
            let t = self.paths[self.pos].clone();
            let ghost before = self.spec_rest();
            self.pos = self.pos + 1;
            assert(self.spec_rest() =~= before.drop_first());
            Some(t)
        } else {
            None
        }
    }
}

/// Counts and sizes of the files listed, and of what keeping one copy of each would free.
#[derive(Debug, Clone, Copy, PartialEq, Eq, Structural)]
pub struct CloneStats {
    pub total_count: usize,
    pub total_size: u64,
    pub reclaimable_count: usize,
    pub reclaimable_size: u64,
}

impl CloneStats {
    pub fn new(total_count: usize, total_size: u64, reclaimable_count: usize, reclaimable_size: u64) -> (r: CloneStats)
        ensures
            r == (CloneStats { total_count, total_size, reclaimable_count, reclaimable_size }),
    {
        CloneStats { total_count, total_size, reclaimable_count, reclaimable_size }
    }

    pub fn total_size_human(&self) -> (r: String)
        ensures
            r@ == human_size(self.total_size),
    {
        human_size_text(self.total_size)
    }

    pub fn reclaimable_size_human(&self) -> (r: String)
        ensures
            r@ == human_size(self.reclaimable_size),
    {
        human_size_text(self.reclaimable_size)
    }
}

/// The duplicate groups of the files in each directory of a list.
pub trait Clones {
    fn clone_groups(&self, recursive: bool, clones_db: &ClonesDB) -> Vec<PartitionedDirClones>;
}

/// The splits of the groups by each directory of `dirs`, directory after directory.
pub open spec fn dirs_partitions(db: ClonesDB, dirs: Seq<Seq<char>>, recursive: bool) -> Seq<
    (u64, Seq<Seq<Seq<char>>>, Seq<Seq<Seq<char>>>),
>
    decreases dirs.len(),
{
    if dirs.len() == 0 {
        Seq::empty()
    } else {
        dirs_partitions(db, dirs.drop_last(), recursive) + partitions(
            db.spec_groups(),
            parse_path(dirs.last()),
            recursive,
        )
    }
}

impl PathRefs {
    /// The splits of the groups by each directory of the list, directory after directory.
    pub fn dir_clone_groups(&self, recursive: bool, clones_db: &ClonesDB) -> (r: Vec<PartitionedDirClones>)
        ensures
            partitions_view(r@) == dirs_partitions(*clones_db, texts_view(self.0@), recursive),
    {
        let ghost s = texts_view(self.0@);
        let mut out: Vec<PartitionedDirClones> = Vec::new();
        let mut i: usize = 0;
        while i < self.0.len()
            invariant
                s == texts_view(self.0@),
                i <= self.0.len(),
                partitions_view(out@) == dirs_partitions(*clones_db, s.take(i as int), recursive),
            decreases self.0.len() - i,
        {
            let mut groups = clones_db.clone_groups().dir_clone_groups(self.0[i].as_str(), recursive);
            let ghost before = out@;
            let ghost added = groups@;
            out.append(&mut groups);
            proof {
                assert(partitions_view(out@) =~= partitions_view(before) + partitions_view(added));
                assert(s.take(i + 1).drop_last() =~= s.take(i as int));
                assert(s.take(i + 1).last() == self.0@[i as int]@);
            }
            i = i + 1;
        }
        assert(s.take(self.0.len() as int) =~= s);
        out
    }
}

impl Clones for PathRefs {
    fn clone_groups(&self, recursive: bool, clones_db: &ClonesDB) -> Vec<PartitionedDirClones> {
        self.dir_clone_groups(recursive, clones_db)
    }
}

/// A split group counts for the inside listing when more than one of its members is inside.
pub open spec fn big(p: PartModel) -> bool {
    p.1.len() > 1
}

pub open spec fn inside_count_weight() -> spec_fn(PartModel) -> nat {
    |p: PartModel| if big(p) { p.1.len() } else { 0 }
}

pub open spec fn inside_size_weight() -> spec_fn(PartModel) -> nat {
    |p: PartModel| if big(p) { (p.1.len() * p.0) as nat } else { 0 }
}

pub open spec fn inside_reclaimable_count_weight() -> spec_fn(PartModel) -> nat {
    |p: PartModel| if big(p) { reclaimable(p.1.len()) } else { 0 }
}

pub open spec fn inside_reclaimable_size_weight() -> spec_fn(PartModel) -> nat {
    |p: PartModel| if big(p) { (reclaimable(p.1.len()) * p.0) as nat } else { 0 }
}

/// The inside members of the split groups with more than one, group after group.
pub open spec fn big_insides(ps: Seq<PartModel>) -> Seq<Seq<Seq<char>>>
    decreases ps.len(),
{
    if ps.len() == 0 {
        Seq::empty()
    } else if big(ps.last()) {
        big_insides(ps.drop_last()) + ps.last().1
    } else {
        big_insides(ps.drop_last())
    }
}

impl PathRefs {
    /// The files inside the listed directories that have a duplicate inside them too (the
    /// inside members of each group with more than one there), with their counts and sizes;
    /// None where a total does not fit its integer type.
    pub fn inside_clones(&self, recursive: bool, clones_db: &ClonesDB) -> (r: Option<
        (CloneStats, Vec<HashedAbsolutePathRef>),
    >)
        ensures
            r is Some <==> ({
                let ps = dirs_partitions(*clones_db, texts_view(self.0@), recursive);
                &&& sum_by(ps, inside_count_weight()) <= usize::MAX
                &&& sum_by(ps, inside_size_weight()) <= u64::MAX
                &&& sum_by(ps, inside_reclaimable_count_weight()) <= usize::MAX
                &&& sum_by(ps, inside_reclaimable_size_weight()) <= u64::MAX
            }),
            r is Some ==> {
                let ps = dirs_partitions(*clones_db, texts_view(self.0@), recursive);
                &&& r->Some_0.0.total_count == sum_by(ps, inside_count_weight())
                &&& r->Some_0.0.total_size == sum_by(ps, inside_size_weight())
                &&& r->Some_0.0.reclaimable_count == sum_by(ps, inside_reclaimable_count_weight())
                &&& r->Some_0.0.reclaimable_size == sum_by(ps, inside_reclaimable_size_weight())
                &&& ref_paths_view(r->Some_0.1@) == big_insides(ps)
            },
    {
        let groups = self.dir_clone_groups(recursive, clones_db);
        let ghost ps = dirs_partitions(*clones_db, texts_view(self.0@), recursive);
        let ghost w1 = inside_count_weight();
        let ghost w2 = inside_size_weight();
        let ghost w3 = inside_reclaimable_count_weight();
        let ghost w4 = inside_reclaimable_size_weight();
        let mut total_count: usize = 0;
        let mut total_size: u64 = 0;
        let mut reclaimable_count: usize = 0;
        let mut reclaimable_size: u64 = 0;
        let mut files: Vec<HashedAbsolutePathRef> = Vec::new();
        let mut i: usize = 0;
        while i < groups.len()
            invariant
                partitions_view(groups@) == ps,
                ps == dirs_partitions(*clones_db, texts_view(self.0@), recursive),
                w1 == inside_count_weight(),
                w2 == inside_size_weight(),
                w3 == inside_reclaimable_count_weight(),
                w4 == inside_reclaimable_size_weight(),
                i <= groups.len(),
                total_count == sum_by(ps.take(i as int), w1),
                total_size == sum_by(ps.take(i as int), w2),
                reclaimable_count == sum_by(ps.take(i as int), w3),
                reclaimable_size == sum_by(ps.take(i as int), w4),
                ref_paths_view(files@) == big_insides(ps.take(i as int)),
            decreases groups.len() - i,
        {
            let g = &groups[i];
            let ghost a = g@.1.len();
            let ghost z = g@.0;
            proof {
                assert(ps[i as int] == g@);
                lemma_sum_step(ps, w1, i as int);
                lemma_sum_step(ps, w2, i as int);
                lemma_sum_step(ps, w3, i as int);
                lemma_sum_step(ps, w4, i as int);
                lemma_sum_prefix(ps, w1, i + 1);
                lemma_sum_prefix(ps, w2, i + 1);
                lemma_sum_prefix(ps, w3, i + 1);
                lemma_sum_prefix(ps, w4, i + 1);
                assert(a * z >= 0) by (nonlinear_arith)
                    requires
                        a >= 0,
                        z >= 0,
                ;
                assert(reclaimable(a) * z >= 0) by (nonlinear_arith)
                    requires
                        reclaimable(a) >= 0,
                        z >= 0,
                ;
                assert(ps.take(i + 1).drop_last() =~= ps.take(i as int));
                assert(ps.take(i + 1).last() == ps[i as int]);
            }
            let inside = g.inside().files().paths();
            let n = inside.len();
            if n > 1 {
                let size = g.file_size();
                let c = match total_count.checked_add(n) {
                    Some(c) => c,
                    None => {
                        return None;
                    },
                };
                let bytes = match (n as u64).checked_mul(size) {
                    Some(b) => b,
                    None => {
                        return None;
                    },
                };
                let t = match total_size.checked_add(bytes) {
                    Some(t) => t,
                    None => {
                        return None;
                    },
                };
                let rc = match reclaimable_count.checked_add(n - 1) {
                    Some(rc) => rc,
                    None => {
                        return None;
                    },
                };
                let rbytes = match ((n - 1) as u64).checked_mul(size) {
                    Some(b) => b,
                    None => {
                        return None;
                    },
                };
                let rs = match reclaimable_size.checked_add(rbytes) {
                    Some(rs) => rs,
                    None => {
                        return None;
                    },
                };
                total_count = c;
                total_size = t;
                reclaimable_count = rc;
                reclaimable_size = rs;
                let mut k: usize = 0;
                let ghost start = ref_paths_view(files@);
                while k < n
                    invariant
                        n == inside@.len(),
                        ref_paths_view(inside@) == g@.1,
                        k <= n,
                        ref_paths_view(files@) == start + g@.1.take(k as int),
                    decreases n - k,
                {
                    let p = inside[k].duplicate();
                    let ghost before = files@;
                    files.push(p);
                    assert(ref_paths_view(files@) =~= ref_paths_view(before).push(p@));
                    assert(g@.1.take(k + 1) =~= g@.1.take(k as int).push(g@.1[k as int]));
                    k = k + 1;
                }
                assert(g@.1.take(n as int) =~= g@.1);
            }
            i = i + 1;
        }
        assert(ps.take(groups.len() as int) =~= ps);
        Some((CloneStats { total_count, total_size, reclaimable_count, reclaimable_size }, files))
    }
}

} // verus!
