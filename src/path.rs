use path_absolutize::Absolutize;
use std::cmp::Ordering;
use vstd::prelude::*;
use vstd::string::StrSliceExecFns;
use vstd::string::StringExecFns;

use crate::hash::{text_hash, HashValue};

verus! {

// ---------------------------------------------------------------------------
// The model: an absolute path is the sequence of its components.
// ---------------------------------------------------------------------------

/// The components held by a vector of strings.
pub open spec fn comps_view(v: Seq<String>) -> Seq<Seq<char>> {
    v.map_values(|s: String| s@)
}

/// "/c0/c1/.../cn" for a non-empty sequence of components, the empty text for none.
pub open spec fn joined(c: Seq<Seq<char>>) -> Seq<char>
    decreases c.len(),
{
    if c.len() == 0 {
        Seq::empty()
    } else {
        joined(c.drop_last()) + seq!['/'] + c.last()
    }
}

/// The text of an absolute path; the root is "/".
pub open spec fn path_text(c: Seq<Seq<char>>) -> Seq<char> {
    if c.len() == 0 {
        seq!['/']
    } else {
        joined(c)
    }
}

/// The hash of an absolute path: the hash of its text.
pub open spec fn path_hash(c: Seq<Seq<char>>) -> u64 {
    text_hash(path_text(c))
}

/// `a` is an ancestor of `p`, `p` itself and the root included.
pub open spec fn is_ancestor(a: Seq<Seq<char>>, p: Seq<Seq<char>>) -> bool {
    a.len() <= p.len() && p.take(a.len() as int) == a
}

/// `a` is the parent of `p`; the root has none.
pub open spec fn is_parent(a: Seq<Seq<char>>, p: Seq<Seq<char>>) -> bool {
    p.len() > 0 && a == p.drop_last()
}

/// The hashes of the non-root ancestors of `c`, `c` included, shortest first.
pub open spec fn prefix_hashes(c: Seq<Seq<char>>) -> Seq<u64> {
    Seq::new(c.len(), |k: int| path_hash(c.take(k + 1)))
}

/// The hash of the parent of `c`, where that parent is not the root.
pub open spec fn parent_hash_of(c: Seq<Seq<char>>) -> Option<u64> {
    if c.len() >= 2 {
        Some(path_hash(c.drop_last()))
    } else {
        None
    }
}

pub open spec fn sorted(s: Seq<u64>) -> bool {
    forall|i: int, j: int| 0 <= i < j < s.len() ==> s[i] <= s[j]
}

/// The text that starts at the root: it begins with a separator.
pub open spec fn is_absolute_text(s: Seq<char>) -> bool {
    s.len() > 0 && s[0] == '/'
}

/// Splitting a text on separators: the components completed so far and the one being read.
pub open spec fn split_state(s: Seq<char>) -> (Seq<Seq<char>>, Seq<char>)
    decreases s.len(),
{
    if s.len() == 0 {
        (Seq::empty(), Seq::empty())
    } else {
        let prev = split_state(s.drop_last());
        if s.last() == '/' {
            if prev.1.len() > 0 {
                (prev.0.push(prev.1), Seq::empty())
            } else {
                (prev.0, Seq::empty())
            }
        } else {
            (prev.0, prev.1.push(s.last()))
        }
    }
}

/// The non-empty runs of a text between separators.
pub open spec fn comps_of(s: Seq<char>) -> Seq<Seq<char>> {
    let st = split_state(s);
    if st.1.len() > 0 {
        st.0.push(st.1)
    } else {
        st.0
    }
}

/// What path_absolutize makes of a text read against a base directory.
pub uninterp spec fn absolutized_against(s: Seq<char>, base: Seq<char>) -> Seq<char>;

/// The components of the path that a text names, a relative text read from `base`.
pub open spec fn resolve_path(s: Seq<char>, base: Seq<char>) -> Seq<Seq<char>> {
    comps_of(absolutized_against(s, base))
}

/// The components of the path that a text names, a relative text read from the root.
pub open spec fn parse_path(s: Seq<char>) -> Seq<Seq<char>> {
    resolve_path(s, seq!['/'])
}

/// The text "/" splits into no components.
pub proof fn lemma_root_text_has_no_components()
    ensures
        comps_of(seq!['/']) == Seq::<Seq<char>>::empty(),
{
    let s = seq!['/'];
    assert(s.drop_last() =~= Seq::<char>::empty());
    assert(split_state(s.drop_last()) == (Seq::<Seq<char>>::empty(), Seq::<char>::empty()));
    assert(split_state(s) == (Seq::<Seq<char>>::empty(), Seq::<char>::empty()));
}

/// Relies on path_absolutize's `absolutize_from`: `s` resolved against the absolute `base`.
/// With an absolute base its source keeps the root, so the result is absolute, and it
/// neither fails nor panics on Unix; the root text "/" comes back as it is.
#[verifier::external_body]
pub(crate) fn absolutize_against(s: &str, base: &str) -> (r: String)
    requires
        is_absolute_text(base@),
    ensures
        r@ == absolutized_against(s@, base@),
        is_absolute_text(r@),
        s@ == seq!['/'] ==> r@ == seq!['/'],
{
    std::path::Path::new(s).absolutize_from(base).unwrap().to_string_lossy().into_owned()
}

/// Relies on std's `slice::sort`: the result is sorted and holds the same values.
#[verifier::external_body]
fn sort_hashes(v: &mut Vec<u64>)
    ensures
        sorted(final(v)@),
        final(v)@.to_multiset() == old(v)@.to_multiset(),
{
    v.sort()
}

/// Whether a sorted vector holds a value, by binary search.
pub fn sorted_contains(v: &Vec<u64>, x: u64) -> (r: bool)
    requires
        sorted(v@),
    ensures
        r == v@.contains(x),
{
    let mut lo: usize = 0;
    let mut hi: usize = v.len();
    while lo < hi
        invariant
            0 <= lo <= hi <= v.len(),
            sorted(v@),
            forall|i: int| 0 <= i < lo ==> v@[i] < x,
            forall|i: int| hi <= i < v.len() ==> v@[i] > x,
        decreases hi - lo,
    {
        let mid = lo + (hi - lo) / 2;
        if v[mid] == x {
            return true;
        } else if v[mid] < x {
            lo = mid + 1;
        } else {
            hi = mid;
        }
    }
    false
}

proof fn lemma_comps_view_push(v: Seq<String>, s: String)
    ensures
        comps_view(v.push(s)) == comps_view(v).push(s@),
{
    assert(comps_view(v.push(s)) =~= comps_view(v).push(s@));
}

/// Splits a text into its non-empty runs between separators.
pub fn split_components(s: &str) -> (r: Vec<String>)
    ensures
        comps_view(r@) == comps_of(s@),
{
    let n = s.unicode_len();
    let mut done: Vec<String> = Vec::new();
    let mut start: usize = 0;
    let mut i: usize = 0;
    while i < n
        invariant
            n == s@.len(),
            start <= i <= n,
            split_state(s@.take(i as int)) == (comps_view(done@), s@.subrange(
                start as int,
                i as int,
            )),
        decreases n - i,
    {
        let c = s.get_char(i);
        proof {
            assert(s@.take(i + 1).drop_last() =~= s@.take(i as int));
            assert(s@.take(i + 1).last() == c);
        }
        if c == '/' {
            if start < i {
                let part = s.substring_char(start, i).to_owned();
                proof {
                    lemma_comps_view_push(done@, part);
                }
                done.push(part);
            }
            start = i + 1;
        } else {
            assert(s@.subrange(start as int, i as int).push(c) =~= s@.subrange(
                start as int,
                i + 1,
            ));
        }
        i = i + 1;
    }
    assert(s@.take(n as int) =~= s@);
    if start < n {
        let part = s.substring_char(start, n).to_owned();
        proof {
            lemma_comps_view_push(done@, part);
        }
        done.push(part);
    }
    done
}

/// `a` is an ancestor of `p` as the hashes tell it: the root, or a path whose hash is the
/// hash of one of `p`'s non-root ancestors.
pub open spec fn hash_ancestor(a: Seq<Seq<char>>, p: Seq<Seq<char>>) -> bool {
    a.len() == 0 || prefix_hashes(p).contains(path_hash(a))
}

/// `a` is the parent of `p` as the hashes tell it; the root has no parent.
pub open spec fn hash_parent(a: Seq<Seq<char>>, p: Seq<Seq<char>>) -> bool {
    p.len() > 0 && if p.len() >= 2 {
        path_hash(a) == path_hash(p.drop_last())
    } else {
        a.len() == 0
    }
}

/// No ancestor of `p` but `b` itself shares `b`'s hash.
pub open spec fn no_hash_collision(b: Seq<Seq<char>>, p: Seq<Seq<char>>) -> bool {
    forall|k: int|
        1 <= k <= p.len() && #[trigger] p.take(k) != b ==> path_hash(p.take(k)) != path_hash(b)
}

/// Every ancestor of a path, the root and the path itself included, passes the hashed
/// ancestor test.
pub proof fn lemma_ancestor_passes(a: Seq<Seq<char>>, p: Seq<Seq<char>>)
    requires
        is_ancestor(a, p),
    ensures
        hash_ancestor(a, p),
{
    if a.len() > 0 {
        let k = a.len() - 1;
        assert(p.take(k + 1) == a);
        assert(prefix_hashes(p)[k] == path_hash(a));
    }
}

/// Where no other ancestor of `p` shares `b`'s hash, the hashed ancestor test is exact:
/// it holds of `b` exactly when `b` is an ancestor of `p`.
pub proof fn lemma_ancestor_test_exact(b: Seq<Seq<char>>, p: Seq<Seq<char>>)
    requires
        no_hash_collision(b, p),
    ensures
        hash_ancestor(b, p) <==> is_ancestor(b, p),
{
    if is_ancestor(b, p) {
        lemma_ancestor_passes(b, p);
    }
    if b.len() == 0 {
        assert(p.take(0) =~= b);
    }
    if hash_ancestor(b, p) && b.len() > 0 {
        let k = choose|k: int| 0 <= k < prefix_hashes(p).len() && prefix_hashes(p)[k] == path_hash(b);
        assert(path_hash(p.take(k + 1)) == path_hash(b));
        assert(p.take(k + 1) == b);
    }
}

/// The parent of a path passes the hashed parent test, and where no other ancestor of the
/// path shares a candidate's hash, no other candidate does; the root has no parent.
pub proof fn lemma_parent_test_exact(a: Seq<Seq<char>>, p: Seq<Seq<char>>)
    requires
        no_hash_collision(a, p),
    ensures
        hash_parent(a, p) <==> is_parent(a, p),
        p.len() == 0 ==> !hash_parent(a, p),
{
    if p.len() >= 2 {
        assert(p.take(p.len() - 1) == p.drop_last());
        if path_hash(a) == path_hash(p.drop_last()) {
            assert(p.take(p.len() - 1) == a);
        }
    } else if p.len() == 1 {
        if a.len() == 0 {
            assert(p.drop_last() =~= a);
        }
    }
}

/// Three-way comparison of texts, character by character.
pub open spec fn text_cmp(a: Seq<char>, b: Seq<char>) -> Ordering
    decreases a.len(),
{
    if a.len() == 0 {
        if b.len() == 0 {
            Ordering::Equal
        } else {
            Ordering::Less
        }
    } else if b.len() == 0 {
        Ordering::Greater
    } else if a[0] < b[0] {
        Ordering::Less
    } else if a[0] > b[0] {
        Ordering::Greater
    } else {
        text_cmp(a.drop_first(), b.drop_first())
    }
}

/// Three-way comparison of paths, component by component.
pub open spec fn path_cmp(a: Seq<Seq<char>>, b: Seq<Seq<char>>) -> Ordering
    decreases a.len(),
{
    if a.len() == 0 {
        if b.len() == 0 {
            Ordering::Equal
        } else {
            Ordering::Less
        }
    } else if b.len() == 0 {
        Ordering::Greater
    } else if text_cmp(a[0], b[0]) != Ordering::Equal {
        text_cmp(a[0], b[0])
    } else {
        path_cmp(a.drop_first(), b.drop_first())
    }
}

/// `text_cmp` is antisymmetric, and Equal only for equal texts.
pub proof fn lemma_text_cmp_antisym(a: Seq<char>, b: Seq<char>)
    ensures
        text_cmp(a, b) == Ordering::Less <==> text_cmp(b, a) == Ordering::Greater,
        text_cmp(a, b) == Ordering::Equal <==> a == b,
    decreases a.len(),
{
    if a.len() > 0 && b.len() > 0 && a[0] == b[0] {
        lemma_text_cmp_antisym(a.drop_first(), b.drop_first());
        if a.drop_first() == b.drop_first() {
            assert(a =~= seq![a[0]] + a.drop_first());
            assert(b =~= seq![b[0]] + b.drop_first());
            assert(a =~= b);
        }
    }
    if a.len() == 0 && b.len() == 0 {
        assert(a =~= b);
    }
}

/// `text_cmp` is transitive.
pub proof fn lemma_text_cmp_trans(a: Seq<char>, b: Seq<char>, c: Seq<char>)
    ensures
        text_cmp(a, b) != Ordering::Greater && text_cmp(b, c) != Ordering::Greater ==> text_cmp(a, c)
            != Ordering::Greater,
        text_cmp(a, b) == Ordering::Less && text_cmp(b, c) != Ordering::Greater ==> text_cmp(a, c)
            == Ordering::Less,
        text_cmp(a, b) != Ordering::Greater && text_cmp(b, c) == Ordering::Less ==> text_cmp(a, c)
            == Ordering::Less,
    decreases a.len(),
{
    if a.len() > 0 && b.len() > 0 && c.len() > 0 {
        lemma_text_cmp_trans(a.drop_first(), b.drop_first(), c.drop_first());
    }
}

/// Three-way path comparison is antisymmetric, and Equal only for equal paths.
pub proof fn lemma_path_cmp_antisym(a: Seq<Seq<char>>, b: Seq<Seq<char>>)
    ensures
        path_cmp(a, b) == Ordering::Less <==> path_cmp(b, a) == Ordering::Greater,
        path_cmp(a, b) == Ordering::Equal <==> a == b,
    decreases a.len(),
{
    if a.len() > 0 && b.len() > 0 {
        lemma_text_cmp_antisym(a[0], b[0]);
        lemma_text_cmp_antisym(b[0], a[0]);
        if text_cmp(a[0], b[0]) == Ordering::Equal {
            lemma_path_cmp_antisym(a.drop_first(), b.drop_first());
            if a.drop_first() == b.drop_first() {
                assert(a =~= seq![a[0]] + a.drop_first());
                assert(b =~= seq![b[0]] + b.drop_first());
            }
        }
    }
    if a.len() == 0 && b.len() == 0 {
        assert(a =~= b);
    }
}

/// Three-way path comparison is transitive.
pub proof fn lemma_path_cmp_trans(a: Seq<Seq<char>>, b: Seq<Seq<char>>, c: Seq<Seq<char>>)
    ensures
        path_cmp(a, b) != Ordering::Greater && path_cmp(b, c) != Ordering::Greater ==> path_cmp(a, c)
            != Ordering::Greater,
        path_cmp(a, b) == Ordering::Less && path_cmp(b, c) != Ordering::Greater ==> path_cmp(a, c)
            == Ordering::Less,
    decreases a.len(),
{
    if a.len() > 0 && b.len() > 0 && c.len() > 0 {
        lemma_text_cmp_trans(a[0], b[0], c[0]);
        lemma_text_cmp_antisym(a[0], b[0]);
        lemma_text_cmp_antisym(b[0], c[0]);
        lemma_text_cmp_antisym(a[0], c[0]);
        lemma_path_cmp_trans(a.drop_first(), b.drop_first(), c.drop_first());
    }
}

fn compare_texts(a: &str, b: &str) -> (r: Ordering)
    ensures
        r == text_cmp(a@, b@),
{
    let n = a.unicode_len();
    let m = b.unicode_len();
    let mut i: usize = 0;
    assert(a@.skip(0) =~= a@);
    assert(b@.skip(0) =~= b@);
    while i < n && i < m
        invariant
            n == a@.len(),
            m == b@.len(),
            i <= n,
            i <= m,
            text_cmp(a@, b@) == text_cmp(a@.skip(i as int), b@.skip(i as int)),
        decreases n - i,
    {
        let x = a.get_char(i);
        let y = b.get_char(i);
        assert(a@.skip(i as int)[0] == x);
        assert(b@.skip(i as int)[0] == y);
        if x < y {
            return Ordering::Less;
        } else if x > y {
            return Ordering::Greater;
        }
        assert(a@.skip(i as int).drop_first() =~= a@.skip(i + 1));
        assert(b@.skip(i as int).drop_first() =~= b@.skip(i + 1));
        i = i + 1;
    }
    if i < n {
        Ordering::Greater
    } else if i < m {
        Ordering::Less
    } else {
        assert(a@.skip(i as int).len() == 0);
        Ordering::Equal
    }
}

fn compare_components(a: &Vec<String>, b: &Vec<String>) -> (r: Ordering)
    ensures
        r == path_cmp(comps_view(a@), comps_view(b@)),
{
    let ghost ca = comps_view(a@);
    let ghost cb = comps_view(b@);
    let n = a.len();
    let m = b.len();
    let mut i: usize = 0;
    assert(ca.skip(0) =~= ca);
    assert(cb.skip(0) =~= cb);
    while i < n && i < m
        invariant
            n == a.len(),
            m == b.len(),
            ca == comps_view(a@),
            cb == comps_view(b@),
            i <= n,
            i <= m,
            path_cmp(ca, cb) == path_cmp(ca.skip(i as int), cb.skip(i as int)),
        decreases n - i,
    {
        let c = compare_texts(a[i].as_str(), b[i].as_str());
        assert(ca.skip(i as int)[0] == a@[i as int]@);
        assert(cb.skip(i as int)[0] == b@[i as int]@);
        assert(ca.skip(i as int).len() > 0 && cb.skip(i as int).len() > 0);
        match c {
            Ordering::Equal => {},
            _ => {
                return c;
            },
        }
        assert(ca.skip(i as int).drop_first() =~= ca.skip(i + 1));
        assert(cb.skip(i as int).drop_first() =~= cb.skip(i + 1));
        i = i + 1;
    }
    if i < n {
        Ordering::Greater
    } else if i < m {
        Ordering::Less
    } else {
        assert(ca.skip(i as int).len() == 0);
        Ordering::Equal
    }
}

pub fn is_absolute(s: &str) -> (r: bool)
    ensures
        r == is_absolute_text(s@),
{
    s.unicode_len() > 0 && s.get_char(0) == '/'
}

// ---------------------------------------------------------------------------
// Errors
// ---------------------------------------------------------------------------

/// A path that does not start at the root was given where an absolute one is needed.
#[derive(Debug, PartialEq, Eq)]
pub struct PathNotAbsolute {
    pub path: String,
}

// ---------------------------------------------------------------------------
// Hashed absolute path
// ---------------------------------------------------------------------------

/// An absolute path with its hash, the hash of its parent and the sorted hashes of its
/// ancestors, for ancestor and parent tests that compare numbers only.
#[derive(Debug)]
pub struct HashedAbsolutePath {
    path: String,
    comps: Vec<String>,
    hash: u64,
    parent_hash: Option<u64>,
    comp_hashes: Vec<u64>,
}

impl View for HashedAbsolutePath {
    type V = Seq<Seq<char>>;

    closed spec fn view(&self) -> Seq<Seq<char>> {
        comps_view(self.comps@)
    }
}

/// The facts that every hashed path keeps about its fields.
pub open spec fn hashed_fields_agree(
    c: Seq<Seq<char>>,
    text: Seq<char>,
    hash: u64,
    parent_hash: Option<u64>,
    comp_hashes: Seq<u64>,
) -> bool {
    &&& text == path_text(c)
    &&& hash == path_hash(c)
    &&& parent_hash == parent_hash_of(c)
    &&& sorted(comp_hashes)
    &&& comp_hashes.to_multiset() == prefix_hashes(c).to_multiset()
    &&& forall|h: u64| comp_hashes.contains(h) <==> prefix_hashes(c).contains(h)
}

/// The text of the path made of all given components, and the hashes of its non-root
/// ancestors, shortest first.
fn prefix_texts_hashes(comps: &Vec<String>) -> (r: (String, Vec<u64>))
    ensures
        r.0@ == joined(comps_view(comps@)),
        r.1@ == prefix_hashes(comps_view(comps@)),
{
    let ghost c = comps_view(comps@);
    let n = comps.len();
    let mut text = String::new();
    let mut hashes: Vec<u64> = Vec::new();
    let mut j: usize = 0;
    proof {
        reveal_strlit("/");
    }
    while j < n
        invariant
            j <= n,
            n == comps.len(),
            c == comps_view(comps@),
            c.len() == n,
            text@ == joined(c.take(j as int)),
            hashes@ == prefix_hashes(c).take(j as int),
            "/"@ == seq!['/'],
        decreases n - j,
    {
        text.append("/");
        text.append(comps[j].as_str());
        proof {
            assert(c.take(j + 1).drop_last() =~= c.take(j as int));
            assert(c.take(j + 1).last() == comps@[j as int]@);
        }
        let h = text.hash_value();
        hashes.push(h);
        j = j + 1;
        assert(hashes@ =~= prefix_hashes(c).take(j as int));
    }
    assert(c.take(n as int) =~= c);
    assert(hashes@ =~= prefix_hashes(c));
    (text, hashes)
}

/// Builds the hashed fields of the path whose components are given.
fn hashed_fields(comps: &Vec<String>) -> (r: (String, u64, Option<u64>, Vec<u64>))
    ensures
        hashed_fields_agree(comps_view(comps@), r.0@, r.1, r.2, r.3@),
{
    let ghost c = comps_view(comps@);
    let n = comps.len();
    let (text, mut hashes) = prefix_texts_hashes(comps);
    let parent_hash = if n >= 2 {
        assert(c.take(n - 1) =~= c.drop_last());
        Some(hashes[n - 2])
    } else {
        None
    };
    let text = if n == 0 {
        proof {
            reveal_strlit("/");
        }
        String::from_str("/")
    } else {
        text
    };
    let hash = text.hash_value();
    let ghost before = hashes@;
    sort_hashes(&mut hashes);
    proof {
        assert(before == prefix_hashes(c));
        assert forall|h: u64| hashes@.contains(h) <==> prefix_hashes(c).contains(h) by {
            before.to_multiset_ensures();
            hashes@.to_multiset_ensures();
            assert(hashes@.to_multiset() == before.to_multiset());
            assert(hashes@.contains(h) <==> hashes@.to_multiset().count(h) > 0);
            assert(before.contains(h) <==> before.to_multiset().count(h) > 0);
        }
    }
    assert(text@ == path_text(c));
    assert(hash == path_hash(c));
    (text, hash, parent_hash, hashes)
}

impl HashedAbsolutePath {
    #[verifier::type_invariant]
    closed spec fn inv(&self) -> bool {
        hashed_fields_agree(
            self@,
            self.path@,
            self.hash,
            self.parent_hash,
            self.comp_hashes@,
        )
    }

    /// The hash of this path.
    pub open spec fn spec_hash(&self) -> u64 {
        path_hash(self@)
    }

    /// The path whose components are given.
    pub fn from_components(comps: Vec<String>) -> (r: Self)
        ensures
            r@ == comps_view(comps@),
    {
        let (path, hash, parent_hash, comp_hashes) = hashed_fields(&comps);
        HashedAbsolutePath { path, comps, hash, parent_hash, comp_hashes }
    }

    /// The path that a text names; a relative text is read from the root.
    pub fn from_text(s: &str) -> (r: Self)
        ensures
            r@ == parse_path(s@),
            s@ == seq!['/'] ==> r@.len() == 0,
    {
        let root = "/";
        proof {
            reveal_strlit("/");
            assert(root@ =~= seq!['/']);
        }
        Self::from_text_against(s, root)
    }

    /// The path that a text names; a relative text is read from the absolute `base`.
    pub fn from_text_against(s: &str, base: &str) -> (r: Self)
        requires
            is_absolute_text(base@),
        ensures
            r@ == resolve_path(s@, base@),
            s@ == seq!['/'] ==> r@.len() == 0,
    {
        let abs = absolutize_against(s, base);
        proof {
            lemma_root_text_has_no_components();
        }
        let comps = split_components(abs.as_str());
        Self::from_components(comps)
    }

    /// The text of this path.
    pub fn as_path(&self) -> (r: &str)
        ensures
            r@ == path_text(self@),
    {
        proof {
            use_type_invariant(self);
        }
        self.path.as_str()
    }

    pub fn components(&self) -> (r: &Vec<String>)
        ensures
            comps_view(r@) == self@,
    {
        &self.comps
    }

    pub fn is_root(&self) -> (r: bool)
        ensures
            r == (self@.len() == 0),
    {
        self.comps.len() == 0
    }

    pub fn hash(&self) -> (r: u64)
        ensures
            r == path_hash(self@),
    {
        proof {
            use_type_invariant(self);
        }
        self.hash
    }

    pub fn parent_hash(&self) -> (r: Option<u64>)
        ensures
            r == parent_hash_of(self@),
    {
        proof {
            use_type_invariant(self);
        }
        self.parent_hash
    }

    /// The sorted hashes of the non-root ancestors, as held.
    pub closed spec fn spec_comp_hashes(&self) -> Seq<u64> {
        self.comp_hashes@
    }

    pub fn comp_hashes(&self) -> (r: &Vec<u64>)
        ensures
            r@ == self.spec_comp_hashes(),
            sorted(r@),
            r@.to_multiset() == prefix_hashes(self@).to_multiset(),
            forall|h: u64| r@.contains(h) <==> prefix_hashes(self@).contains(h),
    {
        proof {
            use_type_invariant(self);
        }
        &self.comp_hashes
    }

    /// A second value of this path, with the same fields.
    pub fn duplicate(&self) -> (r: Self)
        ensures
            r@ == self@,
            r.spec_comp_hashes() == self.spec_comp_hashes(),
    {
        proof {
            use_type_invariant(self);
        }
        let comp_hashes = self.comp_hashes.clone();
        assert(comp_hashes@ =~= self.comp_hashes@);
        HashedAbsolutePath {
            path: self.path.clone(),
            comps: self.comps.clone(),
            hash: self.hash,
            parent_hash: self.parent_hash,
            comp_hashes,
        }
    }
}


impl HashedAbsolutePath {
    /// Whether `hash` is the hash of one of this path's non-root ancestors, itself included.
    pub fn comp_hash_matches(&self, comp_hash: u64) -> (r: bool)
        ensures
            r == prefix_hashes(self@).contains(comp_hash),
    {
        proof {
            use_type_invariant(self);
        }
        sorted_contains(&self.comp_hashes, comp_hash)
    }

    /// Whether `path` is an ancestor of this path (itself and the root included), by hashes.
    pub fn starts_with_hap(&self, path: &HashedAbsolutePath) -> (r: bool)
        ensures
            r == hash_ancestor(path@, self@),
            is_ancestor(path@, self@) ==> r,
    {
        proof {
            if is_ancestor(path@, self@) {
                lemma_ancestor_passes(path@, self@);
            }
        }
        if path.is_root() {
            return true;
        }
        self.comp_hash_matches(path.hash())
    }

    /// Whether the path that `path` names is an ancestor of this one; `path` must be absolute.
    pub fn starts_with(&self, path: &str) -> (r: Result<bool, PathNotAbsolute>)
        ensures
            r is Ok <==> is_absolute_text(path@),
            r is Ok ==> r->Ok_0 == hash_ancestor(parse_path(path@), self@),
            path@ == seq!['/'] ==> r is Ok && r->Ok_0,
    {
        if !is_absolute(path) {
            return Err(PathNotAbsolute { path: path.to_owned() });
        }
        let other = HashedAbsolutePath::from_text(path);
        Ok(self.starts_with_hap(&other))
    }

    /// Whether `path` is the parent of this path, by hashes; the root has no parent.
    pub fn parent_is_hap(&self, path: &HashedAbsolutePath) -> (r: bool)
        ensures
            r == hash_parent(path@, self@),
            is_parent(path@, self@) ==> r,
    {
        proof {
            use_type_invariant(self);
        }
        if self.is_root() {
            return false;
        }
        match self.parent_hash {
            Some(h) => {
                proof {
                    if is_parent(path@, self@) {
                        assert(path@ == self@.drop_last());
                    }
                }
                h == path.hash()
            },
            None => {
                proof {
                    if self@.len() == 1 && path@.len() == 0 {
                        assert(self@.drop_last() =~= path@);
                    }
                }
                path.is_root()
            },
        }
    }

    /// Whether the path that `path` names is the parent of this one; `path` must be absolute.
    pub fn parent_is(&self, path: &str) -> (r: Result<bool, PathNotAbsolute>)
        ensures
            r is Ok <==> is_absolute_text(path@),
            r is Ok ==> r->Ok_0 == hash_parent(parse_path(path@), self@),
    {
        if !is_absolute(path) {
            return Err(PathNotAbsolute { path: path.to_owned() });
        }
        let other = HashedAbsolutePath::from_text(path);
        Ok(self.parent_is_hap(&other))
    }

    /// The same path, as the variant that hashed path sets of views hold.
    pub fn to_absolute_path_ref(&self) -> (r: HashedAbsolutePathRef)
        ensures
            r@ == self@,
            r.spec_comp_hashes() == self.spec_comp_hashes(),
    {
        HashedAbsolutePathRef { path: self.duplicate() }
    }

    /// The parent of this path; the root has none.
    pub fn parent(&self) -> (r: Option<HashedAbsolutePath>)
        ensures
            self@.len() == 0 <==> r is None,
            r is Some ==> r->Some_0@ == self@.drop_last(),
    {
        let n = self.comps.len();
        if n == 0 {
            return None;
        }
        let mut comps: Vec<String> = Vec::new();
        let mut j: usize = 0;
        while j < n - 1
            invariant
                n == self.comps.len(),
                n > 0,
                j <= n - 1,
                comps_view(comps@) == self@.take(j as int),
            decreases n - 1 - j,
        {
            let c = self.comps[j].clone();
            proof {
                lemma_comps_view_push(comps@, c);
                assert(self@.take(j as int).push(c@) =~= self@.take(j + 1));
            }
            comps.push(c);
            j = j + 1;
        }
        assert(self@.take(n - 1) =~= self@.drop_last());
        Some(HashedAbsolutePath::from_components(comps))
    }

    /// The path of the child named `name` below this one.
    pub fn join(&self, name: &str) -> (r: HashedAbsolutePath)
        ensures
            r@ == self@.push(name@),
    {
        let mut comps = self.comps.clone();
        proof {
            assert(comps_view(comps@) =~= self@);
        }
        let c = name.to_owned();
        proof {
            lemma_comps_view_push(comps@, c);
        }
        comps.push(c);
        HashedAbsolutePath::from_components(comps)
    }
}

impl From<&str> for HashedAbsolutePath {
    fn from(s: &str) -> Self {
        HashedAbsolutePath::from_text(s)
    }
}

impl vstd::std_specs::convert::FromSpecImpl<&str> for HashedAbsolutePath {
    open spec fn obeys_from_spec() -> bool {
        false
    }

    open spec fn from_spec(v: &str) -> HashedAbsolutePath {
        arbitrary()
    }
}

impl PartialEq for HashedAbsolutePath {
    fn eq(&self, other: &HashedAbsolutePath) -> (r: bool) {
        self.hash() == other.hash()
    }
}

impl vstd::std_specs::cmp::PartialEqSpecImpl for HashedAbsolutePath {
    open spec fn obeys_eq_spec() -> bool {
        true
    }

    open spec fn eq_spec(&self, other: &HashedAbsolutePath) -> bool {
        self.spec_hash() == other.spec_hash()
    }
}

impl Eq for HashedAbsolutePath {

}

impl PartialOrd for HashedAbsolutePath {
    fn partial_cmp(&self, other: &HashedAbsolutePath) -> (r: Option<Ordering>) {
        Some(compare_components(&self.comps, &other.comps))
    }
}

impl vstd::std_specs::cmp::PartialOrdSpecImpl for HashedAbsolutePath {
    open spec fn obeys_partial_cmp_spec() -> bool {
        true
    }

    open spec fn partial_cmp_spec(&self, other: &HashedAbsolutePath) -> Option<Ordering> {
        Some(path_cmp(self@, other@))
    }
}

/// A hashed absolute path as the derived views of duplicate groups hold it.
#[derive(Debug)]
pub struct HashedAbsolutePathRef {
    path: HashedAbsolutePath,
}

impl View for HashedAbsolutePathRef {
    type V = Seq<Seq<char>>;

    closed spec fn view(&self) -> Seq<Seq<char>> {
        self.path@
    }
}

impl HashedAbsolutePathRef {
    pub open spec fn spec_hash(&self) -> u64 {
        path_hash(self@)
    }

    /// The path that `path` names; it must be absolute.
    pub fn new(path: &str) -> (r: Result<HashedAbsolutePathRef, PathNotAbsolute>)
        ensures
            r is Ok <==> is_absolute_text(path@),
            r is Ok ==> r->Ok_0@ == parse_path(path@),
    {
        if !is_absolute(path) {
            return Err(PathNotAbsolute { path: path.to_owned() });
        }
        Ok(HashedAbsolutePathRef { path: HashedAbsolutePath::from_text(path) })
    }

    /// The text of this path.
    pub fn inner(&self) -> (r: &str)
        ensures
            r@ == path_text(self@),
    {
        self.path.as_path()
    }

    pub fn as_path(&self) -> (r: &str)
        ensures
            r@ == path_text(self@),
    {
        self.path.as_path()
    }

    /// The owned hashed path that this one stands for.
    pub fn as_hashed(&self) -> (r: &HashedAbsolutePath)
        ensures
            r@ == self@,
    {
        &self.path
    }

    pub fn hash(&self) -> (r: u64)
        ensures
            r == path_hash(self@),
    {
        self.path.hash()
    }

    pub fn parent_hash(&self) -> (r: Option<u64>)
        ensures
            r == parent_hash_of(self@),
    {
        self.path.parent_hash()
    }

    pub closed spec fn spec_comp_hashes(&self) -> Seq<u64> {
        self.path.spec_comp_hashes()
    }

    pub fn comp_hashes(&self) -> (r: &Vec<u64>)
        ensures
            r@ == self.spec_comp_hashes(),
            sorted(r@),
            r@.to_multiset() == prefix_hashes(self@).to_multiset(),
            forall|h: u64| r@.contains(h) <==> prefix_hashes(self@).contains(h),
    {
        self.path.comp_hashes()
    }

    pub fn comp_hash_matches(&self, comp_hash: u64) -> (r: bool)
        ensures
            r == prefix_hashes(self@).contains(comp_hash),
    {
        self.path.comp_hash_matches(comp_hash)
    }

    /// Whether `path` is an ancestor of this path (itself and the root included), by hashes.
    pub fn starts_with_hashed_path(&self, path: &HashedAbsolutePath) -> (r: bool)
        ensures
            r == hash_ancestor(path@, self@),
            is_ancestor(path@, self@) ==> r,
    {
        self.path.starts_with_hap(path)
    }

    /// Whether the path that `path` names is an ancestor of this one; `path` must be absolute.
    pub fn starts_with(&self, path: &str) -> (r: Result<bool, PathNotAbsolute>)
        ensures
            r is Ok <==> is_absolute_text(path@),
            r is Ok ==> r->Ok_0 == hash_ancestor(parse_path(path@), self@),
            path@ == seq!['/'] ==> r is Ok && r->Ok_0,
    {
        self.path.starts_with(path)
    }

    /// Whether the path that `path` names is the parent of this one; `path` must be absolute.
    pub fn parent_is(&self, path: &str) -> (r: Result<bool, PathNotAbsolute>)
        ensures
            r is Ok <==> is_absolute_text(path@),
            r is Ok ==> r->Ok_0 == hash_parent(parse_path(path@), self@),
    {
        self.path.parent_is(path)
    }

    /// Whether `path` is the parent of this path, by hashes; the root has no parent.
    pub fn parent_is_hap(&self, path: &HashedAbsolutePath) -> (r: bool)
        ensures
            r == hash_parent(path@, self@),
            is_parent(path@, self@) ==> r,
    {
        self.path.parent_is_hap(path)
    }

    pub fn duplicate(&self) -> (r: HashedAbsolutePathRef)
        ensures
            r@ == self@,
            r.spec_comp_hashes() == self.spec_comp_hashes(),
    {
        HashedAbsolutePathRef { path: self.path.duplicate() }
    }
}

impl PartialEq for HashedAbsolutePathRef {
    fn eq(&self, other: &HashedAbsolutePathRef) -> (r: bool) {
        self.hash() == other.hash()
    }
}

impl vstd::std_specs::cmp::PartialEqSpecImpl for HashedAbsolutePathRef {
    open spec fn obeys_eq_spec() -> bool {
        true
    }

    open spec fn eq_spec(&self, other: &HashedAbsolutePathRef) -> bool {
        self.spec_hash() == other.spec_hash()
    }
}

impl Eq for HashedAbsolutePathRef {

}

impl PartialOrd for HashedAbsolutePathRef {
    fn partial_cmp(&self, other: &HashedAbsolutePathRef) -> (r: Option<Ordering>) {
        self.path.partial_cmp(&other.path)
    }
}

impl vstd::std_specs::cmp::PartialOrdSpecImpl for HashedAbsolutePathRef {
    open spec fn obeys_partial_cmp_spec() -> bool {
        true
    }

    open spec fn partial_cmp_spec(&self, other: &HashedAbsolutePathRef) -> Option<Ordering> {
        Some(path_cmp(self@, other@))
    }
}

/// A value that carries the hash of a path.
pub trait HashedPath {
    fn path_hash(&self) -> u64;
}

/// A value that carries the text of a path.
pub trait AsPath {
    fn as_path(&self) -> &str;
}

/// A value that carries the sorted hashes of a path's ancestors.
pub trait HashedParentCompsPath {
    fn comp_hashes(&self) -> &Vec<u64>;
}

impl HashedPath for HashedAbsolutePath {
    fn path_hash(&self) -> u64 {
        self.hash()
    }
}

impl HashedPath for HashedAbsolutePathRef {
    fn path_hash(&self) -> u64 {
        self.hash()
    }
}

impl AsPath for HashedAbsolutePath {
    fn as_path(&self) -> &str {
        HashedAbsolutePath::as_path(self)
    }
}

impl AsPath for HashedAbsolutePathRef {
    fn as_path(&self) -> &str {
        HashedAbsolutePathRef::as_path(self)
    }
}

impl HashedParentCompsPath for HashedAbsolutePath {
    fn comp_hashes(&self) -> &Vec<u64> {
        HashedAbsolutePath::comp_hashes(self)
    }
}

impl HashedParentCompsPath for HashedAbsolutePathRef {
    fn comp_hashes(&self) -> &Vec<u64> {
        HashedAbsolutePathRef::comp_hashes(self)
    }
}

/// The paths that a sequence of hashed paths holds.
pub open spec fn paths_view(v: Seq<HashedAbsolutePath>) -> Seq<Seq<Seq<char>>> {
    v.map_values(|p: HashedAbsolutePath| p@)
}

pub open spec fn ref_paths_view(v: Seq<HashedAbsolutePathRef>) -> Seq<Seq<Seq<char>>> {
    v.map_values(|p: HashedAbsolutePathRef| p@)
}

/// `p` is held by `s`, equality going by hashes.
pub open spec fn hash_member(s: Seq<Seq<Seq<char>>>, p: Seq<Seq<char>>) -> bool {
    exists|i: int| 0 <= i < s.len() && path_hash(#[trigger] s[i]) == path_hash(p)
}

/// No two entries of `s` share a hash.
pub open spec fn distinct_hashes(s: Seq<Seq<Seq<char>>>) -> bool {
    forall|i: int, j: int|
        0 <= i < s.len() && 0 <= j < s.len() && i != j ==> path_hash(#[trigger] s[i]) != path_hash(
            #[trigger] s[j],
        )
}

/// The paths of `s` come in path order.
pub open spec fn path_sorted(s: Seq<Seq<Seq<char>>>) -> bool {
    forall|i: int, j: int| 0 <= i < j < s.len() ==> path_cmp(#[trigger] s[i], #[trigger] s[j]) != Ordering::Greater
}

/// Inserting a path whose hash `s` does not hold adds exactly that hash and keeps the
/// hashes distinct.
proof fn lemma_insert_members(s: Seq<Seq<Seq<char>>>, pos: int, x: Seq<Seq<char>>)
    requires
        distinct_hashes(s),
        !hash_member(s, x),
        0 <= pos <= s.len(),
    ensures
        distinct_hashes(s.insert(pos, x)),
        forall|q: Seq<Seq<char>>|
            hash_member(s.insert(pos, x), q) <==> hash_member(s, q) || path_hash(q) == path_hash(x),
{
    let t = s.insert(pos, x);
    assert forall|q: Seq<Seq<char>>| hash_member(t, q) <==> hash_member(s, q) || path_hash(q) == path_hash(x) by {
        if hash_member(s, q) {
            let i = choose|i: int| 0 <= i < s.len() && path_hash(s[i]) == path_hash(q);
            if i < pos {
                assert(t[i] == s[i]);
            } else {
                assert(t[i + 1] == s[i]);
            }
        }
        if path_hash(q) == path_hash(x) {
            assert(t[pos] == x);
        }
        if hash_member(t, q) {
            let i = choose|i: int| 0 <= i < t.len() && path_hash(t[i]) == path_hash(q);
            if i < pos {
                assert(s[i] == t[i]);
            } else if i > pos {
                assert(s[i - 1] == t[i]);
            }
        }
    }
    lemma_insert_distinct(s, pos, x);
}

/// Inserting a path whose hash `s` does not hold keeps the hashes distinct.
proof fn lemma_insert_distinct(s: Seq<Seq<Seq<char>>>, pos: int, x: Seq<Seq<char>>)
    requires
        distinct_hashes(s),
        !hash_member(s, x),
        0 <= pos <= s.len(),
    ensures
        distinct_hashes(s.insert(pos, x)),
{
    let t = s.insert(pos, x);
    assert forall|i: int, j: int|
        0 <= i < t.len() && 0 <= j < t.len() && i != j implies path_hash(#[trigger] t[i]) != path_hash(
            #[trigger] t[j],
        ) by {
        let bi = if i < pos { i } else { i - 1 };
        let bj = if j < pos { j } else { j - 1 };
        if i != pos && j != pos {
            assert(t[i] == s[bi]);
            assert(t[j] == s[bj]);
        } else if i == pos {
            assert(t[j] == s[bj]);
        } else {
            assert(t[i] == s[bi]);
        }
    }
}

/// Inserting `x` before the first path that it compares below keeps a sorted sequence sorted.
proof fn lemma_insert_keeps_order(s: Seq<Seq<Seq<char>>>, pos: int, x: Seq<Seq<char>>)
    requires
        path_sorted(s),
        0 <= pos <= s.len(),
        forall|j: int| 0 <= j < pos ==> path_cmp(x, #[trigger] s[j]) != Ordering::Less,
        pos < s.len() ==> path_cmp(x, s[pos]) == Ordering::Less,
    ensures
        path_sorted(s.insert(pos, x)),
{
    let t = s.insert(pos, x);
    assert forall|i: int, j: int| 0 <= i < j < t.len() implies path_cmp(#[trigger] t[i], #[trigger] t[j]) != Ordering::Greater by {
        if i == pos {
            let sj = s[j - 1];
            assert(t[j] == sj);
            if j - 1 > pos {
                assert(path_cmp(s[pos], s[j - 1]) != Ordering::Greater);
            }
            lemma_path_cmp_trans(x, s[pos], sj);
            lemma_path_cmp_antisym(x, s[pos]);
        } else if j == pos {
            assert(t[i] == s[i]);
            lemma_path_cmp_antisym(x, s[i]);
        } else {
            let si = if i < pos { i } else { i - 1 };
            let sj = if j < pos { j } else { j - 1 };
            assert(t[i] == s[si]);
            assert(t[j] == s[sj]);
        }
    }
}

/// A set of hashed absolute paths, kept in path order; two paths with one hash count as one.
#[derive(Debug)]
pub struct HashedAbsolutePathSet {
    paths: Vec<HashedAbsolutePath>,
}

impl View for HashedAbsolutePathSet {
    type V = Seq<Seq<Seq<char>>>;

    closed spec fn view(&self) -> Seq<Seq<Seq<char>>> {
        paths_view(self.paths@)
    }
}

impl HashedAbsolutePathSet {
    #[verifier::type_invariant]
    closed spec fn inv(&self) -> bool {
        distinct_hashes(self@) && path_sorted(self@)
    }

    pub fn new() -> (r: HashedAbsolutePathSet)
        ensures
            r@.len() == 0,
    {
        let r = HashedAbsolutePathSet { paths: Vec::new() };
        assert(r@ =~= Seq::empty());
        r
    }

    pub fn len(&self) -> (r: usize)
        ensures
            r == self@.len(),
    {
        self.paths.len()
    }

    pub fn is_empty(&self) -> (r: bool)
        ensures
            r == (self@.len() == 0),
    {
        self.paths.len() == 0
    }

    /// The paths held.
    pub fn paths(&self) -> (r: &Vec<HashedAbsolutePath>)
        ensures
            paths_view(r@) == self@,
            distinct_hashes(self@),
            path_sorted(self@),
    {
        proof {
            use_type_invariant(self);
        }
        &self.paths
    }

    /// Whether a path with the hash of `path` is held.
    pub fn contains(&self, path: &HashedAbsolutePath) -> (r: bool)
        ensures
            r == hash_member(self@, path@),
    {
        let h = path.hash();
        let mut i: usize = 0;
        while i < self.paths.len()
            invariant
                i <= self.paths.len(),
                h == path_hash(path@),
                forall|k: int| 0 <= k < i ==> path_hash(#[trigger] self@[k]) != h,
            decreases self.paths.len() - i,
        {
            if self.paths[i].hash() == h {
                assert(path_hash(self@[i as int]) == path_hash(path@));
                return true;
            }
            i = i + 1;
        }
        false
    }

    /// Adds `path` unless a path with its hash is held; returns whether it was added.
    pub fn insert(&mut self, path: HashedAbsolutePath) -> (r: bool)
        ensures
            r == !hash_member(old(self)@, path@),
            forall|q: Seq<Seq<char>>|
                hash_member(final(self)@, q) <==> hash_member(old(self)@, q) || path_hash(q)
                    == path_hash(path@),
            r ==> final(self)@.len() == old(self)@.len() + 1,
            !r ==> final(self)@ == old(self)@,
            path_sorted(final(self)@),
    {
        proof {
            use_type_invariant(&*self);
        }
        if self.contains(&path) {
            return false;
        }
        let mut pos: usize = 0;
        let mut found = false;
        while pos < self.paths.len() && !found
            invariant
                pos <= self.paths.len(),
                forall|j: int| 0 <= j < pos ==> path_cmp(path@, #[trigger] self@[j]) != Ordering::Less,
                found ==> pos < self.paths.len() && path_cmp(path@, self@[pos as int]) == Ordering::Less,
            decreases self.paths.len() - pos + if found { 0int } else { 1int },
        {
            match compare_components(&path.comps, &self.paths[pos].comps) {
                Ordering::Less => {
                    found = true;
                },
                _ => {
                    pos = pos + 1;
                },
            }
        }
        let ghost before = self@;
        let ghost pv = path@;
        let mut taken = HashedAbsolutePathSet::new();
        std::mem::swap(self, &mut taken);
        let HashedAbsolutePathSet { paths: mut v } = taken;
        v.insert(pos, path);
        proof {
            assert(paths_view(v@) =~= before.insert(pos as int, pv));
            lemma_insert_keeps_order(before, pos as int, pv);
            assert(!hash_member(before, pv));
        }
        proof {
            lemma_insert_members(before, pos as int, pv);
        }
        *self = HashedAbsolutePathSet { paths: v };
        true
    }

    /// Whether some held path lies under `base` (or is `base`); `base` must be absolute.
    pub fn contains_parent_of(&self, base: &str) -> (r: Result<bool, PathNotAbsolute>)
        ensures
            r is Ok <==> is_absolute_text(base@),
            r is Ok ==> r->Ok_0 == exists|i: int|
                0 <= i < self@.len() && hash_ancestor(parse_path(base@), #[trigger] self@[i]),
    {
        if !is_absolute(base) {
            return Err(PathNotAbsolute { path: base.to_owned() });
        }
        let b = HashedAbsolutePath::from_text(base);
        let mut i: usize = 0;
        while i < self.paths.len()
            invariant
                i <= self.paths.len(),
                b@ == parse_path(base@),
                is_absolute_text(base@),
                forall|k: int| 0 <= k < i ==> !hash_ancestor(b@, #[trigger] self@[k]),
            decreases self.paths.len() - i,
        {
            if self.paths[i].starts_with_hap(&b) {
                assert(hash_ancestor(b@, self@[i as int]));
                return Ok(true);
            }
            i = i + 1;
        }
        Ok(false)
    }
}

/// A set of hashed absolute path views; two paths with one hash count as one.
#[derive(Debug)]
pub struct HashedAbsolutePathRefSet {
    paths: Vec<HashedAbsolutePathRef>,
}

impl View for HashedAbsolutePathRefSet {
    type V = Seq<Seq<Seq<char>>>;

    closed spec fn view(&self) -> Seq<Seq<Seq<char>>> {
        ref_paths_view(self.paths@)
    }
}

impl HashedAbsolutePathRefSet {
    /// The paths held, given up by the set.
    pub fn into_paths(self) -> (r: Vec<HashedAbsolutePathRef>)
        ensures
            ref_paths_view(r@) == self@,
            distinct_hashes(self@),
    {
        proof {
            use_type_invariant(&self);
        }
        self.paths
    }

    #[verifier::type_invariant]
    closed spec fn inv(&self) -> bool {
        distinct_hashes(self@)
    }

    /// The set holding exactly the given paths, in the given order.
    pub fn from_distinct(paths: Vec<HashedAbsolutePathRef>) -> (r: HashedAbsolutePathRefSet)
        requires
            distinct_hashes(ref_paths_view(paths@)),
        ensures
            r@ == ref_paths_view(paths@),
    {
        HashedAbsolutePathRefSet { paths }
    }

    pub fn new() -> (r: HashedAbsolutePathRefSet)
        ensures
            r@.len() == 0,
    {
        let r = HashedAbsolutePathRefSet { paths: Vec::new() };
        assert(r@ =~= Seq::empty());
        r
    }

    pub fn len(&self) -> (r: usize)
        ensures
            r == self@.len(),
    {
        self.paths.len()
    }

    pub fn is_empty(&self) -> (r: bool)
        ensures
            r == (self@.len() == 0),
    {
        self.paths.len() == 0
    }

    /// The paths held.
    pub fn paths(&self) -> (r: &Vec<HashedAbsolutePathRef>)
        ensures
            ref_paths_view(r@) == self@,
            distinct_hashes(self@),
    {
        proof {
            use_type_invariant(self);
        }
        &self.paths
    }

    /// Whether a path with the hash of `path` is held.
    pub fn contains(&self, path: &HashedAbsolutePathRef) -> (r: bool)
        ensures
            r == hash_member(self@, path@),
    {
        let h = path.hash();
        let mut i: usize = 0;
        while i < self.paths.len()
            invariant
                i <= self.paths.len(),
                h == path_hash(path@),
                forall|k: int| 0 <= k < i ==> path_hash(#[trigger] self@[k]) != h,
            decreases self.paths.len() - i,
        {
            if self.paths[i].hash() == h {
                assert(path_hash(self@[i as int]) == path_hash(path@));
                return true;
            }
            i = i + 1;
        }
        false
    }

    /// Adds `path` unless a path with its hash is held; returns whether it was added.
    pub fn insert(&mut self, path: HashedAbsolutePathRef) -> (r: bool)
        ensures
            r == !hash_member(old(self)@, path@),
            forall|q: Seq<Seq<char>>|
                hash_member(final(self)@, q) <==> hash_member(old(self)@, q) || path_hash(q)
                    == path_hash(path@),
            r ==> final(self)@.len() == old(self)@.len() + 1,
            !r ==> final(self)@ == old(self)@,
    {
        proof {
            use_type_invariant(&*self);
        }
        if self.contains(&path) {
            return false;
        }
        let mut pos: usize = 0;
        while pos < self.paths.len()
            invariant
                pos <= self.paths.len(),
            decreases self.paths.len() - pos,
        {
            match path.partial_cmp(&self.paths[pos]) {
                Some(Ordering::Less) => {
                    break;
                },
                _ => {},
            }
            pos = pos + 1;
        }
        let ghost before = self@;
        let ghost pv = path@;
        let mut taken = HashedAbsolutePathRefSet::new();
        std::mem::swap(self, &mut taken);
        let HashedAbsolutePathRefSet { paths: mut v } = taken;
        v.insert(pos, path);
        proof {
            assert(ref_paths_view(v@) =~= before.insert(pos as int, pv));
        }
        *self = HashedAbsolutePathRefSet { paths: v };
        proof {
            assert forall|q: Seq<Seq<char>>|
                hash_member(self@, q) <==> hash_member(before, q) || path_hash(q) == path_hash(
                    pv,
                ) by {
                if hash_member(before, q) {
                    let i = choose|i: int| 0 <= i < before.len() && path_hash(before[i]) == path_hash(q);
                    if i < pos {
                        assert(self@[i] == before[i]);
                    } else {
                        assert(self@[i + 1] == before[i]);
                    }
                }
                if path_hash(q) == path_hash(pv) {
                    assert(self@[pos as int] == pv);
                }
                if hash_member(self@, q) {
                    let i = choose|i: int| 0 <= i < self@.len() && path_hash(self@[i]) == path_hash(q);
                    if i < pos {
                        assert(before[i] == self@[i]);
                    } else if i > pos {
                        assert(before[i - 1] == self@[i]);
                    }
                }
            }
            assert forall|i: int, j: int|
                0 <= i < self@.len() && 0 <= j < self@.len() && i != j implies path_hash(
                    #[trigger] self@[i],
                ) != path_hash(#[trigger] self@[j]) by {
                let bi = if i < pos { i } else { i - 1 };
                let bj = if j < pos { j } else { j - 1 };
                if i != pos as int && j != pos as int {
                    assert(self@[i] == before[bi]);
                    assert(self@[j] == before[bj]);
                } else if i == pos as int {
                    assert(self@[j] == before[bj]);
                } else {
                    assert(self@[i] == before[bi]);
                }
            }
        }
        true
    }
}

/// Whether the components of `a` are the first components of `b`, compared text by text.
pub fn comps_are_prefix(a: &Vec<String>, b: &Vec<String>) -> (r: bool)
    ensures
        r == is_ancestor(comps_view(a@), comps_view(b@)),
{
    let ghost ca = comps_view(a@);
    let ghost cb = comps_view(b@);
    if a.len() > b.len() {
        return false;
    }
    let mut i: usize = 0;
    while i < a.len()
        invariant
            a.len() <= b.len(),
            ca == comps_view(a@),
            cb == comps_view(b@),
            i <= a.len(),
            forall|k: int| 0 <= k < i ==> ca[k] == cb[k],
        decreases a.len() - i,
    {
        if a[i] != b[i] {
            assert(ca[i as int] != cb[i as int]);
            assert(cb.take(ca.len() as int)[i as int] != ca[i as int]);
            return false;
        }
        i = i + 1;
    }
    assert(cb.take(ca.len() as int) =~= ca);
    true
}

impl HashedAbsolutePath {
    /// Whether `path` is an ancestor of this path (itself and the root included), comparing
    /// components rather than hashes.
    pub fn has_ancestor_exact(&self, path: &HashedAbsolutePath) -> (r: bool)
        ensures
            r == is_ancestor(path@, self@),
    {
        comps_are_prefix(&path.comps, &self.comps)
    }
}

} // verus!
