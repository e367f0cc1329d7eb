pub mod clones;

use vstd::prelude::*;

use crate::path::{
    comps_view, is_absolute, is_absolute_text, is_ancestor, parse_path, path_text, HashedAbsolutePath,
};
use vstd::string::StringExecFns;

verus! {

/// Whether a node is a file or a directory.
#[derive(Debug, Clone, Copy, PartialEq, Eq, Structural)]
pub enum NodeKind {
    File,
    Directory,
}

/// The kind of node to insert for a path.
#[derive(Debug, Clone, Copy, PartialEq, Eq, Structural)]
pub enum PathKind {
    File,
    Directory,
}

impl PathKind {
    pub open spec fn node_kind(self) -> NodeKind {
        match self {
            PathKind::File => NodeKind::File,
            PathKind::Directory => NodeKind::Directory,
        }
    }

    pub fn is_file(&self) -> (r: bool)
        ensures
            r == (*self == PathKind::File),
    {
        match self {
            PathKind::File => true,
            PathKind::Directory => false,
        }
    }
}

/// The order of a traversal: each node before its descendants, or level by level.
#[derive(Debug, Clone, Copy, PartialEq, Eq, Structural)]
pub enum TraversalOrder {
    Pre,
    Level,
}

/// Which files a file listing covers: the direct children, or the whole subtree in one of
/// the two orders.
#[derive(Debug, Clone, Copy, PartialEq, Eq, Structural)]
pub enum FilesIterKind {
    Children,
    RecursivePreOrder,
    RecursiveLevelOrder,
}

/// The model of a node: its kind, name, absolute path, parent and children (as node ids).
pub struct NodeView {
    pub kind: NodeKind,
    pub name: Seq<char>,
    pub path: Seq<Seq<char>>,
    pub parent: Option<usize>,
    pub children: Seq<usize>,
}

pub struct NodeData {
    kind: NodeKind,
    name: String,
    path: HashedAbsolutePath,
    parent: Option<usize>,
    children: Vec<usize>,
}

impl View for NodeData {
    type V = NodeView;

    closed spec fn view(&self) -> NodeView {
        NodeView {
            kind: self.kind,
            name: self.name@,
            path: self.path@,
            parent: self.parent,
            children: self.children@,
        }
    }
}

pub open spec fn nodes_view(v: Seq<NodeData>) -> Seq<NodeView> {
    v.map_values(|n: NodeData| n@)
}

/// The tree's shape holds: node 0 is the root directory; every other node hangs below an
/// earlier directory, its path that directory's path and its own name, and is listed among
/// that directory's children; files have no children; no two nodes share a path.
pub open spec fn tree_wf(t: Seq<NodeView>) -> bool {
    &&& t.len() >= 1
    &&& t[0].path.len() == 0
    &&& t[0].kind == NodeKind::Directory
    &&& t[0].parent is None
    &&& forall|i: int|
        #![trigger t[i].parent]
        1 <= i < t.len() ==> {
            let p = t[i].parent;
            &&& p is Some
            &&& (p->Some_0 as int) < i
            &&& t[p->Some_0 as int].kind == NodeKind::Directory
            &&& t[i].path == t[p->Some_0 as int].path.push(t[i].name)
            &&& t[p->Some_0 as int].children.contains(i as usize)
        }
    &&& forall|i: int, k: int|
        #![trigger t[i].children[k]]
        0 <= i < t.len() && 0 <= k < t[i].children.len() ==> {
            let c = t[i].children[k] as int;
            &&& i < c < t.len()
            &&& t[c].parent == Some(i as usize)
        }
    &&& forall|i: int| 0 <= i < t.len() ==> (#[trigger] t[i].children).no_duplicates()
    &&& forall|i: int|
        0 <= i < t.len() && (#[trigger] t[i].kind) == NodeKind::File ==> t[i].children.len() == 0
    &&& forall|i: int, j: int|
        0 <= i < t.len() && 0 <= j < t.len() && i != j ==> (#[trigger] t[i].path) != (
        #[trigger] t[j].path)
}

/// The tree holds a node with path `p`.
pub open spec fn tree_has(t: Seq<NodeView>, p: Seq<Seq<char>>) -> bool {
    exists|i: int| 0 <= i < t.len() && (#[trigger] t[i]).path == p
}

/// The tree holds a node with path `p` and kind `k`.
pub open spec fn tree_has_kind(t: Seq<NodeView>, p: Seq<Seq<char>>, k: NodeKind) -> bool {
    exists|i: int| 0 <= i < t.len() && (#[trigger] t[i]).path == p && t[i].kind == k
}

/// Some proper, non-root prefix of `p` is a file of the tree.
pub open spec fn blocked_by_file(t: Seq<NodeView>, p: Seq<Seq<char>>) -> bool {
    exists|k: int| 1 <= k < p.len() && tree_has_kind(t, #[trigger] p.take(k), NodeKind::File)
}

/// Every ancestor of every node's path is the path of some node.
pub proof fn lemma_ancestors_exist(t: Seq<NodeView>, j: int, k: int)
    requires
        tree_wf(t),
        0 <= j < t.len(),
        0 <= k <= t[j].path.len(),
    ensures
        exists|a: int| 0 <= a < t.len() && (#[trigger] t[a]).path == t[j].path.take(k),
    decreases j,
{
    if k == t[j].path.len() {
        assert(t[j].path.take(k) =~= t[j].path);
    } else if j == 0 {
        assert(false);
    } else {
        let p = t[j].parent->Some_0 as int;
        assert(t[j].parent is Some);
        assert(t[j].path == t[p].path.push(t[j].name));
        lemma_ancestors_exist(t, p, k);
        assert(t[p].path.take(k) =~= t[j].path.take(k));
    }
}

/// The node whose path is a proper prefix of an existing node's path is a directory.
pub proof fn lemma_prefix_is_directory(t: Seq<NodeView>, j: int, k: int, a: int)
    requires
        tree_wf(t),
        0 <= j < t.len(),
        0 <= k < t[j].path.len(),
        0 <= a < t.len(),
        t[a].path == t[j].path.take(k),
    ensures
        t[a].kind == NodeKind::Directory,
{
    lemma_ancestors_exist(t, j, k + 1);
    let b = choose|b: int| 0 <= b < t.len() && (#[trigger] t[b]).path == t[j].path.take(k + 1);
    assert(t[b].path.len() == k + 1);
    if b == 0 {
        assert(false);
    }
    let p = t[b].parent->Some_0 as int;
    assert(t[b].parent is Some);
    assert(t[p].path.push(t[b].name) == t[b].path);
    assert(t[p].path =~= t[b].path.drop_last());
    assert(t[j].path.take(k + 1).drop_last() =~= t[j].path.take(k));
    assert(t[p].path == t[a].path);
}

/// A node with a non-root path is a child of the node whose path is its parent's path.
pub proof fn lemma_child_of_parent_path(t: Seq<NodeView>, b: int, a: int)
    requires
        tree_wf(t),
        0 <= b < t.len(),
        0 <= a < t.len(),
        t[b].path.len() > 0,
        t[a].path == t[b].path.drop_last(),
    ensures
        t[a].children.contains(b as usize),
        t[b].name == t[b].path.last(),
{
    if b == 0 {
        assert(false);
    }
    let p = t[b].parent->Some_0 as int;
    assert(t[b].parent is Some);
    assert(t[p].path.push(t[b].name) == t[b].path);
    assert(t[p].path =~= t[b].path.drop_last());
}

/// The file system tree: an arena of nodes addressed by their index, node 0 being the root.
pub struct FSTree {
    nodes: Vec<NodeData>,
}

impl View for FSTree {
    type V = Seq<NodeView>;

    closed spec fn view(&self) -> Seq<NodeView> {
        nodes_view(self.nodes@)
    }
}

/// A path was looked up that no node of the tree has.
#[derive(Debug, PartialEq, Eq)]
pub struct PathNotFound {
    pub path: String,
}

/// A node that had to be a directory is a file.
#[derive(Debug, PartialEq, Eq)]
pub struct NodeIsNotADirectory {
    pub path: String,
}

/// A path that had to be a directory is a file.
#[derive(Debug, PartialEq, Eq)]
pub struct PathIsNotADirectory {
    pub path: String,
}

/// A path that had to lie below a node does not.
#[derive(Debug, PartialEq, Eq)]
pub struct PathNotPartOfNode {
    pub path: String,
    pub node_path: String,
}

/// Why an insertion failed.
#[derive(Debug, PartialEq, Eq)]
pub enum InsertChildError {
    NodeIsNotADirectory(NodeIsNotADirectory),
    Hierarchy { path: String, node_path: String },
}

/// Why a traversal below a path failed.
#[derive(Debug, PartialEq, Eq)]
pub enum TraversePathError {
    NodeIsNotADirectory(NodeIsNotADirectory),
    PathNotFound(PathNotFound),
    PathIsNotADirectory(PathIsNotADirectory),
    PathNotPartOfNode(PathNotPartOfNode),
}

/// Why a lookup below a node failed.
#[derive(Debug, PartialEq, Eq)]
pub enum NodePathNodeIdError {
    PathNotPartOfNode(PathNotPartOfNode),
    PathNotFound(PathNotFound),
}

impl FSTree {
    pub open spec fn wf(&self) -> bool {
        tree_wf(self@)
    }

    /// The tree with the root directory alone.
    pub fn new() -> (r: FSTree)
        ensures
            r.wf(),
            r@.len() == 1,
    {
        let root = HashedAbsolutePath::from_components(Vec::new());
        let name = String::new();
        proof {
            assert(comps_view(Seq::<String>::empty()) =~= Seq::empty());
        }
        let mut nodes: Vec<NodeData> = Vec::new();
        nodes.push(
            NodeData {
                kind: NodeKind::Directory,
                name,
                path: root,
                parent: None,
                children: Vec::new(),
            },
        );
        let r = FSTree { nodes };
        assert(r@[0].children =~= Seq::<usize>::empty());
        r
    }

    pub fn node_count(&self) -> (r: usize)
        ensures
            r == self@.len(),
    {
        self.nodes.len()
    }

    pub fn root_node_id(&self) -> (r: usize)
        requires
            self.wf(),
        ensures
            r == 0,
            self@[r as int].path.len() == 0,
    {
        0
    }

    /// The child of `node` named `name`.
    fn find_child(&self, node: usize, name: &String) -> (r: Option<usize>)
        requires
            self.wf(),
            node < self@.len(),
        ensures
            r is Some ==> self@[node as int].children.contains(r->Some_0) && self@[r->Some_0 as int].name
                == name@ && (r->Some_0 as int) < self@.len(),
            r is None ==> forall|k: int|
                0 <= k < self@[node as int].children.len() ==> self@[#[trigger] self@[node as int].children[k] as int].name
                    != name@,
    {
        let children = &self.nodes[node].children;
        assert(children@ == self@[node as int].children);
        let mut k: usize = 0;
        while k < children.len()
            invariant
                self.wf(),
                node < self@.len(),
                children@ == self@[node as int].children,
                k <= children.len(),
                forall|k2: int|
                    0 <= k2 < k ==> self@[#[trigger] self@[node as int].children[k2] as int].name
                        != name@,
            decreases children.len() - k,
        {
            let c = children[k];
            assert(self@[node as int].children[k as int] == c);
            assert((c as int) < self@.len());
            if self.nodes[c].name == *name {
                assert(self@[node as int].children.contains(c));
                return Some(c);
            }
            k = k + 1;
        }
        None
    }

    /// The node with path `path`.
    pub fn path_node_id(&self, path: &HashedAbsolutePath) -> (r: Option<usize>)
        requires
            self.wf(),
        ensures
            r is Some <==> tree_has(self@, path@),
            r is Some ==> (r->Some_0 as int) < self@.len() && self@[r->Some_0 as int].path == path@,
    {
        let comps = path.components();
        let ghost p = path@;
        let n = self.nodes.len();
        let mut cur: usize = 0;
        let mut k: usize = 0;
        assert(p.take(0) =~= Seq::<Seq<char>>::empty());
        while k < comps.len()
            invariant
                self.wf(),
                comps_view(comps@) == p,
                p == path@,
                n == self@.len(),
                k <= comps.len(),
                (cur as int) < self@.len(),
                self@[cur as int].path == p.take(k as int),
            decreases comps.len() - k,
        {
            match self.find_child(cur, &comps[k]) {
                Some(c) => {
                    proof {
                        lemma_child_parent_path(self@, cur as int, c);
                        assert(p[k as int] == comps@[k as int]@);
                        assert(p.take(k + 1) =~= p.take(k as int).push(p[k as int]));
                    }
                    cur = c;
                },
                None => {
                    proof {
                        if tree_has(self@, p) {
                            let j = choose|j: int| 0 <= j < self@.len() && (#[trigger] self@[j]).path == p;
                            lemma_ancestors_exist(self@, j, k + 1);
                            let b = choose|b: int| 0 <= b < self@.len() && (#[trigger] self@[b]).path == p.take(k + 1);
                            assert(p.take(k + 1).drop_last() =~= p.take(k as int));
                            lemma_child_of_parent_path(self@, b, cur as int);
                            let bu = b as usize;
                            assert(bu as int == b);
                            assert(self@[cur as int].children.contains(bu));
                            let idx = choose|idx: int| 0 <= idx < self@[cur as int].children.len() && self@[cur as int].children[idx] == bu;
                            assert(p.take(k + 1).last() == p[k as int]);
                            assert(self@[b].name == p[k as int]);
                            assert(p[k as int] == comps@[k as int]@);
                            assert(self@[self@[cur as int].children[idx] as int].name != comps@[k as int]@);
                        }
                    }
                    return None;
                },
            }
            k = k + 1;
        }
        assert(p.take(comps.len() as int) =~= p);
        Some(cur)
    }
}

impl FSTree {
    /// Adds a node named `name` of kind `kind` below the directory `parent`, which has no
    /// child of that name; returns its id.
    fn add_child(&mut self, parent: usize, name: &String, kind: NodeKind) -> (r: usize)
        requires
            old(self).wf(),
            parent < old(self)@.len(),
            old(self)@[parent as int].kind == NodeKind::Directory,
            forall|k: int|
                0 <= k < old(self)@[parent as int].children.len() ==> old(self)@[#[trigger] old(
                    self,
                )@[parent as int].children[k] as int].name != name@,
        ensures
            final(self).wf(),
            r == old(self)@.len(),
            final(self)@.len() == old(self)@.len() + 1,
            final(self)@[r as int].path == old(self)@[parent as int].path.push(name@),
            final(self)@[r as int].kind == kind,
            final(self)@[r as int].children.len() == 0,
            forall|i: int|
                0 <= i < old(self)@.len() ==> (#[trigger] final(self)@[i]).path == old(self)@[i].path
                    && final(self)@[i].kind == old(self)@[i].kind,
    {
        let ghost t = self@;
        let m = self.nodes.len();
        let path = self.nodes[parent].path.join(name.as_str());
        let node = NodeData {
            kind,
            name: name.clone(),
            path,
            parent: Some(parent),
            children: Vec::new(),
        };
        self.nodes.push(node);
        self.nodes[parent].children.push(m);
        proof {
            let u = self@;
            assert(u.len() == t.len() + 1);
            assert forall|i: int| 0 <= i < t.len() && i != parent as int implies #[trigger] u[i] == t[i] by {}
            assert(u[parent as int].children == t[parent as int].children.push(m));
            assert(u[parent as int].path == t[parent as int].path);
            assert(u[parent as int].kind == t[parent as int].kind);
            assert(u[parent as int].parent == t[parent as int].parent);
            assert(u[m as int].path == t[parent as int].path.push(name@));
            assert(u[m as int].children.len() == 0);
            // a node with the new path would be a child of `parent` named `name`
            assert forall|j: int| 0 <= j < t.len() implies (#[trigger] t[j]).path != u[m as int].path by {
                if t[j].path == u[m as int].path {
                    assert(t[parent as int].path =~= t[j].path.drop_last());
                    lemma_child_of_parent_path(t, j, parent as int);
                    let bu = j as usize;
                    let idx = choose|idx: int| 0 <= idx < t[parent as int].children.len() && t[parent as int].children[idx] == bu;
                    assert(t[t[parent as int].children[idx] as int].name != name@);
                }
            }
            assert forall|i: int|
                #![trigger u[i].parent]
                1 <= i < u.len() implies {
                    let p = u[i].parent;
                    &&& p is Some
                    &&& (p->Some_0 as int) < i
                    &&& u[p->Some_0 as int].kind == NodeKind::Directory
                    &&& u[i].path == u[p->Some_0 as int].path.push(u[i].name)
                    &&& u[p->Some_0 as int].children.contains(i as usize)
                } by {
                if i < t.len() {
                    assert(t[i].parent is Some);
                    let p = t[i].parent->Some_0 as int;
                    assert(t[p].children.contains(i as usize));
                    if p == parent as int {
                        let idx = choose|idx: int| 0 <= idx < t[p].children.len() && t[p].children[idx] == i as usize;
                        assert(u[p].children[idx] == i as usize);
                    }
                } else {
                    assert(u[parent as int].children[t[parent as int].children.len() as int] == m);
                }
            }
            assert forall|i: int, k: int|
                0 <= i < u.len() && 0 <= k < u[i].children.len() implies {
                    let c = #[trigger] u[i].children[k] as int;
                    &&& i < c < u.len()
                    &&& u[c].parent == Some(i as usize)
                } by {
                if i == parent as int && k == t[parent as int].children.len() {
                } else if i < t.len() {
                    assert(u[i].children[k] == t[i].children[k]);
                }
            }
            assert forall|i: int| 0 <= i < u.len() implies (#[trigger] u[i].children).no_duplicates() by {
                if i == parent as int {
                    assert forall|k: int| 0 <= k < t[i].children.len() implies t[i].children[k] != m by {
                        assert(t[i].children[k] < t.len());
                    }
                    assert(t[i].children.no_duplicates());
                    assert(u[i].children == t[i].children.push(m));
                    assert forall|a: int, b: int| 0 <= a < u[i].children.len() && 0 <= b < u[i].children.len() && a != b implies u[i].children[a] != u[i].children[b] by {
                        if a < t[i].children.len() && b < t[i].children.len() {
                            assert(u[i].children[a] == t[i].children[a]);
                            assert(u[i].children[b] == t[i].children[b]);
                        } else if a < t[i].children.len() {
                            assert(u[i].children[a] == t[i].children[a]);
                        } else {
                            assert(u[i].children[b] == t[i].children[b]);
                        }
                    }
                } else if i == m as int {
                    assert(u[i].children.len() == 0);
                }
            }
            assert forall|i: int| 0 <= i < u.len() && (#[trigger] u[i].kind) == NodeKind::File implies u[i].children.len() == 0 by {
                if i == parent as int {
                    assert(false);
                }
            }
            assert forall|i: int, j: int|
                0 <= i < u.len() && 0 <= j < u.len() && i != j implies (#[trigger] u[i].path) != (
                #[trigger] u[j].path) by {
                if i == m as int {
                    assert(t[j].path != u[m as int].path);
                } else if j == m as int {
                    assert(t[i].path != u[m as int].path);
                } else {
                    assert(u[i].path == t[i].path);
                    assert(u[j].path == t[j].path);
                }
            }
        }
        m
    }
}

/// Where `find_child` finds no child of `cur` named `p[k]`, and `cur` has the path of `p`'s
/// first `k` components, the tree has neither that prefix of one more component nor `p`.
pub proof fn lemma_missing_child(t: Seq<NodeView>, cur: int, p: Seq<Seq<char>>, k: int)
    requires
        tree_wf(t),
        t.len() <= usize::MAX,
        0 <= cur < t.len(),
        0 <= k < p.len(),
        t[cur].path == p.take(k),
        forall|k2: int|
            0 <= k2 < t[cur].children.len() ==> t[#[trigger] t[cur].children[k2] as int].name != p[k],
    ensures
        !tree_has(t, p.take(k + 1)),
        !tree_has(t, p),
{
    if tree_has(t, p.take(k + 1)) {
        let b = choose|b: int| 0 <= b < t.len() && (#[trigger] t[b]).path == p.take(k + 1);
        assert(p.take(k + 1).drop_last() =~= p.take(k));
        lemma_child_of_parent_path(t, b, cur);
        let bu = b as usize;
        assert(t[cur].children.contains(bu));
        let idx = choose|idx: int| 0 <= idx < t[cur].children.len() && t[cur].children[idx] == bu;
        assert(p.take(k + 1).last() == p[k]);
        assert(t[t[cur].children[idx] as int].name != p[k]);
    }
    if tree_has(t, p) {
        let j = choose|j: int| 0 <= j < t.len() && (#[trigger] t[j]).path == p;
        lemma_ancestors_exist(t, j, k + 1);
        let b = choose|b: int| 0 <= b < t.len() && (#[trigger] t[b]).path == t[j].path.take(k + 1);
        assert(t[b].path == p.take(k + 1));
    }
}

impl FSTree {
    /// Inserts `path` with `kind`, creating the missing directories on the way; fails, with
    /// the tree unchanged, where a proper prefix of `path` is a file. An existing node is
    /// returned as it is.
    pub fn insert_path_impl(&mut self, path: &HashedAbsolutePath, kind: PathKind) -> (r: Result<
        usize,
        InsertChildError,
    >)
        requires
            old(self).wf(),
        ensures
            final(self).wf(),
            r is Err <==> blocked_by_file(old(self)@, path@),
            r is Err ==> final(self)@ == old(self)@ && r->Err_0 is NodeIsNotADirectory,
            tree_has(old(self)@, path@) ==> r is Ok && final(self)@ == old(self)@,
            r is Ok ==> (r->Ok_0 as int) < final(self)@.len() && final(self)@[r->Ok_0 as int].path
                == path@,
            r is Ok && !tree_has(old(self)@, path@) ==> final(self)@[r->Ok_0 as int].kind
                == kind.node_kind(),
            r is Ok ==> forall|q: Seq<Seq<char>>|
                tree_has(final(self)@, q) <==> tree_has(old(self)@, q) || is_ancestor(q, path@),
            r is Ok ==> inserted(old(self)@, final(self)@, path@, kind, r->Ok_0 as int),
            final(self)@.len() >= old(self)@.len(),
            forall|i: int|
                0 <= i < old(self)@.len() ==> (#[trigger] final(self)@[i]).path == old(self)@[i].path
                    && final(self)@[i].kind == old(self)@[i].kind,
    {
        let ghost t0 = self@;
        let ghost p = path@;
        let comps = path.components();
        let n = comps.len();
        let mut cur: usize = 0;
        let mut k: usize = 0;
        proof {
            assert(p.take(0) =~= Seq::<Seq<char>>::empty());
            if n == 0 {
                assert(t0[0].path =~= p);
            }
            assert forall|q: Seq<Seq<char>>|
                tree_has(self@, q) <==> tree_has(t0, q) || (is_ancestor(q, p) && q.len() <= 0) by {
                if is_ancestor(q, p) && q.len() <= 0 {
                    assert(q =~= self@[0].path);
                }
            }
        }
        while k < n
            invariant
                self.wf(),
                t0 == old(self)@,
                comps_view(comps@) == p,
                p == path@,
                n == comps.len(),
                k <= n,
                k == 0 || k < n,
                n == 0 ==> tree_has(t0, p),
                (cur as int) < self@.len(),
                self@[cur as int].path == p.take(k as int),
                self@[cur as int].kind == NodeKind::Directory,
                self@.len() > t0.len() ==> cur as int >= t0.len() && self@[cur as int].children.len() == 0,
                self@.len() >= t0.len(),
                self@.len() == t0.len() ==> self@ == t0,
                forall|i: int|
                    0 <= i < t0.len() ==> (#[trigger] self@[i]).path == t0[i].path && self@[i].kind
                        == t0[i].kind,
                forall|i: int|
                    t0.len() <= i < self@.len() ==> is_ancestor(#[trigger] self@[i].path, p)
                        && self@[i].kind == NodeKind::Directory,
                forall|q: Seq<Seq<char>>|
                    tree_has(self@, q) <==> tree_has(t0, q) || (is_ancestor(q, p) && q.len() <= k),
                forall|k2: int|
                    1 <= k2 <= k && k2 < n ==> !tree_has_kind(t0, #[trigger] p.take(k2), NodeKind::File),
                self@.len() > t0.len() ==> !tree_has(t0, p),
            decreases n - k,
        {
            proof {
                assert(p[k as int] == comps@[k as int]@);
                assert(p.take(k + 1) =~= p.take(k as int).push(p[k as int]));
            }
            let count = self.nodes.len();
            match self.find_child(cur, &comps[k]) {
                Some(c) => {
                    proof {
                        lemma_child_parent_path(self@, cur as int, c);
                        assert(self@[cur as int].children.len() > 0);
                        assert(self@.len() == t0.len());
                    }
                    if k + 1 < n {
                        match self.nodes[c].kind {
                            NodeKind::File => {
                                proof {
                                    // the file is an old node: new nodes are directories
                                    assert(self@[c as int].path == p.take(k + 1));
                                    if (c as int) >= t0.len() {
                                        assert(false);
                                    }
                                    assert(t0[c as int].path == p.take(k + 1));
                                    assert(tree_has_kind(t0, p.take(k + 1), NodeKind::File));
                                    assert(self@ == t0);
                                    if tree_has(t0, p) {
                                        let j = choose|j: int| 0 <= j < t0.len() && (#[trigger] t0[j]).path == p;
                                        lemma_prefix_is_directory(t0, j, k + 1, c as int);
                                    }
                                }
                                let path_text = self.nodes[c].path.as_path().to_owned();
                                return Err(
                                    InsertChildError::NodeIsNotADirectory(
                                        NodeIsNotADirectory { path: path_text },
                                    ),
                                );
                            },
                            NodeKind::Directory => {},
                        }
                    }
                    proof {
                        if k + 1 < n {
                            assert(self@[c as int].kind == NodeKind::Directory);
                            if (c as int) < t0.len() {
                                assert(t0[c as int].path == p.take(k + 1));
                            }
                        }
                        assert forall|q: Seq<Seq<char>>|
                            tree_has(self@, q) <==> tree_has(t0, q) || (is_ancestor(q, p) && q.len()
                                <= k + 1) by {
                            if is_ancestor(q, p) && q.len() == k + 1 {
                                assert(q == p.take(k + 1));
                                assert(self@[c as int].path == q);
                            }
                        }
                    }
                    if k + 1 < n {
                        cur = c;
                    } else {
                        cur = c;
                        k = k + 1;
                        proof {
                            assert(p.take(n as int) =~= p);
                        }
                        return Ok(cur);
                    }
                },
                None => {
                    proof {
                        assert(self@.len() == count);
                        lemma_missing_child(self@, cur as int, p, k as int);
                        if tree_has(t0, p) {
                            let j = choose|j: int| 0 <= j < t0.len() && (#[trigger] t0[j]).path == p;
                            assert(self@[j].path == p);
                        }
                        if tree_has(t0, p.take(k + 1)) {
                            let j = choose|j: int| 0 <= j < t0.len() && (#[trigger] t0[j]).path == p.take(k + 1);
                            assert(self@[j].path == p.take(k + 1));
                        }
                    }
                    let child_kind = if k + 1 == n && kind.is_file() {
                        NodeKind::File
                    } else {
                        NodeKind::Directory
                    };
                    let ghost before = self@;
                    let c = self.add_child(cur, &comps[k], child_kind);
                    proof {
                        assert(self@[c as int].path == p.take(k + 1));
                        assert(self@[c as int].kind == child_kind);
                        assert forall|q: Seq<Seq<char>>|
                            tree_has(self@, q) <==> tree_has(t0, q) || (is_ancestor(q, p) && q.len()
                                <= k + 1) by {
                            if tree_has(self@, q) {
                                let j = choose|j: int| 0 <= j < self@.len() && (#[trigger] self@[j]).path == q;
                                if j < before.len() {
                                    assert(before[j].path == q);
                                }
                            }
                            if tree_has(before, q) {
                                let j = choose|j: int| 0 <= j < before.len() && (#[trigger] before[j]).path == q;
                                assert(self@[j].path == q);
                            }
                            if is_ancestor(q, p) && q.len() == k + 1 {
                                assert(q == p.take(k + 1));
                            }
                        }
                        assert forall|k2: int|
                            1 <= k2 <= k + 1 && k2 < n implies !tree_has_kind(t0, #[trigger] p.take(k2), NodeKind::File) by {
                            if k2 == k + 1 && tree_has_kind(t0, p.take(k2), NodeKind::File) {
                                assert(tree_has(t0, p.take(k + 1)));
                            }
                        }
                        assert forall|i: int|
                            t0.len() <= i < self@.len() implies is_ancestor(#[trigger] self@[i].path, p)
                                && (self@[i].kind == NodeKind::Directory || (k + 1 == n)) by {
                            if i == c as int {
                                assert(p.take(k + 1).len() == k + 1);
                            } else {
                                assert(self@[i] == before[i] || i < before.len());
                            }
                        }
                    }
                    cur = c;
                    if k + 1 == n {
                        proof {
                            assert(p.take(n as int) =~= p);
                        }
                        return Ok(cur);
                    }
                },
            }
            k = k + 1;
        }
        proof {
            assert(p.take(n as int) =~= p);
        }
        Ok(cur)
    }
}

/// The ids below `n` that `want` selects, in increasing order.
pub open spec fn ids_where(n: int, want: spec_fn(int) -> bool) -> Seq<usize>
    decreases n,
{
    if n <= 0 {
        Seq::empty()
    } else if want(n - 1) {
        ids_where(n - 1, want).push((n - 1) as usize)
    } else {
        ids_where(n - 1, want)
    }
}

/// Node `i` lies in the subtree of `start` (`start` itself only when `include_start`) and has
/// the kind asked for, if one is.
pub open spec fn in_subtree(
    t: Seq<NodeView>,
    start: int,
    include_start: bool,
    kind: Option<NodeKind>,
) -> spec_fn(int) -> bool {
    |i: int|
        0 <= i < t.len() && is_ancestor(t[start].path, t[i].path) && (include_start || i != start)
            && match kind {
            Some(k) => t[i].kind == k,
            None => true,
        }
}

/// The ids of the subtree of `start` at depth `d`, in increasing order, for `d` below `depth`,
/// shallowest first.
pub open spec fn ids_by_depth(n: int, want: spec_fn(int) -> bool, t: Seq<NodeView>, depth: int) -> Seq<
    usize,
>
    decreases depth,
{
    if depth <= 0 {
        Seq::empty()
    } else {
        ids_by_depth(n, want, t, depth - 1) + ids_where(
            n,
            |i: int| want(i) && t[i].path.len() == depth - 1,
        )
    }
}

/// The ids in a traversal of the subtree of `start`: in the order the nodes were added, or
/// level by level (shallower first, the order of addition within a level).
pub open spec fn traversal(
    t: Seq<NodeView>,
    start: int,
    order: TraversalOrder,
    include_start: bool,
    kind: Option<NodeKind>,
) -> Seq<usize> {
    match order {
        TraversalOrder::Pre => ids_where(t.len() as int, in_subtree(t, start, include_start, kind)),
        TraversalOrder::Level => ids_by_depth(
            t.len() as int,
            in_subtree(t, start, include_start, kind),
            t,
            max_depth(t, t.len() as int) + 1,
        ),
    }
}

/// The greatest path length among the first `n` nodes.
pub open spec fn max_depth(t: Seq<NodeView>, n: int) -> int
    decreases n,
{
    if n <= 0 {
        0
    } else {
        let m = max_depth(t, n - 1);
        if t[n - 1].path.len() > m {
            t[n - 1].path.len() as int
        } else {
            m
        }
    }
}

/// The children of `node` of the kind asked for, in the order they were added.
pub open spec fn children_of_kind(t: Seq<NodeView>, cs: Seq<usize>, kind: Option<NodeKind>) -> Seq<usize>
    decreases cs.len(),
{
    if cs.len() == 0 {
        Seq::empty()
    } else {
        let prev = children_of_kind(t, cs.drop_last(), kind);
        let keep = match kind {
            Some(k) => t[cs.last() as int].kind == k,
            None => true,
        };
        if keep {
            prev.push(cs.last())
        } else {
            prev
        }
    }
}

impl FSTree {
    pub fn kind_of(&self, id: usize) -> (r: NodeKind)
        requires
            id < self@.len(),
        ensures
            r == self@[id as int].kind,
    {
        self.nodes[id].kind
    }

    pub fn path_of(&self, id: usize) -> (r: &HashedAbsolutePath)
        requires
            id < self@.len(),
        ensures
            r@ == self@[id as int].path,
    {
        &self.nodes[id].path
    }

    pub fn name_of(&self, id: usize) -> (r: &String)
        requires
            id < self@.len(),
        ensures
            r@ == self@[id as int].name,
    {
        &self.nodes[id].name
    }

    pub fn parent_of(&self, id: usize) -> (r: Option<usize>)
        requires
            id < self@.len(),
        ensures
            r == self@[id as int].parent,
    {
        self.nodes[id].parent
    }

    pub fn children_ids(&self, id: usize) -> (r: &Vec<usize>)
        requires
            id < self@.len(),
        ensures
            r@ == self@[id as int].children,
    {
        &self.nodes[id].children
    }

    fn matches_kind(&self, i: usize, kind: Option<NodeKind>) -> (r: bool)
        requires
            i < self@.len(),
        ensures
            r == match kind {
                Some(k) => self@[i as int].kind == k,
                None => true,
            },
    {
        match kind {
            Some(k) => self.nodes[i].kind == k,
            None => true,
        }
    }

    /// The children of `id` of the kind asked for, in the order they were added.
    pub fn children_kind_ids(&self, id: usize, kind: Option<NodeKind>) -> (r: Vec<usize>)
        requires
            self.wf(),
            id < self@.len(),
        ensures
            r@ == children_of_kind(self@, self@[id as int].children, kind),
    {
        let cs = &self.nodes[id].children;
        let ghost csv = self@[id as int].children;
        let mut out: Vec<usize> = Vec::new();
        let mut k: usize = 0;
        while k < cs.len()
            invariant
                self.wf(),
                id < self@.len(),
                cs@ == csv,
                csv == self@[id as int].children,
                k <= cs.len(),
                out@ == children_of_kind(self@, csv.take(k as int), kind),
            decreases cs.len() - k,
        {
            let c = cs[k];
            assert(self@[id as int].children[k as int] == c);
            assert(csv.take(k + 1).drop_last() =~= csv.take(k as int));
            if self.matches_kind(c, kind) {
                out.push(c);
            }
            k = k + 1;
        }
        assert(csv.take(cs.len() as int) =~= csv);
        out
    }

    /// The ids of the nodes that `start`'s subtree holds (and that have the kind asked for),
    /// in the order they were added; with `depth`, only those at that depth.
    fn scan_subtree(&self, start: usize, include_start: bool, kind: Option<NodeKind>, depth: Option<usize>) -> (r: Vec<usize>)
        requires
            self.wf(),
            start < self@.len(),
        ensures
            depth is None ==> r@ == ids_where(self@.len() as int, in_subtree(self@, start as int, include_start, kind)),
            depth is Some ==> r@ == ids_where(
                self@.len() as int,
                |i: int| in_subtree(self@, start as int, include_start, kind)(i) && self@[i].path.len() == depth->Some_0 as int,
            ),
    {
        let ghost want = in_subtree(self@, start as int, include_start, kind);
        let ghost sel = match depth {
            None => want,
            Some(d) => |i: int| want(i) && self@[i].path.len() == d as int,
        };
        let base = &self.nodes[start].path;
        let mut out: Vec<usize> = Vec::new();
        let mut i: usize = 0;
        while i < self.nodes.len()
            invariant
                self.wf(),
                start < self@.len(),
                base@ == self@[start as int].path,
                want == in_subtree(self@, start as int, include_start, kind),
                sel == match depth {
                    None => want,
                    Some(d) => |i: int| want(i) && self@[i].path.len() == d as int,
                },
                i <= self@.len(),
                out@ == ids_where(i as int, sel),
            decreases self@.len() - i,
        {
            let node = &self.nodes[i];
            let under = node.path.has_ancestor_exact(base);
            let chosen = under && (include_start || i != start) && self.matches_kind(i, kind) && match depth {
                None => true,
                Some(d) => node.path.components().len() == d,
            };
            if chosen {
                out.push(i);
            }
            i = i + 1;
        }
        out
    }

    /// The ids of `start`'s subtree in the given order (`start` itself only when
    /// `include_start`), of the kind asked for.
    pub fn traverse_ids(&self, start: usize, order: TraversalOrder, include_start: bool, kind: Option<NodeKind>) -> (r: Vec<usize>)
        requires
            self.wf(),
            start < self@.len(),
        ensures
            r@ == traversal(self@, start as int, order, include_start, kind),
    {
        match order {
            TraversalOrder::Pre => self.scan_subtree(start, include_start, kind, None),
            TraversalOrder::Level => {
                let ghost want = in_subtree(self@, start as int, include_start, kind);
                let mut deepest: usize = 0;
                let mut i: usize = 0;
                while i < self.nodes.len()
                    invariant
                        i <= self@.len(),
                        deepest == max_depth(self@, i as int),
                    decreases self@.len() - i,
                {
                    let d = self.nodes[i].path.components().len();
                    if d > deepest {
                        deepest = d;
                    }
                    i = i + 1;
                }
                let mut out: Vec<usize> = Vec::new();
                let mut d: usize = 0;
                let mut done = false;
                while !done
                    invariant
                        self.wf(),
                        start < self@.len(),
                        want == in_subtree(self@, start as int, include_start, kind),
                        deepest == max_depth(self@, self@.len() as int),
                        d <= deepest,
                        !done ==> out@ == ids_by_depth(self@.len() as int, want, self@, d as int),
                        done ==> out@ == ids_by_depth(self@.len() as int, want, self@, deepest + 1),
                    decreases deepest - d + if done { 0int } else { 1int },
                {
                    let level = self.scan_subtree(start, include_start, kind, Some(d));
                    proof {
                        assert((|i: int| want(i) && self@[i].path.len() == d as int) =~= (|i: int|
                            in_subtree(self@, start as int, include_start, kind)(i) && self@[i].path.len()
                                == d as int));
                    }
                    let mut level = level;
                    out.append(&mut level);
                    if d == deepest {
                        done = true;
                    } else {
                        d = d + 1;
                    }
                }
                out
            },
        }
    }
}

/// The effect of inserting `p` with `kind` into `t0`, giving `t1` and the node id `i`: the
/// node has path `p`, and the kind asked for where `p` was new; the tree now holds every
/// ancestor of `p`; old nodes keep their paths and kinds.
pub open spec fn inserted(t0: Seq<NodeView>, t1: Seq<NodeView>, p: Seq<Seq<char>>, kind: PathKind, i: int) -> bool {
    &&& 0 <= i < t1.len()
    &&& t1[i].path == p
    &&& (!tree_has(t0, p) ==> t1[i].kind == kind.node_kind())
    &&& forall|q: Seq<Seq<char>>| tree_has(t1, q) <==> tree_has(t0, q) || is_ancestor(q, p)
    &&& (tree_has(t0, p) ==> t1 == t0)
    &&& t1.len() >= t0.len()
    &&& forall|j: int| 0 <= j < t0.len() ==> (#[trigger] t1[j]).path == t0[j].path && t1[j].kind == t0[j].kind
    &&& forall|j: int| t0.len() <= j < t1.len() ==> (#[trigger] t1[j]).kind == NodeKind::Directory || t1[j].path == p
}

/// Inserting a path into the tree that has the root alone, then looking the path up, finds
/// a node with the path and the kind that were inserted.
pub proof fn lemma_insert_then_lookup(
    t0: Seq<NodeView>,
    t1: Seq<NodeView>,
    p: Seq<Seq<char>>,
    kind: PathKind,
    i: int,
    j: int,
)
    requires
        tree_wf(t0),
        t0.len() == 1,
        p.len() > 0,
        tree_wf(t1),
        inserted(t0, t1, p, kind, i),
        0 <= j < t1.len(),
        t1[j].path == p,
    ensures
        t1[j].kind == kind.node_kind(),
        t1[j].path == p,
{
    if tree_has(t0, p) {
        let a = choose|a: int| 0 <= a < t0.len() && (#[trigger] t0[a]).path == p;
        assert(a == 0);
    }
    assert(i == j);
}

/// Inserting a directory that the tree already holds changes nothing: no sibling is added and
/// no descendant changes.
pub proof fn lemma_reinsert_directory_changes_nothing(
    t0: Seq<NodeView>,
    t1: Seq<NodeView>,
    p: Seq<Seq<char>>,
    i: int,
)
    requires
        tree_wf(t0),
        tree_has_kind(t0, p, NodeKind::Directory),
        inserted(t0, t1, p, PathKind::Directory, i),
    ensures
        t1 == t0,
{
}

/// A node of the tree, as a handle: its id, kind and path.
#[derive(Debug)]
pub struct Node {
    node_id: usize,
    kind: NodeKind,
    path: HashedAbsolutePath,
}

/// A directory node of the tree.
#[derive(Debug)]
pub struct DirectoryNode {
    node_id: usize,
    path: HashedAbsolutePath,
}

/// A file node of the tree.
#[derive(Debug)]
pub struct FileNode {
    node_id: usize,
    path: HashedAbsolutePath,
}

/// A node handle narrowed to its kind.
#[derive(Debug)]
pub enum UpgradedNode {
    DirectoryNode(DirectoryNode),
    FileNode(FileNode),
}

impl Node {
    pub closed spec fn spec_id(&self) -> usize {
        self.node_id
    }

    pub closed spec fn spec_kind(&self) -> NodeKind {
        self.kind
    }

    pub closed spec fn spec_path(&self) -> Seq<Seq<char>> {
        self.path@
    }

    pub fn node_id(&self) -> (r: usize)
        ensures
            r == self.spec_id(),
    {
        self.node_id
    }

    pub fn kind(&self) -> (r: NodeKind)
        ensures
            r == self.spec_kind(),
    {
        self.kind
    }

    pub fn path(&self) -> (r: &str)
        ensures
            r@ == path_text(self.spec_path()),
    {
        self.path.as_path()
    }

    pub fn is_directory(&self) -> (r: bool)
        ensures
            r == (self.spec_kind() == NodeKind::Directory),
    {
        self.kind == NodeKind::Directory
    }

    pub fn is_file(&self) -> (r: bool)
        ensures
            r == (self.spec_kind() == NodeKind::File),
    {
        self.kind == NodeKind::File
    }

    /// The same node as a directory handle or a file handle, by its kind.
    pub fn upgrade(self) -> (r: UpgradedNode)
        ensures
            self.spec_kind() == NodeKind::Directory <==> r is DirectoryNode,
            r is DirectoryNode ==> r->DirectoryNode_0.spec_id() == self.spec_id()
                && r->DirectoryNode_0.spec_path() == self.spec_path(),
            r is FileNode ==> r->FileNode_0.spec_id() == self.spec_id() && r->FileNode_0.spec_path()
                == self.spec_path(),
    {
        match self.kind {
            NodeKind::Directory => UpgradedNode::DirectoryNode(
                DirectoryNode { node_id: self.node_id, path: self.path },
            ),
            NodeKind::File => UpgradedNode::FileNode(FileNode { node_id: self.node_id, path: self.path }),
        }
    }

    /// The same node as a directory handle; it must be a directory.
    pub fn upgrade_to_directory_node(self) -> (r: DirectoryNode)
        requires
            self.spec_kind() == NodeKind::Directory,
        ensures
            r.spec_id() == self.spec_id(),
            r.spec_path() == self.spec_path(),
    {
        DirectoryNode { node_id: self.node_id, path: self.path }
    }

    /// The same node as a file handle; it must be a file.
    pub fn upgrade_to_file_node(self) -> (r: FileNode)
        requires
            self.spec_kind() == NodeKind::File,
        ensures
            r.spec_id() == self.spec_id(),
            r.spec_path() == self.spec_path(),
    {
        FileNode { node_id: self.node_id, path: self.path }
    }
}

impl DirectoryNode {
    pub closed spec fn spec_id(&self) -> usize {
        self.node_id
    }

    pub closed spec fn spec_path(&self) -> Seq<Seq<char>> {
        self.path@
    }

    pub fn node_id(&self) -> (r: usize)
        ensures
            r == self.spec_id(),
    {
        self.node_id
    }

    pub fn kind(&self) -> (r: NodeKind)
        ensures
            r == NodeKind::Directory,
    {
        NodeKind::Directory
    }

    pub fn path(&self) -> (r: &str)
        ensures
            r@ == path_text(self.spec_path()),
    {
        self.path.as_path()
    }

    pub fn downgrade(self) -> (r: Node)
        ensures
            r.spec_id() == self.spec_id(),
            r.spec_path() == self.spec_path(),
            r.spec_kind() == NodeKind::Directory,
    {
        Node { node_id: self.node_id, kind: NodeKind::Directory, path: self.path }
    }
}

impl FileNode {
    pub closed spec fn spec_id(&self) -> usize {
        self.node_id
    }

    pub closed spec fn spec_path(&self) -> Seq<Seq<char>> {
        self.path@
    }

    pub fn node_id(&self) -> (r: usize)
        ensures
            r == self.spec_id(),
    {
        self.node_id
    }

    pub fn kind(&self) -> (r: NodeKind)
        ensures
            r == NodeKind::File,
    {
        NodeKind::File
    }

    pub fn path(&self) -> (r: &str)
        ensures
            r@ == path_text(self.spec_path()),
    {
        self.path.as_path()
    }
}

impl FSTree {
    fn node_with_id(&self, id: usize) -> (r: Node)
        requires
            id < self@.len(),
        ensures
            r.spec_id() == id,
            r.spec_kind() == self@[id as int].kind,
            r.spec_path() == self@[id as int].path,
    {
        Node { node_id: id, kind: self.nodes[id].kind, path: self.nodes[id].path.duplicate() }
    }

    pub fn root_node(&self) -> (r: Node)
        requires
            self.wf(),
        ensures
            r.spec_id() == 0,
            r.spec_path().len() == 0,
            r.spec_kind() == NodeKind::Directory,
    {
        self.node_with_id(0)
    }

    /// The node of the path that `path` names (a relative text is read from the root).
    pub fn node_with_path(&self, path: &str) -> (r: Result<Node, PathNotFound>)
        requires
            self.wf(),
        ensures
            r is Ok <==> tree_has(self@, parse_path(path@)),
            r is Ok ==> r->Ok_0.spec_id() < self@.len() && r->Ok_0.spec_path() == parse_path(path@)
                && self@[r->Ok_0.spec_id() as int].path == parse_path(path@)
                && r->Ok_0.spec_kind() == self@[r->Ok_0.spec_id() as int].kind,
    {
        let p = HashedAbsolutePath::from_text(path);
        match self.path_node_id(&p) {
            Some(id) => Ok(self.node_with_id(id)),
            None => Err(PathNotFound { path: p.as_path().to_owned() }),
        }
    }

    pub fn contains_path(&self, path: &str) -> (r: bool)
        requires
            self.wf(),
        ensures
            r == tree_has(self@, parse_path(path@)),
    {
        let p = HashedAbsolutePath::from_text(path);
        self.path_node_id(&p).is_some()
    }

    pub fn contains_file(&self, path: &str) -> (r: bool)
        requires
            self.wf(),
        ensures
            r == tree_has_kind(self@, parse_path(path@), NodeKind::File),
    {
        let p = HashedAbsolutePath::from_text(path);
        match self.path_node_id(&p) {
            Some(id) => self.nodes[id].kind == NodeKind::File,
            None => false,
        }
    }

    pub fn contains_directory(&self, path: &str) -> (r: bool)
        requires
            self.wf(),
        ensures
            r == tree_has_kind(self@, parse_path(path@), NodeKind::Directory),
    {
        let p = HashedAbsolutePath::from_text(path);
        match self.path_node_id(&p) {
            Some(id) => self.nodes[id].kind == NodeKind::Directory,
            None => false,
        }
    }

    /// Inserts the path that `path` names with `kind` (see `insert_path_impl`).
    pub fn insert_path(&mut self, path: &str, kind: PathKind) -> (r: Result<Node, InsertChildError>)
        requires
            old(self).wf(),
        ensures
            final(self).wf(),
            r is Err <==> blocked_by_file(old(self)@, parse_path(path@)),
            r is Err ==> final(self)@ == old(self)@,
            r is Ok ==> inserted(old(self)@, final(self)@, parse_path(path@), kind, r->Ok_0.spec_id() as int)
                && r->Ok_0.spec_path() == parse_path(path@)
                && r->Ok_0.spec_kind() == final(self)@[r->Ok_0.spec_id() as int].kind,
    {
        let p = HashedAbsolutePath::from_text(path);
        match self.insert_path_impl(&p, kind) {
            Ok(id) => Ok(self.node_with_id(id)),
            Err(e) => Err(e),
        }
    }

    /// Inserts the directory that `path` names.
    pub fn insert_directory(&mut self, path: &str) -> (r: Result<Node, InsertChildError>)
        requires
            old(self).wf(),
        ensures
            final(self).wf(),
            r is Err <==> blocked_by_file(old(self)@, parse_path(path@)),
            r is Err ==> final(self)@ == old(self)@,
            r is Ok ==> inserted(old(self)@, final(self)@, parse_path(path@), PathKind::Directory, r->Ok_0.spec_id() as int),
            r is Ok ==> r->Ok_0.spec_path() == parse_path(path@) && r->Ok_0.spec_kind()
                == final(self)@[r->Ok_0.spec_id() as int].kind,
    {
        self.insert_path(path, PathKind::Directory)
    }

    /// Inserts the file that `path` names.
    pub fn insert_file(&mut self, path: &str) -> (r: Result<Node, InsertChildError>)
        requires
            old(self).wf(),
        ensures
            final(self).wf(),
            r is Err <==> blocked_by_file(old(self)@, parse_path(path@)),
            r is Err ==> final(self)@ == old(self)@,
            r is Ok ==> inserted(old(self)@, final(self)@, parse_path(path@), PathKind::File, r->Ok_0.spec_id() as int),
            r is Ok ==> r->Ok_0.spec_path() == parse_path(path@) && r->Ok_0.spec_kind()
                == final(self)@[r->Ok_0.spec_id() as int].kind,
    {
        self.insert_path(path, PathKind::File)
    }

    /// The ids of the files that a listing of `id` covers.
    pub fn file_ids(&self, id: usize, kind: FilesIterKind) -> (r: Vec<usize>)
        requires
            self.wf(),
            id < self@.len(),
        ensures
            r@ == match kind {
                FilesIterKind::Children => children_of_kind(self@, self@[id as int].children, Some(NodeKind::File)),
                FilesIterKind::RecursivePreOrder => traversal(self@, id as int, TraversalOrder::Pre, true, Some(NodeKind::File)),
                FilesIterKind::RecursiveLevelOrder => traversal(self@, id as int, TraversalOrder::Level, true, Some(NodeKind::File)),
            },
    {
        match kind {
            FilesIterKind::Children => self.children_kind_ids(id, Some(NodeKind::File)),
            FilesIterKind::RecursivePreOrder => self.traverse_ids(id, TraversalOrder::Pre, true, Some(NodeKind::File)),
            FilesIterKind::RecursiveLevelOrder => self.traverse_ids(id, TraversalOrder::Level, true, Some(NodeKind::File)),
        }
    }

    /// The paths of the files that a listing of the directory that `path` names covers.
    pub fn path_files(&self, path: &str, kind: FilesIterKind) -> (r: Result<Vec<usize>, TraversePathError>)
        requires
            self.wf(),
        ensures
            !tree_has(self@, parse_path(path@)) ==> r is Err,
            tree_has_kind(self@, parse_path(path@), NodeKind::File) ==> r is Err,
            tree_has_kind(self@, parse_path(path@), NodeKind::Directory) ==> r is Ok,
    {
        let p = HashedAbsolutePath::from_text(path);
        match self.path_node_id(&p) {
            None => Err(TraversePathError::PathNotFound(PathNotFound { path: p.as_path().to_owned() })),
            Some(id) => {
                if self.nodes[id].kind == NodeKind::File {
                    proof {
                        if tree_has_kind(self@, p@, NodeKind::Directory) {
                            let j = choose|j: int| 0 <= j < self@.len() && (#[trigger] self@[j]).path == p@ && self@[j].kind == NodeKind::Directory;
                            assert(j == id as int);
                        }
                    }
                    Err(TraversePathError::PathIsNotADirectory(PathIsNotADirectory { path: p.as_path().to_owned() }))
                } else {
                    proof {
                        if tree_has_kind(self@, p@, NodeKind::File) {
                            let j = choose|j: int| 0 <= j < self@.len() && (#[trigger] self@[j]).path == p@ && self@[j].kind == NodeKind::File;
                            assert(j == id as int);
                        }
                    }
                    Ok(self.file_ids(id, kind))
                }
            },
        }
    }

    /// How many files the tree holds.
    pub fn file_count(&self) -> (r: usize)
        requires
            self.wf(),
        ensures
            r == traversal(self@, 0, TraversalOrder::Pre, true, Some(NodeKind::File)).len(),
    {
        self.traverse_ids(0, TraversalOrder::Pre, true, Some(NodeKind::File)).len()
    }

    /// How many directories the tree holds, the root included.
    pub fn directory_count(&self) -> (r: usize)
        requires
            self.wf(),
        ensures
            r == traversal(self@, 0, TraversalOrder::Pre, true, Some(NodeKind::Directory)).len(),
    {
        self.traverse_ids(0, TraversalOrder::Pre, true, Some(NodeKind::Directory)).len()
    }
}

/// The ids that `ids_where` gives are below its bound.
pub proof fn lemma_ids_where_below(n: int, want: spec_fn(int) -> bool, k: int)
    requires
        0 <= k < ids_where(n, want).len(),
        n <= usize::MAX,
    ensures
        0 <= ids_where(n, want)[k] < n,
        want(ids_where(n, want)[k] as int),
    decreases n,
{
    if n > 0 {
        if want(n - 1) {
            if k < ids_where(n - 1, want).len() {
                lemma_ids_where_below(n - 1, want, k);
            }
        } else {
            lemma_ids_where_below(n - 1, want, k);
        }
    }
}

/// `ids_where` holds exactly the ids below its bound that `want` selects.
pub proof fn lemma_ids_where_contains(n: int, want: spec_fn(int) -> bool, x: usize)
    requires
        n <= usize::MAX,
    ensures
        ids_where(n, want).contains(x) <==> (x < n && want(x as int)),
    decreases n,
{
    if n > 0 {
        lemma_ids_where_contains(n - 1, want, x);
        let prev = ids_where(n - 1, want);
        if want(n - 1) {
            let cur = prev.push((n - 1) as usize);
            if prev.contains(x) {
                let k = choose|k: int| 0 <= k < prev.len() && prev[k] == x;
                assert(cur[k] == x);
            }
            if x as int == n - 1 {
                assert(cur[prev.len() as int] == x);
            }
            if cur.contains(x) {
                let k = choose|k: int| 0 <= k < cur.len() && cur[k] == x;
                if k < prev.len() {
                    assert(prev[k] == x);
                }
            }
        }
    }
}

/// The children that `children_of_kind` keeps are among the children it was given.
pub proof fn lemma_children_of_kind_in(t: Seq<NodeView>, cs: Seq<usize>, kind: Option<NodeKind>, k: int)
    requires
        0 <= k < children_of_kind(t, cs, kind).len(),
    ensures
        cs.contains(children_of_kind(t, cs, kind)[k]),
    decreases cs.len(),
{
    if cs.len() > 0 {
        let prev = children_of_kind(t, cs.drop_last(), kind);
        if k < prev.len() {
            lemma_children_of_kind_in(t, cs.drop_last(), kind, k);
            let j = choose|j: int| 0 <= j < cs.drop_last().len() && cs.drop_last()[j] == prev[k];
            assert(cs[j] == prev[k]);
        } else {
            assert(cs[cs.len() - 1] == cs.last());
        }
    }
}

/// The path that `text` names as seen from the node with path `base`: an absolute text as
/// it is, a relative one below `base`.
pub open spec fn path_from(base: Seq<Seq<char>>, text: Seq<char>) -> Seq<Seq<char>> {
    if is_absolute_text(text) {
        parse_path(text)
    } else {
        parse_path(path_text(base) + seq!['/'] + text)
    }
}

impl FSTree {
    /// Inserts the path that `path` names below node `node_id`, creating the directories on
    /// the way; fails where the node is a file or the path does not lie below it.
    pub fn insert_child(&mut self, node_id: usize, path: &str, kind: PathKind) -> (r: Result<
        Node,
        InsertChildError,
    >)
        requires
            old(self).wf(),
            node_id < old(self)@.len(),
        ensures
            final(self).wf(),
            old(self)@[node_id as int].kind == NodeKind::File ==> r is Err && final(self)@ == old(
                self,
            )@,
            old(self)@[node_id as int].kind == NodeKind::Directory && !is_ancestor(
                old(self)@[node_id as int].path,
                parse_path(path@),
            ) ==> r is Err && final(self)@ == old(self)@,
            old(self)@[node_id as int].kind == NodeKind::Directory && is_ancestor(
                old(self)@[node_id as int].path,
                parse_path(path@),
            ) ==> (r is Err <==> blocked_by_file(old(self)@, parse_path(path@))) && (r is Ok
                ==> inserted(
                old(self)@,
                final(self)@,
                parse_path(path@),
                kind,
                r->Ok_0.spec_id() as int,
            )),
    {
        let node_path = self.nodes[node_id].path.duplicate();
        if self.nodes[node_id].kind == NodeKind::File {
            return Err(
                InsertChildError::NodeIsNotADirectory(
                    NodeIsNotADirectory { path: node_path.as_path().to_owned() },
                ),
            );
        }
        let p = HashedAbsolutePath::from_text(path);
        if !p.has_ancestor_exact(&node_path) {
            return Err(
                InsertChildError::Hierarchy {
                    path: p.as_path().to_owned(),
                    node_path: node_path.as_path().to_owned(),
                },
            );
        }
        match self.insert_path_impl(&p, kind) {
            Ok(id) => Ok(self.node_with_id(id)),
            Err(e) => Err(e),
        }
    }

    /// Inserts the directory that `path` names below node `node_id`.
    pub fn insert_child_directory(&mut self, node_id: usize, path: &str) -> (r: Result<
        Node,
        InsertChildError,
    >)
        requires
            old(self).wf(),
            node_id < old(self)@.len(),
        ensures
            final(self).wf(),
            old(self)@[node_id as int].kind == NodeKind::File ==> r is Err,
            old(self)@[node_id as int].kind == NodeKind::Directory && !is_ancestor(
                old(self)@[node_id as int].path,
                parse_path(path@),
            ) ==> r is Err,
            r is Ok ==> inserted(
                old(self)@,
                final(self)@,
                parse_path(path@),
                PathKind::Directory,
                r->Ok_0.spec_id() as int,
            ),
    {
        self.insert_child(node_id, path, PathKind::Directory)
    }

    /// Inserts the file that `path` names below node `node_id`.
    pub fn insert_child_file(&mut self, node_id: usize, path: &str) -> (r: Result<
        Node,
        InsertChildError,
    >)
        requires
            old(self).wf(),
            node_id < old(self)@.len(),
        ensures
            final(self).wf(),
            old(self)@[node_id as int].kind == NodeKind::File ==> r is Err,
            old(self)@[node_id as int].kind == NodeKind::Directory && !is_ancestor(
                old(self)@[node_id as int].path,
                parse_path(path@),
            ) ==> r is Err,
            r is Ok ==> inserted(
                old(self)@,
                final(self)@,
                parse_path(path@),
                PathKind::File,
                r->Ok_0.spec_id() as int,
            ),
    {
        self.insert_child(node_id, path, PathKind::File)
    }

    /// The node that `path` names as seen from node `node_id` (see `path_from`); an absolute
    /// path must lie below that node.
    pub fn node_path_node_id(&self, node_id: usize, path: &str) -> (r: Result<usize, NodePathNodeIdError>)
        requires
            self.wf(),
            node_id < self@.len(),
        ensures
            r is Err <==> !is_ancestor(self@[node_id as int].path, path_from(self@[node_id as int].path, path@))
                || !tree_has(self@, path_from(self@[node_id as int].path, path@)),
            r is Ok ==> (r->Ok_0 as int) < self@.len() && self@[r->Ok_0 as int].path == path_from(
                self@[node_id as int].path,
                path@,
            ),
    {
        let base = &self.nodes[node_id].path;
        assert(base@ == self@[node_id as int].path);
        let p = if is_absolute(path) {
            HashedAbsolutePath::from_text(path)
        } else {
            let mut text = base.as_path().to_owned();
            proof {
                reveal_strlit("/");
            }
            text.append("/");
            text.append(path);
            assert(text@ == path_text(base@) + seq!['/'] + path@);
            HashedAbsolutePath::from_text(text.as_str())
        };
        assert(p@ == path_from(self@[node_id as int].path, path@));
        if !p.has_ancestor_exact(base) {
            return Err(
                NodePathNodeIdError::PathNotPartOfNode(
                    PathNotPartOfNode {
                        path: p.as_path().to_owned(),
                        node_path: base.as_path().to_owned(),
                    },
                ),
            );
        }
        match self.path_node_id(&p) {
            Some(id) => Ok(id),
            None => Err(NodePathNodeIdError::PathNotFound(PathNotFound { path: p.as_path().to_owned() })),
        }
    }
}

/// A child's path is its parent's path and its name.
pub proof fn lemma_child_parent_path(t: Seq<NodeView>, i: int, c: usize)
    requires
        tree_wf(t),
        0 <= i < t.len(),
        t[i].children.contains(c),
    ensures
        c < t.len(),
        t[c as int].path == t[i].path.push(t[c as int].name),
        t[c as int].parent == Some(i as usize),
{
    let k = choose|k: int| 0 <= k < t[i].children.len() && t[i].children[k] == c;
    assert(t[i].children[k] == c);
    assert(t[c as int].parent == Some(i as usize));
    assert((c as int) != 0);
    assert(t[c as int].path == t[i].path.push(t[c as int].name));
}

} // verus!
