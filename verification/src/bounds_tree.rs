//! A balanced binary tree of bounding boxes.
//!
//! Leaves carry one box and one value each. Every branch caches the union of
//! its children's boxes and the height of its subtree, and the heights of the
//! two children of a branch never differ by more than one. Nodes live in a
//! [`Pool`] and are named by stable ids.

use crate::math::Bounds;
use crate::pool::{Pool, PoolId};
use vstd::prelude::*;

verus! {

/// Identifier of a node of a [`BoundsTree`].
pub type NodeId = PoolId;

/// The id that names no node.
pub const NULL: NodeId = usize::MAX;

/// A node of the tree. A leaf has no children; a branch has two.
pub struct Node<T: Default> {
    pub bounds: Bounds,
    pub parent: NodeId,
    pub left: NodeId,
    pub right: NodeId,
    pub data: T,
    pub height: usize,
}

impl<T: Default> Default for Node<T> {
    fn default() -> (r: Node<T>)
        ensures
            r.parent == NULL,
            r.left == NULL,
            r.right == NULL,
            r.height == 0,
    {
        Node {
            bounds: Bounds::default(),
            parent: NULL,
            left: NULL,
            right: NULL,
            data: T::default(),
            height: 0,
        }
    }
}

impl<T: Default> Node<T> {
    /// A leaf that is not yet linked into a tree.
    pub fn new(bounds: Bounds, data: T) -> (r: Node<T>)
        ensures
            r == (Node { bounds, parent: NULL, left: NULL, right: NULL, data, height: 0 }),
    {
        Node { bounds, parent: NULL, left: NULL, right: NULL, data, height: 0 }
    }

    /// Whether the node has no children.
    pub open spec fn spec_is_leaf(&self) -> bool {
        self.left == NULL
    }

    /// Whether the node has no children.
    #[verifier::when_used_as_spec(spec_is_leaf)]
    pub fn is_leaf(&self) -> (r: bool)
        ensures
            r == self.spec_is_leaf(),
    {
        self.left == NULL
    }
}

/// The greater of two heights.
pub open spec fn max_height(a: usize, b: usize) -> int {
    if a >= b {
        a as int
    } else {
        b as int
    }
}

/// The slots and the root of a tree as plain values: what rebalancing
/// works on.
pub struct Arena<T: Default> {
    pub nodes: Seq<Node<T>>,
    pub root: NodeId,
}

impl<T: Default> Arena<T> {
    /// The contents of slot `id`.
    pub open spec fn node(self, id: NodeId) -> Node<T> {
        self.nodes[id as int]
    }

    /// The arena after the branch `id` has taken its height and its box
    /// from its two children.
    pub open spec fn with_refreshed(self, id: NodeId) -> Arena<T> {
        let n = self.node(id);
        Arena {
            nodes: self.nodes.update(
                id as int,
                Node {
                    height: (1 + max_height(self.node(n.left).height, self.node(n.right).height)) as usize,
                    bounds: self.node(n.left).bounds.spec_union(self.node(n.right).bounds),
                    ..n
                },
            ),
            root: self.root,
        }
    }

    /// The arena after the child `c` of `n` has been rotated above `n`.
    ///
    /// `c` takes the place of `n` under the parent of `n`, or as the root.
    /// `n` becomes the left child of `c`. Of the two children of `c` the
    /// shallower one, or the left one if they are equally deep, takes the
    /// place of `c` under `n`; the other becomes the right child of `c`.
    /// Then `n` and `c` take their heights and boxes from their children.
    pub open spec fn rotated(self, n: NodeId, c: NodeId) -> Arena<T> {
        self.relinked(n, c).with_refreshed(n).with_refreshed(c)
    }

    /// The arena with the links of the rotation of `c` above `n` in place,
    /// and the heights and boxes as they were.
    pub open spec fn relinked(self, n: NodeId, c: NodeId) -> Arena<T> {
        let p = self.node(n).parent;
        let gl = self.node(c).left;
        let gr = self.node(c).right;
        let left_moves = self.node(gl).height <= self.node(gr).height;
        let shallow = if left_moves { gl } else { gr };
        let deep = if left_moves { gr } else { gl };
        let was_left = self.node(n).left == c;
        let swapped = self.nodes.update(
            c as int,
            Node { parent: p, left: n, right: deep, ..self.node(c) },
        ).update(
            n as int,
            Node {
                parent: c,
                left: if was_left { shallow } else { self.node(n).left },
                right: if was_left { self.node(n).right } else { shallow },
                ..self.node(n)
            },
        ).update(shallow as int, Node { parent: n, ..self.node(shallow) });
        let linked = if p != NULL {
            swapped.update(
                p as int,
                if self.node(p).left == n {
                    Node { left: c, ..self.node(p) }
                } else {
                    Node { right: c, ..self.node(p) }
                },
            )
        } else {
            swapped
        };
        Arena { nodes: linked, root: if self.root == n { c } else { self.root } }
    }

    /// The arena after the subtree of the branch `id` has been balanced,
    /// and the new root of that subtree: a child that is more than one
    /// level higher than the other is rotated above `id`.
    pub open spec fn balanced(self, id: NodeId) -> (Arena<T>, NodeId) {
        let n = self.node(id);
        if n.height < 2 {
            (self, id)
        } else if self.node(n.right).height > self.node(n.left).height + 1 {
            (self.rotated(id, n.right), n.right)
        } else if self.node(n.left).height > self.node(n.right).height + 1 {
            (self.rotated(id, n.left), n.left)
        } else {
            (self, id)
        }
    }

    /// The arena after the walk from `id` up to the root that balances each
    /// subtree on the way and has each of their roots take its height and
    /// its box from its children.
    pub open spec fn rebalanced_from(self, id: NodeId) -> Arena<T>
        decreases
            (if id == NULL {
                0
            } else {
                usize::MAX - self.node(id).height + 1
            }),
    {
        if id == NULL {
            self
        } else {
            let (balanced, top) = self.balanced(id);
            let refreshed = balanced.with_refreshed(top);
            let next = refreshed.node(top).parent;
            if next != NULL && refreshed.node(next).height <= self.node(id).height {
                refreshed
            } else {
                refreshed.rebalanced_from(next)
            }
        }
    }
}

/// A balanced tree of boxes whose leaves carry values of type `T`.
pub struct BoundsTree<T: Default> {
    pool: Pool<Node<T>>,
    root_id: NodeId,
}

impl<T: Default> BoundsTree<T> {
    /// The contents of every pool slot, whether it holds a node of the tree or not.
    pub closed spec fn nodes(&self) -> Seq<Node<T>> {
        self.pool.slots()
    }

    /// The slots and the root of the tree.
    pub open spec fn arena(&self) -> Arena<T> {
        Arena { nodes: self.nodes(), root: self.spec_root_id() }
    }

    /// The node stored under `id`.
    pub open spec fn node(&self, id: NodeId) -> Node<T> {
        self.nodes()[id as int]
    }

    /// Whether `id` names a node of the tree.
    pub closed spec fn contains(&self, id: NodeId) -> bool {
        self.pool.is_allocated(id)
    }

    /// The id of the root, or [`NULL`] when the tree is empty.
    pub closed spec fn spec_root_id(&self) -> NodeId {
        self.root_id
    }

    /// Number of nodes, leaves and branches together.
    pub closed spec fn node_count(&self) -> nat {
        self.pool.spec_object_count() as nat
    }

    /// Number of pool slots that the tree has created so far.
    pub closed spec fn capacity(&self) -> nat {
        self.pool.capacity()
    }

    /// The id that the next inserted leaf gets.
    pub closed spec fn next_id(&self) -> NodeId {
        self.pool.next_id()
    }

    /// Whether `id` names a leaf of the tree.
    pub open spec fn is_leaf(&self, id: NodeId) -> bool {
        self.contains(id) && self.node(id).left == NULL
    }

    /// The links of node `id` agree with those of its neighbours.
    pub open spec fn links_ok(&self, id: NodeId) -> bool {
        let n = self.node(id);
        &&& if n.left == NULL {
            n.right == NULL
        } else {
            &&& self.contains(n.left)
            &&& self.contains(n.right)
            &&& n.left != n.right
            &&& n.left != id
            &&& n.right != id
            &&& self.node(n.left).parent == id
            &&& self.node(n.right).parent == id
        }
        &&& if id == self.spec_root_id() {
            n.parent == NULL
        } else {
            &&& self.contains(n.parent)
            &&& (self.node(n.parent).left == id || self.node(n.parent).right == id)
        }
    }

    /// The cached height and box of node `id` are those of its children, and
    /// the children's heights differ by at most one.
    pub open spec fn data_ok(&self, id: NodeId) -> bool {
        let n = self.node(id);
        if n.left == NULL {
            n.height == 0
        } else {
            let l = self.node(n.left);
            let r = self.node(n.right);
            &&& n.height == 1 + max_height(l.height, r.height)
            &&& n.bounds == l.bounds.spec_union(r.bounds)
            &&& l.height <= r.height + 1
            &&& r.height <= l.height + 1
        }
    }

    /// The links of every node agree with those of its neighbours.
    #[verifier::opaque]
    pub open spec fn all_links_ok(&self) -> bool {
        forall|id: NodeId| #[trigger] self.contains(id) ==> self.links_ok(id)
    }

    /// Every node outside `dirty` caches the height and box of its children
    /// and is balanced.
    #[verifier::opaque]
    pub open spec fn all_data_ok_except(&self, dirty: Set<NodeId>) -> bool {
        forall|id: NodeId| #[trigger] self.contains(id) && !dirty.contains(id) ==> self.data_ok(id)
    }

    /// The tree is sound but for the cached values of the nodes in `dirty`.
    pub open spec fn ok_except(&self, dirty: Set<NodeId>) -> bool {
        &&& self.pool_ok()
        &&& (self.spec_root_id() == NULL ==> self.is_empty())
        &&& (self.spec_root_id() != NULL ==> self.contains(self.spec_root_id()))
        &&& self.all_links_ok()
        &&& self.all_data_ok_except(dirty)
    }

    /// The pool that holds the nodes is sound.
    pub closed spec fn pool_ok(&self) -> bool {
        self.pool.wf()
    }

    /// The tree has no node.
    pub open spec fn is_empty(&self) -> bool {
        forall|id: NodeId| !#[trigger] self.contains(id)
    }

    /// The tree is balanced, and every branch caches the union of its
    /// children's boxes and its height.
    pub open spec fn wf(&self) -> bool {
        self.ok_except(Set::empty())
    }

    /// The two trees hold the same set of nodes in the same pool slots.
    pub closed spec fn same_nodes_as(&self, other: BoundsTree<T>) -> bool {
        &&& self.pool.wf()
        &&& self.pool.free_list() == other.pool.free_list()
        &&& self.pool.capacity() == other.pool.capacity()
        &&& self.pool.spec_object_count() == other.pool.spec_object_count()
    }

    /// What two trees over the same nodes share.
    pub proof fn lemma_same_nodes(&self, other: BoundsTree<T>)
        requires
            self.same_nodes_as(other),
        ensures
            self.pool_ok(),
            self.node_count() == other.node_count(),
            self.capacity() == other.capacity(),
            self.nodes().len() == other.nodes().len(),
            self.next_id() == other.next_id(),
            forall|id: NodeId| self.contains(id) == other.contains(id),
    {
    }

    /// A node of the tree has an id below the pool's capacity, which is not [`NULL`].
    pub proof fn lemma_contains(&self, id: NodeId)
        requires
            self.pool_ok(),
            self.contains(id),
        ensures
            id != NULL,
            id < self.nodes().len(),
            self.nodes().len() == self.capacity(),
            self.capacity() <= usize::MAX,
            self.node_count() > 0,
            self.node_count() <= self.capacity(),
    {
        self.pool.lemma_wf();
        self.pool.lemma_allocated_count(seq![id]);
    }

    /// The links of a node of a tree whose links are sound are sound.
    pub proof fn links_at(&self, id: NodeId)
        requires
            self.all_links_ok(),
            self.contains(id),
        ensures
            self.links_ok(id),
    {
        reveal(BoundsTree::all_links_ok);
    }

    /// A node outside `dirty` caches the height and box of its children.
    pub proof fn data_at(&self, dirty: Set<NodeId>, id: NodeId)
        requires
            self.all_data_ok_except(dirty),
            self.contains(id),
            !dirty.contains(id),
        ensures
            self.data_ok(id),
    {
        reveal(BoundsTree::all_data_ok_except);
    }

    /// In a sound tree every branch is balanced and caches exactly the union
    /// of its children's boxes and one more than the greater of their heights.
    pub proof fn lemma_branch(&self, id: NodeId)
        requires
            self.wf(),
            self.contains(id),
            self.node(id).left != NULL,
        ensures
            self.contains(self.node(id).left),
            self.contains(self.node(id).right),
            self.node(id).bounds == self.node(self.node(id).left).bounds.spec_union(
                self.node(self.node(id).right).bounds,
            ),
            self.node(id).height == 1 + max_height(
                self.node(self.node(id).left).height,
                self.node(self.node(id).right).height,
            ),
            self.node(self.node(id).left).height <= self.node(self.node(id).right).height + 1,
            self.node(self.node(id).right).height <= self.node(self.node(id).left).height + 1,
    {
        self.links_at(id);
        self.data_at(Set::empty(), id);
    }

    /// Balance: in a sound tree, and so after any sequence of insertions and
    /// removals, the heights of the two children of a branch differ by at
    /// most one.
    pub proof fn lemma_balanced(&self, id: NodeId)
        requires
            self.wf(),
            self.contains(id),
            self.node(id).left != NULL,
        ensures
            self.node(self.node(id).left).height - self.node(self.node(id).right).height <= 1,
            self.node(self.node(id).right).height - self.node(self.node(id).left).height <= 1,
    {
        self.lemma_branch(id);
    }

    /// Exact boxes: in a sound tree, and so after any sequence of insertions
    /// and removals, the box of a branch is the union of the boxes of its
    /// two children.
    pub proof fn lemma_bounds_exact(&self, id: NodeId)
        requires
            self.wf(),
            self.contains(id),
            self.node(id).left != NULL,
        ensures
            self.node(id).bounds == self.node(self.node(id).left).bounds.spec_union(
                self.node(self.node(id).right).bounds,
            ),
    {
        self.lemma_branch(id);
    }

    /// A chain of nodes from `x` down to a leaf, one for each level.
    proof fn spine(&self, d: NodeId, x: NodeId) -> (s: Seq<NodeId>)
        requires
            self.pool_ok(),
            self.all_links_ok(),
            self.all_data_ok_except(if d == NULL { Set::<NodeId>::empty() } else { set![d] }),
            self.contains(x),
            d != NULL ==> x != d && self.node(x).height <= self.node(d).height,
        ensures
            s.len() == self.node(x).height + 1,
            s.no_duplicates(),
            forall|i: int|
                0 <= i < s.len() ==> self.contains(#[trigger] s[i]) && s[i] != d && self.node(
                    s[i],
                ).height <= self.node(x).height,
        decreases self.node(x).height,
    {
        let dirty = if d == NULL { Set::<NodeId>::empty() } else { set![d] };
        self.lemma_contains(x);
        self.links_at(x);
        self.data_at(dirty, x);
        let n = self.node(x);
        if n.left == NULL {
            seq![x]
        } else {
            let t = if self.node(n.left).height >= self.node(n.right).height {
                n.left
            } else {
                n.right
            };
            let rest = self.spine(d, t);
            let s = seq![x] + rest;
            assert forall|i: int, j: int| 0 <= i < s.len() && 0 <= j < s.len() && i != j implies s[i]
                != s[j] by {
                if i > 0 {
                    assert(s[i] == rest[i - 1]);
                }
                if j > 0 {
                    assert(s[j] == rest[j - 1]);
                }
            }
            assert forall|i: int| 0 <= i < s.len() implies self.contains(#[trigger] s[i]) && s[i]
                != d && self.node(s[i]).height <= self.node(x).height by {
                if i > 0 {
                    assert(s[i] == rest[i - 1]);
                }
            }
            s
        }
    }

    /// A subtree is no higher than the number of nodes allows.
    proof fn lemma_height_bound(&self, d: NodeId, x: NodeId)
        requires
            self.pool_ok(),
            self.all_links_ok(),
            self.all_data_ok_except(if d == NULL { Set::<NodeId>::empty() } else { set![d] }),
            self.contains(x),
            d != NULL ==> self.contains(d) && x != d && self.node(x).height <= self.node(d).height,
        ensures
            self.node(x).height + 1 <= self.node_count(),
            d != NULL ==> self.node(x).height + 2 <= self.node_count(),
            self.node_count() <= usize::MAX,
    {
        let s = self.spine(d, x);
        self.lemma_contains(x);
        if d != NULL {
            let s2 = s.push(d);
            assert forall|i: int, j: int| 0 <= i < s2.len() && 0 <= j < s2.len() && i != j implies s2[i]
                != s2[j] by {
                if i < s.len() {
                    assert(s2[i] == s[i]);
                }
                if j < s.len() {
                    assert(s2[j] == s[j]);
                }
            }
            assert forall|i: int| 0 <= i < s2.len() implies self.pool.is_allocated(#[trigger] s2[i]) by {
                if i < s.len() {
                    assert(s2[i] == s[i]);
                }
            }
            self.pool.lemma_allocated_count(s2);
        } else {
            assert forall|i: int| 0 <= i < s.len() implies self.pool.is_allocated(#[trigger] s[i]) by {}
            self.pool.lemma_allocated_count(s);
        }
    }

    /// An empty tree.
    pub fn new() -> (r: BoundsTree<T>)
        ensures
            r.wf(),
            r.spec_root_id() == NULL,
            r.node_count() == 0,
            r.capacity() == 0,
            forall|id: NodeId| !r.contains(id),
    {
        let pool = Pool::new(64);
        let r = BoundsTree { root_id: NULL, pool };
        proof {
            reveal(BoundsTree::all_links_ok);
            reveal(BoundsTree::all_data_ok_except);
        }
        r
    }

    /// Number of nodes, leaves and branches together.
    pub fn len(&self) -> (r: usize)
        ensures
            r == self.node_count(),
    {
        self.pool.object_count()
    }

    /// The id of the root, or [`NULL`] when the tree is empty.
    pub fn root_id(&self) -> (r: NodeId)
        ensures
            r == self.spec_root_id(),
    {
        self.root_id
    }

    /// The node stored under `node_id`.
    pub fn get_node(&self, node_id: NodeId) -> (r: &Node<T>)
        requires
            self.wf(),
            self.contains(node_id),
        ensures
            *r == self.node(node_id),
    {
        self.pool.get(node_id)
    }

    /// The root node.
    pub fn get_root(&self) -> (r: &Node<T>)
        requires
            self.wf(),
            self.spec_root_id() != NULL,
        ensures
            *r == self.node(self.spec_root_id()),
    {
        self.get_node(self.root_id)
    }

    fn node_ref(&self, node_id: NodeId) -> (r: &Node<T>)
        requires
            self.contains(node_id),
        ensures
            *r == self.node(node_id),
    {
        self.pool.get(node_id)
    }

    /// The node stored under `node_id`, for writing.
    fn get_node_mut(&mut self, node_id: NodeId) -> (r: &mut Node<T>)
        requires
            old(self).pool_ok(),
            old(self).contains(node_id),
        ensures
            *r == old(self).node(node_id),
            final(self).nodes() == old(self).nodes().update(node_id as int, *final(r)),
            final(self).same_nodes_as(*old(self)),
            final(self).spec_root_id() == old(self).spec_root_id(),
    {
        self.pool.get_mut(node_id)
    }

    /// Recomputes the height and the box of the branch `node_id` from its children.
    fn update_branch_node(&mut self, node_id: NodeId)
        requires
            old(self).pool_ok(),
            old(self).contains(node_id),
            old(self).node(node_id).left != NULL,
            old(self).contains(old(self).node(node_id).left),
            old(self).contains(old(self).node(node_id).right),
            old(self).node(old(self).node(node_id).left).height < usize::MAX,
            old(self).node(old(self).node(node_id).right).height < usize::MAX,
        ensures
            final(self).same_nodes_as(*old(self)),
            final(self).spec_root_id() == old(self).spec_root_id(),
            final(self).nodes() == old(self).nodes().update(
                node_id as int,
                old(self).refreshed(node_id),
            ),
    {
        let (new_height, new_bounds) = {
            let node = self.node_ref(node_id);
            let left = self.node_ref(node.left);
            let right = self.node_ref(node.right);
            let new_height = 1 + (if left.height >= right.height {
                left.height
            } else {
                right.height
            });
            let new_bounds = left.bounds.union(&right.bounds);
            (new_height, new_bounds)
        };
        let node = self.get_node_mut(node_id);
        node.height = new_height;
        node.bounds = new_bounds;
    }

    /// Node `id` with its height and box recomputed from its children.
    pub open spec fn refreshed(&self, id: NodeId) -> Node<T> {
        let n = self.node(id);
        Node {
            height: (1 + max_height(self.node(n.left).height, self.node(n.right).height)) as usize,
            bounds: self.node(n.left).bounds.spec_union(self.node(n.right).bounds),
            ..n
        }
    }

    /// The heavier child's shallower and deeper child, in this order. With
    /// equal heights the left one counts as the shallower.
    pub open spec fn grandchildren(&self, c: NodeId) -> (NodeId, NodeId) {
        let gl = self.node(c).left;
        let gr = self.node(c).right;
        if self.node(gl).height <= self.node(gr).height {
            (gl, gr)
        } else {
            (gr, gl)
        }
    }

    /// `self` is `pre` after the child `c` of `n` has been rotated above `n`:
    /// `c` takes the place of `n` under its parent, `n` becomes the left child
    /// of `c` and adopts the shallower child of `c` in place of `c`, the
    /// deeper one becomes the right child of `c`, and both `n` and `c` cache
    /// their new heights and boxes. No other node changes.
    pub open spec fn rotation_of(&self, pre: &BoundsTree<T>, n: NodeId, c: NodeId) -> bool {
        let p = pre.node(n).parent;
        let (shallow, deep) = pre.grandchildren(c);
        let was_left = pre.node(n).left == c;
        let linked_n = Node {
            parent: c,
            left: if was_left { shallow } else { pre.node(n).left },
            right: if was_left { pre.node(n).right } else { shallow },
            ..pre.node(n)
        };
        let other = if was_left { pre.node(n).right } else { pre.node(n).left };
        let new_n = Node {
            height: (1 + max_height(pre.node(other).height, pre.node(shallow).height)) as usize,
            bounds: if was_left {
                pre.node(shallow).bounds.spec_union(pre.node(other).bounds)
            } else {
                pre.node(other).bounds.spec_union(pre.node(shallow).bounds)
            },
            ..linked_n
        };
        let new_c = Node {
            parent: p,
            left: n,
            right: deep,
            height: (1 + max_height(new_n.height, pre.node(deep).height)) as usize,
            bounds: new_n.bounds.spec_union(pre.node(deep).bounds),
            ..pre.node(c)
        };
        &&& self.same_nodes_as(*pre)
        &&& self.nodes().len() == pre.nodes().len()
        &&& self.spec_root_id() == (if pre.spec_root_id() == n { c } else { pre.spec_root_id() })
        &&& self.node(n) == new_n
        &&& self.node(c) == new_c
        &&& self.node(shallow) == (Node { parent: n, ..pre.node(shallow) })
        &&& p != NULL ==> self.node(p) == (if pre.node(p).left == n {
            Node { left: c, ..pre.node(p) }
        } else {
            Node { right: c, ..pre.node(p) }
        })
        &&& forall|id: NodeId|
            #![trigger self.nodes()[id as int]]
            id < pre.nodes().len() && id != n && id != c && id != shallow && id != p
                ==> self.nodes()[id as int] == pre.nodes()[id as int]
    }

    /// The cached height of `n` accounts for a height of `c_old_h` of its
    /// child `c`, which has since changed by at most one.
    pub open spec fn stale_at(&self, n: NodeId, c: NodeId, c_old_h: int) -> bool {
        let nn = self.node(n);
        let o = if nn.left == c { nn.right } else { nn.left };
        &&& self.contains(n)
        &&& c != NULL
        &&& (nn.left == c || nn.right == c)
        &&& nn.height == 1 + (if c_old_h >= self.node(o).height { c_old_h } else {
            self.node(o).height as int
        })
        &&& c_old_h <= self.node(o).height + 1
        &&& self.node(o).height <= c_old_h + 1
        &&& c_old_h <= self.node(c).height + 1
        &&& self.node(c).height <= c_old_h + 1
    }

    /// `self` has the leaves of `pre`, each with its box and value, and every
    /// branch of `pre` whose two children are leaves has kept them.
    #[verifier::opaque]
    pub open spec fn keeps_leaves_of(&self, pre: &BoundsTree<T>) -> bool {
        &&& self.nodes().len() == pre.nodes().len()
        &&& forall|id: NodeId|
            #![trigger self.nodes()[id as int]]
            id < pre.nodes().len() ==> {
                let a = pre.nodes()[id as int];
                let b = self.nodes()[id as int];
                &&& b.data == a.data
                &&& (b.left == NULL <==> a.left == NULL)
                &&& (a.left == NULL ==> b.bounds == a.bounds && b.height == a.height)
                &&& (a.left != NULL && a.left < pre.nodes().len() && a.right < pre.nodes().len()
                    && pre.nodes()[a.left as int].left == NULL && pre.nodes()[a.right as int].left
                    == NULL ==> b.left == a.left && b.right == a.right)
            }
    }

    proof fn lemma_keeps_leaves_refl(&self)
        ensures
            self.keeps_leaves_of(self),
    {
        reveal(BoundsTree::keeps_leaves_of);
    }

    proof fn lemma_keeps_leaves_trans(&self, mid: &BoundsTree<T>, pre: &BoundsTree<T>)
        requires
            self.keeps_leaves_of(mid),
            mid.keeps_leaves_of(pre),
        ensures
            self.keeps_leaves_of(pre),
    {
        reveal(BoundsTree::keeps_leaves_of);
        assert forall|id: NodeId|
            #![trigger self.nodes()[id as int]]
            id < pre.nodes().len() implies {
            let a = pre.nodes()[id as int];
            let b = self.nodes()[id as int];
            &&& b.data == a.data
            &&& (b.left == NULL <==> a.left == NULL)
            &&& (a.left == NULL ==> b.bounds == a.bounds && b.height == a.height)
            &&& (a.left != NULL && a.left < pre.nodes().len() && a.right < pre.nodes().len()
                && pre.nodes()[a.left as int].left == NULL && pre.nodes()[a.right as int].left
                == NULL ==> b.left == a.left && b.right == a.right)
        } by {
            let a = pre.nodes()[id as int];
            let m = mid.nodes()[id as int];
            if a.left != NULL && a.left < pre.nodes().len() && a.right < pre.nodes().len() {
                let x = mid.nodes()[a.left as int];
                let y = mid.nodes()[a.right as int];
            }
        }
    }

    /// A rotation keeps every link sound, and the cached values of every node
    /// but the two that it recomputes and their new parent.
    proof fn lemma_rotation(&self, pre: &BoundsTree<T>, n: NodeId, c: NodeId)
        requires
            pre.ok_except(set![n]),
            pre.contains(n),
            c != NULL,
            pre.node(n).left == c || pre.node(n).right == c,
            pre.node(c).left != NULL,
            pre.node(pre.node(n).left).height <= pre.node(n).height,
            pre.node(pre.node(n).right).height <= pre.node(n).height,
            pre.node(c).height >= 2,
            self.rotation_of(pre, n, c),
        ensures
            self.pool_ok(),
            self.all_links_ok(),
            self.all_data_ok_except(set![n, c, pre.node(n).parent]),
            self.spec_root_id() != NULL,
            self.contains(self.spec_root_id()),
            self.node_count() == pre.node_count(),
            self.keeps_leaves_of(pre),
    {
        let p = pre.node(n).parent;
        let (shallow, deep) = pre.grandchildren(c);
        let gl = pre.node(c).left;
        let gr = pre.node(c).right;
        let other = if pre.node(n).left == c { pre.node(n).right } else { pre.node(n).left };
        self.lemma_same_nodes(*pre);
        pre.lemma_contains(n);
        pre.links_at(n);
        pre.lemma_contains(c);
        pre.links_at(c);
        pre.data_at(set![n], c);
        pre.lemma_contains(gl);
        pre.lemma_contains(gr);
        pre.links_at(gl);
        pre.links_at(gr);
        pre.lemma_contains(other);
        pre.links_at(other);
        if p != NULL {
            pre.lemma_contains(p);
            pre.links_at(p);
            pre.data_at(set![n], p);
        }
        assert(pre.spec_root_id() != NULL);
        assert(self.all_links_ok()) by {
            reveal(BoundsTree::all_links_ok);
            assert forall|id: NodeId| #[trigger] self.contains(id) implies self.links_ok(id) by {
                pre.lemma_contains(id);
                pre.links_at(id);
                let a = pre.node(id);
                if a.left != NULL {
                    pre.lemma_contains(a.left);
                    pre.lemma_contains(a.right);
                }
                if a.parent != NULL && id != pre.spec_root_id() {
                    pre.lemma_contains(a.parent);
                }
                if id != n && id != c && id != shallow && id != p {
                    assert(self.nodes()[id as int] == pre.nodes()[id as int]);
                    if a.left != NULL {
                        assert(a.left != n);
                        assert(a.left != c);
                        assert(a.right != n);
                        assert(a.right != c);
                    }
                }
            }
        }
        assert(self.all_data_ok_except(set![n, c, p])) by {
            reveal(BoundsTree::all_data_ok_except);
            assert forall|id: NodeId| #[trigger]
                self.contains(id) && !set![n, c, p].contains(id) implies self.data_ok(id) by {
                pre.lemma_contains(id);
                pre.links_at(id);
                pre.data_at(set![n], id);
                let a = pre.node(id);
                if a.left != NULL {
                    pre.lemma_contains(a.left);
                    pre.lemma_contains(a.right);
                    assert(a.left != n);
                    assert(a.left != c);
                    assert(a.right != n);
                    assert(a.right != c);
                }
                if id != shallow {
                    assert(self.nodes()[id as int] == pre.nodes()[id as int]);
                }
            }
        }
        assert(self.keeps_leaves_of(pre)) by {
            reveal(BoundsTree::keeps_leaves_of);
            pre.data_at(set![n], deep);
        }
    }

    /// `self` is `pre` with the links of a rotation of `c` above `n` in place
    /// and the cached heights and boxes still as they were.
    pub open spec fn relinked_from(&self, pre: &BoundsTree<T>, n: NodeId, c: NodeId) -> bool {
        let p = pre.node(n).parent;
        let (shallow, deep) = pre.grandchildren(c);
        let was_left = pre.node(n).left == c;
        &&& self.same_nodes_as(*pre)
        &&& self.nodes().len() == pre.nodes().len()
        &&& self.spec_root_id() == (if pre.spec_root_id() == n { c } else { pre.spec_root_id() })
        &&& self.node(n) == (Node {
            parent: c,
            left: if was_left { shallow } else { pre.node(n).left },
            right: if was_left { pre.node(n).right } else { shallow },
            ..pre.node(n)
        })
        &&& self.node(c) == (Node { parent: p, left: n, right: deep, ..pre.node(c) })
        &&& self.node(shallow) == (Node { parent: n, ..pre.node(shallow) })
        &&& p != NULL ==> self.node(p) == (if pre.node(p).left == n {
            Node { left: c, ..pre.node(p) }
        } else {
            Node { right: c, ..pre.node(p) }
        })
        &&& forall|id: NodeId|
            #![trigger self.nodes()[id as int]]
            id < pre.nodes().len() && id != n && id != c && id != shallow && id != p
                ==> self.nodes()[id as int] == pre.nodes()[id as int]
    }

    /// Sets the links of a rotation of `child_id` above `node_id`.
    fn relink(&mut self, node_id: NodeId, child_id: NodeId)
        requires
            old(self).ok_except(set![node_id]),
            old(self).contains(node_id),
            child_id != NULL,
            old(self).node(node_id).left == child_id || old(self).node(node_id).right == child_id,
            old(self).node(child_id).left != NULL,
            old(self).node(old(self).node(node_id).left).height <= old(self).node(node_id).height,
            old(self).node(old(self).node(node_id).right).height <= old(self).node(node_id).height,
        ensures
            final(self).relinked_from(old(self), node_id, child_id),
    {
        let ghost pre = *self;
        let ghost (shallow, deep) = pre.grandchildren(child_id);
        proof {
            pre.lemma_contains(node_id);
            pre.links_at(node_id);
            pre.lemma_contains(child_id);
            pre.links_at(child_id);
            pre.data_at(set![node_id], child_id);
            pre.lemma_contains(pre.node(child_id).left);
            pre.lemma_contains(pre.node(child_id).right);
            pre.lemma_contains(pre.node(node_id).left);
            pre.lemma_contains(pre.node(node_id).right);
            pre.links_at(pre.node(child_id).left);
            pre.links_at(pre.node(child_id).right);
            if pre.node(node_id).parent != NULL {
                pre.lemma_contains(pre.node(node_id).parent);
                pre.links_at(pre.node(node_id).parent);
                pre.data_at(set![node_id], pre.node(node_id).parent);
            }
        }
        let (is_left_child, node_parent_id) = {
            let node = self.node_ref(node_id);
            (node.left == child_id, node.parent)
        };
        let (grandchild_left_id, grandchild_right_id) = {
            let child = self.node_ref(child_id);
            (child.left, child.right)
        };
        // The shallower grandchild takes the place of `child` under `node`,
        // the deeper one stays with `child`, on its right. Of two equally
        // deep grandchildren the left one moves.
        let left_height = self.node_ref(grandchild_left_id).height;
        let right_height = self.node_ref(grandchild_right_id).height;
        let (shallow_id, deep_id) = if left_height <= right_height {
            (grandchild_left_id, grandchild_right_id)
        } else {
            (grandchild_right_id, grandchild_left_id)
        };
        assert(shallow_id == shallow && deep_id == deep);
        assert(shallow != node_id && shallow != child_id && shallow != node_parent_id);
        assert(node_parent_id != child_id && node_parent_id != node_id);
        // Swap node and child
        {
            let child = self.get_node_mut(child_id);
            child.parent = node_parent_id;
            child.left = node_id;
            child.right = deep_id;
        }
        {
            let node = self.get_node_mut(node_id);
            node.parent = child_id;
            if is_left_child {
                node.left = shallow_id;
            } else {
                node.right = shallow_id;
            }
        }
        {
            let grandchild = self.get_node_mut(shallow_id);
            grandchild.parent = node_id;
        }
        // Replace `node` with `child` in child's (formerly node's) parent
        if self.root_id == node_id {
            self.root_id = child_id;
        } else {
            let node_parent = self.get_node_mut(node_parent_id);
            if node_parent.left == node_id {
                node_parent.left = child_id;
            } else {
                node_parent.right = child_id;
            }
        }
        proof {
            self.lemma_same_nodes(pre);
        }
    }

    /// Rotates the subtree rooted at `node_id` so that it is rooted at its
    /// child `child_id`.
    fn rotate(&mut self, node_id: NodeId, child_id: NodeId)
        requires
            old(self).ok_except(set![node_id]),
            old(self).contains(node_id),
            child_id != NULL,
            old(self).node(node_id).left == child_id || old(self).node(node_id).right == child_id,
            old(self).node(child_id).left != NULL,
            old(self).node(old(self).node(node_id).left).height <= old(self).node(node_id).height,
            old(self).node(old(self).node(node_id).right).height <= old(self).node(node_id).height,
            old(self).node(child_id).height >= 2,
            old(self).node(child_id).height < usize::MAX,
            old(self).node(old(self).node(node_id).left).height + 2 <= usize::MAX || old(self).node(
                node_id,
            ).left == child_id,
            old(self).node(old(self).node(node_id).right).height + 2 <= usize::MAX || old(
                self,
            ).node(node_id).right == child_id,
        ensures
            final(self).arena() == old(self).arena().rotated(node_id, child_id),
            final(self).rotation_of(old(self), node_id, child_id),
            final(self).pool_ok(),
            final(self).all_links_ok(),
            final(self).all_data_ok_except(set![node_id, child_id, old(self).node(node_id).parent]),
            final(self).spec_root_id() != NULL,
            final(self).contains(final(self).spec_root_id()),
            final(self).node_count() == old(self).node_count(),
            final(self).keeps_leaves_of(old(self)),
    {
        let ghost pre = *self;
        let ghost (shallow, deep) = pre.grandchildren(child_id);
        let ghost other = if pre.node(node_id).left == child_id {
            pre.node(node_id).right
        } else {
            pre.node(node_id).left
        };
        proof {
            pre.lemma_contains(node_id);
            pre.links_at(node_id);
            pre.lemma_contains(child_id);
            pre.links_at(child_id);
            pre.data_at(set![node_id], child_id);
            pre.lemma_contains(pre.node(child_id).left);
            pre.lemma_contains(pre.node(child_id).right);
            pre.lemma_contains(pre.node(node_id).left);
            pre.lemma_contains(pre.node(node_id).right);
            pre.links_at(pre.node(child_id).left);
            pre.links_at(pre.node(child_id).right);
            pre.links_at(other);
            if pre.node(node_id).parent != NULL {
                pre.lemma_contains(pre.node(node_id).parent);
                pre.links_at(pre.node(node_id).parent);
                pre.data_at(set![node_id], pre.node(node_id).parent);
            }
            assert(other != pre.node(node_id).parent);
            assert(deep != pre.node(node_id).parent);
            assert(other != shallow && other != node_id && other != child_id);
            assert(deep != shallow && deep != node_id && deep != child_id);
        }
        self.relink(node_id, child_id);
        let ghost linked = *self;
        proof {
            linked.lemma_same_nodes(pre);
            assert(linked.nodes()[other as int] == pre.nodes()[other as int]);
            assert(linked.nodes()[deep as int] == pre.nodes()[deep as int]);
        }
        self.update_branch_node(node_id);
        let ghost half = *self;
        proof {
            half.lemma_same_nodes(linked);
        }
        self.update_branch_node(child_id);
        proof {
            self.lemma_same_nodes(half);
            assert(self.rotation_of(&pre, node_id, child_id));
            self.lemma_rotation(&pre, node_id, child_id);
            linked.lemma_relinked(&pre, node_id, child_id);
            assert(half.arena() == linked.arena().with_refreshed(node_id));
            assert(self.arena() == half.arena().with_refreshed(child_id));
        }
    }

    /// The links of a rotation are what [`Arena::relinked`] says.
    proof fn lemma_relinked(&self, pre: &BoundsTree<T>, n: NodeId, c: NodeId)
        requires
            self.relinked_from(pre, n, c),
            pre.nodes().len() <= usize::MAX,
            n < pre.nodes().len(),
            c < pre.nodes().len(),
            pre.node(c).left < pre.nodes().len(),
            pre.node(c).right < pre.nodes().len(),
            pre.node(n).left < pre.nodes().len(),
            pre.node(n).right < pre.nodes().len(),
            pre.node(n).parent != NULL ==> pre.node(n).parent < pre.nodes().len(),
            pre.node(n).parent == NULL <==> pre.spec_root_id() == n,
            pre.node(n).left == c || pre.node(n).right == c,
            pre.node(n).left != pre.node(n).right,
            n != c,
            pre.node(c).left != pre.node(c).right,
            pre.node(c).left != n && pre.node(c).left != c && pre.node(c).left != pre.node(n).parent,
            pre.node(c).right != n && pre.node(c).right != c && pre.node(c).right != pre.node(
                n,
            ).parent,
            pre.node(n).parent != n && pre.node(n).parent != c,
            pre.node(n).left != n && pre.node(n).right != n,
            pre.node(n).left != pre.node(n).parent && pre.node(n).right != pre.node(n).parent,
            pre.node(n).left == c || (pre.node(n).left != pre.node(c).left && pre.node(n).left
                != pre.node(c).right),
            pre.node(n).right == c || (pre.node(n).right != pre.node(c).left && pre.node(n).right
                != pre.node(c).right),
        ensures
            self.arena() == pre.arena().relinked(n, c),
    {
        let target = pre.arena().relinked(n, c);
        let p = pre.node(n).parent;
        let (shallow, deep) = pre.grandchildren(c);
        assert(self.nodes().len() == target.nodes.len());
        assert forall|i: int| 0 <= i < self.nodes().len() implies self.nodes()[i]
            == target.nodes[i] by {
            if i == n {
            } else if i == c {
            } else if i == shallow {
            } else if p != NULL && i == p {
            } else {
                assert(self.nodes()[(i as NodeId) as int] == pre.nodes()[(i as NodeId) as int]);
            }
        }
        assert(self.nodes() =~= target.nodes);
    }

    /// The cached height of `n` is one more than the greater of `c_old_h`,
    /// taken for its child `c`, and the height of its other child, and these
    /// two differ by at most one.
    pub open spec fn accounts_for(&self, n: NodeId, c: NodeId, c_old_h: int) -> bool {
        let nn = self.node(n);
        let o = if nn.left == c { nn.right } else { nn.left };
        &&& self.contains(n)
        &&& c != NULL
        &&& (nn.left == c || nn.right == c)
        &&& nn.height == 1 + (if c_old_h >= self.node(o).height { c_old_h } else {
            self.node(o).height as int
        })
        &&& c_old_h <= self.node(o).height + 1
        &&& self.node(o).height <= c_old_h + 1
    }

    /// The set that holds `id`, or nothing when `id` is [`NULL`].
    pub open spec fn only(id: NodeId) -> Set<NodeId> {
        if id == NULL {
            Set::empty()
        } else {
            set![id]
        }
    }

    proof fn lemma_shrink_dirty(&self, dirty: Set<NodeId>, id: NodeId)
        requires
            self.all_data_ok_except(dirty),
            self.data_ok(id),
        ensures
            self.all_data_ok_except(dirty.remove(id)),
    {
        reveal(BoundsTree::all_data_ok_except);
    }

    proof fn lemma_dirty_subset(&self, dirty: Set<NodeId>, more: Set<NodeId>)
        requires
            self.all_data_ok_except(dirty),
            forall|id: NodeId| dirty.contains(id) && self.contains(id) ==> more.contains(id),
        ensures
            self.all_data_ok_except(more),
    {
        reveal(BoundsTree::all_data_ok_except);
    }

    /// Refreshing a branch whose children are balanced makes it sound and
    /// disturbs no node but its parent.
    proof fn lemma_refresh(&self, pre: &BoundsTree<T>, r: NodeId, dirty: Set<NodeId>)
        requires
            pre.pool_ok(),
            pre.all_links_ok(),
            pre.all_data_ok_except(dirty),
            pre.contains(r),
            pre.node(r).left != NULL,
            dirty.contains(r),
            pre.node(r).parent == NULL || dirty.contains(pre.node(r).parent),
            pre.node(pre.node(r).left).height <= pre.node(pre.node(r).right).height + 1,
            pre.node(pre.node(r).right).height <= pre.node(pre.node(r).left).height + 1,
            pre.node(pre.node(r).left).height < usize::MAX,
            pre.node(pre.node(r).right).height < usize::MAX,
            self.same_nodes_as(*pre),
            self.spec_root_id() == pre.spec_root_id(),
            self.nodes() == pre.nodes().update(r as int, pre.refreshed(r)),
        ensures
            self.all_links_ok(),
            self.all_data_ok_except(dirty.remove(r)),
            self.keeps_leaves_of(pre),
    {
        self.lemma_same_nodes(*pre);
        pre.lemma_contains(r);
        pre.links_at(r);
        pre.lemma_contains(pre.node(r).left);
        pre.lemma_contains(pre.node(r).right);
        assert(self.all_links_ok()) by {
            reveal(BoundsTree::all_links_ok);
            assert forall|id: NodeId| #[trigger] self.contains(id) implies self.links_ok(id) by {
                pre.lemma_contains(id);
                pre.links_at(id);
                let a = pre.node(id);
                if a.left != NULL {
                    pre.lemma_contains(a.left);
                    pre.lemma_contains(a.right);
                }
                if id != pre.spec_root_id() {
                    pre.lemma_contains(a.parent);
                }
            }
        }
        assert(self.all_data_ok_except(dirty.remove(r))) by {
            reveal(BoundsTree::all_data_ok_except);
            assert forall|id: NodeId| #[trigger]
                self.contains(id) && !dirty.remove(r).contains(id) implies self.data_ok(id) by {
                pre.lemma_contains(id);
                pre.links_at(id);
                let a = pre.node(id);
                if a.left != NULL {
                    pre.lemma_contains(a.left);
                    pre.lemma_contains(a.right);
                }
                if id != r {
                    pre.data_at(dirty, id);
                }
            }
        }
        assert(self.keeps_leaves_of(pre)) by {
            reveal(BoundsTree::keeps_leaves_of);
        }
    }

    /// Balances the subtree rooted at `node_id` and returns the id of the new
    /// subtree root: the heavier child is rotated up when the heights of the
    /// two children differ by more than one.
    fn balance_subtree(&mut self, node_id: NodeId, Ghost(c): Ghost<NodeId>, Ghost(c_old_h): Ghost<int>) -> (r: NodeId)
        requires
            old(self).ok_except(set![node_id]),
            old(self).stale_at(node_id, c, c_old_h),
        ensures
            final(self).pool_ok(),
            final(self).all_links_ok(),
            final(self).same_nodes_as(*old(self)),
            final(self).keeps_leaves_of(old(self)),
            final(self).spec_root_id() != NULL,
            final(self).contains(final(self).spec_root_id()),
            final(self).contains(r),
            final(self).node(r).left != NULL,
            final(self).node(r).parent == old(self).node(node_id).parent,
            final(self).all_data_ok_except(set![r, old(self).node(node_id).parent]),
            final(self).node(final(self).node(r).left).height <= final(self).node(
                final(self).node(r).right,
            ).height + 1,
            final(self).node(final(self).node(r).right).height <= final(self).node(
                final(self).node(r).left,
            ).height + 1,
            final(self).node(final(self).node(r).left).height < usize::MAX,
            final(self).node(final(self).node(r).right).height < usize::MAX,
            final(self).refreshed(r).height <= old(self).node(node_id).height + 1,
            old(self).node(node_id).height <= final(self).refreshed(r).height + 1,
            old(self).node(node_id).parent != NULL ==> final(self).accounts_for(
                old(self).node(node_id).parent,
                r,
                old(self).node(node_id).height as int,
            ) && final(self).node(old(self).node(node_id).parent).height == old(self).node(
                old(self).node(node_id).parent,
            ).height,
            r == node_id ==> final(self).nodes() == old(self).nodes() && final(self).spec_root_id()
                == old(self).spec_root_id(),
            r != node_id ==> (r == old(self).node(node_id).left || r == old(self).node(
                node_id,
            ).right) && final(self).rotation_of(old(self), node_id, r),
            final(self).arena() == old(self).arena().balanced(node_id).0,
            r == old(self).arena().balanced(node_id).1,
    {
        let ghost pre = *self;
        let ghost p = pre.node(node_id).parent;
        let ghost o = if pre.node(node_id).left == c {
            pre.node(node_id).right
        } else {
            pre.node(node_id).left
        };
        proof {
            pre.lemma_contains(node_id);
            pre.links_at(node_id);
            pre.lemma_contains(c);
            pre.lemma_contains(o);
            pre.links_at(c);
            pre.links_at(o);
            pre.data_at(set![node_id], c);
            pre.data_at(set![node_id], o);
            pre.lemma_height_bound(node_id, c);
            pre.lemma_height_bound(node_id, o);
            pre.lemma_keeps_leaves_refl();
            if p != NULL {
                pre.lemma_contains(p);
                pre.links_at(p);
                pre.data_at(set![node_id], p);
                let op = if pre.node(p).left == node_id {
                    pre.node(p).right
                } else {
                    pre.node(p).left
                };
                pre.lemma_contains(op);
                pre.links_at(op);
            }
            pre.lemma_dirty_subset(set![node_id], set![node_id, p]);
        }
        if self.node_ref(node_id).height < 2 {
            return node_id;
        }
        let (left_id, right_id) = {
            let node = self.node_ref(node_id);
            (node.left, node.right)
        };
        let left_height = self.node_ref(left_id).height;
        let right_height = self.node_ref(right_id).height;
        if right_height > left_height + 1 {
            proof {
                pre.lemma_contains(pre.node(right_id).left);
                pre.lemma_contains(pre.node(right_id).right);
                pre.links_at(pre.node(right_id).left);
                pre.links_at(pre.node(right_id).right);
            }
            self.rotate(node_id, right_id);
            proof {
                self.lemma_balanced_after_rotation(&pre, node_id, right_id);
            }
            right_id
        } else if left_height > right_height + 1 {
            proof {
                pre.lemma_contains(pre.node(left_id).left);
                pre.lemma_contains(pre.node(left_id).right);
                pre.links_at(pre.node(left_id).left);
                pre.links_at(pre.node(left_id).right);
            }
            self.rotate(node_id, left_id);
            proof {
                self.lemma_balanced_after_rotation(&pre, node_id, left_id);
            }
            left_id
        } else {
            // Already balanced
            node_id
        }
    }

    /// After the rotation of a child that is exactly two levels higher than
    /// its sibling, both rotated nodes are balanced, and the subtree is as
    /// high as before or one level higher than the sibling's side accounted for.
    proof fn lemma_balanced_after_rotation(&self, pre: &BoundsTree<T>, n: NodeId, c: NodeId)
        requires
            pre.ok_except(set![n]),
            pre.contains(n),
            c != NULL,
            pre.node(n).left == c || pre.node(n).right == c,
            pre.node(c).left != NULL,
            pre.node(c).height == pre.node(
                if pre.node(n).left == c {
                    pre.node(n).right
                } else {
                    pre.node(n).left
                },
            ).height + 2,
            pre.node(c).height + 1 <= usize::MAX,
            pre.node(c).height <= pre.node(n).height,
            self.rotation_of(pre, n, c),
            self.all_links_ok(),
            self.all_data_ok_except(set![n, c, pre.node(n).parent]),
        ensures
            self.contains(c),
            self.node(c).left != NULL,
            self.node(c).parent == pre.node(n).parent,
            self.all_data_ok_except(set![c, pre.node(n).parent]),
            self.node(self.node(c).left).height <= self.node(self.node(c).right).height + 1,
            self.node(self.node(c).right).height <= self.node(self.node(c).left).height + 1,
            self.node(self.node(c).left).height < usize::MAX,
            self.node(self.node(c).right).height < usize::MAX,
            self.refreshed(c).height == self.node(c).height,
            self.node(c).height == pre.node(c).height || self.node(c).height == pre.node(c).height
                + 1,
            pre.node(n).parent != NULL ==> self.node(pre.node(n).parent).height == pre.node(
                pre.node(n).parent,
            ).height && (forall|h: int| pre.accounts_for(pre.node(n).parent, n, h)
                ==> self.accounts_for(pre.node(n).parent, c, h)),
    {
        let p = pre.node(n).parent;
        let (shallow, deep) = pre.grandchildren(c);
        let other = if pre.node(n).left == c { pre.node(n).right } else { pre.node(n).left };
        self.lemma_same_nodes(*pre);
        pre.lemma_contains(n);
        pre.links_at(n);
        pre.lemma_contains(c);
        pre.links_at(c);
        pre.data_at(set![n], c);
        pre.lemma_contains(shallow);
        pre.lemma_contains(deep);
        pre.links_at(shallow);
        pre.links_at(deep);
        pre.lemma_contains(other);
        pre.links_at(other);
        if p != NULL {
            pre.lemma_contains(p);
            pre.links_at(p);
            pre.data_at(set![n], p);
            let op = if pre.node(p).left == n { pre.node(p).right } else { pre.node(p).left };
            pre.lemma_contains(op);
            pre.links_at(op);
            assert(self.nodes()[op as int] == pre.nodes()[op as int]);
        }
        assert(self.nodes()[other as int] == pre.nodes()[other as int]);
        assert(self.nodes()[deep as int] == pre.nodes()[deep as int]);
        assert(self.data_ok(n));
        self.lemma_shrink_dirty(set![n, c, p], n);
        self.lemma_dirty_subset(set![n, c, p].remove(n), set![c, p]);
    }

    /// Walks up the tree from `node_id`, balancing subtrees and fixing the
    /// heights and boxes of the ancestors.
    fn update_ancestors(&mut self, node_id: NodeId, Ghost(c): Ghost<NodeId>, Ghost(c_old_h): Ghost<int>)
        requires
            old(self).ok_except(Self::only(node_id)),
            old(self).spec_root_id() != NULL,
            node_id != NULL ==> old(self).stale_at(node_id, c, c_old_h),
        ensures
            final(self).wf(),
            final(self).same_nodes_as(*old(self)),
            final(self).keeps_leaves_of(old(self)),
            final(self).spec_root_id() != NULL,
            final(self).arena() == old(self).arena().rebalanced_from(node_id),
    {
        let ghost start = node_id;
        let mut node_id = node_id;
        let ghost mut gc = c;
        let ghost mut gh = c_old_h;
        proof {
            self.lemma_keeps_leaves_refl();
        }
        while node_id != NULL
            invariant
                self.ok_except(Self::only(node_id)),
                self.spec_root_id() != NULL,
                node_id != NULL ==> self.stale_at(node_id, gc, gh),
                self.same_nodes_as(*old(self)),
                self.keeps_leaves_of(old(self)),
                self.arena().rebalanced_from(node_id) == old(self).arena().rebalanced_from(start),
            decreases
                (if node_id == NULL {
                    0
                } else {
                    usize::MAX - self.node(node_id).height + 1
                }),
        {
            let ghost before = *self;
            let ghost at = node_id;
            let ghost stored = before.node(node_id).height;
            let ghost p = before.node(node_id).parent;
            proof {
                before.lemma_contains(node_id);
                before.links_at(node_id);
                if p != NULL {
                    before.lemma_contains(p);
                    before.links_at(p);
                    before.data_at(set![node_id], p);
                }
            }
            let root = self.balance_subtree(node_id, Ghost(gc), Ghost(gh));
            let ghost balanced = *self;
            proof {
                balanced.lemma_same_nodes(before);
                balanced.lemma_contains(root);
                balanced.links_at(root);
                balanced.lemma_contains(balanced.node(root).left);
                balanced.lemma_contains(balanced.node(root).right);
            }
            self.update_branch_node(root);
            proof {
                self.lemma_same_nodes(balanced);
                self.lemma_refresh(&balanced, root, set![root, p]);
                self.lemma_keeps_leaves_trans(&balanced, &before);
                self.lemma_keeps_leaves_trans(&before, old(self));
                if p != NULL {
                    assert(root != p);
                    self.lemma_dirty_subset(set![root, p].remove(root), set![p]);
                    let op = if balanced.node(p).left == root {
                        balanced.node(p).right
                    } else {
                        balanced.node(p).left
                    };
                    assert(op != root);
                    assert(self.stale_at(p, root, stored as int));
                } else {
                    self.lemma_dirty_subset(set![root, p].remove(root), Set::empty());
                }
            }
            node_id = self.node_ref(root).parent;
            proof {
                gc = root;
                gh = stored as int;
                assert(self.arena() == balanced.arena().with_refreshed(root));
                assert(node_id == p);
                assert(node_id != NULL ==> self.node(node_id).height > stored);
                assert(before.arena().rebalanced_from(at) == self.arena().rebalanced_from(node_id));
            }
        }
    }

    /// What the perimeter of the box of node `id` grows by when the box is
    /// widened to hold `bounds` too.
    pub open spec fn insertion_cost(&self, id: NodeId, bounds: Bounds) -> int {
        self.node(id).bounds.spec_union(bounds).spec_perimeter() - self.node(
            id,
        ).bounds.spec_perimeter()
    }

    /// The leaf that the descent from `id` ends at: at each branch it goes to
    /// the left child if that is strictly cheaper by [`Self::insertion_cost`],
    /// and to the right child otherwise.
    pub open spec fn sibling_for(&self, id: NodeId, bounds: Bounds) -> NodeId
        decreases self.node(id).height,
    {
        let n = self.node(id);
        if n.left == NULL {
            id
        } else {
            let next = if self.insertion_cost(n.left, bounds) < self.insertion_cost(n.right, bounds) {
                n.left
            } else {
                n.right
            };
            if self.node(next).height < n.height {
                self.sibling_for(next, bounds)
            } else {
                id
            }
        }
    }

    /// `self` is `pre` with the new leaf `leaf` and the new branch `parent`
    /// linked in at the place of the leaf `sibling`, before the ancestors are
    /// refreshed.
    pub open spec fn linked_from(
        &self,
        pre: &BoundsTree<T>,
        leaf: NodeId,
        parent: NodeId,
        sibling: NodeId,
        bounds: Bounds,
        data: T,
    ) -> bool {
        let sp = pre.node(sibling).parent;
        &&& self.pool_ok()
        &&& forall|id: NodeId|
            #[trigger] self.contains(id) == (pre.contains(id) || id == leaf || id == parent)
        &&& self.nodes().len() >= pre.nodes().len()
        &&& self.spec_root_id() == (if pre.spec_root_id() == sibling {
            parent
        } else {
            pre.spec_root_id()
        })
        &&& self.node(leaf) == (Node {
            bounds,
            parent,
            left: NULL,
            right: NULL,
            data,
            height: 0,
        })
        &&& self.node(parent).parent == sp
        &&& self.node(parent).left == sibling
        &&& self.node(parent).right == leaf
        &&& self.node(parent).height == 1
        &&& self.node(parent).bounds == bounds.spec_union(pre.node(sibling).bounds)
        &&& self.node(sibling) == (Node { parent, ..pre.node(sibling) })
        &&& sp != NULL ==> self.node(sp) == (if pre.node(sp).left == sibling {
            Node { left: parent, ..pre.node(sp) }
        } else {
            Node { right: parent, ..pre.node(sp) }
        })
        &&& forall|id: NodeId|
            #![trigger self.nodes()[id as int]]
            id < pre.nodes().len() && id != leaf && id != parent && id != sibling && id != sp
                ==> self.nodes()[id as int] == pre.nodes()[id as int]
    }

    /// Linking a new leaf in next to a leaf of a sound tree leaves only the
    /// cached values of the old parent of that leaf out of date.
    proof fn lemma_linked(
        &self,
        pre: &BoundsTree<T>,
        leaf: NodeId,
        parent: NodeId,
        sibling: NodeId,
        bounds: Bounds,
        data: T,
    )
        requires
            pre.wf(),
            pre.is_leaf(sibling),
            !pre.contains(leaf),
            !pre.contains(parent),
            leaf != parent,
            self.linked_from(pre, leaf, parent, sibling, bounds, data),
        ensures
            self.ok_except(Self::only(pre.node(sibling).parent)),
            self.spec_root_id() != NULL,
            pre.node(sibling).parent != NULL ==> self.stale_at(
                pre.node(sibling).parent,
                parent,
                0,
            ),
    {
        let sp = pre.node(sibling).parent;
        pre.lemma_contains(sibling);
        pre.links_at(sibling);
        pre.data_at(Set::empty(), sibling);
        self.lemma_contains(leaf);
        self.lemma_contains(parent);
        bounds.lemma_union(pre.node(sibling).bounds);
        if sp != NULL {
            pre.lemma_contains(sp);
            pre.links_at(sp);
            pre.data_at(Set::empty(), sp);
            let o = if pre.node(sp).left == sibling { pre.node(sp).right } else { pre.node(sp).left };
            pre.lemma_contains(o);
            pre.links_at(o);
            assert(self.nodes()[o as int] == pre.nodes()[o as int]);
        }
        assert(self.all_links_ok()) by {
            reveal(BoundsTree::all_links_ok);
            assert forall|id: NodeId| #[trigger] self.contains(id) implies self.links_ok(id) by {
                if id != leaf && id != parent {
                    pre.lemma_contains(id);
                    pre.links_at(id);
                    let a = pre.node(id);
                    if a.left != NULL {
                        pre.lemma_contains(a.left);
                        pre.lemma_contains(a.right);
                        assert(self.contains(a.left));
                        assert(self.contains(a.right));
                    }
                    if id != pre.spec_root_id() {
                        pre.lemma_contains(a.parent);
                        assert(self.contains(a.parent));
                    }
                    if id != sibling && id != sp {
                        assert(self.nodes()[id as int] == pre.nodes()[id as int]);
                    }
                } else {
                    assert(self.contains(sibling));
                    assert(self.contains(leaf));
                    assert(self.contains(parent));
                    if sp != NULL {
                        assert(self.contains(sp));
                    }
                }
            }
        }
        assert(self.all_data_ok_except(Self::only(sp))) by {
            reveal(BoundsTree::all_data_ok_except);
            assert forall|id: NodeId| #[trigger]
                self.contains(id) && !Self::only(sp).contains(id) implies self.data_ok(id) by {
                if id != leaf && id != parent {
                    pre.lemma_contains(id);
                    pre.links_at(id);
                    pre.data_at(Set::empty(), id);
                    let a = pre.node(id);
                    if a.left != NULL {
                        pre.lemma_contains(a.left);
                        pre.lemma_contains(a.right);
                    }
                    if id != sibling {
                        assert(self.nodes()[id as int] == pre.nodes()[id as int]);
                    }
                }
            }
        }
        assert(self.contains(self.spec_root_id()));
    }

    /// `self` is `pre` after the insertion of the leaf `leaf` with the box
    /// `bounds` and the value `data`. Into an empty tree the leaf goes as
    /// the root. Otherwise it is linked in beside the leaf
    /// [`Self::sibling_for`] `bounds`, under a new branch, and the tree is
    /// rebalanced from the former parent of that leaf upwards.
    pub open spec fn is_insertion_of(
        &self,
        pre: &BoundsTree<T>,
        leaf: NodeId,
        bounds: Bounds,
        data: T,
    ) -> bool {
        if pre.spec_root_id() == NULL {
            &&& self.spec_root_id() == leaf
            &&& self.node(leaf) == (Node {
                bounds,
                parent: NULL,
                left: NULL,
                right: NULL,
                data,
                height: 0,
            })
            &&& forall|id: NodeId| #[trigger] self.contains(id) <==> id == leaf
        } else {
            let sibling = pre.sibling_for(pre.spec_root_id(), bounds);
            exists|linked: BoundsTree<T>| #[trigger]
                linked.linked_from(pre, leaf, self.node(leaf).parent, sibling, bounds, data)
                    && self.arena() == linked.arena().rebalanced_from(pre.node(sibling).parent)
        }
    }

    /// `self` is `pre` after the removal of the leaf `leaf`. A root leaf
    /// leaves no node. Otherwise the leaf and its parent go, the sibling of
    /// the leaf takes the place of the parent, and the tree is rebalanced
    /// from the grandparent upwards.
    pub open spec fn is_removal_of(&self, pre: &BoundsTree<T>, leaf: NodeId) -> bool {
        if pre.spec_root_id() == leaf {
            self.spec_root_id() == NULL && self.is_empty()
        } else {
            exists|unlinked: BoundsTree<T>| #[trigger]
                unlinked.unlinked_from(pre, leaf) && self.arena()
                    == unlinked.arena().rebalanced_from(pre.node(pre.node(leaf).parent).parent)
        }
    }

    /// The tree after an insertion is the linked tree, rebalanced.
    proof fn lemma_inserted(
        &self,
        pre: &BoundsTree<T>,
        linked: &BoundsTree<T>,
        leaf: NodeId,
        parent: NodeId,
        sibling: NodeId,
        bounds: Bounds,
        data: T,
    )
        requires
            linked.linked_from(pre, leaf, parent, sibling, bounds, data),
            self.arena() == linked.arena().rebalanced_from(pre.node(sibling).parent),
        ensures
            exists|mid: BoundsTree<T>| #[trigger]
                mid.linked_from(pre, leaf, parent, sibling, bounds, data) && self.arena()
                    == mid.arena().rebalanced_from(pre.node(sibling).parent),
    {
    }

    /// Inserts a leaf with the box `bounds` and the value `data`, and returns its id.
    ///
    /// The first leaf becomes the root. Otherwise the leaf becomes the right
    /// child of a new branch that takes the place of the leaf
    /// [`Self::sibling_for`] `bounds`, which becomes that branch's left child;
    /// the tree is then rebalanced from there up to the root.
    pub fn insert_leaf(&mut self, bounds: Bounds, data: T) -> (leaf_id: NodeId)
        requires
            old(self).wf(),
        ensures
            final(self).wf(),
            leaf_id == old(self).next_id(),
            !old(self).contains(leaf_id),
            final(self).is_leaf(leaf_id),
            final(self).node(leaf_id).bounds == bounds,
            final(self).node(leaf_id).data == data,
            forall|id: NodeId| #[trigger]
                old(self).contains(id) ==> final(self).contains(id) && (old(self).is_leaf(id)
                    <==> final(self).is_leaf(id)) && final(self).node(id).data == old(self).node(
                    id,
                ).data && (old(self).is_leaf(id) ==> final(self).node(id).bounds == old(self).node(
                    id,
                ).bounds),
            old(self).spec_root_id() == NULL ==> final(self).spec_root_id() == leaf_id
                && final(self).node_count() == old(self).node_count() + 1 && (forall|id: NodeId| #[trigger]
                final(self).contains(id) ==> id == leaf_id),
            old(self).spec_root_id() != NULL ==> {
                let p = final(self).node(leaf_id).parent;
                &&& final(self).node_count() == old(self).node_count() + 2
                &&& final(self).contains(p)
                &&& !old(self).contains(p)
                &&& final(self).node(p).left == old(self).sibling_for(old(self).spec_root_id(), bounds)
                &&& final(self).node(p).right == leaf_id
                &&& forall|id: NodeId| #[trigger]
                    final(self).contains(id) ==> id == leaf_id || id == p || old(self).contains(id)
            },
            final(self).is_insertion_of(old(self), leaf_id, bounds, data),
    {
        let ghost pre = *self;
        proof {
            pre.pool.lemma_wf();
        }
        let leaf_id = self.pool.allocate_with(Node::new(bounds, data));
        if self.root_id == NULL {
            self.root_id = leaf_id;
            proof {
                self.lemma_contains(leaf_id);
                assert forall|id: NodeId| #[trigger] self.contains(id) implies id == leaf_id by {
                    if id != leaf_id {
                        assert(pre.contains(id));
                    }
                }
                assert(self.node(leaf_id) == (Node {
                    bounds,
                    parent: NULL,
                    left: NULL,
                    right: NULL,
                    data,
                    height: 0,
                }));
                assert(self.all_links_ok()) by {
                    reveal(BoundsTree::all_links_ok);
                }
                assert(self.all_data_ok_except(Set::empty())) by {
                    reveal(BoundsTree::all_data_ok_except);
                }
            }
            return leaf_id;
        }
        let ghost with_leaf = *self;
        proof {
            with_leaf.pool.lemma_wf();
            pre.lemma_contains(pre.spec_root_id());
        }
        let leaf_bounds = self.node_ref(leaf_id).bounds;
        let mut sibling_id = self.root_id;
        while !self.node_ref(sibling_id).is_leaf()
            invariant
                *self == with_leaf,
                pre.wf(),
                pre.contains(sibling_id),
                with_leaf.contains(sibling_id),
                leaf_bounds == bounds,
                with_leaf.nodes().len() >= pre.nodes().len(),
                forall|id: NodeId|
                    #![trigger with_leaf.nodes()[id as int]]
                    id < pre.nodes().len() && id != leaf_id ==> with_leaf.nodes()[id as int]
                        == pre.nodes()[id as int],
                forall|id: NodeId| #[trigger] pre.contains(id) ==> with_leaf.contains(id),
                !pre.contains(leaf_id),
                pre.sibling_for(pre.spec_root_id(), bounds) == pre.sibling_for(sibling_id, bounds),
            decreases self.node(sibling_id).height,
        {
            proof {
                pre.lemma_contains(sibling_id);
                pre.lemma_branch(sibling_id);
                pre.lemma_contains(pre.node(sibling_id).left);
                pre.lemma_contains(pre.node(sibling_id).right);
                assert(with_leaf.nodes()[sibling_id as int] == pre.nodes()[sibling_id as int]);
                assert(with_leaf.nodes()[pre.node(sibling_id).left as int] == pre.nodes()[pre.node(
                    sibling_id,
                ).left as int]);
                assert(with_leaf.nodes()[pre.node(sibling_id).right as int] == pre.nodes()[pre.node(
                    sibling_id,
                ).right as int]);
            }
            let sibling = self.node_ref(sibling_id);
            let left = self.node_ref(sibling.left);
            let right = self.node_ref(sibling.right);
            let cost_left = left.bounds.union(&leaf_bounds).perimeter() - left.bounds.perimeter();
            let cost_right = right.bounds.union(&leaf_bounds).perimeter()
                - right.bounds.perimeter();
            sibling_id = if cost_left < cost_right {
                sibling.left
            } else {
                sibling.right
            }
        }
        proof {
            pre.lemma_contains(sibling_id);
            pre.links_at(sibling_id);
            assert(with_leaf.nodes()[sibling_id as int] == pre.nodes()[sibling_id as int]);
            assert(pre.sibling_for(sibling_id, bounds) == sibling_id);
        }
        // Create new node that will become parent and replace sibling's position in the tree
        let parent_id = self.pool.allocate();
        let ghost with_parent = *self;
        let (sibling_parent_id, sibling_bounds, sibling_height) = {
            let sibling = self.node_ref(sibling_id);
            (sibling.parent, sibling.bounds, sibling.height)
        };
        proof {
            pre.data_at(Set::empty(), sibling_id);
            if sibling_parent_id != NULL {
                pre.lemma_contains(sibling_parent_id);
            }
        }
        {
            let parent = self.get_node_mut(parent_id);
            parent.parent = sibling_parent_id;
            parent.bounds = leaf_bounds.union(&sibling_bounds);
            parent.height = sibling_height + 1;
            parent.left = sibling_id;
            parent.right = leaf_id;
        }
        {
            let sibling = self.get_node_mut(sibling_id);
            sibling.parent = parent_id;
        }
        {
            let leaf = self.get_node_mut(leaf_id);
            leaf.parent = parent_id;
        }
        // Place new parent in sibling's position in tree
        if sibling_id == self.root_id {
            self.root_id = parent_id;
        } else {
            let is_sibling_left_child = self.node_ref(sibling_parent_id).left == sibling_id;
            let sibling_parent = self.get_node_mut(sibling_parent_id);
            if is_sibling_left_child {
                sibling_parent.left = parent_id;
            } else {
                sibling_parent.right = parent_id;
            }
        }
        let ghost linked = *self;
        proof {
            linked.lemma_same_nodes(with_parent);
            assert(linked.linked_from(&pre, leaf_id, parent_id, sibling_id, bounds, data));
            linked.lemma_linked(&pre, leaf_id, parent_id, sibling_id, bounds, data);
        }
        // The new branch is sound as it stands: its ancestors are next.
        self.update_ancestors(sibling_parent_id, Ghost(parent_id), Ghost(0));
        proof {
            self.lemma_same_nodes(linked);
            self.lemma_inserted(&pre, &linked, leaf_id, parent_id, sibling_id, bounds, data);
            reveal(BoundsTree::keeps_leaves_of);
            linked.lemma_contains(leaf_id);
            linked.lemma_contains(parent_id);
            linked.lemma_contains(sibling_id);
            assert(self.nodes()[leaf_id as int].left == NULL);
            assert(self.nodes()[parent_id as int].left == sibling_id);
            assert(self.nodes()[parent_id as int].right == leaf_id);
            assert(self.contains(parent_id));
            self.links_at(parent_id);
            assert(self.node(leaf_id).parent == parent_id);
            assert(self.node_count() == pre.node_count() + 2);
            assert(self.contains(parent_id));
            assert(!pre.contains(parent_id));
            assert forall|id: NodeId| #[trigger] self.contains(id) implies id == leaf_id || id
                == parent_id || pre.contains(id) by {
                assert(linked.contains(id));
            }
            assert forall|id: NodeId| #[trigger] pre.contains(id) implies self.contains(id) && (
            pre.is_leaf(id) <==> self.is_leaf(id)) && self.node(id).data == pre.node(id).data && (
            pre.is_leaf(id) ==> self.node(id).bounds == pre.node(id).bounds) by {
                pre.lemma_contains(id);
                assert(linked.contains(id));
                if id != sibling_id && id != sibling_parent_id {
                    assert(linked.nodes()[id as int] == pre.nodes()[id as int]);
                }
                assert(self.nodes()[id as int].data == linked.nodes()[id as int].data);
            }
        }
        leaf_id
    }

    /// Below every node there is a leaf.
    pub proof fn lemma_some_leaf(&self, x: NodeId) -> (leaf: NodeId)
        requires
            self.wf(),
            self.contains(x),
        ensures
            self.is_leaf(leaf),
        decreases self.node(x).height,
    {
        self.lemma_contains(x);
        self.links_at(x);
        self.data_at(Set::empty(), x);
        if self.node(x).left == NULL {
            x
        } else {
            self.lemma_some_leaf(self.node(x).left)
        }
    }

    /// A tree with a node besides its root has a branch as its root.
    pub proof fn lemma_root_is_branch(&self, x: NodeId)
        requires
            self.wf(),
            self.contains(x),
            x != self.spec_root_id(),
        ensures
            self.node(self.spec_root_id()).left != NULL,
        decreases usize::MAX - self.node(x).height,
    {
        self.lemma_contains(x);
        self.links_at(x);
        let p = self.node(x).parent;
        self.lemma_contains(p);
        self.links_at(p);
        self.data_at(Set::empty(), p);
        if p != self.spec_root_id() {
            self.lemma_root_is_branch(p);
        }
    }

    /// The other child of the parent of `id`.
    pub open spec fn sibling_of(&self, id: NodeId) -> NodeId {
        let p = self.node(self.node(id).parent);
        if p.left == id {
            p.right
        } else {
            p.left
        }
    }

    /// `self` is `pre` without the leaf `leaf` and its parent, with the
    /// sibling of the leaf in the parent's place, before the ancestors are
    /// refreshed.
    pub open spec fn unlinked_from(&self, pre: &BoundsTree<T>, leaf: NodeId) -> bool {
        let parent = pre.node(leaf).parent;
        let sibling = pre.sibling_of(leaf);
        let gp = pre.node(parent).parent;
        &&& self.pool_ok()
        &&& forall|id: NodeId|
            #[trigger] self.contains(id) == (pre.contains(id) && id != leaf && id != parent)
        &&& self.nodes().len() == pre.nodes().len()
        &&& self.spec_root_id() == (if pre.spec_root_id() == parent {
            sibling
        } else {
            pre.spec_root_id()
        })
        &&& self.node(sibling) == (Node { parent: gp, ..pre.node(sibling) })
        &&& gp != NULL ==> self.node(gp) == (if pre.node(gp).left == parent {
            Node { left: sibling, ..pre.node(gp) }
        } else {
            Node { right: sibling, ..pre.node(gp) }
        })
        &&& forall|id: NodeId|
            #![trigger self.nodes()[id as int]]
            id < pre.nodes().len() && id != leaf && id != parent && id != sibling && id != gp
                ==> self.nodes()[id as int] == pre.nodes()[id as int]
    }

    /// Taking a leaf and its parent out of a sound tree leaves only the
    /// cached values of the grandparent out of date.
    proof fn lemma_unlinked(&self, pre: &BoundsTree<T>, leaf: NodeId)
        requires
            pre.wf(),
            pre.is_leaf(leaf),
            leaf != pre.spec_root_id(),
            self.unlinked_from(pre, leaf),
        ensures
            self.ok_except(Self::only(pre.node(pre.node(leaf).parent).parent)),
            self.spec_root_id() != NULL,
            pre.node(pre.node(leaf).parent).parent != NULL ==> self.stale_at(
                pre.node(pre.node(leaf).parent).parent,
                pre.sibling_of(leaf),
                pre.node(pre.node(leaf).parent).height as int,
            ),
    {
        let parent = pre.node(leaf).parent;
        let sibling = pre.sibling_of(leaf);
        let gp = pre.node(parent).parent;
        pre.lemma_contains(leaf);
        pre.links_at(leaf);
        pre.data_at(Set::empty(), leaf);
        pre.lemma_contains(parent);
        pre.links_at(parent);
        pre.data_at(Set::empty(), parent);
        pre.lemma_contains(sibling);
        pre.links_at(sibling);
        pre.data_at(Set::empty(), sibling);
        if gp != NULL {
            pre.lemma_contains(gp);
            pre.links_at(gp);
            pre.data_at(Set::empty(), gp);
            let o = if pre.node(gp).left == parent { pre.node(gp).right } else { pre.node(gp).left };
            pre.lemma_contains(o);
            pre.links_at(o);
            assert(self.nodes()[o as int] == pre.nodes()[o as int]);
        }
        assert(self.contains(sibling));
        assert(self.all_links_ok()) by {
            reveal(BoundsTree::all_links_ok);
            assert forall|id: NodeId| #[trigger] self.contains(id) implies self.links_ok(id) by {
                pre.lemma_contains(id);
                pre.links_at(id);
                let a = pre.node(id);
                if a.left != NULL {
                    pre.lemma_contains(a.left);
                    pre.lemma_contains(a.right);
                    assert(self.contains(a.left) == (pre.contains(a.left) && a.left != leaf
                        && a.left != parent));
                    assert(self.contains(a.right) == (pre.contains(a.right) && a.right != leaf
                        && a.right != parent));
                }
                if id != pre.spec_root_id() {
                    pre.lemma_contains(a.parent);
                    assert(self.contains(a.parent) == (pre.contains(a.parent) && a.parent != leaf
                        && a.parent != parent));
                }
                if id != sibling && id != gp {
                    assert(self.nodes()[id as int] == pre.nodes()[id as int]);
                }
            }
        }
        assert(self.all_data_ok_except(Self::only(gp))) by {
            reveal(BoundsTree::all_data_ok_except);
            assert forall|id: NodeId| #[trigger]
                self.contains(id) && !Self::only(gp).contains(id) implies self.data_ok(id) by {
                pre.lemma_contains(id);
                pre.links_at(id);
                pre.data_at(Set::empty(), id);
                let a = pre.node(id);
                if a.left != NULL {
                    pre.lemma_contains(a.left);
                    pre.lemma_contains(a.right);
                }
                if id != sibling {
                    assert(self.nodes()[id as int] == pre.nodes()[id as int]);
                }
            }
        }
    }

    /// Removes the leaf `leaf_id`.
    ///
    /// A root leaf leaves the tree empty. Otherwise the parent of the leaf
    /// goes too, the sibling of the leaf takes the parent's place, and the
    /// tree is rebalanced from the grandparent up to the root. The id of the
    /// leaf is the one that the next insertion hands out.
    pub fn remove_leaf(&mut self, leaf_id: NodeId)
        requires
            old(self).wf(),
            old(self).is_leaf(leaf_id),
        ensures
            final(self).wf(),
            !final(self).contains(leaf_id),
            final(self).next_id() == leaf_id,
            final(self).capacity() == old(self).capacity(),
            forall|id: NodeId| #[trigger]
                final(self).contains(id) ==> old(self).contains(id) && id != leaf_id && (old(
                    self,
                ).is_leaf(id) <==> final(self).is_leaf(id)) && final(self).node(id).data == old(
                    self,
                ).node(id).data && (old(self).is_leaf(id) ==> final(self).node(id).bounds == old(
                    self,
                ).node(id).bounds),
            old(self).spec_root_id() == leaf_id ==> final(self).spec_root_id() == NULL
                && final(self).node_count() == old(self).node_count() - 1,
            old(self).spec_root_id() != leaf_id ==> {
                let p = old(self).node(leaf_id).parent;
                &&& final(self).node_count() == old(self).node_count() - 2
                &&& old(self).contains(p)
                &&& !final(self).contains(p)
                &&& final(self).spec_root_id() != NULL
                &&& forall|id: NodeId| #[trigger]
                    old(self).contains(id) && id != leaf_id && id != p ==> final(self).contains(id)
            },
            forall|id: NodeId| #[trigger]
                old(self).contains(id) && old(self).node(id).left == NULL && id != leaf_id
                    ==> final(self).is_leaf(id),
            final(self).is_removal_of(old(self), leaf_id),
    {
        let ghost pre = *self;
        proof {
            pre.lemma_contains(leaf_id);
            pre.links_at(leaf_id);
            pre.pool.lemma_wf();
        }
        if self.root_id == leaf_id {
            self.root_id = NULL;
            self.pool.free(leaf_id);
            proof {
                assert forall|id: NodeId| !#[trigger] self.contains(id) by {
                    if id != leaf_id && pre.contains(id) {
                        pre.lemma_root_is_branch(id);
                    }
                }
                assert(self.all_links_ok()) by {
                    reveal(BoundsTree::all_links_ok);
                }
                assert(self.all_data_ok_except(Set::empty())) by {
                    reveal(BoundsTree::all_data_ok_except);
                }
            }
            return ;
        }
        let parent_id = self.node_ref(leaf_id).parent;
        proof {
            pre.lemma_contains(parent_id);
            pre.links_at(parent_id);
            pre.lemma_contains(pre.sibling_of(leaf_id));
        }
        let sibling_id = {
            let parent = self.node_ref(parent_id);
            if parent.left == leaf_id {
                parent.right
            } else {
                parent.left
            }
        };
        if self.root_id == parent_id {
            // Root is parent, replace root
            self.pool.free(parent_id);
            self.root_id = sibling_id;
            {
                let sibling = self.get_node_mut(sibling_id);
                sibling.parent = NULL;
            }
            self.pool.free(leaf_id);
            proof {
                assert(self.unlinked_from(&pre, leaf_id));
                self.lemma_unlinked(&pre, leaf_id);
                self.lemma_keeps_leaves_refl();
                self.lemma_removed(&pre, self, leaf_id);
                assert(pre.node(parent_id).parent == NULL);
                assert(self.arena() == self.arena().rebalanced_from(NULL));
            }
            return ;
        }
        // Delete parent and connect sibling to grandparent in its place

        let grandparent_id = self.node_ref(parent_id).parent;
        proof {
            pre.lemma_contains(grandparent_id);
            pre.links_at(grandparent_id);
        }
        let ghost parent_height = pre.node(parent_id).height as int;
        let is_parent_left_child = self.node_ref(grandparent_id).left == parent_id;
        self.pool.free(parent_id);
        self.pool.free(leaf_id);
        {
            let grandparent = self.get_node_mut(grandparent_id);
            if is_parent_left_child {
                grandparent.left = sibling_id;
            } else {
                grandparent.right = sibling_id;
            }
        }
        {
            let sibling = self.get_node_mut(sibling_id);
            sibling.parent = grandparent_id;
        }
        let ghost unlinked = *self;
        proof {
            assert(sibling_id == pre.sibling_of(leaf_id));
            pre.data_at(Set::empty(), parent_id);
            pre.data_at(Set::empty(), grandparent_id);
            assert(grandparent_id != sibling_id);
            assert(unlinked.pool_ok());
            assert forall|id: NodeId|
                #[trigger] unlinked.contains(id) == (pre.contains(id) && id != leaf_id && id != parent_id) by {}
            assert(unlinked.nodes().len() == pre.nodes().len());
            assert(unlinked.spec_root_id() == pre.spec_root_id());
            assert(unlinked.node(sibling_id) == (Node { parent: grandparent_id, ..pre.node(sibling_id) }));
            assert(unlinked.node(grandparent_id) == (if pre.node(grandparent_id).left == parent_id {
                Node { left: sibling_id, ..pre.node(grandparent_id) }
            } else {
                Node { right: sibling_id, ..pre.node(grandparent_id) }
            }));
            assert(unlinked.unlinked_from(&pre, leaf_id));
            unlinked.lemma_unlinked(&pre, leaf_id);
        }
        self.update_ancestors(grandparent_id, Ghost(sibling_id), Ghost(parent_height));
        proof {
            self.lemma_same_nodes(unlinked);
            self.lemma_removed(&pre, &unlinked, leaf_id);
        }
    }

    /// What a removal leaves of the nodes of `pre`, once the ancestors of the
    /// place of the removal have been refreshed.
    proof fn lemma_removed(&self, pre: &BoundsTree<T>, unlinked: &BoundsTree<T>, leaf: NodeId)
        requires
            pre.wf(),
            pre.is_leaf(leaf),
            leaf != pre.spec_root_id(),
            unlinked.unlinked_from(pre, leaf),
            self.same_nodes_as(*unlinked),
            self.keeps_leaves_of(unlinked),
        ensures
            forall|id: NodeId| #[trigger]
                pre.contains(id) && pre.node(id).left == NULL && id != leaf ==> self.is_leaf(id),
            forall|id: NodeId| #[trigger]
                self.contains(id) ==> pre.contains(id) && id != leaf && (pre.is_leaf(id)
                    <==> self.is_leaf(id)) && self.node(id).data == pre.node(id).data && (
                pre.is_leaf(id) ==> self.node(id).bounds == pre.node(id).bounds),
            forall|id: NodeId| #[trigger]
                pre.contains(id) && id != leaf && id != pre.node(leaf).parent ==> self.contains(id),
            !self.contains(leaf),
            !self.contains(pre.node(leaf).parent),
    {
        self.lemma_same_nodes(*unlinked);
        reveal(BoundsTree::keeps_leaves_of);
        pre.lemma_contains(leaf);
        pre.links_at(leaf);
        let parent = pre.node(leaf).parent;
        let sibling = pre.sibling_of(leaf);
        let gp = pre.node(parent).parent;
        pre.lemma_contains(parent);
        pre.links_at(parent);
        assert forall|id: NodeId| #[trigger] self.contains(id) implies pre.contains(id) && id != leaf
            && (pre.is_leaf(id) <==> self.is_leaf(id)) && self.node(id).data == pre.node(id).data
            && (pre.is_leaf(id) ==> self.node(id).bounds == pre.node(id).bounds) by {
            assert(unlinked.contains(id));
            pre.lemma_contains(id);
            if id != sibling && id != gp {
                assert(unlinked.nodes()[id as int] == pre.nodes()[id as int]);
            }
            assert(self.nodes()[id as int].data == unlinked.nodes()[id as int].data);
        }
        assert forall|id: NodeId| #[trigger]
            pre.contains(id) && id != leaf && id != pre.node(leaf).parent implies self.contains(
            id,
        ) by {
            assert(unlinked.contains(id));
        }
        assert(!unlinked.contains(leaf));
        assert(!unlinked.contains(parent));
        assert forall|id: NodeId| #[trigger]
            pre.contains(id) && pre.node(id).left == NULL && id != leaf implies self.is_leaf(id) by {
            assert(id != parent);
            assert(self.contains(id));
        }
    }

}

} // verus!
