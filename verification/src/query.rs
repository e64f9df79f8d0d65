//! Overlap queries on a [`BoundsTree`].

use crate::bounds_tree::{BoundsTree, NodeId, NULL};
use crate::math::Bounds;
use vstd::prelude::*;

verus! {

/// An upper bound on the number of nodes of a subtree of height `h`.
pub open spec fn weight(h: nat) -> nat
    decreases h,
{
    if h == 0 {
        1
    } else {
        2 * weight((h - 1) as nat) + 1
    }
}

proof fn lemma_weight_monotonic(a: nat, b: nat)
    requires
        a <= b,
    ensures
        weight(a) <= weight(b),
    decreases b,
{
    if a < b {
        lemma_weight_monotonic(a, (b - 1) as nat);
    }
}

impl<T: Default> BoundsTree<T> {
    /// The node `k` levels above `x`, or [`NULL`] when the root lies less
    /// than `k` levels above `x`.
    pub open spec fn ancestor(&self, x: NodeId, k: nat) -> NodeId
        decreases k,
    {
        if k == 0 {
            x
        } else if !self.contains(x) {
            NULL
        } else {
            self.ancestor(self.node(x).parent, (k - 1) as nat)
        }
    }

    /// Whether `x` is `a` or lies below `a`.
    pub open spec fn under(&self, a: NodeId, x: NodeId) -> bool {
        exists|k: nat| self.ancestor(x, k) == a
    }

    /// Whether `x` lies in the subtree of one of the nodes of `stack`.
    pub open spec fn covered(&self, stack: Seq<NodeId>, x: NodeId) -> bool {
        exists|i: int| 0 <= i < stack.len() && self.under(#[trigger] stack[i], x)
    }

    /// The sum of the weights of the nodes of `stack`.
    pub open spec fn stack_weight(&self, stack: Seq<NodeId>) -> nat
        decreases stack.len(),
    {
        if stack.len() == 0 {
            0
        } else {
            self.stack_weight(stack.drop_last()) + weight(self.node(stack.last()).height as nat)
        }
    }

    /// Going up one more level from `x` is taking the parent of where `k`
    /// levels lead.
    proof fn lemma_ancestor_step(&self, x: NodeId, k: nat)
        requires
            self.wf(),
            self.contains(self.ancestor(x, k)),
        ensures
            self.ancestor(x, k + 1) == self.node(self.ancestor(x, k)).parent,
            self.contains(x),
        decreases k,
    {
        let p = self.node(x).parent;
        if k > 0 {
            if !self.contains(x) {
                self.lemma_contains(self.ancestor(x, k));
                assert(false);
            }
            assert(self.ancestor(x, k) == self.ancestor(p, (k - 1) as nat));
            self.lemma_ancestor_step(p, (k - 1) as nat);
            assert(self.ancestor(x, k + 1) == self.ancestor(p, k));
        } else {
            assert(self.ancestor(p, 0) == p);
            assert(self.ancestor(x, 1) == self.ancestor(p, 0));
        }
    }

    /// Every node lies under the root.
    pub proof fn lemma_under_root(&self, x: NodeId)
        requires
            self.wf(),
            self.contains(x),
        ensures
            self.under(self.spec_root_id(), x),
        decreases usize::MAX - self.node(x).height,
    {
        self.lemma_contains(x);
        self.links_at(x);
        if x == self.spec_root_id() {
            assert(self.ancestor(x, 0) == x);
        } else {
            let p = self.node(x).parent;
            self.lemma_contains(p);
            self.links_at(p);
            self.data_at(Set::empty(), p);
            self.lemma_under_root(p);
            let k = choose|k: nat| self.ancestor(p, k) == self.spec_root_id();
            assert(self.ancestor(x, k + 1) == self.spec_root_id());
        }
    }

    /// The box of the root holds the box of every node of the tree: the
    /// boxes are unions all the way up.
    pub proof fn lemma_root_holds_all(&self, x: NodeId)
        requires
            self.wf(),
            self.contains(x),
        ensures
            self.contains(self.spec_root_id()),
            self.node(self.spec_root_id()).bounds.spec_contains(self.node(x).bounds),
    {
        self.lemma_under_root(x);
        self.lemma_contains(x);
        let k = choose|k: nat| self.ancestor(x, k) == self.spec_root_id();
        self.lemma_under_bounds(self.spec_root_id(), x, k);
    }

    /// A node's box holds the box of every node under it, and a node is at
    /// least as high as every node under it.
    pub proof fn lemma_under_bounds(&self, a: NodeId, x: NodeId, k: nat)
        requires
            self.wf(),
            self.contains(a),
            self.ancestor(x, k) == a,
        ensures
            self.node(a).bounds.spec_contains(self.node(x).bounds),
            self.node(a).height >= self.node(x).height + k,
            self.contains(x),
        decreases k,
    {
        self.lemma_contains(a);
        if k > 0 {
            assert(self.contains(x));
            let p = self.node(x).parent;
            assert(self.ancestor(x, k) == self.ancestor(p, (k - 1) as nat));
            self.lemma_under_bounds(a, p, (k - 1) as nat);
            self.lemma_contains(x);
            self.lemma_contains(p);
            self.links_at(x);
            self.links_at(p);
            self.data_at(Set::empty(), p);
            let l = self.node(self.node(p).left).bounds;
            let r = self.node(self.node(p).right).bounds;
            l.lemma_union(r);
            assert(self.node(p).bounds.spec_contains(self.node(x).bounds));
            assert(self.node(p).height >= self.node(x).height + 1);
        } else {
            assert(self.ancestor(x, 0) == x);
        }
    }

    /// A node that lies under a branch without being it lies under one of
    /// the children of the branch. Nothing but a leaf itself lies under a leaf.
    proof fn lemma_under_child(&self, s: NodeId, x: NodeId)
        requires
            self.wf(),
            self.contains(s),
            self.under(s, x),
            x != s,
        ensures
            self.node(s).left != NULL,
            self.under(self.node(s).left, x) || self.under(self.node(s).right, x),
    {
        let k = choose|k: nat| self.ancestor(x, k) == s;
        assert(k > 0);
        let j = (k - 1) as nat;
        self.lemma_contains(s);
        // the node just below `s` on the way up from `x`
        self.lemma_below(s, x, k);
        let y = self.ancestor(x, j);
        self.lemma_ancestor_step(x, j);
        self.lemma_contains(y);
        self.links_at(y);
        self.links_at(s);
    }

    /// The node one level below `s` on the way up from `x` is a node of the tree.
    proof fn lemma_below(&self, s: NodeId, x: NodeId, k: nat)
        requires
            self.wf(),
            self.contains(s),
            self.ancestor(x, k) == s,
            k > 0,
        ensures
            self.contains(self.ancestor(x, (k - 1) as nat)),
        decreases k,
    {
        self.lemma_contains(s);
        if k == 1 {
            assert(self.ancestor(x, 1) == self.ancestor(self.node(x).parent, 0)
                || !self.contains(x));
        } else {
            assert(self.contains(x));
            self.lemma_below(s, self.node(x).parent, (k - 1) as nat);
            assert(self.ancestor(x, (k - 1) as nat) == self.ancestor(
                self.node(x).parent,
                (k - 2) as nat,
            ));
        }
    }

    /// What lies under a child of `s` lies under `s`.
    proof fn lemma_under_parent(&self, s: NodeId, c: NodeId, x: NodeId)
        requires
            self.wf(),
            self.contains(c),
            self.node(c).parent == s,
            self.under(c, x),
        ensures
            self.under(s, x),
    {
        let k = choose|k: nat| self.ancestor(x, k) == c;
        self.lemma_ancestor_step(x, k);
    }

    proof fn lemma_stack_push(&self, stack: Seq<NodeId>, x: NodeId)
        ensures
            self.stack_weight(stack.push(x)) == self.stack_weight(stack) + weight(
                self.node(x).height as nat,
            ),
    {
        assert(stack.push(x).drop_last() =~= stack);
    }

    /// The leaves under `x` whose boxes share a point with `bounds`, in the
    /// order of the walk: nothing of a subtree whose box does not meet
    /// `bounds`, and of a branch the leaves under its right child before
    /// those under its left child.
    pub open spec fn hits_under(&self, x: NodeId, bounds: Bounds) -> Seq<NodeId>
        decreases self.node(x).height,
    {
        let n = self.node(x);
        if !bounds.spec_intersects(n.bounds) {
            Seq::empty()
        } else if n.left == NULL {
            seq![x]
        } else if self.node(n.left).height < n.height && self.node(n.right).height < n.height {
            self.hits_under(n.right, bounds) + self.hits_under(n.left, bounds)
        } else {
            Seq::empty()
        }
    }

    /// What [`Self::query`] returns.
    pub open spec fn spec_query(&self, bounds: Bounds) -> Seq<NodeId> {
        if self.spec_root_id() == NULL {
            Seq::empty()
        } else {
            self.hits_under(self.spec_root_id(), bounds)
        }
    }

    /// The leaves that the walk has yet to find when `stack` is what it has
    /// yet to visit, the last of it first.
    pub open spec fn pending(&self, stack: Seq<NodeId>, bounds: Bounds) -> Seq<NodeId>
        decreases stack.len(),
    {
        if stack.len() == 0 {
            Seq::empty()
        } else {
            self.hits_under(stack.last(), bounds) + self.pending(stack.drop_last(), bounds)
        }
    }

    /// One step of the walk keeps what is found and what is pending, taken
    /// together, as it is.
    proof fn lemma_query_step(
        &self,
        bounds: Bounds,
        old_stack: Seq<NodeId>,
        old_hits: Seq<NodeId>,
        stack: Seq<NodeId>,
        hits: Seq<NodeId>,
    )
        requires
            self.wf(),
            old_stack.len() > 0,
            self.contains(old_stack.last()),
            ({
                let s = old_stack.last();
                let rest = old_stack.drop_last();
                if !bounds.spec_intersects(self.node(s).bounds) {
                    stack == rest && hits == old_hits
                } else if self.node(s).left == NULL {
                    stack == rest && hits == old_hits.push(s)
                } else {
                    stack == rest.push(self.node(s).left).push(self.node(s).right) && hits
                        == old_hits
                }
            }),
        ensures
            hits + self.pending(stack, bounds) == old_hits + self.pending(old_stack, bounds),
    {
        let s = old_stack.last();
        let rest = old_stack.drop_last();
        let tail = self.pending(rest, bounds);
        self.lemma_contains(s);
        self.links_at(s);
        self.data_at(Set::empty(), s);
        assert(self.pending(old_stack, bounds) == self.hits_under(s, bounds) + tail);
        if !bounds.spec_intersects(self.node(s).bounds) {
            assert(hits + tail =~= old_hits + (Seq::<NodeId>::empty() + tail));
        } else if self.node(s).left == NULL {
            assert(old_hits.push(s) + tail =~= old_hits + (seq![s] + tail));
        } else {
            let l = self.node(s).left;
            let r = self.node(s).right;
            let one = rest.push(l);
            let two = one.push(r);
            assert(two.drop_last() =~= one);
            assert(one.drop_last() =~= rest);
            assert(self.pending(one, bounds) == self.hits_under(l, bounds) + tail);
            assert(self.pending(two, bounds) == self.hits_under(r, bounds) + self.pending(
                one,
                bounds,
            ));
            assert(old_hits + (self.hits_under(r, bounds) + (self.hits_under(l, bounds) + tail))
                =~= old_hits + ((self.hits_under(r, bounds) + self.hits_under(l, bounds)) + tail));
        }
    }

    /// The leaves whose boxes share a point with `bounds`, each once, in
    /// the order of [`Self::hits_under`] the root.
    ///
    /// The tree is walked from the root; a subtree whose box does not meet
    /// `bounds` is passed over.
    pub fn query(&self, bounds: &Bounds) -> (hits: Vec<NodeId>)
        requires
            self.wf(),
        ensures
            hits@ == self.spec_query(*bounds),
            forall|id: NodeId|
                hits@.contains(id) <==> #[trigger] self.contains(id) && self.node(id).left == NULL
                    && bounds.spec_intersects(self.node(id).bounds),
            hits@.no_duplicates(),
    {
        let mut hits: Vec<NodeId> = Vec::new();
        let mut stack: Vec<NodeId> = Vec::with_capacity(self.len());
        if self.root_id() != NULL {
            stack.push(self.root_id());
        }
        proof {
            assert forall|x: NodeId| #[trigger] self.contains(x) implies self.covered(stack@, x) by {
                self.lemma_under_root(x);
                assert(self.under(stack@[0], x));
            }
            if self.spec_root_id() != NULL {
                assert(stack@.drop_last() =~= Seq::<NodeId>::empty());
                assert(self.pending(stack@.drop_last(), *bounds) == Seq::<NodeId>::empty());
                assert(self.pending(stack@, *bounds) =~= self.hits_under(
                    self.spec_root_id(),
                    *bounds,
                ));
            }
            assert(hits@ + self.pending(stack@, *bounds) =~= self.spec_query(*bounds));
        }
        while stack.len() > 0
            invariant
                self.wf(),
                hits@ + self.pending(stack@, *bounds) == self.spec_query(*bounds),
                forall|i: int| 0 <= i < stack@.len() ==> self.contains(#[trigger] stack@[i]),
                forall|j: int|
                    0 <= j < hits@.len() ==> self.contains(#[trigger] hits@[j]) && self.node(
                        hits@[j],
                    ).left == NULL && bounds.spec_intersects(self.node(hits@[j]).bounds),
                forall|x: NodeId|
                    #[trigger] self.contains(x) && self.node(x).left == NULL
                        && bounds.spec_intersects(self.node(x).bounds) ==> hits@.contains(x)
                        || self.covered(stack@, x),
                hits@.no_duplicates(),
                forall|i: int, j: int|
                    0 <= i < stack@.len() && 0 <= j < stack@.len() && i != j ==> !self.under(
                        #[trigger] stack@[i],
                        #[trigger] stack@[j],
                    ),
                forall|i: int, j: int|
                    0 <= i < stack@.len() && 0 <= j < hits@.len() ==> !self.under(
                        #[trigger] stack@[i],
                        #[trigger] hits@[j],
                    ),
            decreases self.stack_weight(stack@),
        {
            let ghost old_stack = stack@;
            let ghost old_hits = hits@;
            let node_id = stack.pop().unwrap();
            let ghost rest = stack@;
            assert(rest =~= old_stack.drop_last());
            assert(node_id == old_stack.last());
            let node = self.get_node(node_id);
            proof {
                self.lemma_contains(node_id);
                self.links_at(node_id);
                self.data_at(Set::empty(), node_id);
            }
            if bounds.intersects(&node.bounds) {
                if node.is_leaf() {
                    hits.push(node_id);
                    proof {
                        assert(self.ancestor(node_id, 0) == node_id);
                        assert forall|x: NodeId|
                            #[trigger] self.contains(x) && self.node(x).left == NULL
                                && bounds.spec_intersects(self.node(x).bounds) implies hits@.contains(
                            x,
                        ) || self.covered(stack@, x) by {
                            if old_hits.contains(x) {
                                let j = choose|j: int| 0 <= j < old_hits.len() && old_hits[j] == x;
                                assert(hits@[j] == x);
                            } else {
                                let i = choose|i: int|
                                    0 <= i < old_stack.len() && self.under(
                                        #[trigger] old_stack[i],
                                        x,
                                    );
                                if i == old_stack.len() - 1 {
                                    if x != node_id {
                                        self.lemma_under_child(node_id, x);
                                    }
                                    assert(hits@[old_hits.len() as int] == x);
                                } else {
                                    assert(self.under(stack@[i], x));
                                }
                            }
                        }
                        assert forall|i: int, j: int|
                            0 <= i < hits@.len() && 0 <= j < hits@.len() && i != j implies hits@[i]
                            != hits@[j] by {
                            if i == old_hits.len() && hits@[j] == node_id {
                                assert(self.under(old_stack[old_stack.len() - 1], old_hits[j]));
                            }
                            if j == old_hits.len() && hits@[i] == node_id {
                                assert(self.under(old_stack[old_stack.len() - 1], old_hits[i]));
                            }
                        }
                        assert forall|i: int, j: int|
                            0 <= i < stack@.len() && 0 <= j < hits@.len() implies !self.under(
                            #[trigger] stack@[i],
                            #[trigger] hits@[j],
                        ) by {
                            assert(stack@[i] == old_stack[i]);
                            if j < old_hits.len() {
                                assert(hits@[j] == old_hits[j]);
                            } else {
                                assert(hits@[j] == old_stack[old_stack.len() - 1]);
                            }
                        }
                    }
                } else {
                    let left_id = node.left;
                    let right_id = node.right;
                    stack.push(left_id);
                    stack.push(right_id);
                    proof {
                        self.lemma_contains(left_id);
                        self.lemma_contains(right_id);
                        self.links_at(left_id);
                        self.links_at(right_id);
                        self.lemma_stack_push(rest, left_id);
                        self.lemma_stack_push(rest.push(left_id), right_id);
                        lemma_weight_monotonic(
                            self.node(left_id).height as nat,
                            (self.node(node_id).height - 1) as nat,
                        );
                        lemma_weight_monotonic(
                            self.node(right_id).height as nat,
                            (self.node(node_id).height - 1) as nat,
                        );
                        assert(self.ancestor(left_id, 0) == left_id);
                        assert(self.ancestor(right_id, 0) == right_id);
                        assert(self.ancestor(node_id, 0) == node_id);
                        assert forall|x: NodeId|
                            #[trigger] self.contains(x) && self.node(x).left == NULL
                                && bounds.spec_intersects(self.node(x).bounds) implies hits@.contains(
                            x,
                        ) || self.covered(stack@, x) by {
                            if !old_hits.contains(x) {
                                let i = choose|i: int|
                                    0 <= i < old_stack.len() && self.under(
                                        #[trigger] old_stack[i],
                                        x,
                                    );
                                if i == old_stack.len() - 1 {
                                    self.lemma_under_child(node_id, x);
                                    if self.under(left_id, x) {
                                        assert(self.under(stack@[rest.len() as int], x));
                                    } else {
                                        assert(self.under(stack@[rest.len() as int + 1], x));
                                    }
                                } else {
                                    assert(self.under(stack@[i], x));
                                }
                            }
                        }
                        assert forall|i: int, j: int|
                            0 <= i < stack@.len() && 0 <= j < hits@.len() implies !self.under(
                            #[trigger] stack@[i],
                            #[trigger] hits@[j],
                        ) by {
                            if i >= rest.len() {
                                if self.under(stack@[i], hits@[j]) {
                                    self.lemma_under_parent(node_id, stack@[i], hits@[j]);
                                    assert(self.under(old_stack[old_stack.len() - 1], old_hits[j]));
                                }
                            } else {
                                assert(stack@[i] == old_stack[i]);
                            }
                        }
                        assert forall|i: int, j: int|
                            0 <= i < stack@.len() && 0 <= j < stack@.len() && i != j implies !self.under(
                            #[trigger] stack@[i],
                            #[trigger] stack@[j],
                        ) by {
                            self.lemma_unrelated(old_stack, stack@, node_id, i, j);
                        }
                    }
                }
            } else {
                proof {
                    assert forall|x: NodeId|
                        #[trigger] self.contains(x) && self.node(x).left == NULL
                            && bounds.spec_intersects(self.node(x).bounds) implies hits@.contains(x)
                        || self.covered(stack@, x) by {
                        if !old_hits.contains(x) {
                            let i = choose|i: int|
                                0 <= i < old_stack.len() && self.under(#[trigger] old_stack[i], x);
                            if i == old_stack.len() - 1 {
                                let k = choose|k: nat| self.ancestor(x, k) == node_id;
                                self.lemma_under_bounds(node_id, x, k);
                            } else {
                                assert(self.under(stack@[i], x));
                            }
                        }
                    }
                    assert forall|i: int, j: int|
                        0 <= i < stack@.len() && 0 <= j < stack@.len() && i != j implies !self.under(
                        #[trigger] stack@[i],
                        #[trigger] stack@[j],
                    ) by {
                        assert(stack@[i] == old_stack[i]);
                        assert(stack@[j] == old_stack[j]);
                    }
                    assert forall|i: int, j: int|
                        0 <= i < stack@.len() && 0 <= j < hits@.len() implies !self.under(
                        #[trigger] stack@[i],
                        #[trigger] hits@[j],
                    ) by {
                        assert(stack@[i] == old_stack[i]);
                    }
                }
            }
            proof {
                self.lemma_query_step(*bounds, old_stack, old_hits, stack@, hits@);
            }
        }
        proof {
            assert(hits@ + self.pending(stack@, *bounds) =~= hits@);
            assert forall|id: NodeId|
                hits@.contains(id) <==> #[trigger] self.contains(id) && self.node(id).left == NULL
                    && bounds.spec_intersects(self.node(id).bounds) by {
                if hits@.contains(id) {
                    let j = choose|j: int| 0 <= j < hits@.len() && hits@[j] == id;
                    assert(self.contains(hits@[j]));
                }
                if self.contains(id) && self.node(id).left == NULL && bounds.spec_intersects(
                    self.node(id).bounds,
                ) {
                    assert(!self.covered(stack@, id));
                }
            }
        }
        hits
    }

    /// When the last node of `old_stack` gives way to its two children, no
    /// node of the new stack lies under another.
    proof fn lemma_unrelated(
        &self,
        old_stack: Seq<NodeId>,
        stack: Seq<NodeId>,
        s: NodeId,
        i: int,
        j: int,
    )
        requires
            self.wf(),
            old_stack.len() > 0,
            s == old_stack.last(),
            self.contains(s),
            self.node(s).left != NULL,
            stack == old_stack.drop_last().push(self.node(s).left).push(self.node(s).right),
            forall|i: int| 0 <= i < old_stack.len() ==> self.contains(#[trigger] old_stack[i]),
            forall|i: int, j: int|
                0 <= i < old_stack.len() && 0 <= j < old_stack.len() && i != j ==> !self.under(
                    #[trigger] old_stack[i],
                    #[trigger] old_stack[j],
                ),
            0 <= i < stack.len(),
            0 <= j < stack.len(),
            i != j,
        ensures
            !self.under(stack[i], stack[j]),
    {
        let n = old_stack.len() - 1;
        let l = self.node(s).left;
        let r = self.node(s).right;
        self.lemma_contains(s);
        self.links_at(s);
        self.data_at(Set::empty(), s);
        self.lemma_contains(l);
        self.lemma_contains(r);
        assert(self.ancestor(s, 0) == s);
        if self.under(stack[i], stack[j]) {
            let k = choose|k: nat| self.ancestor(stack[j], k) == stack[i];
            if i < n && j < n {
                assert(stack[i] == old_stack[i] && stack[j] == old_stack[j]);
            } else if i < n {
                // a child of `s` under an older entry: then `s` is under it too
                assert(stack[i] == old_stack[i]);
                let c = stack[j];
                assert(c == l || c == r);
                assert(self.contains(stack[i]));
                if k == 0 {
                    assert(self.ancestor(c, 1) == s);
                    assert(self.under(old_stack[n], old_stack[i]));
                } else {
                    assert(self.ancestor(s, (k - 1) as nat) == stack[i]);
                    assert(self.under(old_stack[i], old_stack[n]));
                }
            } else if j < n {
                // an older entry under a child of `s`: then it is under `s`
                assert(stack[j] == old_stack[j]);
                let c = stack[i];
                assert(c == l || c == r);
                self.lemma_under_parent(s, c, stack[j]);
                assert(self.under(old_stack[n], old_stack[j]));
            } else {
                // one child of `s` under the other
                let a = stack[i];
                let b = stack[j];
                assert(a != b);
                assert(k > 0);
                assert(self.ancestor(s, (k - 1) as nat) == a);
                self.lemma_under_bounds(a, s, (k - 1) as nat);
            }
        }
    }
}

} // verus!
