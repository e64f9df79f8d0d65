//! The broad phase: which pairs of bodies may touch.
//!
//! Every body has a proxy, a leaf of a [`BoundsTree`] whose box is the body's
//! box grown by a margin. As long as the body stays inside that box the tree
//! is left alone; a body that leaves it is inserted anew and looked up
//! against the tree for new neighbours.

use crate::body::{Bodies, Body, BodyId, BodyPair, ProxyId};
use crate::bounds_tree::{BoundsTree, NodeId, NULL};
use crate::constraints::{grown, lemma_grown_twice, ConstraintsMap};
use crate::math::Bounds;
use vstd::prelude::*;

verus! {

/// By how many percent of its size the box of a proxy exceeds the box of its body.
pub const EXPANSION_PERCENT: u16 = 5;

/// The broad phase that keeps a proxy for every body in a [`BoundsTree`].
pub struct BoundsTreeBroadPhase {
    tree: BoundsTree<BodyId>,
    reinserted_bodies: Vec<BodyId>,
}

impl BoundsTreeBroadPhase {
    /// The tree of the proxies.
    pub closed spec fn tree(&self) -> BoundsTree<BodyId> {
        self.tree
    }

    /// The bodies whose proxies were inserted anew since the last
    /// [`Self::post_update`], in the order in which that happened.
    pub closed spec fn reinserted(&self) -> Seq<BodyId> {
        self.reinserted_bodies@
    }

    /// The tree of the proxies is sound.
    pub open spec fn wf(&self) -> bool {
        self.tree().wf()
    }

    /// Whether `proxy` is the proxy of a body.
    pub open spec fn has_proxy(&self, proxy: ProxyId) -> bool {
        self.tree().is_leaf(proxy)
    }

    /// The box of `proxy`.
    pub open spec fn proxy_bounds(&self, proxy: ProxyId) -> Bounds {
        self.tree().node(proxy).bounds
    }

    /// The body that `proxy` stands for.
    pub open spec fn proxy_body(&self, proxy: ProxyId) -> BodyId {
        self.tree().node(proxy).data
    }

    /// Whether there is no proxy.
    pub open spec fn no_proxies(&self) -> bool {
        forall|p: ProxyId| !#[trigger] self.has_proxy(p)
    }

    /// `self` has the proxies of `pre`, unchanged, but for `proxy`.
    pub open spec fn same_proxies_but(&self, pre: &BoundsTreeBroadPhase, proxy: ProxyId) -> bool {
        forall|p: ProxyId|
            p != proxy ==> (#[trigger] self.has_proxy(p) <==> pre.has_proxy(p)) && (pre.has_proxy(p)
                ==> self.proxy_bounds(p) == pre.proxy_bounds(p) && self.proxy_body(p)
                == pre.proxy_body(p))
    }

    /// A broad phase without proxies.
    pub fn new() -> (r: BoundsTreeBroadPhase)
        ensures
            r.wf(),
            r.reinserted() == Seq::<BodyId>::empty(),
            r.no_proxies(),
    {
        BoundsTreeBroadPhase { tree: BoundsTree::new(), reinserted_bodies: Vec::new() }
    }

    /// Forgets which bodies were inserted anew.
    pub fn post_update(&mut self)
        ensures
            final(self).tree() == old(self).tree(),
            final(self).reinserted() == Seq::<BodyId>::empty(),
    {
        self.reinserted_bodies.clear();
    }

    /// Forgets that `body_id` was inserted anew.
    pub fn forget(&mut self, body_id: BodyId)
        ensures
            final(self).tree() == old(self).tree(),
            forall|b: BodyId|
                final(self).reinserted().contains(b) <==> old(self).reinserted().contains(b) && b
                    != body_id,
    {
        let mut kept: Vec<BodyId> = Vec::new();
        let mut i: usize = 0;
        let ghost all = self.reinserted_bodies@;
        while i < self.reinserted_bodies.len()
            invariant
                i <= all.len(),
                all == self.reinserted_bodies@,
                self.tree == old(self).tree,
                forall|b: BodyId|
                    kept@.contains(b) <==> b != body_id && exists|k: int|
                        0 <= k < i && #[trigger] all[k] == b,
            decreases all.len() - i,
        {
            let b = self.reinserted_bodies[i];
            let ghost before = kept@;
            if b != body_id {
                kept.push(b);
            }
            proof {
                assert forall|x: BodyId|
                    kept@.contains(x) <==> x != body_id && exists|k: int|
                        0 <= k < i + 1 && #[trigger] all[k] == x by {
                    if kept@.contains(x) {
                        let t = choose|t: int| 0 <= t < kept@.len() && kept@[t] == x;
                        if t < before.len() {
                            assert(before[t] == x);
                            assert(before.contains(x));
                            let k = choose|k: int| 0 <= k < i && #[trigger] all[k] == x;
                            assert(0 <= k < i + 1);
                        } else {
                            assert(all[i as int] == x);
                        }
                    }
                    if x != body_id && exists|k: int| 0 <= k < i + 1 && #[trigger] all[k] == x {
                        let k = choose|k: int| 0 <= k < i + 1 && #[trigger] all[k] == x;
                        if k < i {
                            assert(before.contains(x));
                            let t = choose|t: int| 0 <= t < before.len() && before[t] == x;
                            assert(kept@[t] == x);
                        } else {
                            assert(kept@[before.len() as int] == x);
                        }
                    }
                }
            }
            i += 1;
        }
        proof {
            assert forall|b: BodyId| kept@.contains(b) <==> all.contains(b) && b != body_id by {
                if all.contains(b) {
                    let k = choose|k: int| 0 <= k < all.len() && all[k] == b;
                    assert(all[k] == b);
                }
            }
        }
        self.reinserted_bodies = kept;
    }

    /// The box of `proxy_id`.
    pub fn get_proxy_bounds(&self, proxy_id: ProxyId) -> (r: Bounds)
        requires
            self.wf(),
            self.has_proxy(proxy_id),
        ensures
            r == self.proxy_bounds(proxy_id),
    {
        self.tree.get_node(proxy_id).bounds
    }

    /// A tree has no root exactly if there is no proxy.
    proof fn lemma_no_root(&self)
        requires
            self.wf(),
        ensures
            self.tree().spec_root_id() == NULL <==> self.no_proxies(),
    {
        let root = self.tree.spec_root_id();
        if root != NULL {
            let leaf = self.tree.lemma_some_leaf(root);
            assert(self.has_proxy(leaf));
        } else {
            assert forall|p: ProxyId| !#[trigger] self.has_proxy(p) by {
                assert(!self.tree.contains(p));
            }
        }
    }

    /// Gives `body` a proxy: a leaf with the body's box grown by
    /// [`EXPANSION_PERCENT`], which therefore contains the body's box.
    pub fn create_proxy<S>(&mut self, body: &Body<S>) -> (r: ProxyId)
        requires
            old(self).wf(),
        ensures
            final(self).wf(),
            r == old(self).tree().next_id(),
            r != NULL,
            !old(self).has_proxy(r),
            final(self).has_proxy(r),
            final(self).proxy_body(r) == body.spec_id(),
            final(self).proxy_bounds(r).spec_min() == body.spec_bounds().spec_expand_by(
                EXPANSION_PERCENT,
            ).0,
            final(self).proxy_bounds(r).spec_max() == body.spec_bounds().spec_expand_by(
                EXPANSION_PERCENT,
            ).1,
            final(self).proxy_bounds(r).spec_contains(body.spec_bounds()),
            final(self).same_proxies_but(old(self), r),
            final(self).reinserted() == old(self).reinserted(),
            final(self).tree().is_insertion_of(
                &old(self).tree(),
                r,
                body.spec_bounds().spec_expanded(EXPANSION_PERCENT),
                body.spec_id(),
            ),
            final(self).tree().node_count() == old(self).tree().node_count() + (if old(
                self,
            ).no_proxies() {
                1int
            } else {
                2int
            }),
    {
        proof {
            self.lemma_no_root();
        }
        let fat = body.bounds().expand_by(EXPANSION_PERCENT);
        let r = self.tree.insert_leaf(fat, body.id());
        proof {
            let pre = old(self).tree;
            let q = self.tree.node(r).parent;
            self.tree.lemma_contains(r);
            if pre.spec_root_id() != NULL {
                self.tree.lemma_contains(q);
                self.tree.links_at(q);
                assert(self.tree.node(q).left != NULL);
            }
            assert forall|p: ProxyId| p != r implies (#[trigger] self.has_proxy(p) <==> old(
                self,
            ).has_proxy(p)) && (old(self).has_proxy(p) ==> self.proxy_bounds(p) == old(
                self,
            ).proxy_bounds(p) && self.proxy_body(p) == old(self).proxy_body(p)) by {
                if pre.contains(p) {
                    assert(self.tree.contains(p));
                } else if self.tree.contains(p) {
                    assert(pre.spec_root_id() != NULL);
                    assert(p == q);
                }
            }
        }
        r
    }

    /// Takes the proxy `proxy_id` away. Its id is the one that the next
    /// proxy gets.
    pub fn destroy_proxy(&mut self, proxy_id: ProxyId)
        requires
            old(self).wf(),
            old(self).has_proxy(proxy_id),
        ensures
            final(self).wf(),
            !final(self).has_proxy(proxy_id),
            final(self).tree().next_id() == proxy_id,
            final(self).same_proxies_but(old(self), proxy_id),
            final(self).reinserted() == old(self).reinserted(),
            final(self).tree().is_removal_of(&old(self).tree(), proxy_id),
            final(self).no_proxies() ==> old(self).tree().node_count()
                == final(self).tree().node_count() + 1,
            !final(self).no_proxies() ==> old(self).tree().node_count()
                == final(self).tree().node_count() + 2,
    {
        self.tree.remove_leaf(proxy_id);
        proof {
            let pre = old(self).tree;
            pre.lemma_contains(proxy_id);
            pre.links_at(proxy_id);
            if pre.spec_root_id() != proxy_id {
                let q = pre.node(proxy_id).parent;
                pre.lemma_contains(q);
                pre.links_at(q);
            }
            assert forall|p: ProxyId| p != proxy_id implies (#[trigger] self.has_proxy(p) <==> old(
                self,
            ).has_proxy(p)) && (old(self).has_proxy(p) ==> self.proxy_bounds(p) == old(
                self,
            ).proxy_bounds(p) && self.proxy_body(p) == old(self).proxy_body(p)) by {
                if self.tree.contains(p) {
                    assert(pre.contains(p));
                } else if pre.is_leaf(p) {
                    if pre.spec_root_id() != proxy_id {
                        assert(p != pre.node(proxy_id).parent);
                        assert(self.tree.contains(p));
                    } else {
                        pre.lemma_root_is_branch(p);
                    }
                }
            }
            if self.tree.spec_root_id() == NULL {
                assert forall|p: ProxyId| !#[trigger] self.has_proxy(p) by {
                    assert(!self.tree.contains(p));
                }
            } else {
                let leaf = self.tree.lemma_some_leaf(self.tree.spec_root_id());
                assert(self.has_proxy(leaf));
            }
        }
    }

    /// Brings the proxy of `body` up to date with the body's box.
    ///
    /// Nothing happens while the box of the proxy contains the box of the
    /// body. Otherwise the proxy is taken away and created anew, under the
    /// same id, and the body is recorded as inserted anew. Either way the
    /// box of the proxy contains the box of the body afterwards.
    pub fn update_proxy<S>(&mut self, proxy_id: ProxyId, body: &Body<S>)
        requires
            old(self).wf(),
            old(self).has_proxy(proxy_id),
        ensures
            final(self).wf(),
            final(self).has_proxy(proxy_id),
            final(self).proxy_bounds(proxy_id).spec_contains(body.spec_bounds()),
            final(self).same_proxies_but(old(self), proxy_id),
            final(self).tree().node_count() == old(self).tree().node_count(),
            old(self).proxy_bounds(proxy_id).spec_contains(body.spec_bounds()) ==> {
                &&& final(self).tree() == old(self).tree()
                &&& final(self).reinserted() == old(self).reinserted()
            },
            !old(self).proxy_bounds(proxy_id).spec_contains(body.spec_bounds()) ==> {
                let fat = body.spec_bounds().spec_expand_by(EXPANSION_PERCENT);
                &&& final(self).reinserted() == old(self).reinserted().push(body.spec_id())
                &&& final(self).proxy_body(proxy_id) == body.spec_id()
                &&& final(self).proxy_bounds(proxy_id).spec_min() == fat.0
                &&& final(self).proxy_bounds(proxy_id).spec_max() == fat.1
                &&& exists|without: BoundsTree<BodyId>|
                    {
                        &&& #[trigger] without.is_removal_of(&old(self).tree(), proxy_id)
                        &&& final(self).tree().is_insertion_of(
                            &without,
                            proxy_id,
                            body.spec_bounds().spec_expanded(EXPANSION_PERCENT),
                            body.spec_id(),
                        )
                    }
            },
    {
        let tight = body.bounds();
        if self.tree.get_node(proxy_id).bounds.contains(&tight) {
            return ;
        }
        proof {
            self.tree.lemma_contains(proxy_id);
        }
        // The proxy id stays the same: the slot that is freed last is the
        // first to be handed out again.
        self.destroy_proxy(proxy_id);
        let ghost without = *self;
        let created = self.create_proxy(body);
        assert(created == proxy_id);
        let ghost made = *self;
        self.reinserted_bodies.push(body.id());
        proof {
            assert(self.tree == made.tree);
            assert(without.tree.is_removal_of(&old(self).tree(), proxy_id));
            assert forall|p: ProxyId| p != proxy_id implies (#[trigger] self.has_proxy(p) <==> old(
                self,
            ).has_proxy(p)) && (old(self).has_proxy(p) ==> self.proxy_bounds(p) == old(
                self,
            ).proxy_bounds(p) && self.proxy_body(p) == old(self).proxy_body(p)) by {
                assert(without.has_proxy(p) <==> old(self).has_proxy(p));
                assert(made.has_proxy(p) <==> without.has_proxy(p));
            }
        }
    }

    /// Whether the body `b` and the proxy `leaf` of another body make a
    /// pair: `b` can move, and its box meets the box of the proxy.
    pub open spec fn meets<S>(&self, bodies: &Bodies<S>, b: BodyId, leaf: ProxyId) -> bool {
        &&& !bodies.body(b).spec_is_static()
        &&& self.has_proxy(leaf)
        &&& bodies.body(b).spec_bounds().spec_intersects(self.proxy_bounds(leaf))
        &&& self.proxy_body(leaf) != b
    }

    /// The pairs that the body `b` makes with the proxies that it meets.
    pub open spec fn pairs_of<S>(&self, bodies: &Bodies<S>, b: BodyId) -> Set<BodyPair> {
        Set::new(
            |p: BodyPair|
                exists|leaf: ProxyId| #[trigger]
                    self.meets(bodies, b, leaf) && p == BodyPair::spec_new(
                        self.proxy_body(leaf),
                        b,
                    ),
        )
    }

    /// The pairs that the first `n` reinserted bodies make.
    pub open spec fn candidates_among<S>(&self, bodies: &Bodies<S>, n: nat) -> Set<BodyPair>
        decreases n,
    {
        if n == 0 {
            Set::empty()
        } else {
            self.candidates_among(bodies, (n - 1) as nat).union(
                self.pairs_of(bodies, self.reinserted()[n - 1]),
            )
        }
    }

    /// The pairs that the reinserted bodies make: each is a reinserted body
    /// that can move, together with the body of a proxy whose box meets the
    /// box of the reinserted body.
    pub open spec fn candidates<S>(&self, bodies: &Bodies<S>) -> Set<BodyPair> {
        self.candidates_among(bodies, self.reinserted().len())
    }

    /// A pair is among the candidates exactly if a reinserted body makes it
    /// with a proxy that it meets.
    pub proof fn lemma_candidates<S>(&self, bodies: &Bodies<S>, p: BodyPair, n: nat)
        requires
            n <= self.reinserted().len(),
        ensures
            self.candidates_among(bodies, n).contains(p) <==> exists|i: int, leaf: ProxyId|
                0 <= i < n && #[trigger] self.meets(bodies, self.reinserted()[i], leaf) && p
                    == BodyPair::spec_new(self.proxy_body(leaf), self.reinserted()[i]),
        decreases n,
    {
        if n > 0 {
            self.lemma_candidates(bodies, p, (n - 1) as nat);
            let b = self.reinserted()[n - 1];
            if self.pairs_of(bodies, b).contains(p) {
                let leaf = choose|leaf: ProxyId| #[trigger]
                    self.meets(bodies, b, leaf) && p == BodyPair::spec_new(
                        self.proxy_body(leaf),
                        b,
                    );
                assert(self.meets(bodies, self.reinserted()[n - 1], leaf));
            }
            if exists|i: int, leaf: ProxyId|
                0 <= i < n && #[trigger] self.meets(bodies, self.reinserted()[i], leaf) && p
                    == BodyPair::spec_new(self.proxy_body(leaf), self.reinserted()[i]) {
                let (i, leaf) = choose|i: int, leaf: ProxyId|
                    0 <= i < n && #[trigger] self.meets(bodies, self.reinserted()[i], leaf) && p
                        == BodyPair::spec_new(self.proxy_body(leaf), self.reinserted()[i]);
                if i == n - 1 {
                    assert(self.pairs_of(bodies, b).contains(p));
                }
            }
        }
    }

    /// The pairs that `b` makes with the first `j` of `hits`.
    pub open spec fn hit_pairs(&self, hits: Seq<NodeId>, b: BodyId, j: nat) -> Set<BodyPair>
        decreases j,
    {
        if j == 0 {
            Set::empty()
        } else {
            let rest = self.hit_pairs(hits, b, (j - 1) as nat);
            if self.proxy_body(hits[j - 1]) != b {
                rest.insert(BodyPair::spec_new(self.proxy_body(hits[j - 1]), b))
            } else {
                rest
            }
        }
    }

    proof fn lemma_hit_pairs(&self, hits: Seq<NodeId>, b: BodyId, j: nat, p: BodyPair)
        requires
            j <= hits.len(),
        ensures
            self.hit_pairs(hits, b, j).contains(p) <==> exists|t: int|
                0 <= t < j && self.proxy_body(#[trigger] hits[t]) != b && p == BodyPair::spec_new(
                    self.proxy_body(hits[t]),
                    b,
                ),
        decreases j,
    {
        if j > 0 {
            self.lemma_hit_pairs(hits, b, (j - 1) as nat, p);
            if exists|t: int|
                0 <= t < j && self.proxy_body(#[trigger] hits[t]) != b && p == BodyPair::spec_new(
                    self.proxy_body(hits[t]),
                    b,
                ) {
                let t = choose|t: int|
                    0 <= t < j && self.proxy_body(#[trigger] hits[t]) != b && p
                        == BodyPair::spec_new(self.proxy_body(hits[t]), b);
                if t < j - 1 {
                    assert(self.hit_pairs(hits, b, (j - 1) as nat).contains(p));
                }
            }
            if self.hit_pairs(hits, b, j).contains(p) {
                if self.hit_pairs(hits, b, (j - 1) as nat).contains(p) {
                    let t = choose|t: int|
                        0 <= t < j - 1 && self.proxy_body(#[trigger] hits[t]) != b && p
                            == BodyPair::spec_new(self.proxy_body(hits[t]), b);
                    assert(0 <= t < j);
                } else {
                    let t = j - 1;
                    assert(self.proxy_body(hits[t]) != b);
                }
            }
        }
    }

    /// The pairs that a body makes with all the leaves that meet its box are
    /// the pairs that it makes.
    proof fn lemma_hits_are_pairs<S>(&self, bodies: &Bodies<S>, hits: Seq<NodeId>, b: BodyId)
        requires
            forall|id: NodeId|
                hits.contains(id) <==> #[trigger] self.tree().contains(id) && self.tree().node(
                    id,
                ).left == NULL && bodies.body(b).spec_bounds().spec_intersects(
                    self.tree().node(id).bounds,
                ),
        ensures
            !bodies.body(b).spec_is_static() ==> self.hit_pairs(hits, b, hits.len())
                == self.pairs_of(bodies, b),
            bodies.body(b).spec_is_static() ==> self.pairs_of(bodies, b) == Set::<
                BodyPair,
            >::empty(),
    {
        if bodies.body(b).spec_is_static() {
            assert(self.pairs_of(bodies, b) =~= Set::<BodyPair>::empty());
        } else {
            assert forall|p: BodyPair|
                self.hit_pairs(hits, b, hits.len()).contains(p) <==> self.pairs_of(
                    bodies,
                    b,
                ).contains(p) by {
                self.lemma_hit_pairs(hits, b, hits.len(), p);
                if self.pairs_of(bodies, b).contains(p) {
                    let leaf = choose|leaf: ProxyId| #[trigger]
                        self.meets(bodies, b, leaf) && p == BodyPair::spec_new(
                            self.proxy_body(leaf),
                            b,
                        );
                    assert(self.tree().contains(leaf));
                    assert(hits.contains(leaf));
                    let t = choose|t: int| 0 <= t < hits.len() && hits[t] == leaf;
                    assert(self.proxy_body(hits[t]) != b);
                }
                if exists|t: int|
                    0 <= t < hits.len() && self.proxy_body(#[trigger] hits[t]) != b && p
                        == BodyPair::spec_new(self.proxy_body(hits[t]), b) {
                    let t = choose|t: int|
                        0 <= t < hits.len() && self.proxy_body(#[trigger] hits[t]) != b && p
                            == BodyPair::spec_new(self.proxy_body(hits[t]), b);
                    assert(hits.contains(hits[t]));
                    assert(self.tree().contains(hits[t]));
                    assert(self.meets(bodies, b, hits[t]));
                }
            }
            assert(self.hit_pairs(hits, b, hits.len()) =~= self.pairs_of(bodies, b));
        }
    }

    /// Gives every pair made by a reinserted body that can move and a proxy
    /// of another body whose box meets the body's box an empty list of
    /// constraints, unless the pair has a list already. No list changes.
    pub fn new_potential_pairs<S, C>(
        &self,
        bodies: &Bodies<S>,
        constraints: &mut ConstraintsMap<C>,
    )
        requires
            self.wf(),
            old(constraints).wf(),
            forall|i: int|
                0 <= i < self.reinserted().len() ==> bodies.contains(#[trigger] self.reinserted()[i]),
        ensures
            final(constraints).wf(),
            grown(final(constraints)@, old(constraints)@, self.candidates(bodies)),
    {
        let mut i: usize = 0;
        proof {
            assert(constraints@.dom() =~= constraints@.dom().union(Set::empty()));
        }
        while i < self.reinserted_bodies.len()
            invariant
                i <= self.reinserted().len(),
                self.wf(),
                constraints.wf(),
                forall|k: int|
                    0 <= k < self.reinserted().len() ==> bodies.contains(
                        #[trigger] self.reinserted()[k],
                    ),
                grown(constraints@, old(constraints)@, self.candidates_among(bodies, i as nat)),
            decreases self.reinserted().len() - i,
        {
            let body_id = self.reinserted_bodies[i];
            let body = bodies.index(body_id);
            let ghost start = constraints@;
            if !body.is_static() {
                let tight = body.bounds();
                let hits = self.tree.query(&tight);
                let mut j: usize = 0;
                proof {
                    assert(start.dom() =~= start.dom().union(Set::empty()));
                }
                while j < hits.len()
                    invariant
                        j <= hits@.len(),
                        self.wf(),
                        constraints.wf(),
                        forall|t: int|
                            0 <= t < hits@.len() ==> self.tree().contains(#[trigger] hits@[t])
                                && self.tree().node(hits@[t]).left == NULL,
                        grown(constraints@, start, self.hit_pairs(hits@, body_id, j as nat)),
                    decreases hits@.len() - j,
                {
                    let leaf = hits[j];
                    let other = self.tree.get_node(leaf).data;
                    let ghost before = constraints@;
                    if other != body_id {
                        let body_pair = BodyPair::new(other, body_id);
                        constraints.ensure(body_pair);
                        proof {
                            lemma_grown_twice(
                                constraints@,
                                before,
                                start,
                                self.hit_pairs(hits@, body_id, j as nat),
                                set![body_pair],
                            );
                            assert(self.hit_pairs(hits@, body_id, (j + 1) as nat)
                                =~= self.hit_pairs(hits@, body_id, j as nat).union(
                                set![body_pair],
                            ));
                        }
                    }
                    j += 1;
                }
                proof {
                    assert forall|id: NodeId|
                        hits@.contains(id) <==> #[trigger] self.tree().contains(id)
                            && self.tree().node(id).left == NULL && bodies.body(
                            body_id,
                        ).spec_bounds().spec_intersects(self.tree().node(id).bounds) by {}
                    self.lemma_hits_are_pairs(bodies, hits@, body_id);
                    lemma_grown_twice(
                        constraints@,
                        start,
                        old(constraints)@,
                        self.candidates_among(bodies, i as nat),
                        self.pairs_of(bodies, body_id),
                    );
                }
            } else {
                proof {
                    self.lemma_static_makes_none(bodies, body_id);
                    assert(self.candidates_among(bodies, (i + 1) as nat)
                        =~= self.candidates_among(bodies, i as nat));
                }
            }
            i += 1;
        }
    }

    /// A body that cannot move makes no pair.
    proof fn lemma_static_makes_none<S>(&self, bodies: &Bodies<S>, b: BodyId)
        requires
            bodies.body(b).spec_is_static(),
        ensures
            self.pairs_of(bodies, b) == Set::<BodyPair>::empty(),
    {
        assert(self.pairs_of(bodies, b) =~= Set::<BodyPair>::empty());
    }
}

/// The plain broad phase: it keeps nothing and compares every body with
/// every other.
pub struct NaiveBroadPhase;

impl NaiveBroadPhase {
    /// Whether `pair` names two bodies, the first with the smaller id, whose
    /// boxes meet and of which at least one can move.
    pub open spec fn candidate<S>(bodies: &Bodies<S>, pair: BodyPair) -> bool {
        &&& pair.0 < pair.1
        &&& bodies.contains(pair.0)
        &&& bodies.contains(pair.1)
        &&& bodies.body(pair.0).spec_bounds().spec_intersects(bodies.body(pair.1).spec_bounds())
        &&& (!bodies.body(pair.0).spec_is_static() || !bodies.body(pair.1).spec_is_static())
    }

    /// The candidates that come before the pair of `a` and `b`.
    pub open spec fn candidates_before<S>(bodies: &Bodies<S>, a: int, b: int) -> Set<BodyPair> {
        Set::new(|p: BodyPair| Self::candidate(bodies, p) && (p.0 < a || (p.0 == a && p.1 < b)))
    }

    /// All the candidates.
    pub open spec fn candidates<S>(bodies: &Bodies<S>) -> Set<BodyPair> {
        Set::new(|p: BodyPair| Self::candidate(bodies, p))
    }

    /// Gives every pair of bodies whose boxes meet, and of which at least one
    /// can move, an empty list of constraints, unless the pair has a list
    /// already. No list changes.
    pub fn new_potential_pairs<S, C>(&self, bodies: &Bodies<S>, constraints: &mut ConstraintsMap<C>)
        requires
            old(constraints).wf(),
        ensures
            final(constraints).wf(),
            grown(final(constraints)@, old(constraints)@, Self::candidates(bodies)),
    {
        let n = bodies.slot_count();
        let mut a: usize = 0;
        proof {
            assert(Self::candidates_before(bodies, 0, 0) =~= Set::<BodyPair>::empty());
            assert(constraints@.dom() =~= constraints@.dom().union(Set::empty()));
        }
        while a < n
            invariant
                a <= n,
                n == bodies@.len(),
                constraints.wf(),
                grown(constraints@, old(constraints)@, Self::candidates_before(bodies, a as int, 0)),
            decreases n - a,
        {
            match bodies.get(a) {
                Some(body_a) => {
                    let mut b: usize = a + 1;
                    proof {
                        assert(Self::candidates_before(bodies, a as int, b as int)
                            =~= Self::candidates_before(bodies, a as int, 0));
                    }
                    while b < n
                        invariant
                            a < b <= n,
                            n == bodies@.len(),
                            bodies.contains(a),
                            *body_a == bodies.body(a),
                            constraints.wf(),
                            grown(
                                constraints@,
                                old(constraints)@,
                                Self::candidates_before(bodies, a as int, b as int),
                            ),
                        decreases n - b,
                    {
                        let ghost before = constraints@;
                        let mut added = false;
                        match bodies.get(b) {
                            Some(body_b) => {
                                if body_a.bounds().intersects(&body_b.bounds()) && (
                                !body_a.is_static() || !body_b.is_static()) {
                                    constraints.ensure(BodyPair(a, b));
                                    added = true;
                                }
                            },
                            None => {},
                        }
                        proof {
                            if added {
                                lemma_grown_twice(
                                    constraints@,
                                    before,
                                    old(constraints)@,
                                    Self::candidates_before(bodies, a as int, b as int),
                                    set![BodyPair(a, b)],
                                );
                                assert(Self::candidates_before(bodies, a as int, b + 1)
                                    =~= Self::candidates_before(bodies, a as int, b as int).union(
                                    set![BodyPair(a, b)],
                                ));
                            } else {
                                assert(!Self::candidate(bodies, BodyPair(a, b)));
                                assert(Self::candidates_before(bodies, a as int, b + 1)
                                    =~= Self::candidates_before(bodies, a as int, b as int));
                            }
                        }
                        b += 1;
                    }
                    proof {
                        assert(Self::candidates_before(bodies, a + 1, 0)
                            =~= Self::candidates_before(bodies, a as int, n as int));
                    }
                },
                None => {
                    proof {
                        assert(Self::candidates_before(bodies, a + 1, 0)
                            =~= Self::candidates_before(bodies, a as int, 0));
                    }
                },
            }
            a += 1;
        }
        proof {
            assert(Self::candidates_before(bodies, n as int, 0) =~= Self::candidates(bodies));
        }
    }

    /// The plain broad phase has no proxies: the id it hands out is 0.
    pub fn create_proxy<S>(&mut self, _body: &Body<S>) -> (r: ProxyId)
        ensures
            r == 0,
    {
        0
    }

    /// Does nothing.
    pub fn destroy_proxy(&mut self, _proxy_id: ProxyId) {
    }

    /// Does nothing.
    pub fn update_proxy<S>(&mut self, _proxy_id: ProxyId, _body: &Body<S>) {
    }
}

/// What the world asks of a broad phase.
pub trait BroadPhase<S> {
    /// What the broad phase keeps true of itself.
    spec fn sound(&self) -> bool;

    /// Whether `proxy_id` names a proxy.
    spec fn holds(&self, proxy_id: ProxyId) -> bool;

    /// Whether the bodies that the broad phase is to look up are among `bodies`.
    spec fn serves(&self, bodies: &Bodies<S>) -> bool;

    /// The pairs among `bodies` that the broad phase holds to be close.
    spec fn proposed(&self, bodies: &Bodies<S>) -> Set<BodyPair>;

    /// Whether `self` is `pre` after `body` got the proxy `r`.
    spec fn created(&self, pre: &Self, body: &Body<S>, r: ProxyId) -> bool;

    /// Whether `self` is `pre` after the proxy `proxy_id` was taken away.
    spec fn destroyed(&self, pre: &Self, proxy_id: ProxyId) -> bool;

    /// Whether `self` is `pre` after the proxy `proxy_id` was brought up to
    /// date with the box of `body`.
    spec fn updated(&self, pre: &Self, proxy_id: ProxyId, body: &Body<S>) -> bool;

    /// Gives every proposed pair an empty list of constraints, unless the
    /// pair has a list already. The lists that there are stay as they are.
    fn new_potential_pairs<C>(&self, bodies: &Bodies<S>, constraints: &mut ConstraintsMap<C>)
        requires
            self.sound(),
            self.serves(bodies),
            old(constraints).wf(),
        ensures
            final(constraints).wf(),
            grown(final(constraints)@, old(constraints)@, self.proposed(bodies)),
    ;

    /// Gives `body` a proxy.
    fn create_proxy(&mut self, body: &Body<S>) -> (r: ProxyId)
        requires
            old(self).sound(),
        ensures
            final(self).sound(),
            final(self).holds(r),
            final(self).created(old(self), body, r),
    ;

    /// Takes the proxy away.
    fn destroy_proxy(&mut self, proxy_id: ProxyId)
        requires
            old(self).sound(),
            old(self).holds(proxy_id),
        ensures
            final(self).sound(),
            final(self).destroyed(old(self), proxy_id),
    ;

    /// Brings the proxy of `body` up to date with the body's box.
    fn update_proxy(&mut self, proxy_id: ProxyId, body: &Body<S>)
        requires
            old(self).sound(),
            old(self).holds(proxy_id),
        ensures
            final(self).sound(),
            final(self).holds(proxy_id),
            final(self).updated(old(self), proxy_id, body),
    ;
}

impl<S> BroadPhase<S> for BoundsTreeBroadPhase {
    open spec fn sound(&self) -> bool {
        self.wf()
    }

    open spec fn holds(&self, proxy_id: ProxyId) -> bool {
        self.has_proxy(proxy_id)
    }

    open spec fn serves(&self, bodies: &Bodies<S>) -> bool {
        forall|i: int|
            0 <= i < self.reinserted().len() ==> bodies.contains(#[trigger] self.reinserted()[i])
    }

    /// The pairs made by a reinserted body that can move and a proxy of
    /// another body whose box meets the body's box.
    open spec fn proposed(&self, bodies: &Bodies<S>) -> Set<BodyPair> {
        self.candidates(bodies)
    }

    /// The proxy has the id that was next to be given out and is a new
    /// leaf of the tree with the body's box grown by
    /// [`EXPANSION_PERCENT`]; the other proxies and the record of the
    /// bodies inserted anew are as they were.
    open spec fn created(&self, pre: &Self, body: &Body<S>, r: ProxyId) -> bool {
        &&& r == pre.tree().next_id()
        &&& !pre.has_proxy(r)
        &&& self.proxy_body(r) == body.spec_id()
        &&& self.proxy_bounds(r).spec_contains(body.spec_bounds())
        &&& self.same_proxies_but(pre, r)
        &&& self.reinserted() == pre.reinserted()
        &&& self.tree().is_insertion_of(
            &pre.tree(),
            r,
            body.spec_bounds().spec_expanded(EXPANSION_PERCENT),
            body.spec_id(),
        )
    }

    /// The leaf of the proxy has left the tree and its id is the next to
    /// be given out; the other proxies and the record of the bodies
    /// inserted anew are as they were.
    open spec fn destroyed(&self, pre: &Self, proxy_id: ProxyId) -> bool {
        &&& !self.has_proxy(proxy_id)
        &&& self.tree().next_id() == proxy_id
        &&& self.same_proxies_but(pre, proxy_id)
        &&& self.reinserted() == pre.reinserted()
        &&& self.tree().is_removal_of(&pre.tree(), proxy_id)
    }

    /// Nothing has changed where the box of the proxy contained the box of
    /// the body. Otherwise the leaf of the proxy has left the tree and come
    /// back under the same id with the body's box grown by
    /// [`EXPANSION_PERCENT`], and the body is the last on the record of
    /// the bodies inserted anew. The other proxies are as they were.
    open spec fn updated(&self, pre: &Self, proxy_id: ProxyId, body: &Body<S>) -> bool {
        &&& self.proxy_bounds(proxy_id).spec_contains(body.spec_bounds())
        &&& self.same_proxies_but(pre, proxy_id)
        &&& pre.proxy_bounds(proxy_id).spec_contains(body.spec_bounds()) ==> {
            &&& self.tree() == pre.tree()
            &&& self.reinserted() == pre.reinserted()
        }
        &&& !pre.proxy_bounds(proxy_id).spec_contains(body.spec_bounds()) ==> {
            &&& self.reinserted() == pre.reinserted().push(body.spec_id())
            &&& self.proxy_body(proxy_id) == body.spec_id()
            &&& exists|without: BoundsTree<BodyId>|
                {
                    &&& #[trigger] without.is_removal_of(&pre.tree(), proxy_id)
                    &&& self.tree().is_insertion_of(
                        &without,
                        proxy_id,
                        body.spec_bounds().spec_expanded(EXPANSION_PERCENT),
                        body.spec_id(),
                    )
                }
        }
    }

    fn new_potential_pairs<C>(&self, bodies: &Bodies<S>, constraints: &mut ConstraintsMap<C>) {
        self.new_potential_pairs(bodies, constraints)
    }

    fn create_proxy(&mut self, body: &Body<S>) -> (r: ProxyId) {
        self.create_proxy(body)
    }

    fn destroy_proxy(&mut self, proxy_id: ProxyId) {
        self.destroy_proxy(proxy_id)
    }

    fn update_proxy(&mut self, proxy_id: ProxyId, body: &Body<S>) {
        self.update_proxy(proxy_id, body)
    }
}

impl<S> BroadPhase<S> for NaiveBroadPhase {
    open spec fn sound(&self) -> bool {
        true
    }

    open spec fn holds(&self, proxy_id: ProxyId) -> bool {
        true
    }

    open spec fn serves(&self, bodies: &Bodies<S>) -> bool {
        true
    }

    /// Every pair of bodies whose boxes meet and of which at least one can
    /// move.
    open spec fn proposed(&self, bodies: &Bodies<S>) -> Set<BodyPair> {
        Self::candidates(bodies)
    }

    /// There are no proxies: the id handed out is 0.
    open spec fn created(&self, pre: &Self, body: &Body<S>, r: ProxyId) -> bool {
        r == 0
    }

    /// There are no proxies, and nothing to take away.
    open spec fn destroyed(&self, pre: &Self, proxy_id: ProxyId) -> bool {
        true
    }

    /// There are no proxies, and nothing to bring up to date.
    open spec fn updated(&self, pre: &Self, proxy_id: ProxyId, body: &Body<S>) -> bool {
        true
    }

    fn new_potential_pairs<C>(&self, bodies: &Bodies<S>, constraints: &mut ConstraintsMap<C>) {
        self.new_potential_pairs(bodies, constraints)
    }

    fn create_proxy(&mut self, body: &Body<S>) -> (r: ProxyId) {
        self.create_proxy(body)
    }

    fn destroy_proxy(&mut self, proxy_id: ProxyId) {
        self.destroy_proxy(proxy_id)
    }

    fn update_proxy(&mut self, proxy_id: ProxyId, body: &Body<S>) {
        self.update_proxy(proxy_id, body)
    }
}

} // verus!
