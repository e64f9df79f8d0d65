//! A step is a function of the world and of the dynamics.
//!
//! Where what each method of a [`Dynamics`] returns depends on its arguments
//! alone, two worlds that are alike are alike again after the same stages:
//! see [`lemma_steps_alike`]. The order in which the pairs are worked on is
//! that of their ids, whatever the order in which a map hands them out.

use crate::body::{Body, BodyId, BodyPair, ProxyId};
use crate::math::Bounds;
use crate::step::{
    applied, applied_with, collided, contact_rule, integrated, joint_rule, list_done, pairs_done,
    views, Scene,
};
use crate::world::{has, plan, Dynamics, Stage, World};
use vstd::prelude::*;

verus! {

/// Whether `rule` allows `r` for the constraint `c` and the states `a` and
/// `b`.
pub open spec fn allows<S, T>(
    rule: spec_fn(T, S, S, (T, S, S)) -> bool,
    c: T,
    a: S,
    b: S,
    r: (T, S, S),
) -> bool {
    rule(c, a, b, r)
}

/// Whether `rule` allows one outcome only for a constraint and two states.
pub open spec fn rule_decides<S, T>(rule: spec_fn(T, S, S, (T, S, S)) -> bool) -> bool {
    forall|c: T, a: S, b: S, x: (T, S, S), y: (T, S, S)|
        #[trigger] allows(rule, c, a, b, x) && #[trigger] allows(rule, c, a, b, y) ==> x == y
}

/// One piece of work has one outcome.
proof fn lemma_applied_decided<S, T>(
    rule: spec_fn(T, S, S, (T, S, S)) -> bool,
    pre: Scene<S, T>,
    a: Scene<S, T>,
    b: Scene<S, T>,
    pair: BodyPair,
    k: int,
)
    requires
        rule_decides(rule),
        applied(rule, pre, a, pair, k),
        applied(rule, pre, b, pair, k),
    ensures
        a == b,
{
    let x = choose|x: (T, S, S)| #[trigger] applied_with(rule, pre, a, pair, k, x);
    let y = choose|y: (T, S, S)| #[trigger] applied_with(rule, pre, b, pair, k, y);
    assert(allows(rule, pre.lists[pair][k], pre.states[pair.0], pre.states[pair.1], x));
    assert(allows(rule, pre.lists[pair][k], pre.states[pair.0], pre.states[pair.1], y));
}

/// The work on the constraints of a pair has one outcome.
proof fn lemma_list_decided<S, T>(
    rule: spec_fn(T, S, S, (T, S, S)) -> bool,
    pre: Scene<S, T>,
    a: Scene<S, T>,
    b: Scene<S, T>,
    pair: BodyPair,
    n: nat,
)
    requires
        rule_decides(rule),
        list_done(rule, pre, a, pair, n),
        list_done(rule, pre, b, pair, n),
    ensures
        a == b,
    decreases n,
{
    if n > 0 {
        let x = choose|x: Scene<S, T>|
            list_done(rule, pre, x, pair, (n - 1) as nat) && #[trigger] applied(
                rule,
                x,
                a,
                pair,
                n - 1,
            );
        let y = choose|y: Scene<S, T>|
            list_done(rule, pre, y, pair, (n - 1) as nat) && #[trigger] applied(
                rule,
                y,
                b,
                pair,
                n - 1,
            );
        lemma_list_decided(rule, pre, x, y, pair, (n - 1) as nat);
        lemma_applied_decided(rule, x, a, b, pair, n - 1);
    }
}

/// A stage of the solver has one outcome: it depends on the scene, on the
/// rule and on the order of the pairs alone.
pub proof fn lemma_pairs_decided<S, T>(
    rule: spec_fn(T, S, S, (T, S, S)) -> bool,
    pre: Scene<S, T>,
    a: Scene<S, T>,
    b: Scene<S, T>,
    order: Seq<BodyPair>,
)
    requires
        rule_decides(rule),
        pairs_done(rule, pre, a, order),
        pairs_done(rule, pre, b, order),
    ensures
        a == b,
    decreases order.len(),
{
    if order.len() > 0 {
        let x = choose|x: Scene<S, T>|
            pairs_done(rule, pre, x, order.drop_last()) && #[trigger] list_done(
                rule,
                x,
                a,
                order.last(),
                x.lists[order.last()].len(),
            );
        let y = choose|y: Scene<S, T>|
            pairs_done(rule, pre, y, order.drop_last()) && #[trigger] list_done(
                rule,
                y,
                b,
                order.last(),
                y.lists[order.last()].len(),
            );
        lemma_pairs_decided(rule, pre, x, y, order.drop_last());
        lemma_list_decided(rule, x, a, b, order.last(), x.lists[order.last()].len());
    }
}

/// Whether `dynamics` tells the box `r` for a body in the state `s`.
pub open spec fn told<S, C, J, D: Dynamics<S, C, J>>(dynamics: &D, s: S, r: Bounds) -> bool {
    call_ensures(D::bounds, (dynamics, &s), r)
}

/// Whether the narrow phase found the same twice: nothing, or the same
/// constraints in the same order.
pub open spec fn same_found<C>(x: Option<Vec<C>>, y: Option<Vec<C>>) -> bool {
    match x {
        None => y is None,
        Some(list) => y is Some && y->0@ == list@,
    }
}

/// Whether what each method of `dynamics` returns depends on its arguments
/// alone, a list of constraints taken for the sequence of its items.
pub open spec fn decides<S, C, J, D: Dynamics<S, C, J>>(dynamics: &D) -> bool {
    &&& forall|s: S, x: Bounds, y: Bounds|
        #[trigger] told(dynamics, s, x) && #[trigger] told(dynamics, s, y) ==> x == y
    &&& forall|a: S, b: S, g: Vec<C>, h: Vec<C>, x: Option<Vec<C>>, y: Option<Vec<C>>|
        g@ == h@ && #[trigger] collided(dynamics, a, b, g, x) && #[trigger] collided(
            dynamics,
            a,
            b,
            h,
            y,
        ) ==> same_found(x, y)
    &&& forall|stage: Stage, s: S, x: S, y: S|
        #[trigger] integrated(dynamics, stage, false, s, x) && #[trigger] integrated(
            dynamics,
            stage,
            false,
            s,
            y,
        ) ==> x == y
    &&& forall|stage: Stage| #[trigger] rule_decides(contact_rule(dynamics, stage))
    &&& forall|stage: Stage| #[trigger] rule_decides(joint_rule(dynamics, stage))
}

/// Whether `x` and `y` hold the same bodies in the same slots.
pub open spec fn same_bodies<S>(x: Seq<Option<Body<S>>>, y: Seq<Option<Body<S>>>) -> bool {
    &&& x.len() == y.len()
    &&& forall|id: BodyId| #[trigger] has(x, id) == has(y, id)
    &&& forall|id: BodyId| #[trigger] has(x, id) ==> x[id as int] == y[id as int]
}

impl<S, C, J> World<S, C, J> {
    /// Whether the two worlds hold the same: the same bodies under the
    /// same ids, the same constraints in the same order for the same
    /// pairs, proxies with the same boxes, the same bodies on record as
    /// inserted anew, and the same numbers of iterations.
    pub open spec fn alike(&self, other: &World<S, C, J>) -> bool {
        &&& same_bodies(self.bodies()@, other.bodies()@)
        &&& views(self.contacts()) == views(other.contacts())
        &&& views(self.joints()) == views(other.joints())
        &&& forall|p: ProxyId| #[trigger]
            self.broad_phase().has_proxy(p) == other.broad_phase().has_proxy(p)
        &&& forall|p: ProxyId| #[trigger]
            self.broad_phase().has_proxy(p) ==> self.broad_phase().proxy_bounds(p)
                == other.broad_phase().proxy_bounds(p) && self.broad_phase().proxy_body(p)
                == other.broad_phase().proxy_body(p)
        &&& forall|id: BodyId|
            self.broad_phase().reinserted().contains(id) == other.broad_phase().reinserted().contains(
                id,
            )
        &&& self.same_settings(other)
    }

    /// What follows for worlds that are alike.
    proof fn lemma_alike(&self, other: &World<S, C, J>)
        requires
            self.alike(other),
        ensures
            self.states() == other.states(),
            self.fixed() == other.fixed(),
            self.contacts().dom() == other.contacts().dom(),
            self.joints().dom() == other.joints().dom(),
            forall|p: BodyPair| #[trigger]
                self.contacts().contains_key(p) ==> self.contacts()[p]@ == other.contacts()[p]@,
            forall|p: BodyPair| #[trigger]
                self.joints().contains_key(p) ==> self.joints()[p]@ == other.joints()[p]@,
            forall|id: BodyId| #[trigger]
                self.bodies().contains(id) ==> other.bodies().contains(id) && self.bodies().body(id)
                    == other.bodies().body(id),
    {
        let x = self.bodies()@;
        let y = other.bodies()@;
        assert forall|id: BodyId| #[trigger] self.bodies().contains(id) implies other.bodies().contains(
            id,
        ) && self.bodies().body(id) == other.bodies().body(id) by {
            assert(has(x, id));
            assert(has(y, id));
        }
        assert forall|id: BodyId| other.bodies().contains(id) implies self.bodies().contains(id) by {
            assert(has(x, id) == has(y, id));
        }
        assert(self.states() =~= other.states());
        assert(self.fixed() =~= other.fixed());
        let c = views(self.contacts());
        let d = views(other.contacts());
        assert forall|p: BodyPair| self.contacts().contains_key(p) == other.contacts().contains_key(
            p,
        ) by {
            assert(c.contains_key(p) == d.contains_key(p));
        }
        assert(self.contacts().dom() =~= other.contacts().dom());
        assert forall|p: BodyPair| #[trigger] self.contacts().contains_key(p) implies self.contacts()[p]@
            == other.contacts()[p]@ by {
            assert(c[p] == d[p]);
        }
        let j = views(self.joints());
        let k = views(other.joints());
        assert forall|p: BodyPair| self.joints().contains_key(p) == other.joints().contains_key(p) by {
            assert(j.contains_key(p) == k.contains_key(p));
        }
        assert(self.joints().dom() =~= other.joints().dom());
        assert forall|p: BodyPair| #[trigger] self.joints().contains_key(p) implies self.joints()[p]@
            == other.joints()[p]@ by {
            assert(j[p] == k[p]);
        }
    }

    /// Two worlds whose bodies kept their frames are alike in their
    /// bodies where the bodies have the same states and boxes.
    proof fn lemma_bodies_alike(
        &self,
        other: &World<S, C, J>,
        pre: &World<S, C, J>,
        other_pre: &World<S, C, J>,
    )
        requires
            crate::world::same_frame(self.bodies()@, pre.bodies()@),
            crate::world::same_frame(other.bodies()@, other_pre.bodies()@),
            same_bodies(pre.bodies()@, other_pre.bodies()@),
            forall|id: BodyId| #[trigger]
                pre.bodies().contains(id) ==> self.state(id) == other.state(id) && self.bounds_of(id)
                    == other.bounds_of(id),
        ensures
            same_bodies(self.bodies()@, other.bodies()@),
    {
        let x = self.bodies()@;
        let y = other.bodies()@;
        let p = pre.bodies()@;
        let q = other_pre.bodies()@;
        assert forall|id: BodyId| #[trigger] has(x, id) == has(y, id) by {
            assert(has(x, id) == has(p, id));
            assert(has(p, id) == has(q, id));
            assert(has(y, id) == has(q, id));
        }
        assert forall|id: BodyId| #[trigger] has(x, id) implies x[id as int] == y[id as int] by {
            assert(has(x, id) == has(p, id));
            assert(has(p, id) == has(q, id));
            assert(has(y, id) == has(q, id));
            assert(pre.bodies().contains(id));
            assert(p[id as int] == q[id as int]);
            let m = x[id as int]->0;
            let n = y[id as int]->0;
            m.lemma_fields();
            n.lemma_fields();
        }
    }

    /// The stage that prunes has one outcome.
    proof fn lemma_pruned_alike(
        &self,
        other: &World<S, C, J>,
        pre: &World<S, C, J>,
        other_pre: &World<S, C, J>,
    )
        requires
            pre.wf(),
            other_pre.wf(),
            pre.alike(other_pre),
            self.pruned(pre),
            other.pruned(other_pre),
        ensures
            self.alike(other),
    {
        pre.lemma_alike(other_pre);
        let x = views(self.contacts());
        let y = views(other.contacts());
        assert forall|p: BodyPair| x.contains_key(p) == y.contains_key(p) by {
            if pre.contacts().contains_key(p) {
                assert(other_pre.contacts().contains_key(p));
                assert(has(pre.bodies()@, p.0) && has(pre.bodies()@, p.1));
                assert(pre.bodies().contains(p.0) && pre.bodies().contains(p.1));
                assert(pre.separated().contains(p) == other_pre.separated().contains(p));
            }
        }
        assert forall|p: BodyPair| #[trigger] x.contains_key(p) implies x[p] == y[p] by {
            assert(pre.contacts().contains_key(p));
        }
        assert(x =~= y);
    }

    /// The stage that finds pairs has one outcome.
    proof fn lemma_found_alike(
        &self,
        other: &World<S, C, J>,
        pre: &World<S, C, J>,
        other_pre: &World<S, C, J>,
    )
        requires
            pre.wf(),
            other_pre.wf(),
            pre.alike(other_pre),
            self.pairs_found(pre),
            other.pairs_found(other_pre),
        ensures
            self.alike(other),
    {
        pre.lemma_alike(other_pre);
        let one = pre.broad_phase();
        let two = other_pre.broad_phase();
        let m = pre.bodies();
        let n = other_pre.bodies();
        assert forall|p: BodyPair| one.candidates(&m).contains(p) implies two.candidates(&n).contains(
            p,
        ) by {
            pre.lemma_candidate(other_pre, p);
        }
        assert forall|p: BodyPair| two.candidates(&n).contains(p) implies one.candidates(&m).contains(
            p,
        ) by {
            pre.lemma_alike_back(other_pre);
            other_pre.lemma_candidate(pre, p);
        }
        let x = views(self.contacts());
        let y = views(other.contacts());
        assert forall|p: BodyPair| x.contains_key(p) == y.contains_key(p) by {
            assert(self.contacts().dom().contains(p) == (pre.contacts().dom().contains(p)
                || one.candidates(&m).contains(p)));
            assert(other.contacts().dom().contains(p) == (other_pre.contacts().dom().contains(p)
                || two.candidates(&n).contains(p)));
        }
        assert forall|p: BodyPair| #[trigger] x.contains_key(p) implies x[p] == y[p] by {
            assert(y.contains_key(p));
            assert(self.contacts().contains_key(p) && other.contacts().contains_key(p));
            if pre.contacts().contains_key(p) {
                assert(other_pre.contacts().contains_key(p));
            } else {
                assert(!other_pre.contacts().contains_key(p));
            }
        }
        assert(x =~= y);
        assert forall|p: ProxyId| #[trigger]
            self.broad_phase().has_proxy(p) == other.broad_phase().has_proxy(p) by {
            assert(one.has_proxy(p) == two.has_proxy(p));
        }
        assert forall|p: ProxyId| #[trigger]
            self.broad_phase().has_proxy(p) implies self.broad_phase().proxy_bounds(p)
            == other.broad_phase().proxy_bounds(p) && self.broad_phase().proxy_body(p)
            == other.broad_phase().proxy_body(p) by {
            assert(one.has_proxy(p));
        }
    }

    /// Being alike goes both ways.
    proof fn lemma_alike_back(&self, other: &World<S, C, J>)
        requires
            self.alike(other),
        ensures
            other.alike(self),
    {
        let x = self.bodies()@;
        let y = other.bodies()@;
        assert forall|id: BodyId| #[trigger] has(y, id) == has(x, id) by {
            assert(has(x, id) == has(y, id));
        }
        assert forall|id: BodyId| #[trigger] has(y, id) implies y[id as int] == x[id as int] by {
            assert(has(x, id) == has(y, id));
        }
        assert forall|p: ProxyId| #[trigger]
            other.broad_phase().has_proxy(p) == self.broad_phase().has_proxy(p) by {
            assert(self.broad_phase().has_proxy(p) == other.broad_phase().has_proxy(p));
        }
        assert forall|p: ProxyId| #[trigger]
            other.broad_phase().has_proxy(p) implies other.broad_phase().proxy_bounds(p)
            == self.broad_phase().proxy_bounds(p) && other.broad_phase().proxy_body(p)
            == self.broad_phase().proxy_body(p) by {
            assert(self.broad_phase().has_proxy(p) == other.broad_phase().has_proxy(p));
        }
    }

    /// A pair that the broad phase of a world proposes is proposed by
    /// the broad phase of a world that is alike.
    proof fn lemma_candidate(&self, other: &World<S, C, J>, p: BodyPair)
        requires
            self.wf(),
            other.wf(),
            self.alike(other),
            self.broad_phase().candidates(&self.bodies()).contains(p),
        ensures
            other.broad_phase().candidates(&other.bodies()).contains(p),
    {
        let one = self.broad_phase();
        let two = other.broad_phase();
        let m = self.bodies();
        let n = other.bodies();
        one.lemma_candidates(&m, p, one.reinserted().len());
        two.lemma_candidates(&n, p, two.reinserted().len());
        let (i, leaf) = choose|i: int, leaf: ProxyId|
            0 <= i < one.reinserted().len() && #[trigger] one.meets(&m, one.reinserted()[i], leaf)
                && p == BodyPair::spec_new(one.proxy_body(leaf), one.reinserted()[i]);
        let b = one.reinserted()[i];
        assert(one.reinserted().contains(b));
        assert(two.reinserted().contains(b));
        let k = choose|k: int| 0 <= k < two.reinserted().len() && two.reinserted()[k] == b;
        assert(has(self.bodies()@, b));
        assert(has(other.bodies()@, b));
        assert(one.has_proxy(leaf));
        assert(two.has_proxy(leaf));
        assert(two.meets(&n, two.reinserted()[k], leaf));
    }

    /// The narrow phase has one outcome.
    proof fn lemma_narrowed_alike<D: Dynamics<S, C, J>>(
        &self,
        other: &World<S, C, J>,
        pre: &World<S, C, J>,
        other_pre: &World<S, C, J>,
        dynamics: &D,
    )
        requires
            decides(dynamics),
            pre.wf(),
            other_pre.wf(),
            pre.alike(other_pre),
            self.narrowed(pre, dynamics),
            other.narrowed(other_pre, dynamics),
        ensures
            self.alike(other),
    {
        pre.lemma_alike(other_pre);
        let x = views(self.contacts());
        let y = views(other.contacts());
        assert forall|p: BodyPair|
            self.contacts().contains_key(p) == other.contacts().contains_key(p) && (
            self.contacts().contains_key(p) ==> self.contacts()[p]@ == other.contacts()[p]@) by {
            if pre.contacts().contains_key(p) {
                assert(other_pre.contacts().contains_key(p));
                assert(has(pre.bodies()@, p.0) && has(pre.bodies()@, p.1));
                assert(pre.bodies().contains(p.0) && pre.bodies().contains(p.1));
                assert(collided(
                    dynamics,
                    pre.state(p.0),
                    pre.state(p.1),
                    pre.contacts()[p],
                    self.contacts_at(p),
                ));
                assert(collided(
                    dynamics,
                    pre.state(p.0),
                    pre.state(p.1),
                    other_pre.contacts()[p],
                    other.contacts_at(p),
                ));
                assert(same_found(self.contacts_at(p), other.contacts_at(p)));
            } else {
                assert(!other_pre.contacts().contains_key(p));
                assert(!self.contacts().dom().contains(p));
                assert(!other.contacts().dom().contains(p));
            }
        }
        assert forall|p: BodyPair| x.contains_key(p) == y.contains_key(p) by {}
        assert forall|p: BodyPair| #[trigger] x.contains_key(p) implies x[p] == y[p] by {}
        assert(x =~= y);
    }

    /// A stage that integrates has one outcome.
    proof fn lemma_integrated_alike<D: Dynamics<S, C, J>>(
        &self,
        other: &World<S, C, J>,
        pre: &World<S, C, J>,
        other_pre: &World<S, C, J>,
        stage: Stage,
        dynamics: &D,
    )
        requires
            decides(dynamics),
            pre.wf(),
            other_pre.wf(),
            pre.alike(other_pre),
            self.integrated_by(pre, stage, dynamics),
            other.integrated_by(other_pre, stage, dynamics),
        ensures
            self.alike(other),
    {
        pre.lemma_alike(other_pre);
        assert forall|id: BodyId| #[trigger] pre.bodies().contains(id) implies self.state(id)
            == other.state(id) && self.bounds_of(id) == other.bounds_of(id) by {
            assert(other_pre.bodies().contains(id));
            assert(integrated(
                dynamics,
                stage,
                pre.bodies().body(id).spec_is_static(),
                pre.state(id),
                self.state(id),
            ));
            assert(integrated(
                dynamics,
                stage,
                other_pre.bodies().body(id).spec_is_static(),
                other_pre.state(id),
                other.state(id),
            ));
        }
        self.lemma_bodies_alike(other, pre, other_pre);
    }

    /// A stage of the solver on the contact constraints has one outcome.
    proof fn lemma_contacts_alike<D: Dynamics<S, C, J>>(
        &self,
        other: &World<S, C, J>,
        pre: &World<S, C, J>,
        other_pre: &World<S, C, J>,
        stage: Stage,
        dynamics: &D,
    )
        requires
            decides(dynamics),
            pre.wf(),
            other_pre.wf(),
            pre.alike(other_pre),
            self.contacts_run(pre, stage, dynamics),
            other.contacts_run(other_pre, stage, dynamics),
        ensures
            self.alike(other),
    {
        pre.lemma_alike(other_pre);
        let rule = contact_rule(dynamics, stage);
        assert(rule_decides(rule));
        assert(pre.contact_scene() == other_pre.contact_scene());
        lemma_pairs_decided(
            rule,
            pre.contact_scene(),
            self.contact_scene(),
            other.contact_scene(),
            crate::step::listing(pre.contacts().dom()),
        );
        assert forall|id: BodyId| #[trigger] pre.bodies().contains(id) implies self.state(id)
            == other.state(id) && self.bounds_of(id) == other.bounds_of(id) by {
            assert(other_pre.bodies().contains(id));
            assert(has(pre.bodies()@, id));
            assert(has(self.bodies()@, id));
            assert(has(other_pre.bodies()@, id));
            assert(has(other.bodies()@, id));
            assert(self.states()[id] == other.states()[id]);
        }
        self.lemma_bodies_alike(other, pre, other_pre);
    }

    /// A stage of the solver on the joints has one outcome.
    proof fn lemma_joints_alike<D: Dynamics<S, C, J>>(
        &self,
        other: &World<S, C, J>,
        pre: &World<S, C, J>,
        other_pre: &World<S, C, J>,
        stage: Stage,
        dynamics: &D,
    )
        requires
            decides(dynamics),
            pre.wf(),
            other_pre.wf(),
            pre.alike(other_pre),
            self.joints_run(pre, stage, dynamics),
            other.joints_run(other_pre, stage, dynamics),
        ensures
            self.alike(other),
    {
        pre.lemma_alike(other_pre);
        let rule = joint_rule(dynamics, stage);
        assert(rule_decides(rule));
        assert(pre.joint_scene() == other_pre.joint_scene());
        lemma_pairs_decided(
            rule,
            pre.joint_scene(),
            self.joint_scene(),
            other.joint_scene(),
            crate::step::listing(pre.joints().dom()),
        );
        assert forall|id: BodyId| #[trigger] pre.bodies().contains(id) implies self.state(id)
            == other.state(id) && self.bounds_of(id) == other.bounds_of(id) by {
            assert(other_pre.bodies().contains(id));
            assert(has(pre.bodies()@, id));
            assert(has(self.bodies()@, id));
            assert(has(other_pre.bodies()@, id));
            assert(has(other.bodies()@, id));
            assert(self.states()[id] == other.states()[id]);
        }
        self.lemma_bodies_alike(other, pre, other_pre);
    }

    /// Sound worlds with the same bodies have the same proxies for them.
    proof fn lemma_proxies_alike(&self, other: &World<S, C, J>)
        requires
            self.wf(),
            other.wf(),
            same_bodies(self.bodies()@, other.bodies()@),
        ensures
            forall|p: ProxyId| #[trigger]
                self.broad_phase().has_proxy(p) ==> other.broad_phase().has_proxy(p)
                    && self.broad_phase().proxy_body(p) == other.broad_phase().proxy_body(p)
                    && self.bodies().contains(self.broad_phase().proxy_body(p)) && self.proxy_of(
                    self.broad_phase().proxy_body(p),
                ) == p,
    {
        assert forall|p: ProxyId| #[trigger] self.broad_phase().has_proxy(p) implies
            other.broad_phase().has_proxy(p) && self.broad_phase().proxy_body(p)
            == other.broad_phase().proxy_body(p) && self.bodies().contains(
            self.broad_phase().proxy_body(p),
        ) && self.proxy_of(self.broad_phase().proxy_body(p)) == p by {
            let j = self.broad_phase().proxy_body(p);
            assert(has(self.bodies()@, j));
            assert(has(other.bodies()@, j));
            assert(other.bodies()@[j as int] == self.bodies()@[j as int]);
        }
    }

    /// The stage of the bounds has one outcome.
    proof fn lemma_refreshed_alike<D: Dynamics<S, C, J>>(
        &self,
        other: &World<S, C, J>,
        pre: &World<S, C, J>,
        other_pre: &World<S, C, J>,
        dynamics: &D,
    )
        requires
            decides(dynamics),
            pre.wf(),
            other_pre.wf(),
            pre.alike(other_pre),
            self.bounds_refreshed(pre, dynamics),
            other.bounds_refreshed(other_pre, dynamics),
        ensures
            self.alike(other),
    {
        pre.lemma_alike(other_pre);
        assert forall|id: BodyId| #[trigger] pre.bodies().contains(id) implies self.state(id)
            == other.state(id) && self.bounds_of(id) == other.bounds_of(id) && self.proxy_box(id)
            == other.proxy_box(id) && self.has_left_proxy(pre, id) == other.has_left_proxy(
            other_pre,
            id,
        ) by {
            assert(other_pre.bodies().contains(id));
            assert(told(dynamics, pre.state(id), self.bounds_of(id)));
            assert(told(dynamics, pre.state(id), other.bounds_of(id)));
            assert(has(pre.bodies()@, id));
            assert(has(other_pre.bodies()@, id));
            assert(pre.broad_phase().has_proxy(pre.proxy_of(id)));
            assert(pre.proxy_box(id) == other_pre.proxy_box(id));
            assert(self.proxy_follows(pre, id));
            assert(other.proxy_follows(other_pre, id));
            self.proxy_box(id).lemma_corners(other.proxy_box(id));
        }
        self.lemma_bodies_alike(other, pre, other_pre);
        self.lemma_proxies_alike(other);
        assert(same_bodies(other.bodies()@, self.bodies()@)) by {
            let x = self.bodies()@;
            let y = other.bodies()@;
            assert forall|id: BodyId| #[trigger] has(y, id) == has(x, id) by {
                assert(has(x, id) == has(y, id));
            }
            assert forall|id: BodyId| #[trigger] has(y, id) implies y[id as int] == x[id as int] by {
                assert(has(x, id) == has(y, id));
            }
        }
        other.lemma_proxies_alike(self);
        assert forall|p: ProxyId| #[trigger]
            self.broad_phase().has_proxy(p) == other.broad_phase().has_proxy(p) by {
            if other.broad_phase().has_proxy(p) {
                assert(self.broad_phase().has_proxy(p));
            }
        }
        assert forall|p: ProxyId| #[trigger]
            self.broad_phase().has_proxy(p) implies self.broad_phase().proxy_bounds(p)
            == other.broad_phase().proxy_bounds(p) && self.broad_phase().proxy_body(p)
            == other.broad_phase().proxy_body(p) by {
            let j = self.broad_phase().proxy_body(p);
            assert(has(self.bodies()@, j));
            assert(has(pre.bodies()@, j));
            assert(pre.bodies().contains(j));
            assert(has(other.bodies()@, j));
            assert(other.proxy_of(j) == p);
        }
        assert forall|id: BodyId|
            self.broad_phase().reinserted().contains(id) == other.broad_phase().reinserted().contains(
                id,
            ) by {
            if pre.bodies().contains(id) {
                assert(self.has_left_proxy(pre, id) == other.has_left_proxy(other_pre, id));
            } else {
                assert(!other_pre.bodies().contains(id)) by {
                    assert(has(pre.bodies()@, id) == has(other_pre.bodies()@, id));
                }
            }
        }
    }

    /// A stage has one outcome.
    proof fn lemma_stage_alike<D: Dynamics<S, C, J>>(
        &self,
        other: &World<S, C, J>,
        pre: &World<S, C, J>,
        other_pre: &World<S, C, J>,
        stage: Stage,
        dynamics: &D,
    )
        requires
            decides(dynamics),
            pre.wf(),
            other_pre.wf(),
            pre.alike(other_pre),
            self.stage_done(pre, stage, dynamics),
            other.stage_done(other_pre, stage, dynamics),
        ensures
            self.wf(),
            other.wf(),
            self.alike(other),
    {
        match stage {
            Stage::UpdateBounds => self.lemma_refreshed_alike(other, pre, other_pre, dynamics),
            Stage::PruneSeparated => self.lemma_pruned_alike(other, pre, other_pre),
            Stage::FindPairs => self.lemma_found_alike(other, pre, other_pre),
            Stage::NarrowPhase => self.lemma_narrowed_alike(other, pre, other_pre, dynamics),
            Stage::IntegrateForces | Stage::IntegrateVelocities => self.lemma_integrated_alike(
                other,
                pre,
                other_pre,
                stage,
                dynamics,
            ),
            Stage::InitializeContacts
            | Stage::WarmStartContacts
            | Stage::SolveContactsVelocity
            | Stage::WarmStartPositions
            | Stage::SolveContactsPosition => self.lemma_contacts_alike(
                other,
                pre,
                other_pre,
                stage,
                dynamics,
            ),
            Stage::InitializeJoints
            | Stage::WarmStartJoints
            | Stage::SolveJointsVelocity
            | Stage::SolveJointsPosition => self.lemma_joints_alike(
                other,
                pre,
                other_pre,
                stage,
                dynamics,
            ),
        }
    }

    /// Determinism: what a sequence of stages makes of a world depends on
    /// the world and on the dynamics alone. Where each method of
    /// `dynamics` returns what its arguments decide, two sound worlds that
    /// are alike are alike again after the same stages: they hold the same
    /// bodies in the same states and with the same boxes, and the same
    /// constraints in the same order for the same pairs.
    pub proof fn lemma_steps_alike<D: Dynamics<S, C, J>>(
        &self,
        other: &World<S, C, J>,
        pre: &World<S, C, J>,
        other_pre: &World<S, C, J>,
        stages: Seq<Stage>,
        dynamics: &D,
    )
        requires
            decides(dynamics),
            pre.wf(),
            other_pre.wf(),
            pre.alike(other_pre),
            self.stepped(pre, stages, dynamics),
            other.stepped(other_pre, stages, dynamics),
        ensures
            self.wf(),
            other.wf(),
            self.alike(other),
        decreases stages.len(),
    {
        if stages.len() > 0 {
            let x = choose|x: World<S, C, J>|
                x.stepped(pre, stages.drop_last(), dynamics) && #[trigger] self.stage_done(
                    &x,
                    stages.last(),
                    dynamics,
                );
            let y = choose|y: World<S, C, J>|
                y.stepped(other_pre, stages.drop_last(), dynamics) && #[trigger] other.stage_done(
                    &y,
                    stages.last(),
                    dynamics,
                );
            x.lemma_steps_alike(&y, pre, other_pre, stages.drop_last(), dynamics);
            self.lemma_stage_alike(other, &x, &y, stages.last(), dynamics);
        }
    }

    /// Determinism of a step: two sound worlds that are alike are alike
    /// again after a step each with the same `dynamics`, where each method
    /// of `dynamics` returns what its arguments decide.
    pub proof fn lemma_step_alike<D: Dynamics<S, C, J>>(
        &self,
        other: &World<S, C, J>,
        pre: &World<S, C, J>,
        other_pre: &World<S, C, J>,
        dynamics: &D,
    )
        requires
            decides(dynamics),
            pre.wf(),
            other_pre.wf(),
            pre.alike(other_pre),
            self.stepped(
                pre,
                plan(
                    pre.spec_velocity_iterations() as nat,
                    pre.spec_position_iterations() as nat,
                ),
                dynamics,
            ),
            other.stepped(
                other_pre,
                plan(
                    other_pre.spec_velocity_iterations() as nat,
                    other_pre.spec_position_iterations() as nat,
                ),
                dynamics,
            ),
        ensures
            self.wf(),
            other.wf(),
            self.alike(other),
            forall|id: BodyId| #[trigger]
                self.bodies().contains(id) ==> other.bodies().contains(id) && self.bodies().body(id)
                    == other.bodies().body(id),
    {
        self.lemma_steps_alike(
            other,
            pre,
            other_pre,
            plan(pre.spec_velocity_iterations() as nat, pre.spec_position_iterations() as nat),
            dynamics,
        );
        self.lemma_alike(other);
    }
}

} // verus!
