//! One step of the simulation.
//!
//! The world goes through the stages of [`plan`] in order. What a stage
//! does to the books of the world is done here; what it does to the state
//! of the bodies and to the constraints is asked of a [`Dynamics`].
//!
//! A stage takes what the [`Dynamics`] returns and puts it in place. Its
//! contract says so by the contracts of the methods of the [`Dynamics`]
//! at hand: a body or a constraint is afterwards what the method in charge
//! allows for what it was before. The stages of the solver work on a
//! [`Scene`], one constraint after the other; [`pairs_done`] tells how the
//! scene after a stage comes from the scene before it, and
//! [`World::stepped`] how the world after a step comes from the world
//! before it.

use crate::body::{Body, BodyId, BodyPair};
use crate::broad_phase::EXPANSION_PERCENT;
use crate::constraints::{ascending, grown, lemma_pairs_deterministic, spec_key};
use crate::math::Bounds;
use crate::world::{
    has, lemma_frame_twice, plan, prelude_stages, repeated, same_frame, Dynamics, Stage, World,
};
use vstd::prelude::*;

verus! {

proof fn lemma_repeated_at(n: nat, first: Stage, second: Stage, i: int)
    requires
        0 <= i < repeated(n, first, second).len(),
    ensures
        repeated(n, first, second)[i] == first || repeated(n, first, second)[i] == second,
    decreases n,
{
    if n > 0 {
        let rest = repeated((n - 1) as nat, first, second);
        if i < rest.len() {
            lemma_repeated_at((n - 1) as nat, first, second, i);
        }
    }
}

/// The first four stages of a step are the bookkeeping of the bounds, of
/// the pairs that have parted and of the pairs that have come close, and
/// the narrow phase, in this order, and none of the later stages is one of
/// these.
pub proof fn lemma_plan_at(velocity_iterations: nat, position_iterations: nat, i: int)
    requires
        0 <= i < plan(velocity_iterations, position_iterations).len(),
    ensures
        i == 0 ==> plan(velocity_iterations, position_iterations)[i] == Stage::UpdateBounds,
        i == 1 ==> plan(velocity_iterations, position_iterations)[i] == Stage::PruneSeparated,
        i == 2 ==> plan(velocity_iterations, position_iterations)[i] == Stage::FindPairs,
        i == 3 ==> plan(velocity_iterations, position_iterations)[i] == Stage::NarrowPhase,
        i >= 3 ==> plan(velocity_iterations, position_iterations)[i] != Stage::UpdateBounds
            && plan(velocity_iterations, position_iterations)[i] != Stage::PruneSeparated
            && plan(velocity_iterations, position_iterations)[i] != Stage::FindPairs,
        i >= 4 ==> plan(velocity_iterations, position_iterations)[i] != Stage::NarrowPhase,
{
    let a = prelude_stages();
    let b = repeated(velocity_iterations, Stage::SolveJointsVelocity, Stage::SolveContactsVelocity);
    let c = seq![Stage::IntegrateVelocities, Stage::WarmStartPositions];
    let d = repeated(position_iterations, Stage::SolveJointsPosition, Stage::SolveContactsPosition);
    let p = plan(velocity_iterations, position_iterations);
    assert(p == a + b + c + d);
    assert(a.len() == 9);
    if i < 9 {
        assert(p[i] == a[i]);
    } else if i < 9 + b.len() {
        assert(p[i] == b[i - 9]);
        lemma_repeated_at(
            velocity_iterations,
            Stage::SolveJointsVelocity,
            Stage::SolveContactsVelocity,
            i - 9,
        );
    } else if i < 9 + b.len() + 2 {
        assert(p[i] == c[i - 9 - b.len()]);
    } else {
        assert(p[i] == d[i - 9 - b.len() - 2]);
        lemma_repeated_at(
            position_iterations,
            Stage::SolveJointsPosition,
            Stage::SolveContactsPosition,
            i - 9 - b.len() - 2,
        );
    }
}

/// What a stage of the solver works on: the state of every body, which
/// of the bodies never move, and the constraints of every pair that has a
/// list of them.
pub struct Scene<S, T> {
    pub states: Map<BodyId, S>,
    pub fixed: Set<BodyId>,
    pub lists: Map<BodyPair, Seq<T>>,
}

/// The lists of `lists`, each as a sequence.
pub open spec fn views<T>(lists: Map<BodyPair, Vec<T>>) -> Map<BodyPair, Seq<T>> {
    Map::new(|p: BodyPair| lists.contains_key(p), |p: BodyPair| lists[p]@)
}

/// The state in which a piece of work leaves a body that it found in the
/// state `before` and for which it made the state `made`: a body that
/// never moves keeps its state.
pub open spec fn kept<S>(fixed: bool, before: S, made: S) -> S {
    if fixed {
        before
    } else {
        made
    }
}

/// Whether `post` is `pre` after one piece of work on the constraint `k`
/// of `pair` that made `r`: `rule` allows `r` for the constraint and the
/// states of the two bodies as they stood, the constraint is the one of
/// `r`, each body that can move has its state of `r`, and nothing else has
/// changed.
pub open spec fn applied_with<S, T>(
    rule: spec_fn(T, S, S, (T, S, S)) -> bool,
    pre: Scene<S, T>,
    post: Scene<S, T>,
    pair: BodyPair,
    k: int,
    r: (T, S, S),
) -> bool {
    &&& rule(pre.lists[pair][k], pre.states[pair.0], pre.states[pair.1], r)
    &&& post.fixed == pre.fixed
    &&& post.states == pre.states.insert(
        pair.0,
        kept(pre.fixed.contains(pair.0), pre.states[pair.0], r.1),
    ).insert(pair.1, kept(pre.fixed.contains(pair.1), pre.states[pair.1], r.2))
    &&& post.lists == pre.lists.insert(pair, pre.lists[pair].update(k, r.0))
}

/// Whether `post` is `pre` after one piece of work on the constraint `k`
/// of `pair`.
pub open spec fn applied<S, T>(
    rule: spec_fn(T, S, S, (T, S, S)) -> bool,
    pre: Scene<S, T>,
    post: Scene<S, T>,
    pair: BodyPair,
    k: int,
) -> bool {
    exists|r: (T, S, S)| #[trigger] applied_with(rule, pre, post, pair, k, r)
}

/// Whether `post` is `pre` after the work on the first `n` constraints of
/// `pair`, one after the other in the order of the list.
pub open spec fn list_done<S, T>(
    rule: spec_fn(T, S, S, (T, S, S)) -> bool,
    pre: Scene<S, T>,
    post: Scene<S, T>,
    pair: BodyPair,
    n: nat,
) -> bool
    decreases n,
{
    if n == 0 {
        post == pre
    } else {
        exists|mid: Scene<S, T>|
            list_done(rule, pre, mid, pair, (n - 1) as nat) && #[trigger] applied(
                rule,
                mid,
                post,
                pair,
                n - 1,
            )
    }
}

/// Whether `post` is `pre` after the work on all the constraints of the
/// pairs of `order`, pair by pair in this order.
pub open spec fn pairs_done<S, T>(
    rule: spec_fn(T, S, S, (T, S, S)) -> bool,
    pre: Scene<S, T>,
    post: Scene<S, T>,
    order: Seq<BodyPair>,
) -> bool
    decreases order.len(),
{
    if order.len() == 0 {
        post == pre
    } else {
        exists|mid: Scene<S, T>|
            pairs_done(rule, pre, mid, order.drop_last()) && #[trigger] list_done(
                rule,
                mid,
                post,
                order.last(),
                mid.lists[order.last()].len(),
            )
    }
}

/// Whether `order` lists the pairs of `pairs`, by their first id and then
/// by their second.
pub open spec fn in_order(order: Seq<BodyPair>, pairs: Set<BodyPair>) -> bool {
    &&& forall|p: BodyPair| order.contains(p) <==> pairs.contains(p)
    &&& ascending(order.map_values(|p: BodyPair| spec_key(p)))
}

/// The pairs of `pairs` in the order in which a stage works on them.
pub open spec fn listing(pairs: Set<BodyPair>) -> Seq<BodyPair> {
    choose|order: Seq<BodyPair>| in_order(order, pairs)
}

/// A set of pairs has one listing only.
pub proof fn lemma_listing(order: Seq<BodyPair>, pairs: Set<BodyPair>)
    requires
        in_order(order, pairs),
    ensures
        order == listing(pairs),
{
    lemma_pairs_deterministic(order, listing(pairs));
}

/// One more piece of work on the constraints of a pair.
proof fn lemma_list_step<S, T>(
    rule: spec_fn(T, S, S, (T, S, S)) -> bool,
    pre: Scene<S, T>,
    mid: Scene<S, T>,
    post: Scene<S, T>,
    pair: BodyPair,
    n: nat,
)
    requires
        list_done(rule, pre, mid, pair, n),
        applied(rule, mid, post, pair, n as int),
    ensures
        list_done(rule, pre, post, pair, n + 1),
{
    let m = (n + 1) as nat;
    assert((m - 1) as nat == n);
    assert(list_done(rule, pre, mid, pair, (m - 1) as nat) && applied(rule, mid, post, pair, m - 1));
}

/// The work on one more pair.
proof fn lemma_pairs_step<S, T>(
    rule: spec_fn(T, S, S, (T, S, S)) -> bool,
    pre: Scene<S, T>,
    mid: Scene<S, T>,
    post: Scene<S, T>,
    order: Seq<BodyPair>,
)
    requires
        order.len() > 0,
        pairs_done(rule, pre, mid, order.drop_last()),
        list_done(rule, mid, post, order.last(), mid.lists[order.last()].len()),
    ensures
        pairs_done(rule, pre, post, order),
{
    assert(pairs_done(rule, pre, mid, order.drop_last()) && list_done(
        rule,
        mid,
        post,
        order.last(),
        mid.lists[order.last()].len(),
    ));
}

/// What `dynamics` allows for one piece of work on a contact constraint
/// at the stage `stage`: what its method for this stage allows, and at a
/// stage that is none of the contact constraints what
/// [`Dynamics::solve_contact_position`] allows.
pub open spec fn contact_rule<S, C, J, D: Dynamics<S, C, J>>(
    dynamics: &D,
    stage: Stage,
) -> spec_fn(C, S, S, (C, S, S)) -> bool {
    |c: C, a: S, b: S, r: (C, S, S)|
        match stage {
            Stage::InitializeContacts => call_ensures(
                D::initialize_contact,
                (dynamics, &c, &a, &b),
                r,
            ),
            Stage::WarmStartContacts => call_ensures(
                D::warm_start_contact,
                (dynamics, &c, &a, &b),
                r,
            ),
            Stage::SolveContactsVelocity => call_ensures(
                D::solve_contact_velocity,
                (dynamics, &c, &a, &b),
                r,
            ),
            Stage::WarmStartPositions => call_ensures(
                D::warm_start_contact_position,
                (dynamics, &c, &a, &b),
                r,
            ),
            _ => call_ensures(D::solve_contact_position, (dynamics, &c, &a, &b), r),
        }
}

/// What `dynamics` allows for one piece of work on a joint at the stage
/// `stage`: what its method for this stage allows, and at a stage that is
/// none of the joints what [`Dynamics::solve_joint_position`] allows.
pub open spec fn joint_rule<S, C, J, D: Dynamics<S, C, J>>(
    dynamics: &D,
    stage: Stage,
) -> spec_fn(J, S, S, (J, S, S)) -> bool {
    |j: J, a: S, b: S, r: (J, S, S)|
        match stage {
            Stage::InitializeJoints => call_ensures(D::initialize_joint, (dynamics, &j, &a, &b), r),
            Stage::WarmStartJoints => call_ensures(D::warm_start_joint, (dynamics, &j, &a, &b), r),
            Stage::SolveJointsVelocity => call_ensures(
                D::solve_joint_velocity,
                (dynamics, &j, &a, &b),
                r,
            ),
            _ => call_ensures(D::solve_joint_position, (dynamics, &j, &a, &b), r),
        }
}

/// Whether `dynamics` finds `r` for two bodies in the states `a` and `b`
/// whose pair has the contact constraints `had`: by [`Dynamics::collide`]
/// where the pair has none, else by [`Dynamics::collide_again`].
pub open spec fn collided<S, C, J, D: Dynamics<S, C, J>>(
    dynamics: &D,
    a: S,
    b: S,
    had: Vec<C>,
    r: Option<Vec<C>>,
) -> bool {
    if had@.len() == 0 {
        call_ensures(D::collide, (dynamics, &a, &b), r)
    } else {
        call_ensures(D::collide_again, (dynamics, &a, &b, &had), r)
    }
}

/// Whether `dynamics` finds two bodies in the states `a` and `b`, whose pair
/// has the contact constraints `had`, touching, with `found` for their
/// constraints.
pub open spec fn touching<S, C, J, D: Dynamics<S, C, J>>(
    dynamics: &D,
    a: S,
    b: S,
    had: Vec<C>,
    found: Vec<C>,
) -> bool {
    collided(dynamics, a, b, had, Some(found))
}

/// Whether `after` is the state that a stage that integrates leaves a body
/// in the state `before`: the same state where the body never moves, else
/// one that `dynamics` allows, by [`Dynamics::integrate_forces`] at the
/// stage of that name and by [`Dynamics::integrate_velocities`] at any
/// other.
pub open spec fn integrated<S, C, J, D: Dynamics<S, C, J>>(
    dynamics: &D,
    stage: Stage,
    fixed: bool,
    before: S,
    after: S,
) -> bool {
    if fixed {
        after == before
    } else if stage is IntegrateForces {
        call_ensures(D::integrate_forces, (dynamics, &before), after)
    } else {
        call_ensures(D::integrate_velocities, (dynamics, &before), after)
    }
}

impl<S, C, J> World<S, C, J> {
    /// `self` is a sound world with the bodies and the joints of `pre`:
    /// the same ids, proxies and mobility, and lists of joints for the
    /// same pairs.
    pub open spec fn continues(&self, pre: &World<S, C, J>) -> bool {
        &&& self.wf()
        &&& same_frame(self.bodies()@, pre.bodies()@)
        &&& self.bodies().spec_len() == pre.bodies().spec_len()
        &&& self.joints().dom() == pre.joints().dom()
        &&& self.same_settings(pre)
    }

    /// The state that the solver keeps for the body `id`.
    pub open spec fn state(&self, id: BodyId) -> S {
        self.bodies().body(id).spec_state()
    }

    /// The box of the body `id`.
    pub open spec fn bounds_of(&self, id: BodyId) -> Bounds {
        self.bodies().body(id).spec_bounds()
    }

    /// The state of every body.
    pub open spec fn states(&self) -> Map<BodyId, S> {
        Map::new(|id: BodyId| self.bodies().contains(id), |id: BodyId| self.state(id))
    }

    /// The bodies that never move.
    pub open spec fn fixed(&self) -> Set<BodyId> {
        Set::new(
            |id: BodyId| self.bodies().contains(id) && self.bodies().body(id).spec_is_static(),
        )
    }

    /// Every body of `pre` that never moves has the state that it had in
    /// `pre`.
    pub open spec fn keeps_fixed(&self, pre: &World<S, C, J>) -> bool {
        forall|id: BodyId| #[trigger]
            pre.bodies().contains(id) && pre.bodies().body(id).spec_is_static() ==> self.state(id)
                == pre.state(id)
    }

    /// The list of contact constraints of `pair`, if it has one.
    pub open spec fn contacts_at(&self, pair: BodyPair) -> Option<Vec<C>> {
        if self.contacts().contains_key(pair) {
            Some(self.contacts()[pair])
        } else {
            None
        }
    }

    /// What a stage of the solver on the contact constraints works on.
    pub open spec fn contact_scene(&self) -> Scene<S, C> {
        Scene { states: self.states(), fixed: self.fixed(), lists: views(self.contacts()) }
    }

    /// What a stage of the solver on the joints works on.
    pub open spec fn joint_scene(&self) -> Scene<S, J> {
        Scene { states: self.states(), fixed: self.fixed(), lists: views(self.joints()) }
    }

    /// Whether `id` names a body of `pre` whose box in `self` is no longer
    /// inside the box that its proxy had in `pre`.
    pub open spec fn has_left_proxy(&self, pre: &World<S, C, J>, id: BodyId) -> bool {
        pre.bodies().contains(id) && !pre.proxy_box(id).spec_contains(self.bounds_of(id))
    }

    /// The proxy of the body `id` of `pre` has followed the body: it has
    /// the box that it had in `pre` where that contains the box of the body
    /// in `self`, else this box grown by [`EXPANSION_PERCENT`].
    pub open spec fn proxy_follows(&self, pre: &World<S, C, J>, id: BodyId) -> bool {
        if self.has_left_proxy(pre, id) {
            &&& self.proxy_box(id).spec_min() == self.bounds_of(id).spec_expand_by(
                EXPANSION_PERCENT,
            ).0
            &&& self.proxy_box(id).spec_max() == self.bounds_of(id).spec_expand_by(
                EXPANSION_PERCENT,
            ).1
        } else {
            self.proxy_box(id) == pre.proxy_box(id)
        }
    }

    /// Every body of `pre` has the box that it had in `pre`.
    pub open spec fn same_boxes(&self, pre: &World<S, C, J>) -> bool {
        forall|id: BodyId| #[trigger]
            pre.bodies().contains(id) ==> self.bounds_of(id) == pre.bounds_of(id)
    }

    /// Whether `self` is `pre` after the stage of the bounds: see
    /// [`Self::refresh_bounds`].
    pub open spec fn bounds_refreshed<D: Dynamics<S, C, J>>(
        &self,
        pre: &World<S, C, J>,
        dynamics: &D,
    ) -> bool {
        &&& self.continues(pre)
        &&& self.contacts() == pre.contacts()
        &&& self.joints() == pre.joints()
        &&& forall|id: BodyId| #[trigger]
            pre.bodies().contains(id) ==> self.state(id) == pre.state(id) && call_ensures(
                D::bounds,
                (dynamics, &pre.state(id)),
                self.bounds_of(id),
            ) && self.proxy_follows(pre, id)
        &&& forall|id: BodyId|
            self.broad_phase().reinserted().contains(id) <==> pre.broad_phase().reinserted().contains(
                id,
            ) || self.has_left_proxy(pre, id)
    }

    /// Whether `self` is `pre` without the contact constraints of the
    /// pairs whose boxes do not meet: see [`Self::prune_separated`].
    pub open spec fn pruned(&self, pre: &World<S, C, J>) -> bool {
        &&& self.wf()
        &&& self.same_settings(pre)
        &&& self.contacts() == pre.contacts().remove_keys(pre.separated())
        &&& self.bodies() == pre.bodies()
        &&& self.broad_phase() == pre.broad_phase()
        &&& self.joints() == pre.joints()
    }

    /// Whether `self` is `pre` after the broad phase has proposed its
    /// pairs: see [`Self::find_pairs`].
    pub open spec fn pairs_found(&self, pre: &World<S, C, J>) -> bool {
        &&& self.wf()
        &&& self.same_settings(pre)
        &&& grown(self.contacts(), pre.contacts(), pre.broad_phase().candidates(&pre.bodies()))
        &&& self.bodies() == pre.bodies()
        &&& self.broad_phase().tree() == pre.broad_phase().tree()
        &&& self.broad_phase().reinserted() == Seq::<BodyId>::empty()
        &&& self.joints() == pre.joints()
    }

    /// Whether `self` is `pre` after the narrow phase: see
    /// [`Self::narrow_phase`].
    pub open spec fn narrowed<D: Dynamics<S, C, J>>(
        &self,
        pre: &World<S, C, J>,
        dynamics: &D,
    ) -> bool {
        &&& self.continues(pre)
        &&& self.bodies() == pre.bodies()
        &&& self.broad_phase() == pre.broad_phase()
        &&& self.joints() == pre.joints()
        &&& self.contacts().dom().subset_of(pre.contacts().dom())
        &&& forall|p: BodyPair| #[trigger]
            pre.contacts().contains_key(p) ==> collided(
                dynamics,
                pre.state(p.0),
                pre.state(p.1),
                pre.contacts()[p],
                self.contacts_at(p),
            )
    }

    /// Whether `self` is `pre` after a stage that integrates: see
    /// [`Self::integrate`].
    pub open spec fn integrated_by<D: Dynamics<S, C, J>>(
        &self,
        pre: &World<S, C, J>,
        stage: Stage,
        dynamics: &D,
    ) -> bool {
        &&& self.continues(pre)
        &&& self.same_but_bodies(pre)
        &&& self.same_boxes(pre)
        &&& forall|id: BodyId| #[trigger]
            pre.bodies().contains(id) ==> integrated(
                dynamics,
                stage,
                pre.bodies().body(id).spec_is_static(),
                pre.state(id),
                self.state(id),
            )
    }

    /// Whether `self` is `pre` after the stage `stage` of a step.
    pub open spec fn stage_done<D: Dynamics<S, C, J>>(
        &self,
        pre: &World<S, C, J>,
        stage: Stage,
        dynamics: &D,
    ) -> bool {
        match stage {
            Stage::UpdateBounds => self.bounds_refreshed(pre, dynamics),
            Stage::PruneSeparated => self.pruned(pre),
            Stage::FindPairs => self.pairs_found(pre),
            Stage::NarrowPhase => self.narrowed(pre, dynamics),
            Stage::IntegrateForces | Stage::IntegrateVelocities => self.integrated_by(
                pre,
                stage,
                dynamics,
            ),
            Stage::InitializeContacts
            | Stage::WarmStartContacts
            | Stage::SolveContactsVelocity
            | Stage::WarmStartPositions
            | Stage::SolveContactsPosition => self.contacts_run(pre, stage, dynamics),
            Stage::InitializeJoints
            | Stage::WarmStartJoints
            | Stage::SolveJointsVelocity
            | Stage::SolveJointsPosition => self.joints_run(pre, stage, dynamics),
        }
    }

    /// Whether `self` is `pre` after the stages of `stages`, one after the
    /// other in this order.
    pub open spec fn stepped<D: Dynamics<S, C, J>>(
        &self,
        pre: &World<S, C, J>,
        stages: Seq<Stage>,
        dynamics: &D,
    ) -> bool
        decreases stages.len(),
    {
        if stages.len() == 0 {
            self == pre
        } else {
            exists|mid: World<S, C, J>|
                mid.stepped(pre, stages.drop_last(), dynamics) && #[trigger] self.stage_done(
                    &mid,
                    stages.last(),
                    dynamics,
                )
        }
    }

    /// One more stage.
    proof fn lemma_stepped<D: Dynamics<S, C, J>>(
        &self,
        mid: &World<S, C, J>,
        pre: &World<S, C, J>,
        stages: Seq<Stage>,
        dynamics: &D,
    )
        requires
            stages.len() > 0,
            mid.stepped(pre, stages.drop_last(), dynamics),
            self.stage_done(mid, stages.last(), dynamics),
        ensures
            self.stepped(pre, stages, dynamics),
    {
    }

    proof fn lemma_continues_refl(&self)
        requires
            self.wf(),
        ensures
            self.continues(self),
    {
    }

    proof fn lemma_continues_twice(&self, mid: &World<S, C, J>, pre: &World<S, C, J>)
        requires
            self.continues(mid),
            mid.continues(pre),
        ensures
            self.continues(pre),
    {
        lemma_frame_twice(self.bodies()@, mid.bodies()@, pre.bodies()@);
    }

    /// Every body of `pre` has the box that `dynamics` tells for the state
    /// that it had in `pre`.
    pub open spec fn boxes_told<D: Dynamics<S, C, J>>(
        &self,
        pre: &World<S, C, J>,
        dynamics: &D,
    ) -> bool {
        forall|id: BodyId| #[trigger]
            pre.bodies().contains(id) ==> call_ensures(
                D::bounds,
                (dynamics, &pre.state(id)),
                self.bounds_of(id),
            )
    }

    /// Every pair that has a list of contact constraints names two bodies
    /// that `dynamics` found touching in the states that they had in
    /// `pre`.
    pub open spec fn contacts_touch<D: Dynamics<S, C, J>>(
        &self,
        pre: &World<S, C, J>,
        dynamics: &D,
    ) -> bool {
        forall|p: BodyPair| #[trigger]
            self.contacts().contains_key(p) ==> exists|had: Vec<C>, found: Vec<C>| #[trigger]
                touching(dynamics, pre.state(p.0), pre.state(p.1), had, found)
    }

    /// Every body of `pre` has the state that it had in `pre`.
    pub open spec fn same_states(&self, pre: &World<S, C, J>) -> bool {
        forall|id: BodyId| #[trigger] pre.bodies().contains(id) ==> self.state(id) == pre.state(id)
    }

    /// What a stage leaves as it is.
    proof fn lemma_stage_frame<D: Dynamics<S, C, J>>(
        &self,
        pre: &World<S, C, J>,
        stage: Stage,
        dynamics: &D,
    )
        requires
            pre.wf(),
            self.stage_done(pre, stage, dynamics),
        ensures
            self.continues(pre),
            self.keeps_fixed(pre),
            stage != Stage::UpdateBounds ==> self.same_boxes(pre) && self.broad_phase().tree()
                == pre.broad_phase().tree(),
            stage != Stage::UpdateBounds && stage != Stage::FindPairs
                ==> self.broad_phase().reinserted() == pre.broad_phase().reinserted(),
            stage == Stage::FindPairs ==> self.broad_phase().reinserted() == Seq::<BodyId>::empty(),
            stage == Stage::UpdateBounds || stage == Stage::PruneSeparated || stage
                == Stage::FindPairs || stage == Stage::NarrowPhase ==> self.same_states(pre),
            stage != Stage::FindPairs ==> self.contacts().dom().subset_of(pre.contacts().dom()),
    {
        if self.bodies() == pre.bodies() {
            pre.lemma_continues_refl();
        }
        match stage {
            Stage::PruneSeparated => {
                assert(self.contacts().dom().subset_of(pre.contacts().dom()));
            },
            Stage::IntegrateForces | Stage::IntegrateVelocities => {
                assert forall|id: BodyId| #[trigger]
                    pre.bodies().contains(id) && pre.bodies().body(
                        id,
                    ).spec_is_static() implies self.state(id) == pre.state(id) by {
                    assert(integrated(
                        dynamics,
                        stage,
                        pre.bodies().body(id).spec_is_static(),
                        pre.state(id),
                        self.state(id),
                    ));
                }
            },
            _ => {},
        }
    }

    /// What holds of a world after the first stages of a step holds of it
    /// after one more.
    proof fn lemma_stage_keeps<D: Dynamics<S, C, J>>(
        &self,
        mid: &World<S, C, J>,
        pre: &World<S, C, J>,
        i: int,
        stage: Stage,
        dynamics: &D,
    )
        requires
            0 <= i,
            pre.wf(),
            mid.continues(pre),
            mid.keeps_fixed(pre),
            self.stage_done(mid, stage, dynamics),
            i == 0 <==> stage == Stage::UpdateBounds,
            i == 2 <==> stage == Stage::FindPairs,
            i == 3 <==> stage == Stage::NarrowPhase,
            i == 1 ==> stage == Stage::PruneSeparated,
            i <= 3 ==> mid.same_states(pre),
            i >= 1 ==> mid.boxes_told(pre, dynamics),
            i >= 3 ==> mid.broad_phase().reinserted() == Seq::<BodyId>::empty(),
            i >= 4 ==> mid.contacts_touch(pre, dynamics),
        ensures
            self.continues(pre),
            self.keeps_fixed(pre),
            i + 1 <= 4 ==> self.same_states(pre),
            self.boxes_told(pre, dynamics),
            i + 1 >= 3 ==> self.broad_phase().reinserted() == Seq::<BodyId>::empty(),
            i + 1 >= 4 ==> self.contacts_touch(pre, dynamics),
    {
        self.lemma_stage_frame(mid, stage, dynamics);
        self.lemma_continues_twice(mid, pre);
        assert forall|id: BodyId| #[trigger] pre.bodies().contains(id) implies mid.bodies().contains(
            id,
        ) && (pre.bodies().body(id).spec_is_static() ==> mid.bodies().body(id).spec_is_static()) by {
            assert(has(pre.bodies()@, id));
            assert(has(mid.bodies()@, id));
        }
        if i == 0 {
            assert forall|id: BodyId| #[trigger] pre.bodies().contains(id) implies call_ensures(
                D::bounds,
                (dynamics, &pre.state(id)),
                self.bounds_of(id),
            ) by {
                assert(mid.bodies().contains(id));
                assert(mid.state(id) == pre.state(id));
            }
        } else {
            assert forall|id: BodyId| #[trigger] pre.bodies().contains(id) implies call_ensures(
                D::bounds,
                (dynamics, &pre.state(id)),
                self.bounds_of(id),
            ) by {
                assert(mid.bodies().contains(id));
                assert(self.bounds_of(id) == mid.bounds_of(id));
            }
        }
        if i + 1 <= 4 {
            assert forall|id: BodyId| #[trigger] pre.bodies().contains(id) implies self.state(id)
                == pre.state(id) by {
                assert(mid.bodies().contains(id));
            }
        }
        if i == 3 {
            assert forall|p: BodyPair| #[trigger] self.contacts().contains_key(p) implies exists|
                had: Vec<C>,
                found: Vec<C>,
            | #[trigger] touching(dynamics, pre.state(p.0), pre.state(p.1), had, found) by {
                assert(mid.contacts().contains_key(p));
                assert(has(mid.bodies()@, p.0) && has(mid.bodies()@, p.1));
                assert(has(pre.bodies()@, p.0) && has(pre.bodies()@, p.1));
                assert(pre.bodies().contains(p.0) && pre.bodies().contains(p.1));
                assert(mid.state(p.0) == pre.state(p.0));
                assert(mid.state(p.1) == pre.state(p.1));
                assert(self.contacts_at(p) == Some(self.contacts()[p]));
                assert(touching(
                    dynamics,
                    pre.state(p.0),
                    pre.state(p.1),
                    mid.contacts()[p],
                    self.contacts()[p],
                ));
            }
        } else if i >= 4 {
            assert forall|p: BodyPair| #[trigger] self.contacts().contains_key(p) implies exists|
                had: Vec<C>,
                found: Vec<C>,
            | #[trigger] touching(dynamics, pre.state(p.0), pre.state(p.1), had, found) by {
                assert(mid.contacts().contains_key(p));
            }
        }
    }

    /// Advances the world by one step: it goes through the stages of the
    /// [`plan`] in order, with `dynamics` for the numeric work, each stage
    /// starting from what the one before has left.
    ///
    /// Afterwards the world is sound and has the bodies and the joints that
    /// it had. Every body has the box that `dynamics` tells for the state
    /// in which the step found it, a body that never moves is in that
    /// state still, every pair that has contact constraints was found
    /// touching in this step, and no body is left on record as inserted
    /// anew.
    pub fn update<D: Dynamics<S, C, J>>(&mut self, dynamics: &D)
        requires
            old(self).wf(),
        ensures
            final(self).stepped(
                old(self),
                plan(
                    old(self).spec_velocity_iterations() as nat,
                    old(self).spec_position_iterations() as nat,
                ),
                dynamics,
            ),
            final(self).continues(old(self)),
            final(self).keeps_fixed(old(self)),
            final(self).boxes_told(old(self), dynamics),
            final(self).contacts_touch(old(self), dynamics),
            final(self).broad_phase().reinserted() == Seq::<BodyId>::empty(),
    {
        let stages = self.step_plan();
        proof {
            crate::world::lemma_plan_len(
                self.spec_velocity_iterations() as nat,
                self.spec_position_iterations() as nat,
            );
        }
        let mut i: usize = 0;
        proof {
            self.lemma_continues_refl();
        }
        while i < stages.len()
            invariant
                i <= stages@.len(),
                stages@ == plan(
                    old(self).spec_velocity_iterations() as nat,
                    old(self).spec_position_iterations() as nat,
                ),
                stages@.len() >= 11,
                old(self).wf(),
                self.stepped(old(self), stages@.take(i as int), dynamics),
                self.continues(old(self)),
                self.keeps_fixed(old(self)),
                i <= 3 ==> self.same_states(old(self)),
                i >= 1 ==> self.boxes_told(old(self), dynamics),
                i >= 3 ==> self.broad_phase().reinserted() == Seq::<BodyId>::empty(),
                i >= 4 ==> self.contacts_touch(old(self), dynamics),
            decreases stages@.len() - i,
        {
            let ghost before = *self;
            let stage = stages[i];
            proof {
                lemma_plan_at(
                    old(self).spec_velocity_iterations() as nat,
                    old(self).spec_position_iterations() as nat,
                    i as int,
                );
            }
            match stage {
                Stage::UpdateBounds => {
                    self.refresh_bounds(dynamics);
                },
                Stage::PruneSeparated => {
                    self.prune_separated();
                },
                Stage::FindPairs => {
                    self.find_pairs();
                },
                Stage::NarrowPhase => {
                    self.narrow_phase(dynamics);
                },
                Stage::IntegrateForces | Stage::IntegrateVelocities => {
                    self.integrate(stage, dynamics);
                },
                Stage::InitializeContacts
                | Stage::WarmStartContacts
                | Stage::SolveContactsVelocity
                | Stage::WarmStartPositions
                | Stage::SolveContactsPosition => {
                    self.run_contacts(stage, dynamics);
                },
                Stage::InitializeJoints
                | Stage::WarmStartJoints
                | Stage::SolveJointsVelocity
                | Stage::SolveJointsPosition => {
                    self.run_joints(stage, dynamics);
                },
            }
            proof {
                assert(self.stage_done(&before, stage, dynamics));
                assert(stages@.take(i + 1).drop_last() =~= stages@.take(i as int));
                assert(stages@.take(i + 1).last() == stage);
                self.lemma_stepped(&before, old(self), stages@.take(i + 1), dynamics);
                self.lemma_stage_keeps(&before, old(self), i as int, stage, dynamics);
            }
            i += 1;
        }
        proof {
            assert(stages@.take(stages@.len() as int) =~= stages@);
        }
    }

    /// The first stage: every body gets the box that `dynamics` tells for
    /// its state, and its proxy is brought up to date. The states of the
    /// bodies and the constraints stay as they are.
    ///
    /// A proxy whose box contains the new box of its body keeps its box.
    /// Any other gets the new box of its body grown by
    /// [`EXPANSION_PERCENT`], and its body is put on the record of the
    /// bodies inserted anew.
    pub fn refresh_bounds<D: Dynamics<S, C, J>>(&mut self, dynamics: &D)
        requires
            old(self).wf(),
        ensures
            final(self).bounds_refreshed(old(self), dynamics),
    {
        let ids = self.body_ids();
        let mut i: usize = 0;
        proof {
            assert forall|k: int| 0 <= k < ids@.len() implies old(self).bodies().contains(
                #[trigger] ids@[k],
            ) by {
                assert(ids@.contains(ids@[k]));
            }
            self.lemma_continues_refl();
        }
        while i < ids.len()
            invariant
                i <= ids@.len(),
                old(self).wf(),
                forall|id: BodyId| ids@.contains(id) <==> old(self).bodies().contains(id),
                forall|k: int| 0 <= k < ids@.len() ==> old(self).bodies().contains(#[trigger] ids@[k]),
                forall|a: int, b: int| 0 <= a < b < ids@.len() ==> ids@[a] < ids@[b],
                self.continues(old(self)),
                self.contacts() == old(self).contacts(),
                self.joints() == old(self).joints(),
                forall|id: BodyId| #[trigger]
                    old(self).bodies().contains(id) ==> self.state(id) == old(self).state(id),
                forall|k: int|
                    0 <= k < i ==> call_ensures(
                        D::bounds,
                        (dynamics, &old(self).state(#[trigger] ids@[k])),
                        self.bounds_of(ids@[k]),
                    ) && self.proxy_follows(old(self), ids@[k]),
                forall|k: int|
                    i <= k < ids@.len() ==> self.proxy_box(#[trigger] ids@[k]) == old(self).proxy_box(
                        ids@[k],
                    ),
                forall|id: BodyId|
                    self.broad_phase().reinserted().contains(id) <==> old(
                        self,
                    ).broad_phase().reinserted().contains(id) || (exists|k: int|
                        0 <= k < i && #[trigger] ids@[k] == id && self.has_left_proxy(old(self), id)),
            decreases ids@.len() - i,
        {
            let ghost before = *self;
            let id = ids[i];
            proof {
                assert(ids@.contains(ids@[i as int]));
                assert(has(old(self).bodies()@, id));
                assert(has(self.bodies()@, id));
                assert(old(self).bodies().contains(id));
            }
            let bounds = dynamics.bounds(self.get_body(id).state());
            self.update_bounds(id, bounds);
            proof {
                lemma_frame_twice(self.bodies()@, before.bodies()@, old(self).bodies()@);
                Body::lemma_make(
                    id,
                    before.bodies().body(id).spec_proxy_id(),
                    bounds,
                    before.bodies().body(id).spec_is_static(),
                    before.bodies().body(id).spec_state(),
                );
                assert forall|j: BodyId| #[trigger] old(self).bodies().contains(j) implies self.state(
                    j,
                ) == old(self).state(j) by {
                    assert(before.state(j) == old(self).state(j));
                }
                assert forall|k: int| 0 <= k < ids@.len() && k != i implies self.bounds_of(
                    #[trigger] ids@[k],
                ) == before.bounds_of(ids@[k]) && self.proxy_box(ids@[k]) == before.proxy_box(
                    ids@[k],
                ) by {
                    let j = ids@[k];
                    assert(j != id);
                    assert(has(old(self).bodies()@, j));
                    assert(has(before.bodies()@, j));
                    assert(before.broad_phase().has_proxy(before.proxy_of(j)));
                    assert(before.broad_phase().proxy_body(before.proxy_of(j)) == j);
                    assert(before.broad_phase().proxy_body(before.proxy_of(id)) == id);
                    assert(before.proxy_of(j) != before.proxy_of(id));
                    assert(self.bounds_of(j) == before.bounds_of(j));
                    assert(self.proxy_of(j) == before.proxy_of(j));
                    assert(self.broad_phase().has_proxy(before.proxy_of(j)));
                }
                assert(before.proxy_box(id) == old(self).proxy_box(id));
                assert forall|k: int| 0 <= k < i + 1 implies call_ensures(
                    D::bounds,
                    (dynamics, &old(self).state(#[trigger] ids@[k])),
                    self.bounds_of(ids@[k]),
                ) && self.proxy_follows(old(self), ids@[k]) by {
                    if k < i {
                        assert(ids@[k] != id);
                        assert(before.proxy_follows(old(self), ids@[k]));
                    }
                }
                assert forall|j: BodyId|
                    self.broad_phase().reinserted().contains(j) <==> old(
                        self,
                    ).broad_phase().reinserted().contains(j) || (exists|k: int|
                        0 <= k < i + 1 && #[trigger] ids@[k] == j && self.has_left_proxy(
                            old(self),
                            j,
                        )) by {
                    vstd::seq_lib::lemma_seq_contains_after_push(
                        before.broad_phase().reinserted(),
                        id,
                        j,
                    );
                    if exists|k: int|
                        0 <= k < i && #[trigger] ids@[k] == j && before.has_left_proxy(old(self), j) {
                        let k = choose|k: int|
                            0 <= k < i && #[trigger] ids@[k] == j && before.has_left_proxy(
                                old(self),
                                j,
                            );
                        assert(self.bounds_of(ids@[k]) == before.bounds_of(ids@[k]));
                        assert(0 <= k < i + 1 && ids@[k] == j && self.has_left_proxy(old(self), j));
                    }
                    if exists|k: int|
                        0 <= k < i + 1 && #[trigger] ids@[k] == j && self.has_left_proxy(old(self), j) {
                        let k = choose|k: int|
                            0 <= k < i + 1 && #[trigger] ids@[k] == j && self.has_left_proxy(
                                old(self),
                                j,
                            );
                        if k < i {
                            assert(self.bounds_of(ids@[k]) == before.bounds_of(ids@[k]));
                            assert(0 <= k < i && ids@[k] == j && before.has_left_proxy(old(self), j));
                        }
                    }
                    if j == id && self.has_left_proxy(old(self), j) {
                        assert(ids@[i as int] == j);
                    }
                }
            }
            i += 1;
        }
        proof {
            assert forall|id: BodyId| #[trigger] old(self).bodies().contains(id) implies call_ensures(
                D::bounds,
                (dynamics, &old(self).state(id)),
                self.bounds_of(id),
            ) && self.proxy_follows(old(self), id) by {
                assert(ids@.contains(id));
                let k = choose|k: int| 0 <= k < ids@.len() && ids@[k] == id;
                assert(ids@[k] == id);
            }
            assert forall|id: BodyId|
                self.broad_phase().reinserted().contains(id) <==> old(
                    self,
                ).broad_phase().reinserted().contains(id) || self.has_left_proxy(old(self), id) by {
                if self.has_left_proxy(old(self), id) {
                    assert(ids@.contains(id));
                    let k = choose|k: int| 0 <= k < ids@.len() && ids@[k] == id;
                    assert(ids@[k] == id);
                }
            }
        }
    }

    /// The narrow phase: every pair that has a list of contact constraints
    /// gets the constraints that `dynamics` finds for the states of its
    /// two bodies, or loses its list where `dynamics` finds that the bodies
    /// do not touch. A pair whose list is empty is new to the narrow phase;
    /// for any other, `dynamics` is handed the list that the pair has. No
    /// other pair gets a list.
    pub fn narrow_phase<D: Dynamics<S, C, J>>(&mut self, dynamics: &D)
        requires
            old(self).wf(),
        ensures
            final(self).narrowed(old(self), dynamics),
    {
        let pairs = self.contact_pairs();
        let mut i: usize = 0;
        proof {
            assert forall|k: int| 0 <= k < pairs@.len() implies self.contacts().contains_key(
                #[trigger] pairs@[k],
            ) by {
                assert(pairs@.contains(pairs@[k]));
            }
        }
        while i < pairs.len()
            invariant
                i <= pairs@.len(),
                pairs@.no_duplicates(),
                forall|p: BodyPair| pairs@.contains(p) <==> old(self).contacts().contains_key(p),
                self.wf(),
                self.bodies() == old(self).bodies(),
                self.broad_phase() == old(self).broad_phase(),
                self.joints() == old(self).joints(),
                self.same_settings(old(self)),
                self.contacts().dom().subset_of(old(self).contacts().dom()),
                forall|k: int|
                    i <= k < pairs@.len() ==> self.contacts().contains_key(#[trigger] pairs@[k])
                        && self.contacts()[pairs@[k]] == old(self).contacts()[pairs@[k]],
                forall|k: int|
                    0 <= k < i ==> collided(
                        dynamics,
                        old(self).state((#[trigger] pairs@[k]).0),
                        old(self).state(pairs@[k].1),
                        old(self).contacts()[pairs@[k]],
                        self.contacts_at(pairs@[k]),
                    ),
            decreases pairs@.len() - i,
        {
            let ghost before = *self;
            let pair = pairs[i];
            proof {
                assert(self.contacts().contains_key(pairs@[i as int]));
                assert(has(self.bodies()@, pair.0) && has(self.bodies()@, pair.1));
            }
            let found = {
                let a = self.get_body(pair.0).state();
                let b = self.get_body(pair.1).state();
                match self.get_contacts(pair) {
                    Some(old_list) => if old_list.len() == 0 {
                        dynamics.collide(a, b)
                    } else {
                        dynamics.collide_again(a, b, old_list)
                    },
                    None => None,
                }
            };
            self.settle_pair(pair, found);
            proof {
                assert forall|k: int| i + 1 <= k < pairs@.len() implies self.contacts().contains_key(
                    #[trigger] pairs@[k],
                ) && self.contacts()[pairs@[k]] == old(self).contacts()[pairs@[k]] by {
                    assert(pairs@[k] != pairs@[i as int]);
                }
                assert forall|k: int| 0 <= k < i + 1 implies collided(
                    dynamics,
                    old(self).state((#[trigger] pairs@[k]).0),
                    old(self).state(pairs@[k].1),
                    old(self).contacts()[pairs@[k]],
                    self.contacts_at(pairs@[k]),
                ) by {
                    if k < i {
                        assert(pairs@[k] != pairs@[i as int]);
                        assert(self.contacts_at(pairs@[k]) == before.contacts_at(pairs@[k]));
                    } else {
                        assert(self.contacts_at(pair) == found);
                    }
                }
            }
            i += 1;
        }
        proof {
            old(self).lemma_continues_refl();
            assert forall|p: BodyPair| #[trigger] old(self).contacts().contains_key(p) implies collided(
                dynamics,
                old(self).state(p.0),
                old(self).state(p.1),
                old(self).contacts()[p],
                self.contacts_at(p),
            ) by {
                assert(pairs@.contains(p));
                let k = choose|k: int| 0 <= k < pairs@.len() && pairs@[k] == p;
                assert(pairs@[k] == p);
            }
        }
    }

    /// A stage that integrates: every body that can move gets the state
    /// that `dynamics` makes of its state, by turning forces into velocity
    /// at the stage [`Stage::IntegrateForces`] and velocity into position
    /// at any other. The bodies that never move, the boxes of the bodies
    /// and everything else stay as they are.
    pub fn integrate<D: Dynamics<S, C, J>>(&mut self, stage: Stage, dynamics: &D)
        requires
            old(self).wf(),
        ensures
            final(self).integrated_by(old(self), stage, dynamics),
    {
        let ids = self.body_ids();
        let mut i: usize = 0;
        proof {
            assert forall|k: int| 0 <= k < ids@.len() implies old(self).bodies().contains(
                #[trigger] ids@[k],
            ) by {
                assert(ids@.contains(ids@[k]));
            }
            self.lemma_continues_refl();
        }
        while i < ids.len()
            invariant
                i <= ids@.len(),
                forall|k: int| 0 <= k < ids@.len() ==> old(self).bodies().contains(#[trigger] ids@[k]),
                forall|a: int, b: int| 0 <= a < b < ids@.len() ==> ids@[a] < ids@[b],
                self.continues(old(self)),
                self.same_but_bodies(old(self)),
                self.same_boxes(old(self)),
                forall|k: int|
                    i <= k < ids@.len() ==> self.state(#[trigger] ids@[k]) == old(self).state(ids@[k]),
                forall|k: int|
                    0 <= k < i ==> integrated(
                        dynamics,
                        stage,
                        old(self).bodies().body(ids@[k]).spec_is_static(),
                        old(self).state(#[trigger] ids@[k]),
                        self.state(ids@[k]),
                    ),
            decreases ids@.len() - i,
        {
            let ghost before = *self;
            let id = ids[i];
            proof {
                assert(ids@.contains(ids@[i as int]));
                assert(has(old(self).bodies()@, id));
                assert(has(self.bodies()@, id));
            }
            if !self.get_body(id).is_static() {
                let moved = match stage {
                    Stage::IntegrateForces => dynamics.integrate_forces(self.get_body(id).state()),
                    _ => dynamics.integrate_velocities(self.get_body(id).state()),
                };
                let ghost after = moved;
                let slot = self.get_body_mut(id);
                *slot = moved;
                proof {
                    lemma_frame_twice(self.bodies()@, before.bodies()@, old(self).bodies()@);
                    Body::lemma_make(
                        id,
                        before.bodies().body(id).spec_proxy_id(),
                        before.bodies().body(id).spec_bounds(),
                        before.bodies().body(id).spec_is_static(),
                        after,
                    );
                }
            }
            proof {
                assert forall|j: BodyId| #[trigger] old(self).bodies().contains(j) implies self.bounds_of(
                    j,
                ) == old(self).bounds_of(j) by {
                    assert(before.bounds_of(j) == old(self).bounds_of(j));
                }
                assert forall|k: int| i + 1 <= k < ids@.len() implies self.state(#[trigger] ids@[k])
                    == old(self).state(ids@[k]) by {
                    assert(ids@[k] != id);
                    assert(self.state(ids@[k]) == before.state(ids@[k]));
                }
                assert forall|k: int| 0 <= k < i + 1 implies integrated(
                    dynamics,
                    stage,
                    old(self).bodies().body(ids@[k]).spec_is_static(),
                    old(self).state(#[trigger] ids@[k]),
                    self.state(ids@[k]),
                ) by {
                    if k < i {
                        assert(ids@[k] != id);
                        assert(self.state(ids@[k]) == before.state(ids@[k]));
                    } else {
                        assert(before.state(id) == old(self).state(id));
                        assert(before.bodies().body(id).spec_is_static() == old(
                            self,
                        ).bodies().body(id).spec_is_static());
                    }
                }
            }
            i += 1;
        }
        proof {
            assert forall|id: BodyId| #[trigger] old(self).bodies().contains(id) implies integrated(
                dynamics,
                stage,
                old(self).bodies().body(id).spec_is_static(),
                old(self).state(id),
                self.state(id),
            ) by {
                assert(ids@.contains(id));
                let k = choose|k: int| 0 <= k < ids@.len() && ids@[k] == id;
                assert(ids@[k] == id);
            }
        }
    }

    /// The states of the bodies after two of them got other states.
    proof fn lemma_states_replaced(&self, now: &World<S, C, J>, pair: BodyPair, a: S, b: S)
        requires
            self.bodies().contains(pair.0),
            self.bodies().contains(pair.1),
            pair.0 != pair.1,
            now.bodies()@ == self.bodies().with_states(pair.0, a, pair.1, b),
        ensures
            now.states() == self.states().insert(pair.0, a).insert(pair.1, b),
            now.state(pair.0) == a,
            now.state(pair.1) == b,
            forall|j: BodyId| #[trigger]
                self.bodies().contains(j) ==> now.bodies().contains(j) && now.bounds_of(j)
                    == self.bounds_of(j),
    {
        let x = self.bodies().body(pair.0);
        let y = self.bodies().body(pair.1);
        Body::lemma_make(pair.0, x.spec_proxy_id(), x.spec_bounds(), x.spec_is_static(), a);
        Body::lemma_make(pair.1, y.spec_proxy_id(), y.spec_bounds(), y.spec_is_static(), b);
        assert(now.states() =~= self.states().insert(pair.0, a).insert(pair.1, b));
    }

    /// The set of the bodies that never move is kept with the frame.
    proof fn lemma_fixed(&self, pre: &World<S, C, J>)
        requires
            same_frame(self.bodies()@, pre.bodies()@),
        ensures
            self.fixed() == pre.fixed(),
    {
        assert forall|id: BodyId| self.fixed().contains(id) == pre.fixed().contains(id) by {
            assert(has(self.bodies()@, id) == has(pre.bodies()@, id));
        }
        assert(self.fixed() =~= pre.fixed());
    }

    /// Whether `self` is `pre` after a stage of the solver on the contact
    /// constraints: see [`Self::run_contacts`].
    pub open spec fn contacts_run<D: Dynamics<S, C, J>>(
        &self,
        pre: &World<S, C, J>,
        stage: Stage,
        dynamics: &D,
    ) -> bool {
        &&& self.continues(pre)
        &&& self.broad_phase() == pre.broad_phase()
        &&& self.joints() == pre.joints()
        &&& self.contacts().dom() == pre.contacts().dom()
        &&& self.same_boxes(pre)
        &&& self.keeps_fixed(pre)
        &&& pairs_done(
            contact_rule(dynamics, stage),
            pre.contact_scene(),
            self.contact_scene(),
            listing(pre.contacts().dom()),
        )
    }

    /// Whether `self` is `pre` after a stage of the solver on the joints:
    /// see [`Self::run_joints`].
    pub open spec fn joints_run<D: Dynamics<S, C, J>>(
        &self,
        pre: &World<S, C, J>,
        stage: Stage,
        dynamics: &D,
    ) -> bool {
        &&& self.continues(pre)
        &&& self.broad_phase() == pre.broad_phase()
        &&& self.contacts() == pre.contacts()
        &&& self.joints().dom() == pre.joints().dom()
        &&& self.same_boxes(pre)
        &&& self.keeps_fixed(pre)
        &&& pairs_done(
            joint_rule(dynamics, stage),
            pre.joint_scene(),
            self.joint_scene(),
            listing(pre.joints().dom()),
        )
    }

    /// A stage of the solver on the contact constraints: `dynamics` works
    /// on every constraint with the two bodies of its pair, pair by pair
    /// in the order of their ids and constraint by constraint in the order
    /// of the list. Each piece of work starts from what the one before has
    /// left, and at each stage `dynamics` is asked for the work of that
    /// stage. A body that never moves keeps its state, whatever `dynamics`
    /// makes of it. The boxes of the bodies and everything else stay as
    /// they are.
    pub fn run_contacts<D: Dynamics<S, C, J>>(&mut self, stage: Stage, dynamics: &D)
        requires
            old(self).wf(),
        ensures
            final(self).contacts_run(old(self), stage, dynamics),
    {
        let pairs = self.contact_pairs();
        let ghost rule = contact_rule::<S, C, J, D>(dynamics, stage);
        let ghost first = self.contact_scene();
        let mut i: usize = 0;
        proof {
            self.lemma_continues_refl();
            lemma_listing(pairs@, self.contacts().dom());
        }
        while i < pairs.len()
            invariant
                i <= pairs@.len(),
                forall|p: BodyPair| pairs@.contains(p) <==> old(self).contacts().contains_key(p),
                self.continues(old(self)),
                self.broad_phase() == old(self).broad_phase(),
                self.joints() == old(self).joints(),
                self.contacts().dom() == old(self).contacts().dom(),
                self.same_boxes(old(self)),
                self.keeps_fixed(old(self)),
                rule == contact_rule::<S, C, J, D>(dynamics, stage),
                first == old(self).contact_scene(),
                pairs_done(rule, first, self.contact_scene(), pairs@.take(i as int)),
            decreases pairs@.len() - i,
        {
            let pair = pairs[i];
            proof {
                assert(pairs@.contains(pairs@[i as int]));
                assert(self.contacts().dom().contains(pair));
                assert(has(self.bodies()@, pair.0) && has(self.bodies()@, pair.1));
            }
            let ghost start = *self;
            let ghost begun = self.contact_scene();
            let taken = self.remove_contacts(pair);
            let mut list = taken.unwrap();
            let ghost mut cur = begun;
            let mut k: usize = 0;
            proof {
                assert(begun.lists.insert(pair, list@) =~= begun.lists);
            }
            while k < list.len()
                invariant
                    k <= list@.len(),
                    list@.len() == begun.lists[pair].len(),
                    pair.0 < pair.1,
                    self.bodies().contains(pair.0),
                    self.bodies().contains(pair.1),
                    old(self).bodies().contains(pair.0),
                    old(self).bodies().contains(pair.1),
                    self.wf(),
                    same_frame(self.bodies()@, old(self).bodies()@),
                    self.bodies().spec_len() == old(self).bodies().spec_len(),
                    self.same_settings(old(self)),
                    self.broad_phase() == old(self).broad_phase(),
                    self.joints() == old(self).joints(),
                    self.contacts() == start.contacts().remove(pair),
                    self.same_boxes(old(self)),
                    self.keeps_fixed(old(self)),
                    begun.lists == views(start.contacts()),
                    begun.lists.contains_key(pair),
                    cur.states == self.states(),
                    cur.fixed == self.fixed(),
                    cur.lists == begun.lists.insert(pair, list@),
                    list_done(rule, begun, cur, pair, k as nat),
                    rule == contact_rule::<S, C, J, D>(dynamics, stage),
                decreases list@.len() - k,
            {
                let ghost before = *self;
                let made = {
                    let c = &list[k];
                    let a = self.get_body(pair.0).state();
                    let b = self.get_body(pair.1).state();
                    match stage {
                        Stage::InitializeContacts => dynamics.initialize_contact(c, a, b),
                        Stage::WarmStartContacts => dynamics.warm_start_contact(c, a, b),
                        Stage::SolveContactsVelocity => dynamics.solve_contact_velocity(c, a, b),
                        Stage::WarmStartPositions => dynamics.warm_start_contact_position(c, a, b),
                        _ => dynamics.solve_contact_position(c, a, b),
                    }
                };
                let ghost out = made;
                let first_fixed = self.get_body(pair.0).is_static();
                let second_fixed = self.get_body(pair.1).is_static();
                let (c, a, b) = made;
                list[k] = c;
                let (first_state, second_state) = self.pair_mut(pair);
                if !first_fixed {
                    *first_state = a;
                }
                if !second_fixed {
                    *second_state = b;
                }
                proof {
                    let x = kept(first_fixed, before.state(pair.0), out.1);
                    let y = kept(second_fixed, before.state(pair.1), out.2);
                    lemma_frame_twice(self.bodies()@, before.bodies()@, old(self).bodies()@);
                    assert(has(self.bodies()@, pair.0) && has(self.bodies()@, pair.1));
                    before.lemma_states_replaced(self, pair, x, y);
                    self.lemma_fixed(&before);
                    assert forall|j: BodyId| #[trigger] old(self).bodies().contains(j) implies self.bounds_of(
                        j,
                    ) == old(self).bounds_of(j) by {
                        assert(before.bounds_of(j) == old(self).bounds_of(j));
                    }
                    assert(self.keeps_fixed(old(self))) by {
                        assert(has(old(self).bodies()@, pair.0) && has(old(self).bodies()@, pair.1));
                        assert forall|j: BodyId| #[trigger]
                            old(self).bodies().contains(j) && old(self).bodies().body(
                                j,
                            ).spec_is_static() implies self.state(j) == old(self).state(j) by {
                            assert(has(old(self).bodies()@, j));
                            assert(before.state(j) == old(self).state(j));
                        }
                    }
                    let next = Scene {
                        states: self.states(),
                        fixed: self.fixed(),
                        lists: begun.lists.insert(pair, list@),
                    };
                    assert(next.lists =~= cur.lists.insert(
                        pair,
                        cur.lists[pair].update(k as int, out.0),
                    ));
                    assert(applied_with(rule, cur, next, pair, k as int, out));
                    lemma_list_step(rule, begun, cur, next, pair, k as nat);
                    cur = next;
                }
                k += 1;
            }
            self.insert_contacts(pair, list);
            proof {
                assert(self.contacts().dom() =~= old(self).contacts().dom());
                assert(views(self.contacts()) =~= cur.lists);
                assert(cur.states == self.states());
                assert(cur.fixed == self.fixed());
                assert(cur.lists == self.contact_scene().lists);
                assert(cur =~= self.contact_scene());
                assert(pairs@.take(i + 1).drop_last() =~= pairs@.take(i as int));
                assert(pairs@.take(i + 1).last() == pair);
                lemma_pairs_step(rule, first, begun, cur, pairs@.take(i + 1));
            }
            i += 1;
        }
        proof {
            assert(pairs@.take(pairs@.len() as int) =~= pairs@);
        }
    }

    /// A stage of the solver on the joints: `dynamics` works on every
    /// joint with the two bodies of its pair, pair by pair in the order of
    /// their ids and joint by joint in the order of the list. Each piece of
    /// work starts from what the one before has left, and at each stage
    /// `dynamics` is asked for the work of that stage. A body that never
    /// moves keeps its state, whatever `dynamics` makes of it. The boxes of
    /// the bodies and everything else stay as they are.
    pub fn run_joints<D: Dynamics<S, C, J>>(&mut self, stage: Stage, dynamics: &D)
        requires
            old(self).wf(),
        ensures
            final(self).joints_run(old(self), stage, dynamics),
    {
        let pairs = self.joint_pairs();
        let ghost rule = joint_rule::<S, C, J, D>(dynamics, stage);
        let ghost first = self.joint_scene();
        let mut i: usize = 0;
        proof {
            self.lemma_continues_refl();
            lemma_listing(pairs@, self.joints().dom());
        }
        while i < pairs.len()
            invariant
                i <= pairs@.len(),
                forall|p: BodyPair| pairs@.contains(p) <==> old(self).joints().contains_key(p),
                self.continues(old(self)),
                self.broad_phase() == old(self).broad_phase(),
                self.contacts() == old(self).contacts(),
                self.joints().dom() == old(self).joints().dom(),
                self.same_boxes(old(self)),
                self.keeps_fixed(old(self)),
                rule == joint_rule::<S, C, J, D>(dynamics, stage),
                first == old(self).joint_scene(),
                pairs_done(rule, first, self.joint_scene(), pairs@.take(i as int)),
            decreases pairs@.len() - i,
        {
            let pair = pairs[i];
            proof {
                assert(pairs@.contains(pairs@[i as int]));
                assert(self.joints().dom().contains(pair));
                assert(has(self.bodies()@, pair.0) && has(self.bodies()@, pair.1));
            }
            let ghost start = *self;
            let ghost begun = self.joint_scene();
            let taken = self.remove_joints(pair);
            let mut list = taken.unwrap();
            let ghost mut cur = begun;
            let mut k: usize = 0;
            proof {
                assert(begun.lists.insert(pair, list@) =~= begun.lists);
            }
            while k < list.len()
                invariant
                    k <= list@.len(),
                    list@.len() == begun.lists[pair].len(),
                    pair.0 < pair.1,
                    self.bodies().contains(pair.0),
                    self.bodies().contains(pair.1),
                    old(self).bodies().contains(pair.0),
                    old(self).bodies().contains(pair.1),
                    self.wf(),
                    same_frame(self.bodies()@, old(self).bodies()@),
                    self.bodies().spec_len() == old(self).bodies().spec_len(),
                    self.same_settings(old(self)),
                    self.broad_phase() == old(self).broad_phase(),
                    self.contacts() == old(self).contacts(),
                    self.joints() == start.joints().remove(pair),
                    self.same_boxes(old(self)),
                    self.keeps_fixed(old(self)),
                    begun.lists == views(start.joints()),
                    begun.lists.contains_key(pair),
                    cur.states == self.states(),
                    cur.fixed == self.fixed(),
                    cur.lists == begun.lists.insert(pair, list@),
                    list_done(rule, begun, cur, pair, k as nat),
                    rule == joint_rule::<S, C, J, D>(dynamics, stage),
                decreases list@.len() - k,
            {
                let ghost before = *self;
                let made = {
                    let j = &list[k];
                    let a = self.get_body(pair.0).state();
                    let b = self.get_body(pair.1).state();
                    match stage {
                        Stage::InitializeJoints => dynamics.initialize_joint(j, a, b),
                        Stage::WarmStartJoints => dynamics.warm_start_joint(j, a, b),
                        Stage::SolveJointsVelocity => dynamics.solve_joint_velocity(j, a, b),
                        _ => dynamics.solve_joint_position(j, a, b),
                    }
                };
                let ghost out = made;
                let first_fixed = self.get_body(pair.0).is_static();
                let second_fixed = self.get_body(pair.1).is_static();
                let (c, a, b) = made;
                list[k] = c;
                let (first_state, second_state) = self.pair_mut(pair);
                if !first_fixed {
                    *first_state = a;
                }
                if !second_fixed {
                    *second_state = b;
                }
                proof {
                    let x = kept(first_fixed, before.state(pair.0), out.1);
                    let y = kept(second_fixed, before.state(pair.1), out.2);
                    lemma_frame_twice(self.bodies()@, before.bodies()@, old(self).bodies()@);
                    assert(has(self.bodies()@, pair.0) && has(self.bodies()@, pair.1));
                    before.lemma_states_replaced(self, pair, x, y);
                    self.lemma_fixed(&before);
                    assert forall|j: BodyId| #[trigger] old(self).bodies().contains(j) implies self.bounds_of(
                        j,
                    ) == old(self).bounds_of(j) by {
                        assert(before.bounds_of(j) == old(self).bounds_of(j));
                    }
                    assert(self.keeps_fixed(old(self))) by {
                        assert(has(old(self).bodies()@, pair.0) && has(old(self).bodies()@, pair.1));
                        assert forall|j: BodyId| #[trigger]
                            old(self).bodies().contains(j) && old(self).bodies().body(
                                j,
                            ).spec_is_static() implies self.state(j) == old(self).state(j) by {
                            assert(has(old(self).bodies()@, j));
                            assert(before.state(j) == old(self).state(j));
                        }
                    }
                    let next = Scene {
                        states: self.states(),
                        fixed: self.fixed(),
                        lists: begun.lists.insert(pair, list@),
                    };
                    assert(next.lists =~= cur.lists.insert(
                        pair,
                        cur.lists[pair].update(k as int, out.0),
                    ));
                    assert(applied_with(rule, cur, next, pair, k as int, out));
                    lemma_list_step(rule, begun, cur, next, pair, k as nat);
                    cur = next;
                }
                k += 1;
            }
            self.insert_joints(pair, list);
            proof {
                assert(self.joints().dom() =~= old(self).joints().dom());
                assert(views(self.joints()) =~= cur.lists);
                assert(cur.states == self.states());
                assert(cur.fixed == self.fixed());
                assert(cur.lists == self.joint_scene().lists);
                assert(cur =~= self.joint_scene());
                assert(pairs@.take(i + 1).drop_last() =~= pairs@.take(i as int));
                assert(pairs@.take(i + 1).last() == pair);
                lemma_pairs_step(rule, first, begun, cur, pairs@.take(i + 1));
            }
            i += 1;
        }
        proof {
            assert(pairs@.take(pairs@.len() as int) =~= pairs@);
        }
    }
}

} // verus!
