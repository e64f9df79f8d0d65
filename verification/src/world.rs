//! The world: the bodies, their proxies, their constraints, and the order
//! in which a step of the simulation treats them.
//!
//! The world does the bookkeeping of a step. The numeric work of a step is
//! that of a [`Dynamics`], which the world calls stage by stage, in the
//! order of [`step_plan`].

use crate::body::{slots_wf, lemma_slots_replace, Bodies, Body, BodyId, BodyPair, ProxyId};
use crate::bounds_tree::BoundsTree;
use crate::broad_phase::{BoundsTreeBroadPhase, EXPANSION_PERCENT};
use crate::constraints::{grown, ConstraintsMap};
use crate::math::Bounds;
use vstd::prelude::*;

verus! {

/// One stage of a step of the simulation.
#[derive(Copy, Clone, PartialEq, Eq, Debug, Structural)]
pub enum Stage {
    /// Every body gets the box of its shape where it is now, and its proxy
    /// is brought up to date.
    UpdateBounds,
    /// The pairs whose boxes no longer meet lose their contacts.
    PruneSeparated,
    /// The broad phase adds the pairs that have newly come close.
    FindPairs,
    /// Every pair gets the contacts that its shapes have now, and is
    /// dropped if they have none.
    NarrowPhase,
    /// Forces become velocities, and are cleared.
    IntegrateForces,
    /// Every contact constraint is set up for the velocity iterations.
    InitializeContacts,
    /// Every contact constraint applies the impulses that it has kept.
    WarmStartContacts,
    /// Every joint is set up for the velocity iterations.
    InitializeJoints,
    /// Every joint applies the impulse that it has kept.
    WarmStartJoints,
    /// One velocity iteration over the joints.
    SolveJointsVelocity,
    /// One velocity iteration over the contact constraints.
    SolveContactsVelocity,
    /// Velocities become positions.
    IntegrateVelocities,
    /// Every contact constraint is set up for the position iterations.
    WarmStartPositions,
    /// One position iteration over the joints.
    SolveJointsPosition,
    /// One position iteration over the contact constraints.
    SolveContactsPosition,
}

/// `n` times the two stages `first` and `second`.
pub open spec fn repeated(n: nat, first: Stage, second: Stage) -> Seq<Stage>
    decreases n,
{
    if n == 0 {
        Seq::empty()
    } else {
        repeated((n - 1) as nat, first, second).push(first).push(second)
    }
}

/// What comes before the velocity iterations.
pub open spec fn prelude_stages() -> Seq<Stage> {
    seq![
        Stage::UpdateBounds,
        Stage::PruneSeparated,
        Stage::FindPairs,
        Stage::NarrowPhase,
        Stage::IntegrateForces,
        Stage::InitializeContacts,
        Stage::WarmStartContacts,
        Stage::InitializeJoints,
        Stage::WarmStartJoints,
    ]
}

/// The stages of one step, in order. In every iteration the joints are
/// solved before the contacts.
pub open spec fn plan(velocity_iterations: nat, position_iterations: nat) -> Seq<Stage> {
    prelude_stages() + repeated(
        velocity_iterations,
        Stage::SolveJointsVelocity,
        Stage::SolveContactsVelocity,
    ) + seq![Stage::IntegrateVelocities, Stage::WarmStartPositions] + repeated(
        position_iterations,
        Stage::SolveJointsPosition,
        Stage::SolveContactsPosition,
    )
}

/// The stages of one step, in order.
pub fn step_plan(velocity_iterations: u8, position_iterations: u8) -> (r: Vec<Stage>)
    ensures
        r@ == plan(velocity_iterations as nat, position_iterations as nat),
{
    let mut r: Vec<Stage> = Vec::new();
    r.push(Stage::UpdateBounds);
    r.push(Stage::PruneSeparated);
    r.push(Stage::FindPairs);
    r.push(Stage::NarrowPhase);
    r.push(Stage::IntegrateForces);
    r.push(Stage::InitializeContacts);
    r.push(Stage::WarmStartContacts);
    r.push(Stage::InitializeJoints);
    r.push(Stage::WarmStartJoints);
    assert(r@ =~= prelude_stages());
    let mut i: u8 = 0;
    assert(r@ =~= prelude_stages() + repeated(
        0,
        Stage::SolveJointsVelocity,
        Stage::SolveContactsVelocity,
    ));
    while i < velocity_iterations
        invariant
            i <= velocity_iterations,
            r@ == prelude_stages() + repeated(
                i as nat,
                Stage::SolveJointsVelocity,
                Stage::SolveContactsVelocity,
            ),
        decreases velocity_iterations - i,
    {
        r.push(Stage::SolveJointsVelocity);
        r.push(Stage::SolveContactsVelocity);
        i += 1;
        assert(r@ =~= prelude_stages() + repeated(
            i as nat,
            Stage::SolveJointsVelocity,
            Stage::SolveContactsVelocity,
        ));
    }
    r.push(Stage::IntegrateVelocities);
    r.push(Stage::WarmStartPositions);
    let ghost head = prelude_stages() + repeated(
        velocity_iterations as nat,
        Stage::SolveJointsVelocity,
        Stage::SolveContactsVelocity,
    ) + seq![Stage::IntegrateVelocities, Stage::WarmStartPositions];
    assert(r@ =~= head + repeated(0, Stage::SolveJointsPosition, Stage::SolveContactsPosition));
    let mut j: u8 = 0;
    while j < position_iterations
        invariant
            j <= position_iterations,
            head == prelude_stages() + repeated(
                velocity_iterations as nat,
                Stage::SolveJointsVelocity,
                Stage::SolveContactsVelocity,
            ) + seq![Stage::IntegrateVelocities, Stage::WarmStartPositions],
            r@ == head + repeated(
                j as nat,
                Stage::SolveJointsPosition,
                Stage::SolveContactsPosition,
            ),
        decreases position_iterations - j,
    {
        r.push(Stage::SolveJointsPosition);
        r.push(Stage::SolveContactsPosition);
        j += 1;
        assert(r@ =~= head + repeated(
            j as nat,
            Stage::SolveJointsPosition,
            Stage::SolveContactsPosition,
        ));
    }
    r
}

/// A step has nine stages before the iterations, two for each iteration,
/// and two between the velocity and the position iterations.
pub proof fn lemma_plan_len(velocity_iterations: nat, position_iterations: nat)
    ensures
        plan(velocity_iterations, position_iterations).len() == 11 + 2 * velocity_iterations + 2
            * position_iterations,
{
    lemma_repeated_len(
        velocity_iterations,
        Stage::SolveJointsVelocity,
        Stage::SolveContactsVelocity,
    );
    lemma_repeated_len(
        position_iterations,
        Stage::SolveJointsPosition,
        Stage::SolveContactsPosition,
    );
}

proof fn lemma_repeated_len(n: nat, first: Stage, second: Stage)
    ensures
        repeated(n, first, second).len() == 2 * n,
    decreases n,
{
    if n > 0 {
        lemma_repeated_len((n - 1) as nat, first, second);
    }
}

/// Whether slot `id` of `slots` holds a body.
pub open spec fn has<S>(slots: Seq<Option<Body<S>>>, id: BodyId) -> bool {
    id < slots.len() && slots[id as int] is Some
}

/// Every body has a proxy of its own whose box contains the body's box,
/// every proxy is the proxy of a body, and the bodies that were inserted
/// anew are bodies still.
pub open spec fn proxies_ok<S>(slots: Seq<Option<Body<S>>>, broad_phase: BoundsTreeBroadPhase) -> bool {
    &&& forall|id: BodyId| #[trigger]
        has(slots, id) ==> {
            let b = slots[id as int]->0;
            &&& broad_phase.has_proxy(b.spec_proxy_id())
            &&& broad_phase.proxy_body(b.spec_proxy_id()) == id
            &&& broad_phase.proxy_bounds(b.spec_proxy_id()).spec_contains(b.spec_bounds())
        }
    &&& forall|p: ProxyId| #[trigger]
        broad_phase.has_proxy(p) ==> has(slots, broad_phase.proxy_body(p))
            && slots[broad_phase.proxy_body(p) as int]->0.spec_proxy_id() == p
    &&& forall|i: int|
        0 <= i < broad_phase.reinserted().len() ==> has(
            slots,
            #[trigger] broad_phase.reinserted()[i],
        )
}

/// Every pair that has a list names two bodies, the one with the smaller id first.
pub open spec fn pairs_ok<S, T>(slots: Seq<Option<Body<S>>>, lists: Map<BodyPair, Vec<T>>) -> bool {
    forall|p: BodyPair| #[trigger]
        lists.contains_key(p) ==> has(slots, p.0) && has(slots, p.1) && p.0 < p.1
}

/// What keeps a world sound.
pub open spec fn world_wf<S, C, J>(
    slots: Seq<Option<Body<S>>>,
    len: usize,
    broad_phase: BoundsTreeBroadPhase,
    contacts: Map<BodyPair, Vec<C>>,
    joints: Map<BodyPair, Vec<J>>,
) -> bool {
    &&& slots_wf(slots, len)
    &&& broad_phase.wf()
    &&& proxies_ok(slots, broad_phase)
    &&& pairs_ok(slots, contacts)
    &&& pairs_ok(slots, joints)
}

/// `now` holds the bodies of `before` under the same ids, each with the
/// proxy that it had and as movable as it was.
pub open spec fn same_frame<S>(
    now: Seq<Option<Body<S>>>,
    before: Seq<Option<Body<S>>>,
) -> bool {
    &&& now.len() == before.len()
    &&& forall|id: BodyId| #[trigger] has(now, id) == has(before, id)
    &&& forall|id: BodyId| #[trigger]
        has(before, id) ==> {
            &&& now[id as int]->0.spec_id() == before[id as int]->0.spec_id()
            &&& now[id as int]->0.spec_proxy_id() == before[id as int]->0.spec_proxy_id()
            &&& now[id as int]->0.spec_is_static() == before[id as int]->0.spec_is_static()
        }
}

/// Replacing a body by one with the same id, proxy and mobility keeps the frame.
pub proof fn lemma_frame_replace<S>(slots: Seq<Option<Body<S>>>, id: BodyId, body: Body<S>)
    requires
        has(slots, id),
        body.spec_id() == slots[id as int]->0.spec_id(),
        body.spec_proxy_id() == slots[id as int]->0.spec_proxy_id(),
        body.spec_is_static() == slots[id as int]->0.spec_is_static(),
    ensures
        same_frame(slots.update(id as int, Some(body)), slots),
{
    let now = slots.update(id as int, Some(body));
    assert forall|j: BodyId| #[trigger] has(now, j) == has(slots, j) by {}
}

/// Keeping the frame twice is keeping it.
pub proof fn lemma_frame_twice<S>(
    last: Seq<Option<Body<S>>>,
    mid: Seq<Option<Body<S>>>,
    first: Seq<Option<Body<S>>>,
)
    requires
        same_frame(last, mid),
        same_frame(mid, first),
    ensures
        same_frame(last, first),
{
    assert forall|id: BodyId| #[trigger] has(last, id) == has(first, id) by {
        assert(has(last, id) == has(mid, id));
    }
    assert forall|id: BodyId| #[trigger] has(first, id) implies {
        &&& last[id as int]->0.spec_id() == first[id as int]->0.spec_id()
        &&& last[id as int]->0.spec_proxy_id() == first[id as int]->0.spec_proxy_id()
        &&& last[id as int]->0.spec_is_static() == first[id as int]->0.spec_is_static()
    } by {
        assert(has(mid, id));
    }
}

/// The numeric side of a step: what only arithmetic on the state of the
/// bodies can tell or do. The world calls it stage by stage.
pub trait Dynamics<S, C, J> {
    /// The box of a body in the state `state`.
    fn bounds(&self, state: &S) -> Bounds;

    /// The contact constraints of two bodies whose boxes meet and whose
    /// pair has no constraints yet, or `None` where the bodies do not
    /// touch.
    fn collide(&self, a: &S, b: &S) -> Option<Vec<C>>;

    /// The contact constraints of two bodies whose pair has the
    /// constraints `old` from the step before, or `None` where the bodies
    /// no longer touch.
    fn collide_again(&self, a: &S, b: &S, old: &Vec<C>) -> Option<Vec<C>>;

    /// Turns the forces on a body into velocity: the state of the body
    /// afterwards.
    fn integrate_forces(&self, state: &S) -> S;

    /// Turns the velocity of a body into position: the state of the body
    /// afterwards.
    fn integrate_velocities(&self, state: &S) -> S;

    /// Prepares a contact constraint between two bodies for the solver:
    /// the constraint and the states of the two bodies afterwards, as for
    /// every method that follows.
    fn initialize_contact(&self, constraint: &C, a: &S, b: &S) -> (C, S, S);

    /// Applies what a contact constraint has kept from the step before.
    fn warm_start_contact(&self, constraint: &C, a: &S, b: &S) -> (C, S, S);

    /// Solves a contact constraint for the velocities of the two bodies.
    fn solve_contact_velocity(&self, constraint: &C, a: &S, b: &S) -> (C, S, S);

    /// Prepares a contact constraint for the correction of the positions.
    fn warm_start_contact_position(&self, constraint: &C, a: &S, b: &S) -> (C, S, S);

    /// Solves a contact constraint for the positions of the two bodies.
    fn solve_contact_position(&self, constraint: &C, a: &S, b: &S) -> (C, S, S);

    /// Prepares a joint between two bodies for the solver.
    fn initialize_joint(&self, joint: &J, a: &S, b: &S) -> (J, S, S);

    /// Applies what a joint has kept from the step before.
    fn warm_start_joint(&self, joint: &J, a: &S, b: &S) -> (J, S, S);

    /// Solves a joint for the velocities of the two bodies.
    fn solve_joint_velocity(&self, joint: &J, a: &S, b: &S) -> (J, S, S);

    /// Solves a joint for the positions of the two bodies.
    fn solve_joint_position(&self, joint: &J, a: &S, b: &S) -> (J, S, S);
}

/// A world of bodies with the solver's state `S`, contact constraints `C`
/// and joints `J`.
pub struct World<S, C, J> {
    bodies: Bodies<S>,
    broad_phase: BoundsTreeBroadPhase,
    contact_constraints: ConstraintsMap<C>,
    joints: ConstraintsMap<J>,
    velocity_iterations: u8,
    position_iterations: u8,
}

impl<S, C, J> World<S, C, J> {
    /// The bodies.
    pub closed spec fn bodies(&self) -> Bodies<S> {
        self.bodies
    }

    /// The broad phase.
    pub closed spec fn broad_phase(&self) -> BoundsTreeBroadPhase {
        self.broad_phase
    }

    /// The contact constraints by pair.
    pub closed spec fn contacts(&self) -> Map<BodyPair, Vec<C>> {
        self.contact_constraints@
    }

    /// The joints by pair.
    pub closed spec fn joints(&self) -> Map<BodyPair, Vec<J>> {
        self.joints@
    }

    /// How often a step solves the velocity constraints.
    pub closed spec fn spec_velocity_iterations(&self) -> u8 {
        self.velocity_iterations
    }

    /// How often a step solves the position constraints.
    pub closed spec fn spec_position_iterations(&self) -> u8 {
        self.position_iterations
    }

    /// The two maps of constraints are sound.
    pub closed spec fn maps_wf(&self) -> bool {
        self.contact_constraints.wf() && self.joints.wf()
    }

    /// The world is sound: see [`world_wf`].
    pub open spec fn wf(&self) -> bool {
        &&& self.maps_wf()
        &&& world_wf(
            self.bodies()@,
            self.bodies().spec_len(),
            self.broad_phase(),
            self.contacts(),
            self.joints(),
        )
    }

    /// `self` differs from `pre` in its bodies at most.
    pub open spec fn same_but_bodies(&self, pre: &World<S, C, J>) -> bool {
        &&& self.broad_phase() == pre.broad_phase()
        &&& self.contacts() == pre.contacts()
        &&& self.joints() == pre.joints()
        &&& self.spec_velocity_iterations() == pre.spec_velocity_iterations()
        &&& self.spec_position_iterations() == pre.spec_position_iterations()
        &&& self.maps_wf() == pre.maps_wf()
    }

    /// Containment: in a sound world, and so between any two calls of its
    /// functions, every body has a proxy of its own, and the box of the
    /// proxy contains the box of the body.
    pub proof fn lemma_proxy_contains_body(&self, id: BodyId)
        requires
            self.wf(),
            self.bodies().contains(id),
        ensures
            self.broad_phase().has_proxy(self.bodies().body(id).spec_proxy_id()),
            self.broad_phase().proxy_body(self.bodies().body(id).spec_proxy_id()) == id,
            self.broad_phase().proxy_bounds(self.bodies().body(id).spec_proxy_id()).spec_contains(
                self.bodies().body(id).spec_bounds(),
            ),
    {
        assert(has(self.bodies()@, id));
    }

    /// The proxy of the body named `id`.
    pub open spec fn proxy_of(&self, id: BodyId) -> ProxyId {
        self.bodies().body(id).spec_proxy_id()
    }

    /// The box of the proxy of the body named `id`.
    pub open spec fn proxy_box(&self, id: BodyId) -> Bounds {
        self.broad_phase().proxy_bounds(self.proxy_of(id))
    }

    /// `self` takes as many iterations a step as `pre`.
    pub open spec fn same_settings(&self, pre: &World<S, C, J>) -> bool {
        &&& self.spec_velocity_iterations() == pre.spec_velocity_iterations()
        &&& self.spec_position_iterations() == pre.spec_position_iterations()
    }

    /// A world without bodies.
    pub fn new(velocity_iterations: u8, position_iterations: u8) -> (r: World<S, C, J>)
        ensures
            r.wf(),
            r.bodies()@.len() == 0,
            r.contacts() == Map::<BodyPair, Vec<C>>::empty(),
            r.joints() == Map::<BodyPair, Vec<J>>::empty(),
            r.spec_velocity_iterations() == velocity_iterations,
            r.spec_position_iterations() == position_iterations,
    {
        let r = World {
            bodies: Bodies::new(),
            broad_phase: BoundsTreeBroadPhase::new(),
            contact_constraints: ConstraintsMap::new(),
            joints: ConstraintsMap::new(),
            velocity_iterations,
            position_iterations,
        };
        proof {
            assert(r.contacts() =~= Map::<BodyPair, Vec<C>>::empty());
            assert(r.joints() =~= Map::<BodyPair, Vec<J>>::empty());
        }
        r
    }

    /// How often a step solves the velocity constraints.
    pub fn velocity_iterations(&self) -> (r: u8)
        ensures
            r == self.spec_velocity_iterations(),
    {
        self.velocity_iterations
    }

    /// How often a step solves the position constraints.
    pub fn position_iterations(&self) -> (r: u8)
        ensures
            r == self.spec_position_iterations(),
    {
        self.position_iterations
    }

    /// The stages of one step of this world, in order.
    pub fn step_plan(&self) -> (r: Vec<Stage>)
        ensures
            r@ == plan(
                self.spec_velocity_iterations() as nat,
                self.spec_position_iterations() as nat,
            ),
    {
        step_plan(self.velocity_iterations, self.position_iterations)
    }

    /// Number of bodies.
    pub fn body_count(&self) -> (r: usize)
        ensures
            r == self.bodies().spec_len(),
    {
        self.bodies.len()
    }

    /// Whether `body_id` names a body of the world.
    pub fn contains_body(&self, body_id: BodyId) -> (r: bool)
        ensures
            r == self.bodies().contains(body_id),
    {
        self.bodies.get(body_id).is_some()
    }

    /// The ids of the bodies, in ascending order.
    pub fn body_ids(&self) -> (r: Vec<BodyId>)
        ensures
            forall|id: BodyId| r@.contains(id) <==> self.bodies().contains(id),
            forall|i: int, j: int| 0 <= i < j < r@.len() ==> r@[i] < r@[j],
    {
        self.bodies.ids()
    }

    /// The body named `body_id`.
    pub fn get_body(&self, body_id: BodyId) -> (r: &Body<S>)
        requires
            self.bodies().contains(body_id),
        ensures
            *r == self.bodies().body(body_id),
    {
        self.bodies.index(body_id)
    }

    /// The box of the proxy of the body named `body_id`: it contains the
    /// box of the body.
    pub fn proxy_bounds(&self, body_id: BodyId) -> (r: Bounds)
        requires
            self.wf(),
            self.bodies().contains(body_id),
        ensures
            r == self.broad_phase().proxy_bounds(self.bodies().body(body_id).spec_proxy_id()),
            r.spec_contains(self.bodies().body(body_id).spec_bounds()),
    {
        proof {
            self.lemma_proxy_contains_body(body_id);
        }
        self.broad_phase.get_proxy_bounds(self.bodies.index(body_id).proxy_id())
    }

    /// Puts `body` into the world: it gets the first free id and a proxy,
    /// a new leaf of the tree with the box of the body grown by
    /// [`EXPANSION_PERCENT`]. The other bodies and their proxies, the
    /// record of the bodies inserted anew and the constraints stay as they
    /// are.
    pub fn add_body(&mut self, body: Body<S>) -> (id: BodyId)
        requires
            old(self).wf(),
        ensures
            final(self).wf(),
            final(self).same_settings(old(self)),
            id == old(self).bodies().first_free(),
            !old(self).bodies().contains(id),
            final(self).bodies().contains(id),
            final(self).bodies().body(id).spec_id() == id,
            final(self).bodies().body(id).spec_bounds() == body.spec_bounds(),
            final(self).bodies().body(id).spec_is_static() == body.spec_is_static(),
            final(self).bodies().body(id).spec_state() == body.spec_state(),
            final(self).bodies().spec_len() == old(self).bodies().spec_len() + 1,
            forall|j: BodyId| #[trigger]
                old(self).bodies().contains(j) ==> final(self).bodies().contains(j)
                    && final(self).bodies().body(j) == old(self).bodies().body(j),
            forall|j: BodyId| #[trigger]
                final(self).bodies().contains(j) ==> j == id || old(self).bodies().contains(j),
            final(self).contacts() == old(self).contacts(),
            final(self).joints() == old(self).joints(),
            final(self).proxy_of(id) == old(self).broad_phase().tree().next_id(),
            !old(self).broad_phase().has_proxy(final(self).proxy_of(id)),
            final(self).broad_phase().proxy_body(final(self).proxy_of(id)) == id,
            final(self).proxy_box(id).spec_min() == body.spec_bounds().spec_expand_by(
                EXPANSION_PERCENT,
            ).0,
            final(self).proxy_box(id).spec_max() == body.spec_bounds().spec_expand_by(
                EXPANSION_PERCENT,
            ).1,
            final(self).broad_phase().same_proxies_but(
                &old(self).broad_phase(),
                final(self).proxy_of(id),
            ),
            final(self).broad_phase().reinserted() == old(self).broad_phase().reinserted(),
            final(self).broad_phase().tree().is_insertion_of(
                &old(self).broad_phase().tree(),
                final(self).proxy_of(id),
                body.spec_bounds().spec_expanded(EXPANSION_PERCENT),
                id,
            ),
    {
        let id = self.bodies.next_id();
        let ghost given = body;
        let mut body = body;
        body.set_id(id);
        proof {
            Body::<S>::lemma_make(
                id,
                given.spec_proxy_id(),
                given.spec_bounds(),
                given.spec_is_static(),
                given.spec_state(),
            );
        }
        let proxy = self.broad_phase.create_proxy(&body);
        body.set_proxy_id(proxy);
        proof {
            Body::<S>::lemma_make(
                id,
                proxy,
                given.spec_bounds(),
                given.spec_is_static(),
                given.spec_state(),
            );
        }
        let ghost placed = body;
        let added = self.bodies.add(body);
        proof {
            let slots = self.bodies@;
            let pre = old(self).bodies@;
            placed.lemma_fields();
            assert(slots[id as int] == Some(placed));
            assert forall|j: BodyId| #[trigger] has(slots, j) implies {
                let b = slots[j as int]->0;
                &&& self.broad_phase.has_proxy(b.spec_proxy_id())
                &&& self.broad_phase.proxy_body(b.spec_proxy_id()) == j
                &&& self.broad_phase.proxy_bounds(b.spec_proxy_id()).spec_contains(b.spec_bounds())
            } by {
                if j != id {
                    assert(has(pre, j));
                    assert(slots[j as int] == pre[j as int]);
                    let pj = pre[j as int]->0.spec_proxy_id();
                    assert(old(self).broad_phase.has_proxy(pj));
                    assert(self.broad_phase.has_proxy(pj));
                }
            }
            assert forall|p: ProxyId| #[trigger] self.broad_phase.has_proxy(p) implies has(
                slots,
                self.broad_phase.proxy_body(p),
            ) && slots[self.broad_phase.proxy_body(p) as int]->0.spec_proxy_id() == p by {
                if p != proxy {
                    assert(old(self).broad_phase.has_proxy(p));
                    let j = old(self).broad_phase.proxy_body(p);
                    assert(has(pre, j));
                    assert(slots[j as int] == pre[j as int]);
                }
            }
            assert forall|i: int| 0 <= i < self.broad_phase.reinserted().len() implies has(
                slots,
                #[trigger] self.broad_phase.reinserted()[i],
            ) by {
                let j = old(self).broad_phase.reinserted()[i];
                assert(has(pre, j));
            }
            assert forall|p: BodyPair| #[trigger] self.contacts().contains_key(p) implies has(
                slots,
                p.0,
            ) && has(slots, p.1) && p.0 < p.1 by {
                assert(has(pre, p.0) && has(pre, p.1));
            }
            assert forall|p: BodyPair| #[trigger] self.joints().contains_key(p) implies has(
                slots,
                p.0,
            ) && has(slots, p.1) && p.0 < p.1 by {
                assert(has(pre, p.0) && has(pre, p.1));
            }
        }
        added
    }

    /// What the solver keeps for the body named `body_id`, for writing.
    /// Nothing else changes.
    pub fn get_body_mut(&mut self, body_id: BodyId) -> (r: &mut S)
        requires
            old(self).wf(),
            old(self).bodies().contains(body_id),
        ensures
            *r == old(self).bodies().body(body_id).spec_state(),
            final(self).bodies()@ == old(self).bodies().with_state(body_id, *final(r)),
            final(self).bodies().spec_len() == old(self).bodies().spec_len(),
            final(self).same_but_bodies(old(self)),
            final(self).wf(),
            final(self).same_settings(old(self)),
            same_frame(final(self).bodies()@, old(self).bodies()@),
    {
        proof {
            assert forall|v: S| #[trigger]
                world_wf(
                    self.bodies.with_state(body_id, v),
                    self.bodies.spec_len(),
                    self.broad_phase,
                    self.contacts(),
                    self.joints(),
                ) by {
                self.lemma_with_state(body_id, v);
            }
            assert forall|v: S| #[trigger]
                same_frame(self.bodies.with_state(body_id, v), self.bodies@) by {
                self.lemma_with_state(body_id, v);
            }
        }
        self.bodies.state_mut(body_id)
    }

    /// A world stays sound when a body gets another state.
    proof fn lemma_with_state(&self, id: BodyId, v: S)
        requires
            self.wf(),
            self.bodies().contains(id),
        ensures
            world_wf(
                self.bodies().with_state(id, v),
                self.bodies().spec_len(),
                self.broad_phase(),
                self.contacts(),
                self.joints(),
            ),
            same_frame(self.bodies().with_state(id, v), self.bodies()@),
    {
        let b = self.bodies.body(id);
        Body::<S>::lemma_make(id, b.spec_proxy_id(), b.spec_bounds(), b.spec_is_static(), v);
        assert(has(self.bodies@, id));
        lemma_frame_replace(
            self.bodies@,
            id,
            Body::make(id, b.spec_proxy_id(), b.spec_bounds(), b.spec_is_static(), v),
        );
        lemma_replace_body(
            self.bodies@,
            self.bodies.spec_len(),
            self.broad_phase,
            self.contacts(),
            self.joints(),
            id,
            Body::make(id, b.spec_proxy_id(), b.spec_bounds(), b.spec_is_static(), v),
        );
    }

    /// What the solver keeps for the two bodies of `pair`, for writing.
    /// Nothing else changes.
    pub fn pair_mut(&mut self, pair: BodyPair) -> (r: (&mut S, &mut S))
        requires
            old(self).wf(),
            old(self).bodies().contains(pair.0),
            old(self).bodies().contains(pair.1),
            pair.0 != pair.1,
        ensures
            *r.0 == old(self).bodies().body(pair.0).spec_state(),
            *r.1 == old(self).bodies().body(pair.1).spec_state(),
            final(self).bodies()@ == old(self).bodies().with_states(
                pair.0,
                *final(r.0),
                pair.1,
                *final(r.1),
            ),
            final(self).bodies().spec_len() == old(self).bodies().spec_len(),
            final(self).same_but_bodies(old(self)),
            final(self).wf(),
            final(self).same_settings(old(self)),
            same_frame(final(self).bodies()@, old(self).bodies()@),
    {
        proof {
            assert forall|v: S, w: S| #[trigger]
                same_frame(self.bodies.with_states(pair.0, v, pair.1, w), self.bodies@) by {
                self.lemma_with_state(pair.0, v);
                let b = self.bodies.body(pair.1);
                assert(has(self.bodies@, pair.1));
                Body::<S>::lemma_make(
                    pair.1,
                    b.spec_proxy_id(),
                    b.spec_bounds(),
                    b.spec_is_static(),
                    w,
                );
                lemma_frame_replace(
                    self.bodies.with_state(pair.0, v),
                    pair.1,
                    Body::make(pair.1, b.spec_proxy_id(), b.spec_bounds(), b.spec_is_static(), w),
                );
                lemma_frame_twice(
                    self.bodies.with_states(pair.0, v, pair.1, w),
                    self.bodies.with_state(pair.0, v),
                    self.bodies@,
                );
            }
            assert forall|v: S, w: S| #[trigger]
                world_wf(
                    self.bodies.with_states(pair.0, v, pair.1, w),
                    self.bodies.spec_len(),
                    self.broad_phase,
                    self.contacts(),
                    self.joints(),
                ) by {
                self.lemma_with_state(pair.0, v);
                let b = self.bodies.body(pair.1);
                assert(has(self.bodies@, pair.1));
                Body::<S>::lemma_make(
                    pair.1,
                    b.spec_proxy_id(),
                    b.spec_bounds(),
                    b.spec_is_static(),
                    w,
                );
                lemma_replace_body(
                    self.bodies.with_state(pair.0, v),
                    self.bodies.spec_len(),
                    self.broad_phase,
                    self.contacts(),
                    self.joints(),
                    pair.1,
                    Body::make(pair.1, b.spec_proxy_id(), b.spec_bounds(), b.spec_is_static(), w),
                );
            }
        }
        self.bodies.pair_mut(pair.0, pair.1)
    }

    /// Makes the body named `body_id` immovable.
    pub fn set_static(&mut self, body_id: BodyId)
        requires
            old(self).wf(),
            old(self).bodies().contains(body_id),
        ensures
            final(self).wf(),
            final(self).same_settings(old(self)),
            final(self).bodies()@ == old(self).bodies()@.update(
                body_id as int,
                Some(
                    Body::make(
                        body_id,
                        old(self).bodies().body(body_id).spec_proxy_id(),
                        old(self).bodies().body(body_id).spec_bounds(),
                        true,
                        old(self).bodies().body(body_id).spec_state(),
                    ),
                ),
            ),
            final(self).bodies().spec_len() == old(self).bodies().spec_len(),
            final(self).same_but_bodies(old(self)),
    {
        let ghost b = self.bodies.body(body_id);
        proof {
            Body::<S>::lemma_make(
                body_id,
                b.spec_proxy_id(),
                b.spec_bounds(),
                true,
                b.spec_state(),
            );
            lemma_replace_body(
                self.bodies@,
                self.bodies.spec_len(),
                self.broad_phase,
                self.contacts(),
                self.joints(),
                body_id,
                Body::make(body_id, b.spec_proxy_id(), b.spec_bounds(), true, b.spec_state()),
            );
        }
        self.bodies.body_mut(body_id).set_static();
    }

    /// Gives the body named `body_id` the box `bounds` and brings its proxy
    /// up to date: afterwards the box of the proxy contains `bounds`.
    ///
    /// Where the box of the proxy contained `bounds` already, the broad
    /// phase is left alone. Otherwise the proxy gets `bounds` grown by
    /// [`EXPANSION_PERCENT`] for its box, and the body is the last on the
    /// record of the bodies inserted anew. The other proxies stay as they
    /// are.
    pub fn update_bounds(&mut self, body_id: BodyId, bounds: Bounds)
        requires
            old(self).wf(),
            old(self).bodies().contains(body_id),
        ensures
            final(self).wf(),
            final(self).same_settings(old(self)),
            final(self).bodies()@ == old(self).bodies()@.update(
                body_id as int,
                Some(
                    Body::make(
                        body_id,
                        old(self).bodies().body(body_id).spec_proxy_id(),
                        bounds,
                        old(self).bodies().body(body_id).spec_is_static(),
                        old(self).bodies().body(body_id).spec_state(),
                    ),
                ),
            ),
            final(self).bodies().spec_len() == old(self).bodies().spec_len(),
            final(self).contacts() == old(self).contacts(),
            final(self).joints() == old(self).joints(),
            final(self).broad_phase().proxy_bounds(
                old(self).bodies().body(body_id).spec_proxy_id(),
            ).spec_contains(bounds),
            same_frame(final(self).bodies()@, old(self).bodies()@),
            final(self).broad_phase().same_proxies_but(
                &old(self).broad_phase(),
                old(self).proxy_of(body_id),
            ),
            old(self).proxy_box(body_id).spec_contains(bounds) ==> {
                &&& final(self).broad_phase().tree() == old(self).broad_phase().tree()
                &&& final(self).broad_phase().reinserted() == old(self).broad_phase().reinserted()
            },
            !old(self).proxy_box(body_id).spec_contains(bounds) ==> {
                &&& exists|without: BoundsTree<BodyId>|
                    {
                        &&& #[trigger] without.is_removal_of(
                            &old(self).broad_phase().tree(),
                            old(self).proxy_of(body_id),
                        )
                        &&& final(self).broad_phase().tree().is_insertion_of(
                            &without,
                            old(self).proxy_of(body_id),
                            bounds.spec_expanded(EXPANSION_PERCENT),
                            body_id,
                        )
                    }
                &&& final(self).broad_phase().reinserted() == old(
                    self,
                ).broad_phase().reinserted().push(body_id)
                &&& final(self).proxy_box(body_id).spec_min() == bounds.spec_expand_by(
                    EXPANSION_PERCENT,
                ).0
                &&& final(self).proxy_box(body_id).spec_max() == bounds.spec_expand_by(
                    EXPANSION_PERCENT,
                ).1
            },
    {
        let ghost b = self.bodies.body(body_id);
        let ghost moved = Body::make(
            body_id,
            b.spec_proxy_id(),
            bounds,
            b.spec_is_static(),
            b.spec_state(),
        );
        proof {
            Body::<S>::lemma_make(
                body_id,
                b.spec_proxy_id(),
                bounds,
                b.spec_is_static(),
                b.spec_state(),
            );
            lemma_slots_replace(self.bodies@, self.bodies.spec_len(), body_id, moved);
            assert(has(self.bodies@, body_id));
            lemma_frame_replace(self.bodies@, body_id, moved);
            assert(self.broad_phase.has_proxy(b.spec_proxy_id()));
            assert(self.broad_phase.proxy_body(b.spec_proxy_id()) == body_id);
        }
        self.bodies.body_mut(body_id).set_bounds(bounds);
        let body = self.bodies.index(body_id);
        let proxy = body.proxy_id();
        self.broad_phase.update_proxy(proxy, body);
        proof {
            let slots = self.bodies@;
            let pre = old(self).bodies@;
            assert(slots[body_id as int] == Some(moved));
            assert forall|j: BodyId| #[trigger] has(slots, j) implies {
                let x = slots[j as int]->0;
                &&& self.broad_phase.has_proxy(x.spec_proxy_id())
                &&& self.broad_phase.proxy_body(x.spec_proxy_id()) == j
                &&& self.broad_phase.proxy_bounds(x.spec_proxy_id()).spec_contains(x.spec_bounds())
            } by {
                assert(has(pre, j));
                if j != body_id {
                    assert(slots[j as int] == pre[j as int]);
                    let pj = pre[j as int]->0.spec_proxy_id();
                    assert(old(self).broad_phase.has_proxy(pj));
                    assert(pj != proxy);
                    assert(self.broad_phase.has_proxy(pj));
                } else {
                    assert(old(self).broad_phase.has_proxy(proxy));
                }
            }
            assert forall|p: ProxyId| #[trigger] self.broad_phase.has_proxy(p) implies has(
                slots,
                self.broad_phase.proxy_body(p),
            ) && slots[self.broad_phase.proxy_body(p) as int]->0.spec_proxy_id() == p by {
                if p != proxy {
                    assert(old(self).broad_phase.has_proxy(p));
                    let j = old(self).broad_phase.proxy_body(p);
                    assert(has(pre, j));
                    if j != body_id {
                        assert(slots[j as int] == pre[j as int]);
                    }
                } else {
                    assert(old(self).broad_phase.has_proxy(proxy));
                    assert(has(pre, body_id));
                }
            }
            assert forall|i: int| 0 <= i < self.broad_phase.reinserted().len() implies has(
                slots,
                #[trigger] self.broad_phase.reinserted()[i],
            ) by {
                if i < old(self).broad_phase.reinserted().len() {
                    let j = old(self).broad_phase.reinserted()[i];
                    assert(has(pre, j));
                }
            }
            assert forall|p: BodyPair| #[trigger] self.contacts().contains_key(p) implies has(
                slots,
                p.0,
            ) && has(slots, p.1) && p.0 < p.1 by {
                assert(has(pre, p.0) && has(pre, p.1));
            }
            assert forall|p: BodyPair| #[trigger] self.joints().contains_key(p) implies has(
                slots,
                p.0,
            ) && has(slots, p.1) && p.0 < p.1 by {
                assert(has(pre, p.0) && has(pre, p.1));
            }
        }
    }

    /// The pairs of bodies whose boxes do not meet.
    pub open spec fn separated(&self) -> Set<BodyPair> {
        Set::new(
            |p: BodyPair|
                !self.bodies().body(p.0).spec_bounds().spec_intersects(
                    self.bodies().body(p.1).spec_bounds(),
                ),
        )
    }

    /// Drops the contact constraints of the pairs whose boxes no longer meet.
    pub fn prune_separated(&mut self)
        requires
            old(self).wf(),
        ensures
            final(self).wf(),
            final(self).same_settings(old(self)),
            final(self).contacts() == old(self).contacts().remove_keys(old(self).separated()),
            final(self).bodies() == old(self).bodies(),
            final(self).broad_phase() == old(self).broad_phase(),
            final(self).joints() == old(self).joints(),
    {
        let pairs = self.contact_constraints.pairs();
        let mut doomed: Vec<BodyPair> = Vec::new();
        let mut i: usize = 0;
        while i < pairs.len()
            invariant
                i <= pairs@.len(),
                self.wf(),
                *self == *old(self),
                forall|p: BodyPair| pairs@.contains(p) <==> self.contacts().contains_key(p),
                forall|p: BodyPair|
                    doomed@.contains(p) <==> self.separated().contains(p) && exists|k: int|
                        0 <= k < i && #[trigger] pairs@[k] == p,
            decreases pairs@.len() - i,
        {
            let pair = pairs[i];
            let ghost before = doomed@;
            proof {
                assert(pairs@.contains(pair));
                assert(self.contacts().contains_key(pair));
                assert(has(self.bodies@, pair.0) && has(self.bodies@, pair.1));
            }
            let a = self.bodies.index(pair.0);
            let b = self.bodies.index(pair.1);
            if !a.bounds().intersects(&b.bounds()) {
                doomed.push(pair);
            }
            proof {
                assert forall|p: BodyPair|
                    doomed@.contains(p) <==> self.separated().contains(p) && exists|k: int|
                        0 <= k < i + 1 && #[trigger] pairs@[k] == p by {
                    if doomed@.contains(p) {
                        let t = choose|t: int| 0 <= t < doomed@.len() && doomed@[t] == p;
                        if t < before.len() {
                            assert(before[t] == p);
                            assert(before.contains(p));
                            let k = choose|k: int| 0 <= k < i && #[trigger] pairs@[k] == p;
                            assert(0 <= k < i + 1);
                        } else {
                            assert(pairs@[i as int] == p);
                        }
                    }
                    if self.separated().contains(p) && exists|k: int|
                        0 <= k < i + 1 && #[trigger] pairs@[k] == p {
                        let k = choose|k: int| 0 <= k < i + 1 && #[trigger] pairs@[k] == p;
                        if k < i {
                            assert(before.contains(p));
                            let t = choose|t: int| 0 <= t < before.len() && before[t] == p;
                            assert(doomed@[t] == p);
                        } else {
                            assert(doomed@[before.len() as int] == p);
                        }
                    }
                }
            }
            i += 1;
        }
        self.contact_constraints.remove_all(&doomed);
        proof {
            let gone = old(self).separated();
            assert forall|p: BodyPair| old(self).contacts().contains_key(p) implies (
            doomed@.to_set().contains(p) <==> gone.contains(p)) by {
                if gone.contains(p) {
                    assert(pairs@.contains(p));
                    let k = choose|k: int| 0 <= k < pairs@.len() && pairs@[k] == p;
                    assert(pairs@[k] == p);
                    assert(doomed@.contains(p));
                }
                if doomed@.to_set().contains(p) {
                    assert(doomed@.contains(p));
                }
            }
            assert(self.contacts() =~= old(self).contacts().remove_keys(gone));
        }
    }

    /// Gives every pair that a body inserted anew makes with a proxy that it
    /// meets an empty list of contact constraints, unless the pair has a
    /// list already, and forgets which bodies were inserted anew.
    pub fn find_pairs(&mut self)
        requires
            old(self).wf(),
        ensures
            final(self).wf(),
            final(self).same_settings(old(self)),
            grown(
                final(self).contacts(),
                old(self).contacts(),
                old(self).broad_phase().candidates(&old(self).bodies()),
            ),
            final(self).bodies() == old(self).bodies(),
            final(self).broad_phase().tree() == old(self).broad_phase().tree(),
            final(self).broad_phase().reinserted() == Seq::<BodyId>::empty(),
            final(self).joints() == old(self).joints(),
    {
        proof {
            assert forall|i: int| 0 <= i < self.broad_phase.reinserted().len() implies
                self.bodies.contains(#[trigger] self.broad_phase.reinserted()[i]) by {
                assert(has(self.bodies@, self.broad_phase.reinserted()[i]));
            }
        }
        self.broad_phase.new_potential_pairs(&self.bodies, &mut self.contact_constraints);
        proof {
            let slots = self.bodies@;
            let bp = old(self).broad_phase;
            assert forall|p: BodyPair| #[trigger] self.contacts().contains_key(p) implies has(
                slots,
                p.0,
            ) && has(slots, p.1) && p.0 < p.1 by {
                if !old(self).contacts().contains_key(p) {
                    assert(bp.candidates(&self.bodies).contains(p));
                    bp.lemma_candidates(&self.bodies, p, bp.reinserted().len());
                    let (i, leaf) = choose|i: int, leaf: ProxyId|
                        0 <= i < bp.reinserted().len() && #[trigger] bp.meets(
                            &self.bodies,
                            bp.reinserted()[i],
                            leaf,
                        ) && p == BodyPair::spec_new(bp.proxy_body(leaf), bp.reinserted()[i]);
                    assert(has(slots, bp.reinserted()[i]));
                    assert(bp.has_proxy(leaf));
                    assert(has(slots, bp.proxy_body(leaf)));
                }
            }
        }
        let ghost paired = *self;
        self.broad_phase.post_update();
        proof {
            assert(self.contacts() == paired.contacts());
            assert(pairs_ok(self.bodies@, self.contacts()));
            assert(pairs_ok(self.bodies@, self.joints()));
            assert(slots_wf(self.bodies@, self.bodies.spec_len()));
            assert(self.broad_phase.wf());
            assert(self.maps_wf());
            assert forall|p: ProxyId| #[trigger] self.broad_phase.has_proxy(p) implies has(
                self.bodies@,
                self.broad_phase.proxy_body(p),
            ) && self.bodies@[self.broad_phase.proxy_body(p) as int]->0.spec_proxy_id() == p by {
                assert(old(self).broad_phase.has_proxy(p));
            }
            assert forall|j: BodyId| #[trigger] has(self.bodies@, j) implies {
                let x = self.bodies@[j as int]->0;
                &&& self.broad_phase.has_proxy(x.spec_proxy_id())
                &&& self.broad_phase.proxy_body(x.spec_proxy_id()) == j
                &&& self.broad_phase.proxy_bounds(x.spec_proxy_id()).spec_contains(x.spec_bounds())
            } by {
                let pj = self.bodies@[j as int]->0.spec_proxy_id();
                assert(old(self).broad_phase.has_proxy(pj));
            }
        }
    }

    /// The pairs that have contact constraints, ordered by their first id
    /// and then by their second.
    pub fn contact_pairs(&self) -> (r: Vec<BodyPair>)
        requires
            self.wf(),
        ensures
            forall|p: BodyPair| r@.contains(p) <==> self.contacts().contains_key(p),
            crate::constraints::ascending(
                r@.map_values(|p: BodyPair| crate::constraints::spec_key(p)),
            ),
            r@.no_duplicates(),
    {
        self.contact_constraints.pairs()
    }

    /// The pairs that have joints, ordered by their first id and then by
    /// their second.
    pub fn joint_pairs(&self) -> (r: Vec<BodyPair>)
        requires
            self.wf(),
        ensures
            forall|p: BodyPair| r@.contains(p) <==> self.joints().contains_key(p),
            crate::constraints::ascending(
                r@.map_values(|p: BodyPair| crate::constraints::spec_key(p)),
            ),
            r@.no_duplicates(),
    {
        self.joints.pairs()
    }

    /// The contact constraints of `pair`, if it has any list of them.
    pub fn get_contacts(&self, pair: BodyPair) -> (r: Option<&Vec<C>>)
        ensures
            r == (if self.contacts().contains_key(pair) {
                Some(&self.contacts()[pair])
            } else {
                None
            }),
    {
        self.contact_constraints.get(&pair)
    }

    /// Gives `pair`, which has a list of contact constraints, the list
    /// `list` in its place.
    pub fn set_contacts(&mut self, pair: BodyPair, list: Vec<C>)
        requires
            old(self).wf(),
            old(self).contacts().contains_key(pair),
        ensures
            final(self).wf(),
            final(self).same_settings(old(self)),
            final(self).contacts() == old(self).contacts().insert(pair, list),
            final(self).bodies() == old(self).bodies(),
            final(self).broad_phase() == old(self).broad_phase(),
            final(self).joints() == old(self).joints(),
    {
        self.contact_constraints.insert(pair, list);
    }

    /// Takes the list of contact constraints of `pair`, if it has one, out
    /// of the world.
    pub fn remove_contacts(&mut self, pair: BodyPair) -> (r: Option<Vec<C>>)
        requires
            old(self).wf(),
        ensures
            final(self).wf(),
            final(self).same_settings(old(self)),
            final(self).contacts() == old(self).contacts().remove(pair),
            r == (if old(self).contacts().contains_key(pair) {
                Some(old(self).contacts()[pair])
            } else {
                None
            }),
            final(self).bodies() == old(self).bodies(),
            final(self).broad_phase() == old(self).broad_phase(),
            final(self).joints() == old(self).joints(),
    {
        self.contact_constraints.remove(&pair)
    }

    /// The contact constraints of `pair`, if it has a list of them, for
    /// writing. Nothing else changes.
    pub fn get_contacts_mut(&mut self, pair: BodyPair) -> (r: Option<&mut Vec<C>>)
        requires
            old(self).wf(),
        ensures
            old(self).contacts().contains_key(pair) ==> r.is_some() && *r.unwrap() == old(
                self,
            ).contacts()[pair] && final(self).contacts() == old(self).contacts().insert(
                pair,
                *final(r.unwrap()),
            ),
            !old(self).contacts().contains_key(pair) ==> r.is_none() && final(self).contacts()
                == old(self).contacts(),
            final(self).bodies() == old(self).bodies(),
            final(self).broad_phase() == old(self).broad_phase(),
            final(self).joints() == old(self).joints(),
            final(self).wf(),
            final(self).same_settings(old(self)),
    {
        proof {
            if self.contacts().contains_key(pair) {
                assert forall|v: Vec<C>| #[trigger]
                    pairs_ok(self.bodies@, self.contacts().insert(pair, v)) by {
                    lemma_pairs_insert(self.bodies@, self.contacts(), pair, v);
                }
            }
        }
        self.contact_constraints.get_mut(&pair)
    }

    /// The joints between the two bodies, if there is a list of them, for
    /// writing. Nothing else changes.
    pub fn get_joints_mut(&mut self, bodies: (BodyId, BodyId)) -> (r: Option<&mut Vec<J>>)
        requires
            old(self).wf(),
        ensures
            old(self).joints().contains_key(BodyPair::spec_new(bodies.0, bodies.1)) ==> r.is_some()
                && *r.unwrap() == old(self).joints()[BodyPair::spec_new(bodies.0, bodies.1)]
                && final(self).joints() == old(self).joints().insert(
                BodyPair::spec_new(bodies.0, bodies.1),
                *final(r.unwrap()),
            ),
            !old(self).joints().contains_key(BodyPair::spec_new(bodies.0, bodies.1))
                ==> r.is_none() && final(self).joints() == old(self).joints(),
            final(self).bodies() == old(self).bodies(),
            final(self).broad_phase() == old(self).broad_phase(),
            final(self).contacts() == old(self).contacts(),
            final(self).wf(),
            final(self).same_settings(old(self)),
    {
        let pair = BodyPair::new(bodies.0, bodies.1);
        proof {
            if self.joints().contains_key(pair) {
                assert forall|v: Vec<J>| #[trigger]
                    pairs_ok(self.bodies@, self.joints().insert(pair, v)) by {
                    lemma_pairs_insert(self.bodies@, self.joints(), pair, v);
                }
            }
        }
        self.joints.get_mut(&pair)
    }

    /// The pairs that name the body `id`.
    pub open spec fn pairs_with(id: BodyId) -> Set<BodyPair> {
        Set::new(|p: BodyPair| p.0 == id || p.1 == id)
    }

    /// Takes the body named `body_id` out of the world, with its proxy and
    /// with the contact constraints and joints that it has with other
    /// bodies. Its id is free again, and it is no longer on the record of
    /// the bodies inserted anew. The other proxies stay as they are.
    pub fn remove_body(&mut self, body_id: BodyId) -> (r: Option<Body<S>>)
        requires
            old(self).wf(),
        ensures
            final(self).wf(),
            final(self).same_settings(old(self)),
            !old(self).bodies().contains(body_id) ==> {
                &&& r is None
                &&& final(self).bodies() == old(self).bodies()
                &&& final(self).broad_phase() == old(self).broad_phase()
                &&& final(self).contacts() == old(self).contacts()
                &&& final(self).joints() == old(self).joints()
            },
            old(self).bodies().contains(body_id) ==> {
                &&& r == Some(old(self).bodies().body(body_id))
                &&& final(self).bodies()@ == old(self).bodies()@.update(body_id as int, None)
                &&& final(self).bodies().spec_len() == old(self).bodies().spec_len() - 1
                &&& final(self).contacts() == old(self).contacts().remove_keys(
                    Self::pairs_with(body_id),
                )
                &&& final(self).joints() == old(self).joints().remove_keys(
                    Self::pairs_with(body_id),
                )
                &&& !final(self).broad_phase().has_proxy(old(self).proxy_of(body_id))
                &&& final(self).broad_phase().same_proxies_but(
                    &old(self).broad_phase(),
                    old(self).proxy_of(body_id),
                )
                &&& final(self).broad_phase().tree().is_removal_of(
                    &old(self).broad_phase().tree(),
                    old(self).proxy_of(body_id),
                )
                &&& forall|b: BodyId|
                    final(self).broad_phase().reinserted().contains(b) <==> old(
                        self,
                    ).broad_phase().reinserted().contains(b) && b != body_id
            },
    {
        if !self.contains_body(body_id) {
            return None;
        }
        let proxy = self.bodies.index(body_id).proxy_id();
        proof {
            assert(has(self.bodies@, body_id));
            assert(self.broad_phase.has_proxy(proxy));
        }
        self.broad_phase.destroy_proxy(proxy);
        let ghost destroyed = self.broad_phase;
        self.broad_phase.forget(body_id);
        self.contact_constraints.remove_body(body_id);
        self.joints.remove_body(body_id);
        let r = self.bodies.remove(body_id);
        proof {
            let slots = self.bodies@;
            let pre = old(self).bodies@;
            let was = old(self).broad_phase;
            assert(self.broad_phase.tree() == destroyed.tree());
            assert forall|p: ProxyId| p != proxy implies (#[trigger] self.broad_phase.has_proxy(p)
                <==> was.has_proxy(p)) && (was.has_proxy(p) ==> self.broad_phase.proxy_bounds(p)
                == was.proxy_bounds(p) && self.broad_phase.proxy_body(p) == was.proxy_body(p)) by {
                assert(destroyed.has_proxy(p) <==> was.has_proxy(p));
            }
            assert forall|j: BodyId| #[trigger] has(slots, j) implies {
                let x = slots[j as int]->0;
                &&& self.broad_phase.has_proxy(x.spec_proxy_id())
                &&& self.broad_phase.proxy_body(x.spec_proxy_id()) == j
                &&& self.broad_phase.proxy_bounds(x.spec_proxy_id()).spec_contains(x.spec_bounds())
            } by {
                assert(has(pre, j));
                let pj = pre[j as int]->0.spec_proxy_id();
                assert(was.has_proxy(pj));
                assert(pj != proxy);
                assert(destroyed.has_proxy(pj));
            }
            assert forall|p: ProxyId| #[trigger] self.broad_phase.has_proxy(p) implies has(
                slots,
                self.broad_phase.proxy_body(p),
            ) && slots[self.broad_phase.proxy_body(p) as int]->0.spec_proxy_id() == p by {
                assert(destroyed.has_proxy(p));
                assert(p != proxy);
                assert(was.has_proxy(p));
                let j = was.proxy_body(p);
                assert(has(pre, j));
            }
            assert forall|i: int| 0 <= i < self.broad_phase.reinserted().len() implies has(
                slots,
                #[trigger] self.broad_phase.reinserted()[i],
            ) by {
                let x = self.broad_phase.reinserted()[i];
                assert(self.broad_phase.reinserted().contains(x));
                assert(was.reinserted().contains(x));
                let k = choose|k: int| 0 <= k < was.reinserted().len() && was.reinserted()[k] == x;
                assert(has(pre, was.reinserted()[k]));
            }
            assert forall|p: BodyPair| #[trigger] self.contacts().contains_key(p) implies has(
                slots,
                p.0,
            ) && has(slots, p.1) && p.0 < p.1 by {
                assert(old(self).contacts().contains_key(p));
                assert(!Self::pairs_with(body_id).contains(p));
                assert(has(pre, p.0) && has(pre, p.1));
            }
            assert forall|p: BodyPair| #[trigger] self.joints().contains_key(p) implies has(
                slots,
                p.0,
            ) && has(slots, p.1) && p.0 < p.1 by {
                assert(old(self).joints().contains_key(p));
                assert(!Self::pairs_with(body_id).contains(p));
                assert(has(pre, p.0) && has(pre, p.1));
            }
        }
        r
    }

    /// Gives `pair`, which names two bodies, the list `list` of contact
    /// constraints in place of the one it has, if any.
    pub fn insert_contacts(&mut self, pair: BodyPair, list: Vec<C>)
        requires
            old(self).wf(),
            old(self).bodies().contains(pair.0),
            old(self).bodies().contains(pair.1),
            pair.0 < pair.1,
        ensures
            final(self).wf(),
            final(self).same_settings(old(self)),
            final(self).contacts() == old(self).contacts().insert(pair, list),
            final(self).bodies() == old(self).bodies(),
            final(self).broad_phase() == old(self).broad_phase(),
            final(self).joints() == old(self).joints(),
    {
        self.contact_constraints.insert(pair, list);
        proof {
            assert(has(self.bodies@, pair.0) && has(self.bodies@, pair.1));
            assert forall|p: BodyPair| #[trigger] self.contacts().contains_key(p) implies has(
                self.bodies@,
                p.0,
            ) && has(self.bodies@, p.1) && p.0 < p.1 by {
                if p != pair {
                    assert(old(self).contacts().contains_key(p));
                }
            }
        }
    }

    /// Takes the list of joints of `pair`, if it has one, out of the world.
    pub fn remove_joints(&mut self, pair: BodyPair) -> (r: Option<Vec<J>>)
        requires
            old(self).wf(),
        ensures
            final(self).wf(),
            final(self).same_settings(old(self)),
            final(self).joints() == old(self).joints().remove(pair),
            r == (if old(self).joints().contains_key(pair) {
                Some(old(self).joints()[pair])
            } else {
                None
            }),
            final(self).bodies() == old(self).bodies(),
            final(self).broad_phase() == old(self).broad_phase(),
            final(self).contacts() == old(self).contacts(),
    {
        self.joints.remove(&pair)
    }

    /// Gives `pair`, which names two bodies, the list `list` of joints in
    /// place of the one it has, if any.
    pub fn insert_joints(&mut self, pair: BodyPair, list: Vec<J>)
        requires
            old(self).wf(),
            old(self).bodies().contains(pair.0),
            old(self).bodies().contains(pair.1),
            pair.0 < pair.1,
        ensures
            final(self).wf(),
            final(self).same_settings(old(self)),
            final(self).joints() == old(self).joints().insert(pair, list),
            final(self).bodies() == old(self).bodies(),
            final(self).broad_phase() == old(self).broad_phase(),
            final(self).contacts() == old(self).contacts(),
    {
        self.joints.insert(pair, list);
        proof {
            assert(has(self.bodies@, pair.0) && has(self.bodies@, pair.1));
            assert forall|p: BodyPair| #[trigger] self.joints().contains_key(p) implies has(
                self.bodies@,
                p.0,
            ) && has(self.bodies@, p.1) && p.0 < p.1 by {
                if p != pair {
                    assert(old(self).joints().contains_key(p));
                }
            }
        }
    }

    /// Takes in what the narrow phase has found for `pair`, which has a
    /// list of contact constraints: the constraints of its contacts replace
    /// the list, and a pair whose shapes do not touch loses its list.
    pub fn settle_pair(&mut self, pair: BodyPair, found: Option<Vec<C>>)
        requires
            old(self).wf(),
            old(self).contacts().contains_key(pair),
        ensures
            final(self).wf(),
            final(self).same_settings(old(self)),
            final(self).contacts() == (match found {
                Some(list) => old(self).contacts().insert(pair, list),
                None => old(self).contacts().remove(pair),
            }),
            final(self).bodies() == old(self).bodies(),
            final(self).broad_phase() == old(self).broad_phase(),
            final(self).joints() == old(self).joints(),
    {
        match found {
            Some(list) => {
                self.set_contacts(pair, list);
            },
            None => {
                self.remove_contacts(pair);
            },
        }
    }

    /// Adds `joint` to the joints between the two bodies.
    pub fn add_joint(&mut self, bodies: (BodyId, BodyId), joint: J)
        requires
            old(self).wf(),
            old(self).bodies().contains(bodies.0),
            old(self).bodies().contains(bodies.1),
            bodies.0 != bodies.1,
        ensures
            final(self).wf(),
            final(self).same_settings(old(self)),
            final(self).joints().dom() == old(self).joints().dom().insert(
                BodyPair::spec_new(bodies.0, bodies.1),
            ),
            forall|p: BodyPair|
                p != BodyPair::spec_new(bodies.0, bodies.1) && old(self).joints().contains_key(p)
                    ==> final(self).joints()[p] == old(self).joints()[p],
            final(self).joints()[BodyPair::spec_new(bodies.0, bodies.1)]@ == (if old(
                self,
            ).joints().contains_key(BodyPair::spec_new(bodies.0, bodies.1)) {
                old(self).joints()[BodyPair::spec_new(bodies.0, bodies.1)]@.push(joint)
            } else {
                seq![joint]
            }),
            final(self).bodies() == old(self).bodies(),
            final(self).broad_phase() == old(self).broad_phase(),
            final(self).contacts() == old(self).contacts(),
    {
        let pair = BodyPair::new(bodies.0, bodies.1);
        self.joints.push(pair, joint);
        proof {
            assert(has(self.bodies@, pair.0) && has(self.bodies@, pair.1));
            assert forall|p: BodyPair| #[trigger] self.joints().contains_key(p) implies has(
                self.bodies@,
                p.0,
            ) && has(self.bodies@, p.1) && p.0 < p.1 by {
                if p != pair {
                    assert(old(self).joints().contains_key(p));
                }
            }
        }
    }

    /// The joints between the two bodies, if there is a list of them.
    pub fn get_joints(&self, bodies: (BodyId, BodyId)) -> (r: Option<&Vec<J>>)
        ensures
            r == (if self.joints().contains_key(BodyPair::spec_new(bodies.0, bodies.1)) {
                Some(&self.joints()[BodyPair::spec_new(bodies.0, bodies.1)])
            } else {
                None
            }),
    {
        let pair = BodyPair::new(bodies.0, bodies.1);
        self.joints.get(&pair)
    }
}

/// Giving a pair that has a list another list keeps the pairs sound.
pub proof fn lemma_pairs_insert<S, T>(
    slots: Seq<Option<Body<S>>>,
    lists: Map<BodyPair, Vec<T>>,
    pair: BodyPair,
    list: Vec<T>,
)
    requires
        pairs_ok(slots, lists),
        lists.contains_key(pair),
    ensures
        pairs_ok(slots, lists.insert(pair, list)),
{
    assert forall|p: BodyPair| #[trigger] lists.insert(pair, list).contains_key(p) implies has(
        slots,
        p.0,
    ) && has(slots, p.1) && p.0 < p.1 by {
        assert(lists.contains_key(p));
    }
}

/// A world stays sound when a body is replaced by one with the same id and
/// proxy whose box the proxy's box contains.
pub proof fn lemma_replace_body<S, C, J>(
    slots: Seq<Option<Body<S>>>,
    len: usize,
    broad_phase: BoundsTreeBroadPhase,
    contacts: Map<BodyPair, Vec<C>>,
    joints: Map<BodyPair, Vec<J>>,
    id: BodyId,
    body: Body<S>,
)
    requires
        world_wf(slots, len, broad_phase, contacts, joints),
        has(slots, id),
        body.spec_id() == id,
        body.spec_proxy_id() == slots[id as int]->0.spec_proxy_id(),
        broad_phase.proxy_bounds(body.spec_proxy_id()).spec_contains(body.spec_bounds()),
    ensures
        world_wf(slots.update(id as int, Some(body)), len, broad_phase, contacts, joints),
{
    let after = slots.update(id as int, Some(body));
    lemma_slots_replace(slots, len, id, body);
    assert forall|j: BodyId| #[trigger] has(after, j) implies {
        let x = after[j as int]->0;
        &&& broad_phase.has_proxy(x.spec_proxy_id())
        &&& broad_phase.proxy_body(x.spec_proxy_id()) == j
        &&& broad_phase.proxy_bounds(x.spec_proxy_id()).spec_contains(x.spec_bounds())
    } by {
        assert(has(slots, j));
    }
    assert forall|p: ProxyId| #[trigger] broad_phase.has_proxy(p) implies has(
        after,
        broad_phase.proxy_body(p),
    ) && after[broad_phase.proxy_body(p) as int]->0.spec_proxy_id() == p by {
        assert(has(slots, broad_phase.proxy_body(p)));
    }
    assert forall|i: int| 0 <= i < broad_phase.reinserted().len() implies has(
        after,
        #[trigger] broad_phase.reinserted()[i],
    ) by {
        assert(has(slots, broad_phase.reinserted()[i]));
    }
    assert forall|p: BodyPair| #[trigger] contacts.contains_key(p) implies has(after, p.0) && has(
        after,
        p.1,
    ) && p.0 < p.1 by {
        assert(has(slots, p.0) && has(slots, p.1));
    }
    assert forall|p: BodyPair| #[trigger] joints.contains_key(p) implies has(after, p.0) && has(
        after,
        p.1,
    ) && p.0 < p.1 by {
        assert(has(slots, p.0) && has(slots, p.1));
    }
}

impl<S, C, J> Default for World<S, C, J> {
    /// A world that takes 8 velocity iterations and 2 position iterations a step.
    fn default() -> (r: World<S, C, J>)
        ensures
            r.wf(),
            r.bodies()@.len() == 0,
            r.spec_velocity_iterations() == 8,
            r.spec_position_iterations() == 2,
    {
        World::new(8, 2)
    }
}

} // verus!
