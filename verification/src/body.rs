//! Bodies as the broad phase and the bookkeeping of the world see them, the
//! arena that owns them, and unordered pairs of body ids.

use crate::bounds_tree::NodeId;
use crate::math::Bounds;
use vstd::prelude::*;

verus! {

/// The identifier used for looking up a body in a world: its slot in the arena.
pub type BodyId = usize;

/// The identifier of the broad-phase leaf that stands for a body.
pub type ProxyId = NodeId;

/// A body: its identity, its box, whether it can move, and the state `S`
/// that the numeric solver keeps for it.
pub struct Body<S> {
    id: BodyId,
    proxy_id: ProxyId,
    bounds: Bounds,
    is_static: bool,
    state: S,
}

impl<S> Body<S> {
    /// The id of the body: its slot in the arena that holds it.
    pub closed spec fn spec_id(&self) -> BodyId {
        self.id
    }

    /// The id of the proxy of the body.
    pub closed spec fn spec_proxy_id(&self) -> ProxyId {
        self.proxy_id
    }

    /// The box of the body.
    pub closed spec fn spec_bounds(&self) -> Bounds {
        self.bounds
    }

    /// Whether the body never moves.
    pub closed spec fn spec_is_static(&self) -> bool {
        self.is_static
    }

    /// What the solver keeps for the body.
    pub closed spec fn spec_state(&self) -> S {
        self.state
    }

    /// The body with the given fields.
    pub closed spec fn make(
        id: BodyId,
        proxy_id: ProxyId,
        bounds: Bounds,
        is_static: bool,
        state: S,
    ) -> Body<S> {
        Body { id, proxy_id, bounds, is_static, state }
    }

    /// The fields of a body are what it was made with.
    pub proof fn lemma_make(
        id: BodyId,
        proxy_id: ProxyId,
        bounds: Bounds,
        is_static: bool,
        state: S,
    )
        ensures
            Self::make(id, proxy_id, bounds, is_static, state).spec_id() == id,
            Self::make(id, proxy_id, bounds, is_static, state).spec_proxy_id() == proxy_id,
            Self::make(id, proxy_id, bounds, is_static, state).spec_bounds() == bounds,
            Self::make(id, proxy_id, bounds, is_static, state).spec_is_static() == is_static,
            Self::make(id, proxy_id, bounds, is_static, state).spec_state() == state,
    {
    }

    /// A body is what its five fields are.
    pub proof fn lemma_fields(&self)
        ensures
            *self == Self::make(
                self.spec_id(),
                self.spec_proxy_id(),
                self.spec_bounds(),
                self.spec_is_static(),
                self.spec_state(),
            ),
    {
    }

    /// A body that no world holds yet. Its id and its proxy id are 0 until a
    /// world assigns them.
    pub fn new(bounds: Bounds, is_static: bool, state: S) -> (r: Body<S>)
        ensures
            r == Self::make(0, 0, bounds, is_static, state),
            r.spec_id() == 0,
            r.spec_proxy_id() == 0,
            r.spec_bounds() == bounds,
            r.spec_is_static() == is_static,
            r.spec_state() == state,
    {
        Body { id: 0, proxy_id: 0, bounds, is_static, state }
    }

    /// The id of the body: its slot in the arena that holds it.
    #[verifier::when_used_as_spec(spec_id)]
    pub fn id(&self) -> (r: BodyId)
        ensures
            r == self.spec_id(),
    {
        self.id
    }

    /// The id of the proxy of the body.
    #[verifier::when_used_as_spec(spec_proxy_id)]
    pub fn proxy_id(&self) -> (r: ProxyId)
        ensures
            r == self.spec_proxy_id(),
    {
        self.proxy_id
    }

    /// The box of the body.
    #[verifier::when_used_as_spec(spec_bounds)]
    pub fn bounds(&self) -> (r: Bounds)
        ensures
            r == self.spec_bounds(),
    {
        self.bounds
    }

    /// Whether the body never moves.
    #[verifier::when_used_as_spec(spec_is_static)]
    pub fn is_static(&self) -> (r: bool)
        ensures
            r == self.spec_is_static(),
    {
        self.is_static
    }

    /// What the solver keeps for the body.
    pub fn state(&self) -> (r: &S)
        ensures
            *r == self.spec_state(),
    {
        &self.state
    }

    /// What the solver keeps for the body, for writing. Nothing else changes.
    pub fn state_mut(&mut self) -> (r: &mut S)
        ensures
            *r == old(self).spec_state(),
            *final(self) == Self::make(
                old(self).spec_id(),
                old(self).spec_proxy_id(),
                old(self).spec_bounds(),
                old(self).spec_is_static(),
                *final(r),
            ),
    {
        &mut self.state
    }

    /// Makes the body immovable.
    pub fn set_static(&mut self)
        ensures
            *final(self) == Self::make(
                old(self).spec_id(),
                old(self).spec_proxy_id(),
                old(self).spec_bounds(),
                true,
                old(self).spec_state(),
            ),
            final(self).spec_id() == old(self).spec_id(),
            final(self).spec_proxy_id() == old(self).spec_proxy_id(),
            final(self).spec_bounds() == old(self).spec_bounds(),
            final(self).spec_is_static(),
            final(self).spec_state() == old(self).spec_state(),
    {
        self.is_static = true;
    }

    pub(crate) fn set_id(&mut self, id: BodyId)
        ensures
            *final(self) == Self::make(
                id,
                old(self).spec_proxy_id(),
                old(self).spec_bounds(),
                old(self).spec_is_static(),
                old(self).spec_state(),
            ),
    {
        self.id = id;
    }

    pub(crate) fn set_proxy_id(&mut self, proxy_id: ProxyId)
        ensures
            *final(self) == Self::make(
                old(self).spec_id(),
                proxy_id,
                old(self).spec_bounds(),
                old(self).spec_is_static(),
                old(self).spec_state(),
            ),
    {
        self.proxy_id = proxy_id;
    }

    pub(crate) fn set_bounds(&mut self, bounds: Bounds)
        ensures
            *final(self) == Self::make(
                old(self).spec_id(),
                old(self).spec_proxy_id(),
                bounds,
                old(self).spec_is_static(),
                old(self).spec_state(),
            ),
    {
        self.bounds = bounds;
    }
}

/// An unordered pair of body ids, kept with the smaller id first.
#[derive(Copy, Clone, PartialEq, Eq, Hash, Debug, Structural)]
pub struct BodyPair(pub BodyId, pub BodyId);

impl BodyPair {
    /// The pair of the two ids, the smaller first.
    pub open spec fn spec_new(id_a: BodyId, id_b: BodyId) -> BodyPair {
        if id_a <= id_b {
            BodyPair(id_a, id_b)
        } else {
            BodyPair(id_b, id_a)
        }
    }

    /// Whether the smaller id comes first.
    pub open spec fn canonical(self) -> bool {
        self.0 <= self.1
    }

    /// The pair of the two ids, whichever order they are given in.
    pub fn new(id_a: BodyId, id_b: BodyId) -> (r: BodyPair)
        ensures
            r == Self::spec_new(id_a, id_b),
            r == Self::spec_new(id_b, id_a),
            r.canonical(),
    {
        if id_a <= id_b {
            BodyPair(id_a, id_b)
        } else {
            BodyPair(id_b, id_a)
        }
    }

    /// The two bodies of the pair.
    pub fn as_ref<'a, S>(&self, bodies: &'a Bodies<S>) -> (r: (&'a Body<S>, &'a Body<S>))
        requires
            bodies.contains(self.0),
            bodies.contains(self.1),
        ensures
            *r.0 == bodies.body(self.0),
            *r.1 == bodies.body(self.1),
    {
        (bodies.index(self.0), bodies.index(self.1))
    }

    /// What `f` makes of the two bodies of the pair.
    pub fn with<S, R, F: Fn(&Body<S>, &Body<S>) -> R>(&self, bodies: &Bodies<S>, f: F) -> (r: R)
        requires
            bodies.contains(self.0),
            bodies.contains(self.1),
            f.requires((&bodies.body(self.0), &bodies.body(self.1))),
        ensures
            f.ensures((&bodies.body(self.0), &bodies.body(self.1)), r),
    {
        let (body_a, body_b) = self.as_ref(bodies);
        f(body_a, body_b)
    }

    /// What the solver keeps for the two bodies of the pair, for writing.
    /// Nothing else changes.
    pub fn as_mut<'a, S>(&self, bodies: &'a mut Bodies<S>) -> (r: (&'a mut S, &'a mut S))
        requires
            old(bodies).wf(),
            old(bodies).contains(self.0),
            old(bodies).contains(self.1),
            self.0 != self.1,
        ensures
            *r.0 == old(bodies).body(self.0).spec_state(),
            *r.1 == old(bodies).body(self.1).spec_state(),
            final(bodies).spec_len() == old(bodies).spec_len(),
            final(bodies)@ == old(bodies).with_states(self.0, *final(r.0), self.1, *final(r.1)),
            slots_wf(
                old(bodies).with_states(self.0, *final(r.0), self.1, *final(r.1)),
                old(bodies).spec_len(),
            ),
    {
        bodies.pair_mut(self.0, self.1)
    }
}

/// The arena of the bodies of a world. A body's id is its slot; a freed slot
/// is the first to be taken again.
pub struct Bodies<S> {
    bodies: Vec<Option<Body<S>>>,
    len: usize,
}

/// Number of occupied slots among the first `n`.
pub open spec fn occupied<S>(slots: Seq<Option<Body<S>>>, n: nat) -> nat
    decreases n,
{
    if n == 0 {
        0
    } else {
        occupied(slots, (n - 1) as nat) + (if slots[n - 1] is Some {
            1nat
        } else {
            0nat
        })
    }
}

/// `len` counts the occupied slots, and every body carries its slot as its id.
pub open spec fn slots_wf<S>(slots: Seq<Option<Body<S>>>, len: usize) -> bool {
    &&& len == occupied(slots, slots.len())
    &&& forall|id: int|
        0 <= id < slots.len() && (#[trigger] slots[id]) is Some ==> slots[id]->0.spec_id() == id
}

/// Replacing a body by one with the same id keeps the slots sound.
pub proof fn lemma_slots_replace<S>(
    slots: Seq<Option<Body<S>>>,
    len: usize,
    id: BodyId,
    body: Body<S>,
)
    requires
        slots_wf(slots, len),
        id < slots.len(),
        slots[id as int] is Some,
        body.spec_id() == id,
    ensures
        slots_wf(slots.update(id as int, Some(body)), len),
{
    lemma_occupied_update(slots, id as int, Some(body), slots.len());
    let after = slots.update(id as int, Some(body));
    assert forall|j: int| 0 <= j < after.len() && (#[trigger] after[j]) is Some implies after[j]->0.spec_id()
        == j by {
        if j != id {
            assert(slots[j] is Some);
        }
    }
}

proof fn lemma_occupied_bound<S>(slots: Seq<Option<Body<S>>>, n: nat)
    ensures
        occupied(slots, n) <= n,
    decreases n,
{
    if n > 0 {
        lemma_occupied_bound(slots, (n - 1) as nat);
    }
}

proof fn lemma_occupied_update<S>(
    slots: Seq<Option<Body<S>>>,
    i: int,
    v: Option<Body<S>>,
    n: nat,
)
    requires
        0 <= i < slots.len(),
        n <= slots.len(),
    ensures
        occupied(slots.update(i, v), n) == occupied(slots, n) + (if i < n && v is Some
            && slots[i] is None {
            1int
        } else if i < n && v is None && slots[i] is Some {
            -1int
        } else {
            0int
        }),
    decreases n,
{
    if n > 0 {
        lemma_occupied_update(slots, i, v, (n - 1) as nat);
    }
}

proof fn lemma_occupied_push<S>(slots: Seq<Option<Body<S>>>, v: Option<Body<S>>, n: nat)
    requires
        n <= slots.len(),
    ensures
        occupied(slots.push(v), n) == occupied(slots, n),
    decreases n,
{
    if n > 0 {
        lemma_occupied_push(slots, v, (n - 1) as nat);
    }
}

impl<S> Bodies<S> {
    /// The slots of the arena, occupied or not.
    pub closed spec fn view(&self) -> Seq<Option<Body<S>>> {
        self.bodies@
    }

    /// Number of bodies.
    pub closed spec fn spec_len(&self) -> usize {
        self.len
    }

    /// Whether `id` names a body of the arena.
    pub open spec fn contains(&self, id: BodyId) -> bool {
        id < self@.len() && self@[id as int] is Some
    }

    /// The body named `id`.
    pub open spec fn body(&self, id: BodyId) -> Body<S> {
        self@[id as int]->0
    }

    /// The count is the number of bodies, and every body carries its slot as its id.
    pub open spec fn wf(&self) -> bool {
        slots_wf(self@, self.spec_len())
    }

    /// The first free slot, or the number of slots when none is free.
    pub open spec fn first_free(&self) -> BodyId {
        if exists|i: int| 0 <= i < self@.len() && self@[i] is None {
            (choose|i: int|
                0 <= i < self@.len() && self@[i] is None && forall|j: int|
                    0 <= j < i ==> self@[j] is Some) as usize
        } else {
            self@.len() as usize
        }
    }

    /// An arena without bodies.
    pub fn new() -> (r: Bodies<S>)
        ensures
            r.wf(),
            r@.len() == 0,
            r.spec_len() == 0,
    {
        Bodies { bodies: Vec::new(), len: 0 }
    }

    /// Number of bodies.
    #[verifier::when_used_as_spec(spec_len)]
    pub fn len(&self) -> (r: usize)
        ensures
            r == self.spec_len(),
    {
        self.len
    }

    /// Number of slots: every id is below it.
    pub fn slot_count(&self) -> (r: usize)
        ensures
            r == self@.len(),
    {
        self.bodies.len()
    }

    /// The body named `id`, if there is one.
    pub fn get(&self, id: BodyId) -> (r: Option<&Body<S>>)
        ensures
            self.contains(id) ==> r == Some(&self.body(id)),
            !self.contains(id) ==> r is None,
    {
        if id < self.bodies.len() {
            self.bodies[id].as_ref()
        } else {
            None
        }
    }

    /// The body named `id`.
    pub fn index(&self, id: BodyId) -> (r: &Body<S>)
        requires
            self.contains(id),
        ensures
            *r == self.body(id),
    {
        self.bodies[id].as_ref().unwrap()
    }

    /// The ids of the bodies, in ascending order.
    pub fn ids(&self) -> (r: Vec<BodyId>)
        ensures
            forall|id: BodyId| r@.contains(id) <==> self.contains(id),
            forall|i: int, j: int| 0 <= i < j < r@.len() ==> r@[i] < r@[j],
    {
        let mut r: Vec<BodyId> = Vec::new();
        let mut i: usize = 0;
        while i < self.bodies.len()
            invariant
                i <= self.bodies@.len(),
                forall|k: int| 0 <= k < r@.len() ==> (#[trigger] r@[k]) < i && self.contains(r@[k]),
                forall|id: BodyId| id < i && self.contains(id) ==> r@.contains(id),
                forall|a: int, b: int| 0 <= a < b < r@.len() ==> r@[a] < r@[b],
            decreases self.bodies@.len() - i,
        {
            if self.bodies[i].is_some() {
                let ghost before = r@;
                r.push(i);
                proof {
                    assert(r@[before.len() as int] == i);
                    assert forall|id: BodyId| id < i + 1 && self.contains(id) implies r@.contains(
                        id,
                    ) by {
                        if id < i {
                            let k = choose|k: int| 0 <= k < before.len() && before[k] == id;
                            assert(r@[k] == id);
                        }
                    }
                }
            }
            i += 1;
        }
        r
    }

    /// Puts `body` into the first free slot, or into a new slot when none is
    /// free, and returns the slot as the body's id.
    pub fn add(&mut self, body: Body<S>) -> (id: BodyId)
        requires
            old(self).wf(),
        ensures
            final(self).wf(),
            id == old(self).first_free(),
            !old(self).contains(id),
            id <= old(self)@.len(),
            forall|j: int| 0 <= j < id ==> old(self)@[j] is Some,
            final(self)@ == (if id < old(self)@.len() {
                old(self)@.update(
                    id as int,
                    Some(
                        Body::make(
                            id,
                            body.spec_proxy_id(),
                            body.spec_bounds(),
                            body.spec_is_static(),
                            body.spec_state(),
                        ),
                    ),
                )
            } else {
                old(self)@.push(
                    Some(
                        Body::make(
                            id,
                            body.spec_proxy_id(),
                            body.spec_bounds(),
                            body.spec_is_static(),
                            body.spec_state(),
                        ),
                    ),
                )
            }),
            final(self).spec_len() == old(self).spec_len() + 1,
    {
        let mut body = body;
        let n = self.bodies.len();
        let mut index: usize = 0;
        while index < n && self.bodies[index].is_some()
            invariant
                n == self.bodies@.len(),
                index <= n,
                forall|j: int| 0 <= j < index ==> self.bodies@[j] is Some,
            decreases n - index,
        {
            index += 1;
        }
        proof {
            if index < n {
                let w = choose|i: int|
                    0 <= i < self@.len() && self@[i] is None && forall|j: int|
                        0 <= j < i ==> self@[j] is Some;
                assert(w == index) by {
                    if w < index {
                        assert(self@[w] is Some);
                    }
                    if index < w {
                        assert(self@[index as int] is Some);
                    }
                }
            } else {
                assert(!(exists|i: int| 0 <= i < self@.len() && self@[i] is None));
            }
            lemma_occupied_bound(self@, self@.len());
        }
        body.set_id(index);
        let ghost slots = self.bodies@;
        let ghost placed = Some(body);
        if index < n {
            self.bodies[index] = Some(body);
        } else {
            self.bodies.push(Some(body));
        }
        proof {
            if index < n {
                assert(self.bodies@ =~= slots.update(index as int, placed));
                lemma_occupied_update(slots, index as int, placed, slots.len());
            } else {
                assert(self.bodies@ =~= slots.push(placed));
                lemma_occupied_push(slots, placed, slots.len());
            }
            lemma_occupied_bound(self.bodies@, self.bodies@.len());
            assert(self.bodies.len() == self.bodies@.len());
        }
        self.len += 1;
        proof {
            if index < n {
                assert(self@ =~= slots.update(index as int, placed));
                lemma_occupied_update(slots, index as int, placed, slots.len());
            } else {
                assert(self@ =~= slots.push(placed));
                lemma_occupied_push(slots, placed, slots.len());
                assert(occupied(self@, self@.len()) == occupied(self@, slots.len()) + 1);
            }
            assert forall|id: BodyId| #[trigger] self.contains(id) implies self.body(id).spec_id()
                == id by {
                if id != index {
                    assert(old(self).contains(id));
                    assert(self.body(id) == old(self).body(id));
                }
            }
        }
        index
    }

    /// Takes the body named `id` out of the arena and frees its slot.
    pub fn remove(&mut self, id: BodyId) -> (r: Option<Body<S>>)
        requires
            old(self).wf(),
        ensures
            final(self).wf(),
            old(self).contains(id) ==> r == Some(old(self).body(id))
                && final(self)@ == old(self)@.update(id as int, None)
                && final(self).spec_len() == old(self).spec_len() - 1,
            !old(self).contains(id) ==> r is None && final(self)@ == old(self)@
                && final(self).spec_len() == old(self).spec_len(),
    {
        if id >= self.bodies.len() {
            return None;
        }
        let ghost slots = self.bodies@;
        let taken = self.bodies[id].take();
        proof {
            assert(self.bodies@ =~= slots.update(id as int, None));
            lemma_occupied_update(slots, id as int, None, slots.len());
            lemma_occupied_bound(self.bodies@, slots.len());
        }
        if taken.is_some() {
            self.len -= 1;
        }
        proof {
            assert forall|j: BodyId| #[trigger] self.contains(j) implies self.body(j).spec_id()
                == j by {
                assert(old(self).contains(j));
                assert(self.body(j) == old(self).body(j));
            }
        }
        taken
    }

    /// The id that the next body gets.
    pub fn next_id(&self) -> (id: BodyId)
        ensures
            id == self.first_free(),
            id <= self@.len(),
            !self.contains(id),
    {
        let n = self.bodies.len();
        let mut index: usize = 0;
        while index < n && self.bodies[index].is_some()
            invariant
                n == self.bodies@.len(),
                index <= n,
                forall|j: int| 0 <= j < index ==> self.bodies@[j] is Some,
            decreases n - index,
        {
            index += 1;
        }
        proof {
            if index < n {
                let w = choose|i: int|
                    0 <= i < self@.len() && self@[i] is None && forall|j: int|
                        0 <= j < i ==> self@[j] is Some;
                assert(w == index) by {
                    if w < index {
                        assert(self@[w] is Some);
                    }
                    if index < w {
                        assert(self@[index as int] is Some);
                    }
                }
            } else {
                assert(!(exists|i: int| 0 <= i < self@.len() && self@[i] is None));
            }
        }
        index
    }

    /// The body named `id`, for writing.
    pub(crate) fn body_mut(&mut self, id: BodyId) -> (r: &mut Body<S>)
        requires
            old(self).contains(id),
        ensures
            *r == old(self).body(id),
            final(self)@ == old(self)@.update(id as int, Some(*final(r))),
            final(self).spec_len() == old(self).spec_len(),
    {
        self.bodies[id].as_mut().unwrap()
    }

    /// The slots of the arena after the body named `id` has been given the state `state`.
    pub open spec fn with_state(&self, id: BodyId, state: S) -> Seq<Option<Body<S>>> {
        self@.update(
            id as int,
            Some(
                Body::make(
                    id,
                    self.body(id).spec_proxy_id(),
                    self.body(id).spec_bounds(),
                    self.body(id).spec_is_static(),
                    state,
                ),
            ),
        )
    }

    /// The slots of the arena after the bodies named `a` and `b` have been
    /// given the states `first` and `second`.
    pub open spec fn with_states(&self, a: BodyId, first: S, b: BodyId, second: S) -> Seq<
        Option<Body<S>>,
    > {
        self.with_state(a, first).update(
            b as int,
            Some(
                Body::make(
                    b,
                    self.body(b).spec_proxy_id(),
                    self.body(b).spec_bounds(),
                    self.body(b).spec_is_static(),
                    second,
                ),
            ),
        )
    }

    /// Giving bodies other states keeps the arena sound.
    pub proof fn lemma_with_state(&self, a: BodyId, first: S, b: BodyId, second: S)
        requires
            self.wf(),
            self.contains(a),
            self.contains(b),
        ensures
            slots_wf(self.with_state(a, first), self.spec_len()),
            slots_wf(self.with_states(a, first, b, second), self.spec_len()),
    {
        let one = Body::make(
            a,
            self.body(a).spec_proxy_id(),
            self.body(a).spec_bounds(),
            self.body(a).spec_is_static(),
            first,
        );
        let two = Body::make(
            b,
            self.body(b).spec_proxy_id(),
            self.body(b).spec_bounds(),
            self.body(b).spec_is_static(),
            second,
        );
        lemma_slots_replace(self@, self.spec_len(), a, one);
        lemma_slots_replace(self.with_state(a, first), self.spec_len(), b, two);
    }

    /// What the solver keeps for the body named `id`, for writing. Nothing
    /// else changes.
    pub fn state_mut(&mut self, id: BodyId) -> (r: &mut S)
        requires
            old(self).wf(),
            old(self).contains(id),
        ensures
            *r == old(self).body(id).spec_state(),
            final(self)@ == old(self).with_state(id, *final(r)),
            final(self).spec_len() == old(self).spec_len(),
            final(self).wf(),
    {
        proof {
            assert forall|v: S| #[trigger]
                slots_wf(self.with_state(id, v), self.spec_len()) by {
                self.lemma_with_state(id, v, id, v);
            }
        }
        self.body_mut(id).state_mut()
    }

    /// What the solver keeps for the two bodies named `a` and `b`, for
    /// writing. Nothing else changes.
    pub fn pair_mut(&mut self, a: BodyId, b: BodyId) -> (r: (&mut S, &mut S))
        requires
            old(self).wf(),
            old(self).contains(a),
            old(self).contains(b),
            a != b,
        ensures
            *r.0 == old(self).body(a).spec_state(),
            *r.1 == old(self).body(b).spec_state(),
            final(self).spec_len() == old(self).spec_len(),
            final(self)@ == old(self).with_states(a, *final(r.0), b, *final(r.1)),
            slots_wf(
                old(self).with_states(a, *final(r.0), b, *final(r.1)),
                old(self).spec_len(),
            ),
    {
        proof {
            assert forall|v: S, w: S| #[trigger]
                slots_wf(self.with_states(a, v, b, w), self.spec_len()) by {
                self.lemma_with_state(a, v, b, w);
            }
        }
        if a < b {
            let (low, high) = self.bodies.as_mut_slice().split_at_mut(b);
            let first = low[a].as_mut().unwrap().state_mut();
            let second = high[0].as_mut().unwrap().state_mut();
            (first, second)
        } else {
            let (low, high) = self.bodies.as_mut_slice().split_at_mut(a);
            let second = low[b].as_mut().unwrap().state_mut();
            let first = high[0].as_mut().unwrap().state_mut();
            (first, second)
        }
    }
}

impl<S> Default for Bodies<S> {
    fn default() -> (r: Bodies<S>)
        ensures
            r.wf(),
            r@.len() == 0,
            r.spec_len() == 0,
    {
        Bodies::new()
    }
}

} // verus!
