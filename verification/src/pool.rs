//! A free-list-backed object pool addressed by stable integer ids.
//!
//! Slots are never returned to the allocator. A freed slot is threaded onto a
//! free list through its `next` field and is the first to be handed out again.

use vstd::prelude::*;

verus! {

/// Identifier of a slot of a [`Pool`].
pub type PoolId = usize;

/// One slot of a pool: the stored value and, while the slot is free, the id of
/// the next free slot.
pub struct PoolObject<T: Default> {
    pub data: T,
    pub next: PoolId,
}

impl<T: Default> PoolObject<T> {
    /// A slot holding the default value and linked to `next`.
    pub fn new(next: PoolId) -> (r: PoolObject<T>)
        ensures
            r.next == next,
            call_ensures(T::default, (), r.data),
    {
        PoolObject { data: T::default(), next }
    }
}

/// A pool of values of type `T` in slots that are named by stable ids.
pub struct Pool<T: Default> {
    object_pool: Vec<PoolObject<T>>,
    object_count: usize,
    next_free_object_id: PoolId,
    /// The free slots, in the order in which they will be handed out.
    free: Ghost<Seq<PoolId>>,
}

impl<T: Default> Pool<T> {
    /// The value stored in every slot created so far, free or not.
    pub closed spec fn slots(&self) -> Seq<T> {
        Seq::new(self.object_pool@.len(), |i: int| self.object_pool@[i].data)
    }

    /// The free slots, first the one that the next allocation returns.
    pub closed spec fn free_list(&self) -> Seq<PoolId> {
        self.free@
    }

    /// Number of slots created so far.
    pub open spec fn capacity(&self) -> nat {
        self.slots().len()
    }

    /// Whether `id` names a slot that is currently handed out.
    pub open spec fn is_allocated(&self, id: PoolId) -> bool {
        id < self.capacity() && !self.free_list().contains(id)
    }

    /// The id that the next allocation returns.
    pub open spec fn next_id(&self) -> PoolId {
        if self.free_list().len() > 0 {
            self.free_list()[0]
        } else {
            self.capacity() as usize
        }
    }

    /// Number of slots currently handed out.
    pub closed spec fn spec_object_count(&self) -> usize {
        self.object_count
    }

    /// The id that the next allocation returns.
    pub closed spec fn spec_next_free_object_id(&self) -> PoolId {
        self.next_free_object_id
    }

    /// The free list is a chain of distinct existing slots that starts at
    /// `next_free_object_id` and ends one past the last slot.
    pub closed spec fn wf(&self) -> bool {
        let n = self.object_pool@.len();
        let f = self.free@;
        &&& f.no_duplicates()
        &&& forall|i: int| 0 <= i < f.len() ==> (#[trigger] f[i]) < n
        &&& forall|i: int|
            0 <= i < f.len() ==> (#[trigger] self.object_pool@[f[i] as int]).next == (if i + 1
                < f.len() {
                f[i + 1]
            } else {
                n as usize
            })
        &&& self.next_free_object_id == (if f.len() > 0 {
            f[0]
        } else {
            n as usize
        })
        &&& self.object_count + f.len() == n
    }

    /// What well-formedness says of the public model.
    pub proof fn lemma_wf(&self)
        requires
            self.wf(),
        ensures
            self.free_list().no_duplicates(),
            forall|i: int|
                0 <= i < self.free_list().len() ==> (#[trigger] self.free_list()[i])
                    < self.capacity(),
            self.spec_next_free_object_id() == self.next_id(),
            self.spec_object_count() + self.free_list().len() == self.capacity(),
            self.next_id() <= self.capacity(),
            !self.is_allocated(self.next_id()),
            self.capacity() <= usize::MAX,
    {
        assert(self.object_pool.len() == self.object_pool@.len());
        if self.free@.len() > 0 {
            assert(self.free@[0] < self.object_pool@.len());
            assert(self.free@.contains(self.free@[0]));
        }
    }

    /// Distinct slots that are handed out are no more than the count says.
    pub proof fn lemma_allocated_count(&self, s: Seq<PoolId>)
        requires
            self.wf(),
            s.no_duplicates(),
            forall|i: int| 0 <= i < s.len() ==> self.is_allocated(#[trigger] s[i]),
        ensures
            s.len() <= self.spec_object_count(),
    {
        let f = self.free@;
        let n = self.object_pool@.len();
        assert(self.object_pool.len() == n);
        let all = s + f;
        assert forall|i: int, j: int| 0 <= i < all.len() && 0 <= j < all.len() && i != j implies all[i]
            != all[j] by {
            if i < s.len() && j >= s.len() {
                assert(self.is_allocated(s[i]));
                assert(f.contains(f[j - s.len()]));
            }
            if j < s.len() && i >= s.len() {
                assert(self.is_allocated(s[j]));
                assert(f.contains(f[i - s.len()]));
            }
        }
        assert forall|i: int| 0 <= i < all.len() implies (#[trigger] all[i]) < n by {
            if i < s.len() {
                assert(self.is_allocated(s[i]));
            } else {
                assert(f[i - s.len()] < n);
            }
        }
        lemma_distinct_below(all, n);
    }

    /// An empty pool with room reserved for `initial_capacity` slots.
    pub fn new(initial_capacity: PoolId) -> (r: Pool<T>)
        ensures
            r.wf(),
            r.capacity() == 0,
            r.free_list() == Seq::<PoolId>::empty(),
            r.spec_object_count() == 0,
    {
        let node_pool = Vec::with_capacity(initial_capacity);
        Pool { object_pool: node_pool, object_count: 0, next_free_object_id: 0, free: Ghost(Seq::empty()) }
    }

    /// Number of slots currently handed out.
    pub fn object_count(&self) -> (r: usize)
        ensures
            r == self.spec_object_count(),
    {
        self.object_count
    }

    /// The id that the next allocation returns.
    pub fn next_free_object_id(&self) -> (r: PoolId)
        ensures
            r == self.spec_next_free_object_id(),
    {
        self.next_free_object_id
    }

    /// Hands out a slot holding `data`: the most recently freed one, or a new
    /// slot at the end when none is free.
    pub fn allocate_with(&mut self, data: T) -> (id: PoolId)
        requires
            old(self).wf(),
        ensures
            final(self).wf(),
            id == old(self).next_id(),
            !old(self).is_allocated(id),
            final(self).is_allocated(id),
            final(self).free_list() == (if old(self).free_list().len() > 0 {
                old(self).free_list().skip(1)
            } else {
                Seq::<PoolId>::empty()
            }),
            final(self).capacity() == (if old(self).free_list().len() > 0 {
                old(self).capacity()
            } else {
                old(self).capacity() + 1
            }),
            final(self).slots() == (if old(self).free_list().len() > 0 {
                old(self).slots().update(id as int, data)
            } else {
                old(self).slots().push(data)
            }),
            final(self).spec_object_count() == old(self).spec_object_count() + 1,
            forall|j: PoolId| j != id ==> final(self).is_allocated(j) == old(self).is_allocated(j),
    {
        let ghost f = self.free@;
        let ghost n = self.object_pool@.len();
        proof {
            if f.len() > 0 {
                assert(f[0] < n);
            }
        }
        if self.next_free_object_id == self.object_pool.len() {
            let slot = self.next_free_object_id;
            self.object_pool.push(PoolObject::new(slot));
            let end = self.object_pool.len();
            self.object_pool[slot].next = end;
            proof {
                self.free = Ghost(seq![n as usize]);
            }
        }
        proof {
            assert(self.free@.len() > 0);
            assert(self.free@[0] == self.next_free_object_id);
        }
        self.object_count += 1;
        let object_id = self.next_free_object_id;
        let next = self.object_pool[object_id].next;
        self.object_pool[object_id] = PoolObject { data, next };
        self.next_free_object_id = next;
        proof {
            let g = self.free@;
            self.free = Ghost(g.skip(1));
            assert forall|i: int| 0 <= i < g.skip(1).len() implies (#[trigger] g.skip(1)[i])
                != object_id by {
                assert(g[i + 1] == g.skip(1)[i]);
            }
            assert(!g.skip(1).contains(object_id));
            assert forall|j: PoolId| j != object_id implies (g.skip(1).contains(j) <==> f.contains(
                j,
            )) by {
                if f.contains(j) {
                    let k = choose|k: int| 0 <= k < f.len() && f[k] == j;
                    if f.len() > 0 {
                        assert(g == f);
                        assert(k != 0);
                        assert(g.skip(1)[k - 1] == j);
                    }
                }
                if g.skip(1).contains(j) {
                    let k = choose|k: int| 0 <= k < g.skip(1).len() && g.skip(1)[k] == j;
                    assert(g[k + 1] == j);
                    if f.len() > 0 {
                        assert(f[k + 1] == j);
                    }
                }
            }
            if f.len() > 0 {
                assert(self.slots() =~= old(self).slots().update(object_id as int, data));
            } else {
                assert(self.slots() =~= old(self).slots().push(data));
                assert(g.skip(1) =~= Seq::<PoolId>::empty());
            }
        }
        object_id
    }

    /// Hands out a slot holding the default value.
    pub fn allocate(&mut self) -> (id: PoolId)
        requires
            old(self).wf(),
        ensures
            final(self).wf(),
            id == old(self).next_id(),
            !old(self).is_allocated(id),
            final(self).is_allocated(id),
            final(self).free_list() == (if old(self).free_list().len() > 0 {
                old(self).free_list().skip(1)
            } else {
                Seq::<PoolId>::empty()
            }),
            final(self).capacity() == (if old(self).free_list().len() > 0 {
                old(self).capacity()
            } else {
                old(self).capacity() + 1
            }),
            call_ensures(T::default, (), final(self).slots()[id as int]),
            forall|j: int|
                0 <= j < old(self).capacity() && j != id ==> final(self).slots()[j] == old(
                    self,
                ).slots()[j],
            final(self).spec_object_count() == old(self).spec_object_count() + 1,
            forall|j: PoolId| j != id ==> final(self).is_allocated(j) == old(self).is_allocated(j),
    {
        self.allocate_with(T::default())
    }

    /// Returns the slot `id` to the pool. Its value is reset to the default
    /// and it becomes the next slot to be handed out.
    pub fn free(&mut self, id: PoolId)
        requires
            old(self).wf(),
            old(self).is_allocated(id),
        ensures
            final(self).wf(),
            final(self).free_list() == seq![id] + old(self).free_list(),
            final(self).next_id() == id,
            final(self).capacity() == old(self).capacity(),
            call_ensures(T::default, (), final(self).slots()[id as int]),
            forall|j: int|
                0 <= j < old(self).capacity() && j != id ==> final(self).slots()[j] == old(
                    self,
                ).slots()[j],
            final(self).spec_object_count() == old(self).spec_object_count() - 1,
            !final(self).is_allocated(id),
            forall|j: PoolId| j != id ==> final(self).is_allocated(j) == old(self).is_allocated(j),
    {
        let ghost f = self.free@;
        self.object_pool[id] = PoolObject::new(self.next_free_object_id);
        self.next_free_object_id = id;
        proof {
            self.free = Ghost(seq![id] + f);
            let g = self.free@;
            assert(g[0] == id);
            assert forall|i: int| 1 <= i < g.len() implies g[i] == f[i - 1] by {}
            assert forall|j: PoolId| j != id implies (g.contains(j) <==> f.contains(j)) by {
                if f.contains(j) {
                    let k = choose|k: int| 0 <= k < f.len() && f[k] == j;
                    assert(g[k + 1] == j);
                }
                if g.contains(j) {
                    let k = choose|k: int| 0 <= k < g.len() && g[k] == j;
                    assert(f[k - 1] == j);
                }
            }
            assert(g.contains(id));
            assert(f.len() < self.object_pool@.len()) by {
                assert(self.object_pool.len() == self.object_pool@.len());
                lemma_distinct_below_excluding(f, self.object_pool@.len(), id);
            }
        }
        self.object_count -= 1;
    }

    /// The value in slot `id`.
    pub fn get(&self, id: PoolId) -> (r: &T)
        requires
            id < self.capacity(),
        ensures
            *r == self.slots()[id as int],
    {
        &self.object_pool[id].data
    }

    /// The value in slot `id`, for writing. Which slots are free does not change.
    pub fn get_mut(&mut self, id: PoolId) -> (r: &mut T)
        requires
            old(self).wf(),
            id < old(self).capacity(),
        ensures
            *r == old(self).slots()[id as int],
            final(self).slots() == old(self).slots().update(id as int, *final(r)),
            final(self).free_list() == old(self).free_list(),
            final(self).spec_object_count() == old(self).spec_object_count(),
            final(self).spec_next_free_object_id() == old(self).spec_next_free_object_id(),
            final(self).wf(),
    {
        &mut self.object_pool[id].data
    }
}

/// A sequence of distinct numbers below `n` that leaves one of them out has
/// fewer than `n` entries.
pub proof fn lemma_distinct_below_excluding(f: Seq<PoolId>, n: nat, x: PoolId)
    requires
        f.no_duplicates(),
        forall|i: int| 0 <= i < f.len() ==> (#[trigger] f[i]) < n,
        x < n,
        n <= usize::MAX + 1,
        !f.contains(x),
    ensures
        f.len() < n,
{
    let s = f.to_set();
    f.unique_seq_to_set();
    let full = Set::new(|k: PoolId| k < n);
    assert(full.finite() && full.len() == n) by {
        lemma_below_set(n);
    }
    assert(s.insert(x).subset_of(full)) by {
        assert forall|k: PoolId| s.insert(x).contains(k) implies full.contains(k) by {
            if k != x {
                let i = choose|i: int| 0 <= i < f.len() && f[i] == k;
                assert(f[i] < n);
            }
        }
    }
    vstd::set_lib::lemma_len_subset(s.insert(x), full);
}

/// A sequence of distinct numbers below `n` has at most `n` entries.
pub proof fn lemma_distinct_below(f: Seq<PoolId>, n: nat)
    requires
        f.no_duplicates(),
        forall|i: int| 0 <= i < f.len() ==> (#[trigger] f[i]) < n,
        n <= usize::MAX + 1,
    ensures
        f.len() <= n,
{
    let s = f.to_set();
    f.unique_seq_to_set();
    let full = Set::new(|k: PoolId| k < n);
    lemma_below_set(n);
    assert(s.subset_of(full)) by {
        assert forall|k: PoolId| s.contains(k) implies full.contains(k) by {
            let i = choose|i: int| 0 <= i < f.len() && f[i] == k;
            assert(f[i] < n);
        }
    }
    vstd::set_lib::lemma_len_subset(s, full);
}

/// The ids below `n` form a finite set of `n` elements.
pub proof fn lemma_below_set(n: nat)
    requires
        n <= usize::MAX + 1,
    ensures
        Set::new(|k: PoolId| k < n).finite(),
        Set::new(|k: PoolId| k < n).len() == n,
    decreases n,
{
    let s = Set::new(|k: PoolId| k < n);
    if n == 0 {
        assert(s =~= Set::<PoolId>::empty());
    } else {
        let m = (n - 1) as nat;
        lemma_below_set(m);
        let t = Set::new(|k: PoolId| k < m);
        assert(s =~= t.insert(m as usize));
    }
}

impl<T: Default> Default for Pool<T> {
    /// An empty pool with room reserved for 64 slots.
    fn default() -> (r: Pool<T>)
        ensures
            r.wf(),
            r.capacity() == 0,
            r.free_list() == Seq::<PoolId>::empty(),
            r.spec_object_count() == 0,
    {
        Pool::new(64)
    }
}

} // verus!
