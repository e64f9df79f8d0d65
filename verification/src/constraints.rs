//! The constraints of a world, kept per pair of bodies.
//!
//! The lists live in a hash map with the FNV hasher, keyed by one integer per
//! pair. What the map does is taken on trust from the standard library and
//! the `fnv` crate; everything above the map is proved.

use crate::body::{BodyId, BodyPair};
use fnv::FnvHashMap;
use vstd::prelude::*;

verus! {

/// The hasher of the `fnv` crate.
#[verifier::external_type_specification]
#[verifier::external_body]
pub struct ExFnvHasher(fnv::FnvHasher);

/// The hasher builder that the FNV map uses.
#[verifier::external_type_specification]
#[verifier::external_body]
#[verifier::reject_recursive_types(H)]
pub struct ExBuildHasherDefault<H>(core::hash::BuildHasherDefault<H>);

/// The key under which the lists of `pair` are stored: the first id in the
/// upper 64 bits, the second in the lower.
pub open spec fn spec_key(pair: BodyPair) -> u128 {
    (pair.0 as u128 * 0x1_0000_0000_0000_0000 + pair.1 as u128) as u128
}

/// The pair that is stored under `key`.
pub open spec fn spec_pair(key: u128) -> BodyPair {
    BodyPair((key / 0x1_0000_0000_0000_0000) as usize, (key % 0x1_0000_0000_0000_0000) as usize)
}

/// Different pairs have different keys, and keys order pairs by their first
/// id and then by their second.
pub proof fn lemma_key(a: BodyPair, b: BodyPair)
    ensures
        spec_pair(spec_key(a)) == a,
        spec_key(a) == spec_key(b) <==> a == b,
        spec_key(a) < spec_key(b) <==> a.0 < b.0 || (a.0 == b.0 && a.1 < b.1),
{
    assert(a.0 < 0x1_0000_0000_0000_0000 && a.1 < 0x1_0000_0000_0000_0000);
    assert(b.0 < 0x1_0000_0000_0000_0000 && b.1 < 0x1_0000_0000_0000_0000);
}

fn key(pair: BodyPair) -> (k: u128)
    ensures
        k == spec_key(pair),
{
    let hi: u128 = pair.0 as u128;
    let lo: u128 = pair.1 as u128;
    hi * 0x1_0000_0000_0000_0000 + lo
}

fn pair_of(k: u128) -> (pair: BodyPair)
    ensures
        pair == spec_pair(k),
{
    let hi: u128 = k / 0x1_0000_0000_0000_0000;
    let lo: u128 = k % 0x1_0000_0000_0000_0000;
    BodyPair(hi as usize, lo as usize)
}

/// `FnvHashMap::default` of the `fnv` crate, which is `HashMap::default` of
/// the standard library with the FNV hasher: the map it returns is empty.
#[verifier::external_body]
fn map_new<T>() -> (m: FnvHashMap<u128, Vec<T>>)
    ensures
        forall|k: u128| !m@.contains_key(k),
{
    FnvHashMap::default()
}

/// `HashMap::contains_key`: whether the map holds a value under `k`.
#[verifier::external_body]
fn map_contains_key<T>(m: &FnvHashMap<u128, Vec<T>>, k: u128) -> (b: bool)
    ensures
        b == m@.contains_key(k),
{
    m.contains_key(&k)
}

/// `HashMap::insert`: afterwards the map holds `v` under `k` and is
/// otherwise unchanged.
#[verifier::external_body]
fn map_insert<T>(m: &mut FnvHashMap<u128, Vec<T>>, k: u128, v: Vec<T>)
    ensures
        final(m)@ == old(m)@.insert(k, v),
{
    m.insert(k, v);
}

/// `HashMap::remove`: afterwards the map holds nothing under `k` and is
/// otherwise unchanged; the value that was held under `k` is returned.
#[verifier::external_body]
fn map_remove<T>(m: &mut FnvHashMap<u128, Vec<T>>, k: u128) -> (r: Option<Vec<T>>)
    ensures
        final(m)@ == old(m)@.remove(k),
        r == (if old(m)@.contains_key(k) {
            Some(old(m)@[k])
        } else {
            None
        }),
{
    m.remove(&k)
}

/// `HashMap::get`: the value held under `k`, if any.
#[verifier::external_body]
fn map_get<T>(m: &FnvHashMap<u128, Vec<T>>, k: u128) -> (r: Option<&Vec<T>>)
    ensures
        r == (if m@.contains_key(k) {
            Some(&m@[k])
        } else {
            None
        }),
{
    m.get(&k)
}

/// `HashMap::get_mut`: the value held under `k`, if any, for writing. What
/// is written replaces the value under `k`; nothing else changes.
#[verifier::external_body]
fn map_get_mut<T>(m: &mut FnvHashMap<u128, Vec<T>>, k: u128) -> (r: Option<&mut Vec<T>>)
    ensures
        old(m)@.contains_key(k) ==> r.is_some() && *r.unwrap() == old(m)@[k] && final(m)@ == old(
            m,
        )@.insert(k, *final(r.unwrap())),
        !old(m)@.contains_key(k) ==> r.is_none() && final(m)@ == old(m)@,
{
    m.get_mut(&k)
}

/// `HashMap::keys`, collected: every key of the map once, in the order in
/// which the map happens to hold them.
#[verifier::external_body]
fn map_keys<T>(m: &FnvHashMap<u128, Vec<T>>) -> (keys: Vec<u128>)
    ensures
        keys@.no_duplicates(),
        forall|k: u128| keys@.contains(k) <==> m@.contains_key(k),
{
    m.keys().copied().collect()
}

/// Whether `s` is strictly ascending.
pub open spec fn ascending(s: Seq<u128>) -> bool {
    forall|i: int, j: int| 0 <= i < j < s.len() ==> s[i] < s[j]
}

/// A set of keys has one ascending listing only.
pub proof fn lemma_ascending_unique(a: Seq<u128>, b: Seq<u128>)
    requires
        ascending(a),
        ascending(b),
        forall|k: u128| a.contains(k) <==> b.contains(k),
    ensures
        a == b,
    decreases a.len(),
{
    if a.len() == 0 {
        if b.len() > 0 {
            assert(b.contains(b[0]));
        }
        assert(a =~= b);
    } else {
        let m = a.last();
        assert(a.contains(m));
        assert(b.contains(m));
        let j = choose|j: int| 0 <= j < b.len() && b[j] == m;
        if j < b.len() - 1 {
            let x = b.last();
            assert(b.contains(x));
            let i = choose|i: int| 0 <= i < a.len() && a[i] == x;
            assert(a[i] <= a[a.len() - 1]);
        }
        let a2 = a.drop_last();
        let b2 = b.drop_last();
        assert forall|k: u128| a2.contains(k) <==> b2.contains(k) by {
            if a2.contains(k) {
                let i = choose|i: int| 0 <= i < a2.len() && a2[i] == k;
                assert(a[i] == k);
                assert(a.contains(k));
                let t = choose|t: int| 0 <= t < b.len() && b[t] == k;
                assert(k < m);
                assert(b2[t] == k);
            }
            if b2.contains(k) {
                let i = choose|i: int| 0 <= i < b2.len() && b2[i] == k;
                assert(b[i] == k);
                assert(b.contains(k));
                let t = choose|t: int| 0 <= t < a.len() && a[t] == k;
                assert(k < m);
                assert(a2[t] == k);
            }
        }
        lemma_ascending_unique(a2, b2);
        assert(a =~= a2.push(m));
        assert(b =~= b2.push(m));
    }
}

/// The keys of `keys` in ascending order.
fn sorted(keys: Vec<u128>) -> (r: Vec<u128>)
    requires
        keys@.no_duplicates(),
    ensures
        ascending(r@),
        forall|k: u128| r@.contains(k) <==> keys@.contains(k),
{
    let mut r: Vec<u128> = Vec::new();
    let mut n: usize = 0;
    while n < keys.len()
        invariant
            n <= keys@.len(),
            keys@.no_duplicates(),
            ascending(r@),
            forall|k: u128|
                r@.contains(k) <==> exists|i: int| 0 <= i < n && #[trigger] keys@[i] == k,
        decreases keys@.len() - n,
    {
        let x = keys[n];
        let mut at: usize = 0;
        while at < r.len() && r[at] < x
            invariant
                at <= r@.len(),
                forall|i: int| 0 <= i < at ==> r@[i] < x,
            decreases r@.len() - at,
        {
            at += 1;
        }
        let ghost before = r@;
        proof {
            if at < before.len() && before[at as int] == x {
                assert(before.contains(x));
                let i = choose|i: int| 0 <= i < n && #[trigger] keys@[i] == x;
                assert(keys@[i] == keys@[n as int]);
            }
        }
        r.insert(at, x);
        proof {
            assert forall|i: int, j: int| 0 <= i < j < r@.len() implies r@[i] < r@[j] by {
                if i < at && j > at {
                    assert(r@[j] == before[j - 1]);
                    assert(before[at as int] <= before[j - 1]);
                } else if i > at {
                    assert(r@[i] == before[i - 1] && r@[j] == before[j - 1]);
                } else if j < at {
                    assert(r@[i] == before[i] && r@[j] == before[j]);
                } else if i == at {
                    assert(r@[j] == before[j - 1]);
                    assert(before[at as int] <= before[j - 1]);
                }
            }
            assert forall|k: u128|
                r@.contains(k) <==> exists|i: int| 0 <= i < n + 1 && #[trigger] keys@[i] == k by {
                if r@.contains(k) {
                    let j = choose|j: int| 0 <= j < r@.len() && r@[j] == k;
                    if j < at {
                        assert(before[j] == k);
                        assert(before.contains(k));
                    } else if j > at {
                        assert(before[j - 1] == k);
                        assert(before.contains(k));
                    } else {
                        assert(keys@[n as int] == k);
                    }
                }
                if exists|i: int| 0 <= i < n + 1 && #[trigger] keys@[i] == k {
                    let i = choose|i: int| 0 <= i < n + 1 && #[trigger] keys@[i] == k;
                    if i < n {
                        assert(before.contains(k));
                        let j = choose|j: int| 0 <= j < before.len() && before[j] == k;
                        if j < at {
                            assert(r@[j] == k);
                        } else {
                            assert(r@[j + 1] == k);
                        }
                    } else {
                        assert(r@[at as int] == k);
                    }
                }
            }
        }
        n += 1;
    }
    proof {
        assert forall|k: u128| r@.contains(k) <==> keys@.contains(k) by {
            if keys@.contains(k) {
                let i = choose|i: int| 0 <= i < keys@.len() && keys@[i] == k;
                assert(keys@[i] == k);
            }
        }
    }
    r
}

/// The lists of `m` by pair.
pub open spec fn by_pair<T>(m: Map<u128, Vec<T>>) -> Map<BodyPair, Vec<T>> {
    Map::new(|p: BodyPair| m.contains_key(spec_key(p)), |p: BodyPair| m[spec_key(p)])
}

/// Every key of `m` is the key of a pair.
pub open spec fn keys_ok<T>(m: Map<u128, Vec<T>>) -> bool {
    forall|k: u128| #[trigger] m.contains_key(k) ==> spec_key(spec_pair(k)) == k
}

proof fn lemma_by_pair_insert<T>(m: Map<u128, Vec<T>>, pair: BodyPair, list: Vec<T>)
    ensures
        by_pair(m.insert(spec_key(pair), list)) == by_pair(m).insert(pair, list),
        keys_ok(m) ==> keys_ok(m.insert(spec_key(pair), list)),
{
    let a = by_pair(m.insert(spec_key(pair), list));
    let b = by_pair(m).insert(pair, list);
    lemma_key(pair, pair);
    assert forall|p: BodyPair| #[trigger] a.dom().contains(p) <==> b.dom().contains(p) by {
        lemma_key(p, pair);
    }
    assert forall|p: BodyPair| #[trigger] a.dom().contains(p) implies a[p] == b[p] by {
        lemma_key(p, pair);
    }
    assert(a =~= b);
}

proof fn lemma_by_pair_remove<T>(m: Map<u128, Vec<T>>, pair: BodyPair)
    ensures
        by_pair(m.remove(spec_key(pair))) == by_pair(m).remove(pair),
        keys_ok(m) ==> keys_ok(m.remove(spec_key(pair))),
{
    let a = by_pair(m.remove(spec_key(pair)));
    let b = by_pair(m).remove(pair);
    assert forall|p: BodyPair| #[trigger] a.dom().contains(p) <==> b.dom().contains(p) by {
        lemma_key(p, pair);
    }
    assert forall|p: BodyPair| #[trigger] a.dom().contains(p) implies a[p] == b[p] by {
        lemma_key(p, pair);
    }
    assert(a =~= b);
}

/// `now` is `before` with an empty list for every pair of `added` that had
/// no list.
pub open spec fn grown<T>(
    now: Map<BodyPair, Vec<T>>,
    before: Map<BodyPair, Vec<T>>,
    added: Set<BodyPair>,
) -> bool {
    &&& now.dom() == before.dom().union(added)
    &&& forall|p: BodyPair| #[trigger] before.contains_key(p) ==> now[p] == before[p]
    &&& forall|p: BodyPair|
        #[trigger] now.contains_key(p) && !before.contains_key(p) ==> now[p]@ == Seq::<T>::empty()
}

/// Growing twice is growing once by both sets.
pub proof fn lemma_grown_twice<T>(
    last: Map<BodyPair, Vec<T>>,
    mid: Map<BodyPair, Vec<T>>,
    first: Map<BodyPair, Vec<T>>,
    a: Set<BodyPair>,
    b: Set<BodyPair>,
)
    requires
        grown(mid, first, a),
        grown(last, mid, b),
    ensures
        grown(last, first, a.union(b)),
{
    assert(last.dom() =~= first.dom().union(a.union(b)));
    assert forall|p: BodyPair| #[trigger] first.contains_key(p) implies last[p] == first[p] by {
        assert(mid.contains_key(p));
    }
    assert forall|p: BodyPair| #[trigger]
        last.contains_key(p) && !first.contains_key(p) implies last[p]@ == Seq::<T>::empty() by {
        if mid.contains_key(p) {
        }
    }
}

/// For each pair of bodies that has any, the list of its constraints.
pub struct ConstraintsMap<T> {
    map: FnvHashMap<u128, Vec<T>>,
}

impl<T> ConstraintsMap<T> {
    /// The lists by pair.
    pub closed spec fn view(&self) -> Map<BodyPair, Vec<T>> {
        by_pair(self.map@)
    }

    /// Every key of the underlying map is the key of a pair.
    pub closed spec fn wf(&self) -> bool {
        keys_ok(self.map@)
    }

    /// A map without lists.
    pub fn new() -> (r: ConstraintsMap<T>)
        ensures
            r.wf(),
            forall|p: BodyPair| !r@.contains_key(p),
    {
        ConstraintsMap { map: map_new() }
    }

    /// Whether `pair` has a list, empty or not.
    pub fn contains_key(&self, pair: &BodyPair) -> (r: bool)
        ensures
            r == self@.contains_key(*pair),
    {
        map_contains_key(&self.map, key(*pair))
    }

    /// Gives `pair` the list `list` in place of the one it has, if any.
    pub fn insert(&mut self, pair: BodyPair, list: Vec<T>)
        requires
            old(self).wf(),
        ensures
            final(self).wf(),
            final(self)@ == old(self)@.insert(pair, list),
    {
        proof {
            lemma_by_pair_insert(self.map@, pair, list);
        }
        map_insert(&mut self.map, key(pair), list);
    }

    /// Takes the list of `pair`, if it has one, out of the map.
    pub fn remove(&mut self, pair: &BodyPair) -> (r: Option<Vec<T>>)
        requires
            old(self).wf(),
        ensures
            final(self).wf(),
            final(self)@ == old(self)@.remove(*pair),
            r == (if old(self)@.contains_key(*pair) {
                Some(old(self)@[*pair])
            } else {
                None
            }),
    {
        proof {
            lemma_by_pair_remove(self.map@, *pair);
        }
        map_remove(&mut self.map, key(*pair))
    }

    /// The list of `pair`, if it has one.
    pub fn get(&self, pair: &BodyPair) -> (r: Option<&Vec<T>>)
        ensures
            r == (if self@.contains_key(*pair) {
                Some(&self@[*pair])
            } else {
                None
            }),
    {
        map_get(&self.map, key(*pair))
    }

    /// The list of `pair`, if it has one, for writing. The lists of the
    /// other pairs do not change.
    pub fn get_mut(&mut self, pair: &BodyPair) -> (r: Option<&mut Vec<T>>)
        requires
            old(self).wf(),
        ensures
            old(self)@.contains_key(*pair) ==> r.is_some() && *r.unwrap() == old(self)@[*pair]
                && final(self)@ == old(self)@.insert(*pair, *final(r.unwrap())),
            !old(self)@.contains_key(*pair) ==> r.is_none() && final(self)@ == old(self)@,
            final(self).wf(),
    {
        let ghost m = self.map@;
        let r = map_get_mut(&mut self.map, key(*pair));
        proof {
            if m.contains_key(spec_key(*pair)) {
                lemma_by_pair_insert(m, *pair, *final(r.unwrap()));
            }
        }
        r
    }

    /// Appends `item` to the list of `pair`, which is created if need be.
    pub fn push(&mut self, pair: BodyPair, item: T)
        requires
            old(self).wf(),
        ensures
            final(self).wf(),
            final(self)@.dom() == old(self)@.dom().insert(pair),
            forall|p: BodyPair| p != pair && old(self)@.contains_key(p) ==> final(self)@[p] == old(
                self,
            )@[p],
            final(self)@[pair]@ == (if old(self)@.contains_key(pair) {
                old(self)@[pair]@.push(item)
            } else {
                seq![item]
            }),
    {
        let mut list = match self.remove(&pair) {
            Some(list) => list,
            None => Vec::new(),
        };
        list.push(item);
        self.insert(pair, list);
        proof {
            assert(self@.dom() =~= old(self)@.dom().insert(pair));
        }
    }

    /// Gives `pair` an empty list unless it has a list already.
    pub fn ensure(&mut self, pair: BodyPair)
        requires
            old(self).wf(),
        ensures
            final(self).wf(),
            old(self)@.contains_key(pair) ==> final(self)@ == old(self)@,
            grown(final(self)@, old(self)@, set![pair]),
    {
        if !self.contains_key(&pair) {
            self.insert(pair, Vec::new());
        }
        proof {
            assert(self@.dom() =~= old(self)@.dom().union(set![pair]));
        }
    }

    /// The pairs that have a list, ordered by their first id and then by
    /// their second. The order depends on nothing but which pairs there are.
    pub fn pairs(&self) -> (r: Vec<BodyPair>)
        requires
            self.wf(),
        ensures
            forall|p: BodyPair| r@.contains(p) <==> self@.contains_key(p),
            ascending(r@.map_values(|p: BodyPair| spec_key(p))),
            r@.no_duplicates(),
    {
        let keys = sorted(map_keys(&self.map));
        let mut r: Vec<BodyPair> = Vec::new();
        let mut i: usize = 0;
        while i < keys.len()
            invariant
                i <= keys@.len(),
                r@.len() == i,
                self.wf(),
                forall|k: u128| keys@.contains(k) <==> self.map@.contains_key(k),
                forall|j: int| 0 <= j < i ==> spec_key(#[trigger] r@[j]) == keys@[j],
            decreases keys@.len() - i,
        {
            proof {
                assert(keys@.contains(keys@[i as int]));
            }
            r.push(pair_of(keys[i]));
            i += 1;
        }
        proof {
            let ks = r@.map_values(|p: BodyPair| spec_key(p));
            assert(ks =~= keys@);
            assert forall|p: BodyPair| r@.contains(p) <==> self@.contains_key(p) by {
                if r@.contains(p) {
                    let j = choose|j: int| 0 <= j < r@.len() && r@[j] == p;
                    assert(keys@.contains(keys@[j]));
                }
                if self@.contains_key(p) {
                    assert(keys@.contains(spec_key(p)));
                    let j = choose|j: int| 0 <= j < keys@.len() && keys@[j] == spec_key(p);
                    lemma_key(r@[j], p);
                }
            }
            assert forall|a: int, b: int| 0 <= a < r@.len() && 0 <= b < r@.len() && a != b implies r@[a]
                != r@[b] by {
                if a < b {
                    assert(keys@[a] < keys@[b]);
                } else {
                    assert(keys@[b] < keys@[a]);
                }
            }
        }
        r
    }

    /// Takes the lists of the pairs of `doomed` out of the map.
    pub fn remove_all(&mut self, doomed: &Vec<BodyPair>)
        requires
            old(self).wf(),
        ensures
            final(self).wf(),
            final(self)@ == old(self)@.remove_keys(doomed@.to_set()),
    {
        let mut i: usize = 0;
        proof {
            assert(doomed@.subrange(0, 0).to_set() =~= Set::<BodyPair>::empty());
            assert(self@ =~= old(self)@.remove_keys(Set::<BodyPair>::empty()));
        }
        while i < doomed.len()
            invariant
                i <= doomed@.len(),
                self.wf(),
                self@ == old(self)@.remove_keys(doomed@.subrange(0, i as int).to_set()),
            decreases doomed@.len() - i,
        {
            let pair = doomed[i];
            self.remove(&pair);
            proof {
                let head = doomed@.subrange(0, i as int);
                let next = doomed@.subrange(0, i + 1);
                assert(next =~= head.push(pair));
                assert forall|p: BodyPair|
                    next.to_set().contains(p) <==> head.to_set().contains(p) || p == pair by {
                    if head.to_set().contains(p) {
                        let k = choose|k: int| 0 <= k < head.len() && head[k] == p;
                        assert(next[k] == p);
                    }
                    if p == pair {
                        assert(next[i as int] == p);
                    }
                    if next.to_set().contains(p) {
                        let k = choose|k: int| 0 <= k < next.len() && next[k] == p;
                        if k < i {
                            assert(head[k] == p);
                        }
                    }
                }
                assert(self@ =~= old(self)@.remove_keys(next.to_set()));
            }
            i += 1;
        }
        proof {
            assert(doomed@.subrange(0, doomed@.len() as int) =~= doomed@);
        }
    }

    /// Takes the lists of the pairs that name the body `id` out of the map.
    pub fn remove_body(&mut self, id: BodyId)
        requires
            old(self).wf(),
        ensures
            final(self).wf(),
            final(self)@ == old(self)@.remove_keys(
                Set::new(|p: BodyPair| p.0 == id || p.1 == id),
            ),
    {
        let pairs = self.pairs();
        let mut doomed: Vec<BodyPair> = Vec::new();
        let mut i: usize = 0;
        while i < pairs.len()
            invariant
                i <= pairs@.len(),
                forall|p: BodyPair|
                    doomed@.contains(p) <==> (p.0 == id || p.1 == id) && exists|k: int|
                        0 <= k < i && #[trigger] pairs@[k] == p,
            decreases pairs@.len() - i,
        {
            let pair = pairs[i];
            let ghost before = doomed@;
            if pair.0 == id || pair.1 == id {
                doomed.push(pair);
            }
            proof {
                assert forall|p: BodyPair|
                    doomed@.contains(p) <==> (p.0 == id || p.1 == id) && exists|k: int|
                        0 <= k < i + 1 && #[trigger] pairs@[k] == p by {
                    if doomed@.contains(p) {
                        let t = choose|t: int| 0 <= t < doomed@.len() && doomed@[t] == p;
                        if t < before.len() {
                            assert(before[t] == p);
                            assert(before.contains(p));
                            let k = choose|k: int| 0 <= k < i && #[trigger] pairs@[k] == p;
                            assert(0 <= k < i + 1);
                        } else {
                            assert(pairs@[i as int] == p);
                        }
                    }
                    if (p.0 == id || p.1 == id) && exists|k: int|
                        0 <= k < i + 1 && #[trigger] pairs@[k] == p {
                        let k = choose|k: int| 0 <= k < i + 1 && #[trigger] pairs@[k] == p;
                        if k < i {
                            assert(before.contains(p));
                            let t = choose|t: int| 0 <= t < before.len() && before[t] == p;
                            assert(doomed@[t] == p);
                        } else {
                            assert(doomed@[before.len() as int] == p);
                        }
                    }
                }
            }
            i += 1;
        }
        self.remove_all(&doomed);
        proof {
            let gone = Set::new(|p: BodyPair| p.0 == id || p.1 == id);
            assert forall|p: BodyPair| old(self)@.contains_key(p) implies (doomed@.to_set().contains(
                p,
            ) <==> gone.contains(p)) by {
                if gone.contains(p) {
                    assert(pairs@.contains(p));
                    let k = choose|k: int| 0 <= k < pairs@.len() && pairs@[k] == p;
                    assert(pairs@[k] == p);
                    assert(doomed@.contains(p));
                }
                if doomed@.to_set().contains(p) {
                    assert(doomed@.contains(p));
                }
            }
            assert(self@ =~= old(self)@.remove_keys(gone));
        }
    }

    /// Drops the pairs whose lists are empty.
    pub fn prune_empty(&mut self)
        requires
            old(self).wf(),
        ensures
            final(self).wf(),
            forall|p: BodyPair|
                final(self)@.contains_key(p) <==> old(self)@.contains_key(p) && old(self)@[p]@.len()
                    > 0,
            forall|p: BodyPair| final(self)@.contains_key(p) ==> final(self)@[p] == old(self)@[p],
    {
        let pairs = self.pairs();
        let mut i: usize = 0;
        while i < pairs.len()
            invariant
                i <= pairs@.len(),
                self.wf(),
                pairs@.no_duplicates(),
                forall|p: BodyPair| pairs@.contains(p) <==> old(self)@.contains_key(p),
                forall|p: BodyPair|
                    self@.contains_key(p) <==> old(self)@.contains_key(p) && ((exists|j: int|
                        0 <= j < i && pairs@[j] == p) ==> old(self)@[p]@.len() > 0),
                forall|p: BodyPair| self@.contains_key(p) ==> self@[p] == old(self)@[p],
            decreases pairs@.len() - i,
        {
            let pair = pairs[i];
            let ghost before = self@;
            proof {
                assert(pairs@.contains(pair));
            }
            let empty = match self.get(&pair) {
                Some(list) => list.len() == 0,
                None => false,
            };
            if empty {
                self.remove(&pair);
            }
            proof {
                assert forall|p: BodyPair|
                    self@.contains_key(p) <==> old(self)@.contains_key(p) && ((exists|j: int|
                        0 <= j < i + 1 && pairs@[j] == p) ==> old(self)@[p]@.len() > 0) by {
                    if p == pair {
                        assert(pairs@[i as int] == p);
                        if before.contains_key(p) {
                        } else {
                            let j = choose|j: int| 0 <= j < i && pairs@[j] == p;
                        }
                    } else {
                        if exists|j: int| 0 <= j < i + 1 && pairs@[j] == p {
                            let j = choose|j: int| 0 <= j < i + 1 && pairs@[j] == p;
                            assert(j < i);
                        }
                    }
                }
            }
            i += 1;
        }
        proof {
            assert forall|p: BodyPair|
                self@.contains_key(p) <==> old(self)@.contains_key(p) && old(self)@[p]@.len()
                    > 0 by {
                if old(self)@.contains_key(p) {
                    assert(pairs@.contains(p));
                    let j = choose|j: int| 0 <= j < pairs@.len() && pairs@[j] == p;
                    assert(pairs@[j] == p);
                }
            }
        }
    }
}

impl<T> Default for ConstraintsMap<T> {
    fn default() -> (r: ConstraintsMap<T>)
        ensures
            r.wf(),
            forall|p: BodyPair| !r@.contains_key(p),
    {
        ConstraintsMap::new()
    }
}

/// The listing of the pairs is a function of the set of pairs: two maps with
/// the same pairs list them in the same order, however they came to hold them.
pub proof fn lemma_pairs_deterministic(a: Seq<BodyPair>, b: Seq<BodyPair>)
    requires
        ascending(a.map_values(|p: BodyPair| spec_key(p))),
        ascending(b.map_values(|p: BodyPair| spec_key(p))),
        forall|p: BodyPair| a.contains(p) <==> b.contains(p),
    ensures
        a == b,
{
    let ka = a.map_values(|p: BodyPair| spec_key(p));
    let kb = b.map_values(|p: BodyPair| spec_key(p));
    assert forall|k: u128| ka.contains(k) <==> kb.contains(k) by {
        if ka.contains(k) {
            let i = choose|i: int| 0 <= i < ka.len() && ka[i] == k;
            assert(a.contains(a[i]));
            let j = choose|j: int| 0 <= j < b.len() && b[j] == a[i];
            assert(kb[j] == k);
        }
        if kb.contains(k) {
            let i = choose|i: int| 0 <= i < kb.len() && kb[i] == k;
            assert(b.contains(b[i]));
            let j = choose|j: int| 0 <= j < a.len() && a[j] == b[i];
            assert(ka[j] == k);
        }
    }
    lemma_ascending_unique(ka, kb);
    assert forall|i: int| 0 <= i < a.len() implies a[i] == b[i] by {
        assert(ka[i] == kb[i]);
        lemma_key(a[i], b[i]);
    }
    assert(a.len() == ka.len() && b.len() == kb.len());
    assert(a =~= b);
}

} // verus!
