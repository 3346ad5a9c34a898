//! A mapping from keys to last-write-wins registers, where a deletion is one more
//! write: the key's register then holds a tombstone, which later merges still
//! arbitrate against.

use std::collections::HashMap;
use std::hash::Hash;

use vstd::prelude::*;
use vstd::std_specs::hash::obeys_key_model;

use crate::register::{newer, LWWRegister};
use crate::CRDT;

verus! {

/// What a mapping's register holds: a live value or a deletion marker.
pub enum Entry<V> {
    Occupied(V),
    Tombstoned,
}

impl<V> Entry<V> {
    /// The live value, if the entry holds one.
    pub open spec fn occupant(self) -> Option<V> {
        match self {
            Entry::Occupied(v) => Some(v),
            Entry::Tombstoned => None,
        }
    }

    /// A reference to the live value, or `None` for a tombstone.
    fn get(&self) -> (r: Option<&V>)
        ensures
            match r {
                Some(v) => self.occupant() == Some(*v),
                None => self.occupant() is None,
            },
    {
        match self {
            Entry::Occupied(v) => Some(v),
            Entry::Tombstoned => None,
        }
    }

    /// Moves the live value out, or `None` for a tombstone.
    fn take(self) -> (r: Option<V>)
        ensures
            r == self.occupant(),
    {
        match self {
            Entry::Occupied(v) => Some(v),
            Entry::Tombstoned => None,
        }
    }

    /// Whether the entry is a deletion marker.
    fn is_tombstoned(&self) -> (r: bool)
        ensures
            r == (*self is Tombstoned),
    {
        matches!(self, Entry::Tombstoned)
    }
}

/// Portable state of a mapping: one register per key ever seen, tombstones included.
pub struct MapState<K, V> {
    inner: HashMap<K, LWWRegister<Entry<V>>>,
}

impl<K, V> View for MapState<K, V> {
    type V = Map<K, (Entry<V>, u64)>;

    /// For each key, the entry its register holds and that write's sequence number.
    closed spec fn view(&self) -> Map<K, (Entry<V>, u64)> {
        self.inner@.map_values(|r: LWWRegister<Entry<V>>| r@)
    }
}

/// A last-write-wins mapping. Its keyed operations ask that the key type obey
/// vstd's hash-table key model: `==` agrees with identity and hashing is
/// deterministic.
pub struct LWWMap<K, V> {
    state: MapState<K, V>,
}

impl<K, V> View for LWWMap<K, V> {
    type V = Map<K, (Entry<V>, u64)>;

    /// For each key with a register, the entry it holds and that write's sequence number.
    closed spec fn view(&self) -> Map<K, (Entry<V>, u64)> {
        self.state@
    }
}

/// The table that results from folding `incoming` into `local`: a key known to
/// both keeps the newer write, a key known to one side keeps that side's register.
pub open spec fn merge_views<K, V>(
    local: Map<K, (Entry<V>, u64)>,
    incoming: Map<K, (Entry<V>, u64)>,
) -> Map<K, (Entry<V>, u64)> {
    Map::new(
        |k: K| local.contains_key(k) || incoming.contains_key(k),
        |k: K|
            if local.contains_key(k) && incoming.contains_key(k) {
                newer(local[k], incoming[k])
            } else if local.contains_key(k) {
                local[k]
            } else {
                incoming[k]
            },
    )
}

/// The table after a removal of `k`: a known key's register takes a tombstone as
/// its next write; an unknown key stays unknown.
pub open spec fn after_remove<K, V>(t: Map<K, (Entry<V>, u64)>, k: K) -> Map<K, (Entry<V>, u64)> {
    if t.contains_key(k) {
        t.insert(k, (Entry::Tombstoned, (t[k].1 + 1) as u64))
    } else {
        t
    }
}

/// The keys that occur in `pairs`.
pub open spec fn keys_of<K, X>(pairs: Seq<(K, X)>) -> Set<K> {
    Set::new(|k: K| exists|i: int| 0 <= i < pairs.len() && pairs[i].0 == k)
}

/// Relies on `HashMap::remove_entry`: it removes the entry of `k` and hands back the
/// key stored in the map together with its value.
#[verifier::external_body]
fn take_entry<K: Eq + Hash, X>(m: &mut HashMap<K, X>, k: &K) -> (r: Option<(K, X)>)
    ensures
        obeys_key_model::<K>() ==> {
            &&& final(m)@ == old(m)@.remove(*k)
            &&& match r {
                Some(e) => old(m)@.contains_key(*k) && e.0 == *k && e.1 == old(m)@[*k],
                None => !old(m)@.contains_key(*k),
            }
        },
{
    m.remove_entry(k)
}

/// Relies on `Vec::from_iter` over `HashMap`'s consuming iterator, which yields each
/// key-value pair of the map exactly once, in some order.
#[verifier::external_body]
fn into_pairs<K, X>(m: HashMap<K, X>) -> (r: Vec<(K, X)>)
    ensures
        obeys_key_model::<K>() ==> {
            &&& forall|i: int|
                0 <= i < r@.len() ==> #[trigger] m@.contains_key(r@[i].0) && m@[r@[i].0]
                    == r@[i].1
            &&& forall|i: int, j: int|
                0 <= i < j < r@.len() ==> #[trigger] r@[i].0 != #[trigger] r@[j].0
            &&& forall|k: K| m@.contains_key(k) ==> #[trigger] keys_of(r@).contains(k)
        },
{
    Vec::from_iter(m)
}

impl<K, V> LWWMap<K, V> {
    /// The live value under `k`: `None` when `k` has no register or its register
    /// holds a tombstone.
    pub open spec fn lookup(self, k: K) -> Option<V> {
        if self@.contains_key(k) {
            self@[k].0.occupant()
        } else {
            None
        }
    }

    /// Creates a new, empty map.
    pub fn new() -> (r: Self)
        ensures
            r@ == Map::<K, (Entry<V>, u64)>::empty(),
    {
        let r = LWWMap { state: MapState { inner: HashMap::new() } };
        proof {
            assert(r@ =~= Map::<K, (Entry<V>, u64)>::empty());
        }
        r
    }
}

impl<K: Eq + Hash, V> LWWMap<K, V> {
    /// A reference to the live value under `k`.
    pub fn get(&self, k: &K) -> (r: Option<&V>)
        requires
            obeys_key_model::<K>(),
        ensures
            match r {
                Some(v) => self.lookup(*k) == Some(*v),
                None => self.lookup(*k) is None,
            },
    {
        match self.state.inner.get(k) {
            Some(reg) => reg.value().get(),
            None => None,
        }
    }

    /// Whether `k` holds a live value.
    pub fn contains_key(&self, k: &K) -> (r: bool)
        requires
            obeys_key_model::<K>(),
        ensures
            r == self.lookup(*k) is Some,
    {
        match self.state.inner.get(k) {
            Some(reg) => !reg.value().is_tombstoned(),
            None => false,
        }
    }

    /// Builds a map from `(key, value)` pairs: each key gets a fresh register at
    /// sequence number 1 holding its value; of repeated keys the last pair wins.
    pub fn from_iter(pairs: Vec<(K, V)>) -> (r: Self)
        requires
            obeys_key_model::<K>(),
        ensures
            r@.dom() == keys_of(pairs@),
            forall|i: int|
                0 <= i < pairs@.len() && (forall|j: int|
                    i < j < pairs@.len() ==> pairs@[j].0 != pairs@[i].0) ==> r@[#[trigger] pairs@[i].0]
                    == (Entry::Occupied(pairs@[i].1), 1u64),
    {
        let ghost all = pairs@;
        let mut pairs = pairs;
        let mut r = LWWMap::new();
        while pairs.len() > 0
            invariant
                obeys_key_model::<K>(),
                pairs@.len() <= all.len(),
                pairs@ == all.subrange(0, pairs@.len() as int),
                forall|x: K|
                    r@.contains_key(x) <==> exists|i: int|
                        pairs@.len() <= i < all.len() && #[trigger] all[i].0 == x,
                forall|i: int|
                    pairs@.len() <= i < all.len() && (forall|j: int|
                        i < j < all.len() ==> all[j].0 != all[i].0) ==> r@[#[trigger] all[i].0]
                        == (Entry::Occupied(all[i].1), 1u64),
            decreases pairs.len(),
        {
            let ghost n = pairs@.len() - 1;
            let ghost prev = r@;
            let ghost whole = pairs@;
            let (k, v) = pairs.pop().unwrap();
            proof {
                assert(whole[n] == all[n]);
                assert(pairs@ =~= all.subrange(0, n));
                assert(all[n] == (k, v));
            }
            if !r.state.inner.contains_key(&k) {
                let reg = LWWRegister::new(Entry::Occupied(v));
                r.state.inner.insert(k, reg);
                proof {
                    assert(r@ =~= prev.insert(k, reg@));
                    assert forall|i: int|
                        n < i < all.len() implies #[trigger] all[i].0 != k by {
                        if all[i].0 == k {
                            assert(prev.contains_key(all[i].0));
                        }
                    }
                }
            } else {
                proof {
                    assert(prev.contains_key(k));
                    let w = choose|w: int| n < w < all.len() && #[trigger] all[w].0 == k;
                    assert(all[w].0 == all[n].0);
                }
            }
        }
        proof {
            assert(r@.dom() =~= keys_of(all));
        }
        r
    }

    /// The register kept for `k`, tombstone or not, so that a caller can see its
    /// sequence number.
    pub fn register(&self, k: &K) -> (r: Option<&LWWRegister<Entry<V>>>)
        requires
            obeys_key_model::<K>(),
        ensures
            match r {
                Some(reg) => self@.contains_key(*k) && reg@ == self@[*k],
                None => !self@.contains_key(*k),
            },
    {
        self.state.inner.get(k)
    }

    /// Writes `v` under `k` and returns the live value it displaced, if any. A new
    /// key gets a register at sequence number 1; a known key's register is updated.
    pub fn insert(&mut self, k: K, v: V) -> (r: Option<V>)
        requires
            obeys_key_model::<K>(),
            old(self)@.contains_key(k) ==> old(self)@[k].1 < u64::MAX,
        ensures
            r == old(self).lookup(k),
            final(self)@ == old(self)@.insert(
                k,
                (
                    Entry::Occupied(v),
                    if old(self)@.contains_key(k) {
                        (old(self)@[k].1 + 1) as u64
                    } else {
                        1u64
                    },
                ),
            ),
    {
        match self.state.inner.remove(&k) {
            Some(mut reg) => {
                let displaced = reg.update(Entry::Occupied(v));
                self.state.inner.insert(k, reg);
                proof {
                    assert(self@ =~= old(self)@.insert(k, reg@));
                }
                displaced.take()
            },
            None => {
                let reg = LWWRegister::new(Entry::Occupied(v));
                self.state.inner.insert(k, reg);
                proof {
                    assert(self@ =~= old(self)@.insert(k, reg@));
                }
                None
            },
        }
    }

    /// Deletes the live value under `k` and returns it, if any. A known key's
    /// register is updated to a tombstone; an unknown key is left without one.
    pub fn remove(&mut self, k: &K) -> (r: Option<V>)
        requires
            obeys_key_model::<K>(),
            old(self)@.contains_key(*k) ==> old(self)@[*k].1 < u64::MAX,
        ensures
            r == old(self).lookup(*k),
            final(self)@ == after_remove(old(self)@, *k),
    {
        match take_entry(&mut self.state.inner, k) {
            Some((key, mut reg)) => {
                let displaced = reg.update(Entry::Tombstoned);
                self.state.inner.insert(key, reg);
                proof {
                    assert(self@ =~= old(self)@.insert(*k, reg@));
                }
                displaced.take()
            },
            None => None,
        }
    }
}

/// One step of a merge: folding in the pending key `k` extends the table by `k`'s
/// merged register.
proof fn lemma_merge_step<K, V>(
    before: Map<K, (Entry<V>, u64)>,
    incoming: Map<K, (Entry<V>, u64)>,
    pending: Set<K>,
    k: K,
)
    requires
        pending.contains(k),
        incoming.contains_key(k),
    ensures
        merge_views(before, incoming.remove_keys(pending.remove(k))) == merge_views(
            before,
            incoming.remove_keys(pending),
        ).insert(
            k,
            if before.contains_key(k) {
                newer(before[k], incoming[k])
            } else {
                incoming[k]
            },
        ),
{
    assert(merge_views(before, incoming.remove_keys(pending.remove(k))) =~= merge_views(
        before,
        incoming.remove_keys(pending),
    ).insert(
        k,
        if before.contains_key(k) {
            newer(before[k], incoming[k])
        } else {
            incoming[k]
        },
    ));
}

/// The portable state of a mapping keeps every register, tombstones included.
pub proof fn lemma_taken_keeps_registers<K: Eq + Hash, V>(m: LWWMap<K, V>)
    ensures
        m.taken()@ == m@,
{
}

impl<K: Eq + Hash, V> CRDT for LWWMap<K, V> {
    type State = MapState<K, V>;

    closed spec fn taken(self) -> MapState<K, V> {
        self.state
    }

    open spec fn merge_result(before: Self, incoming: MapState<K, V>, after: Self) -> bool {
        obeys_key_model::<K>() ==> after@ == merge_views(before@, incoming@)
    }

    /// Folds each incoming register into this map's register for the same key. A
    /// key seen here for the first time takes the incoming register as it is,
    /// sequence number included, so that its history carries over.
    fn merge(&mut self, other: MapState<K, V>) {
        let ghost before = self@;
        let ghost incoming = other@;
        let ghost source = other.inner@;
        let mut pairs = into_pairs(other.inner);
        proof {
            if obeys_key_model::<K>() {
                assert(incoming.remove_keys(keys_of(pairs@)) =~= Map::empty());
                assert(merge_views(before, Map::empty()) =~= before);
            }
        }
        while pairs.len() > 0
            invariant
                obeys_key_model::<K>() ==> {
                    &&& forall|i: int|
                        0 <= i < pairs@.len() ==> #[trigger] source.contains_key(pairs@[i].0)
                            && source[pairs@[i].0] == pairs@[i].1
                    &&& forall|i: int, j: int|
                        0 <= i < j < pairs@.len() ==> #[trigger] pairs@[i].0 != #[trigger] pairs@[j].0
                    &&& self@ == merge_views(before, incoming.remove_keys(keys_of(pairs@)))
                },
                incoming == source.map_values(|r: LWWRegister<Entry<V>>| r@),
            decreases pairs.len(),
        {
            let ghost pending = keys_of(pairs@);
            let ghost last = pairs@.len() - 1;
            let ghost whole = pairs@;
            let (k, reg) = pairs.pop().unwrap();
            proof {
                assert(pairs@ == whole.subrange(0, last));
                if obeys_key_model::<K>() {
                    assert forall|x: K| #[trigger]
                        keys_of(pairs@).contains(x) == pending.remove(k).contains(x) by {
                        if keys_of(pairs@).contains(x) {
                            let i = choose|i: int| 0 <= i < pairs@.len() && pairs@[i].0 == x;
                            assert(whole[i].0 != whole[last].0);
                        }
                        if pending.remove(k).contains(x) {
                            let i = choose|i: int| 0 <= i < whole.len() && whole[i].0 == x;
                            assert(i != last);
                            assert(pairs@[i] == whole[i]);
                        }
                    }
                    assert(keys_of(pairs@) =~= pending.remove(k));
                }
            }
            let ghost incoming_reg = reg@;
            proof {
                if obeys_key_model::<K>() {
                    assert(whole[last].0 == k && whole[last].1 == reg);
                    assert(source.contains_key(whole[last].0));
                    assert(source[k] == reg);
                    assert(incoming.contains_key(k));
                    assert(incoming_reg == incoming[k]);
                    assert(pending.contains(k));
                }
            }
            let ghost cur = self@;
            let ghost cur_inner = self.state.inner@;
            match self.state.inner.remove(&k) {
                Some(mut local) => {
                    let ghost held = local@;
                    proof {
                        if obeys_key_model::<K>() {
                            assert(cur_inner.contains_key(k) && cur_inner[k] == local);
                            assert(cur.contains_key(k) && cur[k] == held);
                            assert(!incoming.remove_keys(pending).contains_key(k));
                            assert(before.contains_key(k) && held == before[k]);
                        }
                    }
                    local.merge(reg.take());
                    self.state.inner.insert(k, local);
                    proof {
                        if obeys_key_model::<K>() {
                            assert(self@ =~= merge_views(
                                before,
                                incoming.remove_keys(pending),
                            ).insert(k, newer(held, incoming_reg)));
                        }
                    }
                },
                None => {
                    self.state.inner.insert(k, reg);
                    proof {
                        if obeys_key_model::<K>() {
                            assert(!cur_inner.contains_key(k));
                            assert(!cur.contains_key(k));
                            assert(!incoming.remove_keys(pending).contains_key(k));
                            assert(!before.contains_key(k));
                            assert(self@ =~= merge_views(
                                before,
                                incoming.remove_keys(pending),
                            ).insert(k, incoming_reg));
                        }
                    }
                },
            }
            proof {
                if obeys_key_model::<K>() {
                    lemma_merge_step(before, incoming, pending, k);
                }
            }
        }
        proof {
            if obeys_key_model::<K>() {
                assert(incoming.remove_keys(keys_of(pairs@)) =~= incoming);
            }
        }
    }

    fn take(self) -> (r: MapState<K, V>) {
        self.state
    }
}

/// Merging the same portable state into a mapping a second time changes nothing.
pub proof fn lemma_map_merge_idempotent<K: Eq + Hash, V>(
    m: LWWMap<K, V>,
    incoming: MapState<K, V>,
    once: LWWMap<K, V>,
    twice: LWWMap<K, V>,
)
    requires
        obeys_key_model::<K>(),
        LWWMap::merge_result(m, incoming, once),
        LWWMap::merge_result(once, incoming, twice),
    ensures
        twice@ == once@,
{
    assert(merge_views(merge_views(m@, incoming@), incoming@) =~= merge_views(m@, incoming@));
}

/// A key without a register, or whose register holds a tombstone, reads as absent.
pub proof fn lemma_reads_absent<K, V>(m: LWWMap<K, V>, k: K)
    requires
        !m@.contains_key(k) || m@[k].0 is Tombstoned,
    ensures
        m.lookup(k) is None,
{
}

/// Once `k` is removed it reads as absent, whether or not it had a register.
pub proof fn lemma_remove_reads_absent<K, V>(before: LWWMap<K, V>, k: K, after: LWWMap<K, V>)
    requires
        after@ == after_remove(before@, k),
    ensures
        after.lookup(k) is None,
        !before@.contains_key(k) ==> !after@.contains_key(k),
{
}

} // verus!
