//! Consistent hashing: every node owns one wheel position per replica, and a point is served
//! by the first position at or after its own hash, wrapping around to the smallest position.

use crate::util::{combine_hash, combine_spec, gen_hash, hash_spec, u32_bytes, u64_bytes};
use crate::util::{HashBuilder, Hashable};
use crate::wheel::{
    dist, forward_dist, is_successor, lemma_dist_injective, lemma_push_contains,
    lemma_seq_remove_contains, lemma_successor_exists, lemma_successor_insert,
    lemma_successor_insert_elsewhere, lemma_successor_is, lemma_successor_remove,
    lemma_successor_unique, lookup, successor, Wheel,
};
use crate::RingError;
use std::collections::HashMap;
use vstd::prelude::*;

verus! {

broadcast use vstd::std_specs::hash::group_hash_axioms;

/// The wheel position of replica `r` of node `id`.
pub open spec fn replica_hash(b: HashBuilder, id: u32, r: nat) -> u64 {
    combine_spec(b, hash_spec(b, u32_bytes(id)), hash_spec(b, u64_bytes(r as u64)))
}

/// The wheel positions of the first `n` replicas of node `id`.
pub open spec fn replica_hashes(b: HashBuilder, id: u32, n: nat) -> Set<u64> {
    Set::new(|h: u64| exists|r: nat| r < n && h == replica_hash(b, id, r))
}

/// The positions among the first `n` replicas of `id` that the wheel still gives to `id`.
pub open spec fn owned_hashes(wheel: Map<u64, u32>, b: HashBuilder, id: u32, n: nat) -> Set<u64> {
    replica_hashes(b, id, n).filter(|h: u64| wheel.contains_key(h) && wheel[h] == id)
}

/// The positions that the wheel gives to node `id`.
pub open spec fn held_positions(wheel: Map<u64, u32>, id: u32) -> Set<u64> {
    wheel.dom().filter(|h: u64| wheel[h] == id)
}

/// Removing node `id` would leave a nonempty wheel without positions: it holds them all.
pub open spec fn empties(wheel: Map<u64, u32>, id: u32) -> bool {
    &&& exists|k: u64| #[trigger] wheel.contains_key(k)
    &&& forall|k: u64| #[trigger] wheel.contains_key(k) ==> wheel[k] == id
}

/// The positions of the first `r + 1` replicas are those of the first `r` and that of replica `r`.
pub proof fn lemma_replica_hashes_step(b: HashBuilder, id: u32, r: nat)
    ensures
        replica_hashes(b, id, r + 1) == replica_hashes(b, id, r).insert(replica_hash(b, id, r)),
{
    let h = replica_hash(b, id, r);
    assert forall|x: u64| #[trigger] replica_hashes(b, id, r + 1).contains(x) implies replica_hashes(
        b,
        id,
        r,
    ).insert(h).contains(x) by {
        let q = choose|q: nat| q < r + 1 && x == replica_hash(b, id, q);
        if q < r {
            assert(replica_hashes(b, id, r).contains(x));
        }
    }
    assert forall|x: u64| #[trigger] replica_hashes(b, id, r).contains(x) implies replica_hashes(
        b,
        id,
        r + 1,
    ).contains(x) by {
        let q = choose|q: nat| q < r && x == replica_hash(b, id, q);
        assert(q < r + 1);
    }
    assert(replica_hashes(b, id, r + 1).contains(h)) by {
        assert(r < r + 1 && h == replica_hash(b, id, r));
    }
    assert(replica_hashes(b, id, r + 1) =~= replica_hashes(b, id, r).insert(h));
}

/// A hash-ring of nodes named by `u32`, built with consistent hashing.
pub struct Ring {
    positions: Wheel,
    replicas: HashMap<u32, usize>,
    order: Vec<u32>,
    hash_builder: HashBuilder,
}

impl Ring {
    /// The wheel: each occupied position and the node that holds it.
    pub closed spec fn wheel(&self) -> Map<u64, u32> {
        self.positions.map()
    }

    /// Each node of the ring and its replica count.
    pub closed spec fn replica_counts(&self) -> Map<u32, usize> {
        self.replicas@
    }

    pub closed spec fn hasher(&self) -> HashBuilder {
        self.hash_builder
    }

    /// The wheel is ordered and the replica table matches the list of nodes.
    closed spec fn tables_ok(&self) -> bool {
        &&& self.positions.wf()
        &&& self.order@.no_duplicates()
        &&& forall|id: u32| #[trigger] self.replicas@.contains_key(id) <==> self.order@.contains(id)
    }

    /// Every wheel position is one of the current replica positions of the node holding it.
    pub closed spec fn entries_ok(&self) -> bool {
        forall|h: u64| #[trigger]
            self.wheel().contains_key(h) ==> self.replica_counts().contains_key(self.wheel()[h])
                && replica_hashes(
                self.hasher(),
                self.wheel()[h],
                self.replica_counts()[self.wheel()[h]] as nat,
            ).contains(h)
    }

    pub closed spec fn wf(&self) -> bool {
        &&& self.tables_ok()
        &&& self.entries_ok()
    }

    /// Constructs an empty ring that hashes with the default keys.
    pub fn new() -> (r: Ring)
        ensures
            r.wf(),
            r.wheel() == Map::<u64, u32>::empty(),
            r.replica_counts() == Map::<u32, usize>::empty(),
            r.hasher() == (HashBuilder { k0: 0, k1: 0 }),
    {
        Ring::with_hasher(HashBuilder::default())
    }

    /// Constructs an empty ring that hashes with `hash_builder`.
    pub fn with_hasher(hash_builder: HashBuilder) -> (r: Ring)
        ensures
            r.wf(),
            r.wheel() == Map::<u64, u32>::empty(),
            r.replica_counts() == Map::<u32, usize>::empty(),
            r.hasher() == hash_builder,
    {
        let r = Ring {
            positions: Wheel::new(),
            replicas: HashMap::new(),
            order: Vec::new(),
            hash_builder,
        };
        r
    }

    /// The wheel position of replica `r` of node `id`.
    fn replica_position(&self, id: u32, r: usize) -> (h: u64)
        ensures
            h == replica_hash(self.hash_builder, id, r as nat),
    {
        let node_hash = gen_hash(&self.hash_builder, &id);
        let replica = r as u64;
        let replica_hash = gen_hash(&self.hash_builder, &replica);
        combine_hash(&self.hash_builder, node_hash, replica_hash)
    }

    /// Inserts a node with a number of replicas. The positions the node held before are given
    /// up first; then each replica takes its position on the wheel, from whichever node held it.
    pub fn insert_node(&mut self, id: u32, replicas: usize)
        requires
            old(self).wf(),
        ensures
            final(self).wf(),
            final(self).wheel() == old(self).wheel().remove_keys(
                held_positions(old(self).wheel(), id),
            ).union_prefer_right(
                replica_hashes(old(self).hasher(), id, replicas as nat).mk_map(|h: u64| id),
            ),
            final(self).replica_counts() == old(self).replica_counts().insert(id, replicas),
            final(self).hasher() == old(self).hasher(),
    {
        let ghost b = self.hash_builder;
        match self.get_replica_count(id) {
            Some(count) => {
                proof {
                    self.lemma_owned_is_held(id);
                }
                self.drop_positions(id, count);
            },
            None => {
                assert(held_positions(self.wheel(), id) =~= Set::<u64>::empty());
                assert(self.wheel().remove_keys(Set::<u64>::empty()) =~= self.wheel());
            },
        }
        let ghost w0 = self.wheel();
        self.place_replicas(id, replicas);
        self.record_replicas(id, replicas);
        proof {
            let w = self.wheel();
            assert forall|h: u64| #[trigger] w.contains_key(h) implies self.replica_counts().contains_key(
                w[h],
            ) && replica_hashes(b, w[h], self.replica_counts()[w[h]] as nat).contains(h) by {
                if !replica_hashes(b, id, replicas as nat).contains(h) {
                    assert(w0.contains_key(h));
                    assert(w0[h] != id);
                    assert(old(self).wheel().contains_key(h));
                }
            }
        }
    }

    /// Gives node `id` the positions of its first `replicas` replicas.
    fn place_replicas(&mut self, id: u32, replicas: usize)
        requires
            old(self).tables_ok(),
        ensures
            final(self).tables_ok(),
            final(self).wheel() == old(self).wheel().union_prefer_right(
                replica_hashes(old(self).hasher(), id, replicas as nat).mk_map(|h: u64| id),
            ),
            final(self).replicas == old(self).replicas,
            final(self).order == old(self).order,
            final(self).hash_builder == old(self).hash_builder,
    {
        let ghost b = self.hash_builder;
        let ghost w0 = self.wheel();
        let mut r: usize = 0;
        while r < replicas
            invariant
                self.tables_ok(),
                r <= replicas,
                self.hash_builder == b,
                self.replicas == old(self).replicas,
                self.order == old(self).order,
                self.wheel() == w0.union_prefer_right(
                    replica_hashes(b, id, r as nat).mk_map(|h: u64| id),
                ),
            decreases replicas - r,
        {
            let h = self.replica_position(id, r);
            self.positions.place(h, id);
            proof {
                lemma_replica_hashes_step(b, id, r as nat);
            }
            r = r + 1;
            assert(self.wheel() =~= w0.union_prefer_right(
                replica_hashes(b, id, r as nat).mk_map(|h: u64| id),
            ));
        }
    }

    /// The positions of node `id` among its replica positions are the positions it holds.
    proof fn lemma_owned_is_held(&self, id: u32)
        requires
            self.wf(),
            self.replica_counts().contains_key(id),
        ensures
            owned_hashes(self.wheel(), self.hasher(), id, self.replica_counts()[id] as nat)
                == held_positions(self.wheel(), id),
    {
        assert(owned_hashes(self.wheel(), self.hasher(), id, self.replica_counts()[id] as nat)
            =~= held_positions(self.wheel(), id));
    }

    /// Takes off the wheel each of the first `count` replica positions of `id` that it holds.
    fn drop_positions(&mut self, id: u32, count: usize)
        requires
            old(self).tables_ok(),
        ensures
            final(self).tables_ok(),
            final(self).wheel() == old(self).wheel().remove_keys(
                owned_hashes(old(self).wheel(), old(self).hasher(), id, count as nat),
            ),
            final(self).replicas == old(self).replicas,
            final(self).order == old(self).order,
            final(self).hash_builder == old(self).hash_builder,
    {
        let ghost b = self.hash_builder;
        let ghost w0 = self.wheel();
        let mut r: usize = 0;
        while r < count
            invariant
                self.tables_ok(),
                r <= count,
                self.hash_builder == b,
                self.replicas == old(self).replicas,
                self.order == old(self).order,
                self.wheel() == w0.remove_keys(owned_hashes(w0, b, id, r as nat)),
            decreases count - r,
        {
            let h = self.replica_position(id, r);
            let held = match self.positions.get(h) {
                Some(owner) => owner == id,
                None => false,
            };
            assert(owned_hashes(w0, b, id, (r + 1) as nat) =~= if w0.contains_key(h) && w0[h]
                == id {
                owned_hashes(w0, b, id, r as nat).insert(h)
            } else {
                owned_hashes(w0, b, id, r as nat)
            }) by {
                lemma_replica_hashes_step(b, id, r as nat);
            }
            if held {
                assert(w0.contains_key(h) && w0[h] == id) by {
                    if !owned_hashes(w0, b, id, r as nat).contains(h) {
                    }
                }
                self.positions.unplace(h);
            } else {
                proof {
                    if w0.contains_key(h) && w0[h] == id {
                        assert(owned_hashes(w0, b, id, r as nat).contains(h));
                    }
                }
            }
            r = r + 1;
            assert(self.wheel() =~= w0.remove_keys(owned_hashes(w0, b, id, r as nat)));
        }
    }

    /// Records the replica count of node `id`.
    fn record_replicas(&mut self, id: u32, replicas: usize)
        requires
            old(self).tables_ok(),
        ensures
            final(self).tables_ok(),
            final(self).wheel() == old(self).wheel(),
            final(self).replica_counts() == old(self).replica_counts().insert(id, replicas),
            final(self).hash_builder == old(self).hash_builder,
            final(self).positions == old(self).positions,
    {
        let previous = self.replicas.insert(id, replicas);
        if previous.is_none() {
            self.order.push(id);
        }
        assert forall|x: u32| #[trigger] self.replicas@.contains_key(x) <==> self.order@.contains(
            x,
        ) by {
            if previous.is_none() && x != id {
                if self.order@.contains(x) {
                    let q = choose|q: int| 0 <= q < self.order@.len() && self.order@[q] == x;
                    assert(old(self).order@[q] == x);
                }
                if old(self).order@.contains(x) {
                    let q = choose|q: int| 0 <= q < old(self).order@.len() && old(self).order@[q] == x;
                    assert(self.order@[q] == x);
                }
            }
            if previous.is_none() && x == id {
                assert(self.order@[self.order@.len() - 1] == id);
            }
        }
    }

    /// Removes a node: every position it holds leaves the wheel.
    pub fn remove_node(&mut self, id: u32) -> (res: Result<(), RingError>)
        requires
            old(self).wf(),
        ensures
            final(self).wf(),
            final(self).hasher() == old(self).hasher(),
            !old(self).replica_counts().contains_key(id) ==> res == Err::<(), RingError>(
                RingError::UnknownNode,
            ) && *final(self) == *old(self),
            old(self).replica_counts().contains_key(id) ==> {
                &&& res is Ok
                &&& final(self).wheel() == old(self).wheel().remove_keys(
                    held_positions(old(self).wheel(), id),
                )
                &&& final(self).replica_counts() == old(self).replica_counts().remove(id)
            },
    {
        let count = match self.get_replica_count(id) {
            Some(c) => c,
            None => {
                return Err(RingError::UnknownNode);
            },
        };
        proof {
            self.lemma_owned_is_held(id);
        }
        self.drop_positions(id, count);
        self.replicas.remove(&id);
        let ghost old_order = self.order@;
        let mut i: usize = 0;
        while i < self.order.len() && self.order[i] != id
            invariant
                i <= self.order@.len(),
                self.order@ == old_order,
                forall|j: int| 0 <= j < i ==> self.order@[j] != id,
            decreases self.order@.len() - i,
        {
            i = i + 1;
        }
        assert(i < self.order@.len()) by {
            assert(old_order.contains(id));
        }
        self.order.remove(i);
        proof {
            lemma_seq_remove_contains(old_order, i as int);
            let w = self.wheel();
            assert forall|h: u64| #[trigger] w.contains_key(h) implies self.replica_counts().contains_key(
                w[h],
            ) && replica_hashes(self.hash_builder, w[h], self.replica_counts()[w[h]] as nat).contains(
                h,
            ) by {
                assert(old(self).wheel().contains_key(h));
                assert(w[h] != id);
            }
        }
        Ok(())
    }

    /// Returns the node that serves `point`.
    pub fn get_node<U: Hashable + ?Sized>(&self, point: &U) -> (res: Result<u32, RingError>)
        requires
            self.wf(),
        ensures
            res is Err <==> self.wheel().dom() =~= Set::<u64>::empty(),
            res is Err ==> res == Err::<u32, RingError>(RingError::EmptyRing),
            res matches Ok(n) ==> n == lookup(
                self.wheel(),
                hash_spec(self.hasher(), point.hash_bytes()),
            ) && self.wheel().values().contains(n) && self.replica_counts().contains_key(n),
    {
        let h = gen_hash(&self.hash_builder, point);
        match self.positions.successor_key(h) {
            Some(k) => {
                let n = self.positions.get(k).unwrap();
                assert(self.wheel().dom().contains(k));
                Ok(n)
            },
            None => Err(RingError::EmptyRing),
        }
    }

    /// Whether position `h` is on the wheel.
    fn contains_node(&self, h: u64) -> (r: bool)
        ensures
            r == self.wheel().contains_key(h),
    {
        self.positions.contains(h)
    }

    /// The replica count of node `id`, if it is in the ring.
    fn get_replica_count(&self, id: u32) -> (r: Option<usize>)
        ensures
            r == (if self.replica_counts().contains_key(id) {
                Some(self.replica_counts()[id])
            } else {
                None::<usize>
            }),
    {
        match self.replicas.get(&id) {
            Some(c) => Some(*c),
            None => None,
        }
    }

    /// Whether some wheel position is held by a node other than `id`.
    fn other_node_holds(&self, id: u32) -> (r: bool)
        requires
            self.tables_ok(),
        ensures
            r <==> exists|k: u64| #[trigger] self.wheel().contains_key(k) && self.wheel()[k] != id,
    {
        let mut i: usize = 0;
        while i < self.positions.keys.len()
            invariant
                self.tables_ok(),
                i <= self.positions.keys@.len(),
                forall|j: int|
                    0 <= j < i ==> self.wheel()[#[trigger] self.positions.keys@[j]] == id,
            decreases self.positions.keys@.len() - i,
        {
            let k = self.positions.keys[i];
            assert(self.positions.keys@.contains(k));
            assert(self.wheel().contains_key(k));
            if self.positions.get(k).unwrap() != id {
                return true;
            }
            i = i + 1;
        }
        assert forall|k: u64| #[trigger] self.wheel().contains_key(k) implies self.wheel()[k] == id by {
            assert(self.positions.keys@.contains(k));
            let j = choose|j: int| 0 <= j < self.positions.keys@.len() && self.positions.keys@[j] == k;
        }
        false
    }

    /// Returns the number of nodes in the ring.
    pub fn len(&self) -> (r: usize)
        requires
            self.wf(),
        ensures
            r == self.replica_counts().len(),
    {
        self.replicas.len()
    }

    /// Returns `true` if the ring has no nodes.
    pub fn is_empty(&self) -> (r: bool)
        requires
            self.wf(),
        ensures
            r <==> self.replica_counts().len() == 0,
            r ==> self.wheel().dom() =~= Set::<u64>::empty(),
    {
        let r = self.replicas.is_empty();
        proof {
            if r {
                assert forall|h: u64| !self.wheel().contains_key(h) by {
                    if self.wheel().contains_key(h) {
                        assert(self.replicas@.contains_key(self.wheel()[h]));
                        assert(self.replicas@.dom().contains(self.wheel()[h]));
                        vstd::set_lib::lemma_set_empty_equivalency_len(self.replicas@.dom());
                    }
                }
            }
        }
        r
    }

    /// Returns each node with its replica count, in the order the nodes were first inserted.
    pub fn iter(&self) -> (r: Vec<(u32, usize)>)
        requires
            self.wf(),
        ensures
            r@.len() == self.replica_counts().len(),
            forall|i: int| 0 <= i < r@.len() ==> self.replica_counts().contains_key(#[trigger] r@[i].0)
                && self.replica_counts()[r@[i].0] == r@[i].1,
            forall|id: u32| #[trigger] self.replica_counts().contains_key(id) ==> exists|i: int|
                0 <= i < r@.len() && r@[i].0 == id,
    {
        let mut r: Vec<(u32, usize)> = Vec::new();
        let mut i: usize = 0;
        while i < self.order.len()
            invariant
                self.wf(),
                i <= self.order@.len(),
                r@.len() == i,
                forall|j: int| 0 <= j < i ==> (#[trigger] r@[j]).0 == self.order@[j]
                    && self.replica_counts()[r@[j].0] == r@[j].1,
            decreases self.order@.len() - i,
        {
            let id = self.order[i];
            assert(self.order@.contains(id));
            let count = *self.replicas.get(&id).unwrap();
            r.push((id, count));
            i = i + 1;
        }
        proof {
            self.order@.unique_seq_to_set();
            assert(self.order@.to_set() =~= self.replicas@.dom());
            assert forall|id: u32| #[trigger] self.replica_counts().contains_key(id) implies exists|
                j: int,
            | 0 <= j < r@.len() && r@[j].0 == id by {
                assert(self.order@.contains(id));
                let j = choose|j: int| 0 <= j < self.order@.len() && self.order@[j] == id;
                assert(r@[j].0 == id);
            }
            assert forall|j: int| 0 <= j < r@.len() implies self.replica_counts().contains_key(
                #[trigger] r@[j].0,
            ) by {
                assert(self.order@.contains(self.order@[j]));
            }
        }
        r
    }
}


impl Default for Ring {
    fn default() -> (r: Ring)
        ensures
            r.wf(),
            r.wheel() == Map::<u64, u32>::empty(),
            r.replica_counts() == Map::<u32, usize>::empty(),
            r.hasher() == (HashBuilder { k0: 0, k1: 0 }),
    {
        Ring::new()
    }
}

/// The hash of point `p`.
pub open spec fn point_hash(b: HashBuilder, p: u32) -> u64 {
    hash_spec(b, u32_bytes(p))
}

/// Every assigned point sits in the bucket it is assigned to, once, and in no other.
pub open spec fn tracks(data: Map<u64, Vec<u32>>, assign: Map<u32, u64>) -> bool {
    &&& forall|p: u32| #[trigger]
        assign.contains_key(p) ==> data.contains_key(assign[p]) && data[assign[p]]@.contains(p)
    &&& forall|k: u64, p: u32|
        data.contains_key(k) && #[trigger] data[k]@.contains(p) ==> assign.contains_key(p)
            && assign[p] == k
    &&& forall|k: u64| #[trigger] data.contains_key(k) ==> data[k]@.no_duplicates()
}

/// Every assigned point is assigned to the position of `keys` that serves it.
pub open spec fn routed(b: HashBuilder, keys: Set<u64>, assign: Map<u32, u64>) -> bool {
    forall|p: u32| #[trigger]
        assign.contains_key(p) ==> is_successor(keys, point_hash(b, p), assign[p])
}

/// Point `p` of the bucket at position `sh` goes to a new position `h` that lies closer ahead
/// of it.
pub open spec fn moves(b: HashBuilder, p: u32, h: u64, sh: u64) -> bool {
    dist(point_hash(b, p), h) < dist(point_hash(b, p), sh)
}

/// A client of a consistent-hashing ring that keeps, for each wheel position, the points that
/// it serves.
pub struct Client {
    ring: Ring,
    data: HashMap<u64, Vec<u32>>,
    assignment: Ghost<Map<u32, u64>>,
}

impl Client {
    /// The ring the client routes with.
    pub closed spec fn ring_view(&self) -> Ring {
        self.ring
    }

    /// Each kept point and the wheel position whose bucket holds it.
    pub closed spec fn points(&self) -> Map<u32, u64> {
        self.assignment@
    }

    /// The points of each bucket, keyed by wheel position.
    pub closed spec fn buckets(&self) -> Map<u64, Seq<u32>> {
        self.data@.map_values(|v: Vec<u32>| v@)
    }

    /// The buckets are the wheel's positions and hold each kept point at its serving position.
    closed spec fn tracking_ok(&self) -> bool {
        &&& self.ring.tables_ok()
        &&& self.data@.dom() == self.ring.wheel().dom()
        &&& tracks(self.data@, self.assignment@)
        &&& routed(self.ring.hasher(), self.ring.wheel().dom(), self.assignment@)
    }

    pub closed spec fn wf(&self) -> bool {
        &&& self.tracking_ok()
        &&& self.ring.entries_ok()
    }

    /// Constructs an empty client that hashes with the default keys.
    pub fn new() -> (r: Client)
        ensures
            r.wf(),
            r.ring_view().wheel() == Map::<u64, u32>::empty(),
            r.ring_view().replica_counts() == Map::<u32, usize>::empty(),
            r.ring_view().hasher() == (HashBuilder { k0: 0, k1: 0 }),
            r.points() == Map::<u32, u64>::empty(),
    {
        Client::with_hasher(HashBuilder::default())
    }

    /// Constructs an empty client that hashes with `hash_builder`.
    pub fn with_hasher(hash_builder: HashBuilder) -> (r: Client)
        ensures
            r.wf(),
            r.ring_view().wheel() == Map::<u64, u32>::empty(),
            r.ring_view().replica_counts() == Map::<u32, usize>::empty(),
            r.ring_view().hasher() == hash_builder,
            r.points() == Map::<u32, u64>::empty(),
    {
        let r = Client {
            ring: Ring::with_hasher(hash_builder),
            data: HashMap::new(),
            assignment: Ghost(Map::empty()),
        };
        assert(r.data@.dom() =~= r.ring.wheel().dom());
        r
    }

    /// Opens a bucket at the new wheel position `h`, taking from the bucket after it the points
    /// that `h` now serves.
    fn split_into(&mut self, h: u64)
        requires
            old(self).ring.tables_ok(),
            !old(self).data@.contains_key(h),
            old(self).data@.dom().insert(h) == old(self).ring.wheel().dom(),
            tracks(old(self).data@, old(self).assignment@),
            routed(old(self).ring.hasher(), old(self).data@.dom(), old(self).assignment@),
        ensures
            final(self).tracking_ok(),
            final(self).ring == old(self).ring,
            final(self).assignment@.dom() == old(self).assignment@.dom(),
    {
        let ghost b = self.ring.hash_builder;
        let ghost d = self.data@.dom();
        let ghost assign = self.assignment@;
        let probe = if h == u64::MAX {
            0
        } else {
            h + 1
        };
        assert(self.ring.wheel().dom().contains(h));
        let sh = self.ring.positions.successor_key(probe).unwrap();
        if sh == h {
            assert(d =~= Set::<u64>::empty()) by {
                assert forall|j: u64| !d.contains(j) by {
                    if d.contains(j) {
                        assert(self.ring.wheel().dom().contains(j));
                        lemma_dist_injective(probe, h, j);
                    }
                }
            }
            assert(assign.dom() =~= Set::<u32>::empty()) by {
                assert forall|p: u32| !assign.contains_key(p) by {
                    if assign.contains_key(p) {
                        assert(self.data@.contains_key(assign[p]));
                    }
                }
            }
            self.data.insert(h, Vec::new());
            assert(self.data@.dom() =~= self.ring.wheel().dom());
            return;
        }
        assert(is_successor(d, h, sh)) by {
            assert(self.ring.wheel().dom().contains(sh));
            assert forall|j: u64| #[trigger] d.contains(j) implies dist(h, sh) <= dist(h, j) by {
                assert(self.ring.wheel().dom().contains(j));
            }
        }
        let bucket = self.data.remove(&sh).unwrap();
        let mut stay: Vec<u32> = Vec::new();
        let mut moved: Vec<u32> = Vec::new();
        let mut i: usize = 0;
        while i < bucket.len()
            invariant
                i <= bucket@.len(),
                bucket@.no_duplicates(),
                self.ring.hash_builder == b,
                forall|p: u32| #[trigger] stay@.contains(p) ==> !moves(b, p, h, sh) && exists|j: int|
                    0 <= j < i && bucket@[j] == p,
                forall|p: u32| #[trigger] moved@.contains(p) ==> moves(b, p, h, sh) && exists|j: int|
                    0 <= j < i && bucket@[j] == p,
                forall|j: int|
                    0 <= j < i ==> (moves(b, #[trigger] bucket@[j], h, sh) ==> moved@.contains(bucket@[j])) && (
                    !moves(b, bucket@[j], h, sh) ==> stay@.contains(bucket@[j])),
                stay@.no_duplicates(),
                moved@.no_duplicates(),
            decreases bucket@.len() - i,
        {
            let p = bucket[i];
            let ph = gen_hash(&self.ring.hash_builder, &p);
            assert(!stay@.contains(p) && !moved@.contains(p)) by {
                if stay@.contains(p) {
                    let j = choose|j: int| 0 <= j < i && bucket@[j] == p;
                }
                if moved@.contains(p) {
                    let j = choose|j: int| 0 <= j < i && bucket@[j] == p;
                }
            }
            let goes = forward_dist(ph, h) < forward_dist(ph, sh);
            assert(ph == point_hash(b, p));
            assert(goes == moves(b, p, h, sh));
            let ghost old_stay = stay@;
            let ghost old_moved = moved@;
            if goes {
                moved.push(p);
            } else {
                stay.push(p);
            }
            proof {
                assert forall|q: u32| true implies (old_stay.contains(q) ==> stay@.contains(q)) && (
                old_moved.contains(q) ==> moved@.contains(q)) && (stay@.contains(q)
                    ==> old_stay.contains(q) || q == p) && (moved@.contains(q) ==> old_moved.contains(q)
                    || q == p) && (goes ==> moved@.contains(p)) && (!goes ==> stay@.contains(p)) by {
                    lemma_push_contains(old_stay, p, q);
                    lemma_push_contains(old_moved, p, q);
                }
            }
            assert forall|q: u32| #[trigger] stay@.contains(q) implies !moves(b, q, h, sh) && exists|j: int|
                0 <= j < i + 1 && bucket@[j] == q by {
                if q != p || goes {
                    assert(old_stay.contains(q));
                    let j = choose|j: int| 0 <= j < i && bucket@[j] == q;
                } else {
                    assert(bucket@[i as int] == q);
                }
            }
            assert forall|q: u32| #[trigger] moved@.contains(q) implies moves(b, q, h, sh) && exists|j: int|
                0 <= j < i + 1 && bucket@[j] == q by {
                if q != p || !goes {
                    assert(old_moved.contains(q));
                    let j = choose|j: int| 0 <= j < i && bucket@[j] == q;
                } else {
                    assert(bucket@[i as int] == q);
                }
            }
            assert forall|j: int| 0 <= j < i + 1 implies (moves(b, #[trigger] bucket@[j], h, sh) ==> moved@.contains(bucket@[j])) && (
                !moves(b, bucket@[j], h, sh) ==> stay@.contains(bucket@[j])) by {
                if j < i {
                    assert(old_moved.contains(bucket@[j]) ==> moved@.contains(bucket@[j]));
                    assert(old_stay.contains(bucket@[j]) ==> stay@.contains(bucket@[j]));
                } else {
                }
            }
            i = i + 1;
        }
        self.data.insert(sh, stay);
        self.data.insert(h, moved);
        let ghost new_assign = Map::new(
            |p: u32| assign.contains_key(p),
            |p: u32|
                if assign[p] == sh && moves(b, p, h, sh) {
                    h
                } else {
                    assign[p]
                },
        );
        self.assignment = Ghost(new_assign);
        assert(self.data@.dom() =~= self.ring.wheel().dom());
        assert forall|p: u32| #[trigger] new_assign.contains_key(p) implies self.data@.contains_key(
            new_assign[p],
        ) && self.data@[new_assign[p]]@.contains(p) by {
            if assign[p] == sh {
                assert(bucket@.contains(p));
                let j = choose|j: int| 0 <= j < bucket@.len() && bucket@[j] == p;
                assert(moves(b, bucket@[j], h, sh) ==> moved@.contains(bucket@[j]));
            }
        }
        assert forall|k: u64, p: u32|
            self.data@.contains_key(k) && #[trigger] self.data@[k]@.contains(p) implies new_assign.contains_key(
            p,
        ) && new_assign[p] == k by {
            if k == h {
                let j = choose|j: int| 0 <= j < i && bucket@[j] == p;
                assert(old(self).data@[sh]@.contains(p));
            } else if k == sh {
                let j = choose|j: int| 0 <= j < i && bucket@[j] == p;
                assert(old(self).data@[sh]@.contains(p));
            } else {
                assert(old(self).data@[k]@.contains(p));
            }
        }
        assert forall|p: u32| #[trigger] new_assign.contains_key(p) implies is_successor(
            self.ring.wheel().dom(),
            point_hash(b, p),
            new_assign[p],
        ) by {
            let ph = point_hash(b, p);
            let k = assign[p];
            assert(is_successor(d, ph, k));
            lemma_successor_insert(d, ph, k, h);
            if k != sh {
                lemma_successor_insert_elsewhere(d, ph, k, h, sh);
            }
        }
        assert(new_assign.dom() =~= assign.dom());
    }

    /// Takes off the wheel each of the first `count` replica positions of `id` that it holds,
    /// with its bucket, and returns the points of those buckets, which are no longer kept.
    fn detach(&mut self, id: u32, count: usize) -> (orphans: Vec<u32>)
        requires
            old(self).tracking_ok(),
        ensures
            final(self).tracking_ok(),
            final(self).ring.wheel() == old(self).ring.wheel().remove_keys(
                owned_hashes(old(self).ring.wheel(), old(self).ring.hash_builder, id, count as nat),
            ),
            final(self).ring.replicas == old(self).ring.replicas,
            final(self).ring.order == old(self).ring.order,
            final(self).ring.hash_builder == old(self).ring.hash_builder,
            orphans@.no_duplicates(),
            forall|p: u32| #[trigger]
                orphans@.contains(p) <==> old(self).assignment@.contains_key(p) && owned_hashes(
                    old(self).ring.wheel(),
                    old(self).ring.hash_builder,
                    id,
                    count as nat,
                ).contains(old(self).assignment@[p]),
            forall|p: u32| #[trigger]
                final(self).assignment@.contains_key(p) <==> old(self).assignment@.contains_key(p)
                    && !orphans@.contains(p),
    {
        let ghost b = self.ring.hash_builder;
        let ghost w0 = self.ring.wheel();
        let ghost a0 = self.assignment@;
        let mut orphans: Vec<u32> = Vec::new();
        let mut r: usize = 0;
        while r < count
            invariant
                self.tracking_ok(),
                r <= count,
                self.ring.hash_builder == b,
                self.ring.replicas == old(self).ring.replicas,
                self.ring.order == old(self).ring.order,
                self.ring.wheel() == w0.remove_keys(owned_hashes(w0, b, id, r as nat)),
                orphans@.no_duplicates(),
                forall|p: u32| #[trigger]
                    orphans@.contains(p) <==> a0.contains_key(p) && owned_hashes(
                        w0,
                        b,
                        id,
                        r as nat,
                    ).contains(a0[p]),
                forall|p: u32| #[trigger]
                    self.assignment@.contains_key(p) ==> a0.contains_key(p) && self.assignment@[p]
                        == a0[p],
                forall|p: u32| #[trigger]
                    a0.contains_key(p) ==> (self.assignment@.contains_key(p) <==> !orphans@.contains(
                        p,
                    )),
            decreases count - r,
        {
            let h = self.ring.replica_position(id, r);
            let held = match self.ring.positions.get(h) {
                Some(owner) => owner == id,
                None => false,
            };
            proof {
                lemma_replica_hashes_step(b, id, r as nat);
            }
            assert(owned_hashes(w0, b, id, (r + 1) as nat) =~= if w0.contains_key(h) && w0[h]
                == id {
                owned_hashes(w0, b, id, r as nat).insert(h)
            } else {
                owned_hashes(w0, b, id, r as nat)
            });
            if held {
                assert(w0.contains_key(h) && w0[h] == id) by {
                    if !owned_hashes(w0, b, id, r as nat).contains(h) {
                    }
                }
                assert(!owned_hashes(w0, b, id, r as nat).contains(h));
                let ghost d = self.ring.wheel().dom();
                let ghost assign = self.assignment@;
                let mut bucket = self.data.remove(&h).unwrap();
                self.ring.positions.unplace(h);
                let ghost bv = bucket@;
                let ghost ov = orphans@;
                proof {
                    assert forall|x: int, y: int|
                        0 <= x < ov.len() && 0 <= y < bv.len() implies ov[x] != bv[y] by {
                        assert(ov.contains(ov[x]));
                        assert(bv.contains(bv[y]));
                        assert(assign.contains_key(bv[y]) && assign[bv[y]] == h);
                    }
                    vstd::seq_lib::lemma_no_dup_in_concat(ov, bv);
                }
                orphans.append(&mut bucket);
                let ghost new_assign = assign.remove_keys(bv.to_set());
                self.assignment = Ghost(new_assign);
                proof {
                    let d2 = self.ring.wheel().dom();
                    assert(self.data@.dom() =~= d2);
                    assert forall|p: u32| #[trigger] orphans@.contains(p) <==> a0.contains_key(p)
                        && owned_hashes(w0, b, id, (r + 1) as nat).contains(a0[p]) by {
                        if orphans@.contains(p) {
                            let x = choose|x: int| 0 <= x < orphans@.len() && orphans@[x] == p;
                            if x < ov.len() {
                                assert(ov.contains(p));
                            } else {
                                assert(bv[x - ov.len()] == p);
                                assert(bv.contains(p));
                            }
                        }
                        if a0.contains_key(p) && a0[p] == h {
                            if !ov.contains(p) {
                                assert(assign.contains_key(p));
                                let y = choose|y: int| 0 <= y < bv.len() && bv[y] == p;
                                assert(orphans@[ov.len() + y] == p);
                            }
                        } else if ov.contains(p) {
                            let x = choose|x: int| 0 <= x < ov.len() && ov[x] == p;
                            assert(orphans@[x] == p);
                        }
                    }
                    assert forall|p: u32| #[trigger] new_assign.contains_key(p) implies self.data@.contains_key(
                        new_assign[p],
                    ) && self.data@[new_assign[p]]@.contains(p) by {
                        assert(!bv.to_set().contains(p));
                        if assign[p] == h {
                            assert(bv.contains(p));
                        }
                    }
                    assert forall|k: u64, p: u32|
                        self.data@.contains_key(k) && #[trigger] self.data@[k]@.contains(
                            p,
                        ) implies new_assign.contains_key(p) && new_assign[p] == k by {
                        assert(assign.contains_key(p) && assign[p] == k);
                        if bv.to_set().contains(p) {
                            assert(bv.contains(p));
                        }
                    }
                    assert forall|p: u32| #[trigger] new_assign.contains_key(p) implies is_successor(
                        d2,
                        point_hash(b, p),
                        new_assign[p],
                    ) by {
                        assert(is_successor(d, point_hash(b, p), assign[p]));
                        assert(d2.contains(assign[p])) by {
                            if assign[p] == h {
                                assert(bv.contains(p));
                            }
                        }
                        assert forall|j: u64| #[trigger] d2.contains(j) implies dist(
                            point_hash(b, p),
                            new_assign[p],
                        ) <= dist(point_hash(b, p), j) by {
                            assert(d.contains(j));
                        }
                    }
                    assert forall|p: u32| #[trigger] a0.contains_key(p) implies (new_assign.contains_key(p)
                        <==> !orphans@.contains(p)) by {
                        if orphans@.contains(p) && !ov.contains(p) {
                            let x = choose|x: int| 0 <= x < orphans@.len() && orphans@[x] == p;
                            assert(bv[x - ov.len()] == p);
                            assert(bv.to_set().contains(p));
                        }
                        if new_assign.contains_key(p) == false && assign.contains_key(p) {
                            assert(bv.to_set().contains(p));
                            let y = choose|y: int| 0 <= y < bv.len() && bv[y] == p;
                            assert(orphans@[ov.len() + y] == p);
                        }
                        if ov.contains(p) {
                            let x = choose|x: int| 0 <= x < ov.len() && ov[x] == p;
                            assert(orphans@[x] == p);
                        }
                    }
                }
            } else {
                proof {
                    if w0.contains_key(h) && w0[h] == id {
                        assert(owned_hashes(w0, b, id, r as nat).contains(h));
                    }
                }
            }
            r = r + 1;
            assert(self.ring.wheel() =~= w0.remove_keys(owned_hashes(w0, b, id, r as nat)));
        }
        orphans
    }

    /// Inserts a node with a number of replicas. The positions the node held before are given up
    /// first and their points kept again; then each new wheel position takes the points it now
    /// serves.
    pub fn insert_node(&mut self, id: u32, replicas: usize)
        requires
            old(self).wf(),
            replicas > 0,
        ensures
            final(self).wf(),
            final(self).ring_view().wheel() == old(self).ring_view().wheel().remove_keys(
                held_positions(old(self).ring_view().wheel(), id),
            ).union_prefer_right(
                replica_hashes(old(self).ring_view().hasher(), id, replicas as nat).mk_map(
                    |h: u64| id,
                ),
            ),
            final(self).ring_view().replica_counts() == old(self).ring_view().replica_counts().insert(id, replicas),
            final(self).ring_view().hasher() == old(self).ring_view().hasher(),
            final(self).points().dom() == old(self).points().dom(),
    {
        let ghost b = self.ring.hash_builder;
        let ghost a_start = self.assignment@;
        let orphans = match self.ring.get_replica_count(id) {
            Some(count) => {
                proof {
                    self.ring.lemma_owned_is_held(id);
                }
                self.detach(id, count)
            },
            None => {
                assert(held_positions(self.ring.wheel(), id) =~= Set::<u64>::empty());
                assert(self.ring.wheel().remove_keys(Set::<u64>::empty()) =~= self.ring.wheel());
                Vec::new()
            },
        };
        let ghost w0 = self.ring.wheel();
        let ghost a1 = self.assignment@;
        let mut r: usize = 0;
        while r < replicas
            invariant
                self.tracking_ok(),
                r <= replicas,
                self.ring.hash_builder == b,
                self.ring.replicas == old(self).ring.replicas,
                self.ring.order == old(self).ring.order,
                self.ring.wheel() == w0.union_prefer_right(
                    replica_hashes(b, id, r as nat).mk_map(|h: u64| id),
                ),
                self.assignment@.dom() == a1.dom(),
            decreases replicas - r,
        {
            let h = self.ring.replica_position(id, r);
            self.ring.positions.place(h, id);
            if !self.data.contains_key(&h) {
                assert(self.data@.dom().insert(h) =~= self.ring.wheel().dom());
                self.split_into(h);
            } else {
                assert(self.data@.dom() =~= self.ring.wheel().dom());
            }
            proof {
                lemma_replica_hashes_step(b, id, r as nat);
            }
            r = r + 1;
            assert(self.ring.wheel() =~= w0.union_prefer_right(
                replica_hashes(b, id, r as nat).mk_map(|h: u64| id),
            ));
        }
        self.ring.record_replicas(id, replicas);
        proof {
            let w = self.ring.wheel();
            assert forall|h: u64| #[trigger] w.contains_key(h) implies self.ring.replica_counts().contains_key(
                w[h],
            ) && replica_hashes(b, w[h], self.ring.replica_counts()[w[h]] as nat).contains(h) by {
                if !replica_hashes(b, id, replicas as nat).contains(h) {
                    assert(w0.contains_key(h));
                    assert(w0[h] != id);
                    assert(old(self).ring.wheel().contains_key(h));
                }
            }
            assert(replica_hashes(b, id, replicas as nat).contains(replica_hash(b, id, 0))) by {
                assert(0 < replicas && replica_hash(b, id, 0) == replica_hash(b, id, 0));
            }
            assert(w.contains_key(replica_hash(b, id, 0)));
        }
        let ghost w_final = self.ring.wheel();
        let mut i: usize = 0;
        while i < orphans.len()
            invariant
                self.wf(),
                self.ring.wheel() == w_final,
                w_final.contains_key(replica_hash(b, id, 0)),
                self.ring.replicas@ == old(self).ring.replicas@.insert(id, replicas),
                self.ring.hash_builder == b,
                i <= orphans@.len(),
                forall|p: u32| #[trigger]
                    self.assignment@.contains_key(p) <==> a1.contains_key(p) || exists|j: int|
                        0 <= j < i && orphans@[j] == p,
            decreases orphans@.len() - i,
        {
            let p = orphans[i];
            let ghost before = self.assignment@;
            let res = self.insert_point(p);
            assert(res is Ok) by {
                if self.ring.wheel().dom() =~= Set::<u64>::empty() {
                    assert(!self.ring.wheel().dom().contains(replica_hash(b, id, 0)));
                }
            }
            proof {
                assert forall|q: u32| #[trigger] self.assignment@.contains_key(q) <==> a1.contains_key(q)
                    || exists|j: int| 0 <= j < i + 1 && orphans@[j] == q by {
                    if q == p {
                        assert(orphans@[i as int] == q);
                    }
                    if exists|j: int| 0 <= j < i + 1 && orphans@[j] == q {
                        let j = choose|j: int| 0 <= j < i + 1 && orphans@[j] == q;
                        if j < i {
                        }
                    }
                }
            }
            i = i + 1;
        }
        assert(self.assignment@.dom() =~= a_start.dom()) by {
            assert forall|q: u32| self.assignment@.contains_key(q) <==> a_start.contains_key(q) by {
                if a_start.contains_key(q) && !a1.contains_key(q) {
                    assert(orphans@.contains(q));
                    let j = choose|j: int| 0 <= j < orphans@.len() && orphans@[j] == q;
                }
                if exists|j: int| 0 <= j < i && orphans@[j] == q {
                    let j = choose|j: int| 0 <= j < i && orphans@[j] == q;
                    assert(orphans@.contains(q));
                }
            }
        }
    }

    /// Removes a node and hands the points of each wheel position that leaves to the position
    /// after it.
    pub fn remove_node(&mut self, id: u32) -> (res: Result<(), RingError>)
        requires
            old(self).wf(),
        ensures
            final(self).wf(),
            final(self).points().dom() == old(self).points().dom(),
            !old(self).ring_view().replica_counts().contains_key(id) ==> res == Err::<
                (),
                RingError,
            >(RingError::UnknownNode) && *final(self) == *old(self),
            old(self).ring_view().replica_counts().contains_key(id) && empties(
                old(self).ring_view().wheel(),
                id,
            ) ==> res == Err::<(), RingError>(RingError::EmptyRingAfterRemoval) && *final(self)
                == *old(self),
            old(self).ring_view().replica_counts().contains_key(id) && !empties(
                old(self).ring_view().wheel(),
                id,
            ) ==> {
                &&& res is Ok
                &&& final(self).ring_view().wheel() == old(self).ring_view().wheel().remove_keys(
                    held_positions(old(self).ring_view().wheel(), id),
                )
                &&& final(self).ring_view().replica_counts() == old(self).ring_view().replica_counts().remove(id)
                &&& final(self).ring_view().hasher() == old(self).ring_view().hasher()
            },
    {
        let count = match self.ring.get_replica_count(id) {
            Some(c) => c,
            None => {
                return Err(RingError::UnknownNode);
            },
        };
        let ghost b = self.ring.hash_builder;
        let ghost w_old = self.ring.wheel();
        let ghost d_old = w_old.dom();
        let ghost owned = owned_hashes(w_old, b, id, count as nat);
        proof {
            self.ring.lemma_owned_is_held(id);
        }
        if !self.ring.positions.is_empty() && !self.ring.other_node_holds(id) {
            return Err(RingError::EmptyRingAfterRemoval);
        }
        let _ = self.ring.remove_node(id);
        let ghost rset = self.ring.wheel().dom();
        let ghost ring_after = self.ring;
        assert(rset =~= d_old.difference(owned));
        proof {
            if exists|k: u64| #[trigger] d_old.contains(k) && !rset.contains(k) {
                let k = choose|k: u64| #[trigger] d_old.contains(k) && !rset.contains(k);
                assert(!(d_old =~= Set::<u64>::empty()));
                let j = choose|j: u64| #[trigger] w_old.contains_key(j) && w_old[j] != id;
                assert(!owned.contains(j));
                assert(rset.contains(j));
            }
            assert forall|p: u32| #[trigger] self.assignment@.contains_key(p) implies (if rset.contains(
                self.assignment@[p],
            ) {
                is_successor(rset, point_hash(b, p), self.assignment@[p])
            } else {
                is_successor(d_old, point_hash(b, p), self.assignment@[p])
            }) by {
                assert(is_successor(d_old, point_hash(b, p), self.assignment@[p]));
            }
            assert forall|k: u64| self.data@.contains_key(k) && !rset.contains(k) implies exists|
                q: nat,
            | 0 <= q < count && k == #[trigger] replica_hash(b, id, q) by {
                assert(owned.contains(k));
            }
        }
        let mut r: usize = 0;
        while r < count
            invariant
                r <= count,
                self.ring == ring_after,
                self.ring.wf(),
                self.ring.hash_builder == b,
                rset == self.ring.wheel().dom(),
                rset.subset_of(self.data@.dom()),
                self.data@.dom().subset_of(d_old),
                forall|k: u64|
                    self.data@.contains_key(k) && !rset.contains(k) ==> exists|q: nat|
                        r <= q < count && k == #[trigger] replica_hash(b, id, q),
                (exists|k: u64| #[trigger] d_old.contains(k) && !rset.contains(k)) ==> exists|
                    k: u64,
                | #[trigger] rset.contains(k),
                tracks(self.data@, self.assignment@),
                forall|p: u32| #[trigger]
                    self.assignment@.contains_key(p) ==> (if rset.contains(self.assignment@[p]) {
                        is_successor(rset, point_hash(b, p), self.assignment@[p])
                    } else {
                        is_successor(d_old, point_hash(b, p), self.assignment@[p])
                    }),
                self.assignment@.dom() == old(self).assignment@.dom(),
            decreases count - r,
        {
            let h = self.ring.replica_position(id, r);
            if self.data.contains_key(&h) && !self.ring.contains_node(h) {
                assert(d_old.contains(h));
                let mut bucket = self.data.remove(&h).unwrap();
                let s = self.ring.positions.successor_key(h).unwrap();
                let mut target = self.data.remove(&s).unwrap();
                let ghost assign = self.assignment@;
                let ghost tv = target@;
                let ghost bv = bucket@;
                proof {
                    assert forall|x: int, y: int|
                        0 <= x < tv.len() && 0 <= y < bv.len() implies tv[x] != bv[y] by {
                        assert(tv.contains(tv[x]));
                        assert(bv.contains(bv[y]));
                    }
                    vstd::seq_lib::lemma_no_dup_in_concat(tv, bv);
                }
                target.append(&mut bucket);
                self.data.insert(s, target);
                let ghost new_assign = Map::new(
                    |p: u32| assign.contains_key(p),
                    |p: u32|
                        if assign[p] == h {
                            s
                        } else {
                            assign[p]
                        },
                );
                self.assignment = Ghost(new_assign);
                proof {
                    assert(new_assign.dom() =~= assign.dom());
                    assert forall|p: u32| #[trigger] new_assign.contains_key(p) implies self.data@.contains_key(
                        new_assign[p],
                    ) && self.data@[new_assign[p]]@.contains(p) by {
                        if assign[p] == h {
                            let y = choose|y: int| 0 <= y < bv.len() && bv[y] == p;
                            assert((tv + bv)[tv.len() + y] == p);
                        } else if assign[p] == s {
                            let x = choose|x: int| 0 <= x < tv.len() && tv[x] == p;
                            assert((tv + bv)[x] == p);
                        }
                    }
                    assert forall|k: u64, p: u32|
                        self.data@.contains_key(k) && #[trigger] self.data@[k]@.contains(
                            p,
                        ) implies new_assign.contains_key(p) && new_assign[p] == k by {
                        if k == s {
                            let x = choose|x: int|
                                0 <= x < (tv + bv).len() && (tv + bv)[x] == p;
                            if x < tv.len() {
                                assert(tv.contains(p));
                            } else {
                                assert(bv[x - tv.len()] == p);
                                assert(bv.contains(p));
                            }
                        }
                    }
                    assert forall|p: u32| #[trigger] new_assign.contains_key(p) implies (if rset.contains(
                        new_assign[p],
                    ) {
                        is_successor(rset, point_hash(b, p), new_assign[p])
                    } else {
                        is_successor(d_old, point_hash(b, p), new_assign[p])
                    }) by {
                        if assign[p] == h {
                            lemma_successor_remove(d_old, rset, point_hash(b, p), h, s);
                        }
                    }
                    assert forall|k: u64|
                        self.data@.contains_key(k) && !rset.contains(k) implies exists|q: nat|
                        r + 1 <= q < count && k == #[trigger] replica_hash(b, id, q) by {
                        let q = choose|q: nat| r <= q < count && k == #[trigger] replica_hash(b, id, q);
                        assert(q != r);
                    }
                }
            } else {
                proof {
                    assert forall|k: u64|
                        self.data@.contains_key(k) && !rset.contains(k) implies exists|q: nat|
                        r + 1 <= q < count && k == #[trigger] replica_hash(b, id, q) by {
                        let q = choose|q: nat| r <= q < count && k == #[trigger] replica_hash(b, id, q);
                        assert(q != r);
                    }
                }
            }
            r = r + 1;
        }
        assert(self.data@.dom() =~= rset) by {
            assert forall|k: u64| self.data@.contains_key(k) implies rset.contains(k) by {
                if !rset.contains(k) {
                    let q = choose|q: nat| count <= q < count && k == #[trigger] replica_hash(b, id, q);
                }
            }
        }
        Ok(())
    }

    /// Returns the node that serves `point`.
    pub fn get_node(&self, point: u32) -> (res: Result<u32, RingError>)
        requires
            self.wf(),
        ensures
            res is Err <==> self.ring_view().wheel().dom() =~= Set::<u64>::empty(),
            res is Err ==> res == Err::<u32, RingError>(RingError::EmptyRing),
            res matches Ok(n) ==> n == lookup(
                self.ring_view().wheel(),
                point_hash(self.ring_view().hasher(), point),
            ),
    {
        self.ring.get_node(&point)
    }

    /// Keeps a point in the bucket of the wheel position that serves it.
    pub fn insert_point(&mut self, point: u32) -> (res: Result<(), RingError>)
        requires
            old(self).wf(),
        ensures
            final(self).wf(),
            final(self).ring_view() == old(self).ring_view(),
            res is Err <==> old(self).ring_view().wheel().dom() =~= Set::<u64>::empty(),
            res is Err ==> res == Err::<(), RingError>(RingError::EmptyRing) && *final(self) == *old(self),
            res is Ok ==> final(self).points().dom() == old(self).points().dom().insert(point),
    {
        let h = gen_hash(&self.ring.hash_builder, &point);
        let k = match self.ring.positions.successor_key(h) {
            Some(k) => k,
            None => {
                return Err(RingError::EmptyRing);
            },
        };
        let ghost assign = self.assignment@;
        let mut bucket = self.data.remove(&k).unwrap();
        let mut j: usize = 0;
        while j < bucket.len() && bucket[j] != point
            invariant
                j <= bucket@.len(),
                forall|q: int| 0 <= q < j ==> bucket@[q] != point,
            decreases bucket@.len() - j,
        {
            j = j + 1;
        }
        let ghost bv = bucket@;
        if j == bucket.len() {
            bucket.push(point);
            proof {
                assert(!bv.contains(point));
                assert(!assign.contains_key(point) || assign[point] != k);
                assert(!assign.contains_key(point)) by {
                    if assign.contains_key(point) {
                        assert(is_successor(self.ring.wheel().dom(), h, assign[point]));
                        lemma_successor_unique(self.ring.wheel().dom(), h, k, assign[point]);
                    }
                }
                assert forall|x: int, y: int|
                    0 <= x < y < bucket@.len() implies bucket@[x] != bucket@[y] by {
                    if y == bv.len() {
                        assert(bv[x] != point);
                    } else {
                        assert(bv[x] != bv[y]);
                    }
                }
            }
        }
        self.data.insert(k, bucket);
        let ghost new_assign = assign.insert(point, k);
        self.assignment = Ghost(new_assign);
        proof {
            assert(self.data@.dom() =~= self.ring.wheel().dom());
            assert forall|q: u32| #[trigger] new_assign.contains_key(q) implies self.data@.contains_key(
                new_assign[q],
            ) && self.data@[new_assign[q]]@.contains(q) by {
                if q == point {
                    lemma_push_contains(bv, point, point);
                    if j < bv.len() {
                        assert(bv[j as int] == point);
                    }
                } else if assign[q] == k {
                    lemma_push_contains(bv, point, q);
                }
            }
            assert forall|kk: u64, q: u32|
                self.data@.contains_key(kk) && #[trigger] self.data@[kk]@.contains(
                    q,
                ) implies new_assign.contains_key(q) && new_assign[q] == kk by {
                if kk == k {
                    lemma_push_contains(bv, point, q);
                }
            }
        }
        assert(new_assign.dom() =~= assign.dom().insert(point));
        Ok(())
    }

    /// Stops keeping a point.
    pub fn remove_point(&mut self, point: u32) -> (res: Result<(), RingError>)
        requires
            old(self).wf(),
        ensures
            final(self).wf(),
            final(self).ring_view() == old(self).ring_view(),
            res is Err <==> old(self).ring_view().wheel().dom() =~= Set::<u64>::empty(),
            res is Err ==> res == Err::<(), RingError>(RingError::EmptyRing) && *final(self) == *old(self),
            res is Ok ==> final(self).points().dom() == old(self).points().dom().remove(point),
    {
        let h = gen_hash(&self.ring.hash_builder, &point);
        let k = match self.ring.positions.successor_key(h) {
            Some(k) => k,
            None => {
                return Err(RingError::EmptyRing);
            },
        };
        let ghost assign = self.assignment@;
        let bucket = self.data.remove(&k).unwrap();
        let mut kept: Vec<u32> = Vec::new();
        let mut j: usize = 0;
        while j < bucket.len()
            invariant
                j <= bucket@.len(),
                bucket@.no_duplicates(),
                forall|q: u32| #[trigger] kept@.contains(q) ==> q != point && exists|x: int|
                    0 <= x < j && bucket@[x] == q,
                forall|x: int| 0 <= x < j && bucket@[x] != point ==> kept@.contains(#[trigger] bucket@[x]),
                kept@.no_duplicates(),
            decreases bucket@.len() - j,
        {
            let q = bucket[j];
            let ghost before = kept@;
            if q != point {
                assert(!kept@.contains(q)) by {
                    if kept@.contains(q) {
                        let x = choose|x: int| 0 <= x < j && bucket@[x] == q;
                    }
                }
                kept.push(q);
            }
            proof {
                assert forall|y: u32| true implies (before.contains(y) ==> kept@.contains(y)) && (
                kept@.contains(y) ==> before.contains(y) || (y == q && q != point)) by {
                    lemma_push_contains(before, q, y);
                }
                assert forall|y: u32| #[trigger] kept@.contains(y) implies y != point && exists|x: int|
                    0 <= x < j + 1 && bucket@[x] == y by {
                    if before.contains(y) {
                        let x = choose|x: int| 0 <= x < j && bucket@[x] == y;
                    } else {
                        assert(bucket@[j as int] == y);
                    }
                }
                assert(q != point ==> kept@.contains(q)) by {
                    lemma_push_contains(before, q, q);
                }
            }
            j = j + 1;
        }
        self.data.insert(k, kept);
        let ghost new_assign = assign.remove(point);
        self.assignment = Ghost(new_assign);
        proof {
            assert(self.data@.dom() =~= self.ring.wheel().dom());
            assert forall|q: u32| #[trigger] new_assign.contains_key(q) implies self.data@.contains_key(
                new_assign[q],
            ) && self.data@[new_assign[q]]@.contains(q) by {
                if assign[q] == k {
                    let x = choose|x: int| 0 <= x < bucket@.len() && bucket@[x] == q;
                }
            }
            assert forall|kk: u64, q: u32|
                self.data@.contains_key(kk) && #[trigger] self.data@[kk]@.contains(
                    q,
                ) implies new_assign.contains_key(q) && new_assign[q] == kk by {
                if kk == k {
                    let x = choose|x: int| 0 <= x < j && bucket@[x] == q;
                    assert(bucket@.contains(q));
                }
            }
        }
        assert(new_assign.dom() =~= assign.dom().remove(point));
        Ok(())
    }


    /// The kept points whose bucket is at a position that node `id` holds.
    fn collect_points(&self, id: u32) -> (v: Vec<u32>)
        requires
            self.wf(),
        ensures
            v@.no_duplicates(),
            forall|p: u32| #[trigger]
                v@.contains(p) <==> self.points().contains_key(p) && self.ring_view().wheel()[self.points()[p]]
                    == id,
    {
        let ghost assign = self.assignment@;
        let ghost w = self.ring.wheel();
        let ghost keys = self.ring.positions.keys@;
        let mut v: Vec<u32> = Vec::new();
        let mut i: usize = 0;
        while i < self.ring.positions.keys.len()
            invariant
                self.wf(),
                assign == self.assignment@,
                w == self.ring.wheel(),
                keys == self.ring.positions.keys@,
                i <= keys.len(),
                v@.no_duplicates(),
                forall|p: u32| #[trigger]
                    v@.contains(p) <==> assign.contains_key(p) && w[assign[p]] == id && exists|j: int|
                        0 <= j < i && keys[j] == assign[p],
            decreases keys.len() - i,
        {
            let k = self.ring.positions.keys[i];
            assert(keys.contains(k));
            assert(w.contains_key(k));
            let ghost before = v@;
            if self.ring.positions.get(k).unwrap() == id {
                let bucket = self.data.get(&k).unwrap();
                let mut x: usize = 0;
                while x < bucket.len()
                    invariant
                        x <= bucket@.len(),
                        v@ == before + bucket@.subrange(0, x as int),
                    decreases bucket@.len() - x,
                {
                    v.push(bucket[x]);
                    x = x + 1;
                    assert(v@ =~= before + bucket@.subrange(0, x as int));
                }
                assert(bucket@.subrange(0, x as int) =~= bucket@);
                let ghost bv = bucket@;
                proof {
                    assert forall|y: int, z: int|
                        0 <= y < before.len() && 0 <= z < bv.len() implies before[y] != bv[z] by {
                        assert(before.contains(before[y]));
                        assert(bv.contains(bv[z]));
                        let j = choose|j: int| 0 <= j < i && keys[j] == assign[before[y]];
                        assert(keys[j] < keys[i as int]);
                    }
                    vstd::seq_lib::lemma_no_dup_in_concat(before, bv);
                    assert forall|p: u32| #[trigger]
                        v@.contains(p) <==> assign.contains_key(p) && w[assign[p]] == id && exists|
                            j: int,
                        | 0 <= j < i + 1 && keys[j] == assign[p] by {
                        if v@.contains(p) {
                            let y = choose|y: int| 0 <= y < v@.len() && v@[y] == p;
                            if y < before.len() {
                                assert(before.contains(p));
                                let j = choose|j: int| 0 <= j < i && keys[j] == assign[p];
                            } else {
                                assert(bv[y - before.len()] == p);
                                assert(bv.contains(p));
                                assert(keys[i as int] == assign[p]);
                            }
                        }
                        if assign.contains_key(p) && w[assign[p]] == id && exists|j: int|
                            0 <= j < i + 1 && keys[j] == assign[p] {
                            let j = choose|j: int| 0 <= j < i + 1 && keys[j] == assign[p];
                            if j < i {
                                assert(before.contains(p));
                                let y = choose|y: int| 0 <= y < before.len() && before[y] == p;
                                assert(v@[y] == p);
                            } else {
                                assert(bv.contains(p));
                                let z = choose|z: int| 0 <= z < bv.len() && bv[z] == p;
                                assert(v@[before.len() + z] == p);
                            }
                        }
                    }
                }
            } else {
                proof {
                    assert forall|p: u32| #[trigger]
                        v@.contains(p) <==> assign.contains_key(p) && w[assign[p]] == id && exists|
                            j: int,
                        | 0 <= j < i + 1 && keys[j] == assign[p] by {
                        if assign.contains_key(p) && w[assign[p]] == id && exists|j: int|
                            0 <= j < i + 1 && keys[j] == assign[p] {
                            let j = choose|j: int| 0 <= j < i + 1 && keys[j] == assign[p];
                            if j == i {
                                assert(w[k] == id);
                            }
                        }
                    }
                }
            }
            i = i + 1;
        }
        assert forall|p: u32| #[trigger]
            v@.contains(p) <==> assign.contains_key(p) && w[assign[p]] == id by {
            if assign.contains_key(p) {
                assert(w.contains_key(assign[p]));
                assert(keys.contains(assign[p]));
            }
        }
        v
    }

    /// Returns the points kept at the positions that node `id` holds.
    pub fn get_points(&self, id: u32) -> (res: Result<Vec<u32>, RingError>)
        requires
            self.wf(),
        ensures
            !self.ring_view().replica_counts().contains_key(id) ==> res == Err::<Vec<u32>, RingError>(
                RingError::UnknownNode,
            ),
            self.ring_view().replica_counts().contains_key(id) ==> (res matches Ok(v)
                && v@.no_duplicates() && forall|p: u32| #[trigger]
                v@.contains(p) <==> self.points().contains_key(p) && self.ring_view().wheel()[self.points()[p]]
                    == id),
    {
        match self.ring.get_replica_count(id) {
            Some(_) => Ok(self.collect_points(id)),
            None => Err(RingError::UnknownNode),
        }
    }

    /// Returns the number of nodes in the ring.
    pub fn len(&self) -> (r: usize)
        requires
            self.wf(),
        ensures
            r == self.ring_view().replica_counts().len(),
    {
        self.ring.len()
    }

    /// Returns `true` if the ring has no nodes.
    pub fn is_empty(&self) -> (r: bool)
        requires
            self.wf(),
        ensures
            r <==> self.ring_view().replica_counts().len() == 0,
    {
        self.ring.is_empty()
    }

    /// Returns each node with the points kept at the positions it holds, in the order the nodes
    /// were first inserted.
    pub fn iter(&self) -> (r: Vec<(u32, Vec<u32>)>)
        requires
            self.wf(),
        ensures
            r@.len() == self.ring_view().replica_counts().len(),
            forall|id: u32| #[trigger]
                self.ring_view().replica_counts().contains_key(id) ==> exists|i: int|
                    0 <= i < r@.len() && r@[i].0 == id,
            forall|i: int, p: u32|
                0 <= i < r@.len() ==> self.ring_view().replica_counts().contains_key(r@[i].0) && (
                #[trigger] r@[i].1@.contains(p) <==> self.points().contains_key(p)
                    && self.ring_view().wheel()[self.points()[p]] == r@[i].0),
            forall|i: int| 0 <= i < r@.len() ==> (#[trigger] r@[i]).1@.no_duplicates(),
    {
        let nodes = self.ring.iter();
        let mut r: Vec<(u32, Vec<u32>)> = Vec::new();
        let mut i: usize = 0;
        while i < nodes.len()
            invariant
                self.wf(),
                i <= nodes@.len(),
                r@.len() == i,
                forall|j: int|
                    0 <= j < nodes@.len() ==> self.ring_view().replica_counts().contains_key(
                        #[trigger] nodes@[j].0,
                    ) && self.ring_view().replica_counts()[nodes@[j].0] == nodes@[j].1,
                forall|j: int| 0 <= j < i ==> (#[trigger] r@[j]).0 == nodes@[j].0,
                forall|j: int, p: u32|
                    0 <= j < i ==> (#[trigger] r@[j].1@.contains(p) <==> self.points().contains_key(
                        p,
                    ) && self.ring_view().wheel()[self.points()[p]] == r@[j].0),
                forall|j: int| 0 <= j < i ==> (#[trigger] r@[j]).1@.no_duplicates(),
            decreases nodes@.len() - i,
        {
            let (id, _) = nodes[i];
            let points = self.collect_points(id);
            r.push((id, points));
            i = i + 1;
        }
        assert forall|id: u32| #[trigger]
            self.ring_view().replica_counts().contains_key(id) implies exists|i: int|
            0 <= i < r@.len() && r@[i].0 == id by {
            let j = choose|j: int| 0 <= j < nodes@.len() && nodes@[j].0 == id;
            assert(r@[j].0 == id);
        }
        r
    }

}


impl Default for Client {
    fn default() -> (r: Client)
        ensures
            r.wf(),
            r.ring_view().wheel() == Map::<u64, u32>::empty(),
            r.ring_view().replica_counts() == Map::<u32, usize>::empty(),
            r.ring_view().hasher() == (HashBuilder { k0: 0, k1: 0 }),
            r.points() == Map::<u32, u64>::empty(),
    {
        Client::new()
    }
}

/// A ring holds finitely many positions and nodes.
pub proof fn law_ring_is_finite(r: Ring)
    requires
        r.wf(),
    ensures
        r.wheel().dom().finite(),
        r.replica_counts().dom().finite(),
{
}

/// Inserting a node that holds no position changes the node of a point only by handing the
/// point to the inserted node.
pub proof fn law_insert_moves_points_only_to_new_node(
    w: Map<u64, u32>,
    b: HashBuilder,
    id: u32,
    n: nat,
    h: u64,
)
    requires
        forall|k: u64| #[trigger] w.contains_key(k) ==> w[k] != id,
    ensures
        ({
            let w2 = w.remove_keys(held_positions(w, id)).union_prefer_right(
                replica_hashes(b, id, n).mk_map(|x: u64| id),
            );
            lookup(w2, h) == lookup(w, h) || lookup(w2, h) == id
        }),
{
    assert(w.remove_keys(held_positions(w, id)) =~= w);
    let fresh = replica_hashes(b, id, n);
    let w2 = w.union_prefer_right(fresh.mk_map(|x: u64| id));
    if exists|k: u64| #[trigger] w2.contains_key(k) {
        let k0 = choose|k: u64| #[trigger] w2.contains_key(k);
        lemma_successor_exists(w2.dom(), h, k0);
        let k2 = successor(w2.dom(), h);
        if !fresh.contains(k2) {
            assert(w.contains_key(k2));
            assert forall|j: u64| #[trigger] w.dom().contains(j) implies dist(h, k2) <= dist(h, j) by {
                assert(w2.dom().contains(j));
            }
            assert(is_successor(w.dom(), h, k2));
            lemma_successor_is(w.dom(), h, k2);
        }
    } else {
        assert(w2 =~= w);
    }
}

/// Removing a node changes the node of a point only for points that the removed node served.
pub proof fn law_remove_moves_only_points_of_removed_node(w: Map<u64, u32>, id: u32, h: u64)
    ensures
        ({
            let w2 = w.remove_keys(held_positions(w, id));
            lookup(w2, h) == lookup(w, h) || lookup(w, h) == id
        }),
{
    let held = held_positions(w, id);
    let w2 = w.remove_keys(held);
    if exists|k: u64| #[trigger] w.contains_key(k) {
        let k0 = choose|k: u64| #[trigger] w.contains_key(k);
        lemma_successor_exists(w.dom(), h, k0);
        let k = successor(w.dom(), h);
        if !held.contains(k) {
            assert(w2.contains_key(k));
            assert(is_successor(w2.dom(), h, k));
            lemma_successor_is(w2.dom(), h, k);
        }
    } else {
        assert(w2 =~= w);
    }
}

/// Removing a node that holds exactly its replica positions, then inserting it again with the
/// same replica count, gives back the same wheel, so every point goes to the same node again.
pub proof fn law_remove_then_insert_restores(w: Map<u64, u32>, b: HashBuilder, id: u32, n: nat)
    requires
        held_positions(w, id) == replica_hashes(b, id, n),
    ensures
        w.remove_keys(held_positions(w, id)).remove_keys(
            held_positions(w.remove_keys(held_positions(w, id)), id),
        ).union_prefer_right(replica_hashes(b, id, n).mk_map(|x: u64| id)) == w,
{
    let w1 = w.remove_keys(held_positions(w, id));
    assert(held_positions(w1, id) =~= Set::<u64>::empty());
    assert(w1.remove_keys(Set::<u64>::empty()) =~= w1);
    assert(w1.union_prefer_right(replica_hashes(b, id, n).mk_map(|x: u64| id)) =~= w) by {
        assert forall|h: u64| replica_hashes(b, id, n).contains(h) implies w.contains_key(h)
            && w[h] == id by {
            assert(held_positions(w, id).contains(h));
        }
    }
}

/// Every kept point sits in the bucket of the wheel position that serves it, so the client
/// and its ring agree on the node of every kept point.
pub proof fn law_client_points_follow_ring(c: Client, p: u32)
    requires
        c.wf(),
        c.points().contains_key(p),
    ensures
        c.points()[p] == successor(
            c.ring_view().wheel().dom(),
            point_hash(c.ring_view().hasher(), p),
        ),
        c.ring_view().wheel()[c.points()[p]] == lookup(
            c.ring_view().wheel(),
            point_hash(c.ring_view().hasher(), p),
        ),
{
    lemma_successor_is(
        c.ring_view().wheel().dom(),
        point_hash(c.ring_view().hasher(), p),
        c.points()[p],
    );
}

/// A kept point sits in exactly one bucket, once.
pub proof fn law_client_point_in_one_bucket(c: Client, p: u32, k: u64)
    requires
        c.wf(),
    ensures
        c.buckets().dom() == c.ring_view().wheel().dom(),
        c.ring_view().wf(),
        c.buckets().contains_key(k) && c.buckets()[k].contains(p) <==> c.points().contains_key(p)
            && c.points()[p] == k,
        c.buckets().contains_key(k) ==> c.buckets()[k].no_duplicates(),
{
}

} // verus!
