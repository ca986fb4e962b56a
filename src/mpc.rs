//! Multi-probe consistent hashing: each node holds one wheel position, and a point looks at
//! several probes of its own, going to the position that lies closest ahead of any of them.

use crate::util::{fixed_keys, gen_hash, hash_spec, sip24, sip24_of, u32_bytes};
use crate::util::{FIXED_KEY_0, FIXED_KEY_1, FIXED_KEY_2, FIXED_KEY_3};
use crate::util::{HashBuilder, Hashable};
use crate::wheel::{dist, forward_dist, successor, Wheel};
use crate::RingError;
use vstd::prelude::*;

verus! {

/// The largest prime below 2^64; probe offsets are reduced modulo it.
pub const PRIME: u64 = 0xFFFF_FFFF_FFFF_FFC5;

/// The wheel position of node `id`.
pub open spec fn node_position(id: u32) -> u64 {
    hash_spec(HashBuilder { k0: 0, k1: 0 }, u32_bytes(id))
}

/// Probe `i` of a point whose two hashes are `h0` and `h1`.
pub open spec fn probe(h0: u64, h1: u64, i: nat) -> u64 {
    ((h0 + ((i * h1) % 0x1_0000_0000_0000_0000) % (PRIME as int)) % 0x1_0000_0000_0000_0000) as u64
}

/// The position that serves probe `i`.
pub open spec fn probe_position(keys: Set<u64>, h0: u64, h1: u64, i: nat) -> u64 {
    successor(keys, probe(h0, h1, i))
}

/// How far ahead of probe `i` its position lies.
pub open spec fn probe_distance(keys: Set<u64>, h0: u64, h1: u64, i: nat) -> int {
    dist(probe(h0, h1, i), probe_position(keys, h0, h1, i))
}

/// Probe `i` of the first `k` comes first: its distance is least, and its position least among
/// equal distances.
pub open spec fn is_best_probe(keys: Set<u64>, h0: u64, h1: u64, k: nat, i: nat) -> bool {
    &&& i < k
    &&& forall|j: nat|
        j < k ==> (probe_distance(keys, h0, h1, i) < #[trigger] probe_distance(keys, h0, h1, j) || (
        probe_distance(keys, h0, h1, i) == probe_distance(keys, h0, h1, j) && probe_position(
            keys,
            h0,
            h1,
            i,
        ) <= probe_position(keys, h0, h1, j)))
}

/// The position that a point with hashes `h0` and `h1` goes to, given `k` probes.
pub open spec fn chosen_position(keys: Set<u64>, h0: u64, h1: u64, k: nat) -> u64 {
    probe_position(keys, h0, h1, choose|i: nat| is_best_probe(keys, h0, h1, k, i))
}

/// All probes that come first lead to one position.
pub proof fn lemma_chosen_position(keys: Set<u64>, h0: u64, h1: u64, k: nat, i: nat)
    requires
        is_best_probe(keys, h0, h1, k, i),
    ensures
        chosen_position(keys, h0, h1, k) == probe_position(keys, h0, h1, i),
{
    let c = choose|j: nat| is_best_probe(keys, h0, h1, k, j);
    assert(is_best_probe(keys, h0, h1, k, c));
    assert(probe_distance(keys, h0, h1, c) <= probe_distance(keys, h0, h1, i));
    assert(probe_distance(keys, h0, h1, i) <= probe_distance(keys, h0, h1, c));
}

/// A hash-ring of nodes named by `u32`, built with multi-probe consistent hashing.
pub struct Ring {
    positions: Wheel,
    hash_count: u64,
    keys: (u64, u64, u64, u64),
}

impl Ring {
    /// Each occupied wheel position and the node that holds it.
    pub closed spec fn wheel(&self) -> Map<u64, u32> {
        self.positions.map()
    }

    /// The number of probes per point.
    pub closed spec fn probes(&self) -> u64 {
        self.hash_count
    }

    /// The keys of the two hashers that give a point's hashes.
    pub closed spec fn hash_keys(&self) -> (u64, u64, u64, u64) {
        self.keys
    }

    /// The occupied wheel positions in increasing order.
    pub closed spec fn sorted_positions(&self) -> Seq<u64> {
        self.positions.keys@
    }

    pub closed spec fn wf(&self) -> bool {
        &&& self.positions.wf()
        &&& self.hash_count > 0
    }

    /// The first hash of a value of the given bytes.
    pub open spec fn first_hash(&self, bytes: Seq<u8>) -> u64 {
        sip24_of(self.hash_keys().0, self.hash_keys().1, bytes)
    }

    /// The second hash of a value of the given bytes.
    pub open spec fn second_hash(&self, bytes: Seq<u8>) -> u64 {
        sip24_of(self.hash_keys().2, self.hash_keys().3, bytes)
    }

    /// Constructs an empty ring that probes each point `hash_count` times.
    pub fn new(hash_count: u64) -> (res: Result<Ring, RingError>)
        ensures
            hash_count == 0 <==> res is Err,
            res is Err ==> res == Err::<Ring, RingError>(RingError::InvalidConfig),
            res matches Ok(r) ==> r.wf() && r.wheel() == Map::<u64, u32>::empty() && r.probes()
                == hash_count && r.hash_keys() == (FIXED_KEY_0, FIXED_KEY_1, FIXED_KEY_2, FIXED_KEY_3),
    {
        if hash_count == 0 {
            return Err(RingError::InvalidConfig);
        }
        Ok(Ring { positions: Wheel::new(), hash_count, keys: fixed_keys() })
    }

    /// The wheel position of node `id`.
    fn position_of(id: u32) -> (h: u64)
        ensures
            h == node_position(id),
    {
        gen_hash(&HashBuilder::default(), &id)
    }

    /// Inserts a node; it takes its wheel position from any node that held it.
    pub fn insert_node(&mut self, id: u32)
        requires
            old(self).wf(),
        ensures
            final(self).wf(),
            final(self).wheel() == old(self).wheel().insert(node_position(id), id),
            final(self).probes() == old(self).probes(),
            final(self).hash_keys() == old(self).hash_keys(),
    {
        let h = Ring::position_of(id);
        self.positions.place(h, id);
    }

    /// Removes a node from the ring.
    pub fn remove_node(&mut self, id: u32) -> (res: Result<(), RingError>)
        requires
            old(self).wf(),
        ensures
            final(self).wf(),
            final(self).probes() == old(self).probes(),
            final(self).hash_keys() == old(self).hash_keys(),
            ({
                let h = node_position(id);
                if old(self).wheel().contains_key(h) && old(self).wheel()[h] == id {
                    res is Ok && final(self).wheel() == old(self).wheel().remove(h)
                } else {
                    res == Err::<(), RingError>(RingError::UnknownNode) && *final(self) == *old(self)
                }
            }),
    {
        let h = Ring::position_of(id);
        match self.positions.get(h) {
            Some(n) => {
                if n == id {
                    self.positions.unplace(h);
                    Ok(())
                } else {
                    Err(RingError::UnknownNode)
                }
            },
            None => Err(RingError::UnknownNode),
        }
    }

    /// Returns the node of the position that lies closest ahead of one of the probes of `point`.
    pub fn get_node<U: Hashable + ?Sized>(&self, point: &U) -> (res: Result<u32, RingError>)
        requires
            self.wf(),
        ensures
            res is Err <==> self.wheel().dom() =~= Set::<u64>::empty(),
            res is Err ==> res == Err::<u32, RingError>(RingError::EmptyRing),
            res matches Ok(n) ==> n == self.wheel()[chosen_position(
                self.wheel().dom(),
                self.first_hash(point.hash_bytes()),
                self.second_hash(point.hash_bytes()),
                self.probes() as nat,
            )] && self.wheel().values().contains(n),
    {
        if self.positions.is_empty() {
            return Err(RingError::EmptyRing);
        }
        let bytes = point.to_hash_bytes();
        let h0 = sip24(self.keys.0, self.keys.1, bytes.as_slice());
        let h1 = sip24(self.keys.2, self.keys.3, bytes.as_slice());
        let ghost keys = self.wheel().dom();
        let first = (h0 as u128 % 0x1_0000_0000_0000_0000) as u64;
        assert(first == probe(h0, h1, 0)) by {
            assert(((0 * h1) % 0x1_0000_0000_0000_0000) % (PRIME as int) == 0);
        }
        let s0 = self.positions.successor_key(first).unwrap();
        let mut best_dist: u64 = forward_dist(first, s0);
        let mut best_pos: u64 = s0;
        let ghost mut best_i: nat = 0;
        let mut i: u64 = 1;
        while i < self.hash_count
            invariant
                self.wf(),
                keys == self.wheel().dom(),
                1 <= i <= self.hash_count,
                best_i < i,
                best_pos == probe_position(keys, h0, h1, best_i),
                best_dist == probe_distance(keys, h0, h1, best_i),
                keys.contains(best_pos),
                forall|j: nat|
                    j < i ==> (best_dist < #[trigger] probe_distance(keys, h0, h1, j) || (best_dist
                        == probe_distance(keys, h0, h1, j) && best_pos <= probe_position(
                        keys,
                        h0,
                        h1,
                        j,
                    ))),
            decreases self.hash_count - i,
        {
            assert((i as u128) * (h1 as u128) <= 0xffff_ffff_ffff_ffff * 0xffff_ffff_ffff_ffff)
                by (nonlinear_arith)
                requires
                    i <= 0xffff_ffff_ffff_ffff,
                    h1 <= 0xffff_ffff_ffff_ffff,
            ;
            let step = ((i as u128) * (h1 as u128)) % 0x1_0000_0000_0000_0000;
            let p = ((h0 as u128 + step % (PRIME as u128)) % 0x1_0000_0000_0000_0000) as u64;
            assert(p == probe(h0, h1, i as nat));
            let s = self.positions.successor_key(p).unwrap();
            let d = forward_dist(p, s);
            if d < best_dist || (d == best_dist && s < best_pos) {
                best_dist = d;
                best_pos = s;
                proof {
                    best_i = i as nat;
                }
            }
            i = i + 1;
        }
        proof {
            lemma_chosen_position(keys, h0, h1, self.hash_count as nat, best_i);
        }
        Ok(self.positions.get(best_pos).unwrap())
    }

    /// Returns the number of nodes in the ring.
    pub fn len(&self) -> (r: usize)
        requires
            self.wf(),
        ensures
            r == self.wheel().len(),
    {
        self.positions.len()
    }

    /// Returns `true` if the ring has no nodes.
    pub fn is_empty(&self) -> (r: bool)
        requires
            self.wf(),
        ensures
            r <==> self.wheel().dom() =~= Set::<u64>::empty(),
    {
        self.positions.is_empty()
    }

    /// Returns the nodes of the ring in the order of their wheel positions.
    pub fn iter(&self) -> (r: Vec<u32>)
        requires
            self.wf(),
        ensures
            r@.len() == self.wheel().len(),
            r@.len() == self.sorted_positions().len(),
            forall|i: int, j: int|
                0 <= i < j < r@.len() ==> #[trigger] self.sorted_positions()[i]
                    < #[trigger] self.sorted_positions()[j],
            forall|h: u64| #[trigger]
                self.wheel().contains_key(h) <==> self.sorted_positions().contains(h),
            forall|i: int|
                0 <= i < r@.len() ==> #[trigger] r@[i] == self.wheel()[self.sorted_positions()[i]],
    {
        let mut r: Vec<u32> = Vec::new();
        let mut i: usize = 0;
        while i < self.positions.keys.len()
            invariant
                self.wf(),
                i <= self.positions.keys@.len(),
                r@.len() == i,
                forall|j: int| 0 <= j < i ==> #[trigger] r@[j] == self.wheel()[self.positions.keys@[j]],
            decreases self.positions.keys@.len() - i,
        {
            let k = self.positions.keys[i];
            assert(self.positions.keys@.contains(k));
            r.push(self.positions.get(k).unwrap());
            i = i + 1;
        }
        proof {
            self.positions.lemma_len();
        }
        r
    }
}

/// Removing a node, then inserting it again, gives back the same wheel.
pub proof fn law_remove_then_insert_restores(wheel: Map<u64, u32>, id: u32)
    requires
        wheel.contains_key(node_position(id)),
        wheel[node_position(id)] == id,
    ensures
        wheel.remove(node_position(id)).insert(node_position(id), id) == wheel,
{
    assert(wheel.remove(node_position(id)).insert(node_position(id), id) =~= wheel);
}

} // verus!
