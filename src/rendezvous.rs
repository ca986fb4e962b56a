//! Rendezvous (highest random weight) hashing: a point goes to the node whose best replica
//! scores highest against it, ties going to the larger node id.

use crate::consistent::replica_hash;
use crate::util::{combine_hash, combine_spec, gen_hash, hash_spec, u32_bytes};
use crate::util::{HashBuilder, Hashable};
use crate::wheel::{lemma_push_contains, lemma_seq_remove_contains};
use crate::RingError;
use std::collections::HashMap;
use vstd::prelude::*;

verus! {

broadcast use vstd::std_specs::hash::group_hash_axioms;

/// The score of a node with replica positions `hs` against a point of hash `ph`: the highest
/// combination of one of its positions with the point's hash.
pub open spec fn score(b: HashBuilder, hs: Seq<u64>, ph: u64) -> u64
    decreases hs.len(),
{
    if hs.len() == 0 {
        0
    } else {
        let rest = score(b, hs.drop_last(), ph);
        let last = combine_spec(b, hs.last(), ph);
        if last > rest {
            last
        } else {
            rest
        }
    }
}

/// Score `s1` of node `n1` beats or equals score `s2` of node `n2`: scores are compared first,
/// then node ids.
pub open spec fn beats(s1: u64, n1: u32, s2: u64, n2: u32) -> bool {
    s1 > s2 || (s1 == s2 && n1 >= n2)
}

/// `n` is the node that wins a point of hash `ph`.
pub open spec fn is_winner(nodes: Map<u32, Seq<u64>>, b: HashBuilder, ph: u64, n: u32) -> bool {
    &&& nodes.contains_key(n)
    &&& forall|m: u32| #[trigger]
        nodes.contains_key(m) ==> beats(score(b, nodes[n], ph), n, score(b, nodes[m], ph), m)
}

/// The node that wins a point of hash `ph`.
pub open spec fn winner(nodes: Map<u32, Seq<u64>>, b: HashBuilder, ph: u64) -> u32 {
    choose|n: u32| is_winner(nodes, b, ph, n)
}

/// The replica positions of node `id` with `n` replicas.
pub open spec fn replica_seq(b: HashBuilder, id: u32, n: nat) -> Seq<u64> {
    Seq::new(n, |r: int| replica_hash(b, id, r as nat))
}

/// One node wins a point.
pub proof fn lemma_winner_unique(nodes: Map<u32, Seq<u64>>, b: HashBuilder, ph: u64, n1: u32, n2: u32)
    requires
        is_winner(nodes, b, ph, n1),
        is_winner(nodes, b, ph, n2),
    ensures
        n1 == n2,
{
}

/// The node that wins a point is the one that `winner` names.
pub proof fn lemma_winner_is(nodes: Map<u32, Seq<u64>>, b: HashBuilder, ph: u64, n: u32)
    requires
        is_winner(nodes, b, ph, n),
    ensures
        winner(nodes, b, ph) == n,
{
    let w = winner(nodes, b, ph);
    assert(is_winner(nodes, b, ph, w));
    lemma_winner_unique(nodes, b, ph, w, n);
}

/// A hash-ring of nodes named by `u32`, built with rendezvous hashing.
pub struct Ring {
    nodes: HashMap<u32, Vec<u64>>,
    order: Vec<u32>,
    hash_builder: HashBuilder,
}

impl Ring {
    /// Each node of the ring and its replica positions.
    pub closed spec fn node_hashes(&self) -> Map<u32, Seq<u64>> {
        self.nodes@.map_values(|v: Vec<u64>| v@)
    }

    pub closed spec fn hasher(&self) -> HashBuilder {
        self.hash_builder
    }

    pub closed spec fn wf(&self) -> bool {
        &&& self.order@.no_duplicates()
        &&& forall|id: u32| #[trigger] self.nodes@.contains_key(id) <==> self.order@.contains(id)
        &&& forall|id: u32| #[trigger] self.nodes@.contains_key(id) ==> self.nodes@[id]@.len() > 0
    }

    /// Constructs an empty ring that hashes with the default keys.
    pub fn new() -> (r: Ring)
        ensures
            r.wf(),
            r.node_hashes() == Map::<u32, Seq<u64>>::empty(),
            r.hasher() == (HashBuilder { k0: 0, k1: 0 }),
    {
        Ring::with_hasher(HashBuilder::default())
    }

    /// Constructs an empty ring that hashes with `hash_builder`.
    pub fn with_hasher(hash_builder: HashBuilder) -> (r: Ring)
        ensures
            r.wf(),
            r.node_hashes() == Map::<u32, Seq<u64>>::empty(),
            r.hasher() == hash_builder,
    {
        let r = Ring { nodes: HashMap::new(), order: Vec::new(), hash_builder };
        assert(r.node_hashes() =~= Map::<u32, Seq<u64>>::empty());
        r
    }

    /// Inserts a node with a number of replicas, replacing the replicas of a node of the same id.
    pub fn insert_node(&mut self, id: u32, replicas: usize)
        requires
            old(self).wf(),
            replicas > 0,
        ensures
            final(self).wf(),
            final(self).node_hashes() == old(self).node_hashes().insert(
                id,
                replica_seq(old(self).hasher(), id, replicas as nat),
            ),
            final(self).hasher() == old(self).hasher(),
    {
        let ghost b = self.hash_builder;
        let node_hash = gen_hash(&self.hash_builder, &id);
        let mut hashes: Vec<u64> = Vec::new();
        let mut r: usize = 0;
        while r < replicas
            invariant
                r <= replicas,
                b == self.hash_builder,
                node_hash == hash_spec(b, u32_bytes(id)),
                hashes@ =~= replica_seq(b, id, r as nat),
            decreases replicas - r,
        {
            let index = r as u64;
            let replica = gen_hash(&self.hash_builder, &index);
            let h = combine_hash(&self.hash_builder, node_hash, replica);
            hashes.push(h);
            r = r + 1;
            assert(hashes@ =~= replica_seq(b, id, r as nat));
        }
        let previous = self.nodes.insert(id, hashes);
        if previous.is_none() {
            self.order.push(id);
        }
        proof {
            assert(self.node_hashes() =~= old(self).node_hashes().insert(
                id,
                replica_seq(b, id, replicas as nat),
            ));
            assert forall|x: u32| #[trigger] self.nodes@.contains_key(x) <==> self.order@.contains(
                x,
            ) by {
                if previous.is_none() {
                    lemma_push_contains(old(self).order@, id, x);
                }
            }
        }
    }

    /// Removes a node from the ring.
    pub fn remove_node(&mut self, id: u32) -> (res: Result<(), RingError>)
        requires
            old(self).wf(),
        ensures
            final(self).wf(),
            final(self).hasher() == old(self).hasher(),
            !old(self).node_hashes().contains_key(id) ==> res == Err::<(), RingError>(
                RingError::UnknownNode,
            ) && *final(self) == *old(self),
            old(self).node_hashes().contains_key(id) ==> res is Ok && final(self).node_hashes()
                == old(self).node_hashes().remove(id),
    {
        if !self.nodes.contains_key(&id) {
            return Err(RingError::UnknownNode);
        }
        self.nodes.remove(&id);
        let ghost old_order = self.order@;
        let mut i: usize = 0;
        while i < self.order.len() && self.order[i] != id
            invariant
                i <= self.order@.len(),
                self.order@ == old_order,
                forall|j: int| 0 <= j < i ==> self.order@[j] != id,
            decreases self.order@.len() - i,
        {
            i = i + 1;
        }
        assert(i < self.order@.len()) by {
            assert(old_order.contains(id));
        }
        self.order.remove(i);
        proof {
            lemma_seq_remove_contains(old_order, i as int);
            assert(self.node_hashes() =~= old(self).node_hashes().remove(id));
            assert forall|x: u32| #[trigger] self.nodes@.contains_key(x) <==> self.order@.contains(
                x,
            ) by {
                if x == id {
                    assert(!self.order@.contains(id));
                }
            }
        }
        Ok(())
    }

    /// The score of replica positions `hs` against a point of hash `ph`.
    fn score_of(&self, hs: &Vec<u64>, ph: u64) -> (s: u64)
        ensures
            s == score(self.hash_builder, hs@, ph),
    {
        let mut best: u64 = 0;
        let mut i: usize = 0;
        while i < hs.len()
            invariant
                i <= hs@.len(),
                best == score(self.hash_builder, hs@.subrange(0, i as int), ph),
            decreases hs@.len() - i,
        {
            let c = combine_hash(&self.hash_builder, hs[i], ph);
            assert(hs@.subrange(0, i + 1).drop_last() =~= hs@.subrange(0, i as int));
            if c > best {
                best = c;
            }
            i = i + 1;
        }
        assert(hs@.subrange(0, i as int) =~= hs@);
        best
    }

    /// The winner of a point of hash `ph`, with its score.
    fn winner_of(&self, ph: u64) -> (r: Option<(u32, u64)>)
        requires
            self.wf(),
        ensures
            r is None <==> self.node_hashes().dom() =~= Set::<u32>::empty(),
            r matches Some(w) ==> is_winner(self.node_hashes(), self.hasher(), ph, w.0) && w.1
                == score(self.hasher(), self.node_hashes()[w.0], ph) && w.0 == winner(
                self.node_hashes(),
                self.hasher(),
                ph,
            ),
    {
        let ghost nodes = self.node_hashes();
        let ghost b = self.hash_builder;
        if self.order.len() == 0 {
            assert forall|x: u32| !nodes.contains_key(x) by {
                if nodes.contains_key(x) {
                    assert(self.order@.contains(x));
                }
            }
            assert(nodes.dom() =~= Set::<u32>::empty());
            return None;
        }
        let first = self.order[0];
        assert(self.order@.contains(first));
        let mut best: u32 = first;
        let mut best_score: u64 = self.score_of(self.nodes.get(&first).unwrap(), ph);
        let mut i: usize = 1;
        while i < self.order.len()
            invariant
                self.wf(),
                nodes == self.node_hashes(),
                b == self.hash_builder,
                1 <= i <= self.order@.len(),
                nodes.contains_key(best),
                best_score == score(b, nodes[best], ph),
                forall|j: int|
                    0 <= j < i ==> beats(
                        best_score,
                        best,
                        score(b, nodes[#[trigger] self.order@[j]], ph),
                        self.order@[j],
                    ),
            decreases self.order@.len() - i,
        {
            let id = self.order[i];
            assert(self.order@.contains(id));
            let s = self.score_of(self.nodes.get(&id).unwrap(), ph);
            if s > best_score || (s == best_score && id > best) {
                best = id;
                best_score = s;
            }
            i = i + 1;
        }
        assert forall|m: u32| #[trigger] nodes.contains_key(m) implies beats(
            score(b, nodes[best], ph),
            best,
            score(b, nodes[m], ph),
            m,
        ) by {
            assert(self.order@.contains(m));
            let j = choose|j: int| 0 <= j < self.order@.len() && self.order@[j] == m;
        }
        proof {
            lemma_winner_is(nodes, b, ph, best);
        }
        Some((best, best_score))
    }

    /// Returns the node that wins `point`.
    pub fn get_node<U: Hashable + ?Sized>(&self, point: &U) -> (res: Result<u32, RingError>)
        requires
            self.wf(),
        ensures
            res is Err <==> self.node_hashes().dom() =~= Set::<u32>::empty(),
            res is Err ==> res == Err::<u32, RingError>(RingError::EmptyRing),
            res matches Ok(n) ==> n == winner(
                self.node_hashes(),
                self.hasher(),
                hash_spec(self.hasher(), point.hash_bytes()),
            ) && is_winner(
                self.node_hashes(),
                self.hasher(),
                hash_spec(self.hasher(), point.hash_bytes()),
                n,
            ),
    {
        let ph = gen_hash(&self.hash_builder, point);
        match self.winner_of(ph) {
            Some(w) => Ok(w.0),
            None => Err(RingError::EmptyRing),
        }
    }

    /// Returns the number of nodes in the ring.
    pub fn len(&self) -> (r: usize)
        requires
            self.wf(),
        ensures
            r == self.node_hashes().len(),
    {
        assert(self.node_hashes().dom() =~= self.nodes@.dom());
        self.nodes.len()
    }

    /// Returns `true` if the ring has no nodes.
    pub fn is_empty(&self) -> (r: bool)
        requires
            self.wf(),
        ensures
            r <==> self.node_hashes().len() == 0,
    {
        assert(self.node_hashes().dom() =~= self.nodes@.dom());
        self.nodes.is_empty()
    }

    /// Returns each node with its replica count, in the order the nodes were first inserted.
    pub fn iter(&self) -> (r: Vec<(u32, usize)>)
        requires
            self.wf(),
        ensures
            r@.len() == self.node_hashes().len(),
            forall|i: int| 0 <= i < r@.len() ==> self.node_hashes().contains_key(#[trigger] r@[i].0)
                && self.node_hashes()[r@[i].0].len() == r@[i].1,
            forall|id: u32| #[trigger] self.node_hashes().contains_key(id) ==> exists|i: int|
                0 <= i < r@.len() && r@[i].0 == id,
    {
        let mut r: Vec<(u32, usize)> = Vec::new();
        let mut i: usize = 0;
        while i < self.order.len()
            invariant
                self.wf(),
                i <= self.order@.len(),
                r@.len() == i,
                forall|j: int| 0 <= j < i ==> (#[trigger] r@[j]).0 == self.order@[j]
                    && self.node_hashes()[r@[j].0].len() == r@[j].1,
            decreases self.order@.len() - i,
        {
            let id = self.order[i];
            assert(self.order@.contains(id));
            let count = self.nodes.get(&id).unwrap().len();
            r.push((id, count));
            i = i + 1;
        }
        proof {
            self.order@.unique_seq_to_set();
            assert(self.order@.to_set() =~= self.node_hashes().dom());
            assert(self.node_hashes().dom() =~= self.nodes@.dom());
            assert forall|id: u32| #[trigger] self.node_hashes().contains_key(id) implies exists|
                j: int,
            | 0 <= j < r@.len() && r@[j].0 == id by {
                assert(self.order@.contains(id));
                let j = choose|j: int| 0 <= j < self.order@.len() && self.order@[j] == id;
                assert(r@[j].0 == id);
            }
            assert forall|j: int| 0 <= j < r@.len() implies self.node_hashes().contains_key(
                #[trigger] r@[j].0,
            ) by {
                assert(self.order@.contains(self.order@[j]));
            }
        }
        r
    }
}



impl Default for Ring {
    fn default() -> (r: Ring)
        ensures
            r.wf(),
            r.node_hashes() == Map::<u32, Seq<u64>>::empty(),
            r.hasher() == (HashBuilder { k0: 0, k1: 0 }),
    {
        Ring::new()
    }
}

/// A point of hash `ph` won by `n` under `nodes` is won, once node `id` with positions `hs` is
/// inserted, by `id` if `id`'s score beats `n`'s, and by `n` otherwise.
pub proof fn lemma_winner_after_insert(
    nodes: Map<u32, Seq<u64>>,
    b: HashBuilder,
    ph: u64,
    n: u32,
    id: u32,
    hs: Seq<u64>,
)
    requires
        is_winner(nodes, b, ph, n),
        n != id,
    ensures
        is_winner(
            nodes.insert(id, hs),
            b,
            ph,
            if beats(score(b, hs, ph), id, score(b, nodes[n], ph), n) {
                id
            } else {
                n
            },
        ),
{
    let after = nodes.insert(id, hs);
    assert(after[n] == nodes[n]);
    assert forall|m: u32| #[trigger] after.contains_key(m) && m != id implies after[m] == nodes[m]
        && nodes.contains_key(m) by {
    }
}

/// A point won by `n` stays with `n` when another node leaves.
pub proof fn lemma_winner_after_remove(
    nodes: Map<u32, Seq<u64>>,
    b: HashBuilder,
    ph: u64,
    n: u32,
    id: u32,
)
    requires
        is_winner(nodes, b, ph, n),
        n != id,
    ensures
        is_winner(nodes.remove(id), b, ph, n),
{
}

/// Point `p` is held by the node that wins it, with that node's score.
pub open spec fn entry_ok(nodes: Map<u32, Seq<u64>>, b: HashBuilder, p: u32, e: (u32, u64)) -> bool {
    let ph = hash_spec(b, u32_bytes(p));
    &&& is_winner(nodes, b, ph, e.0)
    &&& e.0 == winner(nodes, b, ph)
    &&& e.1 == score(b, nodes[e.0], ph)
}

/// Every kept point is held by the node that wins it, with that node's score.
pub open spec fn assignments_correct(
    nodes: Map<u32, Seq<u64>>,
    b: HashBuilder,
    a: Map<u32, (u32, u64)>,
) -> bool {
    forall|p: u32| #[trigger] a.contains_key(p) ==> entry_ok(nodes, b, p, a[p])
}

/// Each bucket holds, once each, exactly the kept points whose node it belongs to.
pub open spec fn mirrors(buckets: Map<u32, Vec<u32>>, points: Map<u32, (u32, u64)>) -> bool {
    &&& forall|n: u32, p: u32|
        buckets.contains_key(n) && #[trigger] buckets[n]@.contains(p) ==> points.contains_key(p)
            && points[p].0 == n
    &&& forall|p: u32| #[trigger]
        points.contains_key(p) && buckets.contains_key(points[p].0) ==> buckets[points[p].0]@.contains(p)
    &&& forall|n: u32| #[trigger] buckets.contains_key(n) ==> buckets[n]@.no_duplicates()
}

/// Takes point `p` out of the bucket of node `n`.
fn bucket_remove(buckets: &mut HashMap<u32, Vec<u32>>, n: u32, p: u32)
    requires
        old(buckets)@.contains_key(n),
        old(buckets)@[n]@.no_duplicates(),
    ensures
        final(buckets)@.dom() == old(buckets)@.dom(),
        forall|m: u32| #[trigger] final(buckets)@.contains_key(m) && m != n ==> final(buckets)@[m] == old(buckets)@[m],
        final(buckets)@[n]@.no_duplicates(),
        forall|x: u32| #[trigger] final(buckets)@[n]@.contains(x) <==> old(buckets)@[n]@.contains(x) && x != p,
{
    let mut v = buckets.remove(&n).unwrap();
    let ghost old_v = v@;
    let mut i: usize = 0;
    while i < v.len() && v[i] != p
        invariant
            i <= v@.len(),
            v@ == old_v,
            forall|j: int| 0 <= j < i ==> v@[j] != p,
        decreases v@.len() - i,
    {
        i = i + 1;
    }
    if i < v.len() {
        v.remove(i);
        proof {
            lemma_seq_remove_contains(old_v, i as int);
        }
    } else {
        assert forall|x: u32| #[trigger] v@.contains(x) implies x != p by {
            if v@.contains(x) && x == p {
                let j = choose|j: int| 0 <= j < v@.len() && v@[j] == x;
            }
        }
    }
    buckets.insert(n, v);
    assert(buckets@.dom() =~= old(buckets)@.dom());
}

/// Puts point `p`, which it does not hold, into the bucket of node `n`.
fn bucket_push(buckets: &mut HashMap<u32, Vec<u32>>, n: u32, p: u32)
    requires
        old(buckets)@.contains_key(n),
        old(buckets)@[n]@.no_duplicates(),
        !old(buckets)@[n]@.contains(p),
    ensures
        final(buckets)@.dom() == old(buckets)@.dom(),
        forall|m: u32| #[trigger] final(buckets)@.contains_key(m) && m != n ==> final(buckets)@[m] == old(buckets)@[m],
        final(buckets)@[n]@.no_duplicates(),
        forall|x: u32| #[trigger] final(buckets)@[n]@.contains(x) <==> old(buckets)@[n]@.contains(x) || x == p,
{
    let mut v = buckets.remove(&n).unwrap();
    let ghost old_v = v@;
    v.push(p);
    proof {
        assert forall|x: u32| #[trigger] v@.contains(x) <==> old_v.contains(x) || x == p by {
            lemma_push_contains(old_v, p, x);
        }
        assert forall|a: int, c: int| 0 <= a < c < v@.len() implies v@[a] != v@[c] by {
            if c == old_v.len() {
                assert(old_v.contains(v@[a]));
            }
        }
    }
    buckets.insert(n, v);
    assert(buckets@.dom() =~= old(buckets)@.dom());
}

/// A client of a rendezvous-hashing ring that keeps, for each point, the node that holds it
/// and that node's score, and for each node the points it holds.
pub struct Client {
    ring: Ring,
    buckets: HashMap<u32, Vec<u32>>,
    points: HashMap<u32, (u32, u64)>,
    listed: Vec<u32>,
}

impl Client {
    /// The ring the client routes with.
    pub closed spec fn ring_view(&self) -> Ring {
        self.ring
    }

    /// Each kept point with the node that holds it and that node's score.
    pub closed spec fn assignments(&self) -> Map<u32, (u32, u64)> {
        self.points@
    }

    /// Each node with the points it holds.
    pub closed spec fn holdings(&self) -> Map<u32, Seq<u32>> {
        self.buckets@.map_values(|v: Vec<u32>| v@)
    }

    pub closed spec fn wf(&self) -> bool {
        &&& self.ring.wf()
        &&& self.listed@.no_duplicates()
        &&& forall|p: u32| #[trigger] self.points@.contains_key(p) <==> self.listed@.contains(p)
        &&& assignments_correct(self.ring.node_hashes(), self.ring.hasher(), self.points@)
        &&& self.buckets@.dom() == self.ring.node_hashes().dom()
        &&& mirrors(self.buckets@, self.points@)
    }

    /// Constructs an empty client that hashes with the default keys.
    pub fn new() -> (r: Client)
        ensures
            r.wf(),
            r.ring_view().node_hashes() == Map::<u32, Seq<u64>>::empty(),
            r.ring_view().hasher() == (HashBuilder { k0: 0, k1: 0 }),
            r.assignments() == Map::<u32, (u32, u64)>::empty(),
    {
        Client::with_hasher(HashBuilder::default())
    }

    /// Constructs an empty client that hashes with `hash_builder`.
    pub fn with_hasher(hash_builder: HashBuilder) -> (r: Client)
        ensures
            r.wf(),
            r.ring_view().node_hashes() == Map::<u32, Seq<u64>>::empty(),
            r.ring_view().hasher() == hash_builder,
            r.assignments() == Map::<u32, (u32, u64)>::empty(),
    {
        let r = Client {
            ring: Ring::with_hasher(hash_builder),
            buckets: HashMap::new(),
            points: HashMap::new(),
            listed: Vec::new(),
        };
        assert(r.buckets@.dom() =~= r.ring.node_hashes().dom());
        r
    }

    /// Moves kept point `p` from the bucket of node `from` to that of node `to.0`, with score
    /// `to.1`.
    fn move_point(&mut self, p: u32, from: u32, to: (u32, u64))
        requires
            old(self).points@.contains_key(p),
            old(self).points@[p].0 == from,
            from != to.0,
            old(self).buckets@.contains_key(from),
            old(self).buckets@.contains_key(to.0),
            mirrors(old(self).buckets@, old(self).points@),
        ensures
            final(self).points@ == old(self).points@.insert(p, to),
            final(self).buckets@.dom() == old(self).buckets@.dom(),
            mirrors(final(self).buckets@, final(self).points@),
            final(self).ring == old(self).ring,
            final(self).listed == old(self).listed,
    {
        let ghost b0 = self.buckets@;
        bucket_remove(&mut self.buckets, from, p);
        assert(!self.buckets@[to.0]@.contains(p)) by {
            if b0[to.0]@.contains(p) {
            }
        }
        bucket_push(&mut self.buckets, to.0, p);
        self.points.insert(p, to);
        proof {
            let bk = self.buckets@;
            let pts = self.points@;
            assert forall|n: u32, q: u32|
                bk.contains_key(n) && #[trigger] bk[n]@.contains(q) implies pts.contains_key(q)
                && pts[q].0 == n by {
                if n != from && n != to.0 {
                    assert(b0[n]@.contains(q));
                } else if n == from {
                    assert(b0[from]@.contains(q));
                } else if q != p {
                    assert(b0[to.0]@.contains(q));
                }
            }
            assert forall|q: u32| #[trigger]
                pts.contains_key(q) && bk.contains_key(pts[q].0) implies bk[pts[q].0]@.contains(q) by {
                if q != p {
                    assert(b0[pts[q].0]@.contains(q));
                }
            }
        }
    }

    /// Inserts a node with a number of replicas, and moves to it every kept point that it
    /// now wins.
    pub fn insert_node(&mut self, id: u32, replicas: usize)
        requires
            old(self).wf(),
            replicas > 0,
        ensures
            final(self).wf(),
            final(self).ring_view().node_hashes() == old(self).ring_view().node_hashes().insert(
                id,
                replica_seq(old(self).ring_view().hasher(), id, replicas as nat),
            ),
            final(self).ring_view().hasher() == old(self).ring_view().hasher(),
            final(self).assignments().dom() == old(self).assignments().dom(),
    {
        let ghost b = self.ring.hash_builder;
        let ghost before = self.ring.node_hashes();
        let ghost a0 = self.points@;
        self.ring.insert_node(id, replicas);
        let ghost after = self.ring.node_hashes();
        if !self.buckets.contains_key(&id) {
            self.buckets.insert(id, Vec::new());
            proof {
                assert forall|p: u32| #[trigger] self.points@.contains_key(p) implies self.points@[p].0 != id by {
                    assert(before.contains_key(self.points@[p].0));
                }
            }
        }
        assert(self.buckets@.dom() =~= after.dom());
        let mut i: usize = 0;
        while i < self.listed.len()
            invariant
                self.ring.wf(),
                self.buckets@.dom() == after.dom(),
                mirrors(self.buckets@, self.points@),
                self.ring.hash_builder == b,
                self.ring.node_hashes() == after,
                after == before.insert(id, after[id]),
                after.contains_key(id),
                self.listed == old(self).listed,
                self.listed@.no_duplicates(),
                i <= self.listed@.len(),
                self.points@.dom() == a0.dom(),
                forall|p: u32| #[trigger] a0.contains_key(p) <==> self.listed@.contains(p),
                assignments_correct(before, b, a0),
                forall|j: int|
                    0 <= j < self.listed@.len() ==> #[trigger] self.points@[self.listed@[j]] == (
                    if j < i {
                        self.points@[self.listed@[j]]
                    } else {
                        a0[self.listed@[j]]
                    }),
                forall|j: int|
                    0 <= j < i ==> entry_ok(after, b, self.listed@[j], #[trigger] self.points@[self.listed@[j]]),
            decreases self.listed@.len() - i,
        {
            let p = self.listed[i];
            assert(self.listed@.contains(p));
            let ph = gen_hash(&self.ring.hash_builder, &p);
            let (n, sc) = *self.points.get(&p).unwrap();
            assert(a0[p] == (n, sc));
            assert(before.contains_key(n));
            if n == id {
                let w = self.ring.winner_of(ph).unwrap();
                if w.0 != id {
                    self.move_point(p, id, w);
                } else {
                    self.points.insert(p, w);
                    proof {
                        assert forall|q: u32| #[trigger] self.points@.contains_key(q) && self.buckets@.contains_key(
                            self.points@[q].0,
                        ) implies self.buckets@[self.points@[q].0]@.contains(q) by {
                            if q == p {
                                assert(self.buckets@[id]@.contains(p));
                            }
                        }
                    }
                }
            } else {
                let s = self.ring.score_of(self.ring.nodes.get(&id).unwrap(), ph);
                proof {
                    lemma_winner_after_insert(before, b, ph, n, id, after[id]);
                    assert(before.insert(id, after[id]) == after);
                }
                if s > sc || (s == sc && id > n) {
                    proof {
                        lemma_winner_is(after, b, ph, id);
                    }
                    self.move_point(p, n, (id, s));
                } else {
                    proof {
                        lemma_winner_is(after, b, ph, n);
                    }
                }
            }
            proof {
                assert forall|j: int|
                    0 <= j < self.listed@.len() implies #[trigger] self.points@[self.listed@[j]] == (
                    if j < i + 1 {
                        self.points@[self.listed@[j]]
                    } else {
                        a0[self.listed@[j]]
                    }) by {
                    if j > i {
                        assert(self.listed@[j] != p);
                    }
                }
                assert forall|j: int|
                    0 <= j < i + 1 implies entry_ok(after, b, self.listed@[j], #[trigger] self.points@[self.listed@[j]]) by {
                    if j < i {
                        assert(self.listed@[j] != p);
                    }
                }
            }
            i = i + 1;
        }
        assert forall|x: u32| #[trigger] self.points@.contains_key(x) implies entry_ok(
            after,
            b,
            x,
            self.points@[x],
        ) by {
            assert(self.listed@.contains(x));
            let j = choose|j: int| 0 <= j < self.listed@.len() && self.listed@[j] == x;
        }
        assert forall|x: u32| #[trigger] self.points@.contains_key(x) <==> self.listed@.contains(x) by {
            assert(self.points@.dom() == a0.dom());
        }
    }

    /// Removes a node and hands each of its points to the node that now wins it.
    pub fn remove_node(&mut self, id: u32) -> (res: Result<(), RingError>)
        requires
            old(self).wf(),
        ensures
            final(self).wf(),
            final(self).ring_view().hasher() == old(self).ring_view().hasher(),
            final(self).assignments().dom() == old(self).assignments().dom(),
            !old(self).ring_view().node_hashes().contains_key(id) ==> res == Err::<(), RingError>(
                RingError::UnknownNode,
            ) && *final(self) == *old(self),
            old(self).ring_view().node_hashes().contains_key(id) && old(self).ring_view().node_hashes().len() == 1 ==> res == Err::<(), RingError>(
                RingError::EmptyRingAfterRemoval,
            ) && *final(self) == *old(self),
            old(self).ring_view().node_hashes().contains_key(id) && old(self).ring_view().node_hashes().len() != 1 ==> res is Ok && final(self).ring_view().node_hashes() == old(self).ring_view().node_hashes().remove(id),
    {
        if !self.ring.nodes.contains_key(&id) {
            assert(!self.ring.node_hashes().contains_key(id));
            return Err(RingError::UnknownNode);
        }
        if self.ring.len() == 1 {
            return Err(RingError::EmptyRingAfterRemoval);
        }
        let ghost b = self.ring.hash_builder;
        let ghost before = self.ring.node_hashes();
        let ghost a0 = self.points@;
        let _ = self.ring.remove_node(id);
        let ghost after = self.ring.node_hashes();
        proof {
            assert(before.dom() =~= old(self).ring.nodes@.dom());
            assert(before.dom().finite());
            assert(before.len() != 1);
            if !(exists|m: u32| before.contains_key(m) && m != id) {
                assert(before.dom() =~= set![id]);
                assert(before.dom().len() == 1);
            }
            let other = choose|m: u32| before.contains_key(m) && m != id;
            assert(after.contains_key(other));
        }
        let ghost bk0 = self.buckets@;
        assert(bk0 == old(self).buckets@);
        assert(bk0.contains_key(id));
        let orphans = self.buckets.remove(&id).unwrap();
        assert(self.buckets@.dom() =~= after.dom());
        proof {
            assert forall|p: u32| #[trigger] a0.contains_key(p) && a0[p].0 != id implies entry_ok(
                after,
                b,
                p,
                a0[p],
            ) by {
                let ph = hash_spec(b, u32_bytes(p));
                lemma_winner_after_remove(before, b, ph, a0[p].0, id);
                lemma_winner_is(after, b, ph, a0[p].0);
            }
        }
        let mut i: usize = 0;
        while i < orphans.len()
            invariant
                self.ring.wf(),
                self.ring.hash_builder == b,
                self.ring.node_hashes() == after,
                after == before.remove(id),
                exists|m: u32| #[trigger] after.contains_key(m),
                self.listed == old(self).listed,
                i <= orphans@.len(),
                bk0.contains_key(id),
                mirrors(bk0, a0),
                orphans@ == bk0[id]@,
                orphans@.no_duplicates(),
                self.buckets@.dom() == after.dom(),
                mirrors(self.buckets@, self.points@),
                self.points@.dom() == a0.dom(),
                forall|p: u32| #[trigger] a0.contains_key(p) ==> (a0[p].0 == id <==> orphans@.contains(p)),
                forall|p: u32| #[trigger]
                    a0.contains_key(p) && a0[p].0 != id ==> self.points@[p] == a0[p] && entry_ok(
                        after,
                        b,
                        p,
                        a0[p],
                    ),
                forall|j: int|
                    i <= j < orphans@.len() ==> #[trigger] self.points@[orphans@[j]] == a0[orphans@[j]],
                forall|j: int|
                    0 <= j < i ==> entry_ok(after, b, orphans@[j], #[trigger] self.points@[orphans@[j]]),
            decreases orphans@.len() - i,
        {
            let p = orphans[i];
            assert(orphans@.contains(p));
            assert(a0.contains_key(p) && a0[p].0 == id);
            let ph = gen_hash(&self.ring.hash_builder, &p);
            let w = self.ring.winner_of(ph).unwrap();
            assert(!self.buckets@[w.0]@.contains(p)) by {
                if self.buckets@[w.0]@.contains(p) {
                    assert(self.points@[p] == a0[p]);
                }
            }
            let ghost bk1 = self.buckets@;
            let ghost pts1 = self.points@;
            bucket_push(&mut self.buckets, w.0, p);
            self.points.insert(p, w);
            proof {
                let bk = self.buckets@;
                let pts = self.points@;
                assert forall|n: u32, q: u32|
                    bk.contains_key(n) && #[trigger] bk[n]@.contains(q) implies pts.contains_key(q)
                    && pts[q].0 == n by {
                    if q != p {
                        assert(bk1[n]@.contains(q));
                    }
                }
                assert forall|q: u32| #[trigger]
                    pts.contains_key(q) && bk.contains_key(pts[q].0) implies bk[pts[q].0]@.contains(q) by {
                    if q != p {
                        assert(bk1[pts1[q].0]@.contains(q));
                    }
                }
                assert forall|j: int| i + 1 <= j < orphans@.len() implies #[trigger] self.points@[orphans@[j]]
                    == a0[orphans@[j]] by {
                    assert(orphans@[j] != p);
                }
                assert forall|j: int|
                    0 <= j < i + 1 implies entry_ok(after, b, orphans@[j], #[trigger] self.points@[orphans@[j]]) by {
                    if j < i {
                        assert(orphans@[j] != p);
                    }
                }
            }
            i = i + 1;
        }
        assert forall|x: u32| #[trigger] self.points@.contains_key(x) implies entry_ok(
            after,
            b,
            x,
            self.points@[x],
        ) by {
            if a0[x].0 == id {
                assert(orphans@.contains(x));
                let j = choose|j: int| 0 <= j < orphans@.len() && orphans@[j] == x;
            }
        }
        Ok(())
    }

    /// Returns the node that wins `point`.
    pub fn get_node(&self, point: u32) -> (res: Result<u32, RingError>)
        requires
            self.wf(),
        ensures
            res is Err <==> self.ring_view().node_hashes().dom() =~= Set::<u32>::empty(),
            res is Err ==> res == Err::<u32, RingError>(RingError::EmptyRing),
            res matches Ok(n) ==> n == winner(
                self.ring_view().node_hashes(),
                self.ring_view().hasher(),
                hash_spec(self.ring_view().hasher(), u32_bytes(point)),
            ),
    {
        self.ring.get_node(&point)
    }

    /// Keeps a point with the node that wins it, and returns that node.
    pub fn insert_point(&mut self, point: u32) -> (res: Result<u32, RingError>)
        requires
            old(self).wf(),
        ensures
            final(self).wf(),
            final(self).ring_view() == old(self).ring_view(),
            res is Err <==> old(self).ring_view().node_hashes().dom() =~= Set::<u32>::empty(),
            res is Err ==> res == Err::<u32, RingError>(RingError::EmptyRing) && *final(self) == *old(self),
            res matches Ok(n) ==> final(self).assignments().dom() == old(self).assignments().dom().insert(point) && final(self).assignments()[point].0 == n && n
                == winner(
                old(self).ring_view().node_hashes(),
                old(self).ring_view().hasher(),
                hash_spec(old(self).ring_view().hasher(), u32_bytes(point)),
            ),
    {
        let ph = gen_hash(&self.ring.hash_builder, &point);
        let w = match self.ring.winner_of(ph) {
            Some(w) => w,
            None => {
                return Err(RingError::EmptyRing);
            },
        };
        let kept = self.points.contains_key(&point);
        if !kept {
            assert(!self.buckets@[w.0]@.contains(point));
            let ghost bk1 = self.buckets@;
            bucket_push(&mut self.buckets, w.0, point);
            proof {
                assert forall|n: u32, q: u32|
                    self.buckets@.contains_key(n) && #[trigger] self.buckets@[n]@.contains(q) implies (q
                    == point && n == w.0) || (bk1.contains_key(n) && bk1[n]@.contains(q)) by {}
            }
        } else {
            proof {
                let ph2 = hash_spec(self.ring.hash_builder, u32_bytes(point));
                assert(entry_ok(self.ring.node_hashes(), self.ring.hash_builder, point, self.points@[point]));
                lemma_winner_unique(self.ring.node_hashes(), self.ring.hash_builder, ph2, w.0, self.points@[point].0);
            }
        }
        let ghost pts1 = self.points@;
        let previous = self.points.insert(point, w);
        proof {
            assert forall|q: u32| #[trigger]
                self.points@.contains_key(q) && self.buckets@.contains_key(self.points@[q].0) implies self.buckets@[self.points@[q].0]@.contains(q) by {
                if q != point {
                    assert(pts1.contains_key(q));
                }
            }
        }
        if previous.is_none() {
            proof {
                assert(!self.listed@.contains(point));
            }
            self.listed.push(point);
        }
        proof {
            assert forall|x: u32| #[trigger] self.points@.contains_key(x) <==> self.listed@.contains(
                x,
            ) by {
                if previous.is_none() {
                    lemma_push_contains(old(self).listed@, point, x);
                }
            }
            if previous.is_none() {
                assert forall|a: int, c: int|
                    0 <= a < c < self.listed@.len() implies self.listed@[a] != self.listed@[c] by {
                    if c == self.listed@.len() - 1 {
                        assert(old(self).listed@.contains(self.listed@[a]));
                    }
                }
            }
            assert(self.points@.dom() =~= old(self).points@.dom().insert(point));
        }
        Ok(w.0)
    }

    /// Stops keeping a point.
    pub fn remove_point(&mut self, point: u32) -> (res: Result<(), RingError>)
        requires
            old(self).wf(),
        ensures
            final(self).wf(),
            final(self).ring_view() == old(self).ring_view(),
            res is Err <==> old(self).ring_view().node_hashes().dom() =~= Set::<u32>::empty(),
            res is Err ==> res == Err::<(), RingError>(RingError::EmptyRing) && *final(self) == *old(self),
            res is Ok ==> final(self).assignments() == old(self).assignments().remove(point),
    {
        if self.ring.is_empty() {
            proof {
                assert(self.ring.node_hashes().dom() =~= self.ring.nodes@.dom());
                assert(self.ring.node_hashes().dom().finite());
                assert(self.ring.node_hashes().dom() =~= Set::<u32>::empty()) by {
                    if exists|x: u32| self.ring.node_hashes().dom().contains(x) {
                        let x = choose|x: u32| self.ring.node_hashes().dom().contains(x);
                        vstd::set_lib::lemma_set_empty_equivalency_len(self.ring.node_hashes().dom());
                    }
                }
            }
            return Err(RingError::EmptyRing);
        }
        proof {
            if self.ring.node_hashes().dom() =~= Set::<u32>::empty() {
                assert(self.ring.node_hashes().len() == 0);
            }
        }
        if self.points.contains_key(&point) {
            let n = self.points.get(&point).unwrap().0;
            let ghost bk1 = self.buckets@;
            let ghost pts1 = self.points@;
            bucket_remove(&mut self.buckets, n, point);
            self.points.remove(&point);
            proof {
                assert forall|m: u32, q: u32|
                    self.buckets@.contains_key(m) && #[trigger] self.buckets@[m]@.contains(q) implies self.points@.contains_key(q)
                    && self.points@[q].0 == m by {
                    assert(bk1[m]@.contains(q));
                }
                assert forall|q: u32| #[trigger]
                    self.points@.contains_key(q) && self.buckets@.contains_key(self.points@[q].0) implies self.buckets@[self.points@[q].0]@.contains(q) by {
                    assert(bk1[pts1[q].0]@.contains(q));
                }
            }
            let ghost old_listed = self.listed@;
            let mut i: usize = 0;
            while i < self.listed.len() && self.listed[i] != point
                invariant
                    i <= self.listed@.len(),
                    self.listed@ == old_listed,
                    forall|j: int| 0 <= j < i ==> self.listed@[j] != point,
                decreases self.listed@.len() - i,
            {
                i = i + 1;
            }
            assert(i < self.listed@.len()) by {
                assert(old_listed.contains(point));
            }
            self.listed.remove(i);
            proof {
                lemma_seq_remove_contains(old_listed, i as int);
            }
        } else {
            assert(self.points@ =~= old(self).points@.remove(point));
        }
        Ok(())
    }

    /// Returns the node and the score with which `point` is kept, if it is.
    pub fn get_assignment(&self, point: u32) -> (r: Option<(u32, u64)>)
        requires
            self.wf(),
        ensures
            r == (if self.assignments().contains_key(point) {
                Some(self.assignments()[point])
            } else {
                None::<(u32, u64)>
            }),
    {
        match self.points.get(&point) {
            Some(e) => Some(*e),
            None => None,
        }
    }

    /// The kept points that node `id` holds.
    fn collect_points(&self, id: u32) -> (v: Vec<u32>)
        requires
            self.wf(),
            self.ring_view().node_hashes().contains_key(id),
        ensures
            v@.no_duplicates(),
            forall|p: u32| #[trigger]
                v@.contains(p) <==> self.assignments().contains_key(p) && self.assignments()[p].0
                    == id,
    {
        let bucket = self.buckets.get(&id).unwrap();
        let mut v: Vec<u32> = Vec::new();
        let mut i: usize = 0;
        while i < bucket.len()
            invariant
                i <= bucket@.len(),
                v@ == bucket@.subrange(0, i as int),
            decreases bucket@.len() - i,
        {
            v.push(bucket[i]);
            i = i + 1;
            assert(v@ =~= bucket@.subrange(0, i as int));
        }
        assert(v@ =~= bucket@);
        v
    }

    /// Returns the points that node `id` holds.
    pub fn get_points(&self, id: u32) -> (res: Result<Vec<u32>, RingError>)
        requires
            self.wf(),
        ensures
            !self.ring_view().node_hashes().contains_key(id) ==> res == Err::<Vec<u32>, RingError>(
                RingError::UnknownNode,
            ),
            self.ring_view().node_hashes().contains_key(id) ==> (res matches Ok(v) && v@.no_duplicates()
                && forall|p: u32| #[trigger]
                v@.contains(p) <==> self.assignments().contains_key(p)
                    && self.assignments()[p].0 == id),
    {
        if !self.ring.nodes.contains_key(&id) {
            assert(!self.ring.node_hashes().contains_key(id));
            return Err(RingError::UnknownNode);
        }
        assert(self.ring.node_hashes().contains_key(id));
        Ok(self.collect_points(id))
    }

    /// Returns the number of nodes in the ring.
    pub fn len(&self) -> (r: usize)
        requires
            self.wf(),
        ensures
            r == self.ring_view().node_hashes().len(),
    {
        self.ring.len()
    }

    /// Returns `true` if the ring has no nodes.
    pub fn is_empty(&self) -> (r: bool)
        requires
            self.wf(),
        ensures
            r <==> self.ring_view().node_hashes().len() == 0,
    {
        self.ring.is_empty()
    }

    /// Returns each node with the points it holds, in the order the nodes were first inserted.
    pub fn iter(&self) -> (r: Vec<(u32, Vec<u32>)>)
        requires
            self.wf(),
        ensures
            r@.len() == self.ring_view().node_hashes().len(),
            forall|id: u32| #[trigger]
                self.ring_view().node_hashes().contains_key(id) ==> exists|i: int|
                    0 <= i < r@.len() && r@[i].0 == id,
            forall|i: int, p: u32|
                0 <= i < r@.len() ==> self.ring_view().node_hashes().contains_key(r@[i].0) && (
                #[trigger] r@[i].1@.contains(p) <==> self.assignments().contains_key(p)
                    && self.assignments()[p].0 == r@[i].0),
    {
        let nodes = self.ring.iter();
        let mut r: Vec<(u32, Vec<u32>)> = Vec::new();
        let mut i: usize = 0;
        while i < nodes.len()
            invariant
                self.wf(),
                i <= nodes@.len(),
                r@.len() == i,
                forall|j: int|
                    0 <= j < nodes@.len() ==> self.ring_view().node_hashes().contains_key(
                        #[trigger] nodes@[j].0,
                    ),
                forall|j: int| 0 <= j < i ==> (#[trigger] r@[j]).0 == nodes@[j].0,
                forall|j: int, p: u32|
                    0 <= j < i ==> (#[trigger] r@[j].1@.contains(p) <==> self.assignments().contains_key(
                        p,
                    ) && self.assignments()[p].0 == r@[j].0),
            decreases nodes@.len() - i,
        {
            let id = nodes[i].0;
            let points = self.collect_points(id);
            r.push((id, points));
            i = i + 1;
        }
        assert forall|id: u32| #[trigger]
            self.ring_view().node_hashes().contains_key(id) implies exists|i: int|
            0 <= i < r@.len() && r@[i].0 == id by {
            let j = choose|j: int| 0 <= j < nodes@.len() && nodes@[j].0 == id;
            assert(r@[j].0 == id);
        }
        r
    }

}


impl Default for Client {
    fn default() -> (r: Client)
        ensures
            r.wf(),
            r.ring_view().node_hashes() == Map::<u32, Seq<u64>>::empty(),
            r.ring_view().hasher() == (HashBuilder { k0: 0, k1: 0 }),
            r.assignments() == Map::<u32, (u32, u64)>::empty(),
    {
        Client::new()
    }
}

/// How far the pair of a node's score and id lies below the highest pair there can be.
pub open spec fn rank_gap(b: HashBuilder, nodes: Map<u32, Seq<u64>>, ph: u64, n: u32) -> int {
    (0xffff_ffff_ffff_ffff - score(b, nodes[n], ph)) * 0x1_0000_0000 + (0xffff_ffff - n)
}

/// A ring with a node has a node that wins any point.
pub proof fn lemma_winner_exists(nodes: Map<u32, Seq<u64>>, b: HashBuilder, ph: u64, n0: u32)
    requires
        nodes.contains_key(n0),
    ensures
        is_winner(nodes, b, ph, winner(nodes, b, ph)),
    decreases rank_gap(b, nodes, ph, n0),
{
    if is_winner(nodes, b, ph, n0) {
        lemma_winner_is(nodes, b, ph, n0);
    } else {
        let m = choose|m: u32| #[trigger]
            nodes.contains_key(m) && !beats(score(b, nodes[n0], ph), n0, score(b, nodes[m], ph), m);
        assert(rank_gap(b, nodes, ph, m) < rank_gap(b, nodes, ph, n0)) by (nonlinear_arith)
            requires
                score(b, nodes[m], ph) > score(b, nodes[n0], ph) || (score(b, nodes[m], ph)
                    == score(b, nodes[n0], ph) && m > n0),
                rank_gap(b, nodes, ph, m) == (0xffff_ffff_ffff_ffff - score(b, nodes[m], ph))
                    * 0x1_0000_0000 + (0xffff_ffff - m),
                rank_gap(b, nodes, ph, n0) == (0xffff_ffff_ffff_ffff - score(b, nodes[n0], ph))
                    * 0x1_0000_0000 + (0xffff_ffff - n0),
        ;
        lemma_winner_exists(nodes, b, ph, m);
    }
}

/// Inserting a new node changes the node of a point only by handing the point to the new node.
pub proof fn law_insert_moves_points_only_to_new_node(
    nodes: Map<u32, Seq<u64>>,
    b: HashBuilder,
    id: u32,
    hs: Seq<u64>,
    ph: u64,
)
    requires
        !nodes.contains_key(id),
    ensures
        winner(nodes.insert(id, hs), b, ph) == winner(nodes, b, ph) || winner(
            nodes.insert(id, hs),
            b,
            ph,
        ) == id,
{
    let after = nodes.insert(id, hs);
    if exists|m: u32| #[trigger] nodes.contains_key(m) {
        let m = choose|m: u32| #[trigger] nodes.contains_key(m);
        lemma_winner_exists(nodes, b, ph, m);
        let w = winner(nodes, b, ph);
        lemma_winner_after_insert(nodes, b, ph, w, id, hs);
        if beats(score(b, hs, ph), id, score(b, nodes[w], ph), w) {
            lemma_winner_is(after, b, ph, id);
        } else {
            lemma_winner_is(after, b, ph, w);
        }
    } else {
        assert(is_winner(after, b, ph, id)) by {
            assert forall|m: u32| #[trigger] after.contains_key(m) implies m == id by {}
        }
        lemma_winner_is(after, b, ph, id);
    }
}

/// Removing a node changes the node of a point only for points that the removed node won.
pub proof fn law_remove_moves_only_points_of_removed_node(
    nodes: Map<u32, Seq<u64>>,
    b: HashBuilder,
    id: u32,
    n0: u32,
    ph: u64,
)
    requires
        nodes.contains_key(n0),
    ensures
        winner(nodes.remove(id), b, ph) == winner(nodes, b, ph) || winner(nodes, b, ph) == id,
{
    lemma_winner_exists(nodes, b, ph, n0);
    let w = winner(nodes, b, ph);
    if w != id {
        lemma_winner_after_remove(nodes, b, ph, w, id);
        lemma_winner_is(nodes.remove(id), b, ph, w);
    }
}

/// Removing a node, then inserting it again with the same replica count, gives back the same
/// ring, so every point goes to the same node again.
pub proof fn law_remove_then_insert_restores(
    nodes: Map<u32, Seq<u64>>,
    b: HashBuilder,
    id: u32,
    n: nat,
)
    requires
        nodes.contains_key(id),
        nodes[id] == replica_seq(b, id, n),
    ensures
        nodes.remove(id).insert(id, replica_seq(b, id, n)) == nodes,
{
    assert(nodes.remove(id).insert(id, replica_seq(b, id, n)) =~= nodes);
}

/// Every kept point is held by the node that the ring gives it, with that node's score.
pub proof fn law_client_points_follow_ring(c: Client, p: u32)
    requires
        c.wf(),
        c.assignments().contains_key(p),
    ensures
        c.assignments()[p].0 == winner(
            c.ring_view().node_hashes(),
            c.ring_view().hasher(),
            hash_spec(c.ring_view().hasher(), u32_bytes(p)),
        ),
        c.assignments()[p].1 == score(
            c.ring_view().hasher(),
            c.ring_view().node_hashes()[c.assignments()[p].0],
            hash_spec(c.ring_view().hasher(), u32_bytes(p)),
        ),
{
}

/// A kept point is held by exactly one node, once.
pub proof fn law_client_point_held_once(c: Client, p: u32, n: u32)
    requires
        c.wf(),
    ensures
        c.holdings().dom() == c.ring_view().node_hashes().dom(),
        c.ring_view().wf(),
        c.holdings().contains_key(n) && c.holdings()[n].contains(p) <==> c.assignments().contains_key(p)
            && c.assignments()[p].0 == n,
        c.holdings().contains_key(n) ==> c.holdings()[n].no_duplicates(),
{
    assert(c.holdings().dom() =~= c.ring_view().node_hashes().dom());
    if c.assignments().contains_key(p) {
        assert(entry_ok(
            c.ring_view().node_hashes(),
            c.ring_view().hasher(),
            p,
            c.assignments()[p],
        ));
    }
}

/// A ring holds finitely many nodes.
pub proof fn law_ring_is_finite(r: Ring)
    requires
        r.wf(),
    ensures
        r.node_hashes().dom().finite(),
{
    assert(r.node_hashes().dom() =~= r.nodes@.dom());
}

} // verus!
