//! Maglev hashing: a prime-sized lookup table that the nodes fill in turns, each taking the
//! next free slot of its own permutation of the table.

use crate::util::{fixed_keys, sip24, sip24_of, FIXED_KEY_0, FIXED_KEY_1, FIXED_KEY_2, FIXED_KEY_3};
use crate::util::{u32_bytes, Hashable};
use crate::RingError;
use vstd::prelude::*;

verus! {

/// The mark of a slot that no node has taken yet.
pub const EMPTY: usize = usize::MAX;

/// `p` is a prime number.
pub open spec fn is_prime(p: nat) -> bool {
    &&& p >= 2
    &&& forall|d: nat| 2 <= d < p ==> #[trigger] (p % d) != 0
}

/// `p` is the smallest prime at or above `n`.
pub open spec fn is_next_prime(n: nat, p: nat) -> bool {
    &&& n <= p
    &&& is_prime(p)
    &&& forall|q: nat| n <= q < p ==> !#[trigger] is_prime(q)
}

/// Relies on primal's `Sieve::new` and `Sieve::primes_from`: a sieve made for `limit` covers at
/// least `limit`, and its iterator from `from` yields the primes at or above `from` in increasing
/// order. Between `from` and `2 * from` there is always a prime (Bertrand's postulate).
#[verifier::external_body]
fn first_prime_from(limit: usize, from: usize) -> (r: Option<usize>)
    requires
        2 <= from,
        from <= limit / 2,
    ensures
        r matches Some(p) ==> is_next_prime(from as nat, p as nat),
        r is Some,
{
    primal::Sieve::new(limit).primes_from(from).next()
}

/// The number of taken slots in `s`.
spec fn taken(s: Seq<usize>) -> nat
    decreases s.len(),
{
    if s.len() == 0 {
        0
    } else {
        taken(s.drop_last()) + if s.last() != EMPTY {
            1nat
        } else {
            0nat
        }
    }
}

proof fn lemma_taken_bound(s: Seq<usize>)
    ensures
        taken(s) <= s.len(),
        taken(s) == s.len() ==> forall|c: int| 0 <= c < s.len() ==> s[c] != EMPTY,
        taken(s) < s.len() ==> exists|c: int| 0 <= c < s.len() && s[c] == EMPTY,
    decreases s.len(),
{
    if s.len() > 0 {
        lemma_taken_bound(s.drop_last());
        if taken(s) == s.len() {
            assert forall|c: int| 0 <= c < s.len() implies s[c] != EMPTY by {
                if c < s.len() - 1 {
                    assert(s.drop_last()[c] == s[c]);
                }
            }
        }
        if taken(s) < s.len() {
            if s.last() != EMPTY {
                let c = choose|c: int| 0 <= c < s.len() - 1 && s.drop_last()[c] == EMPTY;
                assert(s[c] == EMPTY);
            }
        }
    }
}

proof fn lemma_taken_update(s: Seq<usize>, c: int, x: usize)
    requires
        0 <= c < s.len(),
        s[c] == EMPTY,
        x != EMPTY,
    ensures
        taken(s.update(c, x)) == taken(s) + 1,
    decreases s.len(),
{
    let t = s.update(c, x);
    if c == s.len() - 1 {
        assert(t.drop_last() =~= s.drop_last());
    } else {
        assert(t.drop_last() =~= s.drop_last().update(c, x));
        lemma_taken_update(s.drop_last(), c, x);
    }
}

/// Slot `t` of the permutation with offset `o` and skip `s` in a table of `m` slots.
pub open spec fn slot_of(o: u64, s: u64, m: nat, t: nat) -> nat
    recommends
        m > 0,
{
    ((o + t * s) % (m as int)) as nat
}

/// The first position at or after `t` of the permutation `(o, s)` whose slot is free in
/// `entry`, or `m` when there is none.
pub open spec fn first_free(entry: Seq<usize>, o: u64, s: u64, m: nat, t: nat) -> nat
    decreases m - t,
{
    if t >= m {
        m
    } else if entry[slot_of(o, s, m, t) as int] == EMPTY {
        t
    } else {
        first_free(entry, o, s, m, t + 1)
    }
}

/// The first free slot of `entry` at or after `f`, or its length when there is none.
pub open spec fn first_empty(entry: Seq<usize>, f: nat) -> nat
    decreases entry.len() - f,
{
    if f >= entry.len() {
        entry.len()
    } else if entry[f as int] == EMPTY {
        f
    } else {
        first_empty(entry, f + 1)
    }
}

/// The table and the nodes' cursors after `k` turns. Node `k % n` takes turn `k`: it moves its
/// cursor to the first free slot of its permutation and takes that slot. (Were its permutation
/// used up, it would take the first free slot of the table.)
pub open spec fn fill(offsets: Seq<u64>, skips: Seq<u64>, m: nat, k: nat) -> (Seq<usize>, Seq<nat>)
    decreases k,
{
    if k == 0 {
        (Seq::new(m, |c: int| EMPTY), Seq::new(offsets.len(), |j: int| 0nat))
    } else {
        let prev = fill(offsets, skips, m, (k - 1) as nat);
        let j = ((k - 1) as int) % (offsets.len() as int);
        let t = first_free(prev.0, offsets[j], skips[j], m, prev.1[j]);
        let slot = if t < m {
            slot_of(offsets[j], skips[j], m, t)
        } else {
            first_empty(prev.0, 0)
        };
        (prev.0.update(slot as int, j as usize), prev.1.update(j, t))
    }
}

/// The lookup table of `m` slots that nodes with the given permutation offsets and skips fill.
pub open spec fn maglev_table(offsets: Seq<u64>, skips: Seq<u64>, m: nat) -> Seq<usize> {
    fill(offsets, skips, m, m).0
}

/// The permutation offset of each node in a table of `m` slots, under the given hash keys.
pub open spec fn offsets_of(nodes: Seq<u32>, keys: (u64, u64, u64, u64), m: nat) -> Seq<u64> {
    Seq::new(nodes.len(), |j: int| sip24_of(keys.0, keys.1, u32_bytes(nodes[j])) % (m as u64))
}

/// The permutation skip of each node in a table of `m` slots, under the given hash keys.
pub open spec fn skips_of(nodes: Seq<u32>, keys: (u64, u64, u64, u64), m: nat) -> Seq<u64> {
    Seq::new(
        nodes.len(),
        |j: int| (sip24_of(keys.2, keys.3, u32_bytes(nodes[j])) % ((m - 1) as u64) + 1) as u64,
    )
}

/// A hash-ring of nodes named by `u32`, built with Maglev hashing.
pub struct Ring {
    nodes: Vec<u32>,
    lookup: Vec<usize>,
    keys: (u64, u64, u64, u64),
}

impl Ring {
    /// The nodes, in the order they were given.
    pub closed spec fn node_list(&self) -> Seq<u32> {
        self.nodes@
    }

    /// The lookup table: for each slot, the index of the node that took it.
    pub closed spec fn table(&self) -> Seq<usize> {
        self.lookup@
    }

    /// The keys of the two hashers: the first places points and offsets permutations, the second
    /// gives their skips.
    pub closed spec fn hash_keys(&self) -> (u64, u64, u64, u64) {
        self.keys
    }

    pub closed spec fn wf(&self) -> bool {
        &&& self.nodes@.len() > 0
        &&& is_prime(self.lookup@.len() as nat)
        &&& forall|c: int| 0 <= c < self.lookup@.len() ==> #[trigger] self.lookup@[c] < self.nodes@.len()
    }

    /// The first hash of a value of the given bytes.
    pub open spec fn first_hash(&self, bytes: Seq<u8>) -> u64 {
        sip24_of(self.hash_keys().0, self.hash_keys().1, bytes)
    }

    /// The second hash of a value of the given bytes.
    pub open spec fn second_hash(&self, bytes: Seq<u8>) -> u64 {
        sip24_of(self.hash_keys().2, self.hash_keys().3, bytes)
    }

    /// The offset of each node's permutation of the table.
    pub open spec fn node_offsets(&self) -> Seq<u64> {
        offsets_of(self.node_list(), self.hash_keys(), self.table().len())
    }

    /// The skip of each node's permutation of the table.
    pub open spec fn node_skips(&self) -> Seq<u64> {
        skips_of(self.node_list(), self.hash_keys(), self.table().len())
    }

    /// Constructs a ring whose table has room for a hundred slots per node.
    pub fn new(nodes: Vec<u32>) -> (res: Result<Ring, RingError>)
        requires
            nodes@.len() <= usize::MAX / 200,
        ensures
            nodes@.len() == 0 <==> res is Err,
            res is Err ==> res == Err::<Ring, RingError>(RingError::InvalidConfig),
            res matches Ok(r) ==> r.wf() && r.node_list() == nodes@ && is_next_prime(
                100 * nodes@.len(),
                r.table().len() as nat,
            ) && r.table() == maglev_table(r.node_offsets(), r.node_skips(), r.table().len())
                && r.hash_keys() == (FIXED_KEY_0, FIXED_KEY_1, FIXED_KEY_2, FIXED_KEY_3),
    {
        let hint = nodes.len() * 100;
        Ring::with_capacity_hint(nodes, hint)
    }

    /// Constructs a ring whose table size is the smallest prime at or above `capacity_hint`
    /// (and at least 2).
    pub fn with_capacity_hint(nodes: Vec<u32>, capacity_hint: usize) -> (res: Result<Ring, RingError>)
        requires
            capacity_hint <= usize::MAX / 2,
        ensures
            nodes@.len() == 0 <==> res is Err,
            res is Err ==> res == Err::<Ring, RingError>(RingError::InvalidConfig),
            res matches Ok(r) ==> r.wf() && r.node_list() == nodes@ && is_next_prime(
                if capacity_hint < 2 {
                    2nat
                } else {
                    capacity_hint as nat
                },
                r.table().len() as nat,
            ) && r.table() == maglev_table(r.node_offsets(), r.node_skips(), r.table().len())
                && r.hash_keys() == (FIXED_KEY_0, FIXED_KEY_1, FIXED_KEY_2, FIXED_KEY_3),
    {
        if nodes.len() == 0 {
            return Err(RingError::InvalidConfig);
        }
        let from: usize = if capacity_hint < 2 {
            2
        } else {
            capacity_hint
        };
        let m = first_prime_from(from * 2, from).unwrap();
        let keys = fixed_keys();
        let (offsets, skips) = Ring::offsets_and_skips(keys, &nodes, m);
        let lookup = Ring::populate(&offsets, &skips, m);
        let r = Ring { nodes, lookup, keys };
        assert(offsets@ =~= r.node_offsets());
        assert(skips@ =~= r.node_skips());
        Ok(r)
    }

    /// Returns the number of nodes.
    pub fn nodes(&self) -> (r: usize)
        ensures
            r == self.node_list().len(),
    {
        self.nodes.len()
    }

    /// Returns the size of the lookup table.
    pub fn capacity(&self) -> (r: usize)
        ensures
            r == self.table().len(),
    {
        self.lookup.len()
    }

    /// Returns the node of the slot that `key` hashes to.
    pub fn get_node<U: Hashable + ?Sized>(&self, key: &U) -> (r: u32)
        requires
            self.wf(),
        ensures
            r == self.node_list()[self.table()[(self.first_hash(key.hash_bytes()) as int) % (
            self.table().len() as int)] as int],
            self.node_list().contains(r),
    {
        let bytes = key.to_hash_bytes();
        let h = sip24(self.keys.0, self.keys.1, bytes.as_slice());
        let index = (h % (self.lookup.len() as u64)) as usize;
        let r = self.nodes[self.lookup[index]];
        assert(self.nodes@[self.lookup@[index as int] as int] == r);
        r
    }

    /// Returns the nodes, in the order they were given.
    pub fn iter(&self) -> (r: Vec<u32>)
        ensures
            r@ == self.node_list(),
    {
        let mut r: Vec<u32> = Vec::new();
        let mut i: usize = 0;
        while i < self.nodes.len()
            invariant
                i <= self.nodes@.len(),
                r@ == self.nodes@.subrange(0, i as int),
            decreases self.nodes@.len() - i,
        {
            r.push(self.nodes[i]);
            i = i + 1;
            assert(r@ =~= self.nodes@.subrange(0, i as int));
        }
        assert(r@ =~= self.nodes@);
        r
    }

    /// The permutation offset and skip of each node in a table of `m` slots.
    fn offsets_and_skips(keys: (u64, u64, u64, u64), nodes: &Vec<u32>, m: usize) -> (r: (
        Vec<u64>,
        Vec<u64>,
    ))
        requires
            m >= 2,
        ensures
            r.0@.len() == nodes@.len(),
            r.1@.len() == nodes@.len(),
            forall|j: int|
                0 <= j < nodes@.len() ==> #[trigger] r.0@[j] == sip24_of(
                    keys.0,
                    keys.1,
                    nodes@[j].hash_bytes(),
                ) % (m as u64),
            forall|j: int|
                0 <= j < nodes@.len() ==> #[trigger] r.1@[j] == sip24_of(
                    keys.2,
                    keys.3,
                    nodes@[j].hash_bytes(),
                ) % ((m - 1) as u64) + 1,
            forall|j: int| 0 <= j < nodes@.len() ==> #[trigger] r.0@[j] < m,
            forall|j: int| 0 <= j < nodes@.len() ==> 1 <= #[trigger] r.1@[j] < m,
    {
        let n = nodes.len();
        let mut offsets: Vec<u64> = Vec::new();
        let mut skips: Vec<u64> = Vec::new();
        let mut j: usize = 0;
        while j < n
            invariant
                j <= n,
                n == nodes@.len(),
                m >= 2,
                offsets@.len() == j,
                skips@.len() == j,
                forall|q: int|
                    0 <= q < j ==> #[trigger] offsets@[q] == sip24_of(
                        keys.0,
                        keys.1,
                        nodes@[q].hash_bytes(),
                    ) % (m as u64),
                forall|q: int|
                    0 <= q < j ==> #[trigger] skips@[q] == sip24_of(
                        keys.2,
                        keys.3,
                        nodes@[q].hash_bytes(),
                    ) % ((m - 1) as u64) + 1,
                forall|q: int| 0 <= q < j ==> #[trigger] offsets@[q] < m,
                forall|q: int| 0 <= q < j ==> 1 <= #[trigger] skips@[q] < m,
            decreases n - j,
        {
            let bytes = nodes[j].to_hash_bytes();
            let h1 = sip24(keys.0, keys.1, bytes.as_slice());
            let h2 = sip24(keys.2, keys.3, bytes.as_slice());
            offsets.push(h1 % (m as u64));
            skips.push(h2 % ((m - 1) as u64) + 1);
            j = j + 1;
        }
        (offsets, skips)
    }

    /// Fills a table of `m` slots: the nodes take turns, each taking the next free slot of its
    /// permutation.
    fn populate(offsets: &Vec<u64>, skips: &Vec<u64>, m: usize) -> (entry: Vec<usize>)
        requires
            offsets@.len() > 0,
            skips@.len() == offsets@.len(),
            m >= 2,
            forall|j: int| 0 <= j < offsets@.len() ==> #[trigger] offsets@[j] < m,
            forall|j: int| 0 <= j < offsets@.len() ==> 1 <= #[trigger] skips@[j] < m,
        ensures
            entry@.len() == m,
            entry@ == maglev_table(offsets@, skips@, m as nat),
            forall|c: int| 0 <= c < m ==> #[trigger] entry@[c] < offsets@.len(),
    {
        let n = offsets.len();
        let mut next: Vec<usize> = Vec::new();
        let mut q: usize = 0;
        while q < n
            invariant
                q <= n,
                next@.len() == q,
                forall|x: int| 0 <= x < q ==> next@[x] == 0,
            decreases n - q,
        {
            next.push(0);
            q = q + 1;
        }
        let mut entry: Vec<usize> = Vec::new();
        let mut c: usize = 0;
        while c < m
            invariant
                c <= m,
                entry@.len() == c,
                forall|x: int| 0 <= x < c ==> entry@[x] == EMPTY,
            decreases m - c,
        {
            entry.push(EMPTY);
            c = c + 1;
        }
        proof {
            lemma_taken_empty(entry@);
            let start = fill(offsets@, skips@, m as nat, 0);
            assert(entry@ =~= start.0);
            assert(next@.map_values(|x: usize| x as nat) =~= start.1);
        }
        let mut filled: usize = 0;
        while filled < m
            invariant
                n == offsets@.len(),
                n > 0,
                skips@.len() == n,
                m >= 2,
                forall|x: int| 0 <= x < n ==> #[trigger] offsets@[x] < m,
                forall|x: int| 0 <= x < n ==> 1 <= #[trigger] skips@[x] < m,
                next@.len() == n,
                entry@.len() == m,
                filled <= m,
                filled < m ==> filled % n == 0,
                taken(entry@) == filled,
                forall|x: int| 0 <= x < m ==> #[trigger] entry@[x] == EMPTY || entry@[x] < n,
                forall|x: int| 0 <= x < n ==> #[trigger] next@[x] <= m,
                entry@ == fill(offsets@, skips@, m as nat, filled as nat).0,
                next@.map_values(|x: usize| x as nat) == fill(offsets@, skips@, m as nat, filled as nat).1,
            decreases m - filled,
        {
            let ghost start = filled;
            let mut j: usize = 0;
            while j < n && filled < m
                invariant
                    n == offsets@.len(),
                    n > 0,
                    skips@.len() == n,
                    m >= 2,
                    forall|x: int| 0 <= x < n ==> #[trigger] offsets@[x] < m,
                    forall|x: int| 0 <= x < n ==> 1 <= #[trigger] skips@[x] < m,
                    next@.len() == n,
                    entry@.len() == m,
                    start < m,
                    start % n == 0,
                    j <= n,
                    filled == start + j,
                    filled <= m,
                    taken(entry@) == filled,
                    forall|x: int| 0 <= x < m ==> #[trigger] entry@[x] == EMPTY || entry@[x] < n,
                    forall|x: int| 0 <= x < n ==> #[trigger] next@[x] <= m,
                    entry@ == fill(offsets@, skips@, m as nat, filled as nat).0,
                    next@.map_values(|x: usize| x as nat) == fill(
                        offsets@,
                        skips@,
                        m as nat,
                        filled as nat,
                    ).1,
                decreases n - j,
            {
                let ghost prev_entry = entry@;
                let ghost prev_next = next@.map_values(|x: usize| x as nat);
                proof {
                    vstd::arithmetic::div_mod::lemma_fundamental_div_mod(start as int, n as int);
                    vstd::arithmetic::div_mod::lemma_mod_multiples_vanish(
                        (start / n) as int,
                        j as int,
                        n as int,
                    );
                    vstd::arithmetic::div_mod::lemma_small_mod(j as nat, n as nat);
                    assert(filled as int % n as int == j);
                }
                let o = offsets[j];
                let sk = skips[j];
                let offset = o as u128;
                let skip = sk as u128;
                let mut t: usize = next[j];
                assert(prev_next[j as int] == t);
                let ghost t0 = t as nat;
                proof {
                    lemma_slot_fits(offset, skip, t as u128, m as u128);
                }
                let mut slot: usize = ((offset + (t as u128) * skip) % (m as u128)) as usize;
                while t < m && entry[slot] != EMPTY
                    invariant
                        entry@.len() == m,
                        entry@ == prev_entry,
                        m >= 2,
                        t <= m,
                        offset == o,
                        skip == sk,
                        o < m,
                        sk < m,
                        slot == slot_of(o, sk, m as nat, t as nat) || t >= m,
                        slot < m,
                        first_free(prev_entry, o, sk, m as nat, t0) == first_free(
                            prev_entry,
                            o,
                            sk,
                            m as nat,
                            t as nat,
                        ),
                    decreases m - t,
                {
                    t = t + 1;
                    proof {
                        lemma_slot_fits(offset, skip, t as u128, m as u128);
                    }
                    slot = ((offset + (t as u128) * skip) % (m as u128)) as usize;
                }
                let ghost tf = first_free(prev_entry, o, sk, m as nat, t0);
                assert(tf == t);
                if t >= m {
                    proof {
                        lemma_taken_bound(entry@);
                    }
                    let mut f: usize = 0;
                    while f < m && entry[f] != EMPTY
                        invariant
                            entry@.len() == m,
                            entry@ == prev_entry,
                            f <= m,
                            forall|x: int| 0 <= x < f ==> entry@[x] != EMPTY,
                            first_empty(prev_entry, 0) == first_empty(prev_entry, f as nat),
                        decreases m - f,
                    {
                        f = f + 1;
                    }
                    assert(f < m);
                    slot = f;
                }
                proof {
                    lemma_taken_update(entry@, slot as int, j);
                }
                entry.set(slot, j);
                next.set(j, t);
                proof {
                    let k = (filled + 1) as nat;
                    let st = fill(offsets@, skips@, m as nat, k);
                    assert(k - 1 == filled);
                    assert(entry@ == prev_entry.update(slot as int, j));
                    assert(next@.map_values(|x: usize| x as nat) =~= prev_next.update(j as int, t as nat));
                    assert(entry@ == st.0);
                    assert(next@.map_values(|x: usize| x as nat) == st.1);
                }
                filled = filled + 1;
                j = j + 1;
            }
            proof {
                if filled < m {
                    assert(j == n);
                    vstd::arithmetic::div_mod::lemma_fundamental_div_mod(start as int, n as int);
                    vstd::arithmetic::div_mod::lemma_mod_multiples_vanish(
                        (start / n + 1) as int,
                        0,
                        n as int,
                    );
                    assert(filled == n * (start / n + 1) + 0) by (nonlinear_arith)
                        requires
                            filled == start + n,
                            start == n * (start / n) + start % n,
                            start % n == 0,
                    ;
                }
            }
        }
        proof {
            lemma_taken_bound(entry@);
        }
        entry
    }
}

proof fn lemma_slot_fits(offset: u128, skip: u128, t: u128, m: u128)
    requires
        offset < m,
        skip < m,
        t <= m,
        m <= 0xffff_ffff_ffff_ffff,
    ensures
        offset + t * skip <= 0xffff_ffff_ffff_ffff_ffff_ffff_ffff_ffff,
{
    assert(t * skip <= 0xffff_ffff_ffff_ffff * 0xffff_ffff_ffff_ffff) by (nonlinear_arith)
        requires
            t <= 0xffff_ffff_ffff_ffff,
            skip <= 0xffff_ffff_ffff_ffff,
    ;
}

proof fn lemma_taken_empty(s: Seq<usize>)
    requires
        forall|x: int| 0 <= x < s.len() ==> s[x] == EMPTY,
    ensures
        taken(s) == 0,
    decreases s.len(),
{
    if s.len() > 0 {
        lemma_taken_empty(s.drop_last());
    }
}

/// A table size that is already prime is kept when a ring is rebuilt with it as the capacity
/// hint.
pub proof fn law_prime_capacity_is_kept(p: nat, q: nat)
    requires
        is_prime(p),
        is_next_prime(p, q),
    ensures
        q == p,
{
}

/// A number has one smallest prime at or above it.
pub proof fn law_next_prime_unique(n: nat, p: nat, q: nat)
    requires
        is_next_prime(n, p),
        is_next_prime(n, q),
    ensures
        p == q,
{
}

/// Two rings built from the same node list and capacity hint have the same table, so they send
/// every key to the same node.
pub proof fn law_rings_built_alike_agree(r1: Ring, r2: Ring, hint: nat)
    requires
        r1.node_list() == r2.node_list(),
        r1.hash_keys() == r2.hash_keys(),
        is_next_prime(hint, r1.table().len() as nat),
        is_next_prime(hint, r2.table().len() as nat),
        r1.table() == maglev_table(r1.node_offsets(), r1.node_skips(), r1.table().len()),
        r2.table() == maglev_table(r2.node_offsets(), r2.node_skips(), r2.table().len()),
    ensures
        r1.table() == r2.table(),
{
    law_next_prime_unique(hint, r1.table().len() as nat, r2.table().len() as nat);
    assert(r1.table().len() == r2.table().len());

}

} // verus!
