//! Jump hashing: a point walks a pseudorandom sequence of increasing node numbers and stops at
//! the last one below the node count.

use crate::util::{gen_hash, hash_spec};
use crate::util::{HashBuilder, Hashable};
use crate::RingError;
use vstd::prelude::*;

verus! {

/// The multiplier of the walk's linear congruential generator.
pub const MULTIPLIER: u64 = 2_862_933_555_777_941_757;

/// Two to the power `k`.
pub open spec fn pow2(k: nat) -> nat
    decreases k,
{
    if k == 0 {
        1
    } else {
        2 * pow2((k - 1) as nat)
    }
}

/// The largest `e` with `2^e <= q`.
pub open spec fn ilog2(q: nat) -> nat
    decreases q,
{
    if q < 2 {
        0
    } else {
        1 + ilog2(q / 2)
    }
}

/// `num / den` rounded to the nearest integer, ties to even.
pub open spec fn round_half_even(num: nat, den: nat) -> nat
    recommends
        den > 0,
{
    let q = num / den;
    let r = num % den;
    if 2 * r > den {
        q + 1
    } else if 2 * r < den {
        q
    } else {
        q + q % 2
    }
}

/// The integer part of the double-precision quotient of `a` by `d`: the exact quotient rounded
/// to 53 significant bits, ties to even, then truncated.
pub open spec fn double_quotient_floor(a: nat, d: nat) -> nat
    recommends
        d > 0,
        a >= d,
{
    let e = ilog2(a / d);
    if e <= 52 {
        let s = pow2((52 - e) as nat);
        round_half_even(a * s, d) / s
    } else {
        let s = pow2((e - 52) as nat);
        round_half_even(a, d * s) * s
    }
}

/// One step of the generator.
pub open spec fn lcg(h: u64) -> u64 {
    ((h * MULTIPLIER + 1) % 0x1_0000_0000_0000_0000) as u64
}

/// The node number after `i` on a walk whose generator is at `h`.
pub open spec fn jump_step(i: nat, h: u64) -> nat {
    double_quotient_floor((i + 1) * 0x8000_0000, (h as nat / 0x2_0000_0000) + 1)
}

/// The node a walk stops at, from node number `j` with generator state `h`, among `n` nodes.
pub open spec fn jump_walk(h: u64, j: nat, n: nat) -> nat
    decreases n - j,
{
    let h2 = lcg(h);
    let j2 = jump_step(j, h2);
    if j2 >= n || j2 <= j {
        j
    } else {
        jump_walk(h2, j2, n)
    }
}

proof fn lemma_pow2_pos(k: nat)
    ensures
        pow2(k) >= 1,
    decreases k,
{
    if k > 0 {
        lemma_pow2_pos((k - 1) as nat);
    }
}

proof fn lemma_ilog2_bounds(q: nat)
    requires
        q >= 1,
    ensures
        pow2(ilog2(q)) <= q < 2 * pow2(ilog2(q)),
    decreases q,
{
    if q >= 2 {
        lemma_ilog2_bounds(q / 2);
    }
}

proof fn lemma_pow2_mono(a: nat, b: nat)
    requires
        a <= b,
    ensures
        pow2(a) <= pow2(b),
    decreases b,
{
    if b > a {
        lemma_pow2_mono(a, (b - 1) as nat);
        lemma_pow2_pos((b - 1) as nat);
    }
}

proof fn lemma_pow2_60()
    ensures
        pow2(60) == 0x1000_0000_0000_0000,
{
    reveal_with_fuel(pow2, 61);
}

/// `2^k`, computed.
fn pow2_exec(k: u32) -> (r: u128)
    requires
        k <= 60,
    ensures
        r == pow2(k as nat),
{
    let mut r: u128 = 1;
    let mut i: u32 = 0;
    while i < k
        invariant
            i <= k <= 60,
            r == pow2(i as nat),
        decreases k - i,
    {
        proof {
            lemma_pow2_mono(i as nat, 60);
            lemma_pow2_60();
        }
        r = r * 2;
        i = i + 1;
    }
    r
}

/// `num / den` rounded to the nearest integer, ties to even.
fn round_half_even_exec(num: u128, den: u128) -> (r: u128)
    requires
        den > 0,
        num / den < 0xffff_ffff_ffff_ffff_ffff_ffff_ffff_ffff,
        den < 0x8000_0000_0000_0000_0000_0000_0000_0000,
    ensures
        r == round_half_even(num as nat, den as nat),
        r <= num / den + 1,
        r >= num / den,
{
    let q = num / den;
    let r = num % den;
    if 2 * r > den {
        q + 1
    } else if 2 * r < den {
        q
    } else {
        q + q % 2
    }
}

/// The largest `e` with `2^e <= q`, computed.
fn ilog2_exec(q: u64) -> (e: u32)
    requires
        q >= 1,
    ensures
        e == ilog2(q as nat),
        e <= 63,
{
    proof {
        lemma_ilog2_bounds(q as nat);
        if ilog2(q as nat) >= 64 {
            lemma_pow2_mono(64, ilog2(q as nat));
            assert(pow2(64) == 0x1_0000_0000_0000_0000) by {
                reveal_with_fuel(pow2, 65);
            }
        }
    }
    let mut e: u32 = 0;
    let mut x: u64 = q;
    while x >= 2
        invariant
            x >= 1,
            e + ilog2(x as nat) == ilog2(q as nat),
            ilog2(q as nat) <= 63,
        decreases x,
    {
        proof {
            lemma_ilog2_bounds(x as nat);
        }
        x = x / 2;
        e = e + 1;
    }
    e
}

proof fn lemma_low_branch(a: nat, d: nat, s: nat, m: nat)
    requires
        d >= 1,
        s >= 1,
        (a * s) / d <= m <= (a * s) / d + 1,
    ensures
        a / d <= m / s <= a / d + 1,
{
    let q = (a / d) as int;
    let r = (a % d) as int;
    vstd::arithmetic::div_mod::lemma_fundamental_div_mod(a as int, d as int);
    let t = ((a * s) / d) as int;
    vstd::arithmetic::div_mod::lemma_fundamental_div_mod((a * s) as int, d as int);
    let u = ((a * s) % d) as int;
    assert(q * s <= t < q * s + s) by (nonlinear_arith)
        requires
            a == d * q + r,
            0 <= r < d,
            a * s == d * t + u,
            0 <= u < d,
            s >= 1,
            d >= 1,
    ;
    let w = (m / s) as int;
    vstd::arithmetic::div_mod::lemma_fundamental_div_mod(m as int, s as int);
    assert(q <= w <= q + 1) by (nonlinear_arith)
        requires
            q * s <= m <= q * s + s,
            m == s * w + (m as int) % (s as int),
            0 <= (m as int) % (s as int) < s,
            s >= 1,
    ;
}

proof fn lemma_high_branch(a: nat, d: nat, s: nat, m: nat)
    requires
        d >= 1,
        s >= 1,
        a / (d * s) <= m <= a / (d * s) + 1,
    ensures
        m * s + s > a / d,
        m * s <= a / d + s,
{
    let q = (a / d) as int;
    vstd::arithmetic::div_mod::lemma_div_denominator(a as int, d as int, s as int);
    let t = (q / (s as int)) as int;
    vstd::arithmetic::div_mod::lemma_fundamental_div_mod(q, s as int);
    assert(a / (d * s) == t);
    assert(m * s + s > q && m * s <= q + s) by (nonlinear_arith)
        requires
            t <= m <= t + 1,
            q == s * t + q % (s as int),
            0 <= q % (s as int) < s,
            s >= 1,
    ;
}

proof fn lemma_pow2_values()
    ensures
        pow2(10) == 0x400,
        pow2(52) == 0x10_0000_0000_0000,
        pow2(53) == 0x20_0000_0000_0000,
        pow2(63) == 0x8000_0000_0000_0000,
{
    reveal_with_fuel(pow2, 64);
}

/// The integer part of the double-precision quotient of `a` by `d`, computed exactly.
fn double_quotient_floor_exec(a: u64, d: u64) -> (r: u64)
    requires
        1 <= d <= a,
        a < 0x8000_0000_0000_0000,
    ensures
        r == double_quotient_floor(a as nat, d as nat),
        a / d < pow2(53) ==> r >= a / d,
        r + 1024 >= a / d,
{
    let q = a / d;
    proof {
        vstd::arithmetic::div_mod::lemma_div_is_ordered(d as int, a as int, d as int);
        vstd::arithmetic::div_mod::lemma_div_basics(d as int);
    }
    let e = ilog2_exec(q);
    proof {
        lemma_pow2_values();
        lemma_ilog2_bounds(q as nat);
        if e >= 63 {
            lemma_pow2_mono(63, e as nat);
        }
        if e <= 52 {
            lemma_pow2_mono(e as nat, 52);
        } else {
            lemma_pow2_mono(53, e as nat);
        }
    }
    if e <= 52 {
        let s = pow2_exec(52 - e);
        proof {
            lemma_pow2_mono((52 - e) as nat, 52);
            lemma_pow2_pos((52 - e) as nat);
            assert((a as u128) * s <= 0x8000_0000_0000_0000 * 0x10_0000_0000_0000) by (nonlinear_arith)
                requires
                    a < 0x8000_0000_0000_0000,
                    s <= 0x10_0000_0000_0000,
            ;
        }
        let num = (a as u128) * s;
        let m = round_half_even_exec(num, d as u128);
        proof {
            lemma_low_branch(a as nat, d as nat, s as nat, m as nat);
        }
        (m / s) as u64
    } else {
        let s = pow2_exec(e - 52);
        proof {
            lemma_pow2_mono((e - 52) as nat, 10);
            lemma_pow2_pos((e - 52) as nat);
            assert(1 <= (d as u128) * s <= 0x8000_0000_0000_0000 * 0x400) by (nonlinear_arith)
                requires
                    1 <= d < 0x8000_0000_0000_0000,
                    1 <= s <= 0x400,
            ;
        }
        let m = round_half_even_exec(a as u128, (d as u128) * s);
        proof {
            lemma_high_branch(a as nat, d as nat, s as nat, m as nat);
        }
        (m * s) as u64
    }
}

/// One step of the generator, computed.
fn lcg_exec(h: u64) -> (r: u64)
    ensures
        r == lcg(h),
{
    assert((h as u128) * (MULTIPLIER as u128) < 0xffff_ffff_ffff_ffff * 0xffff_ffff_ffff_ffff) by (nonlinear_arith)
        requires
            h <= 0xffff_ffff_ffff_ffff,
            MULTIPLIER < 0xffff_ffff_ffff_ffff,
    ;
    (((h as u128) * (MULTIPLIER as u128) + 1) % 0x1_0000_0000_0000_0000) as u64
}

/// The node number after `i` on a walk whose generator is at `h`, computed; it always lies
/// beyond `i`.
fn jump_step_exec(i: u64, h: u64) -> (r: u64)
    requires
        i < 0xffff_ffff,
    ensures
        r == jump_step(i as nat, h),
        r > i,
{
    let a = (i + 1) * 0x8000_0000;
    let d = h / 0x2_0000_0000 + 1;
    assert(d <= 0x8000_0000);
    let r = double_quotient_floor_exec(a, d);
    proof {
        lemma_pow2_values();
        assert(a / d >= i + 1) by (nonlinear_arith)
            requires
                a == (i + 1) * 0x8000_0000,
                1 <= d <= 0x8000_0000,
        ;
    }
    r
}

/// A hash-ring over the node numbers `0..n`, built with jump hashing.
pub struct Ring {
    nodes: u32,
    hash_builder: HashBuilder,
}

impl Ring {
    /// The number of nodes.
    pub closed spec fn node_count(&self) -> u32 {
        self.nodes
    }

    pub closed spec fn hasher(&self) -> HashBuilder {
        self.hash_builder
    }

    pub closed spec fn wf(&self) -> bool {
        self.nodes >= 1
    }

    /// Constructs a ring of `nodes` nodes that hashes with the default keys.
    pub fn new(nodes: u32) -> (res: Result<Ring, RingError>)
        ensures
            nodes == 0 <==> res is Err,
            res is Err ==> res == Err::<Ring, RingError>(RingError::InvalidConfig),
            res matches Ok(r) ==> r.wf() && r.node_count() == nodes && r.hasher() == (HashBuilder {
                k0: 0,
                k1: 0,
            }),
    {
        Ring::with_hasher(HashBuilder::default(), nodes)
    }

    /// Constructs a ring of `nodes` nodes that hashes with `hash_builder`.
    pub fn with_hasher(hash_builder: HashBuilder, nodes: u32) -> (res: Result<Ring, RingError>)
        ensures
            nodes == 0 <==> res is Err,
            res is Err ==> res == Err::<Ring, RingError>(RingError::InvalidConfig),
            res matches Ok(r) ==> r.wf() && r.node_count() == nodes && r.hasher() == hash_builder,
    {
        if nodes == 0 {
            return Err(RingError::InvalidConfig);
        }
        Ok(Ring { nodes, hash_builder })
    }

    /// Returns the node number that `key` goes to.
    pub fn get_node<T: Hashable + ?Sized>(&self, key: &T) -> (r: u32)
        requires
            self.wf(),
        ensures
            r == jump_walk(
                hash_spec(self.hasher(), key.hash_bytes()),
                0,
                self.node_count() as nat,
            ),
            r < self.node_count(),
    {
        let n = self.nodes as u64;
        let h0 = gen_hash(&self.hash_builder, key);
        let mut h = h0;
        let mut i: u64 = 0;
        loop
            invariant
                n == self.nodes,
                h0 == hash_spec(self.hash_builder, key.hash_bytes()),
                i < n,
                jump_walk(h0, 0, n as nat) == jump_walk(h, i as nat, n as nat),
            decreases n - i,
        {
            let h2 = lcg_exec(h);
            let j = jump_step_exec(i, h2);
            if j >= n {
                assert(jump_walk(h, i as nat, n as nat) == i);
                return i as u32;
            }
            assert(jump_walk(h, i as nat, n as nat) == jump_walk(h2, j as nat, n as nat));
            h = h2;
            i = j;
        }
    }

    /// Returns the number of nodes.
    pub fn nodes(&self) -> (r: u32)
        ensures
            r == self.node_count(),
    {
        self.nodes
    }
}

/// Growing the ring by one node moves a key only onto the new node.
pub proof fn law_grow_moves_keys_only_to_new_node(h: u64, j: nat, n: nat)
    requires
        j < n,
    ensures
        jump_walk(h, j, n + 1) == jump_walk(h, j, n) || jump_walk(h, j, n + 1) == n,
    decreases n - j,
{
    let h2 = lcg(h);
    let j2 = jump_step(j, h2);
    if j2 < n && j2 > j {
        law_grow_moves_keys_only_to_new_node(h2, j2, n);
    } else if j2 == n && j2 > j {
        assert(jump_walk(h2, n, n + 1) == n);
    }
}

} // verus!
