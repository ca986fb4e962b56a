//! Keyed hashing of byte strings, the primitive every ring is built on.

use rand::Rng;
use std::hash::Hasher;
use vstd::prelude::*;
use vstd::string::StringSliceAdditionalSpecFns;

verus! {

/// The digest of SipHash-1-3 keyed with `(k0, k1)` over `data`.
pub uninterp spec fn sip13_of(k0: u64, k1: u64, data: Seq<u8>) -> u64;

/// The digest of SipHash-2-4 keyed with `(k0, k1)` over `data`.
pub uninterp spec fn sip24_of(k0: u64, k1: u64, data: Seq<u8>) -> u64;

/// Relies on siphasher's `SipHasher13` (`new_with_keys`, `write`, `finish`): the digest is a
/// function of the keys and of the bytes written.
#[verifier::external_body]
fn sip13(k0: u64, k1: u64, data: &[u8]) -> (r: u64)
    ensures
        r == sip13_of(k0, k1, data@),
{
    let mut hasher = siphasher::sip::SipHasher13::new_with_keys(k0, k1);
    hasher.write(data);
    hasher.finish()
}

/// Relies on siphasher's `SipHasher` (SipHash-2-4; `new_with_keys`, `write`, `finish`): the
/// digest is a function of the keys and of the bytes written.
#[verifier::external_body]
pub(crate) fn sip24(k0: u64, k1: u64, data: &[u8]) -> (r: u64)
    ensures
        r == sip24_of(k0, k1, data@),
{
    let mut hasher = siphasher::sip::SipHasher::new_with_keys(k0, k1);
    hasher.write(data);
    hasher.finish()
}

/// The first four 64-bit draws of rand's unseeded xorshift generator.
pub const FIXED_KEY_0: u64 = 0xdbf1_620f_4d63_e184;
pub const FIXED_KEY_1: u64 = 0xc21f_3d0b_0ed5_5c8c;
pub const FIXED_KEY_2: u64 = 0x5e64_a643_0c59_03ca;
pub const FIXED_KEY_3: u64 = 0x3795_902f_9300_9b6d;

/// Relies on rand's `XorShiftRng::new_unseeded` and `Rng::next_u64`: the generator starts from
/// fixed constants, so every unseeded generator yields the same stream, whose first four 64-bit
/// draws (each the high then the low 32-bit draw) are the four constants above. They key two
/// SipHash-2-4 hashers.
#[verifier::external_body]
pub(crate) fn fixed_keys() -> (r: (u64, u64, u64, u64))
    ensures
        r == (FIXED_KEY_0, FIXED_KEY_1, FIXED_KEY_2, FIXED_KEY_3),
{
    let mut rng = rand::XorShiftRng::new_unseeded();
    let a = rng.next_u64();
    let b = rng.next_u64();
    let c = rng.next_u64();
    let d = rng.next_u64();
    (a, b, c, d)
}

/// The little-endian bytes of a 32-bit integer.
pub open spec fn u32_bytes(x: u32) -> Seq<u8> {
    seq![x as u8, (x >> 8u32) as u8, (x >> 16u32) as u8, (x >> 24u32) as u8]
}

/// The little-endian bytes of a 64-bit integer.
pub open spec fn u64_bytes(x: u64) -> Seq<u8> {
    seq![
        x as u8,
        (x >> 8u64) as u8,
        (x >> 16u64) as u8,
        (x >> 24u64) as u8,
        (x >> 32u64) as u8,
        (x >> 40u64) as u8,
        (x >> 48u64) as u8,
        (x >> 56u64) as u8,
    ]
}

/// A value that is hashed through the bytes it stands for.
///
/// Integers stand for their little-endian bytes; a string for its UTF-8 bytes followed by
/// `0xff`, so that no string is a prefix of another.
pub trait Hashable {
    spec fn hash_bytes(&self) -> Seq<u8>;

    fn to_hash_bytes(&self) -> (r: Vec<u8>)
        ensures
            r@ == self.hash_bytes(),
    ;
}

fn bytes_of_u32(x: u32) -> (r: Vec<u8>)
    ensures
        r@ == u32_bytes(x),
{
    let r = vec![x as u8, (x >> 8u32) as u8, (x >> 16u32) as u8, (x >> 24u32) as u8];
    assert(r@ =~= u32_bytes(x));
    r
}

fn bytes_of_u64(x: u64) -> (r: Vec<u8>)
    ensures
        r@ == u64_bytes(x),
{
    let r = vec![
        x as u8,
        (x >> 8u64) as u8,
        (x >> 16u64) as u8,
        (x >> 24u64) as u8,
        (x >> 32u64) as u8,
        (x >> 40u64) as u8,
        (x >> 48u64) as u8,
        (x >> 56u64) as u8,
    ];
    assert(r@ =~= u64_bytes(x));
    r
}

impl Hashable for u32 {
    open spec fn hash_bytes(&self) -> Seq<u8> {
        u32_bytes(*self)
    }

    fn to_hash_bytes(&self) -> (r: Vec<u8>) {
        bytes_of_u32(*self)
    }
}

impl Hashable for i32 {
    open spec fn hash_bytes(&self) -> Seq<u8> {
        u32_bytes(*self as u32)
    }

    fn to_hash_bytes(&self) -> (r: Vec<u8>) {
        bytes_of_u32(*self as u32)
    }
}

impl Hashable for u64 {
    open spec fn hash_bytes(&self) -> Seq<u8> {
        u64_bytes(*self)
    }

    fn to_hash_bytes(&self) -> (r: Vec<u8>) {
        bytes_of_u64(*self)
    }
}

impl Hashable for usize {
    open spec fn hash_bytes(&self) -> Seq<u8> {
        u64_bytes(*self as u64)
    }

    fn to_hash_bytes(&self) -> (r: Vec<u8>) {
        bytes_of_u64(*self as u64)
    }
}

impl Hashable for str {
    open spec fn hash_bytes(&self) -> Seq<u8> {
        self.spec_bytes().push(0xffu8)
    }

    fn to_hash_bytes(&self) -> (r: Vec<u8>) {
        let bytes = self.as_bytes();
        let mut r: Vec<u8> = Vec::new();
        let mut i: usize = 0;
        while i < bytes.len()
            invariant
                i <= bytes@.len(),
                bytes@ == self.spec_bytes(),
                r@ == bytes@.subrange(0, i as int),
            decreases bytes@.len() - i,
        {
            r.push(bytes[i]);
            i = i + 1;
            assert(r@ =~= bytes@.subrange(0, i as int));
        }
        r.push(0xffu8);
        assert(r@ =~= self.spec_bytes().push(0xffu8));
        r
    }
}

impl<'a, T: Hashable + ?Sized> Hashable for &'a T {
    open spec fn hash_bytes(&self) -> Seq<u8> {
        (**self).hash_bytes()
    }

    fn to_hash_bytes(&self) -> (r: Vec<u8>) {
        (**self).to_hash_bytes()
    }
}

/// The keys of the SipHash-1-3 hasher that a ring hashes with.
///
/// The default keys `(0, 0)` give the same digests as std's `DefaultHasher`.
#[derive(Clone, Copy, Debug, PartialEq, Eq, Structural)]
pub struct HashBuilder {
    pub k0: u64,
    pub k1: u64,
}

impl HashBuilder {
    pub fn with_keys(k0: u64, k1: u64) -> (r: HashBuilder)
        ensures
            r.k0 == k0,
            r.k1 == k1,
    {
        HashBuilder { k0, k1 }
    }
}

impl Default for HashBuilder {
    fn default() -> (r: HashBuilder)
        ensures
            r.k0 == 0,
            r.k1 == 0,
    {
        HashBuilder { k0: 0, k1: 0 }
    }
}

/// The hash of a value of the given bytes.
pub open spec fn hash_spec(b: HashBuilder, bytes: Seq<u8>) -> u64 {
    sip13_of(b.k0, b.k1, bytes)
}

/// Two 64-bit integers mixed into a third: the hash of their bytes, one after the other.
pub open spec fn combine_spec(b: HashBuilder, x: u64, y: u64) -> u64 {
    sip13_of(b.k0, b.k1, u64_bytes(x) + u64_bytes(y))
}

/// Hashes a value with the builder's keys.
pub fn gen_hash<T: Hashable + ?Sized>(hash_builder: &HashBuilder, value: &T) -> (r: u64)
    ensures
        r == hash_spec(*hash_builder, value.hash_bytes()),
{
    let bytes = value.to_hash_bytes();
    sip13(hash_builder.k0, hash_builder.k1, bytes.as_slice())
}

/// Mixes two 64-bit integers into a third with the builder's keys.
pub fn combine_hash(hash_builder: &HashBuilder, x: u64, y: u64) -> (r: u64)
    ensures
        r == combine_spec(*hash_builder, x, y),
{
    let mut bytes = bytes_of_u64(x);
    let mut tail = bytes_of_u64(y);
    bytes.append(&mut tail);
    sip13(hash_builder.k0, hash_builder.k1, bytes.as_slice())
}

/// The sum of the bytes of `s`.
pub open spec fn byte_sum(s: Seq<u8>) -> nat
    decreases s.len(),
{
    if s.len() == 0 {
        0
    } else {
        byte_sum(s.drop_last()) + s.last() as nat
    }
}

/// A hasher whose digest is the sum of the bytes written to it: a weak hash under which
/// collisions are easy to make.
pub struct AddHasher {
    sum: u64,
}

impl AddHasher {
    /// The sum of the bytes written so far.
    pub closed spec fn total(&self) -> u64 {
        self.sum
    }

    /// Constructs a hasher to which nothing has been written.
    pub fn new() -> (r: AddHasher)
        ensures
            r.total() == 0,
    {
        AddHasher { sum: 0 }
    }

    /// Adds the bytes to the sum.
    pub fn write(&mut self, bytes: &[u8])
        requires
            old(self).total() + byte_sum(bytes@) <= u64::MAX,
        ensures
            final(self).total() == old(self).total() + byte_sum(bytes@),
    {
        let ghost start = self.sum;
        let mut i: usize = 0;
        while i < bytes.len()
            invariant
                i <= bytes@.len(),
                start + byte_sum(bytes@) <= u64::MAX,
                self.sum == start + byte_sum(bytes@.subrange(0, i as int)),
            decreases bytes@.len() - i,
        {
            proof {
                assert(bytes@.subrange(0, i + 1).drop_last() =~= bytes@.subrange(0, i as int));
                lemma_byte_sum_prefix(bytes@, i + 1);
            }
            self.sum = self.sum + bytes[i] as u64;
            i = i + 1;
        }
        assert(bytes@.subrange(0, i as int) =~= bytes@);
    }

    /// Returns the sum.
    pub fn finish(&self) -> (r: u64)
        ensures
            r == self.total(),
    {
        self.sum
    }
}

impl Default for AddHasher {
    fn default() -> (r: AddHasher)
        ensures
            r.total() == 0,
    {
        AddHasher::new()
    }
}

/// A prefix of a sequence sums to no more than the whole.
proof fn lemma_byte_sum_prefix(s: Seq<u8>, k: int)
    requires
        0 <= k <= s.len(),
    ensures
        byte_sum(s.subrange(0, k)) <= byte_sum(s),
    decreases s.len() - k,
{
    if k < s.len() {
        lemma_byte_sum_prefix(s, k + 1);
        assert(s.subrange(0, k + 1).drop_last() =~= s.subrange(0, k));
        assert(byte_sum(s.subrange(0, k + 1)) == byte_sum(s.subrange(0, k)) + s.subrange(0, k + 1).last() as nat);
    } else {
        assert(s.subrange(0, k) =~= s);
    }
}

} // verus!
