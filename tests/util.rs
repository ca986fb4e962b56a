use hash_rings::util::{combine_hash, gen_hash, AddHasher, HashBuilder};
use hash_rings::util::{FIXED_KEY_0, FIXED_KEY_1, FIXED_KEY_2, FIXED_KEY_3};
use rand::{Rng, XorShiftRng};
use std::collections::hash_map::DefaultHasher;
use std::hash::{Hash, Hasher};

fn std_hash<T: Hash + ?Sized>(value: &T) -> u64 {
    let mut hasher = DefaultHasher::new();
    value.hash(&mut hasher);
    hasher.finish()
}

#[test]
fn gen_hash_matches_default_hasher() {
    let builder = HashBuilder::default();
    assert_eq!(gen_hash(&builder, &5u32), std_hash(&5u32));
    assert_eq!(gen_hash(&builder, &7usize), std_hash(&7usize));
    assert_eq!(gen_hash(&builder, &u64::MAX), std_hash(&u64::MAX));
    assert_eq!(gen_hash(&builder, "foo"), std_hash("foo"));
    assert_ne!(gen_hash(&builder, &5u32), 5);
}

#[test]
fn combine_hash_matches_default_hasher() {
    let builder = HashBuilder::default();
    let mut hasher = DefaultHasher::new();
    11u64.hash(&mut hasher);
    13u64.hash(&mut hasher);
    assert_eq!(combine_hash(&builder, 11, 13), hasher.finish());
    assert_ne!(combine_hash(&builder, 11, 13), combine_hash(&builder, 13, 11));
}

#[test]
fn keys_change_the_hash() {
    let a = HashBuilder::with_keys(1, 2);
    let b = HashBuilder::default();
    assert_ne!(gen_hash(&a, &9u32), gen_hash(&b, &9u32));
    assert_eq!(gen_hash(&a, &9u32), gen_hash(&a, &9u32));
}

#[test]
fn add_hasher_sums_bytes() {
    let mut hasher = AddHasher::default();
    assert_eq!(hasher.finish(), 0);
    hasher.write(&[1, 2, 3]);
    hasher.write(&[250]);
    assert_eq!(hasher.finish(), 256);
    let mut other = AddHasher::new();
    other.write(&[128, 128]);
    assert_eq!(other.finish(), hasher.finish());
}

#[test]
fn fixed_keys_are_the_unseeded_stream() {
    let mut rng = XorShiftRng::new_unseeded();
    assert_eq!(rng.next_u64(), FIXED_KEY_0);
    assert_eq!(rng.next_u64(), FIXED_KEY_1);
    assert_eq!(rng.next_u64(), FIXED_KEY_2);
    assert_eq!(rng.next_u64(), FIXED_KEY_3);
}
