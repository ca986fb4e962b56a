use hash_rings::mpc::Ring;
use rand::{Rng, XorShiftRng};
use siphasher::sip::SipHasher;
use std::collections::hash_map::DefaultHasher;
use std::hash::{Hash, Hasher};
use hash_rings::RingError;

#[test]
fn mpc_test_get_node() {
    let mut ring = Ring::new(2).unwrap();

    ring.insert_node(0);
    assert_eq!(ring.get_node(&2), Ok(0));

    ring.insert_node(1);
    assert_eq!(ring.get_node(&2), Ok(1));

    ring.remove_node(1).unwrap();
    assert_eq!(ring.get_node(&2), Ok(0));
}

#[test]
fn test_len() {
    let mut ring = Ring::new(2).unwrap();
    ring.insert_node(0);

    assert_eq!(ring.len(), 1);
}

#[test]
fn test_is_empty() {
    let mut ring = Ring::new(2).unwrap();
    assert!(ring.is_empty());

    ring.insert_node(0);
    assert!(!ring.is_empty());
}

#[test]
fn mpc_test_iter() {
    let mut ring = Ring::new(2).unwrap();
    ring.insert_node(0);

    assert_eq!(ring.iter(), vec![0]);
}

#[test]
fn mpc_errors() {
    assert!(matches!(Ring::new(0), Err(RingError::InvalidConfig)));
    let mut ring = Ring::new(3).unwrap();
    assert_eq!(ring.get_node(&5u32), Err(RingError::EmptyRing));
    assert_eq!(ring.remove_node(5), Err(RingError::UnknownNode));
}

#[test]
fn mpc_remove_then_insert_restores() {
    let mut ring = Ring::new(21).unwrap();
    for id in 0..8u32 {
        ring.insert_node(id);
    }
    let before: Vec<u32> = (0..300u32).map(|p| ring.get_node(&p).unwrap()).collect();
    ring.remove_node(5).unwrap();
    for p in 0..300u32 {
        assert_ne!(ring.get_node(&p), Ok(5));
    }
    ring.insert_node(5);
    let after: Vec<u32> = (0..300u32).map(|p| ring.get_node(&p).unwrap()).collect();
    assert_eq!(before, after);
}

fn reference_mpc(nodes: &[u32], probes: u64, point: u32) -> u32 {
    let mut rng = XorShiftRng::new_unseeded();
    let keys = [rng.next_u64(), rng.next_u64(), rng.next_u64(), rng.next_u64()];
    let mut first = SipHasher::new_with_keys(keys[0], keys[1]);
    point.hash(&mut first);
    let mut second = SipHasher::new_with_keys(keys[2], keys[3]);
    point.hash(&mut second);
    let (h0, h1) = (first.finish(), second.finish());
    let mut wheel: Vec<(u64, u32)> = nodes
        .iter()
        .map(|id| {
            let mut hasher = DefaultHasher::new();
            id.hash(&mut hasher);
            (hasher.finish(), *id)
        })
        .collect();
    wheel.sort();
    (0..probes)
        .map(|i| {
            let probe = h0.wrapping_add(i.wrapping_mul(h1) % 0xFFFF_FFFF_FFFF_FFC5);
            let next = wheel.iter().find(|e| e.0 >= probe).unwrap_or(&wheel[0]);
            (next.0.wrapping_sub(probe), next.0, next.1)
        })
        .min()
        .unwrap()
        .2
}

#[test]
fn mpc_matches_independent_computation() {
    let nodes: Vec<u32> = (10..16).collect();
    let mut ring = Ring::new(3).unwrap();
    for id in &nodes {
        ring.insert_node(*id);
    }
    for p in 0..300u32 {
        assert_eq!(ring.get_node(&p), Ok(reference_mpc(&nodes, 3, p)));
    }
}
