use hash_rings::jump::Ring;
use hash_rings::util::HashBuilder;
use hash_rings::RingError;
use std::collections::hash_map::DefaultHasher;
use std::hash::{Hash, Hasher};

fn reference_jump(key: &str, nodes: u32) -> u32 {
    let mut hasher = DefaultHasher::new();
    key.hash(&mut hasher);
    let mut h = hasher.finish();
    let mut i: i64 = -1;
    let mut j: i64 = 0;
    while j < i64::from(nodes) {
        i = j;
        h = h.wrapping_mul(2_862_933_555_777_941_757).wrapping_add(1);
        j = (((i.wrapping_add(1)) as f64) * ((1i64 << 31) as f64) / (((h >> 33).wrapping_add(1)) as f64))
            as i64;
    }
    i as u32
}

#[test]
fn jump_test_get_node() {
    let ring = Ring::with_hasher(HashBuilder::default(), 100).unwrap();
    assert_eq!(ring.get_node("foo"), 8);
}

#[test]
fn jump_test_nodes() {
    let ring = Ring::with_hasher(HashBuilder::default(), 100).unwrap();
    assert_eq!(ring.nodes(), 100);
}

#[test]
fn jump_zero_nodes_is_rejected() {
    assert!(matches!(Ring::with_hasher(HashBuilder::default(), 0), Err(RingError::InvalidConfig)));
    assert!(matches!(Ring::new(0), Err(RingError::InvalidConfig)));
}

#[test]
fn jump_matches_floating_point_walk() {
    for nodes in [1u32, 2, 7, 100, 1000, 65_536, 4_000_000_000] {
        let ring = Ring::with_hasher(HashBuilder::default(), nodes).unwrap();
        for k in 0..300u32 {
            let key = format!("key-{}", k);
            assert_eq!(ring.get_node(key.as_str()), reference_jump(key.as_str(), nodes));
        }
    }
}

#[test]
fn jump_grow_moves_keys_only_to_new_node() {
    let small = Ring::new(10).unwrap();
    let large = Ring::new(11).unwrap();
    let mut moved = 0;
    for k in 0..5000u32 {
        let a = small.get_node(&k);
        let b = large.get_node(&k);
        assert!(a < 10 && b < 11);
        if a != b {
            assert_eq!(b, 10);
            moved += 1;
        }
    }
    assert!(moved > 0 && moved < 5000 / 5);
}
