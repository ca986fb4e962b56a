use hash_rings::maglev::Ring;
use hash_rings::RingError;

#[test]
fn maglev_test_get_node() {
    let ring = Ring::new(vec![0, 1, 2]).unwrap();
    assert_eq!(ring.get_node(&0), 0);
    assert_eq!(ring.get_node(&1), 1);

    let ring = Ring::with_capacity_hint(vec![0, 1], ring.capacity()).unwrap();
    assert_eq!(ring.get_node(&0), 0);
    assert_eq!(ring.get_node(&1), 1);
}

#[test]
fn maglev_test_nodes() {
    let ring = Ring::new(vec![0, 1, 2]).unwrap();
    assert_eq!(ring.nodes(), 3);
}

#[test]
fn test_capacity() {
    let ring = Ring::new(vec![0, 1, 2]).unwrap();
    assert_eq!(ring.capacity(), 307);

    let ring = Ring::with_capacity_hint(vec![0, 1], ring.capacity()).unwrap();
    assert_eq!(ring.capacity(), 307);
}

#[test]
fn maglev_test_iter() {
    let ring = Ring::new(vec![0, 1, 2]).unwrap();
    assert_eq!(ring.iter(), vec![0, 1, 2]);
}

#[test]
fn maglev_empty_is_rejected() {
    assert!(matches!(Ring::new(vec![]), Err(RingError::InvalidConfig)));
}

#[test]
fn maglev_small_hint_gives_two_slots() {
    let ring = Ring::with_capacity_hint(vec![4, 5], 0).unwrap();
    assert_eq!(ring.capacity(), 2);
    let a = ring.get_node(&10u32);
    assert!(a == 4 || a == 5);
}

#[test]
fn maglev_balanced_table() {
    let ring = Ring::new((0..10).collect()).unwrap();
    assert_eq!(ring.capacity(), 1009);
    let mut counts = [0usize; 10];
    for p in 0..20000u32 {
        counts[ring.get_node(&p) as usize] += 1;
    }
    for c in counts.iter() {
        assert!(*c > 1500 && *c < 2500);
    }
}

#[test]
fn maglev_rebuild_with_same_capacity_moves_few_keys() {
    let ring = Ring::new((0..10).collect()).unwrap();
    let rebuilt = Ring::with_capacity_hint((0..9).collect(), ring.capacity()).unwrap();
    assert_eq!(rebuilt.capacity(), ring.capacity());
    let keys = 20_000u32;
    let mut others_moved = 0u32;
    for k in 0..keys {
        let before = ring.get_node(&k);
        let after = rebuilt.get_node(&k);
        assert!(after < 9);
        if before != 9 && before != after {
            others_moved += 1;
        }
    }
    assert!(others_moved < keys / 20);
}

#[test]
fn maglev_rings_built_alike_agree() {
    let a = Ring::new(vec![3, 1, 4, 15]).unwrap();
    let b = Ring::new(vec![3, 1, 4, 15]).unwrap();
    assert_eq!(a.capacity(), b.capacity());
    for k in 0..2000u32 {
        assert_eq!(a.get_node(&k), b.get_node(&k));
    }
}
