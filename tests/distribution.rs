use hash_rings::util::HashBuilder;
use hash_rings::{consistent, jump, maglev, mpc, rendezvous};

const NODES: u32 = 10;

fn assert_uniform(counts: &[u64], keys: u64) {
    for c in counts {
        let share = *c as f64 / keys as f64;
        assert!((share - 1.0 / NODES as f64).abs() <= 0.03, "share {} is off", share);
    }
}

#[test]
fn consistent_distribution_is_even() {
    let keys = 100_000u64;
    let mut ring = consistent::Ring::with_hasher(HashBuilder::default());
    for id in 0..NODES {
        ring.insert_node(id, 1611);
    }
    let mut counts = vec![0u64; NODES as usize];
    for k in 0..keys {
        counts[ring.get_node(&k).unwrap() as usize] += 1;
    }
    assert_uniform(&counts, keys);
}

#[test]
fn rendezvous_distribution_is_even() {
    let keys = 100_000u64;
    let mut ring = rendezvous::Ring::with_hasher(HashBuilder::default());
    for id in 0..NODES {
        ring.insert_node(id, 1);
    }
    let mut counts = vec![0u64; NODES as usize];
    for k in 0..keys {
        counts[ring.get_node(&k).unwrap() as usize] += 1;
    }
    assert_uniform(&counts, keys);
}

#[test]
fn jump_distribution_is_even() {
    let keys = 100_000u64;
    let ring = jump::Ring::new(NODES).unwrap();
    let mut counts = vec![0u64; NODES as usize];
    for k in 0..keys {
        counts[ring.get_node(&k) as usize] += 1;
    }
    assert_uniform(&counts, keys);
}

#[test]
fn maglev_distribution_is_even() {
    let keys = 100_000u64;
    let ring = maglev::Ring::new((0..NODES).collect()).unwrap();
    let mut counts = vec![0u64; NODES as usize];
    for k in 0..keys {
        counts[ring.get_node(&k) as usize] += 1;
    }
    assert_uniform(&counts, keys);
}

#[test]
fn mpc_distribution_is_even() {
    let keys = 50_000u64;
    let mut ring = mpc::Ring::new(21).unwrap();
    for id in 0..NODES {
        ring.insert_node(id);
    }
    let mut counts = vec![0u64; NODES as usize];
    for k in 0..keys {
        counts[ring.get_node(&k).unwrap() as usize] += 1;
    }
    assert_uniform(&counts, keys);
}
