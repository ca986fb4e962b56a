use hash_rings::rendezvous::{Client, Ring};
use hash_rings::util::{combine_hash, gen_hash, HashBuilder};
use hash_rings::RingError;

fn score(builder: &HashBuilder, id: u32, replicas: usize, point: u32) -> u64 {
    let point_hash = gen_hash(builder, &point);
    (0..replicas)
        .map(|r| {
            let replica_hash = combine_hash(builder, gen_hash(builder, &id), gen_hash(builder, &r));
            combine_hash(builder, replica_hash, point_hash)
        })
        .max()
        .unwrap()
}

#[test]
fn rendezvous_test_size_empty() {
    let client = Client::default();
    assert!(client.is_empty());
    assert_eq!(client.len(), 0);
}

#[test]
fn rendezvous_test_insert_node() {
    let mut client = Client::default();
    client.insert_node(1, 1);
    client.insert_point(0).unwrap();
    client.insert_node(0, 1);
    assert_eq!(client.get_points(0).unwrap(), [0u32]);
}

#[test]
fn rendezvous_test_remove_node() {
    let mut client = Client::default();
    client.insert_node(0, 1);
    client.insert_point(0).unwrap();
    client.insert_point(1).unwrap();
    client.insert_point(2).unwrap();
    client.insert_node(1, 1);
    client.remove_node(1).unwrap();

    let points = client.get_points(0).unwrap();

    assert!(points.contains(&0u32));
    assert!(points.contains(&1u32));
    assert!(points.contains(&2u32));
}

#[test]
fn rendezvous_test_get_node() {
    let mut client = Client::default();
    client.insert_node(0, 3);
    assert_eq!(client.get_node(0), Ok(0));
}

#[test]
fn rendezvous_test_insert_point() {
    let mut client = Client::default();
    client.insert_node(0, 3);
    client.insert_point(0).unwrap();
    assert_eq!(client.get_points(0).unwrap(), [0u32]);
}

#[test]
fn rendezvous_test_remove_point() {
    let mut client = Client::default();
    client.insert_node(0, 3);
    client.insert_point(0).unwrap();
    client.remove_point(0).unwrap();
    let expected: [u32; 0] = [];
    assert_eq!(client.get_points(0).unwrap(), expected);
}

#[test]
fn rendezvous_test_iter() {
    let mut client = Client::default();
    client.insert_node(0, 3);
    client.insert_point(1).unwrap();
    client.insert_point(2).unwrap();
    client.insert_point(3).unwrap();
    client.insert_point(4).unwrap();
    client.insert_point(5).unwrap();
    let mut actual: Vec<(u32, Vec<u32>)> = client.iter();
    actual[0].1.sort();
    assert_eq!(actual[0].0, 0);
    assert_eq!(actual[0].1, [1, 2, 3, 4, 5]);
}

#[test]
fn rendezvous_test_ring_len() {
    let mut ring = Ring::with_hasher(HashBuilder::default());

    ring.insert_node(0, 1);
    assert_eq!(ring.len(), 1);
}

#[test]
fn rendezvous_test_ring_iter() {
    let mut ring = Ring::with_hasher(HashBuilder::default());

    ring.insert_node(0, 1);
    let iterator = ring.iter();
    assert_eq!(iterator, vec![(0, 1)]);
}

#[test]
fn rendezvous_client_reassignment_scenario() {
    let builder = HashBuilder::default();
    let mut client = Client::with_hasher(builder);
    client.insert_node(0, 1);
    for p in 1..=5u32 {
        client.insert_point(p).unwrap();
    }
    let before: Vec<(u32, u64)> = (1..=5u32).map(|p| client.get_assignment(p).unwrap()).collect();
    client.insert_node(1, 1);
    for p in 1..=5u32 {
        let (owner, stored) = client.get_assignment(p).unwrap();
        assert_eq!(stored, score(&builder, owner, 1, p));
        assert_eq!(client.get_node(p), Ok(owner));
        let (old_owner, old_score) = before[(p - 1) as usize];
        assert_eq!(old_owner, 0);
        if owner == 1 {
            assert!(stored > old_score);
        }
    }
}

#[test]
fn rendezvous_ring_picks_highest_score() {
    let builder = HashBuilder::with_keys(3, 4);
    let mut ring = Ring::with_hasher(builder);
    for id in 0..6u32 {
        ring.insert_node(id, 3);
    }
    for p in 0..100u32 {
        let best = (0..6u32).max_by_key(|id| (score(&builder, *id, 3, p), *id)).unwrap();
        assert_eq!(ring.get_node(&p), Ok(best));
    }
}

#[test]
fn rendezvous_errors() {
    let mut ring = Ring::new();
    assert_eq!(ring.get_node(&1u32), Err(RingError::EmptyRing));
    assert_eq!(ring.remove_node(1), Err(RingError::UnknownNode));
    let mut client = Client::new();
    assert_eq!(client.insert_point(1), Err(RingError::EmptyRing));
    assert_eq!(client.remove_point(1), Err(RingError::EmptyRing));
    assert_eq!(client.remove_node(1), Err(RingError::UnknownNode));
    assert_eq!(client.get_points(1), Err(RingError::UnknownNode));
    client.insert_node(1, 2);
    assert_eq!(client.remove_node(1), Err(RingError::EmptyRingAfterRemoval));
}

#[test]
fn rendezvous_remove_moves_only_points_of_removed_node() {
    let mut ring = Ring::with_hasher(HashBuilder::default());
    for id in 0..5u32 {
        ring.insert_node(id, 2);
    }
    let before: Vec<u32> = (0..500u32).map(|p| ring.get_node(&p).unwrap()).collect();
    ring.remove_node(3).unwrap();
    for p in 0..500u32 {
        let now = ring.get_node(&p).unwrap();
        if now != before[p as usize] {
            assert_eq!(before[p as usize], 3);
        }
        assert_ne!(now, 3);
    }
    ring.insert_node(3, 2);
    let after: Vec<u32> = (0..500u32).map(|p| ring.get_node(&p).unwrap()).collect();
    assert_eq!(before, after);
}
