use hash_rings::consistent::{Client, Ring};
use hash_rings::util::HashBuilder;
use hash_rings::RingError;

fn sorted(mut v: Vec<u32>) -> Vec<u32> {
    v.sort();
    v
}

#[test]
fn consistent_test_size_empty() {
    let client = Client::new();
    assert!(client.is_empty());
    assert_eq!(client.len(), 0);
}

#[test]
fn test_insert_node_share_node() {
    let mut client = Client::default();
    client.insert_node(0, 1);
    client.insert_point(0).unwrap();
    client.insert_point(3).unwrap();
    client.insert_node(1, 1);
    assert_eq!(client.get_points(0).unwrap().as_slice(), [3u32]);
    assert_eq!(client.get_points(1).unwrap().as_slice(), [0u32]);
}

#[test]
fn consistent_test_remove_node() {
    let mut client = Client::default();
    client.insert_node(0, 1);
    client.insert_point(0).unwrap();
    client.insert_node(1, 1);
    client.remove_node(1).unwrap();
    assert_eq!(client.get_points(0).unwrap(), [0]);
}

#[test]
fn consistent_test_get_node() {
    let mut client = Client::default();
    client.insert_node(0, 3);
    assert_eq!(client.get_node(0), Ok(0));
}

#[test]
fn consistent_test_insert_point() {
    let mut client = Client::default();
    client.insert_node(0, 3);
    client.insert_point(0).unwrap();
    assert_eq!(client.get_points(0).unwrap().as_slice(), [0u32]);
}

#[test]
fn consistent_test_remove_point() {
    let mut client = Client::default();
    client.insert_node(0, 3);
    client.insert_point(0).unwrap();
    client.remove_point(0).unwrap();
    let expected: [u32; 0] = [];
    assert_eq!(client.get_points(0).unwrap().as_slice(), expected);
}

#[test]
fn consistent_test_iter() {
    let mut client = Client::default();
    client.insert_node(0, 3);
    client.insert_point(1).unwrap();
    client.insert_point(2).unwrap();
    client.insert_point(3).unwrap();
    client.insert_point(4).unwrap();
    client.insert_point(5).unwrap();
    let mut actual: Vec<(u32, Vec<u32>)> = client.iter();
    actual[0].1.sort();
    assert_eq!(actual[0].0, 0);
    assert_eq!(actual[0].1.as_slice(), [1, 2, 3, 4, 5]);
}

#[test]
fn consistent_ring_basic_scenario() {
    let mut ring = Ring::with_hasher(HashBuilder::default());
    ring.insert_node(1, 1);
    ring.insert_node(2, 3);
    let first = ring.get_node("point-1").unwrap();
    assert_eq!(ring.get_node("point-1").unwrap(), first);
    ring.remove_node(1).unwrap();
    assert_eq!(ring.get_node("point-1"), Ok(2));
    assert_eq!(ring.len(), 1);
    assert_eq!(ring.iter(), vec![(2, 3)]);
}

#[test]
fn consistent_ring_empty_and_unknown() {
    let mut ring = Ring::new();
    assert_eq!(ring.get_node(&7u32), Err(RingError::EmptyRing));
    assert_eq!(ring.remove_node(7), Err(RingError::UnknownNode));
    ring.insert_node(7, 2);
    assert_eq!(ring.get_node(&7u32), Ok(7));
    assert!(!ring.is_empty());
}

#[test]
fn consistent_ring_remove_then_insert_restores() {
    let mut ring = Ring::with_hasher(HashBuilder::default());
    ring.insert_node(1, 4);
    ring.insert_node(2, 4);
    ring.insert_node(3, 4);
    let before: Vec<u32> = (0..200u32).map(|p| ring.get_node(&p).unwrap()).collect();
    ring.remove_node(2).unwrap();
    ring.insert_node(2, 4);
    let after: Vec<u32> = (0..200u32).map(|p| ring.get_node(&p).unwrap()).collect();
    assert_eq!(before, after);
}

#[test]
fn consistent_ring_insert_moves_only_to_new_node() {
    let mut ring = Ring::with_hasher(HashBuilder::default());
    for id in 0..10u32 {
        ring.insert_node(id, 20);
    }
    let before: Vec<u32> = (0..2000u32).map(|p| ring.get_node(&p).unwrap()).collect();
    ring.insert_node(10, 20);
    let mut moved = 0;
    for p in 0..2000u32 {
        let now = ring.get_node(&p).unwrap();
        if now != before[p as usize] {
            assert_eq!(now, 10);
            moved += 1;
        }
    }
    assert!(moved > 0);
    assert!(moved < 2000 / 4);
}

#[test]
fn consistent_client_errors() {
    let mut client = Client::default();
    assert_eq!(client.get_node(0), Err(RingError::EmptyRing));
    assert_eq!(client.insert_point(0), Err(RingError::EmptyRing));
    assert_eq!(client.remove_point(0), Err(RingError::EmptyRing));
    assert_eq!(client.remove_node(0), Err(RingError::UnknownNode));
    assert_eq!(client.get_points(0), Err(RingError::UnknownNode));
    client.insert_node(0, 1);
    assert_eq!(client.remove_node(0), Err(RingError::EmptyRingAfterRemoval));
    assert_eq!(client.len(), 1);
}

#[test]
fn consistent_client_follows_ring() {
    let mut client = Client::default();
    let mut ring = Ring::with_hasher(HashBuilder::default());
    for id in 0..4u32 {
        client.insert_node(id, 5);
        ring.insert_node(id, 5);
    }
    for p in 100..300u32 {
        client.insert_point(p).unwrap();
    }
    client.insert_node(9, 7);
    ring.insert_node(9, 7);
    client.remove_node(2).unwrap();
    ring.remove_node(2).unwrap();
    assert_eq!(client.len(), ring.len());
    let mut seen: Vec<u32> = Vec::new();
    for (id, points) in client.iter() {
        for p in points {
            assert_eq!(ring.get_node(&p), Ok(id));
            assert_eq!(client.get_node(p), Ok(id));
            seen.push(p);
        }
    }
    assert_eq!(sorted(seen), (100..300u32).collect::<Vec<u32>>());
}

#[test]
fn consistent_reinsert_drops_stale_positions() {
    let mut ring = Ring::with_hasher(HashBuilder::default());
    ring.insert_node(1, 3);
    ring.insert_node(1, 1);
    ring.remove_node(1).unwrap();
    assert!(ring.is_empty());
    assert_eq!(ring.len(), 0);
    assert_eq!(ring.get_node(&5u32), Err(RingError::EmptyRing));
    assert_eq!(ring.iter(), vec![]);
}

#[test]
fn consistent_client_reinsert_keeps_points() {
    let mut client = Client::default();
    let mut ring = Ring::with_hasher(HashBuilder::default());
    client.insert_node(0, 2);
    ring.insert_node(0, 2);
    client.insert_node(1, 4);
    ring.insert_node(1, 4);
    for p in 0..100u32 {
        client.insert_point(p).unwrap();
    }
    client.insert_node(1, 1);
    ring.insert_node(1, 1);
    let mut seen: Vec<u32> = Vec::new();
    for id in [0u32, 1] {
        for p in client.get_points(id).unwrap() {
            assert_eq!(ring.get_node(&p), Ok(id));
            seen.push(p);
        }
    }
    assert_eq!(sorted(seen), (0..100u32).collect::<Vec<u32>>());
    client.insert_node(0, 1);
    client.remove_node(1).unwrap();
    assert_eq!(sorted(client.get_points(0).unwrap()), (0..100u32).collect::<Vec<u32>>());
}
