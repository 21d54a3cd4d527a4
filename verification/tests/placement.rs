use cmx_rdma::placement::HashRing;
use sha2::{Digest, Sha256};

fn key(i: u16) -> [u8; 16] {
    let mut h = [0u8; 16];
    h[..2].copy_from_slice(&i.to_be_bytes());
    h
}

fn position(text: &str) -> u64 {
    let d = Sha256::digest(text.as_bytes());
    u64::from_be_bytes(d[..8].try_into().unwrap())
}

#[test]
fn empty_ring_returns_none() {
    let ring = HashRing::new(128);
    let hash = [0u8; 16];
    assert!(ring.preferred_node(&hash).is_none());
}

#[test]
fn single_node_always_preferred() {
    let mut ring = HashRing::new(128);
    ring.add_node("node-a".to_string());

    for i in 0..10u8 {
        let mut h = [0u8; 16];
        h[0] = i;
        assert_eq!(ring.preferred_node(&h), Some("node-a"));
    }
}

#[test]
fn add_and_remove_node() {
    let mut ring = HashRing::new(128);
    ring.add_node("node-a".to_string());
    ring.add_node("node-b".to_string());
    assert_eq!(ring.node_count(), 2);

    ring.remove_node("node-a");
    assert_eq!(ring.node_count(), 1);

    // All lookups should return node-b now
    let h = [1u8; 16];
    assert_eq!(ring.preferred_node(&h), Some("node-b"));
}

#[test]
fn distribution_is_reasonable() {
    let mut ring = HashRing::new(128);
    ring.add_node("node-a".to_string());
    ring.add_node("node-b".to_string());
    ring.add_node("node-c".to_string());

    let mut counts = std::collections::HashMap::new();
    for i in 0u16..1000 {
        let node = ring.preferred_node(&key(i)).unwrap();
        *counts.entry(node.to_string()).or_insert(0u32) += 1;
    }

    // Each node should get at least 15% of keys (expected ~33%)
    for count in counts.values() {
        assert!(*count > 150, "uneven distribution: {counts:?}");
    }
}

#[test]
fn minimal_key_movement_on_add() {
    let mut ring = HashRing::new(128);
    ring.add_node("node-a".to_string());
    ring.add_node("node-b".to_string());

    // Record assignments
    let mut before = Vec::new();
    for i in 0u16..1000 {
        before.push(ring.preferred_node(&key(i)).unwrap().to_string());
    }

    // Add a third node
    ring.add_node("node-c".to_string());

    let mut moved = 0;
    for i in 0u16..1000 {
        let after = ring.preferred_node(&key(i)).unwrap();
        if after != before[i as usize] {
            moved += 1;
        }
    }

    // Ideal movement is ~1/3 of keys. Allow up to 50%.
    assert!(moved < 500, "too many keys moved: {moved}/1000");
}

#[test]
fn preferred_nodes_returns_n_unique() {
    let mut ring = HashRing::new(128);
    ring.add_node("node-a".to_string());
    ring.add_node("node-b".to_string());
    ring.add_node("node-c".to_string());

    let h = [42u8; 16];
    let nodes = ring.preferred_nodes(&h, 3);
    assert_eq!(nodes.len(), 3);
    // All unique
    let unique: std::collections::HashSet<_> = nodes.iter().collect();
    assert_eq!(unique.len(), 3);
}

#[test]
fn keys_that_move_on_add_go_to_the_new_node() {
    let mut ring = HashRing::new(16);
    ring.add_node("node-a".to_string());
    ring.add_node("node-b".to_string());
    let before: Vec<String> = (0u16..300).map(|i| ring.preferred_node(&key(i)).unwrap().to_string()).collect();
    ring.add_node("node-c".to_string());
    for i in 0u16..300 {
        let after = ring.preferred_node(&key(i)).unwrap();
        assert!(after == before[i as usize] || after == "node-c");
    }
}

#[test]
fn removing_a_node_keeps_other_owners() {
    let mut ring = HashRing::new(16);
    for n in ["node-a", "node-b", "node-c"] {
        ring.add_node(n.to_string());
    }
    let before: Vec<String> = (0u16..300).map(|i| ring.preferred_node(&key(i)).unwrap().to_string()).collect();
    ring.remove_node("node-b");
    for i in 0u16..300 {
        let after = ring.preferred_node(&key(i)).unwrap();
        assert_ne!(after, "node-b");
        if before[i as usize] != "node-b" {
            assert_eq!(after, before[i as usize]);
        }
    }
}

#[test]
fn owner_is_the_first_point_at_or_after_the_hash() {
    // One virtual node each: positions are those of "node-a:0" and "node-b:0".
    let mut ring = HashRing::new(1);
    ring.add_node("node-a".to_string());
    ring.add_node("node-b".to_string());
    let pa = position("node-a:0");
    let pb = position("node-b:0");
    for i in 0u16..50 {
        let h = key(i);
        let p = position(&hex::encode(h));
        let (lo, lo_name, hi, hi_name) = if pa < pb { (pa, "node-a", pb, "node-b") } else { (pb, "node-b", pa, "node-a") };
        let expect = if p <= lo { lo_name } else if p <= hi { hi_name } else { lo_name };
        assert_eq!(ring.preferred_node(&h), Some(expect));
    }
}

#[test]
fn preferred_nodes_start_with_the_preferred_node() {
    let mut ring = HashRing::new(8);
    for n in ["node-a", "node-b", "node-c", "node-d"] {
        ring.add_node(n.to_string());
    }
    for i in 0u16..40 {
        let h = key(i);
        let first = ring.preferred_node(&h).unwrap();
        let nodes = ring.preferred_nodes(&h, 2);
        assert_eq!(nodes.len(), 2);
        assert_eq!(nodes[0], first);
        assert_ne!(nodes[0], nodes[1]);
        // Asking for more nodes than there are gives each node once.
        let all = ring.preferred_nodes(&h, 10);
        assert_eq!(all.len(), 4);
        // Zero asks for none.
        assert!(ring.preferred_nodes(&h, 0).is_empty());
        assert_eq!(ring.preferred_nodes(&h, 1), vec![first]);
    }
}

#[test]
fn adding_a_member_twice_changes_nothing() {
    let mut ring = HashRing::new(4);
    ring.add_node("node-a".to_string());
    ring.add_node("node-a".to_string());
    assert_eq!(ring.node_count(), 1);
    ring.remove_node("node-z");
    assert_eq!(ring.node_count(), 1);
    ring.remove_node("node-a");
    assert_eq!(ring.node_count(), 0);
    assert!(ring.preferred_node(&[0u8; 16]).is_none());
    assert!(ring.preferred_nodes(&[0u8; 16], 3).is_empty());
}

#[test]
fn ring_positions_are_big_endian_digest_prefixes() {
    let digest = [1u8, 2, 3, 4, 5, 6, 7, 8, 9, 10];
    assert_eq!(cmx_rdma::placement::position_from_digest(&digest), 0x0102_0304_0506_0708);
}

#[test]
fn adding_then_removing_a_node_restores_the_ring() {
    let mut ring = HashRing::new(64);
    ring.add_node("node-a".to_string());
    ring.add_node("node-b".to_string());
    let before: Vec<Option<String>> =
        (0..300u16).map(|i| ring.preferred_node(&key(i)).map(|s| s.to_string())).collect();
    ring.add_node("node-c".to_string());
    assert_eq!(ring.node_count(), 3);
    ring.remove_node("node-c");
    assert_eq!(ring.node_count(), 2);
    for i in 0..300u16 {
        let owner = ring.preferred_node(&key(i)).map(|s| s.to_string());
        assert_eq!(owner, before[i as usize]);
        assert_ne!(owner.as_deref(), Some("node-c"));
    }
}

#[test]
fn node_count_is_the_number_of_distinct_live_nodes() {
    let mut ring = HashRing::new(0);
    assert_eq!(ring.node_count(), 0);
    ring.add_node("a".to_string());
    ring.add_node("b".to_string());
    ring.add_node("a".to_string());
    assert_eq!(ring.node_count(), 2);
    ring.remove_node("c");
    assert_eq!(ring.node_count(), 2);
    ring.remove_node("a");
    assert_eq!(ring.node_count(), 1);
    ring.remove_node("a");
    assert_eq!(ring.node_count(), 1);
    ring.add_node("a".to_string());
    assert_eq!(ring.node_count(), 2);
}
