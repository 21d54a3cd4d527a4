use cmx_rdma::remote_index::{RemoteBlockInfo, RemoteIndex};

fn hash(n: u8) -> [u8; 16] {
    let mut h = [0u8; 16];
    h[0] = n;
    h
}

fn info(node: &str) -> RemoteBlockInfo {
    RemoteBlockInfo {
        node_id: node.to_string(),
        node_addr: format!("{}:50051", node),
        offset: 0,
        size: 4096,
        generation: 1,
    }
}

#[test]
fn insert_and_lookup() {
    let mut idx = RemoteIndex::new();
    idx.insert(hash(1), info("node-a"));
    let entries = idx.lookup(&hash(1)).unwrap();
    assert_eq!(entries.len(), 1);
    assert_eq!(entries[0].node_id, "node-a");
}

#[test]
fn lookup_miss() {
    let idx = RemoteIndex::new();
    assert!(idx.lookup(&hash(99)).is_none());
}

#[test]
fn remove_node_bulk() {
    let mut idx = RemoteIndex::new();
    idx.insert(hash(1), info("node-a"));
    idx.insert(hash(1), info("node-b"));
    idx.insert(hash(2), info("node-a"));

    idx.remove_node("node-a");

    let entries = idx.lookup(&hash(1)).unwrap();
    assert_eq!(entries.len(), 1);
    assert_eq!(entries[0].node_id, "node-b");

    // hash(2) only had node-a, so it should be gone entirely
    assert!(idx.lookup(&hash(2)).is_none());
}

#[test]
fn insert_from_same_node_replaces_its_record() {
    let mut idx = RemoteIndex::default();
    idx.insert(hash(1), info("node-a"));
    idx.insert(hash(1), info("node-b"));
    let mut newer = info("node-a");
    newer.generation = 9;
    newer.offset = 8192;
    idx.insert(hash(1), newer);
    let entries = idx.lookup(&hash(1)).unwrap();
    assert_eq!(entries.len(), 2);
    assert_eq!(entries[0].node_id, "node-a");
    assert_eq!(entries[0].generation, 9);
    assert_eq!(entries[0].offset, 8192);
    assert_eq!(entries[1].node_id, "node-b");
}

#[test]
fn remove_drops_all_records_of_a_hash() {
    let mut idx = RemoteIndex::new();
    idx.insert(hash(3), info("node-a"));
    idx.insert(hash(3), info("node-b"));
    idx.remove(&hash(3));
    assert!(idx.lookup(&hash(3)).is_none());
    idx.remove(&hash(4));
    assert!(idx.lookup(&hash(4)).is_none());
}
