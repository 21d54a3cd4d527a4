use cmx_rdma::metadata::{
    apply_block_event, apply_node_event, apply_node_event_to_ring, block_key, block_meta,
    keepalive_interval_secs, node_id_from_key, node_key, parse_block_key, remote_info_from_meta,
    BlockEvent, BlockLocationMeta, NodeEvent,
};
use cmx_rdma::placement::HashRing;
use cmx_rdma::remote_index::{RemoteBlockInfo, RemoteIndex};

fn meta(node: &str, gen: u64) -> BlockLocationMeta {
    BlockLocationMeta { node_id: node.to_string(), node_addr: format!("{node}:50051"), offset: 4096, size: 256, generation: gen }
}

#[test]
fn keys_are_built_from_the_prefixes() {
    let mut h = [0u8; 16];
    h[0] = 0xab;
    h[15] = 0x01;
    assert_eq!(block_key(&h), "/cmx/blocks/ab000000000000000000000000000001");
    assert_eq!(node_key("node-a"), "/cmx/nodes/node-a");
}

#[test]
fn block_keys_parse_back() {
    let h = [0x5au8; 16];
    let k = block_key(&h);
    assert_eq!(parse_block_key(k.as_bytes()), Some(h));
    assert_eq!(parse_block_key(b"/cmx/blocks/zz"), None);
    assert_eq!(parse_block_key(b"/cmx/blocks/abcd"), None);
    // Upper-case hex is accepted too.
    assert_eq!(parse_block_key(b"/cmx/blocks/5A5A5A5A5A5A5A5A5A5A5A5A5A5A5A5A"), Some(h));
}

#[test]
fn node_ids_come_from_node_keys() {
    assert_eq!(node_id_from_key("/cmx/nodes/node-7"), "node-7");
    assert_eq!(node_id_from_key("/cmx/nodes//cmx/nodes/x"), "x");
    assert_eq!(node_id_from_key("plain"), "plain");
}

#[test]
fn records_convert() {
    let m = block_meta(&"n".to_string(), &"n:1".to_string(), 8, 16, 3);
    assert_eq!(m.node_id, "n");
    assert_eq!(m.node_addr, "n:1");
    let info = remote_info_from_meta(m);
    assert_eq!(info.offset, 8);
    assert_eq!(info.size, 16);
    assert_eq!(info.generation, 3);
}

#[test]
fn block_events_update_the_remote_index() {
    let mut idx = RemoteIndex::new();
    let h = [1u8; 16];
    let key = block_key(&h);
    apply_block_event(&mut idx, key.as_bytes(), BlockEvent::Put(Some(meta("node-a", 1))));
    apply_block_event(&mut idx, key.as_bytes(), BlockEvent::Put(Some(meta("node-b", 1))));
    apply_block_event(&mut idx, key.as_bytes(), BlockEvent::Put(Some(meta("node-a", 2))));
    let entries: Vec<RemoteBlockInfo> = idx.lookup(&h).unwrap();
    assert_eq!(entries.len(), 2);
    assert_eq!(entries[0].generation, 2);
    // A value that did not parse, and a key that names no hash, change nothing.
    apply_block_event(&mut idx, key.as_bytes(), BlockEvent::Put(None));
    apply_block_event(&mut idx, b"/cmx/blocks/nothex", BlockEvent::Delete);
    assert_eq!(idx.lookup(&h).unwrap().len(), 2);
    apply_block_event(&mut idx, key.as_bytes(), BlockEvent::Delete);
    assert!(idx.lookup(&h).is_none());
}

#[test]
fn node_events_update_index_and_ring() {
    let mut idx = RemoteIndex::new();
    let h = [2u8; 16];
    idx.insert(h, remote_info_from_meta(meta("node-a", 1)));
    let mut ring = HashRing::new(8);
    apply_node_event_to_ring(&mut ring, "/cmx/nodes/node-a", &NodeEvent::Put);
    apply_node_event_to_ring(&mut ring, "/cmx/nodes/node-b", &NodeEvent::Put);
    assert_eq!(ring.node_count(), 2);
    apply_node_event(&mut idx, "/cmx/nodes/node-a", &NodeEvent::Put);
    assert!(idx.lookup(&h).is_some());
    apply_node_event(&mut idx, "/cmx/nodes/node-a", &NodeEvent::Delete);
    assert!(idx.lookup(&h).is_none());
    apply_node_event_to_ring(&mut ring, "/cmx/nodes/node-a", &NodeEvent::Delete);
    assert_eq!(ring.node_count(), 1);
    assert_eq!(ring.preferred_node(&h), Some("node-b"));
}

#[test]
fn keepalive_runs_at_a_third_of_the_ttl() {
    assert_eq!(keepalive_interval_secs(30), 10);
    assert_eq!(keepalive_interval_secs(31), 10);
    assert_eq!(keepalive_interval_secs(2), 1);
    assert_eq!(keepalive_interval_secs(0), 1);
    assert_eq!(keepalive_interval_secs(-9), 1);
}

#[test]
fn block_keys_use_lowercase_hex_of_every_byte() {
    let h: [u8; 16] = [0x00, 0x0f, 0xf0, 0xff, 0x12, 0x34, 0x56, 0x78, 0x9a, 0xbc, 0xde, 0xf0, 0x01, 0x23, 0x45, 0x67];
    assert_eq!(block_key(&h), "/cmx/blocks/000ff0ff123456789abcdef001234567");
    // Odd length and non-hex text name no hash.
    assert_eq!(parse_block_key(b"/cmx/blocks/000ff0ff123456789abcdef00123456"), None);
    assert_eq!(parse_block_key(b"/cmx/blocks/000ff0ff123456789abcdef00123456g"), None);
}
