use cmx_rdma::allocator::BlockAllocator;
use cmx_rdma::index::BlockIndex;
use cmx_rdma::pool::MemoryPool;
use cmx_rdma::remote_index::{RemoteBlockInfo, RemoteIndex};
use cmx_rdma::service::{
    admit_store, composite_key, parse_prefix_hash, CacheCore, ServiceError,
    StorePayload, PRESSURE_CRITICAL, PRESSURE_REJECT, PRESSURE_WARN,
};
use sha2::{Digest, Sha256};

fn new_core(blocks: usize, block_size: usize, capacity: usize, remote: Option<RemoteIndex>) -> CacheCore {
    let pool = MemoryPool::new(blocks * block_size, block_size).unwrap();
    CacheCore::new(BlockAllocator::new(pool, 0), BlockIndex::new(capacity), remote, "node-x".to_string())
}

fn hash(n: u8) -> [u8; 16] {
    let mut h = [0u8; 16];
    h[0] = n;
    h
}

#[test]
fn composite_key_without_model_is_the_hash() {
    let h = hash(7);
    assert_eq!(composite_key("", &h), h);
}

#[test]
fn composite_key_is_truncated_sha256_of_model_and_hash() {
    let h = hash(7);
    let mut hasher = Sha256::new();
    hasher.update(b"llama");
    hasher.update(h);
    let d = hasher.finalize();
    let mut want = [0u8; 16];
    want.copy_from_slice(&d[..16]);
    assert_eq!(composite_key("llama", &h), want);
    assert_ne!(composite_key("llama", &h), composite_key("mistral", &h));
}

#[test]
fn parse_prefix_hash_needs_sixteen_bytes() {
    assert_eq!(parse_prefix_hash(&[3u8; 16]), Ok([3u8; 16]));
    assert_eq!(parse_prefix_hash(&[3u8; 15]), Err(ServiceError::InvalidPrefixHash));
    assert_eq!(parse_prefix_hash(&[3u8; 17]), Err(ServiceError::InvalidPrefixHash));
}

#[test]
fn store_is_refused_at_the_reject_level_only() {
    assert_eq!(admit_store(0), Ok(()));
    assert_eq!(admit_store(PRESSURE_WARN), Ok(()));
    assert_eq!(admit_store(PRESSURE_CRITICAL), Ok(()));
    assert_eq!(admit_store(PRESSURE_REJECT), Err(ServiceError::PressureTooHigh));
}

#[test]
fn store_then_get_returns_the_data() {
    let mut c = new_core(4, 128, 16, None);
    let h = hash(1);
    let (reply, publish) = c.store("m", &h, b"kv bytes", 5).unwrap();
    assert!(reply.success);
    assert_eq!(reply.generation_id, 1);
    assert_eq!(publish.index_key, composite_key("m", &h));
    assert_eq!(publish.offset, 3 * 128);
    assert_eq!(publish.size, 128);
    let got = c.get("m", &h).unwrap();
    assert_eq!(got.header.num_blocks, 1);
    assert_eq!(got.header.total_size, 128);
    assert_eq!(got.header.generation_id, 1);
    assert!(!got.data_loss);
    assert_eq!(got.chunks, vec![b"kv bytes".to_vec()]);
    let st = c.stats();
    assert_eq!(st.cache_hits, 1);
    assert_eq!(st.used_blocks, 1);
    assert_eq!(st.memory_used_bytes, 128);
    assert_eq!(st.memory_total_bytes, 512);
}

#[test]
fn get_of_an_unknown_hash_is_not_found() {
    let mut c = new_core(2, 64, 4, None);
    assert!(matches!(c.get("", &hash(9)), Err(ServiceError::NotFound)));
    assert!(matches!(c.get("", &[0u8; 3]), Err(ServiceError::InvalidPrefixHash)));
    assert_eq!(c.stats().cache_misses, 1);
}

#[test]
fn store_fails_when_the_pool_is_full_or_data_too_big() {
    let mut c = new_core(1, 64, 4, None);
    assert!(matches!(c.store("", &hash(1), &[0u8; 41], 0), Err(ServiceError::PoolExhausted)));
    c.store("", &hash(1), &[1u8; 40], 0).unwrap();
    assert!(matches!(c.store("", &hash(2), b"x", 0), Err(ServiceError::PoolExhausted)));
}

#[test]
fn lookup_local_remote_and_miss() {
    let mut remote = RemoteIndex::new();
    remote.insert(
        hash(2),
        RemoteBlockInfo { node_id: "node-y".to_string(), node_addr: "y:1".to_string(), offset: 64, size: 4096, generation: 3 },
    );
    let mut c = new_core(2, 64, 4, Some(remote));
    c.store("", &hash(1), b"abc", 0).unwrap();

    let local = c.lookup("", &hash(1)).unwrap();
    assert!(local.found && local.is_local);
    assert_eq!(local.blocks.len(), 1);
    assert_eq!(local.blocks[0].node_id, "node-x");
    assert_eq!(local.blocks[0].offset, 64);

    let far = c.lookup("", &hash(2)).unwrap();
    assert!(far.found && !far.is_local);
    assert_eq!(far.blocks[0].node_id, "node-y");
    assert_eq!(far.blocks[0].generation_id, 3);

    let miss = c.lookup("", &hash(3)).unwrap();
    assert!(!miss.found && miss.blocks.is_empty());

    assert!(matches!(c.lookup("", &[1u8; 4]), Err(ServiceError::InvalidPrefixHash)));
    let st = c.stats();
    assert_eq!(st.cache_hits, 2);
    assert_eq!(st.cache_misses, 1);
}

#[test]
fn batch_lookup_flags_each_hash() {
    let mut c = new_core(4, 64, 4, None);
    c.store("", &hash(1), b"a", 0).unwrap();
    c.store("", &hash(3), b"c", 0).unwrap();
    let req = vec![hash(1).to_vec(), hash(2).to_vec(), hash(3).to_vec()];
    let reply = c.batch_lookup("", &req).unwrap();
    assert_eq!(reply.found, vec![true, false, true]);
    assert_eq!(reply.blocks.len(), 2);
    let bad = vec![hash(1).to_vec(), vec![0u8; 2], hash(3).to_vec()];
    assert!(matches!(c.batch_lookup("", &bad), Err(ServiceError::InvalidPrefixHash)));
    // The hash before the bad one was still looked up.
    let st = c.stats();
    assert_eq!(st.cache_hits, 3);
    assert_eq!(st.cache_misses, 1);
}

#[test]
fn delete_frees_the_block() {
    let mut c = new_core(2, 64, 4, None);
    c.store("", &hash(1), b"a", 0).unwrap();
    assert_eq!(c.pool_stats().free_blocks, 1);
    let reply = c.delete(&hash(1)).unwrap();
    assert!(reply.success);
    assert_eq!(reply.blocks_freed, 1);
    assert_eq!(c.pool_stats().free_blocks, 2);
    let again = c.delete(&hash(1)).unwrap();
    assert!(!again.success);
    assert_eq!(again.blocks_freed, 0);
    assert!(matches!(c.delete(&[0u8; 5]), Err(ServiceError::InvalidPrefixHash)));
}

#[test]
fn full_index_evicts_and_counts() {
    let mut c = new_core(4, 64, 2, None);
    c.store("", &hash(1), b"a", 0).unwrap();
    c.store("", &hash(2), b"b", 0).unwrap();
    c.store("", &hash(3), b"c", 0).unwrap();
    assert_eq!(c.stats().evictions, 1);
    // The evicted entry's block went back to the pool.
    assert_eq!(c.stats().used_blocks, 2);
    assert_eq!(c.pool_stats().free_blocks, 2);
    assert!(matches!(c.get("", &hash(1)), Err(ServiceError::NotFound)));
    assert_eq!(c.get("", &hash(3)).unwrap().chunks, vec![b"c".to_vec()]);
    assert_eq!(c.index().len(), 2);
    assert_eq!(c.allocator().current_generation(), 4);
    assert_eq!(c.node_id(), "node-x");
}

#[test]
fn store_requests_check_pressure_and_stream() {
    let mut c = new_core(2, 64, 4, None);
    let header = |ph: Vec<u8>| Some(StorePayload::Header { prefix_hash: ph, model_id: "m".to_string(), total_size: 4 });
    let good = vec![header(hash(4).to_vec()), Some(StorePayload::Data(vec![1, 2])), None, Some(StorePayload::Data(vec![3, 4]))];
    // Refused at the reject level, whatever the stream.
    assert!(matches!(c.store_request(PRESSURE_REJECT, &good, 0), Err(ServiceError::PressureTooHigh)));
    assert_eq!(c.pool_stats().free_blocks, 2);
    assert!(matches!(c.store_request(0, &vec![], 0), Err(ServiceError::EmptyStream)));
    assert!(matches!(c.store_request(0, &vec![None], 0), Err(ServiceError::FirstMessageNotHeader)));
    assert!(matches!(
        c.store_request(0, &vec![Some(StorePayload::Data(vec![1]))], 0),
        Err(ServiceError::FirstMessageNotHeader)
    ));
    assert!(matches!(c.store_request(0, &vec![header(vec![1, 2])], 0), Err(ServiceError::InvalidPrefixHash)));
    let twice = vec![header(hash(4).to_vec()), Some(StorePayload::Data(vec![1])), header(vec![])];
    assert!(matches!(c.store_request(0, &twice, 0), Err(ServiceError::UnexpectedHeader)));
    assert_eq!(c.pool_stats().free_blocks, 2);
    // Accepted below the reject level.
    let (reply, publish) = c.store_request(PRESSURE_CRITICAL, &good, 0).unwrap();
    assert!(reply.success);
    assert_eq!(publish.index_key, composite_key("m", &hash(4)));
    assert_eq!(c.get("m", &hash(4)).unwrap().chunks, vec![vec![1, 2, 3, 4]]);
}

#[test]
fn index_keys_take_the_first_sixteen_digest_bytes() {
    let digest: Vec<u8> = (0..32u8).collect();
    let k = cmx_rdma::service::key_from_digest(&digest);
    assert_eq!(k.to_vec(), (0..16u8).collect::<Vec<u8>>());
}

#[test]
fn evicted_blocks_are_reused_and_other_data_survives() {
    // One block per entry, capacity two, three blocks: the third store
    // evicts the first entry, whose block becomes free again.
    let mut c = new_core(3, 64, 2, None);
    c.store("", &hash(1), b"one", 0).unwrap();
    c.store("", &hash(2), b"two", 0).unwrap();
    c.store("", &hash(3), b"three", 0).unwrap();
    c.store("", &hash(4), b"four", 0).unwrap();
    assert_eq!(c.stats().evictions, 2);
    assert_eq!(c.get("", &hash(3)).unwrap().chunks, vec![b"three".to_vec()]);
    assert_eq!(c.get("", &hash(4)).unwrap().chunks, vec![b"four".to_vec()]);
    c.delete(&hash(4)).unwrap();
    assert_eq!(c.get("", &hash(3)).unwrap().chunks, vec![b"three".to_vec()]);
    assert_eq!(c.stats().used_blocks, 1);
}

fn core_with_two_block_entry() -> (CacheCore, [u8; 16]) {
    let pool = MemoryPool::new(4 * 64, 64).unwrap();
    let mut alloc = BlockAllocator::new(pool, 0);
    let (first, _) = alloc.allocate_and_write(b"first").unwrap();
    let (second, _) = alloc.allocate_and_write(b"second").unwrap();
    let mut index = BlockIndex::new(8);
    let h = hash(5);
    index.insert(h, vec![first, second], 0);
    (CacheCore::new(alloc, index, None, "node-x".to_string()), h)
}

#[test]
fn get_reads_every_block_of_an_entry() {
    let (mut c, h) = core_with_two_block_entry();
    let got = c.get("", &h).unwrap();
    assert_eq!(got.header.num_blocks, 2);
    assert_eq!(got.header.total_size, 128);
    assert_eq!(got.header.generation_id, 1);
    assert!(!got.data_loss);
    assert_eq!(got.chunks, vec![b"first".to_vec(), b"second".to_vec()]);
}

#[test]
fn delete_frees_every_block_of_an_entry() {
    let (mut c, h) = core_with_two_block_entry();
    assert_eq!(c.pool_stats().free_blocks, 2);
    let reply = c.delete(&h).unwrap();
    assert!(reply.success);
    assert_eq!(reply.blocks_freed, 2);
    assert_eq!(c.pool_stats().free_blocks, 4);
    assert!(matches!(c.get("", &h), Err(ServiceError::NotFound)));
}
