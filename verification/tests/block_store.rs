use cmx_rdma::allocator::BlockAllocator;
use cmx_rdma::block::{BlockHeader, BlockLocation, TOKENS_PER_BLOCK};
use cmx_rdma::eviction::LruPolicy;
use cmx_rdma::index::BlockIndex;
use cmx_rdma::pool::MemoryPool;

fn hash(n: u8) -> [u8; 16] {
    let mut h = [0u8; 16];
    h[0] = n;
    h
}

fn dummy_location(gen: u64) -> BlockLocation {
    BlockLocation { node_id: 0, block_index: 0, offset: 0, block_size: 4096, generation: gen }
}

fn make_pool(num_blocks: usize, block_size: usize) -> MemoryPool {
    MemoryPool::new(num_blocks * block_size, block_size).unwrap()
}

// ---- block header ----

#[test]
fn test_header_roundtrip() {
    let data = b"hello world KV cache data";
    let header = BlockHeader::new(data, 42);

    assert_eq!(header.generation, 42);
    assert_eq!(header.data_size, data.len() as u32);
    assert!(header.verify(data));
    assert!(!header.verify(b"corrupted data"));
}

#[test]
fn test_header_serialize() {
    let data = b"test data";
    let header = BlockHeader::new(data, 7);

    let mut buf = vec![0u8; BlockHeader::SIZE + 16];
    header.write_to(&mut buf);

    let restored = BlockHeader::read_from(&buf).unwrap();
    assert_eq!(restored.crc32, header.crc32);
    assert_eq!(restored.generation, header.generation);
    assert_eq!(restored.data_size, header.data_size);
    assert!(restored.verify(data));
}

#[test]
fn test_header_size() {
    // Header: u32 + padding(4) + u64 + u32 + u32 = 24 bytes (8-byte aligned for u64)
    assert_eq!(BlockHeader::SIZE, 24);
}

#[test]
fn header_crc_is_the_castagnoli_checksum() {
    // The standard check value of CRC-32C for "123456789".
    let header = BlockHeader::new(b"123456789", 42);
    assert_eq!(header.crc32, 0xE306_9283);
    assert_eq!(header.generation, 42);
    assert_eq!(header.data_size, 9);
    assert!(header.verify(b"123456789"));
    assert!(!header.verify(b"corrupted data"));
    assert_eq!(cmx_rdma::block::crc32c(b"a"), 0xC1D0_4330);
    assert_eq!(BlockHeader::new(b"", 1).crc32, 0);
}

#[test]
fn header_bytes_layout_is_little_endian_with_padding() {
    let header = BlockHeader { crc32: 0x0403_0201, generation: 0x0c0b_0a09_0807_0605, data_size: 0x100f_0e0d, reserved: 0 };
    let mut buf = vec![0xFFu8; 28];
    header.write_to(&mut buf);
    assert_eq!(
        buf,
        vec![
            1, 2, 3, 4, 0, 0, 0, 0, 5, 6, 7, 8, 9, 10, 11, 12, 13, 14, 15, 16, 0, 0, 0, 0, 0xFF, 0xFF,
            0xFF, 0xFF
        ]
    );
}

#[test]
fn read_from_short_buffer_is_none() {
    assert!(BlockHeader::read_from(&[0u8; 23]).is_none());
    assert!(BlockHeader::read_from(&[0u8; 24]).is_some());
}

#[test]
fn tokens_per_block_matches_page_size() {
    assert_eq!(TOKENS_PER_BLOCK, 16);
}

// ---- allocator ----

#[test]
fn test_allocate_and_read() {
    let pool = make_pool(4, 4096);
    let mut alloc = BlockAllocator::new(pool, 1);

    let data = b"hello KV cache";
    let (loc, handle) = alloc.allocate_and_write(data).unwrap();

    assert_eq!(loc.node_id, 1);
    assert_eq!(loc.generation, 1);

    let readback = alloc.read_verified(&handle).unwrap();
    assert_eq!(readback, data);
}

#[test]
fn test_generation_increments() {
    let pool = make_pool(4, 4096);
    let mut alloc = BlockAllocator::new(pool, 0);

    let (loc1, _h1) = alloc.allocate_and_write(b"a").unwrap();
    let (loc2, _h2) = alloc.allocate_and_write(b"b").unwrap();

    assert_eq!(loc1.generation, 1);
    assert_eq!(loc2.generation, 2);
}

#[test]
fn test_data_too_large() {
    let block_size = 64;
    let pool = make_pool(2, block_size);
    let mut alloc = BlockAllocator::new(pool, 0);

    let data = vec![0u8; block_size]; // exactly block_size, but header needs space too
    assert!(alloc.allocate_and_write(&data).is_none());
}

#[test]
fn test_deallocate_and_reuse() {
    let pool = make_pool(1, 4096);
    let mut alloc = BlockAllocator::new(pool, 0);

    let (_loc, handle) = alloc.allocate_and_write(b"first").unwrap();
    assert!(alloc.allocate_and_write(b"second").is_none()); // pool full

    alloc.deallocate(handle);
    let result = alloc.allocate_and_write(b"third");
    assert!(result.is_some()); // slot reused
}

#[test]
fn allocation_takes_the_top_of_the_free_list() {
    let pool = make_pool(4, 128);
    let mut alloc = BlockAllocator::new(pool, 7);
    let (loc, handle) = alloc.allocate_and_write(b"x").unwrap();
    assert_eq!(handle.block_index, 3);
    assert_eq!(handle.offset, 3 * 128);
    assert_eq!(loc.offset, 3 * 128);
    assert_eq!(loc.block_size, 128);
    assert_eq!(loc.node_id, 7);
    assert_eq!(alloc.current_generation(), 2);
}

#[test]
fn data_that_exactly_fills_a_block_reads_back() {
    let pool = make_pool(2, 64);
    let mut alloc = BlockAllocator::new(pool, 0);
    let data: Vec<u8> = (0..40u8).collect();
    let (_loc, handle) = alloc.allocate_and_write(&data).unwrap();
    assert_eq!(alloc.read_verified(&handle).unwrap(), data);
    assert!(alloc.allocate_and_write(&vec![0u8; 41]).is_none());
}

#[test]
fn writing_one_block_leaves_the_others() {
    let pool = make_pool(2, 64);
    let mut alloc = BlockAllocator::new(pool, 0);
    let (_l1, h1) = alloc.allocate_and_write(b"first block").unwrap();
    let (_l2, h2) = alloc.allocate_and_write(b"second").unwrap();
    assert_eq!(alloc.read_verified(&h1).unwrap(), b"first block".to_vec());
    assert_eq!(alloc.read_verified(&h2).unwrap(), b"second".to_vec());
}

#[test]
fn corrupted_block_fails_the_check() {
    let mut pool = make_pool(1, 64);
    let h = pool.allocate().unwrap();
    // A header claiming 4 bytes with a checksum that does not match them.
    let header = BlockHeader { crc32: 1, generation: 1, data_size: 4, reserved: 0 };
    let mut bytes = vec![0u8; 28];
    header.write_to(&mut bytes);
    bytes[24..28].copy_from_slice(b"abcd");
    pool.write_at(&h, 0, &bytes);
    let alloc = BlockAllocator::new(pool, 0);
    assert!(alloc.read_verified(&h).is_none());
}

#[test]
fn oversized_length_field_fails_the_check() {
    let mut pool = make_pool(1, 64);
    let h = pool.allocate().unwrap();
    let header = BlockHeader { crc32: 0, generation: 1, data_size: 41, reserved: 0 };
    let mut bytes = vec![0u8; 24];
    header.write_to(&mut bytes);
    pool.write_at(&h, 0, &bytes);
    let alloc = BlockAllocator::new(pool, 0);
    assert!(alloc.read_verified(&h).is_none());
}

#[test]
fn allocator_stats_follow_the_pool() {
    let pool = make_pool(4, 128);
    let mut alloc = BlockAllocator::new(pool, 0);
    alloc.allocate_and_write(b"a").unwrap();
    let st = alloc.stats();
    assert_eq!(st.total_blocks, 4);
    assert_eq!(st.used_blocks, 1);
    assert_eq!(st.free_blocks, 3);
    assert_eq!(st.used_bytes, 128);
    assert_eq!(st.total_bytes, 512);
}

// ---- LRU policy ----

#[test]
fn test_evict_order() {
    let mut lru = LruPolicy::new();
    lru.touch(&hash(1));
    lru.touch(&hash(2));
    lru.touch(&hash(3));

    // LRU order: 3 (head) → 2 → 1 (tail)
    assert_eq!(lru.evict_lru(), Some(hash(1)));
    assert_eq!(lru.evict_lru(), Some(hash(2)));
    assert_eq!(lru.evict_lru(), Some(hash(3)));
    assert_eq!(lru.evict_lru(), None);
}

#[test]
fn test_touch_moves_to_front() {
    let mut lru = LruPolicy::new();
    lru.touch(&hash(1));
    lru.touch(&hash(2));
    lru.touch(&hash(3));

    // Touch 1 again — moves it to front
    lru.touch(&hash(1));

    // LRU order: 1 (head) → 3 → 2 (tail)
    assert_eq!(lru.evict_lru(), Some(hash(2)));
    assert_eq!(lru.evict_lru(), Some(hash(3)));
    assert_eq!(lru.evict_lru(), Some(hash(1)));
}

#[test]
fn eviction_test_remove() {
    let mut lru = LruPolicy::new();
    lru.touch(&hash(1));
    lru.touch(&hash(2));
    lru.touch(&hash(3));

    lru.remove(&hash(2));
    assert_eq!(lru.len(), 2);

    assert_eq!(lru.evict_lru(), Some(hash(1)));
    assert_eq!(lru.evict_lru(), Some(hash(3)));
}

#[test]
fn test_empty_evict() {
    let mut lru = LruPolicy::new();
    assert_eq!(lru.evict_lru(), None);
    assert!(lru.is_empty());
}

#[test]
fn lru_touch_twice_keeps_one_entry() {
    let mut lru = LruPolicy::default();
    lru.touch(&hash(5));
    lru.touch(&hash(5));
    assert_eq!(lru.len(), 1);
    lru.remove(&hash(9)); // absent: nothing happens
    assert_eq!(lru.len(), 1);
    assert_eq!(lru.evict_lru(), Some(hash(5)));
    assert!(lru.is_empty());
}

#[test]
fn lru_slots_are_reused_after_eviction() {
    let mut lru = LruPolicy::new();
    for round in 0..3u8 {
        for i in 0..4u8 {
            lru.touch(&hash(10 * round + i));
        }
        for i in 0..4u8 {
            assert_eq!(lru.evict_lru(), Some(hash(10 * round + i)));
        }
        assert!(lru.is_empty());
    }
}

// ---- block index ----

#[test]
fn test_insert_and_lookup() {
    let mut idx = BlockIndex::new(100);
    let h = hash(1);
    let blocks = vec![dummy_location(1)];

    idx.insert(h, blocks.clone(), 1000);
    let entry = idx.lookup(&h).unwrap();
    assert_eq!(entry.blocks.len(), 1);
    assert_eq!(entry.blocks[0].generation, 1);
    assert_eq!(entry.created_at, 1000);
}

#[test]
fn test_lookup_miss() {
    let mut idx = BlockIndex::new(100);
    assert!(idx.lookup(&hash(99)).is_none());
}

#[test]
fn index_test_remove() {
    let mut idx = BlockIndex::new(100);
    idx.insert(hash(1), vec![dummy_location(1)], 0);
    assert!(idx.contains(&hash(1)));

    let removed = idx.remove(&hash(1));
    assert!(removed.is_some());
    assert!(!idx.contains(&hash(1)));
}

#[test]
fn test_eviction_at_capacity() {
    let mut idx = BlockIndex::new(3); // capacity of 3

    idx.insert(hash(1), vec![dummy_location(1)], 0);
    idx.insert(hash(2), vec![dummy_location(2)], 0);
    idx.insert(hash(3), vec![dummy_location(3)], 0);

    // This should evict hash(1) (LRU)
    let evicted = idx.insert(hash(4), vec![dummy_location(4)], 0);
    assert_eq!(evicted.len(), 1);
    assert_eq!(evicted[0], hash(1));
    assert!(!idx.contains(&hash(1)));
    assert!(idx.contains(&hash(4)));
}

#[test]
fn test_touch_prevents_eviction() {
    let mut idx = BlockIndex::new(3);

    idx.insert(hash(1), vec![dummy_location(1)], 0);
    idx.insert(hash(2), vec![dummy_location(2)], 0);
    idx.insert(hash(3), vec![dummy_location(3)], 0);

    // Touch hash(1) — it should no longer be LRU
    idx.lookup(&hash(1));

    // Insert hash(4) — should evict hash(2) (now the LRU)
    let evicted = idx.insert(hash(4), vec![dummy_location(4)], 0);
    assert_eq!(evicted[0], hash(2));
    assert!(idx.contains(&hash(1)));
}

#[test]
fn test_update_existing_no_eviction() {
    let mut idx = BlockIndex::new(2);

    idx.insert(hash(1), vec![dummy_location(1)], 0);
    idx.insert(hash(2), vec![dummy_location(2)], 0);

    // Update hash(1) — should NOT trigger eviction
    let evicted = idx.insert(hash(1), vec![dummy_location(10)], 100);
    assert!(evicted.is_empty());
    assert_eq!(idx.len(), 2);

    let entry = idx.lookup(&hash(1)).unwrap();
    assert_eq!(entry.blocks[0].generation, 10);
}

#[test]
fn index_never_exceeds_capacity() {
    let mut idx = BlockIndex::new(2);
    for i in 0..10u8 {
        idx.insert(hash(i), vec![dummy_location(i as u64)], 0);
        assert!(idx.len() <= 2);
    }
    assert!(idx.contains(&hash(8)));
    assert!(idx.contains(&hash(9)));
    assert!(!idx.contains(&hash(7)));
}

#[test]
fn zero_capacity_index_keeps_only_the_latest() {
    let mut idx = BlockIndex::new(0);
    assert!(idx.insert(hash(1), vec![dummy_location(1)], 0).is_empty());
    let evicted = idx.insert(hash(2), vec![dummy_location(2)], 0);
    assert_eq!(evicted, vec![hash(1)]);
    assert_eq!(idx.len(), 1);
    assert!(!idx.is_empty());
}

#[test]
fn removing_an_absent_hash_is_none() {
    let mut idx = BlockIndex::new(4);
    assert!(idx.remove(&hash(3)).is_none());
    assert!(idx.is_empty());
}
