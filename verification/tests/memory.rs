use cmx_rdma::gpu::register_gpu_memory;
use cmx_rdma::numa::{numa_node_of_cpu, preferred_numa_node};
use cmx_rdma::pool::{MemoryPool, PoolError};

const BLOCK_SIZE: usize = 4096;
const NUM_BLOCKS: usize = 4;
const TOTAL_SIZE: usize = BLOCK_SIZE * NUM_BLOCKS;

#[test]
fn allocate_deallocate_cycle() {
    let mut pool = MemoryPool::new(TOTAL_SIZE, BLOCK_SIZE).unwrap();

    let handle = pool.allocate().expect("should allocate");
    assert_eq!(handle.size, BLOCK_SIZE);

    let stats = pool.stats();
    assert_eq!(stats.used_blocks, 1);
    assert_eq!(stats.free_blocks, NUM_BLOCKS - 1);

    pool.deallocate(handle);

    let stats = pool.stats();
    assert_eq!(stats.used_blocks, 0);
    assert_eq!(stats.free_blocks, NUM_BLOCKS);
}

#[test]
fn pool_exhaustion_returns_none() {
    let mut pool = MemoryPool::new(TOTAL_SIZE, BLOCK_SIZE).unwrap();

    let mut handles = Vec::new();
    for _ in 0..NUM_BLOCKS {
        handles.push(pool.allocate().expect("should allocate"));
    }

    assert!(pool.allocate().is_none(), "pool should be exhausted");

    // Deallocate one and verify we can allocate again.
    pool.deallocate(handles.pop().unwrap());
    assert!(pool.allocate().is_some(), "should allocate after dealloc");
}

#[test]
fn double_deallocate_is_safe() {
    // Double-deallocate pushes the same index twice onto the free list.
    // This is a logic error but must not cause UB or a panic.
    let mut pool = MemoryPool::new(TOTAL_SIZE, BLOCK_SIZE).unwrap();

    let handle = pool.allocate().unwrap();
    pool.deallocate(handle);
    pool.deallocate(handle); // second dealloc -- same handle

    let stats = pool.stats();
    // free_blocks can exceed total_blocks after a double-free;
    // used_blocks saturates at 0 instead of underflowing.
    assert_eq!(stats.free_blocks, NUM_BLOCKS + 1);
    assert_eq!(stats.used_blocks, 0);
}

#[test]
fn read_write_through_block_handles() {
    let mut pool = MemoryPool::new(TOTAL_SIZE, BLOCK_SIZE).unwrap();

    let handle = pool.allocate().unwrap();

    // Write a pattern.
    let pattern: Vec<u8> = (0..BLOCK_SIZE).map(|i| (i % 256) as u8).collect();
    pool.write_at(&handle, 0, &pattern);

    // Read it back.
    let slice = pool.get_slice(&handle);
    for (i, &byte) in slice.iter().enumerate() {
        assert_eq!(byte, (i % 256) as u8);
    }

    pool.deallocate(handle);
}

#[test]
fn stats_accuracy() {
    let mut pool = MemoryPool::new(TOTAL_SIZE, BLOCK_SIZE).unwrap();

    let stats = pool.stats();
    assert_eq!(stats.total_blocks, NUM_BLOCKS);
    assert_eq!(stats.used_blocks, 0);
    assert_eq!(stats.free_blocks, NUM_BLOCKS);
    assert_eq!(stats.total_bytes, TOTAL_SIZE);
    assert_eq!(stats.used_bytes, 0);

    let h1 = pool.allocate().unwrap();
    let h2 = pool.allocate().unwrap();

    let stats = pool.stats();
    assert_eq!(stats.used_blocks, 2);
    assert_eq!(stats.used_bytes, 2 * BLOCK_SIZE);

    pool.deallocate(h1);
    pool.deallocate(h2);
}

#[test]
fn zero_block_size_is_error() {
    assert!(MemoryPool::new(4096, 0).is_err());
}

#[test]
fn misaligned_total_size_is_error() {
    assert!(MemoryPool::new(4097, 4096).is_err());
}

#[test]
fn zero_total_size_is_error() {
    assert!(MemoryPool::new(0, 4096).is_err());
}

#[test]
fn blocks_have_distinct_memory() {
    let mut pool = MemoryPool::new(TOTAL_SIZE, BLOCK_SIZE).unwrap();

    let h1 = pool.allocate().unwrap();
    let h2 = pool.allocate().unwrap();

    // Write different patterns.
    pool.write_at(&h1, 0, &vec![0xAA; BLOCK_SIZE]);
    pool.write_at(&h2, 0, &vec![0xBB; BLOCK_SIZE]);

    // Verify they didn't interfere.
    assert!(pool.get_slice(&h1).iter().all(|&b| b == 0xAA));
    assert!(pool.get_slice(&h2).iter().all(|&b| b == 0xBB));

    pool.deallocate(h1);
    pool.deallocate(h2);
}

#[test]
fn pool_errors_name_the_problem() {
    assert!(matches!(MemoryPool::new(4096, 0), Err(PoolError::ZeroBlockSize)));
    assert!(matches!(
        MemoryPool::new(4097, 4096),
        Err(PoolError::InvalidSize { total_size: 4097, block_size: 4096 })
    ));
    assert!(matches!(
        MemoryPool::new(0, 4096),
        Err(PoolError::InvalidSize { total_size: 0, block_size: 4096 })
    ));
}

#[test]
fn handles_come_from_the_top_of_the_free_list() {
    let mut pool = MemoryPool::new_with_id(4 * 64, 64, 9).unwrap();
    let h = pool.allocate().unwrap();
    assert_eq!(h.pool_id, 9);
    assert_eq!(h.block_index, 3);
    assert_eq!(h.offset, 192);
    let h2 = pool.allocate().unwrap();
    assert_eq!(h2.block_index, 2);
    pool.deallocate(h);
    assert_eq!(pool.allocate().unwrap().block_index, 3);
    assert_eq!(pool.block_size(), 64);
}

#[test]
fn fresh_pool_is_zeroed_and_writes_stay_in_place() {
    let mut pool = MemoryPool::new(2 * 32, 32).unwrap();
    let h1 = pool.allocate().unwrap();
    let h2 = pool.allocate().unwrap();
    assert!(pool.get_slice(&h1).iter().all(|&b| b == 0));
    pool.write_at(&h1, 30, &[7, 8]);
    let s = pool.get_slice(&h1);
    assert_eq!(s.len(), 32);
    assert_eq!(&s[30..], &[7, 8]);
    assert!(s[..30].iter().all(|&b| b == 0));
    assert!(pool.get_slice(&h2).iter().all(|&b| b == 0));
}

#[test]
fn live_handles_track_used_blocks() {
    let mut pool = MemoryPool::new(16 * 128, 128).unwrap();
    let mut live = Vec::new();
    let ops = [true, true, false, true, true, true, false, false, true];
    for &alloc in ops.iter() {
        if alloc {
            if let Some(h) = pool.allocate() {
                live.push(h);
            }
        } else if let Some(h) = live.pop() {
            pool.deallocate(h);
        }
    }
    let stats = pool.stats();
    assert_eq!(stats.used_blocks, live.len());
    assert_eq!(stats.free_blocks, 16 - live.len());
}

#[test]
fn numa_and_gpu_stubs() {
    assert_eq!(numa_node_of_cpu(0), 0);
    assert_eq!(numa_node_of_cpu(63), 0);
    assert_eq!(preferred_numa_node(), 0);
    assert!(register_gpu_memory(0, 0x1000, 4096).is_ok());
}

#[test]
fn pool_error_messages() {
    assert_eq!(PoolError::ZeroBlockSize.message(), "block_size must be greater than zero");
    assert_eq!(
        PoolError::InvalidSize { total_size: 4097, block_size: 4096 }.message(),
        "total_size (4097) must be a positive multiple of block_size (4096)"
    );
}

#[test]
fn pools_get_distinct_ids() {
    let mut ids = cmx_rdma::pool::PoolIds::new();
    let mut a = ids.create(4 * 64, 64).unwrap();
    assert!(ids.create(0, 64).is_err());
    let mut b = ids.create(4 * 64, 64).unwrap();
    assert_eq!(a.allocate().unwrap().pool_id, 0);
    assert_eq!(b.allocate().unwrap().pool_id, 1);
}

#[test]
fn a_new_handle_differs_from_every_live_handle() {
    let mut pool = MemoryPool::new(8 * 64, 64).unwrap();
    let mut live = Vec::new();
    for _ in 0..5 {
        live.push(pool.allocate().unwrap());
    }
    pool.deallocate(live.remove(2));
    let fresh = pool.allocate().unwrap();
    for h in &live {
        assert_ne!(fresh, *h);
        assert_ne!(fresh.offset, h.offset);
    }
}
