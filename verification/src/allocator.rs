//! Slab allocator for fixed-size KV cache blocks.
//!
//! Wraps a [`MemoryPool`] and adds block-level management: header writing,
//! CRC-32C integrity, generation tracking.
use vstd::prelude::*;
use vstd::slice::{slice_subrange, slice_to_vec};

use crate::block::{
    crc32c_of, lemma_crc32c_detects_byte_change, header_bytes, lemma_header_roundtrip, parse_header, BlockHeader, BlockLocation,
};
use crate::pool::{BlockHandle, MemoryPool, PoolStats};

verus! {

/// What a block's bytes hold as data: the bytes after the header, as many
/// as the header's size field says, if they fit in the block and their
/// checksum is the header's.
pub open spec fn stored_data(blk: Seq<u8>) -> Option<Seq<u8>> {
    if blk.len() < 24 {
        None
    } else {
        let h = parse_header(blk);
        if 24 + h.data_size > blk.len() {
            None
        } else {
            let d = blk.subrange(24, 24 + h.data_size as int);
            if crc32c_of(d) == h.crc32 {
                Some(d)
            } else {
                None
            }
        }
    }
}

/// The header written for `data` under generation `gen`.
pub open spec fn written_header(data: Seq<u8>, gen: u64) -> BlockHeader {
    BlockHeader { crc32: crc32c_of(data), generation: gen, data_size: data.len() as u32, reserved: 0 }
}

/// Allocates and manages KV cache blocks from a memory pool.
pub struct BlockAllocator {
    pool: MemoryPool,
    /// Local node ID (used in BlockLocation).
    node_id: u32,
    /// Monotonically increasing generation counter.
    generation: u64,
}

impl BlockAllocator {
    pub closed spec fn spec_pool(&self) -> MemoryPool {
        self.pool
    }

    pub closed spec fn spec_node_id(&self) -> u32 {
        self.node_id
    }

    pub closed spec fn spec_generation(&self) -> u64 {
        self.generation
    }

    pub open spec fn wf(&self) -> bool {
        self.spec_pool().wf()
    }

    /// What the block at `handle` currently holds as data.
    pub open spec fn stored(&self, handle: BlockHandle) -> Option<Seq<u8>> {
        stored_data(self.spec_pool().block_bytes(handle.offset as int))
    }

    /// The block at `handle` holds `data` written under generation `gen`:
    /// header, then the data, then whatever the block held before.
    pub open spec fn holds_written(&self, handle: BlockHandle, gen: u64, data: Seq<u8>) -> bool {
        let blk = self.spec_pool().block_bytes(handle.offset as int);
        &&& blk.len() >= 24 + data.len()
        &&& blk.subrange(0, 24) == header_bytes(written_header(data, gen))
        &&& blk.subrange(24, 24 + data.len() as int) == data
    }

    pub fn new(pool: MemoryPool, node_id: u32) -> (a: Self)
        requires
            pool.wf(),
        ensures
            a.wf(),
            a.spec_pool() == pool,
            a.spec_node_id() == node_id,
            a.spec_generation() == 1,
    {
        Self { pool, node_id, generation: 1 }
    }

    /// Allocate a block and write `data` into it behind a header.
    ///
    /// `None`, with nothing changed, if the data does not fit in a block
    /// after the header or the pool is exhausted. Otherwise the block on top
    /// of the free-list is taken, written under the current generation, and
    /// the generation advances (wrapping).
    pub fn allocate_and_write(&mut self, data: &[u8]) -> (res: Option<(BlockLocation, BlockHandle)>)
        requires
            old(self).wf(),
            old(self).spec_pool().spec_block_size() >= 24,
        ensures
            final(self).wf(),
            final(self).spec_node_id() == old(self).spec_node_id(),
            final(self).spec_pool().spec_pool_id() == old(self).spec_pool().spec_pool_id(),
            final(self).spec_pool().spec_block_size() == old(self).spec_pool().spec_block_size(),
            final(self).spec_pool().spec_total_blocks() == old(self).spec_pool().spec_total_blocks(),
            final(self).spec_pool().spec_total_size() == old(self).spec_pool().spec_total_size(),
            (data@.len() > old(self).spec_pool().spec_block_size() - 24 || old(self).spec_pool().free().len() == 0)
                <==> res.is_none(),
            res.is_none() ==> *final(self) == *old(self),
            res matches Some((loc, handle)) ==> {
                let pool = old(self).spec_pool();
                let idx = pool.free().last();
                let gen = old(self).spec_generation();
                &&& handle == BlockHandle {
                    pool_id: pool.spec_pool_id(),
                    block_index: idx as u32,
                    offset: (idx * pool.spec_block_size()) as usize,
                    size: pool.spec_block_size() as usize,
                }
                &&& loc == BlockLocation {
                    node_id: old(self).spec_node_id(),
                    block_index: handle.block_index,
                    offset: handle.offset as u64,
                    block_size: pool.spec_block_size() as u64,
                    generation: gen,
                }
                &&& idx * pool.spec_block_size() + pool.spec_block_size() <= pool.spec_total_size()
                &&& final(self).spec_pool().free() == pool.free().drop_last()
                &&& final(self).spec_generation() == (if gen == u64::MAX { 0 } else { gen + 1 })
                &&& final(self).spec_pool().valid_handle(handle)
                &&& final(self).holds_written(handle, gen, data@)
                &&& final(self).spec_pool().bytes().len() == pool.bytes().len()
                &&& forall|j: int|
                    0 <= j < pool.bytes().len() && !(handle.offset <= j < handle.offset
                        + pool.spec_block_size()) ==> #[trigger] final(self).spec_pool().bytes()[j]
                        == pool.bytes()[j]
            },
    {
        let max_data = self.pool.block_size() - BlockHeader::SIZE;
        if data.len() > max_data {
            return None;
        }

        let handle = match self.pool.allocate() {
            Some(h) => h,
            None => return None,
        };
        let gen = self.generation;
        self.generation = self.generation.wrapping_add(1);

        // Write header + data into the block.
        let header = BlockHeader::new(data, gen);
        let mut header_buf: Vec<u8> = vec![0u8; 24];
        header.write_to(header_buf.as_mut_slice());
        proof {
            lemma_header_roundtrip(header, Seq::<u8>::empty());
            self.pool.lemma_wf();
        }
        let ghost before = self.pool.bytes();
        self.pool.write_at(&handle, 0, header_buf.as_slice());
        let ghost mid = self.pool.bytes();
        self.pool.write_at(&handle, BlockHeader::SIZE, data);

        proof {
            let bs = self.pool.spec_block_size();
            let off = handle.offset as int;
            let blk = self.pool.block_bytes(off);
            assert(header_buf@.len() == 24);
            assert(header_buf@.subrange(0, 24) == header_buf@);
            assert(header_buf@ =~= header_bytes(header) + Seq::<u8>::empty());
            assert(blk.subrange(0, 24) =~= header_bytes(header)) by {
                assert forall|j: int| 0 <= j < 24 implies blk.subrange(0, 24)[j] == header_bytes(header)[j] by {
                    assert(self.pool.bytes()[off + j] == mid[off + j]);
                    assert(mid[off + j] == header_buf@[j]);
                }
            }
            assert(blk.subrange(24, 24 + data@.len() as int) =~= data@);
        }

        let location = BlockLocation {
            node_id: self.node_id,
            block_index: handle.block_index,
            offset: handle.offset as u64,
            block_size: self.pool.block_size() as u64,
            generation: gen,
        };

        Some((location, handle))
    }

    /// Read the data of a block, verifying its CRC-32C: the data (without
    /// header) if the header fits, its size fits and the checksum matches;
    /// `None` otherwise.
    pub fn read_verified(&self, handle: &BlockHandle) -> (res: Option<Vec<u8>>)
        requires
            self.wf(),
            self.spec_pool().valid_handle(*handle),
        ensures
            match res {
                Some(v) => self.stored(*handle) == Some(v@),
                None => self.stored(*handle).is_none(),
            },
    {
        let block_slice = self.pool.get_slice(handle);
        let header = match BlockHeader::read_from(block_slice) {
            Some(h) => h,
            None => return None,
        };

        let data_start = BlockHeader::SIZE;
        if header.data_size as usize > block_slice.len() - data_start {
            return None;
        }
        let data_end = data_start + header.data_size as usize;
        let data = slice_subrange(block_slice, data_start, data_end);

        if !header.verify(data) {
            return None;
        }

        Some(slice_to_vec(data))
    }

    /// Deallocate a block, returning it to the free pool.
    pub fn deallocate(&mut self, handle: BlockHandle)
        requires
            old(self).wf(),
            handle.pool_id == old(self).spec_pool().spec_pool_id(),
            (handle.block_index as usize) < old(self).spec_pool().spec_total_blocks(),
        ensures
            final(self).wf(),
            final(self).spec_node_id() == old(self).spec_node_id(),
            final(self).spec_generation() == old(self).spec_generation(),
            final(self).spec_pool().spec_pool_id() == old(self).spec_pool().spec_pool_id(),
            final(self).spec_pool().spec_block_size() == old(self).spec_pool().spec_block_size(),
            final(self).spec_pool().spec_total_blocks() == old(self).spec_pool().spec_total_blocks(),
            final(self).spec_pool().spec_total_size() == old(self).spec_pool().spec_total_size(),
            final(self).spec_pool().bytes() == old(self).spec_pool().bytes(),
            final(self).spec_pool().free() == old(self).spec_pool().free().push(
                handle.block_index as usize,
            ),
    {
        self.pool.deallocate(handle);
    }

    /// Pool statistics.
    pub fn stats(&self) -> (st: PoolStats)
        requires
            self.wf(),
        ensures
            st.total_blocks == self.spec_pool().spec_total_blocks(),
            st.free_blocks == self.spec_pool().free().len(),
            st.used_blocks == (if self.spec_pool().free().len()
                <= self.spec_pool().spec_total_blocks() {
                self.spec_pool().spec_total_blocks() - self.spec_pool().free().len()
            } else {
                0
            }),
            st.total_bytes == self.spec_pool().spec_total_size(),
            st.used_bytes == st.used_blocks * self.spec_pool().spec_block_size(),
    {
        self.pool.stats()
    }

    /// Current generation counter value.
    pub fn current_generation(&self) -> (g: u64)
        ensures
            g == self.spec_generation(),
    {
        self.generation
    }
}

/// Reading a block back gives the data last written into it, provided its
/// length fits the header's 32-bit size field.
pub proof fn lemma_read_after_write(a: BlockAllocator, handle: BlockHandle, gen: u64, data: Seq<u8>)
    requires
        a.wf(),
        a.spec_pool().valid_handle(handle),
        a.holds_written(handle, gen, data),
        data.len() <= u32::MAX,
    ensures
        a.stored(handle) == Some(data),
{
    let blk = a.spec_pool().block_bytes(handle.offset as int);
    let h = written_header(data, gen);
    lemma_header_roundtrip(h, blk.subrange(24, blk.len() as int));
    assert(blk =~= header_bytes(h) + blk.subrange(24, blk.len() as int)) by {
        assert(blk.subrange(0, 24) == header_bytes(h));
        assert forall|j: int| 0 <= j < blk.len() implies blk[j] == (header_bytes(h) + blk.subrange(
            24,
            blk.len() as int,
        ))[j] by {
            if j < 24 {
                assert(blk[j] == blk.subrange(0, 24)[j]);
            }
        }
    }
    assert(parse_header(blk) == h);
    assert(blk.subrange(24, 24 + data.len() as int) == data);
}

/// A block whose data no longer matches its header is not read back: if
/// the bytes after a header written for `data` hold `data` with any one
/// byte changed, reading the block gives nothing; if they hold `data`
/// unchanged, reading gives `data`.
pub proof fn lemma_changed_byte_is_not_read(data: Seq<u8>, gen: u64, found: Seq<u8>, rest: Seq<u8>, i: int)
    requires
        data.len() <= u32::MAX,
        found.len() == data.len(),
        0 <= i < data.len(),
        found[i] != data[i],
        forall|j: int| 0 <= j < data.len() && j != i ==> found[j] == data[j],
    ensures
        stored_data(header_bytes(written_header(data, gen)) + found + rest) is None,
        stored_data(header_bytes(written_header(data, gen)) + data + rest) == Some(data),
{
    let h = written_header(data, gen);
    let blk1 = header_bytes(h) + found + rest;
    let blk2 = header_bytes(h) + data + rest;
    lemma_header_roundtrip(h, found + rest);
    lemma_header_roundtrip(h, data + rest);
    assert(blk1 =~= header_bytes(h) + (found + rest));
    assert(blk2 =~= header_bytes(h) + (data + rest));
    assert(blk1.subrange(24, 24 + data.len() as int) =~= found);
    assert(blk2.subrange(24, 24 + data.len() as int) =~= data);
    lemma_crc32c_detects_byte_change(data, found, i);
}

/// Writing one block leaves the data of every block whose bytes it does
/// not share unchanged.
pub proof fn lemma_other_blocks_unchanged(pre: BlockAllocator, post: BlockAllocator, written: BlockHandle, other: BlockHandle)
    requires
        pre.wf(),
        post.wf(),
        post.spec_pool().spec_block_size() == pre.spec_pool().spec_block_size(),
        post.spec_pool().bytes().len() == pre.spec_pool().bytes().len(),
        pre.spec_pool().valid_handle(other),
        forall|j: int|
            0 <= j < pre.spec_pool().bytes().len() && !(written.offset <= j < written.offset
                + pre.spec_pool().spec_block_size()) ==> #[trigger] post.spec_pool().bytes()[j]
                == pre.spec_pool().bytes()[j],
        other.offset + pre.spec_pool().spec_block_size() <= written.offset
            || written.offset + pre.spec_pool().spec_block_size() <= other.offset,
    ensures
        post.stored(other) == pre.stored(other),
{
    pre.spec_pool().lemma_wf();
    post.spec_pool().lemma_wf();
    let bs = pre.spec_pool().spec_block_size();
    let off = other.offset as int;
    assert(post.spec_pool().block_bytes(off) =~= pre.spec_pool().block_bytes(off)) by {
        assert forall|j: int| 0 <= j < bs implies post.spec_pool().block_bytes(off)[j]
            == pre.spec_pool().block_bytes(off)[j] by {
            assert(post.spec_pool().bytes()[off + j] == pre.spec_pool().bytes()[off + j]);
        }
    }
}

} // verus!
