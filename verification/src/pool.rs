//! A slab pool of fixed-size blocks.
//!
//! The pool owns one contiguous byte region of `total_size` bytes, carved
//! into `total_size / block_size` blocks, and hands blocks out through an
//! O(1) free-list (a stack of block indices).
use vstd::prelude::*;
use vstd::slice::slice_subrange;
use vstd::string::StringExecFns;

use crate::config::{decimal_text, push_decimal};

verus! {

/// Why a pool could not be created.
#[derive(Debug, Clone, Copy, PartialEq, Eq)]
pub enum PoolError {
    /// `total_size` must be a positive multiple of `block_size`.
    InvalidSize { total_size: usize, block_size: usize },
    /// `block_size` must be greater than zero.
    ZeroBlockSize,
}

/// The message reported for a pool that could not be created.
pub open spec fn pool_error_text(e: PoolError) -> Seq<char> {
    match e {
        PoolError::InvalidSize { total_size, block_size } => "total_size ("@ + decimal_text(total_size as nat)
            + ") must be a positive multiple of block_size ("@ + decimal_text(block_size as nat) + ")"@,
        PoolError::ZeroBlockSize => "block_size must be greater than zero"@,
    }
}

impl PoolError {
    /// The message reported for this error.
    pub fn message(&self) -> (m: String)
        ensures
            m@ == pool_error_text(*self),
    {
        match self {
            PoolError::InvalidSize { total_size, block_size } => {
                let mut m = String::from_str("total_size (");
                push_decimal(&mut m, *total_size);
                m.append(") must be a positive multiple of block_size (");
                push_decimal(&mut m, *block_size);
                m.append(")");
                m
            },
            PoolError::ZeroBlockSize => String::from_str("block_size must be greater than zero"),
        }
    }
}

/// Statistics about pool utilization.
#[derive(Debug, Clone, Copy, PartialEq, Eq)]
pub struct PoolStats {
    pub total_blocks: usize,
    pub used_blocks: usize,
    pub free_blocks: usize,
    pub total_bytes: usize,
    pub used_bytes: usize,
}

/// Handle to an allocated block within a [`MemoryPool`].
#[derive(Debug, Clone, Copy, PartialEq, Eq)]
pub struct BlockHandle {
    pub pool_id: u32,
    pub block_index: u32,
    pub offset: usize,
    pub size: usize,
}

/// A slab pool of fixed-size blocks over one owned byte region.
pub struct MemoryPool {
    pool_id: u32,
    memory: Vec<u8>,
    total_size: usize,
    block_size: usize,
    total_blocks: usize,
    /// Free-list implemented as a stack of block indices.
    free_list: Vec<usize>,
}

impl MemoryPool {
    pub closed spec fn spec_pool_id(&self) -> u32 {
        self.pool_id
    }

    pub closed spec fn spec_block_size(&self) -> nat {
        self.block_size as nat
    }

    pub closed spec fn spec_total_size(&self) -> nat {
        self.total_size as nat
    }

    pub closed spec fn spec_total_blocks(&self) -> nat {
        self.total_blocks as nat
    }

    /// The free-list, bottom of the stack first.
    pub closed spec fn free(&self) -> Seq<usize> {
        self.free_list@
    }

    /// The contents of the pool's byte region.
    pub closed spec fn bytes(&self) -> Seq<u8> {
        self.memory@
    }

    pub closed spec fn wf(&self) -> bool {
        &&& self.block_size > 0
        &&& self.total_blocks > 0
        &&& self.total_size == self.total_blocks * self.block_size
        &&& self.memory@.len() == self.total_size
        &&& forall|i: int|
            0 <= i < self.free_list@.len() ==> #[trigger] self.free_list@[i] < self.total_blocks
    }

    /// The bytes of the block that starts at `offset`.
    pub open spec fn block_bytes(&self, offset: int) -> Seq<u8> {
        self.bytes().subrange(offset, offset + self.spec_block_size())
    }

    /// A handle that addresses a whole block of this pool.
    pub open spec fn valid_handle(&self, handle: BlockHandle) -> bool {
        &&& handle.pool_id == self.spec_pool_id()
        &&& handle.offset + self.spec_block_size() <= self.spec_total_size()
    }

    /// The pool's facts about its sizes.
    pub proof fn lemma_wf(&self)
        requires
            self.wf(),
        ensures
            self.spec_block_size() > 0,
            self.spec_total_blocks() > 0,
            self.spec_total_size() == self.spec_total_blocks() * self.spec_block_size(),
            self.bytes().len() == self.spec_total_size(),
            self.spec_total_size() <= usize::MAX,
            forall|i: int|
                0 <= i < self.free().len() ==> #[trigger] self.free()[i] < self.spec_total_blocks(),
    {
    }

    /// Create a new pool with pool id 0; see [`MemoryPool::new_with_id`].
    pub fn new(total_size: usize, block_size: usize) -> (res: Result<Self, PoolError>)
        ensures
            block_size == 0 ==> res == Err::<Self, PoolError>(PoolError::ZeroBlockSize),
            block_size > 0 && (total_size == 0 || total_size % block_size != 0) ==> res == Err::<
                Self,
                PoolError,
            >(PoolError::InvalidSize { total_size, block_size }),
            block_size > 0 && total_size > 0 && total_size % block_size == 0 ==> (res matches Ok(
                pool,
            ) && pool.fresh(0, total_size as nat, block_size as nat)),
    {
        Self::new_with_id(total_size, block_size, 0)
    }

    /// A freshly created pool: all blocks free (the highest index on top of
    /// the stack), all bytes zero.
    pub open spec fn fresh(&self, pool_id: u32, total_size: nat, block_size: nat) -> bool {
        &&& self.wf()
        &&& self.spec_pool_id() == pool_id
        &&& self.spec_block_size() == block_size
        &&& self.spec_total_size() == total_size
        &&& self.spec_total_blocks() == total_size / block_size
        &&& self.free().len() == self.spec_total_blocks()
        &&& forall|i: int| 0 <= i < self.free().len() ==> #[trigger] self.free()[i] == i
        &&& forall|i: int| 0 <= i < self.bytes().len() ==> #[trigger] self.bytes()[i] == 0
    }

    /// Create a new pool of `total_size` bytes carved into blocks of
    /// `block_size` bytes. `total_size` must be a positive multiple of
    /// `block_size`.
    pub fn new_with_id(total_size: usize, block_size: usize, pool_id: u32) -> (res: Result<
        Self,
        PoolError,
    >)
        ensures
            block_size == 0 ==> res == Err::<Self, PoolError>(PoolError::ZeroBlockSize),
            block_size > 0 && (total_size == 0 || total_size % block_size != 0) ==> res == Err::<
                Self,
                PoolError,
            >(PoolError::InvalidSize { total_size, block_size }),
            block_size > 0 && total_size > 0 && total_size % block_size == 0 ==> (res matches Ok(
                pool,
            ) && pool.fresh(pool_id, total_size as nat, block_size as nat)),
    {
        if block_size == 0 {
            return Err(PoolError::ZeroBlockSize);
        }
        if total_size == 0 || total_size % block_size != 0 {
            return Err(PoolError::InvalidSize { total_size, block_size });
        }

        let total_blocks = total_size / block_size;
        assert(total_blocks * block_size == total_size) by (nonlinear_arith)
            requires
                total_size % block_size == 0,
                block_size > 0,
                total_blocks == total_size / block_size,
        ;
        assert(total_blocks > 0) by (nonlinear_arith)
            requires
                total_blocks * block_size == total_size,
                total_size > 0,
        ;

        let memory: Vec<u8> = vec![0u8; total_size];

        // Build the free list with all block indices (0..total_blocks).
        let mut free_list: Vec<usize> = Vec::with_capacity(total_blocks);
        let mut i: usize = 0;
        while i < total_blocks
            invariant
                i <= total_blocks,
                free_list@.len() == i,
                forall|j: int| 0 <= j < i ==> #[trigger] free_list@[j] == j,
            decreases total_blocks - i,
        {
            free_list.push(i);
            i = i + 1;
        }

        let pool = MemoryPool { pool_id, memory, total_size, block_size, total_blocks, free_list };
        assert forall|j: int| 0 <= j < pool.memory@.len() implies #[trigger] pool.memory@[j] == 0 by {}
        Ok(pool)
    }

    /// Allocate a single block: the index on top of the free-list is popped;
    /// `None` if the pool is exhausted.
    pub fn allocate(&mut self) -> (res: Option<BlockHandle>)
        requires
            old(self).wf(),
        ensures
            final(self).wf(),
            final(self).spec_pool_id() == old(self).spec_pool_id(),
            final(self).spec_block_size() == old(self).spec_block_size(),
            final(self).spec_total_blocks() == old(self).spec_total_blocks(),
            final(self).spec_total_size() == old(self).spec_total_size(),
            final(self).bytes() == old(self).bytes(),
            old(self).free().len() == 0 ==> res.is_none() && *final(self) == *old(self),
            old(self).free().len() > 0 ==> {
                let idx = old(self).free().last();
                &&& res == Some(
                    BlockHandle {
                        pool_id: old(self).spec_pool_id(),
                        block_index: idx as u32,
                        offset: (idx * old(self).spec_block_size()) as usize,
                        size: old(self).spec_block_size() as usize,
                    },
                )
                &&& final(self).free() == old(self).free().drop_last()
                &&& idx * old(self).spec_block_size() + old(self).spec_block_size()
                    <= old(self).spec_total_size()
            },
    {
        if self.free_list.len() == 0 {
            return None;
        }
        let block_index = match self.free_list.pop() {
            Some(b) => b,
            None => return None,
        };
        proof {
            let last = old(self).free_list@.len() - 1;
            assert(old(self).free_list@[last] == block_index);
            assert(block_index < self.total_blocks);
            assert(block_index * self.block_size + self.block_size <= self.total_blocks
                * self.block_size) by (nonlinear_arith)
                requires
                    block_index < self.total_blocks,
                    self.block_size > 0,
            ;
        }
        let offset = block_index * self.block_size;
        Some(
            BlockHandle {
                pool_id: self.pool_id,
                block_index: block_index as u32,
                offset,
                size: self.block_size,
            },
        )
    }

    /// Return a block to the pool: its index is pushed onto the free-list.
    ///
    /// The handle must come from this pool and name a block of it.
    /// Deallocating the same handle twice pushes the index twice, so a later
    /// `allocate` may hand the same block out twice: a logic error of the
    /// caller, not of the pool.
    pub fn deallocate(&mut self, handle: BlockHandle)
        requires
            old(self).wf(),
            handle.pool_id == old(self).spec_pool_id(),
            (handle.block_index as usize) < old(self).spec_total_blocks(),
        ensures
            final(self).wf(),
            final(self).spec_pool_id() == old(self).spec_pool_id(),
            final(self).spec_block_size() == old(self).spec_block_size(),
            final(self).spec_total_blocks() == old(self).spec_total_blocks(),
            final(self).spec_total_size() == old(self).spec_total_size(),
            final(self).bytes() == old(self).bytes(),
            final(self).free() == old(self).free().push(handle.block_index as usize),
    {
        self.free_list.push(handle.block_index as usize);
    }

    /// An immutable view of a block's bytes.
    pub fn get_slice(&self, handle: &BlockHandle) -> (s: &[u8])
        requires
            self.wf(),
            self.valid_handle(*handle),
        ensures
            s@ == self.block_bytes(handle.offset as int),
    {
        slice_subrange(self.memory.as_slice(), handle.offset, handle.offset + self.block_size)
    }

    /// Write `data` into a block, starting `at` bytes into it. No other
    /// byte of the pool changes.
    pub fn write_at(&mut self, handle: &BlockHandle, at: usize, data: &[u8])
        requires
            old(self).wf(),
            old(self).valid_handle(*handle),
            at + data@.len() <= old(self).spec_block_size(),
        ensures
            final(self).wf(),
            final(self).spec_pool_id() == old(self).spec_pool_id(),
            final(self).spec_block_size() == old(self).spec_block_size(),
            final(self).spec_total_blocks() == old(self).spec_total_blocks(),
            final(self).spec_total_size() == old(self).spec_total_size(),
            final(self).free() == old(self).free(),
            final(self).bytes().len() == old(self).bytes().len(),
            forall|j: int|
                0 <= j < old(self).bytes().len() ==> #[trigger] final(self).bytes()[j] == if handle.offset
                    + at <= j < handle.offset + at + data@.len() {
                    data@[j - handle.offset - at]
                } else {
                    old(self).bytes()[j]
                },
    {
        let start = handle.offset + at;
        let mut k: usize = 0;
        while k < data.len()
            invariant
                start == handle.offset + at,
                start + data@.len() <= self.memory@.len(),
                k <= data@.len(),
                self.memory@.len() == old(self).memory@.len(),
                self.memory@.len() == self.total_size,
                self.pool_id == old(self).pool_id,
                self.block_size == old(self).block_size,
                self.total_blocks == old(self).total_blocks,
                self.total_size == old(self).total_size,
                self.free_list@ == old(self).free_list@,
                forall|j: int|
                    0 <= j < self.memory@.len() ==> #[trigger] self.memory@[j] == if start <= j < start
                        + k {
                        data@[j - start]
                    } else {
                        old(self).memory@[j]
                    },
            decreases data@.len() - k,
        {
            self.memory.set(start + k, data[k]);
            k = k + 1;
        }
    }

    /// Block size in bytes.
    pub fn block_size(&self) -> (n: usize)
        requires
            self.wf(),
        ensures
            n == self.spec_block_size(),
    {
        self.block_size
    }

    /// Current pool utilization statistics. Used blocks saturate at zero
    /// when the free-list holds more entries than the pool has blocks.
    pub fn stats(&self) -> (st: PoolStats)
        requires
            self.wf(),
        ensures
            st.total_blocks == self.spec_total_blocks(),
            st.free_blocks == self.free().len(),
            st.used_blocks == (if self.free().len() <= self.spec_total_blocks() {
                self.spec_total_blocks() - self.free().len()
            } else {
                0
            }),
            st.total_bytes == self.spec_total_size(),
            st.used_bytes == st.used_blocks * self.spec_block_size(),
    {
        let free_blocks = self.free_list.len();
        let used_blocks = self.total_blocks.saturating_sub(free_blocks);
        assert(used_blocks * self.block_size <= self.total_blocks * self.block_size) by (nonlinear_arith)
            requires
                used_blocks <= self.total_blocks,
        ;
        PoolStats {
            total_blocks: self.total_blocks,
            used_blocks,
            free_blocks,
            total_bytes: self.total_size,
            used_bytes: used_blocks * self.block_size,
        }
    }
}

/// Allocating a block and handing it straight back leaves the free-list as
/// it was.
pub proof fn lemma_allocate_then_deallocate(free: Seq<usize>)
    requires
        free.len() > 0,
    ensures
        free.drop_last().push(free.last()) == free,
{
    assert(free.drop_last().push(free.last()) =~= free);
}

/// The handle that `allocate` hands out next differs from every live
/// handle of the pool: one that addresses a block of it whose index is not
/// on the free-list.
pub proof fn lemma_new_handle_differs_from_live(pool: MemoryPool, live: BlockHandle)
    requires
        pool.wf(),
        pool.free().len() > 0,
        live.pool_id == pool.spec_pool_id(),
        (live.block_index as int) < pool.spec_total_blocks(),
        live.offset == live.block_index * pool.spec_block_size(),
        !pool.free().contains(live.block_index as usize),
    ensures
        ({
            let idx = pool.free().last();
            live != BlockHandle {
                pool_id: pool.spec_pool_id(),
                block_index: idx as u32,
                offset: (idx * pool.spec_block_size()) as usize,
                size: pool.spec_block_size() as usize,
            }
        }),
{
    pool.lemma_wf();
    let idx = pool.free().last();
    let bs = pool.spec_block_size();
    let n = pool.spec_total_blocks();
    let li = live.block_index as int;
    assert(pool.free()[pool.free().len() - 1] == idx);
    assert(idx < n);
    assert(idx != li);
    assert(idx * bs + bs <= n * bs) by (nonlinear_arith)
        requires
            idx < n,
            bs > 0,
    ;
    assert(idx * bs != li * bs) by (nonlinear_arith)
        requires
            idx != li,
            bs > 0,
    ;
}

/// Hands out pool ids: each pool created through it gets the next id
/// (counting from zero, wrapping), so handles of different pools differ in
/// their pool id.
pub struct PoolIds {
    next: u32,
}

impl PoolIds {
    /// The id the next pool will get.
    pub closed spec fn spec_next(&self) -> u32 {
        self.next
    }

    pub fn new() -> (ids: Self)
        ensures
            ids.spec_next() == 0,
    {
        PoolIds { next: 0 }
    }

    /// Create a pool as `MemoryPool::new_with_id` does, under the next id;
    /// the id is used up only when the pool is created.
    pub fn create(&mut self, total_size: usize, block_size: usize) -> (res: Result<MemoryPool, PoolError>)
        ensures
            block_size == 0 ==> res == Err::<MemoryPool, PoolError>(PoolError::ZeroBlockSize),
            block_size > 0 && (total_size == 0 || total_size % block_size != 0) ==> res == Err::<
                MemoryPool,
                PoolError,
            >(PoolError::InvalidSize { total_size, block_size }),
            block_size > 0 && total_size > 0 && total_size % block_size == 0 ==> (res matches Ok(
                pool,
            ) && pool.fresh(old(self).spec_next(), total_size as nat, block_size as nat)),
            res is Ok ==> final(self).spec_next() == (if old(self).spec_next() == u32::MAX {
                0
            } else {
                old(self).spec_next() + 1
            }),
            res is Err ==> final(self).spec_next() == old(self).spec_next(),
    {
        let res = MemoryPool::new_with_id(total_size, block_size, self.next);
        if res.is_ok() {
            self.next = self.next.wrapping_add(1);
        }
        res
    }
}

} // verus!
