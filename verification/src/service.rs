//! The cache service's request handling, apart from the transport that
//! carries requests and replies: lookup (local index, then remote index),
//! batch lookup, store, get, delete and statistics.
//!
//! Requests name a prefix hash by 16 raw bytes, optionally qualified by a
//! model id: the index key is then the first 16 bytes of the SHA-256 digest
//! of the model id followed by the prefix hash.
use vstd::prelude::*;
use vstd::utf8::encode_utf8;

use crate::allocator::{lemma_read_after_write, BlockAllocator};
use crate::block::BlockLocation;
use crate::digest::{sha256, sha256_of};
use crate::index::{BlockIndex, IndexEntry};
use crate::pool::{BlockHandle, PoolStats};
use crate::prefix::PrefixHash;
use crate::remote_index::{RemoteBlockInfo, RemoteIndex};

verus! {

/// Pressure levels.
pub const PRESSURE_NORMAL: u8 = 0;

pub const PRESSURE_WARN: u8 = 1;

pub const PRESSURE_CRITICAL: u8 = 2;

pub const PRESSURE_REJECT: u8 = 3;

/// Why a request failed.
#[derive(Debug, Clone, Copy, PartialEq, Eq)]
pub enum ServiceError {
    /// The prefix hash is not exactly 16 bytes (invalid argument).
    InvalidPrefixHash,
    /// A store stream did not open with a header (invalid argument).
    FirstMessageNotHeader,
    /// A store stream was empty (invalid argument).
    EmptyStream,
    /// A store stream carried a second header (invalid argument).
    UnexpectedHeader,
    /// Memory pressure is at the reject level (resource exhausted).
    PressureTooHigh,
    /// No block could be allocated for a store (resource exhausted).
    PoolExhausted,
    /// The prefix hash is not in the cache (not found).
    NotFound,
    /// A block failed its CRC-32C check (data loss).
    DataLoss,
}

/// A block location as replies carry it.
#[derive(Debug, Clone)]
pub struct WireBlockLocation {
    pub node_id: String,
    pub offset: u64,
    pub size: u64,
    pub generation_id: u64,
}

impl View for WireBlockLocation {
    type V = (Seq<char>, u64, u64, u64);

    open spec fn view(&self) -> (Seq<char>, u64, u64, u64) {
        (self.node_id@, self.offset, self.size, self.generation_id)
    }
}

/// Reply to a lookup.
pub struct LookupReply {
    pub found: bool,
    pub blocks: Vec<WireBlockLocation>,
    pub is_local: bool,
}

/// Reply to a batch lookup.
pub struct BatchLookupReply {
    pub found: Vec<bool>,
    pub blocks: Vec<WireBlockLocation>,
}

/// Reply to a store.
pub struct StoreReply {
    pub success: bool,
    pub error_message: String,
    pub generation_id: u64,
}

/// A stored block's location, for publishing to the metadata registry.
pub struct PublishRecord {
    pub index_key: PrefixHash,
    pub offset: u64,
    pub size: u64,
    pub generation: u64,
}

/// The header of a get reply stream.
pub struct GetHeaderInfo {
    pub total_size: u64,
    pub num_blocks: u32,
    pub generation_id: u64,
}

/// What a get sends: the header, the data of the blocks in order, and
/// whether a block failed its check (the stream then ends with an error
/// after the blocks before it).
pub struct GetReply {
    pub header: GetHeaderInfo,
    pub chunks: Vec<Vec<u8>>,
    pub data_loss: bool,
}

/// Reply to a delete.
pub struct DeleteReply {
    pub success: bool,
    pub blocks_freed: u64,
}

/// Reply to a stats request.
pub struct StatsReply {
    pub total_blocks: u64,
    pub used_blocks: u64,
    pub cache_hits: u64,
    pub cache_misses: u64,
    pub evictions: u64,
    pub memory_used_bytes: u64,
    pub memory_total_bytes: u64,
}

/// One message of a store stream.
pub enum StorePayload {
    Header { prefix_hash: Vec<u8>, model_id: String, total_size: u64 },
    Data(Vec<u8>),
}

/// `n` added to a 64-bit counter, wrapping.
pub open spec fn wrap_add(h: u64, n: nat) -> u64 {
    ((h + n) % 0x1_0000_0000_0000_0000) as u64
}

proof fn lemma_wrap_add_step(h: u64, n: nat)
    ensures
        wrap_add(h, 0) == h,
        wrap_add(h, n + 1) == (if wrap_add(h, n) == u64::MAX { 0 } else { wrap_add(h, n) + 1 }),
{
    let m: int = 0x1_0000_0000_0000_0000;
    vstd::arithmetic::div_mod::lemma_small_mod(h as nat, m as nat);
    vstd::arithmetic::div_mod::lemma_add_mod_noop(h + n, 1, m);
    vstd::arithmetic::div_mod::lemma_small_mod(1, m as nat);
    vstd::arithmetic::div_mod::lemma_mod_bound(h + n, m);
    if (h + n) % m + 1 == m {
        vstd::arithmetic::div_mod::lemma_mod_self_0(m);
    } else {
        vstd::arithmetic::div_mod::lemma_small_mod(((h + n) % m + 1) as nat, m as nat);
    }
}

/// The 16-byte prefix hash spelled by `b` (meaningful when `b` has 16 bytes).
pub open spec fn hash_from_bytes(b: Seq<u8>) -> PrefixHash {
    choose|h: PrefixHash| h@ == b
}

/// The bytes of the index key for a prefix hash under a model id.
pub open spec fn composite_bytes(model: Seq<char>, h: Seq<u8>) -> Seq<u8> {
    if model.len() == 0 {
        h
    } else {
        sha256_of(encode_utf8(model) + h).subrange(0, 16)
    }
}

/// The index key for prefix-hash bytes `h` under a model id.
pub open spec fn index_key_of(model: Seq<char>, h: Seq<u8>) -> PrefixHash {
    hash_from_bytes(composite_bytes(model, h))
}

proof fn lemma_hash_from_bytes(h: PrefixHash)
    ensures
        hash_from_bytes(h@) == h,
{
    let c = hash_from_bytes(h@);
    assert(exists|x: PrefixHash| x@ == h@);
    assert(c@ == h@);
    assert(c =~= h);
}

/// Parse a 16-byte prefix hash.
pub fn parse_prefix_hash(bytes: &[u8]) -> (r: Result<PrefixHash, ServiceError>)
    ensures
        bytes@.len() == 16 ==> r == Ok::<PrefixHash, ServiceError>(hash_from_bytes(bytes@)),
        r matches Ok(h) ==> h@ == bytes@,
        bytes@.len() != 16 ==> r == Err::<PrefixHash, ServiceError>(ServiceError::InvalidPrefixHash),
{
    if bytes.len() != 16 {
        return Err(ServiceError::InvalidPrefixHash);
    }
    let mut h: PrefixHash = [0u8; 16];
    let mut i: usize = 0;
    while i < 16
        invariant
            bytes@.len() == 16,
            i <= 16,
            forall|j: int| 0 <= j < i ==> #[trigger] h@[j] == bytes@[j],
        decreases 16 - i,
    {
        h[i] = bytes[i];
        i = i + 1;
    }
    assert(h@ =~= bytes@);
    proof {
        lemma_hash_from_bytes(h);
    }
    Ok(h)
}

/// Build the index key from model id + prefix hash. An empty model id
/// keys by the prefix hash itself.
pub fn composite_key(model_id: &str, prefix_hash: &PrefixHash) -> (k: PrefixHash)
    ensures
        k == index_key_of(model_id@, prefix_hash@),
        k@ == composite_bytes(model_id@, prefix_hash@),
{
    if model_id.is_empty() {
        proof {
            lemma_hash_from_bytes(*prefix_hash);
        }
        return *prefix_hash;
    }
    let name = model_id.as_bytes();
    let mut buf: Vec<u8> = Vec::new();
    let mut i: usize = 0;
    while i < name.len()
        invariant
            i <= name@.len(),
            buf@ == name@.subrange(0, i as int),
        decreases name@.len() - i,
    {
        buf.push(name[i]);
        i = i + 1;
        assert(buf@ =~= name@.subrange(0, i as int));
    }
    let mut j: usize = 0;
    while j < 16
        invariant
            j <= 16,
            buf@ == name@ + prefix_hash@.subrange(0, j as int),
        decreases 16 - j,
    {
        buf.push(prefix_hash[j]);
        j = j + 1;
        assert(buf@ =~= name@ + prefix_hash@.subrange(0, j as int));
    }
    assert(prefix_hash@.subrange(0, 16) =~= prefix_hash@);
    assert(name@ == encode_utf8(model_id@));
    let digest = sha256(buf.as_slice());
    let key = key_from_digest(digest.as_slice());
    proof {
        lemma_hash_from_bytes(key);
    }
    key
}

/// The index key that a digest gives: its first 16 bytes.
pub fn key_from_digest(digest: &[u8]) -> (k: PrefixHash)
    requires
        digest@.len() >= 16,
    ensures
        k@ == digest@.subrange(0, 16),
{
    let mut key: PrefixHash = [0u8; 16];
    let mut t: usize = 0;
    while t < 16
        invariant
            t <= 16,
            digest@.len() >= 16,
            forall|x: int| 0 <= x < t ==> #[trigger] key@[x] == digest@[x],
        decreases 16 - t,
    {
        key[t] = digest[t];
        t = t + 1;
    }
    assert(key@ =~= digest@.subrange(0, 16));
    key
}

/// Refuse a store at the reject pressure level.
pub fn admit_store(pressure: u8) -> (r: Result<(), ServiceError>)
    ensures
        pressure >= PRESSURE_REJECT ==> r == Err::<(), ServiceError>(ServiceError::PressureTooHigh),
        pressure < PRESSURE_REJECT ==> r == Ok::<(), ServiceError>(()),
{
    if pressure >= PRESSURE_REJECT {
        Err(ServiceError::PressureTooHigh)
    } else {
        Ok(())
    }
}

/// The handle that a stored location names in the local pool.
pub open spec fn handle_of(loc: BlockLocation) -> BlockHandle {
    BlockHandle {
        pool_id: 0,
        block_index: loc.block_index,
        offset: loc.offset as usize,
        size: loc.block_size as usize,
    }
}

/// The wire form of local block locations, tagged with this node's id.
pub open spec fn local_wire(node: Seq<char>, blocks: Seq<BlockLocation>) -> Seq<(Seq<char>, u64, u64, u64)> {
    blocks.map_values(|b: BlockLocation| (node, b.offset, b.block_size, b.generation))
}

/// The wire form of a remote block record.
pub open spec fn remote_wire(info: RemoteBlockInfo) -> (Seq<char>, u64, u64, u64) {
    (info.node_id@, info.offset, info.size, info.generation)
}

/// The views of a list of wire locations.
pub open spec fn wire_views(v: Seq<WireBlockLocation>) -> Seq<(Seq<char>, u64, u64, u64)> {
    v.map_values(|w: WireBlockLocation| w@)
}

/// The recency list after looking up `keys` in order: each hit moves to
/// the front.
pub open spec fn touched(r: Seq<PrefixHash>, keys: Seq<PrefixHash>, entries: Map<PrefixHash, (Seq<BlockLocation>, u64)>) -> Seq<PrefixHash>
    decreases keys.len(),
{
    if keys.len() == 0 {
        r
    } else {
        let r1 = touched(r, keys.drop_last(), entries);
        if entries.contains_key(keys.last()) {
            seq![keys.last()] + r1.remove_value(keys.last())
        } else {
            r1
        }
    }
}

/// How many of `keys` are hits.
pub open spec fn hit_count(keys: Seq<PrefixHash>, entries: Map<PrefixHash, (Seq<BlockLocation>, u64)>) -> nat
    decreases keys.len(),
{
    if keys.len() == 0 {
        0
    } else {
        hit_count(keys.drop_last(), entries) + if entries.contains_key(keys.last()) {
            1nat
        } else {
            0nat
        }
    }
}

/// The wire locations a batch lookup of `keys` returns: those of each hit, in order.
pub open spec fn batch_wire(node: Seq<char>, keys: Seq<PrefixHash>, entries: Map<PrefixHash, (Seq<BlockLocation>, u64)>) -> Seq<(Seq<char>, u64, u64, u64)>
    decreases keys.len(),
{
    if keys.len() == 0 {
        Seq::empty()
    } else {
        batch_wire(node, keys.drop_last(), entries) + if entries.contains_key(keys.last()) {
            local_wire(node, entries[keys.last()].0)
        } else {
            Seq::empty()
        }
    }
}

/// The index keys of a batch's raw prefix hashes.
pub open spec fn batch_keys(model: Seq<char>, raws: Seq<Seq<u8>>) -> Seq<PrefixHash> {
    raws.map_values(|r: Seq<u8>| index_key_of(model, r))
}

/// The position of the first raw prefix hash that is not 16 bytes long,
/// or the batch's length.
pub open spec fn first_bad(raws: Seq<Seq<u8>>) -> int
    decreases raws.len(),
{
    if raws.len() == 0 {
        0
    } else if raws[0].len() != 16 {
        0
    } else {
        1 + first_bad(raws.drop_first())
    }
}

proof fn lemma_first_bad(raws: Seq<Seq<u8>>, k: int)
    requires
        0 <= k <= raws.len(),
        forall|j: int| 0 <= j < k ==> #[trigger] raws[j].len() == 16,
        k < raws.len() ==> raws[k].len() != 16,
    ensures
        first_bad(raws) == k,
    decreases k,
{
    if k > 0 {
        let t = raws.drop_first();
        assert forall|j: int| 0 <= j < k - 1 implies #[trigger] t[j].len() == 16 by {
            assert(t[j] == raws[j + 1]);
        }
        if k < raws.len() {
            assert(t[k - 1] == raws[k]);
        }
        lemma_first_bad(t, k - 1);
    }
}

/// The local node's request handler: allocator, local index, optional
/// remote index, and counters.
pub struct CacheCore {
    allocator: BlockAllocator,
    index: BlockIndex,
    remote_index: Option<RemoteIndex>,
    node_id: String,
    cache_hits: u64,
    cache_misses: u64,
    evictions: u64,
}

/// The block number a location names.
pub open spec fn block_of(loc: BlockLocation) -> usize {
    loc.block_index as usize
}

/// A location that names a whole block of the local pool.
pub open spec fn location_valid(a: BlockAllocator, loc: BlockLocation) -> bool {
    &&& (loc.block_index as nat) < a.spec_pool().spec_total_blocks()
    &&& loc.offset == loc.block_index * a.spec_pool().spec_block_size()
    &&& loc.offset + a.spec_pool().spec_block_size() <= a.spec_pool().spec_total_size()
    &&& loc.block_size == a.spec_pool().spec_block_size()
}

/// The entries of an index, as the cache reads them.
pub type Entries = Map<PrefixHash, (Seq<BlockLocation>, u64)>;

/// An allocator and an index that a cache can work with: both well formed;
/// the local pool (id 0), with room for a header in each block and block
/// numbers that fit the locations' 32-bit field; the free-list names each
/// block once; every block of every indexed entry is a whole block of the
/// pool, not on the free-list, and no block belongs to two entries or
/// twice to one.
pub open spec fn consistent(a: BlockAllocator, idx: BlockIndex) -> bool {
    let pool = a.spec_pool();
    let e = idx.entries();
    &&& a.wf()
    &&& idx.wf()
    &&& pool.spec_pool_id() == 0
    &&& pool.spec_block_size() >= 24
    &&& pool.spec_total_blocks() <= 0x1_0000_0000
    &&& pool.free().no_duplicates()
    &&& forall|k: PrefixHash, i: int|
        e.contains_key(k) && 0 <= i < e[k].0.len() ==> {
            &&& location_valid(a, #[trigger] e[k].0[i])
            &&& !pool.free().contains(block_of(e[k].0[i]))
        }
    &&& blocks_distinct(e)
}

/// No block belongs to two entries of `e`, or twice to one.
pub open spec fn blocks_distinct(e: Entries) -> bool {
    forall|k1: PrefixHash, i1: int, k2: PrefixHash, i2: int|
        e.contains_key(k1) && e.contains_key(k2) && 0 <= i1 < e[k1].0.len() && 0 <= i2 < e[k2].0.len() && (k1
            != k2 || i1 != i2) ==> block_of(#[trigger] e[k1].0[i1]) != block_of(#[trigger] e[k2].0[i2])
}

/// The block numbers of an entry's locations, in order.
pub open spec fn entry_blocks(blocks: Seq<BlockLocation>) -> Seq<usize> {
    blocks.map_values(|l: BlockLocation| block_of(l))
}

/// The blocks of the entries `evicted`, entry after entry, each in order.
pub open spec fn freed_blocks(e: Entries, evicted: Seq<PrefixHash>) -> Seq<usize>
    decreases evicted.len(),
{
    if evicted.len() == 0 {
        Seq::empty()
    } else {
        freed_blocks(e, evicted.drop_last()) + entry_blocks(e[evicted.last()].0)
    }
}

/// Block `b` is a block of one of the entries `evicted`.
pub open spec fn from_evicted(e: Entries, evicted: Seq<PrefixHash>, b: usize) -> bool {
    exists|t: int, i: int|
        0 <= t < evicted.len() && 0 <= i < e[evicted[t]].0.len() && b == block_of(#[trigger] e[evicted[t]].0[i])
}

/// The blocks freed for distinct evicted entries are exactly their blocks,
/// each once: every freed block is a block of one of them, and every block
/// of each of them is freed.
pub proof fn lemma_freed_blocks(e: Entries, ev: Seq<PrefixHash>)
    requires
        forall|t: int| 0 <= t < ev.len() ==> e.contains_key(#[trigger] ev[t]),
        ev.no_duplicates(),
        blocks_distinct(e),
    ensures
        freed_blocks(e, ev).no_duplicates(),
        forall|x: int| 0 <= x < freed_blocks(e, ev).len() ==> from_evicted(e, ev, #[trigger] freed_blocks(e, ev)[x]),
        forall|t: int, i: int|
            0 <= t < ev.len() && 0 <= i < e[ev[t]].0.len() ==> freed_blocks(e, ev).contains(
                block_of(#[trigger] e[ev[t]].0[i]),
            ),
    decreases ev.len(),
{
    if ev.len() > 0 {
        let ev1 = ev.drop_last();
        let last = ev.last();
        let n = ev.len() - 1;
        assert forall|t: int| 0 <= t < ev1.len() implies e.contains_key(#[trigger] ev1[t]) by {
            assert(ev1[t] == ev[t]);
        }
        assert(ev1.no_duplicates()) by {
            assert forall|x: int, y: int| 0 <= x < y < ev1.len() implies ev1[x] != ev1[y] by {
                assert(ev1[x] == ev[x] && ev1[y] == ev[y]);
            }
        }
        lemma_freed_blocks(e, ev1);
        let f1 = freed_blocks(e, ev1);
        let eb = entry_blocks(e[last].0);
        let fr = freed_blocks(e, ev);
        assert(fr == f1 + eb);
        assert(e.contains_key(ev[n]));
        assert forall|x: int| 0 <= x < fr.len() implies from_evicted(e, ev, #[trigger] fr[x]) by {
            if x < f1.len() {
                assert(fr[x] == f1[x]);
                assert(from_evicted(e, ev1, f1[x]));
                let (t, i) = choose|t: int, i: int|
                    0 <= t < ev1.len() && 0 <= i < e[ev1[t]].0.len() && f1[x] == block_of(#[trigger] e[ev1[t]].0[i]);
                assert(ev1[t] == ev[t]);
                assert(fr[x] == block_of(e[ev[t]].0[i]));
            } else {
                let i = x - f1.len();
                assert(fr[x] == eb[i]);
                assert(eb[i] == block_of(e[ev[n]].0[i]));
            }
        }
        assert forall|t: int, i: int| 0 <= t < ev.len() && 0 <= i < e[ev[t]].0.len() implies fr.contains(
            block_of(#[trigger] e[ev[t]].0[i]),
        ) by {
            if t < n {
                assert(ev1[t] == ev[t]);
                assert(f1.contains(block_of(e[ev1[t]].0[i])));
                let x = choose|x: int| 0 <= x < f1.len() && f1[x] == block_of(e[ev1[t]].0[i]);
                assert(fr[x] == f1[x]);
            } else {
                assert(fr[f1.len() + i] == eb[i]);
            }
        }
        assert forall|x: int, y: int| 0 <= x < y < fr.len() implies fr[x] != fr[y] by {
            if y < f1.len() {
                assert(fr[x] == f1[x] && fr[y] == f1[y]);
            } else if x >= f1.len() {
                let i1 = x - f1.len();
                let i2 = y - f1.len();
                assert(fr[x] == eb[i1] && fr[y] == eb[i2]);
                assert(eb[i1] == block_of(e[last].0[i1]));
                assert(eb[i2] == block_of(e[last].0[i2]));
            } else {
                let i2 = y - f1.len();
                assert(fr[x] == f1[x] && fr[y] == eb[i2]);
                assert(from_evicted(e, ev1, f1[x]));
                let (t, i) = choose|t: int, i: int|
                    0 <= t < ev1.len() && 0 <= i < e[ev1[t]].0.len() && f1[x] == block_of(#[trigger] e[ev1[t]].0[i]);
                assert(ev1[t] == ev[t]);
                assert(ev[t] != ev[n]);
                assert(e.contains_key(ev[t]));
                assert(eb[i2] == block_of(e[last].0[i2]));
            }
        }
    }
}

/// The sum of the sizes of `blocks`.
pub open spec fn sum_sizes(blocks: Seq<BlockLocation>) -> int
    decreases blocks.len(),
{
    if blocks.len() == 0 {
        0
    } else {
        sum_sizes(blocks.drop_last()) + blocks.last().block_size
    }
}

/// An indexed entry has no more blocks than the pool: its blocks are
/// distinct blocks of the pool.
proof fn lemma_entry_len(a: BlockAllocator, idx: BlockIndex, key: PrefixHash)
    requires
        consistent(a, idx),
        idx.entries().contains_key(key),
    ensures
        idx.entries()[key].0.len() <= a.spec_pool().spec_total_blocks(),
{
    let bl = idx.entries()[key].0;
    let n = a.spec_pool().spec_total_blocks() as int;
    let s = bl.map_values(|l: BlockLocation| block_of(l) as int);
    assert(s.no_duplicates()) by {
        assert forall|x: int, y: int| 0 <= x < y < s.len() implies s[x] != s[y] by {
            assert(block_of(bl[x]) != block_of(bl[y]));
        }
    }
    s.unique_seq_to_set();
    vstd::set_lib::lemma_int_range(0, n);
    assert(s.to_set().subset_of(vstd::set_lib::set_int_range(0, n))) by {
        assert forall|v: int| #[trigger] s.to_set().contains(v) implies vstd::set_lib::set_int_range(0, n).contains(v) by {
            let x = choose|x: int| 0 <= x < s.len() && s[x] == v;
            assert(location_valid(a, bl[x]));
        }
    }
    vstd::set_lib::lemma_len_subset(s.to_set(), vstd::set_lib::set_int_range(0, n));
}

/// The two allocators have the same pool: id, block size, sizes.
pub open spec fn same_pool(a: BlockAllocator, b: BlockAllocator) -> bool {
    &&& a.spec_pool().spec_pool_id() == b.spec_pool().spec_pool_id()
    &&& a.spec_pool().spec_block_size() == b.spec_pool().spec_block_size()
    &&& a.spec_pool().spec_total_blocks() == b.spec_pool().spec_total_blocks()
    &&& a.spec_pool().spec_total_size() == b.spec_pool().spec_total_size()
    &&& a.spec_pool().bytes().len() == b.spec_pool().bytes().len()
}

/// What a successful store of `data` under `key` did to the cache: the
/// block on top of the free-list was taken and written under the current
/// generation, the generation advanced, the index holds the key at that
/// block (evicting as `insert` does), the evicted entries' blocks went back
/// on the free-list, the evictions were counted, and the reply and the
/// record to publish name the block.
pub open spec fn store_outcome(
    pre: CacheCore,
    post: CacheCore,
    key: PrefixHash,
    data: Seq<u8>,
    now: u64,
    reply: StoreReply,
    publish: PublishRecord,
) -> bool {
    let a = pre.spec_allocator();
    let gen = a.spec_generation();
    let idx = a.spec_pool().free().last();
    let loc = BlockLocation {
        node_id: a.spec_node_id(),
        block_index: idx as u32,
        offset: (idx * a.spec_pool().spec_block_size()) as u64,
        block_size: a.spec_pool().spec_block_size() as u64,
        generation: gen,
    };
    &&& reply.success && reply.error_message@.len() == 0 && reply.generation_id == gen
    &&& publish.index_key == key && publish.offset == loc.offset
    &&& publish.size == loc.block_size && publish.generation == gen
    &&& same_pool(a, post.spec_allocator())
    &&& post.spec_allocator().spec_generation() == (if gen == u64::MAX { 0 } else { gen + 1 })
    &&& post.spec_allocator().holds_written(handle_of(loc), gen, data)
    &&& exists|evicted: Seq<PrefixHash>| {
        &&& BlockIndex::insert_post(pre.spec_index(), post.spec_index(), key, seq![loc], now, evicted)
        &&& post.spec_allocator().spec_pool().free() == a.spec_pool().free().drop_last() + freed_blocks(
            pre.spec_index().entries(),
            evicted,
        )
        &&& post.spec_evictions() == wrap_add(pre.spec_evictions(), evicted.len())
    }
}

/// The data stored under every key other than `key` that `post` still
/// indexes is what `pre` had stored under it.
pub open spec fn keeps_other_data(pre: CacheCore, post: CacheCore, key: PrefixHash) -> bool {
    forall|k: PrefixHash|
        k != key && #[trigger] post.spec_index().entries().contains_key(k) ==> {
            &&& pre.spec_index().entries().contains_key(k)
            &&& post.spec_index().entries()[k] == pre.spec_index().entries()[k]
            &&& post.stored_at(k) == pre.stored_at(k)
        }
}

/// What a store of `data` under the key for `prefix_hash` and `model`
/// does: `PoolExhausted`, with nothing changed, when the data does not fit
/// a block after its header or no block is free; otherwise the outcome of
/// `store_outcome`, leaving every other key's data as it was. The remote
/// index, node id and hit and miss counters are kept either way.
pub open spec fn store_spec(
    pre: CacheCore,
    post: CacheCore,
    model: Seq<char>,
    prefix_hash: PrefixHash,
    data: Seq<u8>,
    now: u64,
    r: Result<(StoreReply, PublishRecord), ServiceError>,
) -> bool {
    let key = index_key_of(model, prefix_hash@);
    let a = pre.spec_allocator();
    let full = data.len() > a.spec_pool().spec_block_size() - 24 || a.spec_pool().free().len() == 0;
    &&& post.spec_remote() == pre.spec_remote()
    &&& post.spec_node_id() == pre.spec_node_id()
    &&& post.hits() == pre.hits()
    &&& post.misses() == pre.misses()
    &&& full ==> r == Err::<(StoreReply, PublishRecord), ServiceError>(ServiceError::PoolExhausted) && post == pre
    &&& !full ==> (r matches Ok((reply, publish)) && store_outcome(pre, post, key, data, now, reply, publish)
        && keeps_other_data(pre, post, key))
}

/// The data that the messages after a store stream's header carry, in
/// order; `None` if one of them is another header.
pub open spec fn payload_data(msgs: Seq<Option<StorePayload>>) -> Option<Seq<u8>>
    decreases msgs.len(),
{
    if msgs.len() == 0 {
        Some(Seq::empty())
    } else {
        match payload_data(msgs.drop_last()) {
            None => None,
            Some(d) => match msgs.last() {
                None => Some(d),
                Some(StorePayload::Header { .. }) => None,
                Some(StorePayload::Data(chunk)) => Some(d + chunk@),
            },
        }
    }
}

/// What a store stream asks for: the prefix-hash bytes, model id and data,
/// or why the stream is refused (checked in this order: empty stream,
/// first message not a header, prefix hash not 16 bytes, a second header).
pub open spec fn stream_request(msgs: Seq<Option<StorePayload>>) -> Result<(Seq<u8>, Seq<char>, Seq<u8>), ServiceError> {
    if msgs.len() == 0 {
        Err(ServiceError::EmptyStream)
    } else {
        match msgs[0] {
            Some(StorePayload::Header { prefix_hash, model_id, total_size }) => if prefix_hash@.len() != 16 {
                Err(ServiceError::InvalidPrefixHash)
            } else {
                match payload_data(msgs.skip(1)) {
                    None => Err(ServiceError::UnexpectedHeader),
                    Some(d) => Ok((prefix_hash@, model_id@, d)),
                }
            },
            _ => Err(ServiceError::FirstMessageNotHeader),
        }
    }
}

/// Once a header appears among the messages, the payload has no data.
proof fn lemma_payload_data_stops(msgs: Seq<Option<StorePayload>>, j: int)
    requires
        0 <= j < msgs.len(),
        msgs[j] matches Some(StorePayload::Header { .. }),
    ensures
        payload_data(msgs.take(j + 1)) is None,
        payload_data(msgs) is None,
    decreases msgs.len(),
{
    assert(msgs.take(j + 1).drop_last() =~= msgs.take(j));
    if j + 1 < msgs.len() {
        assert(msgs.drop_last()[j] == msgs[j]);
        lemma_payload_data_stops(msgs.drop_last(), j);
    } else {
        assert(msgs.take(j + 1) =~= msgs);
    }
}

/// Every key's stored data is what it was.
pub open spec fn keeps_data(pre: CacheCore, post: CacheCore) -> bool {
    &&& post.spec_index().entries() == pre.spec_index().entries()
    &&& forall|k: PrefixHash| #[trigger] post.stored_at(k) == pre.stored_at(k)
}

/// Two blocks with different numbers do not share a byte.
proof fn lemma_blocks_apart(b: int, i: int, bs: int)
    requires
        0 <= b,
        0 <= i,
        b != i,
        bs > 0,
    ensures
        b * bs + bs <= i * bs || i * bs + bs <= b * bs,
{
    if b < i {
        assert((b + 1) * bs <= i * bs) by (nonlinear_arith)
            requires
                b + 1 <= i,
                bs > 0,
        ;
        assert((b + 1) * bs == b * bs + bs) by (nonlinear_arith);
    } else {
        assert((i + 1) * bs <= b * bs) by (nonlinear_arith)
            requires
                i + 1 <= b,
                bs > 0,
        ;
        assert((i + 1) * bs == i * bs + bs) by (nonlinear_arith);
    }
}

/// A store keeps the cache consistent and leaves every other key's data
/// as it was: the written block came off the free-list and was free, so no
/// indexed block shares its bytes; the evicted entries' blocks go back on
/// the free-list, where none of the remaining entries' blocks is.
proof fn lemma_store_consistent(
    pre: CacheCore,
    a1: BlockAllocator,
    post: CacheCore,
    key: PrefixHash,
    loc: BlockLocation,
    now: u64,
    ev: Seq<PrefixHash>,
)
    requires
        pre.wf(),
        pre.spec_allocator().spec_pool().free().len() > 0,
        ({
            let a = pre.spec_allocator();
            let idx = a.spec_pool().free().last();
            let bs = a.spec_pool().spec_block_size();
            &&& loc.block_index == idx as u32
            &&& loc.offset == (idx * bs) as u64
            &&& loc.block_size == bs as u64
            &&& a1.wf()
            &&& same_pool(a, a1)
            &&& a1.spec_pool().free() == a.spec_pool().free().drop_last()
            &&& forall|j: int|
                0 <= j < a.spec_pool().bytes().len() && !(idx * bs <= j < idx * bs + bs) ==> #[trigger] a1.spec_pool().bytes()[j]
                    == a.spec_pool().bytes()[j]
            &&& post.spec_allocator().wf()
            &&& same_pool(a1, post.spec_allocator())
            &&& post.spec_allocator().spec_pool().bytes() == a1.spec_pool().bytes()
            &&& post.spec_allocator().spec_pool().free() == a1.spec_pool().free() + freed_blocks(
                pre.spec_index().entries(),
                ev,
            )
            &&& post.spec_index().wf()
            &&& BlockIndex::insert_post(pre.spec_index(), post.spec_index(), key, seq![loc], now, ev)
        }),
    ensures
        post.wf(),
        keeps_other_data(pre, post, key),
{
    let a = pre.spec_allocator();
    let p = a.spec_pool();
    let f = p.free();
    let idx = f.last();
    let bs = p.spec_block_size();
    let tb = p.spec_total_blocks();
    let e0 = pre.spec_index().entries();
    let e1 = post.spec_index().entries();
    let fr = freed_blocks(e0, ev);
    let f2 = post.spec_allocator().spec_pool().free();
    let d = f.len() - 1;
    crate::index::lemma_insert_entries(pre.spec_index(), post.spec_index(), key, seq![loc], now, ev);
    p.lemma_wf();
    assert(f[d] == idx);
    assert(f.contains(f[d]));
    assert(idx < tb);
    assert(idx * bs + bs <= p.spec_total_size()) by (nonlinear_arith)
        requires
            idx + 1 <= tb,
            p.spec_total_size() == tb * bs,
            bs > 0,
    ;
    assert(f2 =~= f.drop_last() + fr);
    lemma_freed_blocks(e0, ev);
    // The freed blocks were indexed blocks, so none was on the free-list.
    assert forall|x: int| 0 <= x < fr.len() implies !f.contains(#[trigger] fr[x]) by {
        assert(from_evicted(e0, ev, fr[x]));
        let (t, i) = choose|t: int, i: int|
            0 <= t < ev.len() && 0 <= i < e0[ev[t]].0.len() && fr[x] == block_of(#[trigger] e0[ev[t]].0[i]);
        assert(e0.contains_key(ev[t]));
    }
    assert forall|j: int| 0 <= j < d implies #[trigger] f[j] != idx by {}
    // The free-list names each block once.
    assert forall|x: int, y: int| 0 <= x < y < f2.len() implies f2[x] != f2[y] by {
        if y < d {
            assert(f2[x] == f[x] && f2[y] == f[y]);
        } else if x < d {
            assert(f2[x] == f[x]);
            assert(f2[y] == fr[y - d]);
            assert(f.contains(f[x]));
        } else {
            assert(f2[x] == fr[x - d] && f2[y] == fr[y - d]);
        }
    }
    let post_a = post.spec_allocator();
    // The new entry.
    assert(location_valid(post_a, loc));
    assert(block_of(loc) == idx);
    assert(!f2.contains(idx)) by {
        if f2.contains(idx) {
            let j = choose|j: int| 0 <= j < f2.len() && f2[j] == idx;
            if j < d {
                assert(f2[j] == f[j]);
            } else {
                assert(f2[j] == fr[j - d]);
            }
        }
    }
    // The blocks of the kept entries: not the new block, not free.
    assert forall|k: PrefixHash, i: int| e1.contains_key(k) && k != key && 0 <= i < e1[k].0.len() implies block_of(
        #[trigger] e1[k].0[i],
    ) != idx && !f2.contains(block_of(e1[k].0[i])) by {
        assert(e0.contains_key(k) && e1[k] == e0[k] && !ev.contains(k));
        let b = block_of(e0[k].0[i]);
        assert(!f.contains(b));
        if f2.contains(b) {
            let j = choose|j: int| 0 <= j < f2.len() && f2[j] == b;
            if j < d {
                assert(f2[j] == f[j]);
                assert(f.contains(f[j]));
            } else {
                assert(f2[j] == fr[j - d]);
                assert(from_evicted(e0, ev, fr[j - d]));
                let (t, i2) = choose|t: int, i2: int|
                    0 <= t < ev.len() && 0 <= i2 < e0[ev[t]].0.len() && fr[j - d] == block_of(
                        #[trigger] e0[ev[t]].0[i2],
                    );
                assert(ev.contains(ev[t]));
                assert(ev[t] != k);
                assert(e0.contains_key(ev[t]));
            }
        }
    }
    assert forall|k: PrefixHash, i: int| e1.contains_key(k) && 0 <= i < e1[k].0.len() implies {
        &&& location_valid(post_a, #[trigger] e1[k].0[i])
        &&& !f2.contains(block_of(e1[k].0[i]))
    } by {
        if k != key {
            assert(e0.contains_key(k) && e1[k] == e0[k]);
            assert(location_valid(a, e0[k].0[i]));
        } else {
            assert(e1[k].0 == seq![loc]);
        }
    }
    assert(blocks_distinct(e1)) by {
        assert forall|k1: PrefixHash, i1: int, k2: PrefixHash, i2: int|
            e1.contains_key(k1) && e1.contains_key(k2) && 0 <= i1 < e1[k1].0.len() && 0 <= i2 < e1[k2].0.len() && (
            k1 != k2 || i1 != i2) implies block_of(#[trigger] e1[k1].0[i1]) != block_of(#[trigger] e1[k2].0[i2]) by {
            if k1 == key && k2 == key {
                assert(e1[key].0 == seq![loc]);
            } else if k1 == key {
                assert(e1[key].0 == seq![loc]);
                assert(block_of(e1[k2].0[i2]) != idx);
            } else if k2 == key {
                assert(e1[key].0 == seq![loc]);
                assert(block_of(e1[k1].0[i1]) != idx);
            } else {
                assert(e0.contains_key(k1) && e0.contains_key(k2));
                assert(e1[k1] == e0[k1] && e1[k2] == e0[k2]);
            }
        }
    }
    assert(consistent(post_a, post.spec_index()));
    // The data of the other entries.
    assert forall|k: PrefixHash| k != key && #[trigger] e1.contains_key(k) implies post.stored_at(k) == pre.stored_at(
        k,
    ) by {
        assert(e0.contains_key(k) && e1[k] == e0[k]);
        let bl = e0[k].0;
        assert forall|i: int| 0 <= i < bl.len() implies post_a.stored(handle_of(bl[i])) == a.stored(
            handle_of(bl[i]),
        ) by {
            let lk = bl[i];
            assert(lk == e1[k].0[i]);
            let b = block_of(lk);
            let off = lk.offset as int;
            assert(b != idx);
            assert(location_valid(a, e0[k].0[i]));
            assert(off == b * bs);
            lemma_blocks_apart(b as int, idx as int, bs as int);
            assert(post_a.spec_pool().block_bytes(off) =~= p.block_bytes(off)) by {
                assert forall|j: int| 0 <= j < bs implies post_a.spec_pool().block_bytes(off)[j]
                    == p.block_bytes(off)[j] by {
                    assert(a1.spec_pool().bytes()[off + j] == p.bytes()[off + j]);
                }
            }
        }
        assert(post.stored_at(k)->0 =~= pre.stored_at(k)->0);
    }
}

/// A delete keeps the cache consistent and leaves every other key's data
/// as it was: the deleted entry's blocks go back on the free-list, where
/// none of them was, and no remaining entry has one of them.
proof fn lemma_delete_consistent(pre: CacheCore, post: CacheCore, h: PrefixHash)
    requires
        pre.wf(),
        pre.spec_index().entries().contains_key(h),
        post.spec_index().wf(),
        post.spec_index().entries() == pre.spec_index().entries().remove(h),
        post.spec_allocator().wf(),
        same_pool(pre.spec_allocator(), post.spec_allocator()),
        post.spec_allocator().spec_pool().bytes() == pre.spec_allocator().spec_pool().bytes(),
        post.spec_allocator().spec_pool().free() == pre.spec_allocator().spec_pool().free() + entry_blocks(
            pre.spec_index().entries()[h].0,
        ),
    ensures
        post.wf(),
        keeps_other_data(pre, post, h),
{
    let a = pre.spec_allocator();
    let post_a = post.spec_allocator();
    let e0 = pre.spec_index().entries();
    let e = post.spec_index().entries();
    let f = a.spec_pool().free();
    let f2 = post_a.spec_pool().free();
    let bl = e0[h].0;
    let eb = entry_blocks(bl);
    let n = f.len();
    assert forall|x: int| 0 <= x < eb.len() implies !f.contains(#[trigger] eb[x]) by {
        assert(eb[x] == block_of(e0[h].0[x]));
    }
    assert(f2.no_duplicates()) by {
        assert forall|x: int, y: int| 0 <= x < y < f2.len() implies f2[x] != f2[y] by {
            if y < n {
                assert(f2[x] == f[x] && f2[y] == f[y]);
            } else if x < n {
                assert(f2[x] == f[x] && f2[y] == eb[y - n]);
                assert(f.contains(f[x]));
            } else {
                assert(f2[x] == eb[x - n] && f2[y] == eb[y - n]);
                assert(eb[x - n] == block_of(e0[h].0[x - n]));
                assert(eb[y - n] == block_of(e0[h].0[y - n]));
            }
        }
    }
    assert forall|k: PrefixHash, i: int| e.contains_key(k) && 0 <= i < e[k].0.len() implies {
        &&& location_valid(post_a, #[trigger] e[k].0[i])
        &&& !f2.contains(block_of(e[k].0[i]))
    } by {
        assert(e0.contains_key(k) && k != h && e[k] == e0[k]);
        assert(location_valid(a, e0[k].0[i]));
        let b = block_of(e0[k].0[i]);
        if f2.contains(b) {
            let j = choose|j: int| 0 <= j < f2.len() && f2[j] == b;
            if j < n {
                assert(f2[j] == f[j]);
                assert(f.contains(f[j]));
            } else {
                assert(f2[j] == eb[j - n]);
                assert(eb[j - n] == block_of(e0[h].0[j - n]));
            }
        }
    }
    assert(blocks_distinct(e)) by {
        assert forall|k1: PrefixHash, i1: int, k2: PrefixHash, i2: int|
            e.contains_key(k1) && e.contains_key(k2) && 0 <= i1 < e[k1].0.len() && 0 <= i2 < e[k2].0.len() && (k1
                != k2 || i1 != i2) implies block_of(#[trigger] e[k1].0[i1]) != block_of(#[trigger] e[k2].0[i2]) by {
            assert(e0.contains_key(k1) && e0.contains_key(k2));
            assert(e[k1] == e0[k1] && e[k2] == e0[k2]);
        }
    }
    assert(consistent(post_a, post.spec_index()));
    assert forall|k: PrefixHash| k != h && #[trigger] e.contains_key(k) implies {
        &&& e0.contains_key(k)
        &&& e[k] == e0[k]
        &&& post.stored_at(k) == pre.stored_at(k)
    } by {
        assert(e0.contains_key(k) && e[k] == e0[k]);
        assert forall|hd: BlockHandle| #[trigger] post_a.stored(hd) == a.stored(hd) by {
            assert(post_a.spec_pool().block_bytes(hd.offset as int) == a.spec_pool().block_bytes(hd.offset as int));
        }
        assert(post.stored_at(k)->0 =~= pre.stored_at(k)->0);
    }
}

impl CacheCore {
    pub closed spec fn spec_allocator(&self) -> BlockAllocator {
        self.allocator
    }

    pub closed spec fn spec_index(&self) -> BlockIndex {
        self.index
    }

    pub closed spec fn spec_remote(&self) -> Option<Map<PrefixHash, Seq<RemoteBlockInfo>>> {
        match self.remote_index {
            Some(r) => Some(r@),
            None => None,
        }
    }

    pub closed spec fn spec_node_id(&self) -> Seq<char> {
        self.node_id@
    }

    pub closed spec fn hits(&self) -> u64 {
        self.cache_hits
    }

    pub closed spec fn misses(&self) -> u64 {
        self.cache_misses
    }

    pub closed spec fn spec_evictions(&self) -> u64 {
        self.evictions
    }

    /// Allocator and index are consistent (see `consistent`).
    pub closed spec fn wf(&self) -> bool {
        consistent(self.allocator, self.index)
    }

    /// What well-formedness gives: the allocator and index are consistent.
    pub proof fn lemma_wf(&self)
        requires
            self.wf(),
        ensures
            consistent(self.spec_allocator(), self.spec_index()),
    {
    }

    /// Each block of an indexed entry is a whole block of the local pool.
    pub proof fn lemma_valid_location(&self, key: PrefixHash, i: int)
        requires
            self.wf(),
            self.spec_index().entries().contains_key(key),
            0 <= i < self.spec_index().entries()[key].0.len(),
        ensures
            self.spec_allocator().spec_pool().valid_handle(handle_of(self.spec_index().entries()[key].0[i])),
    {
        let l = self.spec_index().entries()[key].0[i];
        assert(location_valid(self.spec_allocator(), l));
    }

    /// What the cache holds under `key`, if the key is indexed: for each
    /// block of its entry in order, the data the block holds, or `None`
    /// where the block fails its check.
    pub open spec fn stored_at(&self, key: PrefixHash) -> Option<Seq<Option<Seq<u8>>>> {
        if self.spec_index().entries().contains_key(key) {
            Some(
                self.spec_index().entries()[key].0.map_values(
                    |l: BlockLocation| self.spec_allocator().stored(handle_of(l)),
                ),
            )
        } else {
            None
        }
    }

    pub fn new(allocator: BlockAllocator, index: BlockIndex, remote_index: Option<RemoteIndex>, node_id: String) -> (c: Self)
        requires
            allocator.wf(),
            index.wf(),
            consistent(allocator, index),
        ensures
            c.wf(),
            c.spec_allocator() == allocator,
            c.spec_index() == index,
            c.spec_node_id() == node_id@,
            c.hits() == 0 && c.misses() == 0 && c.spec_evictions() == 0,
            c.spec_remote() == (match remote_index {
                Some(r) => Some(r@),
                None => None::<Map<PrefixHash, Seq<RemoteBlockInfo>>>,
            }),
    {
        CacheCore {
            allocator,
            index,
            remote_index,
            node_id,
            cache_hits: 0,
            cache_misses: 0,
            evictions: 0,
        }
    }

    /// The remote index, for the watch that keeps it up to date.
    pub fn remote_index_mut(&mut self) -> (r: Option<&mut RemoteIndex>)
        ensures
            old(self).spec_remote() is None <==> r is None,
    {
        match &mut self.remote_index {
            Some(r) => Some(r),
            None => None,
        }
    }

    /// The wire form of local locations.
    fn wire_locations(&self, blocks: &Vec<BlockLocation>) -> (v: Vec<WireBlockLocation>)
        ensures
            wire_views(v@) == local_wire(self.node_id@, blocks@),
    {
        let mut v: Vec<WireBlockLocation> = Vec::new();
        let mut i: usize = 0;
        while i < blocks.len()
            invariant
                i <= blocks@.len(),
                wire_views(v@) == local_wire(self.node_id@, blocks@.subrange(0, i as int)),
            decreases blocks@.len() - i,
        {
            let b = blocks[i];
            v.push(
                WireBlockLocation {
                    node_id: self.node_id.clone(),
                    offset: b.offset,
                    size: b.block_size,
                    generation_id: b.generation,
                },
            );
            i = i + 1;
            proof {
                let prev = blocks@.subrange(0, i - 1);
                assert(blocks@.subrange(0, i as int) =~= prev.push(b));
                assert(local_wire(self.node_id@, prev.push(b)) =~= local_wire(self.node_id@, prev).push(
                    (self.node_id@, b.offset, b.block_size, b.generation),
                ));
                assert(wire_views(v@) =~= wire_views(v@.drop_last()).push(v@.last()@));
                assert(v@.drop_last() =~= v@.subrange(0, i - 1));
            }
            assert(wire_views(v@) =~= local_wire(self.node_id@, blocks@.subrange(0, i as int)));
        }
        assert(blocks@.subrange(0, blocks@.len() as int) =~= blocks@);
        v
    }

    /// Look up a prefix hash: in the local index first (a hit there makes
    /// the entry most recently used), else the first remote record of the
    /// remote index; a miss otherwise. Hits and misses are counted.
    pub fn lookup(&mut self, model_id: &str, prefix_hash: &[u8]) -> (r: Result<LookupReply, ServiceError>)
        requires
            old(self).wf(),
        ensures
            final(self).wf(),
            keeps_data(*old(self), *final(self)),
            prefix_hash@.len() != 16 ==> r == Err::<LookupReply, ServiceError>(
                ServiceError::InvalidPrefixHash,
            ) && *final(self) == *old(self),
            prefix_hash@.len() == 16 ==> {
                let key = index_key_of(model_id@, prefix_hash@);
                let entries = old(self).spec_index().entries();
                let remote_hit = !entries.contains_key(key) && (old(self).spec_remote() matches Some(
                    m,
                ) && m.contains_key(key) && m[key].len() > 0);
                &&& r matches Ok(reply)
                &&& final(self).spec_allocator() == old(self).spec_allocator()
                &&& final(self).spec_index().entries() == entries
                &&& final(self).spec_remote() == old(self).spec_remote()
                &&& final(self).spec_node_id() == old(self).spec_node_id()
                &&& final(self).spec_evictions() == old(self).spec_evictions()
                &&& entries.contains_key(key) ==> {
                    &&& reply.found && reply.is_local
                    &&& wire_views(reply.blocks@) == local_wire(old(self).spec_node_id(), entries[key].0)
                    &&& final(self).spec_index().recency() == seq![key] + old(self).spec_index().recency().remove_value(key)
                    &&& final(self).hits() == wrap_add(old(self).hits(), 1)
                    &&& final(self).misses() == old(self).misses()
                }
                &&& !entries.contains_key(key) ==> final(self).spec_index().recency() == old(self).spec_index().recency()
                &&& remote_hit ==> {
                    let info = old(self).spec_remote()->0[key][0];
                    &&& reply.found && !reply.is_local
                    &&& wire_views(reply.blocks@) == seq![remote_wire(info)]
                    &&& reply.blocks@.len() == 1
                    &&& reply.blocks@[0].node_id@ == info.node_id@
                    &&& reply.blocks@[0].offset == info.offset
                    &&& reply.blocks@[0].size == info.size
                    &&& reply.blocks@[0].generation_id == info.generation
                    &&& final(self).hits() == wrap_add(old(self).hits(), 1)
                    &&& final(self).misses() == old(self).misses()
                }
                &&& !entries.contains_key(key) && !remote_hit ==> {
                    &&& !reply.found && !reply.is_local && reply.blocks@.len() == 0
                    &&& final(self).hits() == old(self).hits()
                    &&& final(self).misses() == wrap_add(old(self).misses(), 1)
                }
            },
    {
        let h = parse_prefix_hash(prefix_hash)?;
        let index_key = composite_key(model_id, &h);
        proof {
            lemma_wrap_add_step(self.cache_hits, 0);
            lemma_wrap_add_step(self.cache_misses, 0);
        }
        let ghost pre = *self;
        match self.index.lookup(&index_key) {
            Some(entry) => {
                self.cache_hits = self.cache_hits.wrapping_add(1);
                let blocks = self.wire_locations(&entry.blocks);
                Ok(LookupReply { found: true, blocks, is_local: true })
            },
            None => {
                // Check the remote index if there is one.
                if let Some(remote_index) = &self.remote_index {
                    if let Some(entries) = remote_index.lookup(&index_key) {
                        if entries.len() > 0 {
                            let first = &entries[0];
                            self.cache_hits = self.cache_hits.wrapping_add(1);
                            let mut blocks: Vec<WireBlockLocation> = Vec::new();
                            blocks.push(
                                WireBlockLocation {
                                    node_id: first.node_id.clone(),
                                    offset: first.offset,
                                    size: first.size,
                                    generation_id: first.generation,
                                },
                            );
                            assert(wire_views(blocks@) =~= seq![remote_wire(entries@[0])]);
                            return Ok(LookupReply { found: true, blocks, is_local: false });
                        }
                    }
                }
                self.cache_misses = self.cache_misses.wrapping_add(1);
                let blocks: Vec<WireBlockLocation> = Vec::new();
                Ok(LookupReply { found: false, blocks, is_local: false })
            },
        }
    }

    /// Look up several prefix hashes in the local index, in order. Each is
    /// a hit or a miss, counted; the reply lists a flag per hash and the
    /// locations of the hits. A hash of the wrong length fails the whole
    /// request, after the hashes before it were looked up.
    pub fn batch_lookup(&mut self, model_id: &str, prefix_hashes: &Vec<Vec<u8>>) -> (r: Result<BatchLookupReply, ServiceError>)
        requires
            old(self).wf(),
        ensures
            final(self).wf(),
            keeps_data(*old(self), *final(self)),
            final(self).spec_allocator() == old(self).spec_allocator(),
            final(self).spec_index().entries() == old(self).spec_index().entries(),
            final(self).spec_remote() == old(self).spec_remote(),
            final(self).spec_node_id() == old(self).spec_node_id(),
            final(self).spec_evictions() == old(self).spec_evictions(),
            ({
                let raws = prefix_hashes@.map_values(|v: Vec<u8>| v@);
                let entries = old(self).spec_index().entries();
                let done = batch_keys(model_id@, raws).take(first_bad(raws));
                &&& final(self).spec_index().recency() == touched(old(self).spec_index().recency(), done, entries)
                &&& final(self).hits() == wrap_add(old(self).hits(), hit_count(done, entries))
                &&& final(self).misses() == wrap_add(old(self).misses(), (done.len() - hit_count(done, entries)) as nat)
                &&& first_bad(raws) < raws.len() ==> r == Err::<BatchLookupReply, ServiceError>(ServiceError::InvalidPrefixHash)
                &&& first_bad(raws) == raws.len() ==> (r matches Ok(reply) && {
                    &&& reply.found@.len() == raws.len()
                    &&& forall|i: int| 0 <= i < raws.len() ==> #[trigger] reply.found@[i] == entries.contains_key(done[i])
                    &&& wire_views(reply.blocks@) == batch_wire(old(self).spec_node_id(), done, entries)
                })
            }),
    {
        let ghost raws = prefix_hashes@.map_values(|v: Vec<u8>| v@);
        let ghost entries = self.index.entries();
        let ghost keys = batch_keys(model_id@, raws);
        let ghost r0 = self.index.recency();
        let ghost h0 = self.cache_hits;
        let ghost m0 = self.cache_misses;
        let mut found: Vec<bool> = Vec::with_capacity(prefix_hashes.len());
        let mut blocks: Vec<WireBlockLocation> = Vec::new();
        let mut i: usize = 0;
        while i < prefix_hashes.len()
            invariant
                self.wf(),
                raws == prefix_hashes@.map_values(|v: Vec<u8>| v@),
                keys == batch_keys(model_id@, raws),
                i <= raws.len(),
                forall|j: int| 0 <= j < i ==> #[trigger] raws[j].len() == 16,
                self.allocator == old(self).allocator,
                self.index.entries() == entries,
                entries == old(self).index.entries(),
                self.spec_remote() == old(self).spec_remote(),
                self.node_id == old(self).node_id,
                self.evictions == old(self).evictions,
                r0 == old(self).index.recency(),
                h0 == old(self).cache_hits,
                m0 == old(self).cache_misses,
                self.index.recency() == touched(r0, keys.take(i as int), entries),
                self.cache_hits == wrap_add(h0, hit_count(keys.take(i as int), entries)),
                self.cache_misses == wrap_add(m0, (i - hit_count(keys.take(i as int), entries)) as nat),
                hit_count(keys.take(i as int), entries) <= i,
                found@.len() == i,
                forall|j: int| 0 <= j < i ==> #[trigger] found@[j] == entries.contains_key(keys[j]),
                wire_views(blocks@) == batch_wire(self.node_id@, keys.take(i as int), entries),
            decreases raws.len() - i,
        {
            let ghost ki = keys.take(i as int);
            let ghost ki1 = keys.take(i + 1);
            assert(raws[i as int] == prefix_hashes@[i as int]@);
            let h = match parse_prefix_hash(prefix_hashes[i].as_slice()) {
                Ok(h) => h,
                Err(e) => {
                    proof {
                        lemma_first_bad(raws, i as int);
                        assert(keys.take(first_bad(raws)) == ki);
                    }
                    return Err(e);
                },
            };
            let index_key = composite_key(model_id, &h);
            assert(index_key == keys[i as int]);
            assert(ki1.drop_last() =~= ki);
            assert(ki1.last() == index_key);
            proof {
                lemma_wrap_add_step(h0, hit_count(ki, entries));
                lemma_wrap_add_step(m0, (i - hit_count(ki, entries)) as nat);
            }
            match self.index.lookup(&index_key) {
                Some(entry) => {
                    self.cache_hits = self.cache_hits.wrapping_add(1);
                    found.push(true);
                    let ghost before = wire_views(blocks@);
                    let mut b: usize = 0;
                    while b < entry.blocks.len()
                        invariant
                            b <= entry.blocks@.len(),
                            wire_views(blocks@) == before + local_wire(self.node_id@, entry.blocks@.subrange(0, b as int)),
                        decreases entry.blocks@.len() - b,
                    {
                        let loc = entry.blocks[b];
                        let w = WireBlockLocation {
                            node_id: self.node_id.clone(),
                            offset: loc.offset,
                            size: loc.block_size,
                            generation_id: loc.generation,
                        };
                        let ghost prev_blocks = blocks@;
                        blocks.push(w);
                        b = b + 1;
                        proof {
                            let prev = entry.blocks@.subrange(0, b - 1);
                            assert(entry.blocks@.subrange(0, b as int) =~= prev.push(loc));
                            assert(local_wire(self.node_id@, prev.push(loc)) =~= local_wire(self.node_id@, prev).push(
                                (self.node_id@, loc.offset, loc.block_size, loc.generation),
                            ));
                            assert(w@ == (self.node_id@, loc.offset, loc.block_size, loc.generation));
                            assert(wire_views(blocks@) =~= wire_views(prev_blocks).push(w@));
                        }
                        assert(wire_views(blocks@) =~= before + local_wire(self.node_id@, entry.blocks@.subrange(0, b as int)));
                    }
                    assert(entry.blocks@.subrange(0, entry.blocks@.len() as int) =~= entry.blocks@);
                },
                None => {
                    self.cache_misses = self.cache_misses.wrapping_add(1);
                    found.push(false);
                    assert(wire_views(blocks@) =~= batch_wire(self.node_id@, ki1, entries));
                },
            }
            i = i + 1;
        }
        proof {
            lemma_first_bad(raws, raws.len() as int);
        }
        Ok(BatchLookupReply { found, blocks })
    }

    /// Store `data` under the key for `prefix_hash` (already parsed) and
    /// `model_id`: it is written into a fresh block, which the index then
    /// holds under the key (evicting least recently used entries when full;
    /// their blocks go back to the pool). The data under every other key
    /// that stays indexed is untouched. Returns the reply and the record to
    /// publish.
    pub fn store(&mut self, model_id: &str, prefix_hash: &PrefixHash, data: &[u8], now: u64) -> (r: Result<(StoreReply, PublishRecord), ServiceError>)
        requires
            old(self).wf(),
        ensures
            final(self).wf(),
            final(self).spec_remote() == old(self).spec_remote(),
            final(self).spec_node_id() == old(self).spec_node_id(),
            store_spec(*old(self), *final(self), model_id@, *prefix_hash, data@, now, r),
    {
        let index_key = composite_key(model_id, prefix_hash);
        proof {
            self.allocator.spec_pool().lemma_wf();
        }
        let ghost pre = *self;
        let (loc, handle) = match self.allocator.allocate_and_write(data) {
            Some(p) => p,
            None => return Err(ServiceError::PoolExhausted),
        };
        let generation = loc.generation;
        let ghost a1 = self.allocator;
        let mut blocks: Vec<BlockLocation> = Vec::new();
        blocks.push(loc);
        assert(blocks@ =~= seq![loc]);
        let (evicted, entries) = self.index.insert_evicting(index_key, blocks, now);
        proof {
            crate::index::lemma_insert_entries(pre.index, self.index, index_key, seq![loc], now, evicted@);
        }
        // The evicted entries' blocks go back to the pool.
        let ghost e0 = pre.index.entries();
        let ghost index_after = self.index;
        let mut j: usize = 0;
        while j < entries.len()
            invariant
                self.index == index_after,
                self.evictions == pre.evictions,
                self.cache_hits == pre.cache_hits,
                self.cache_misses == pre.cache_misses,
                self.remote_index == pre.remote_index,
                self.node_id == pre.node_id,
                j <= entries@.len(),
                entries@.len() == evicted@.len(),
                forall|t: int| 0 <= t < evicted@.len() ==> #[trigger] entries@[t]@ == e0[evicted@[t]],
                forall|t: int| 0 <= t < evicted@.len() ==> #[trigger] e0.contains_key(evicted@[t]),
                forall|k: PrefixHash, i: int|
                    e0.contains_key(k) && 0 <= i < e0[k].0.len() ==> location_valid(a1, #[trigger] e0[k].0[i]),
                self.allocator.wf(),
                same_pool(a1, self.allocator),
                a1.spec_pool().spec_pool_id() == 0,
                self.allocator.spec_pool().bytes() == a1.spec_pool().bytes(),
                self.allocator.spec_generation() == a1.spec_generation(),
                self.allocator.spec_node_id() == a1.spec_node_id(),
                self.allocator.spec_pool().free() == a1.spec_pool().free() + freed_blocks(e0, evicted@.take(j as int)),
            decreases entries@.len() - j,
        {
            let ghost key_j = evicted@[j as int];
            let ghost before = self.allocator.spec_pool().free();
            proof {
                assert(entries@[j as int]@ == e0[key_j]);
                assert(e0.contains_key(key_j));
            }
            let victims = &entries[j].blocks;
            let mut i: usize = 0;
            while i < victims.len()
                invariant
                    self.index == index_after,
                    self.evictions == pre.evictions,
                    self.cache_hits == pre.cache_hits,
                    self.cache_misses == pre.cache_misses,
                    self.remote_index == pre.remote_index,
                    self.node_id == pre.node_id,
                    i <= victims@.len(),
                    victims@ == e0[key_j].0,
                    e0.contains_key(key_j),
                    forall|k: PrefixHash, x: int|
                        e0.contains_key(k) && 0 <= x < e0[k].0.len() ==> location_valid(a1, #[trigger] e0[k].0[x]),
                    self.allocator.wf(),
                    same_pool(a1, self.allocator),
                    a1.spec_pool().spec_pool_id() == 0,
                    self.allocator.spec_pool().bytes() == a1.spec_pool().bytes(),
                    self.allocator.spec_generation() == a1.spec_generation(),
                    self.allocator.spec_node_id() == a1.spec_node_id(),
                    self.allocator.spec_pool().free() == before + entry_blocks(victims@.take(i as int)),
                decreases victims@.len() - i,
            {
                let victim = victims[i];
                proof {
                    assert(victim == e0[key_j].0[i as int]);
                    assert(location_valid(a1, e0[key_j].0[i as int]));
                }
                let victim_handle = BlockHandle {
                    pool_id: 0,
                    block_index: victim.block_index,
                    offset: victim.offset as usize,
                    size: victim.block_size as usize,
                };
                self.allocator.deallocate(victim_handle);
                proof {
                    assert(victims@.take(i + 1) =~= victims@.take(i as int).push(victim));
                    assert(entry_blocks(victims@.take(i + 1)) =~= entry_blocks(victims@.take(i as int)).push(
                        block_of(victim),
                    ));
                    assert(self.allocator.spec_pool().free() =~= before + entry_blocks(victims@.take(i + 1)));
                }
                i = i + 1;
            }
            proof {
                let t1 = evicted@.take(j + 1);
                assert(victims@.take(i as int) =~= victims@);
                assert(t1.drop_last() =~= evicted@.take(j as int));
                assert(t1.last() == key_j);
                assert(freed_blocks(e0, t1) == freed_blocks(e0, evicted@.take(j as int)) + entry_blocks(e0[key_j].0));
                assert(self.allocator.spec_pool().free() =~= a1.spec_pool().free() + freed_blocks(e0, t1));
            }
            j = j + 1;
        }
        proof {
            assert(evicted@.take(j as int) =~= evicted@);
        }
        let eviction_count = evicted.len() as u64;
        proof {
            let m: int = 0x1_0000_0000_0000_0000;
            vstd::arithmetic::div_mod::lemma_add_mod_noop(self.evictions as int, eviction_count as int, m);
        }
        self.evictions = self.evictions.wrapping_add(eviction_count);

        let reply = StoreReply { success: true, error_message: String::new(), generation_id: generation };
        let publish = PublishRecord { index_key, offset: loc.offset, size: loc.block_size, generation };
        proof {
            let pa = pre.allocator;
            let idx = pa.spec_pool().free().last();
            let bs = pa.spec_pool().spec_block_size();
            assert(pa.spec_pool().free().len() > 0);
            assert(loc.block_index == idx as u32);
            assert(loc.offset == (idx * bs) as u64);
            assert(loc.block_size == bs as u64);
            assert(a1.wf());
            assert(same_pool(pa, a1));
            assert(a1.spec_pool().free() == pa.spec_pool().free().drop_last());
            assert(handle.offset == idx * bs);
            assert(forall|j: int|
                0 <= j < pa.spec_pool().bytes().len() && !(idx * bs <= j < idx * bs + bs) ==> #[trigger] a1.spec_pool().bytes()[j]
                    == pa.spec_pool().bytes()[j]);
            assert(same_pool(a1, self.allocator));
            assert(self.index.wf());
            lemma_store_consistent(pre, a1, *self, index_key, loc, now, evicted@);
            assert(index_key == index_key_of(model_id@, prefix_hash@));
            let ev = evicted@;
            assert(self.evictions == wrap_add(pre.evictions, ev.len()));
            assert(BlockIndex::insert_post(old(self).spec_index(), self.spec_index(), index_key_of(model_id@, prefix_hash@), seq![loc], now, ev)
                && self.spec_allocator().spec_pool().free() == old(self).spec_allocator().spec_pool().free().drop_last() + freed_blocks(
                    old(self).spec_index().entries(),
                    ev,
                ) && self.spec_evictions() == wrap_add(old(self).spec_evictions(), ev.len()));
            assert(handle_of(loc) == handle);
        }
        Ok((reply, publish))
    }

    /// Handle a store request: refused at the reject pressure level before
    /// any message is read; otherwise the stream's messages (a message may
    /// carry no payload) are checked and their data stored as `store` does.
    pub fn store_request(&mut self, pressure: u8, messages: &Vec<Option<StorePayload>>, now: u64) -> (r: Result<
        (StoreReply, PublishRecord),
        ServiceError,
    >)
        requires
            old(self).wf(),
        ensures
            final(self).wf(),
            pressure >= PRESSURE_REJECT ==> r == Err::<(StoreReply, PublishRecord), ServiceError>(
                ServiceError::PressureTooHigh,
            ) && *final(self) == *old(self),
            pressure < PRESSURE_REJECT ==> match stream_request(messages@) {
                Err(e) => r == Err::<(StoreReply, PublishRecord), ServiceError>(e) && *final(self) == *old(self),
                Ok((h, model, data)) => store_spec(*old(self), *final(self), model, hash_from_bytes(h), data, now, r),
            },
    {
        admit_store(pressure)?;
        if messages.len() == 0 {
            return Err(ServiceError::EmptyStream);
        }
        let (raw_hash, model_id) = match &messages[0] {
            Some(StorePayload::Header { prefix_hash, model_id, total_size }) => (prefix_hash, model_id),
            _ => {
                return Err(ServiceError::FirstMessageNotHeader);
            },
        };
        let h = parse_prefix_hash(raw_hash.as_slice())?;
        let ghost msgs = messages@;
        let mut data: Vec<u8> = Vec::new();
        let mut i: usize = 1;
        assert(msgs.subrange(1, 1) =~= Seq::<Option<StorePayload>>::empty());
        while i < messages.len()
            invariant
                msgs == messages@,
                1 <= i <= msgs.len(),
                *self == *old(self),
                self.wf(),
                pressure < PRESSURE_REJECT,
                msgs[0] matches Some(StorePayload::Header { prefix_hash, .. }) && prefix_hash@.len() == 16,
                payload_data(msgs.subrange(1, i as int)) == Some(data@),
            decreases msgs.len() - i,
        {
            let ghost before = data@;
            assert(msgs.subrange(1, i + 1).drop_last() =~= msgs.subrange(1, i as int));
            assert(msgs.subrange(1, i + 1).last() == msgs[i as int]);
            match &messages[i] {
                None => {},
                Some(StorePayload::Header { .. }) => {
                    proof {
                        lemma_payload_data_stops(msgs.skip(1), i - 1);
                        assert(msgs.skip(1).take(i as int) =~= msgs.subrange(1, i + 1));
                    }
                    return Err(ServiceError::UnexpectedHeader);
                },
                Some(StorePayload::Data(chunk)) => {
                    let mut k: usize = 0;
                    while k < chunk.len()
                        invariant
                            k <= chunk@.len(),
                            data@ == before + chunk@.subrange(0, k as int),
                        decreases chunk@.len() - k,
                    {
                        data.push(chunk[k]);
                        k = k + 1;
                        assert(data@ =~= before + chunk@.subrange(0, k as int));
                    }
                    assert(chunk@.subrange(0, chunk@.len() as int) =~= chunk@);
                },
            }
            i = i + 1;
        }
        assert(msgs.subrange(1, msgs.len() as int) =~= msgs.skip(1));
        self.store(model_id.as_str(), &h, data.as_slice(), now)
    }

    /// Get the data stored for a prefix hash: a miss is `NotFound`
    /// (counted); a hit (counted, and made most recently used) gives a
    /// header (the blocks' total size, their number, the first block's
    /// generation or 0 for an entry without blocks) and the data of the
    /// entry's blocks in order, stopping at the first block that fails its
    /// check.
    pub fn get(&mut self, model_id: &str, prefix_hash: &[u8]) -> (r: Result<GetReply, ServiceError>)
        requires
            old(self).wf(),
        ensures
            final(self).wf(),
            keeps_data(*old(self), *final(self)),
            final(self).spec_allocator() == old(self).spec_allocator(),
            final(self).spec_index().entries() == old(self).spec_index().entries(),
            final(self).spec_remote() == old(self).spec_remote(),
            final(self).spec_evictions() == old(self).spec_evictions(),
            prefix_hash@.len() != 16 ==> r == Err::<GetReply, ServiceError>(ServiceError::InvalidPrefixHash) && *final(self) == *old(self),
            prefix_hash@.len() == 16 ==> {
                let key = index_key_of(model_id@, prefix_hash@);
                let entries = old(self).spec_index().entries();
                &&& !entries.contains_key(key) ==> {
                    &&& r == Err::<GetReply, ServiceError>(ServiceError::NotFound)
                    &&& final(self).misses() == wrap_add(old(self).misses(), 1)
                    &&& final(self).hits() == old(self).hits()
                    &&& final(self).spec_index().recency() == old(self).spec_index().recency()
                }
                &&& entries.contains_key(key) ==> (r matches Ok(reply) && {
                    let blocks = entries[key].0;
                    let ds = old(self).stored_at(key)->0;
                    let n = reply.chunks@.len();
                    &&& final(self).hits() == wrap_add(old(self).hits(), 1)
                    &&& final(self).misses() == old(self).misses()
                    &&& final(self).spec_index().recency() == seq![key] + old(self).spec_index().recency().remove_value(key)
                    &&& reply.header.total_size == sum_sizes(blocks)
                    &&& reply.header.num_blocks == #[verifier::truncate] (blocks.len() as u32)
                    &&& reply.header.generation_id == (if blocks.len() > 0 { blocks[0].generation } else { 0 })
                    &&& n <= ds.len()
                    &&& forall|x: int| 0 <= x < n ==> ds[x] == Some(#[trigger] reply.chunks@[x]@)
                    &&& reply.data_loss <==> n < ds.len()
                    &&& n < ds.len() ==> ds[n as int] is None
                })
            },
    {
        let h = parse_prefix_hash(prefix_hash)?;
        let index_key = composite_key(model_id, &h);
        proof {
            lemma_wrap_add_step(self.cache_hits, 0);
            lemma_wrap_add_step(self.cache_misses, 0);
        }
        let ghost pre = *self;
        let entry = match self.index.lookup(&index_key) {
            Some(e) => e,
            None => {
                self.cache_misses = self.cache_misses.wrapping_add(1);
                return Err(ServiceError::NotFound);
            },
        };
        self.cache_hits = self.cache_hits.wrapping_add(1);
        let ghost bl = entry.blocks@;
        let ghost ds = pre.stored_at(index_key)->0;
        let ghost pool = self.allocator.spec_pool();
        proof {
            assert(bl == pre.index.entries()[index_key].0);
            lemma_entry_len(pre.allocator, pre.index, index_key);
            pool.lemma_wf();
            assert forall|x: int| 0 <= x < bl.len() implies location_valid(pre.allocator, #[trigger] bl[x]) by {
                assert(location_valid(pre.allocator, pre.index.entries()[index_key].0[x]));
            }
        }

        // Header first.
        let n = entry.blocks.len();
        let mut total_size: u64 = 0;
        let mut i: usize = 0;
        while i < n
            invariant
                n == bl.len(),
                bl == entry.blocks@,
                i <= n,
                n <= pool.spec_total_blocks(),
                pool.spec_total_size() == pool.spec_total_blocks() * pool.spec_block_size(),
                pool.spec_total_size() <= usize::MAX,
                forall|x: int| 0 <= x < bl.len() ==> (#[trigger] bl[x]).block_size == pool.spec_block_size(),
                total_size == sum_sizes(bl.take(i as int)),
                total_size == i * pool.spec_block_size(),
            decreases n - i,
        {
            proof {
                assert((i + 1) * pool.spec_block_size() <= pool.spec_total_blocks() * pool.spec_block_size())
                    by (nonlinear_arith)
                    requires
                        i + 1 <= pool.spec_total_blocks(),
                ;
                assert((i + 1) * pool.spec_block_size() == i * pool.spec_block_size() + pool.spec_block_size())
                    by (nonlinear_arith);
                assert(bl.take(i + 1).drop_last() =~= bl.take(i as int));
            }
            total_size = total_size + entry.blocks[i].block_size;
            i = i + 1;
        }
        proof {
            assert(bl.take(n as int) =~= bl);
        }
        let generation_id = if n > 0 {
            entry.blocks[0].generation
        } else {
            0
        };
        let header = GetHeaderInfo { total_size, num_blocks: #[verifier::truncate] (n as u32), generation_id };

        // Then the data blocks, up to the first that fails its check.
        let mut chunks: Vec<Vec<u8>> = Vec::new();
        let mut data_loss = false;
        let mut i: usize = 0;
        while i < n
            invariant_except_break
                !data_loss,
            invariant
                n == bl.len(),
                bl == entry.blocks@,
                ds == bl.map_values(|l: BlockLocation| self.allocator.stored(handle_of(l))),
                self.allocator == pre.allocator,
                self.allocator.wf(),
                self.allocator.spec_pool().spec_pool_id() == 0,
                forall|x: int| 0 <= x < bl.len() ==> location_valid(self.allocator, #[trigger] bl[x]),
                i <= n,
                chunks@.len() == i,
                forall|x: int| 0 <= x < i ==> ds[x] == Some(#[trigger] chunks@[x]@),
            ensures
                data_loss ==> i < n && ds[i as int] is None,
                !data_loss ==> i == n,
            decreases n - i,
        {
            let loc = entry.blocks[i];
            let handle = BlockHandle {
                pool_id: 0,
                block_index: loc.block_index,
                offset: loc.offset as usize,
                size: loc.block_size as usize,
            };
            proof {
                assert(location_valid(self.allocator, bl[i as int]));
                assert(handle == handle_of(loc));
            }
            match self.allocator.read_verified(&handle) {
                Some(data) => {
                    chunks.push(data);
                },
                None => {
                    data_loss = true;
                    break;
                },
            }
            i = i + 1;
        }
        Ok(GetReply { header, chunks, data_loss })
    }

    /// Delete the entry for a prefix hash (keyed by the hash itself, with no
    /// model id), returning its blocks to the pool.
    pub fn delete(&mut self, prefix_hash: &[u8]) -> (r: Result<DeleteReply, ServiceError>)
        requires
            old(self).wf(),
        ensures
            final(self).wf(),
            final(self).spec_remote() == old(self).spec_remote(),
            final(self).hits() == old(self).hits(),
            final(self).misses() == old(self).misses(),
            final(self).spec_evictions() == old(self).spec_evictions(),
            prefix_hash@.len() != 16 ==> r == Err::<DeleteReply, ServiceError>(ServiceError::InvalidPrefixHash) && *final(self) == *old(self),
            prefix_hash@.len() == 16 ==> {
                let key = hash_from_bytes(prefix_hash@);
                let entries = old(self).spec_index().entries();
                &&& r matches Ok(reply)
                &&& final(self).spec_index().entries() == entries.remove(key)
                &&& final(self).spec_index().recency() == old(self).spec_index().recency().remove_value(key)
                &&& same_pool(old(self).spec_allocator(), final(self).spec_allocator())
                &&& final(self).spec_allocator().spec_pool().bytes() == old(self).spec_allocator().spec_pool().bytes()
                &&& keeps_other_data(*old(self), *final(self), key)
                &&& entries.contains_key(key) ==> {
                    &&& reply.success && reply.blocks_freed == entries[key].0.len()
                    &&& final(self).spec_allocator().spec_pool().free() == old(self).spec_allocator().spec_pool().free()
                        + entry_blocks(entries[key].0)
                }
                &&& !entries.contains_key(key) ==> !reply.success && reply.blocks_freed == 0
                    && final(self).spec_allocator() == old(self).spec_allocator()
            },
    {
        let h = parse_prefix_hash(prefix_hash)?;
        let ghost pre = *self;
        match self.index.remove(&h) {
            Some(entry) => {
                let ghost e0 = pre.index.entries();
                let ghost bl = entry.blocks@;
                let ghost f = pre.allocator.spec_pool().free();
                proof {
                    assert(e0.contains_key(h));
                    assert(bl == e0[h].0);
                }
                let ghost index_after = self.index;
                let mut i: usize = 0;
                while i < entry.blocks.len()
                    invariant
                        bl == entry.blocks@,
                        bl == e0[h].0,
                        e0.contains_key(h),
                        e0 == pre.index.entries(),
                        self.index == index_after,
                        self.evictions == pre.evictions,
                        self.cache_hits == pre.cache_hits,
                        self.cache_misses == pre.cache_misses,
                        self.remote_index == pre.remote_index,
                        self.node_id == pre.node_id,
                        i <= bl.len(),
                        forall|k: PrefixHash, x: int|
                            e0.contains_key(k) && 0 <= x < e0[k].0.len() ==> location_valid(
                                pre.allocator,
                                #[trigger] e0[k].0[x],
                            ),
                        self.allocator.wf(),
                        same_pool(pre.allocator, self.allocator),
                        pre.allocator.spec_pool().spec_pool_id() == 0,
                        self.allocator.spec_pool().bytes() == pre.allocator.spec_pool().bytes(),
                        self.allocator.spec_generation() == pre.allocator.spec_generation(),
                        self.allocator.spec_node_id() == pre.allocator.spec_node_id(),
                        self.allocator.spec_pool().free() == f + entry_blocks(bl.take(i as int)),
                    decreases bl.len() - i,
                {
                    let loc = entry.blocks[i];
                    proof {
                        assert(location_valid(pre.allocator, e0[h].0[i as int]));
                    }
                    let handle = BlockHandle {
                        pool_id: 0,
                        block_index: loc.block_index,
                        offset: loc.offset as usize,
                        size: loc.block_size as usize,
                    };
                    self.allocator.deallocate(handle);
                    proof {
                        assert(bl.take(i + 1) =~= bl.take(i as int).push(loc));
                        assert(entry_blocks(bl.take(i + 1)) =~= entry_blocks(bl.take(i as int)).push(block_of(loc)));
                    }
                    i = i + 1;
                }
                proof {
                    assert(bl.take(i as int) =~= bl);
                    lemma_delete_consistent(pre, *self, h);
                }
                Ok(DeleteReply { success: true, blocks_freed: entry.blocks.len() as u64 })
            },
            None => {
                proof {
                    assert(self.index.entries() =~= pre.index.entries());
                }
                Ok(DeleteReply { success: false, blocks_freed: 0 })
            },
        }
    }

    /// Pool utilization and the counters.
    pub fn stats(&self) -> (st: StatsReply)
        requires
            self.wf(),
        ensures
            ({
                let pool = self.spec_allocator().spec_pool();
                let used = if pool.free().len() <= pool.spec_total_blocks() {
                    pool.spec_total_blocks() - pool.free().len()
                } else {
                    0
                };
                &&& st.total_blocks == pool.spec_total_blocks()
                &&& st.used_blocks == used
                &&& st.memory_used_bytes == used * pool.spec_block_size()
                &&& st.memory_total_bytes == pool.spec_total_size()
                &&& st.cache_hits == self.hits()
                &&& st.cache_misses == self.misses()
                &&& st.evictions == self.spec_evictions()
            }),
    {
        let pool_stats = self.allocator.stats();
        StatsReply {
            total_blocks: pool_stats.total_blocks as u64,
            used_blocks: pool_stats.used_blocks as u64,
            cache_hits: self.cache_hits,
            cache_misses: self.cache_misses,
            evictions: self.evictions,
            memory_used_bytes: pool_stats.used_bytes as u64,
            memory_total_bytes: pool_stats.total_bytes as u64,
        }
    }

    /// Pool statistics.
    pub fn pool_stats(&self) -> (st: PoolStats)
        requires
            self.wf(),
        ensures
            st.total_blocks == self.spec_allocator().spec_pool().spec_total_blocks(),
            st.free_blocks == self.spec_allocator().spec_pool().free().len(),
            st.total_bytes == self.spec_allocator().spec_pool().spec_total_size(),
    {
        self.allocator.stats()
    }

    /// The block allocator.
    pub fn allocator(&self) -> (a: &BlockAllocator)
        ensures
            *a == self.spec_allocator(),
    {
        &self.allocator
    }

    /// The local block index.
    pub fn index(&self) -> (i: &BlockIndex)
        ensures
            *i == self.spec_index(),
    {
        &self.index
    }

    /// This node's id.
    pub fn node_id(&self) -> (s: &str)
        ensures
            s@ == self.spec_node_id(),
    {
        self.node_id.as_str()
    }
}

/// What a store puts in is what a get takes out: right after a successful
/// store of data whose length fits the header's 32-bit size field, the
/// cache holds under the key one block, which holds exactly that data (so
/// `get` returns it as its one chunk, with no data loss).
pub proof fn lemma_get_after_store(
    pre: CacheCore,
    post: CacheCore,
    key: PrefixHash,
    data: Seq<u8>,
    now: u64,
    reply: StoreReply,
    publish: PublishRecord,
)
    requires
        pre.wf(),
        post.wf(),
        store_outcome(pre, post, key, data, now, reply, publish),
        data.len() <= u32::MAX,
    ensures
        post.spec_index().entries().contains_key(key),
        post.stored_at(key) == Some(seq![Some(data)]),
{
    let a = pre.spec_allocator();
    let gen = a.spec_generation();
    let idx = a.spec_pool().free().last();
    let loc = BlockLocation {
        node_id: a.spec_node_id(),
        block_index: idx as u32,
        offset: (idx * a.spec_pool().spec_block_size()) as u64,
        block_size: a.spec_pool().spec_block_size() as u64,
        generation: gen,
    };
    let evicted = choose|evicted: Seq<PrefixHash>| {
        &&& BlockIndex::insert_post(pre.spec_index(), post.spec_index(), key, seq![loc], now, evicted)
        &&& post.spec_evictions() == wrap_add(pre.spec_evictions(), evicted.len())
    };
    assert(post.spec_index().entries().contains_key(key));
    assert(post.spec_index().entries()[key].0 == seq![loc]);
    let b = post.spec_index().entries()[key].0[0];
    assert(b == loc);
    post.lemma_valid_location(key, 0);
    lemma_read_after_write(post.spec_allocator(), handle_of(loc), gen, data);
    assert(post.stored_at(key)->0 =~= seq![Some(data)]);
}

/// What a store put in stays readable: the entry and data under `key` are
/// still there (and so still what `lookup` and `get` return) after a
/// lookup, a get or a batch lookup, and after a store or delete of another
/// key that leaves `key` indexed.
pub proof fn lemma_stored_data_survives(
    pre: CacheCore,
    post: CacheCore,
    key: PrefixHash,
    other: PrefixHash,
    data: Seq<Option<Seq<u8>>>,
)
    requires
        pre.stored_at(key) == Some(data),
        keeps_data(pre, post) || (keeps_other_data(pre, post, other) && other != key
            && post.spec_index().entries().contains_key(key)),
    ensures
        post.stored_at(key) == Some(data),
        post.spec_index().entries()[key] == pre.spec_index().entries()[key],
{
}

/// A lookup or get after a store finds the stored block: right after a
/// successful store, the key's entry is the one block the store wrote, so
/// `lookup` returns this node's location of it (the offset and size
/// published, under the reply's generation) and `get` a header of that
/// size and generation with one block.
pub proof fn lemma_entry_after_store(
    pre: CacheCore,
    post: CacheCore,
    key: PrefixHash,
    data: Seq<u8>,
    now: u64,
    reply: StoreReply,
    publish: PublishRecord,
)
    requires
        pre.wf(),
        post.wf(),
        store_outcome(pre, post, key, data, now, reply, publish),
    ensures
        post.spec_index().entries().contains_key(key),
        post.spec_index().entries()[key].0.len() == 1,
        local_wire(post.spec_node_id(), post.spec_index().entries()[key].0) == seq![
            (post.spec_node_id(), publish.offset, publish.size, reply.generation_id),
        ],
        post.spec_index().entries()[key].0[0].block_size == publish.size,
        post.spec_index().entries()[key].0[0].generation == reply.generation_id,
        sum_sizes(post.spec_index().entries()[key].0) == publish.size,
{
    let a = pre.spec_allocator();
    let gen = a.spec_generation();
    let idx = a.spec_pool().free().last();
    let loc = BlockLocation {
        node_id: a.spec_node_id(),
        block_index: idx as u32,
        offset: (idx * a.spec_pool().spec_block_size()) as u64,
        block_size: a.spec_pool().spec_block_size() as u64,
        generation: gen,
    };
    let evicted = choose|evicted: Seq<PrefixHash>| {
        &&& BlockIndex::insert_post(pre.spec_index(), post.spec_index(), key, seq![loc], now, evicted)
        &&& post.spec_allocator().spec_pool().free() == a.spec_pool().free().drop_last() + freed_blocks(
            pre.spec_index().entries(),
            evicted,
        )
        &&& post.spec_evictions() == wrap_add(pre.spec_evictions(), evicted.len())
    };
    assert(post.spec_index().entries()[key].0 == seq![loc]);
    assert(local_wire(post.spec_node_id(), seq![loc]) =~= seq![
        (post.spec_node_id(), publish.offset, publish.size, reply.generation_id),
    ]);
    assert(seq![loc].drop_last() =~= Seq::<BlockLocation>::empty());
    assert(sum_sizes(Seq::<BlockLocation>::empty()) == 0);
    assert(sum_sizes(seq![loc]) == loc.block_size);
}

/// A remote hit is answered with the record's own node, offset, size and
/// generation.
pub proof fn lemma_remote_wire_fields(info: RemoteBlockInfo)
    ensures
        remote_wire(info).0 == info.node_id@,
        remote_wire(info).1 == info.offset,
        remote_wire(info).2 == info.size,
        remote_wire(info).3 == info.generation,
{
}

/// A local hit is answered with one wire location per block of the entry,
/// in the entry's order, each with this node's id and the block's own
/// offset, size and generation.
pub proof fn lemma_local_wire_fields(node: Seq<char>, blocks: Seq<BlockLocation>)
    ensures
        local_wire(node, blocks).len() == blocks.len(),
        forall|i: int|
            0 <= i < blocks.len() ==> #[trigger] local_wire(node, blocks)[i] == (
                node,
                blocks[i].offset,
                blocks[i].block_size,
                blocks[i].generation,
            ),
{
}

/// The locations of a batch come in request order: those of a batch
/// that is two batches one after the other are those of the first batch,
/// then those of the second; a batch of one key gives that key's
/// locations if it is a hit and none otherwise.
pub proof fn lemma_batch_wire_in_request_order(
    node: Seq<char>,
    k1: Seq<PrefixHash>,
    k2: Seq<PrefixHash>,
    entries: Map<PrefixHash, (Seq<BlockLocation>, u64)>,
)
    ensures
        batch_wire(node, k1 + k2, entries) == batch_wire(node, k1, entries) + batch_wire(node, k2, entries),
        forall|k: PrefixHash|
            #[trigger] batch_wire(node, seq![k], entries) == if entries.contains_key(k) {
                local_wire(node, entries[k].0)
            } else {
                Seq::empty()
            },
    decreases k2.len(),
{
    assert forall|k: PrefixHash|
        #[trigger] batch_wire(node, seq![k], entries) == if entries.contains_key(k) {
            local_wire(node, entries[k].0)
        } else {
            Seq::empty()
        } by {
        assert(seq![k].drop_last() =~= Seq::<PrefixHash>::empty());
        assert(batch_wire(node, Seq::<PrefixHash>::empty(), entries) =~= Seq::empty());
        assert(batch_wire(node, seq![k], entries) =~= batch_wire(node, Seq::<PrefixHash>::empty(), entries) + if entries.contains_key(k) {
            local_wire(node, entries[k].0)
        } else {
            Seq::empty()
        });
    }
    if k2.len() == 0 {
        assert(k1 + k2 =~= k1);
        assert(batch_wire(node, k2, entries) =~= Seq::empty());
        assert(batch_wire(node, k1, entries) + batch_wire(node, k2, entries) =~= batch_wire(node, k1, entries));
    } else {
        lemma_batch_wire_in_request_order(node, k1, k2.drop_last(), entries);
        assert((k1 + k2).drop_last() =~= k1 + k2.drop_last());
        assert((k1 + k2).last() == k2.last());
        let tail = if entries.contains_key(k2.last()) {
            local_wire(node, entries[k2.last()].0)
        } else {
            Seq::empty()
        };
        assert(batch_wire(node, k1 + k2, entries) =~= batch_wire(node, k1, entries) + batch_wire(
            node,
            k2.drop_last(),
            entries,
        ) + tail);
        assert(batch_wire(node, k1, entries) + batch_wire(node, k2, entries) =~= batch_wire(node, k1, entries)
            + batch_wire(node, k2.drop_last(), entries) + tail);
    }
}

/// Hits are counted one per key of the request that the index holds: the
/// count of two batches one after the other is the sum of their counts,
/// and a batch of one key counts 1 for a hit and 0 for a miss.
pub proof fn lemma_hit_count_adds_up(
    k1: Seq<PrefixHash>,
    k2: Seq<PrefixHash>,
    entries: Map<PrefixHash, (Seq<BlockLocation>, u64)>,
)
    ensures
        hit_count(k1 + k2, entries) == hit_count(k1, entries) + hit_count(k2, entries),
        forall|k: PrefixHash| #[trigger] hit_count(seq![k], entries) == if entries.contains_key(k) { 1nat } else { 0nat },
    decreases k2.len(),
{
    assert forall|k: PrefixHash| #[trigger] hit_count(seq![k], entries) == if entries.contains_key(k) {
        1nat
    } else {
        0nat
    } by {
        assert(seq![k].drop_last() =~= Seq::<PrefixHash>::empty());
        assert(hit_count(Seq::<PrefixHash>::empty(), entries) == 0);
        assert(seq![k].last() == k);
    }
    if k2.len() == 0 {
        assert(k1 + k2 =~= k1);
    } else {
        lemma_hit_count_adds_up(k1, k2.drop_last(), entries);
        assert((k1 + k2).drop_last() =~= k1 + k2.drop_last());
        assert((k1 + k2).last() == k2.last());
    }
}

/// A batch lookup touches its keys one after the other: touching two
/// batches in turn is touching the first, then the second from there; one
/// key that is a hit moves to the front (once), and a miss changes nothing.
pub proof fn lemma_touched_in_turn(
    r: Seq<PrefixHash>,
    k1: Seq<PrefixHash>,
    k2: Seq<PrefixHash>,
    entries: Map<PrefixHash, (Seq<BlockLocation>, u64)>,
)
    ensures
        touched(r, k1 + k2, entries) == touched(touched(r, k1, entries), k2, entries),
        forall|k: PrefixHash| #[trigger] touched(r, seq![k], entries) == if entries.contains_key(k) {
            seq![k] + r.remove_value(k)
        } else {
            r
        },
    decreases k2.len(),
{
    assert forall|k: PrefixHash| #[trigger] touched(r, seq![k], entries) == if entries.contains_key(k) {
        seq![k] + r.remove_value(k)
    } else {
        r
    } by {
        assert(seq![k].drop_last() =~= Seq::<PrefixHash>::empty());
        assert(touched(r, Seq::<PrefixHash>::empty(), entries) == r);
        assert(seq![k].last() == k);
    }
    if k2.len() == 0 {
        assert(k1 + k2 =~= k1);
    } else {
        lemma_touched_in_turn(r, k1, k2.drop_last(), entries);
        assert((k1 + k2).drop_last() =~= k1 + k2.drop_last());
        assert((k1 + k2).last() == k2.last());
    }
}

} // verus!
