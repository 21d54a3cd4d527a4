//! Prefix hash → block location index.
//!
//! Maps truncated prefix hashes (16 bytes) to block locations, in a
//! `dashmap::DashMap`, with LRU eviction once the index is at capacity.
use dashmap::DashMap;
use vstd::prelude::*;

use crate::block::BlockLocation;
use crate::eviction::{lemma_first_of_distinct, lemma_remove_absent, LruPolicy};
use crate::prefix::PrefixHash;

verus! {

/// An entry in the index: one prefix hash can map to multiple contiguous blocks.
#[derive(Debug, Clone)]
pub struct IndexEntry {
    /// Locations of all blocks for this prefix (ordered by sequence).
    pub blocks: Vec<BlockLocation>,
    /// Timestamp (monotonic) of when this entry was created.
    pub created_at: u64,
}

impl View for IndexEntry {
    type V = (Seq<BlockLocation>, u64);

    open spec fn view(&self) -> (Seq<BlockLocation>, u64) {
        (self.blocks@, self.created_at)
    }
}

impl IndexEntry {
    /// A copy of the entry.
    pub fn duplicate(&self) -> (e: Self)
        ensures
            e@ == self@,
    {
        let mut blocks: Vec<BlockLocation> = Vec::with_capacity(self.blocks.len());
        let mut i: usize = 0;
        while i < self.blocks.len()
            invariant
                i <= self.blocks@.len(),
                blocks@ == self.blocks@.subrange(0, i as int),
            decreases self.blocks@.len() - i,
        {
            blocks.push(self.blocks[i]);
            i = i + 1;
            assert(blocks@ =~= self.blocks@.subrange(0, i as int));
        }
        assert(blocks@ =~= self.blocks@);
        IndexEntry { blocks, created_at: self.created_at }
    }
}

/// The map type of an index.
pub type EntryMap = DashMap<PrefixHash, IndexEntry>;

/// What an index's `DashMap` holds, each entry by its view.
pub uninterp spec fn index_map(m: EntryMap) -> Map<PrefixHash, (Seq<BlockLocation>, u64)>;

/// `DashMap::with_capacity`: an empty map.
#[verifier::external_body]
fn index_map_with_capacity(capacity: usize) -> (m: EntryMap)
    ensures
        index_map(m).is_empty(),
{
    DashMap::with_capacity(capacity)
}

/// `DashMap::view`: a copy of the entry stored under `key`, if any.
#[verifier::external_body]
fn index_map_get(m: &EntryMap, key: &PrefixHash) -> (r: Option<IndexEntry>)
    ensures
        match r {
            Some(e) => index_map(*m).contains_key(*key) && index_map(*m)[*key] == e@,
            None => !index_map(*m).contains_key(*key),
        },
{
    m.view(key, |_, v| v.duplicate())
}

/// `DashMap::contains_key`.
#[verifier::external_body]
fn index_map_contains(m: &EntryMap, key: &PrefixHash) -> (b: bool)
    ensures
        b == index_map(*m).contains_key(*key),
{
    m.contains_key(key)
}

/// `DashMap::insert`: the entry under `key` becomes `value`.
#[verifier::external_body]
fn index_map_insert(m: &mut EntryMap, key: PrefixHash, value: IndexEntry)
    ensures
        index_map(*final(m)) == index_map(*old(m)).insert(key, value@),
{
    m.insert(key, value);
}

/// `DashMap::remove`: the entry under `key` leaves the map and is returned.
#[verifier::external_body]
fn index_map_remove(m: &mut EntryMap, key: &PrefixHash) -> (r: Option<IndexEntry>)
    ensures
        index_map(*final(m)) == index_map(*old(m)).remove(*key),
        match r {
            Some(e) => index_map(*old(m)).contains_key(*key) && index_map(*old(m))[*key] == e@,
            None => !index_map(*old(m)).contains_key(*key),
        },
{
    match m.remove(key) {
        Some((_, v)) => Some(v),
        None => None,
    }
}

/// `DashMap::len`: the number of entries.
#[verifier::external_body]
fn index_map_len(m: &EntryMap) -> (n: usize)
    ensures
        n == index_map(*m).len(),
{
    m.len()
}

/// `DashMap::is_empty`.
#[verifier::external_body]
fn index_map_is_empty(m: &EntryMap) -> (b: bool)
    ensures
        b == (index_map(*m).len() == 0),
{
    m.is_empty()
}

/// How many entries an insert of a new key evicts from an index holding
/// `n` entries: enough to get below the capacity, but no more than there are.
pub open spec fn evict_count(n: nat, capacity: nat) -> nat {
    if n < capacity {
        0
    } else if capacity == 0 {
        n
    } else {
        (n + 1 - capacity) as nat
    }
}

/// The hashes evicted from recency list `r` (most recent first) when `e`
/// entries go: the least recent first.
pub open spec fn evicted_hashes(r: Seq<PrefixHash>, e: nat) -> Seq<PrefixHash> {
    Seq::new(e, |i: int| r[r.len() - 1 - i])
}

/// Concurrent prefix hash → block location index with LRU eviction.
pub struct BlockIndex {
    map: EntryMap,
    lru: LruPolicy,
    /// Maximum number of entries before eviction kicks in.
    capacity: usize,
}

impl BlockIndex {
    /// The entries, by prefix hash.
    pub closed spec fn entries(&self) -> Map<PrefixHash, (Seq<BlockLocation>, u64)> {
        index_map(self.map)
    }

    /// The prefix hashes of the entries, most recently used first.
    pub closed spec fn recency(&self) -> Seq<PrefixHash> {
        self.lru@
    }

    pub closed spec fn spec_capacity(&self) -> nat {
        self.capacity as nat
    }

    pub closed spec fn wf(&self) -> bool {
        &&& self.lru.wf()
        &&& index_map(self.map).dom().finite()
        &&& index_map(self.map).dom() == self.lru@.to_set()
    }

    /// The recency list names each entry once.
    pub proof fn lemma_wf(&self)
        requires
            self.wf(),
        ensures
            self.recency().no_duplicates(),
            self.entries().dom() == self.recency().to_set(),
            self.entries().len() == self.recency().len(),
            self.entries().dom().finite(),
    {
        self.lru.lemma_distinct();
        self.lru@.unique_seq_to_set();
    }

    pub fn new(capacity: usize) -> (idx: Self)
        ensures
            idx.wf(),
            idx.entries() == Map::<PrefixHash, (Seq<BlockLocation>, u64)>::empty(),
            idx.recency() == Seq::<PrefixHash>::empty(),
            idx.spec_capacity() == capacity,
    {
        let idx = BlockIndex { map: index_map_with_capacity(capacity), lru: LruPolicy::new(), capacity };
        assert(idx.lru@.to_set() =~= Set::<PrefixHash>::empty());
        idx
    }

    /// Look up the blocks for a prefix hash; a hit makes the hash the most
    /// recently used.
    pub fn lookup(&mut self, prefix_hash: &PrefixHash) -> (r: Option<IndexEntry>)
        requires
            old(self).wf(),
        ensures
            final(self).wf(),
            final(self).entries() == old(self).entries(),
            final(self).spec_capacity() == old(self).spec_capacity(),
            match r {
                Some(e) => {
                    &&& old(self).entries().contains_key(*prefix_hash)
                    &&& e@ == old(self).entries()[*prefix_hash]
                    &&& final(self).recency() == seq![*prefix_hash] + old(self).recency().remove_value(
                        *prefix_hash,
                    )
                },
                None => {
                    &&& !old(self).entries().contains_key(*prefix_hash)
                    &&& final(self).recency() == old(self).recency()
                },
            },
    {
        let entry = match index_map_get(&self.map, prefix_hash) {
            Some(e) => e,
            None => return None,
        };
        let ghost pre = self.lru@;
        self.lru.touch(prefix_hash);
        proof {
            self.lru.lemma_distinct();
            assert(pre.contains(*prefix_hash));
            assert(self.lru@.to_set() =~= pre.to_set()) by {
                let i = choose|i: int| 0 <= i < pre.len() && pre[i] == *prefix_hash;
                old(self).lru.lemma_distinct();
                lemma_first_of_distinct(pre, i, *prefix_hash);
                assert forall|x: PrefixHash| pre.to_set().contains(x) implies self.lru@.to_set().contains(x) by {
                    if x != *prefix_hash {
                        let j = choose|j: int| 0 <= j < pre.len() && pre[j] == x;
                        let k = if j < i { j } else { j - 1 };
                        assert(self.lru@[k + 1] == pre.remove(i)[k]);
                    } else {
                        assert(self.lru@[0] == x);
                    }
                }
                assert forall|x: PrefixHash| self.lru@.to_set().contains(x) implies pre.to_set().contains(x) by {
                    let j = choose|j: int| 0 <= j < self.lru@.len() && self.lru@[j] == x;
                    if j > 0 {
                        let k = j - 1;
                        let oj = if k < i { k } else { k + 1 };
                        assert(pre.remove(i)[k] == pre[oj]);
                    }
                }
            }
        }
        Some(entry)
    }

    /// What an insert of `blocks` under `h` does to the index `pre`,
    /// giving `post` and the evicted hashes `evicted`.
    pub open spec fn insert_post(
        pre: BlockIndex,
        post: BlockIndex,
        h: PrefixHash,
        blocks: Seq<BlockLocation>,
        created_at: u64,
        evicted: Seq<PrefixHash>,
    ) -> bool {
        let r = pre.recency();
        &&& post.spec_capacity() == pre.spec_capacity()
        &&& pre.entries().contains_key(h) ==> {
            &&& evicted == Seq::<PrefixHash>::empty()
            &&& post.entries() == pre.entries().insert(h, (blocks, created_at))
            &&& post.recency() == seq![h] + r.remove_value(h)
        }
        &&& !pre.entries().contains_key(h) ==> {
            let e = evict_count(r.len(), pre.spec_capacity());
            &&& evicted == evicted_hashes(r, e)
            &&& post.entries() == pre.entries().remove_keys(evicted.to_set()).insert(
                h,
                (blocks, created_at),
            )
            &&& post.recency() == seq![h] + r.take(r.len() - e)
        }
    }

    /// Insert blocks for a prefix hash. A new hash first evicts least
    /// recently used entries while the index is at capacity; an update of a
    /// present hash evicts nothing. The hash becomes the most recently used.
    /// Returns the evicted prefix hashes, least recent first.
    pub fn insert(&mut self, prefix_hash: PrefixHash, blocks: Vec<BlockLocation>, created_at: u64) -> (evicted: Vec<PrefixHash>)
        requires
            old(self).wf(),
        ensures
            final(self).wf(),
            Self::insert_post(*old(self), *final(self), prefix_hash, blocks@, created_at, evicted@),
    {
        let (evicted, _entries) = self.insert_evicting(prefix_hash, blocks, created_at);
        evicted
    }

    /// `insert`, also handing back the evicted entries, in the order of the
    /// evicted hashes.
    pub fn insert_evicting(&mut self, prefix_hash: PrefixHash, blocks: Vec<BlockLocation>, created_at: u64) -> (res: (
        Vec<PrefixHash>,
        Vec<IndexEntry>,
    ))
        requires
            old(self).wf(),
        ensures
            final(self).wf(),
            Self::insert_post(*old(self), *final(self), prefix_hash, blocks@, created_at, res.0@),
            res.1@.len() == res.0@.len(),
            forall|j: int| 0 <= j < res.0@.len() ==> #[trigger] res.1@[j]@ == old(self).entries()[res.0@[j]],
    {
        let mut evicted: Vec<PrefixHash> = Vec::new();
        let mut entries: Vec<IndexEntry> = Vec::new();
        proof {
            self.lemma_wf();
        }
        let ghost r = self.lru@;
        let ghost m0 = index_map(self.map);
        let ghost n = r.len();

        // Evict if at capacity (and this is a new entry, not an update).
        if !index_map_contains(&self.map, &prefix_hash) {
            while index_map_len(&self.map) >= self.capacity
                invariant_except_break
                    self.lru.wf(),
                    self.capacity == old(self).capacity,
                    r == old(self).lru@,
                    m0 == index_map(old(self).map),
                    n == r.len(),
                    r.no_duplicates(),
                    m0.dom() == r.to_set(),
                    !m0.contains_key(prefix_hash),
                    evicted@.len() <= n,
                    evicted@ == evicted_hashes(r, evicted@.len()),
                    self.lru@ == r.take(n - evicted@.len()),
                    index_map(self.map) == m0.remove_keys(evicted@.to_set()),
                    index_map(self.map).dom().finite(),
                    index_map(self.map).dom() == self.lru@.to_set(),
                    index_map(self.map).len() == self.lru@.len(),
                    evicted@.len() == 0 || n + 1 - evicted@.len() >= self.capacity,
                    entries@.len() == evicted@.len(),
                    forall|j: int| 0 <= j < evicted@.len() ==> #[trigger] entries@[j]@ == m0[evicted@[j]],
                ensures
                    entries@.len() == evicted@.len(),
                    forall|j: int| 0 <= j < evicted@.len() ==> #[trigger] entries@[j]@ == m0[evicted@[j]],
                    self.lru.wf(),
                    self.capacity == old(self).capacity,
                    evicted@.len() == evict_count(n, self.capacity as nat),
                    evicted@ == evicted_hashes(r, evicted@.len()),
                    self.lru@ == r.take(n - evicted@.len()),
                    index_map(self.map) == m0.remove_keys(evicted@.to_set()),
                    index_map(self.map).dom().finite(),
                    index_map(self.map).dom() == self.lru@.to_set(),
                decreases self.lru@.len(),
            {
                let victim = match self.lru.evict_lru() {
                    Some(v) => v,
                    None => {
                        proof {
                            assert(evicted@.len() == n);
                        }
                        break;
                    },
                };
                let ghost k = evicted@.len();
                let ghost lru_prev = r.take(n - k);
                proof {
                    assert(victim == r[n - 1 - k]);
                    assert(lru_prev[n - 1 - k] == victim);
                    assert(lru_prev.to_set().contains(victim));
                    assert(!evicted@.to_set().contains(victim)) by {
                        if evicted@.to_set().contains(victim) {
                            let j = choose|j: int| 0 <= j < evicted@.len() && evicted@[j] == victim;
                            assert(evicted@[j] == r[r.len() - 1 - j]);
                        }
                    }
                }
                let ghost entries_before = entries@;
                let removed = index_map_remove(&mut self.map, &victim);
                match removed {
                    Some(e) => {
                        entries.push(e);
                    },
                    None => {
                        assert(false);
                    },
                }
                evicted.push(victim);
                proof {
                    assert forall|j: int| 0 <= j < evicted@.len() implies #[trigger] entries@[j]@ == m0[evicted@[j]] by {
                        if j < k {
                            assert(entries@[j] == entries_before[j]);
                        }
                    }
                }
                proof {
                    let lru_before = r.take(n - k);
                    assert(victim == r[n - 1 - k]);
                    assert(self.lru@ =~= r.take(n - (k + 1)));
                    assert(evicted@ =~= evicted_hashes(r, (k + 1) as nat));
                    assert(index_map(self.map) =~= m0.remove_keys(evicted@.to_set())) by {
                        let prev = evicted_hashes(r, k as nat);
                        assert(evicted@ == prev.push(victim));
                        assert forall|x: PrefixHash| evicted@.to_set().contains(x) implies prev.to_set().insert(victim).contains(x) by {
                            let j = choose|j: int| 0 <= j < evicted@.len() && evicted@[j] == x;
                            if j < k {
                                assert(prev[j] == x);
                            }
                        }
                        assert forall|x: PrefixHash| prev.to_set().insert(victim).contains(x) implies evicted@.to_set().contains(x) by {
                            if x == victim {
                                assert(evicted@[k as int] == x);
                            } else {
                                let j = choose|j: int| 0 <= j < prev.len() && prev[j] == x;
                                assert(evicted@[j] == x);
                            }
                        }
                        assert(evicted@.to_set() =~= prev.to_set().insert(victim));
                    }
                    self.lru.lemma_distinct();
                    self.lru@.unique_seq_to_set();
                    assert(index_map(self.map).dom() =~= self.lru@.to_set()) by {
                        assert forall|x: PrefixHash| #[trigger] lru_before.to_set().contains(x) && x != victim
                            implies self.lru@.to_set().contains(x) by {
                            let j = choose|j: int| 0 <= j < lru_before.len() && lru_before[j] == x;
                            assert(j != n - 1 - k);
                            assert(self.lru@[j] == x);
                        }
                        assert forall|x: PrefixHash| self.lru@.to_set().contains(x) implies #[trigger] lru_before.to_set().contains(x)
                            && x != victim by {
                            let j = choose|j: int| 0 <= j < self.lru@.len() && self.lru@[j] == x;
                            assert(lru_before[j] == x);
                            assert(r[j] == x);
                            assert(r[n - 1 - k] == victim);
                        }
                    }
                    if index_map(self.map).len() < self.capacity {
                        assert(self.capacity > 0);
                    }
                }
            }
        }

        let entry = IndexEntry { blocks, created_at };
        index_map_insert(&mut self.map, prefix_hash, entry);
        let ghost lru_mid = self.lru@;
        self.lru.touch(&prefix_hash);

        proof {
            let m1 = index_map(self.map);
            self.lru.lemma_distinct();
            if m0.contains_key(prefix_hash) {
                assert(lru_mid == r);
                assert(r.contains(prefix_hash));
                let i = choose|i: int| 0 <= i < r.len() && r[i] == prefix_hash;
                lemma_first_of_distinct(r, i, prefix_hash);
                assert(evicted@ =~= Seq::<PrefixHash>::empty());
                assert(m1.dom() =~= self.lru@.to_set()) by {
                    assert forall|x: PrefixHash| m1.dom().contains(x) implies self.lru@.to_set().contains(x) by {
                        if x == prefix_hash {
                            assert(self.lru@[0] == x);
                        } else {
                            let j = choose|j: int| 0 <= j < r.len() && r[j] == x;
                            let k = if j < i { j } else { j - 1 };
                            assert(self.lru@[k + 1] == r.remove(i)[k]);
                        }
                    }
                    assert forall|x: PrefixHash| self.lru@.to_set().contains(x) implies m1.dom().contains(x) by {
                        let j = choose|j: int| 0 <= j < self.lru@.len() && self.lru@[j] == x;
                        if j > 0 {
                            let k = j - 1;
                            let oj = if k < i { k } else { k + 1 };
                            assert(r.remove(i)[k] == r[oj]);
                        }
                    }
                }
            } else {
                assert(!lru_mid.contains(prefix_hash)) by {
                    if lru_mid.contains(prefix_hash) {
                        let j = choose|j: int| 0 <= j < lru_mid.len() && lru_mid[j] == prefix_hash;
                        assert(r[j] == prefix_hash);
                        assert(r.to_set().contains(prefix_hash));
                    }
                }
                lemma_remove_absent(lru_mid, prefix_hash);
                assert(m1.dom() =~= self.lru@.to_set()) by {
                    assert forall|x: PrefixHash| m1.dom().contains(x) implies self.lru@.to_set().contains(x) by {
                        if x == prefix_hash {
                            assert(self.lru@[0] == x);
                        } else {
                            let j = choose|j: int| 0 <= j < lru_mid.len() && lru_mid[j] == x;
                            assert(self.lru@[j + 1] == x);
                        }
                    }
                    assert forall|x: PrefixHash| self.lru@.to_set().contains(x) implies m1.dom().contains(x) by {
                        let j = choose|j: int| 0 <= j < self.lru@.len() && self.lru@[j] == x;
                        if j > 0 {
                            assert(lru_mid[j - 1] == x);
                        }
                    }
                }
            }
        }

        (evicted, entries)
    }

    /// Remove an entry by prefix hash, returning it.
    pub fn remove(&mut self, prefix_hash: &PrefixHash) -> (r: Option<IndexEntry>)
        requires
            old(self).wf(),
        ensures
            final(self).wf(),
            final(self).spec_capacity() == old(self).spec_capacity(),
            final(self).entries() == old(self).entries().remove(*prefix_hash),
            final(self).recency() == old(self).recency().remove_value(*prefix_hash),
            match r {
                Some(e) => old(self).entries().contains_key(*prefix_hash) && e@ == old(
                    self,
                ).entries()[*prefix_hash],
                None => !old(self).entries().contains_key(*prefix_hash),
            },
    {
        proof {
            self.lemma_wf();
        }
        let ghost pre = self.lru@;
        let entry = match index_map_remove(&mut self.map, prefix_hash) {
            Some(e) => e,
            None => {
                proof {
                    assert(!pre.contains(*prefix_hash)) by {
                        if pre.contains(*prefix_hash) {
                            let j = choose|j: int| 0 <= j < pre.len() && pre[j] == *prefix_hash;
                            assert(pre.to_set().contains(*prefix_hash));
                        }
                    }
                    lemma_remove_absent(pre, *prefix_hash);
                    assert(index_map(self.map) =~= index_map(old(self).map));
                }
                return None;
            },
        };
        self.lru.remove(prefix_hash);
        proof {
            assert(pre.to_set().contains(*prefix_hash));
            let i = choose|i: int| 0 <= i < pre.len() && pre[i] == *prefix_hash;
            lemma_first_of_distinct(pre, i, *prefix_hash);
            assert(index_map(self.map).dom() =~= self.lru@.to_set()) by {
                assert forall|x: PrefixHash| index_map(self.map).dom().contains(x) implies self.lru@.to_set().contains(x) by {
                    let j = choose|j: int| 0 <= j < pre.len() && pre[j] == x;
                    assert(j != i);
                    let k = if j < i { j } else { j - 1 };
                    assert(self.lru@[k] == x);
                }
                assert forall|x: PrefixHash| self.lru@.to_set().contains(x) implies index_map(self.map).dom().contains(x) by {
                    let k = choose|k: int| 0 <= k < self.lru@.len() && self.lru@[k] == x;
                    let oj = if k < i { k } else { k + 1 };
                    assert(pre[oj] == x);
                }
            }
        }
        Some(entry)
    }

    /// Number of entries in the index.
    pub fn len(&self) -> (n: usize)
        requires
            self.wf(),
        ensures
            n == self.entries().len(),
    {
        index_map_len(&self.map)
    }

    pub fn is_empty(&self) -> (b: bool)
        requires
            self.wf(),
        ensures
            b == (self.entries().len() == 0),
    {
        index_map_is_empty(&self.map)
    }

    /// Whether a prefix hash is present, without touching the LRU.
    pub fn contains(&self, prefix_hash: &PrefixHash) -> (b: bool)
        requires
            self.wf(),
        ensures
            b == self.entries().contains_key(*prefix_hash),
    {
        index_map_contains(&self.map, prefix_hash)
    }
}

/// After an insert, the index holds the inserted blocks under the hash,
/// and the hash is the most recently used.
pub proof fn lemma_lookup_after_insert(
    pre: BlockIndex,
    post: BlockIndex,
    h: PrefixHash,
    blocks: Seq<BlockLocation>,
    created_at: u64,
    evicted: Seq<PrefixHash>,
)
    requires
        pre.wf(),
        post.wf(),
        BlockIndex::insert_post(pre, post, h, blocks, created_at, evicted),
    ensures
        post.entries().contains_key(h),
        post.entries()[h] == (blocks, created_at),
        post.recency()[0] == h,
{
}

/// An insert keeps an index within its capacity (or within one entry, for
/// capacity zero): a new hash evicts until there is room for it, an update
/// adds nothing.
pub proof fn lemma_insert_within_capacity(
    pre: BlockIndex,
    post: BlockIndex,
    h: PrefixHash,
    blocks: Seq<BlockLocation>,
    created_at: u64,
    evicted: Seq<PrefixHash>,
)
    requires
        pre.wf(),
        post.wf(),
        BlockIndex::insert_post(pre, post, h, blocks, created_at, evicted),
        pre.entries().len() <= if pre.spec_capacity() == 0 { 1 } else { pre.spec_capacity() },
    ensures
        post.entries().len() <= if pre.spec_capacity() == 0 { 1 } else { pre.spec_capacity() },
        !pre.entries().contains_key(h) ==> evicted.len() == evict_count(
            pre.entries().len(),
            pre.spec_capacity(),
        ),
{
    pre.lemma_wf();
    post.lemma_wf();
    let r = pre.recency();
    if pre.entries().contains_key(h) {
        assert(r.to_set().contains(h));
        let i = choose|i: int| 0 <= i < r.len() && r[i] == h;
        lemma_first_of_distinct(r, i, h);
        assert(post.recency().len() == r.len());
    } else {
        let e = evict_count(r.len(), pre.spec_capacity());
        assert(post.recency().len() == 1 + r.len() - e);
    }
}

/// How an insert changes the number of entries, and which entries it
/// keeps: an update keeps the count; a new hash adds one and drops the
/// evicted ones, which are distinct entries of the index other than the new
/// hash; every other entry is kept as it was.
pub proof fn lemma_insert_entries(
    pre: BlockIndex,
    post: BlockIndex,
    h: PrefixHash,
    blocks: Seq<BlockLocation>,
    created_at: u64,
    evicted: Seq<PrefixHash>,
)
    requires
        pre.wf(),
        post.wf(),
        BlockIndex::insert_post(pre, post, h, blocks, created_at, evicted),
    ensures
        pre.entries().contains_key(h) ==> post.entries().len() == pre.entries().len(),
        !pre.entries().contains_key(h) ==> post.entries().len() + evicted.len() == pre.entries().len() + 1,
        evicted.no_duplicates(),
        forall|j: int| 0 <= j < evicted.len() ==> #[trigger] pre.entries().contains_key(evicted[j]) && evicted[j] != h,
        forall|k: PrefixHash|
            #[trigger] post.entries().contains_key(k) && k != h ==> pre.entries().contains_key(k) && post.entries()[k]
                == pre.entries()[k] && !evicted.contains(k),
        post.entries().contains_key(h),
        post.entries()[h] == (blocks, created_at),
{
    pre.lemma_wf();
    post.lemma_wf();
    let r = pre.recency();
    if pre.entries().contains_key(h) {
        assert(r.to_set().contains(h));
        r.index_of_first_ensures(h);
        assert(post.recency().len() == r.len());
    } else {
        let e = evict_count(r.len(), pre.spec_capacity());
        assert(e <= r.len());
        assert(post.recency().len() == 1 + r.len() - e);
        assert forall|j: int| 0 <= j < evicted.len() implies #[trigger] pre.entries().contains_key(evicted[j])
            && evicted[j] != h by {
            assert(evicted[j] == r[r.len() - 1 - j]);
            assert(r.to_set().contains(r[r.len() - 1 - j]));
        }
        assert forall|a: int, b: int| 0 <= a < b < evicted.len() implies evicted[a] != evicted[b] by {
            assert(evicted[a] == r[r.len() - 1 - a]);
            assert(evicted[b] == r[r.len() - 1 - b]);
        }
        assert forall|k: PrefixHash| #[trigger] post.entries().contains_key(k) && k != h implies !evicted.contains(k) by {
            assert(!evicted.to_set().contains(k));
        }
    }
}

/// Inserting a new hash evicts the least recently used entries just until
/// the insert fits: with capacity `c > 0` and `n` entries, `n + 1 - c` of
/// them when `n >= c` and none otherwise, so the index then holds
/// `min(n + 1, c)` entries; with capacity 0 every entry goes and only the
/// new one stays.
pub proof fn lemma_insert_evicts_to_capacity(
    pre: BlockIndex,
    post: BlockIndex,
    h: PrefixHash,
    blocks: Seq<BlockLocation>,
    created_at: u64,
    evicted: Seq<PrefixHash>,
)
    requires
        pre.wf(),
        post.wf(),
        BlockIndex::insert_post(pre, post, h, blocks, created_at, evicted),
        !pre.entries().contains_key(h),
    ensures
        pre.spec_capacity() > 0 && pre.entries().len() < pre.spec_capacity() ==> evicted.len() == 0
            && post.entries().len() == pre.entries().len() + 1,
        pre.spec_capacity() > 0 && pre.entries().len() >= pre.spec_capacity() ==> evicted.len()
            == pre.entries().len() + 1 - pre.spec_capacity() && post.entries().len() == pre.spec_capacity(),
        pre.spec_capacity() == 0 ==> evicted.len() == pre.entries().len() && post.entries().len() == 1,
        forall|j: int|
            0 <= j < evicted.len() ==> #[trigger] evicted[j] == pre.recency()[pre.recency().len() - 1 - j],
{
    pre.lemma_wf();
    lemma_insert_entries(pre, post, h, blocks, created_at, evicted);
}

} // verus!
