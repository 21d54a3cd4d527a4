//! Remote block index: which blocks are available on other nodes.
//!
//! Populated from metadata watch events. Each prefix hash maps to the
//! locations of that prefix on remote nodes, at most one per node.
use dashmap::DashMap;
use vstd::prelude::*;
use vstd::string::StringExecFns;

use crate::prefix::PrefixHash;

verus! {

/// Information about a block stored on a remote node.
#[derive(Debug, Clone)]
pub struct RemoteBlockInfo {
    pub node_id: String,
    pub node_addr: String,
    pub offset: u64,
    pub size: u64,
    pub generation: u64,
}

impl RemoteBlockInfo {
    /// A copy of the record.
    pub fn duplicate(&self) -> (r: Self)
        ensures
            r == *self,
    {
        RemoteBlockInfo {
            node_id: self.node_id.clone(),
            node_addr: self.node_addr.clone(),
            offset: self.offset,
            size: self.size,
            generation: self.generation,
        }
    }
}

/// A copy of a list of records.
pub fn duplicate_infos(v: &Vec<RemoteBlockInfo>) -> (r: Vec<RemoteBlockInfo>)
    ensures
        r@ == v@,
{
    let mut out: Vec<RemoteBlockInfo> = Vec::with_capacity(v.len());
    let mut i: usize = 0;
    while i < v.len()
        invariant
            i <= v@.len(),
            out@ == v@.subrange(0, i as int),
        decreases v@.len() - i,
    {
        out.push(v[i].duplicate());
        i = i + 1;
        assert(out@ =~= v@.subrange(0, i as int));
    }
    assert(out@ =~= v@);
    out
}

/// The position of the first record from node `node` in `s`, if any.
pub open spec fn first_from_node(s: Seq<RemoteBlockInfo>, node: Seq<char>) -> Option<int>
    decreases s.len(),
{
    if s.len() == 0 {
        None
    } else if s[0].node_id@ == node {
        Some(0)
    } else {
        match first_from_node(s.drop_first(), node) {
            Some(i) => Some(i + 1),
            None => None,
        }
    }
}

/// The records for a prefix after `info` arrives: it replaces the first
/// record from the same node, or is appended.
pub open spec fn upsert(s: Seq<RemoteBlockInfo>, info: RemoteBlockInfo) -> Seq<RemoteBlockInfo> {
    match first_from_node(s, info.node_id@) {
        Some(i) => s.update(i, info),
        None => s.push(info),
    }
}

/// The records of `s` that are not from node `node`.
pub open spec fn without_node(s: Seq<RemoteBlockInfo>, node: Seq<char>) -> Seq<RemoteBlockInfo> {
    s.filter(not_from(node))
}

/// Whether a record is from a node other than `node`.
pub open spec fn not_from(node: Seq<char>) -> spec_fn(RemoteBlockInfo) -> bool {
    |e: RemoteBlockInfo| e.node_id@ != node
}

proof fn lemma_first_from_node(s: Seq<RemoteBlockInfo>, node: Seq<char>, k: int)
    requires
        0 <= k <= s.len(),
        forall|j: int| 0 <= j < k ==> #[trigger] s[j].node_id@ != node,
    ensures
        k < s.len() && s[k].node_id@ == node ==> first_from_node(s, node) == Some(k),
        k == s.len() ==> first_from_node(s, node).is_none(),
    decreases k,
{
    if k > 0 {
        let t = s.drop_first();
        assert forall|j: int| 0 <= j < k - 1 implies #[trigger] t[j].node_id@ != node by {
            assert(t[j] == s[j + 1]);
        }
        lemma_first_from_node(t, node, k - 1);
    }
}

/// No two records of `s` come from the same node.
pub open spec fn one_per_node(s: Seq<RemoteBlockInfo>) -> bool {
    forall|i: int, j: int| 0 <= i < j < s.len() ==> s[i].node_id@ != s[j].node_id@
}

/// Every prefix's records come from distinct nodes.
pub open spec fn records_one_per_node(m: Map<PrefixHash, Seq<RemoteBlockInfo>>) -> bool {
    forall|k: PrefixHash| #[trigger] m.contains_key(k) ==> one_per_node(m[k])
}

proof fn lemma_first_from_node_found(s: Seq<RemoteBlockInfo>, node: Seq<char>)
    ensures
        match first_from_node(s, node) {
            Some(i) => 0 <= i < s.len() && s[i].node_id@ == node && forall|j: int|
                0 <= j < i ==> #[trigger] s[j].node_id@ != node,
            None => forall|j: int| 0 <= j < s.len() ==> #[trigger] s[j].node_id@ != node,
        },
    decreases s.len(),
{
    if s.len() > 0 {
        let t = s.drop_first();
        lemma_first_from_node_found(t, node);
        assert forall|j: int| 0 < j < s.len() implies #[trigger] s[j] == t[j - 1] by {}
    }
}

/// A record that arrives replaces the one from its node, so each node keeps
/// at most one record per prefix, and the new record is among them.
pub proof fn lemma_upsert_one_per_node(s: Seq<RemoteBlockInfo>, info: RemoteBlockInfo)
    requires
        one_per_node(s),
    ensures
        one_per_node(upsert(s, info)),
        upsert(s, info).contains(info),
{
    lemma_first_from_node_found(s, info.node_id@);
    let u = upsert(s, info);
    match first_from_node(s, info.node_id@) {
        Some(i) => {
            assert(u[i] == info);
            assert forall|a: int, b: int| 0 <= a < b < u.len() implies u[a].node_id@ != u[b].node_id@ by {
                if a != i && b != i {
                    assert(u[a] == s[a] && u[b] == s[b]);
                } else if a == i {
                    assert(u[b] == s[b]);
                    assert(s[a].node_id@ == info.node_id@);
                } else {
                    assert(u[a] == s[a]);
                    assert(s[b].node_id@ == info.node_id@);
                }
            }
        },
        None => {
            assert(u[s.len() as int] == info);
            assert forall|a: int, b: int| 0 <= a < b < u.len() implies u[a].node_id@ != u[b].node_id@ by {
                assert(u[a] == s[a]);
                if b < s.len() {
                    assert(u[b] == s[b]);
                }
            }
        },
    }
}

/// Dropping a node's records leaves no record from it, and the rest still
/// come from distinct nodes.
pub proof fn lemma_without_node_one_per_node(s: Seq<RemoteBlockInfo>, node: Seq<char>)
    requires
        one_per_node(s),
    ensures
        one_per_node(without_node(s, node)),
        forall|i: int| 0 <= i < without_node(s, node).len() ==> #[trigger] without_node(s, node)[i].node_id@ != node,
    decreases s.len(),
{
    broadcast use vstd::seq_lib::group_filter_ensures;
    reveal(Seq::filter);
    let p = not_from(node);
    let f = s.filter(p);
    assert forall|i: int| 0 <= i < f.len() implies #[trigger] f[i].node_id@ != node by {
        s.lemma_filter_pred(p, i);
    }
    if s.len() > 0 {
        let t = s.drop_last();
        assert(one_per_node(t)) by {
            assert forall|a: int, b: int| 0 <= a < b < t.len() implies t[a].node_id@ != t[b].node_id@ by {
                assert(t[a] == s[a] && t[b] == s[b]);
            }
        }
        lemma_without_node_one_per_node(t, node);
        let g = t.filter(p);
        if p(s.last()) {
            assert(f == g.push(s.last()));
            assert forall|a: int, b: int| 0 <= a < b < f.len() implies f[a].node_id@ != f[b].node_id@ by {
                if b == f.len() - 1 {
                    assert(f[a] == g[a]);
                    assert(g.contains(g[a]));
                    t.lemma_filter_contains_rev(p, g[a]);
                    let j = choose|j: int| 0 <= j < t.len() && t[j] == g[a];
                    assert(s[j] == t[j]);
                    assert(s[s.len() - 1] == s.last());
                } else {
                    assert(f[a] == g[a] && f[b] == g[b]);
                }
            }
        } else {
            assert(f == g);
        }
    }
}

/// The remote index keeps at most one record per node for each prefix:
/// an insert (which upserts) and a node's removal both keep it so.
pub proof fn lemma_remote_index_one_record_per_node(
    pre: Map<PrefixHash, Seq<RemoteBlockInfo>>,
    inserted: Map<PrefixHash, Seq<RemoteBlockInfo>>,
    pruned: Map<PrefixHash, Seq<RemoteBlockInfo>>,
    h: PrefixHash,
    info: RemoteBlockInfo,
    node: Seq<char>,
)
    requires
        records_one_per_node(pre),
        pre.contains_key(h) ==> inserted == pre.insert(h, upsert(pre[h], info)),
        !pre.contains_key(h) ==> inserted == pre.insert(h, seq![info]),
        forall|k: PrefixHash|
            #[trigger] pruned.contains_key(k) <==> (pre.contains_key(k) && without_node(pre[k], node).len() > 0),
        forall|k: PrefixHash| #[trigger] pruned.contains_key(k) ==> pruned[k] == without_node(pre[k], node),
    ensures
        records_one_per_node(inserted),
        inserted[h].contains(info),
        records_one_per_node(pruned),
        forall|k: PrefixHash, i: int|
            pruned.contains_key(k) && 0 <= i < pruned[k].len() ==> #[trigger] pruned[k][i].node_id@ != node,
{
    if pre.contains_key(h) {
        lemma_upsert_one_per_node(pre[h], info);
    } else {
        assert(seq![info][0] == info);
    }
    assert forall|k: PrefixHash| #[trigger] inserted.contains_key(k) implies one_per_node(inserted[k]) by {
        if k != h {
            assert(pre.contains_key(k));
        }
    }
    assert forall|k: PrefixHash| #[trigger] pruned.contains_key(k) implies one_per_node(pruned[k]) by {
        lemma_without_node_one_per_node(pre[k], node);
    }
    assert forall|k: PrefixHash, i: int|
        pruned.contains_key(k) && 0 <= i < pruned[k].len() implies #[trigger] pruned[k][i].node_id@ != node by {
        lemma_without_node_one_per_node(pre[k], node);
    }
}

/// Replace the first record from `info`'s node with `info`, or append it.
pub fn upsert_info(entries: &mut Vec<RemoteBlockInfo>, info: RemoteBlockInfo)
    ensures
        final(entries)@ == upsert(old(entries)@, info),
{
    let mut i: usize = 0;
    while i < entries.len()
        invariant
            entries@ == old(entries)@,
            i <= entries@.len(),
            forall|j: int| 0 <= j < i ==> #[trigger] entries@[j].node_id@ != info.node_id@,
        decreases entries@.len() - i,
    {
        if entries[i].node_id == info.node_id {
            proof {
                lemma_first_from_node(entries@, info.node_id@, i as int);
            }
            entries.set(i, info);
            return;
        }
        i = i + 1;
    }
    proof {
        lemma_first_from_node(entries@, info.node_id@, i as int);
    }
    entries.push(info);
}

/// Drop the records from node `node_id`; whether any record remains.
pub fn drop_node_entries(entries: &mut Vec<RemoteBlockInfo>, node_id: &String) -> (keep: bool)
    ensures
        final(entries)@ == without_node(old(entries)@, node_id@),
        keep == (final(entries)@.len() > 0),
{
    let ghost s = entries@;
    let ghost pred = not_from(node_id@);
    let mut kept: Vec<RemoteBlockInfo> = Vec::new();
    let mut i: usize = 0;
    while i < entries.len()
        invariant
            entries@ == s,
            pred == not_from(node_id@),
            i <= s.len(),
            kept@ == s.subrange(0, i as int).filter(pred),
        decreases s.len() - i,
    {
        let e = entries[i].duplicate();
        let same = e.node_id == *node_id;
        proof {
            let a = s.subrange(0, i as int);
            let x = s[i as int];
            assert(s.subrange(0, i + 1) =~= a + seq![x]);
            Seq::filter_distributes_over_add(a, seq![x], pred);
            reveal_with_fuel(Seq::filter, 2);
            assert(seq![x].drop_last() =~= Seq::<RemoteBlockInfo>::empty());
            assert(seq![x].last() == x);
            assert(e == x);
            assert(same == (x.node_id@ == node_id@));
            assert(pred(x) == (x.node_id@ != node_id@));
            if same {
                assert(seq![x].filter(pred) =~= Seq::<RemoteBlockInfo>::empty());
            } else {
                assert(seq![x].filter(pred) =~= seq![x]);
            }
        }
        if !same {
            kept.push(e);
        }
        i = i + 1;
    }
    assert(s.subrange(0, s.len() as int) =~= s);
    *entries = kept;
    entries.len() > 0
}

/// What a remote index's `DashMap` holds.
pub uninterp spec fn remote_map(m: RemoteMap) -> Map<PrefixHash, Seq<RemoteBlockInfo>>;

/// The map type of a remote index.
pub type RemoteMap = DashMap<PrefixHash, Vec<RemoteBlockInfo>>;

/// `DashMap::new`: an empty map.
#[verifier::external_body]
fn remote_map_new() -> (m: RemoteMap)
    ensures
        remote_map(m).is_empty(),
{
    DashMap::new()
}

/// `DashMap::view`: a copy of the records stored under `key`, if any.
#[verifier::external_body]
fn remote_map_get(m: &RemoteMap, key: &PrefixHash) -> (r: Option<Vec<RemoteBlockInfo>>)
    ensures
        match r {
            Some(v) => remote_map(*m).contains_key(*key) && remote_map(*m)[*key] == v@,
            None => !remote_map(*m).contains_key(*key),
        },
{
    m.view(key, |_, v| duplicate_infos(v))
}

/// `DashMap::insert`: the records under `key` become `value`.
#[verifier::external_body]
fn remote_map_insert(m: &mut RemoteMap, key: PrefixHash, value: Vec<RemoteBlockInfo>)
    ensures
        remote_map(*final(m)) == remote_map(*old(m)).insert(key, value@),
{
    m.insert(key, value);
}

/// `DashMap::remove`: the records under `key` leave the map.
#[verifier::external_body]
fn remote_map_remove(m: &mut RemoteMap, key: &PrefixHash)
    ensures
        remote_map(*final(m)) == remote_map(*old(m)).remove(*key),
{
    m.remove(key);
}

/// `DashMap::retain`, with a closure that drops the records from node
/// `node_id` (through the verified `drop_node_entries`) and keeps a key
/// while records remain under it. `retain` visits every entry once and
/// removes those for which the closure returns `false`.
#[verifier::external_body]
fn remote_map_retain_without_node(m: &mut RemoteMap, node_id: &String)
    ensures
        forall|k: PrefixHash|
            #[trigger] remote_map(*final(m)).contains_key(k) <==> (remote_map(*old(m)).contains_key(k)
                && without_node(remote_map(*old(m))[k], node_id@).len() > 0),
        forall|k: PrefixHash|
            #[trigger] remote_map(*final(m)).contains_key(k) ==> remote_map(*final(m))[k]
                == without_node(remote_map(*old(m))[k], node_id@),
{
    m.retain(|_, entries| drop_node_entries(entries, node_id));
}

/// Index of blocks available on remote nodes.
pub struct RemoteIndex {
    map: RemoteMap,
}

impl View for RemoteIndex {
    type V = Map<PrefixHash, Seq<RemoteBlockInfo>>;

    closed spec fn view(&self) -> Map<PrefixHash, Seq<RemoteBlockInfo>> {
        remote_map(self.map)
    }
}

impl RemoteIndex {
    pub fn new() -> (idx: Self)
        ensures
            idx@ == Map::<PrefixHash, Seq<RemoteBlockInfo>>::empty(),
    {
        let idx = RemoteIndex { map: remote_map_new() };
        assert(idx@ =~= Map::<PrefixHash, Seq<RemoteBlockInfo>>::empty());
        idx
    }

    /// Remote locations for a prefix hash.
    pub fn lookup(&self, prefix_hash: &PrefixHash) -> (r: Option<Vec<RemoteBlockInfo>>)
        ensures
            match r {
                Some(v) => self@.contains_key(*prefix_hash) && self@[*prefix_hash] == v@,
                None => !self@.contains_key(*prefix_hash),
            },
    {
        remote_map_get(&self.map, prefix_hash)
    }

    /// Insert or update a remote block entry: it replaces the record from
    /// the same node, or is appended to the prefix's records.
    pub fn insert(&mut self, prefix_hash: PrefixHash, info: RemoteBlockInfo)
        ensures
            old(self)@.contains_key(prefix_hash) ==> final(self)@ == old(self)@.insert(
                prefix_hash,
                upsert(old(self)@[prefix_hash], info),
            ),
            !old(self)@.contains_key(prefix_hash) ==> final(self)@ == old(self)@.insert(
                prefix_hash,
                seq![info],
            ),
    {
        match remote_map_get(&self.map, &prefix_hash) {
            Some(mut entries) => {
                upsert_info(&mut entries, info);
                remote_map_insert(&mut self.map, prefix_hash, entries);
            },
            None => {
                let mut entries: Vec<RemoteBlockInfo> = Vec::new();
                entries.push(info);
                assert(entries@ =~= seq![info]);
                remote_map_insert(&mut self.map, prefix_hash, entries);
            },
        }
    }

    /// Remove all entries for a given prefix hash.
    pub fn remove(&mut self, prefix_hash: &PrefixHash)
        ensures
            final(self)@ == old(self)@.remove(*prefix_hash),
    {
        remote_map_remove(&mut self.map, prefix_hash);
    }

    /// Remove all block entries from a specific node (e.g., when its lease
    /// expires); prefixes left without records go.
    pub fn remove_node(&mut self, node_id: &str)
        ensures
            forall|k: PrefixHash|
                #[trigger] final(self)@.contains_key(k) <==> (old(self)@.contains_key(k)
                    && without_node(old(self)@[k], node_id@).len() > 0),
            forall|k: PrefixHash|
                #[trigger] final(self)@.contains_key(k) ==> final(self)@[k] == without_node(
                    old(self)@[k],
                    node_id@,
                ),
    {
        let node = String::from_str(node_id);
        remote_map_retain_without_node(&mut self.map, &node);
    }
}

impl Default for RemoteIndex {
    fn default() -> (idx: Self)
        ensures
            idx@ == Map::<PrefixHash, Seq<RemoteBlockInfo>>::empty(),
    {
        Self::new()
    }
}

} // verus!
