//! The metadata registry's records and keys, and what the agent does with
//! the registry's watch events.
//!
//! Nodes register under `/cmx/nodes/<node id>`; blocks are published under
//! `/cmx/blocks/<lowercase hex of the prefix hash>`. The registry client
//! itself (network I/O, JSON) stays outside the library.
use vstd::prelude::*;
use vstd::string::StringExecFns;
use vstd::string::StrSliceExecFns;
use vstd::utf8::{encode_utf8, is_ascii_chars, is_ascii_chars_encode_utf8};

use crate::digest::{hex_bytes, hex_decode, hex_digit, hex_encode, hex_text, hex_value};
use crate::placement::HashRing;
use crate::prefix::PrefixHash;
use crate::remote_index::{RemoteBlockInfo, RemoteIndex};

verus! {

/// Information about a registered node.
#[derive(Debug, Clone)]
pub struct NodeInfo {
    pub node_id: String,
    pub addr: String,
}

/// Metadata stored for a block location in the registry.
#[derive(Debug, Clone)]
pub struct BlockLocationMeta {
    pub node_id: String,
    pub node_addr: String,
    pub offset: u64,
    pub size: u64,
    pub generation: u64,
}

/// `s` with every leading copy of `p` removed.
pub open spec fn trim_all<A>(s: Seq<A>, p: Seq<A>) -> Seq<A>
    decreases s.len(),
{
    if p.len() > 0 && s.len() >= p.len() && s.take(p.len() as int) == p {
        trim_all(s.skip(p.len() as int), p)
    } else {
        s
    }
}

/// The text that starts every block key.
pub open spec fn blocks_prefix() -> Seq<char> {
    seq!['/', 'c', 'm', 'x', '/', 'b', 'l', 'o', 'c', 'k', 's', '/']
}

/// The text that starts every node key.
pub open spec fn nodes_prefix() -> Seq<char> {
    seq!['/', 'c', 'm', 'x', '/', 'n', 'o', 'd', 'e', 's', '/']
}

/// The registry key of a block.
pub fn block_key(prefix_hash: &PrefixHash) -> (k: String)
    ensures
        k@ == blocks_prefix() + hex_text(prefix_hash@),
{
    let mut k = String::from_str("/cmx/blocks/");
    proof {
        reveal_strlit("/cmx/blocks/");
    }
    let hex = hex_encode(prefix_hash.as_slice());
    k.append(hex.as_str());
    assert("/cmx/blocks/"@ =~= blocks_prefix());
    k
}

/// The registry key of a node.
pub fn node_key(node_id: &str) -> (k: String)
    ensures
        k@ == nodes_prefix() + node_id@,
{
    let mut k = String::from_str("/cmx/nodes/");
    proof {
        reveal_strlit("/cmx/nodes/");
    }
    k.append(node_id);
    assert("/cmx/nodes/"@ =~= nodes_prefix());
    k
}

/// The bytes of a text of ASCII characters.
pub open spec fn ascii_bytes(s: Seq<char>) -> Seq<u8> {
    s.map_values(|c: char| c as u8)
}

/// Whether `s` at `from` starts with `p`.
fn starts_with_at(s: &[u8], from: usize, p: &[u8]) -> (b: bool)
    requires
        from <= s@.len(),
    ensures
        b == (s@.len() - from >= p@.len() && s@.subrange(from as int, from + p@.len()) == p@),
{
    let slen = s.len();
    if slen - from < p.len() {
        return false;
    }
    let mut i: usize = 0;
    while i < p.len()
        invariant
            slen == s@.len(),
            from + p@.len() <= s@.len(),
            i <= p@.len(),
            forall|j: int| 0 <= j < i ==> #[trigger] s@[from + j] == p@[j],
        decreases p@.len() - i,
    {
        if s[from + i] != p[i] {
            assert(s@.subrange(from as int, from + p@.len())[i as int] != p@[i as int]);
            return false;
        }
        i = i + 1;
    }
    assert forall|j: int| 0 <= j < p@.len() implies s@.subrange(from as int, from + p@.len())[j] == p@[j] by {
        assert(s@[from + j] == p@[j]);
    }
    assert(s@.subrange(from as int, from + p@.len()) =~= p@);
    true
}

/// How far leading copies of `p` reach in `s`: `s.skip(n)` is
/// `trim_all(s, p)`.
fn trimmed_start(s: &[u8], p: &[u8]) -> (n: usize)
    requires
        p@.len() > 0,
    ensures
        n <= s@.len(),
        s@.skip(n as int) == trim_all(s@, p@),
{
    let mut n: usize = 0;
    assert(s@.skip(0) =~= s@);
    while n <= s.len() && starts_with_at(s, n, p)
        invariant
            n <= s@.len(),
            p@.len() > 0,
            trim_all(s@.skip(n as int), p@) == trim_all(s@, p@),
        decreases s@.len() - n,
    {
        let ghost t = s@.skip(n as int);
        assert(t.take(p@.len() as int) =~= s@.subrange(n as int, n + p@.len()));
        assert(t.skip(p@.len() as int) =~= s@.skip(n + p@.len()));
        n = n + p.len();
    }
    proof {
        let t = s@.skip(n as int);
        if t.len() >= p@.len() {
            assert(t.take(p@.len() as int) =~= s@.subrange(n as int, n + p@.len()));
        }
    }
    n
}

/// The prefix hash named by a block key's bytes: leading copies of
/// `/cmx/blocks/` are dropped and the rest must be hex for exactly 16 bytes.
pub open spec fn block_key_hash(key: Seq<u8>) -> Option<Seq<u8>> {
    let rest = trim_all(key, ascii_bytes(blocks_prefix()));
    match hex_bytes(rest) {
        Some(b) => if b.len() == 16 {
            Some(b)
        } else {
            None
        },
        None => None,
    }
}

/// Parse the prefix hash out of a block key.
pub fn parse_block_key(key: &[u8]) -> (r: Option<PrefixHash>)
    ensures
        match r {
            Some(h) => block_key_hash(key@) == Some(h@),
            None => block_key_hash(key@).is_none(),
        },
{
    let prefix: [u8; 12] = [47u8, 99u8, 109u8, 120u8, 47u8, 98u8, 108u8, 111u8, 99u8, 107u8, 115u8, 47u8];
    assert(prefix@ =~= ascii_bytes(blocks_prefix()));
    let start = trimmed_start(key, prefix.as_slice());
    let rest = vstd::slice::slice_subrange(key, start, key.len());
    assert(rest@ =~= key@.skip(start as int));
    let bytes = match hex_decode(rest) {
        Some(b) => b,
        None => return None,
    };
    if bytes.len() != 16 {
        return None;
    }
    let mut h: PrefixHash = [0u8; 16];
    let mut i: usize = 0;
    while i < 16
        invariant
            bytes@.len() == 16,
            i <= 16,
            forall|j: int| 0 <= j < i ==> #[trigger] h@[j] == bytes@[j],
        decreases 16 - i,
    {
        h[i] = bytes[i];
        i = i + 1;
    }
    assert(h@ =~= bytes@);
    Some(h)
}

/// The node id named by a node key: leading copies of `/cmx/nodes/` dropped.
pub fn node_id_from_key(key: &str) -> (id: String)
    ensures
        id@ == trim_all(key@, nodes_prefix()),
{
    let prefix = "/cmx/nodes/";
    proof {
        reveal_strlit("/cmx/nodes/");
        assert(prefix@ =~= nodes_prefix());
    }
    let plen = prefix.unicode_len();
    let len = key.unicode_len();
    let mut n: usize = 0;
    assert(key@.skip(0) =~= key@);
    loop
        invariant
            plen == 11,
            prefix@ == nodes_prefix(),
            len == key@.len(),
            n <= len,
            trim_all(key@.skip(n as int), nodes_prefix()) == trim_all(key@, nodes_prefix()),
        ensures
            n <= len,
            len == key@.len(),
            key@.skip(n as int) == trim_all(key@, nodes_prefix()),
        decreases len - n,
    {
        let ghost t = key@.skip(n as int);
        if len - n < plen {
            assert(trim_all(t, nodes_prefix()) == t);
            break;
        }
        let mut same = true;
        let mut i: usize = 0;
        while i < plen
            invariant
                plen == 11,
                prefix@ == nodes_prefix(),
                len == key@.len(),
                n + plen <= len,
                i <= plen,
                same == (forall|j: int| 0 <= j < i ==> #[trigger] key@[n + j] == nodes_prefix()[j]),
            decreases plen - i,
        {
            let same_here = key.get_char(n + i) == prefix.get_char(i);
            proof {
                if same && !same_here {
                    assert(!(key@[n + i] == nodes_prefix()[i as int]));
                }
            }
            same = same && same_here;
            i = i + 1;
        }
        assert(t.take(11) =~= key@.subrange(n as int, n + 11));
        if !same {
            proof {
                let j = choose|j: int| 0 <= j < 11 && !(key@[n + j] == nodes_prefix()[j]);
                assert(t.take(11)[j] != nodes_prefix()[j]);
                assert(t.take(11) != nodes_prefix());
                assert(trim_all(t, nodes_prefix()) == t);
            }
            break;
        }
        assert forall|j: int| 0 <= j < 11 implies t.take(11)[j] == nodes_prefix()[j] by {
            assert(key@[n + j] == nodes_prefix()[j]);
        }
        assert(t.take(11) =~= nodes_prefix());
        assert(t.skip(11) =~= key@.skip(n + 11));
        n = n + plen;
    }
    let rest = key.substring_char(n, len);
    assert(rest@ =~= key@.skip(n as int));
    rest.to_owned()
}

/// The remote record for a published block location.
pub fn remote_info_from_meta(meta: BlockLocationMeta) -> (info: RemoteBlockInfo)
    ensures
        info == (RemoteBlockInfo {
            node_id: meta.node_id,
            node_addr: meta.node_addr,
            offset: meta.offset,
            size: meta.size,
            generation: meta.generation,
        }),
{
    RemoteBlockInfo {
        node_id: meta.node_id,
        node_addr: meta.node_addr,
        offset: meta.offset,
        size: meta.size,
        generation: meta.generation,
    }
}

/// The record published for a block stored on this node.
pub fn block_meta(node_id: &String, node_addr: &String, offset: u64, size: u64, generation: u64) -> (m: BlockLocationMeta)
    ensures
        m == (BlockLocationMeta {
            node_id: *node_id,
            node_addr: *node_addr,
            offset,
            size,
            generation,
        }),
{
    BlockLocationMeta { node_id: node_id.clone(), node_addr: node_addr.clone(), offset, size, generation }
}

/// A change under the block keys, as the watch reports it.
pub enum BlockEvent {
    /// A record was written; `None` when its value was not a block record.
    Put(Option<BlockLocationMeta>),
    /// The key was deleted.
    Delete,
}

/// A change under the node keys, as the watch reports it.
pub enum NodeEvent {
    Put,
    Delete,
}

/// The remote record for a published block location (as a value).
pub open spec fn info_of(meta: BlockLocationMeta) -> RemoteBlockInfo {
    RemoteBlockInfo {
        node_id: meta.node_id,
        node_addr: meta.node_addr,
        offset: meta.offset,
        size: meta.size,
        generation: meta.generation,
    }
}

/// What a block watch event on `key` makes of the remote index `m`: keys
/// that do not name a prefix hash and records that did not parse change
/// nothing; a deletion drops the prefix; a record is upserted.
pub open spec fn block_event_result(
    m: Map<PrefixHash, Seq<RemoteBlockInfo>>,
    key: Seq<u8>,
    event: BlockEvent,
) -> Map<PrefixHash, Seq<RemoteBlockInfo>> {
    match block_key_hash(key) {
        None => m,
        Some(b) => {
            let h = crate::service::hash_from_bytes(b);
            match event {
                BlockEvent::Put(None) => m,
                BlockEvent::Delete => m.remove(h),
                BlockEvent::Put(Some(meta)) => if m.contains_key(h) {
                    m.insert(h, crate::remote_index::upsert(m[h], info_of(meta)))
                } else {
                    m.insert(h, seq![info_of(meta)])
                },
            }
        },
    }
}

/// Apply a block watch event to the remote index: keys that do not name a
/// prefix hash and records that did not parse are ignored.
pub fn apply_block_event(remote_index: &mut RemoteIndex, key: &[u8], event: BlockEvent)
    ensures
        final(remote_index)@ == block_event_result(old(remote_index)@, key@, event),
{
    let h = match parse_block_key(key) {
        Some(h) => h,
        None => return,
    };
    proof {
        let c = crate::service::hash_from_bytes(h@);
        assert(exists|x: PrefixHash| x@ == h@);
        assert(c@ == h@);
        assert(c =~= h);
    }
    match event {
        BlockEvent::Put(Some(meta)) => {
            let info = remote_info_from_meta(meta);
            remote_index.insert(h, info);
        },
        BlockEvent::Put(None) => {},
        BlockEvent::Delete => {
            remote_index.remove(&h);
        },
    }
}

/// Apply a node watch event to the remote index: a node that leaves loses
/// its remote block records; a node that joins changes nothing there.
pub fn apply_node_event(remote_index: &mut RemoteIndex, key: &str, event: &NodeEvent)
    ensures
        ({
            let node = trim_all(key@, nodes_prefix());
            &&& *event matches NodeEvent::Put ==> final(remote_index)@ == old(remote_index)@
            &&& *event matches NodeEvent::Delete ==> {
                &&& forall|k: PrefixHash|
                    #[trigger] final(remote_index)@.contains_key(k) <==> (old(remote_index)@.contains_key(k)
                        && crate::remote_index::without_node(old(remote_index)@[k], node).len() > 0)
                &&& forall|k: PrefixHash|
                    #[trigger] final(remote_index)@.contains_key(k) ==> final(remote_index)@[k]
                        == crate::remote_index::without_node(old(remote_index)@[k], node)
            }
        }),
{
    match event {
        NodeEvent::Put => {},
        NodeEvent::Delete => {
            let node_id = node_id_from_key(key);
            remote_index.remove_node(node_id.as_str());
        },
    }
}

/// Apply a node watch event to the hash ring: a node that joins goes on
/// the ring; a node that leaves loses its points.
pub fn apply_node_event_to_ring(hash_ring: &mut HashRing, key: &str, event: &NodeEvent)
    requires
        old(hash_ring).wf(),
    ensures
        final(hash_ring).wf(),
        ({
            let node = trim_all(key@, nodes_prefix());
            let r0 = *old(hash_ring);
            let r1 = *final(hash_ring);
            &&& *event matches NodeEvent::Put ==> {
                &&& r0.members().contains(node) ==> r1 == r0
                &&& !r0.members().contains(node) ==> {
                    &&& r1.members() == r0.members().push(node)
                    &&& crate::placement::points_map(r1.points()) == crate::placement::points_map(
                        r0.points(),
                    ).union_prefer_right(crate::placement::vnode_map(node, r0.spec_vnodes_per_node()))
                }
            }
            &&& *event matches NodeEvent::Delete ==> {
                &&& crate::placement::points_map(r1.points()) == crate::placement::without_owner(
                    crate::placement::points_map(r0.points()),
                    node,
                )
                &&& r1.members() == r0.members().remove_value(node)
            }
        }),
{
    let node_id = node_id_from_key(key);
    match event {
        NodeEvent::Put => {
            hash_ring.add_node(node_id);
        },
        NodeEvent::Delete => {
            hash_ring.remove_node(node_id.as_str());
        },
    }
}

/// Seconds between lease renewals: a third of the lease's time to live,
/// at least one.
pub fn keepalive_interval_secs(lease_ttl: i64) -> (s: u64)
    ensures
        s == (if lease_ttl / 3 >= 1 { (lease_ttl / 3) as u64 } else { 1 }),
{
    let third = lease_ttl / 3;
    if third >= 1 {
        third as u64
    } else {
        1
    }
}

/// The byte of a hex digit character, and its value back.
proof fn lemma_hex_digit_byte(v: int)
    requires
        0 <= v < 16,
    ensures
        '\0' <= hex_digit(v) <= '\u{7f}',
        hex_digit(v) as u8 != 47,
        hex_value(hex_digit(v) as u8) == Some(v as u8),
{
}

/// A block key names the prefix hash it was made from: parsing the bytes
/// of `block_key(h)` gives `h` back.
pub proof fn lemma_block_key_roundtrip(h: PrefixHash)
    ensures
        block_key_hash(encode_utf8(blocks_prefix() + hex_text(h@))) == Some(h@),
{
    let hx = hex_text(h@);
    let chars = blocks_prefix() + hx;
    assert forall|i: int| 0 <= i < hx.len() implies '\0' <= #[trigger] hx[i] <= '\u{7f}' && hx[i] as u8 != 47
        && hex_value(hx[i] as u8) is Some by {
        if i % 2 == 0 {
            lemma_hex_digit_byte(h@[i / 2] as int / 16);
        } else {
            lemma_hex_digit_byte(h@[i / 2] as int % 16);
        }
    }
    assert(is_ascii_chars(chars)) by {
        assert forall|i: int| 0 <= i < chars.len() implies '\0' <= #[trigger] chars[i] <= '\u{7f}' by {
            if i >= 12 {
                assert(chars[i] == hx[i - 12]);
            }
        }
    }
    is_ascii_chars_encode_utf8(chars);
    let key = encode_utf8(chars);
    let pre = ascii_bytes(blocks_prefix());
    let t = ascii_bytes(hx);
    assert(key =~= pre + t) by {
        assert forall|i: int| 0 <= i < key.len() implies key[i] == (pre + t)[i] by {
            assert(key[i] == chars[i] as u8);
            if i >= 12 {
                assert(chars[i] == hx[i - 12]);
            }
        }
    }
    assert(key.take(12) =~= pre);
    assert(key.skip(12) =~= t);
    assert(t.len() == 32);
    assert(t[0] != 47);
    assert(t.take(12) != pre) by {
        assert(t.take(12)[0] != pre[0]);
    }
    assert(trim_all(t, pre) == t);
    assert(trim_all(key, pre) == t);
    assert forall|i: int| 0 <= i < t.len() implies #[trigger] hex_value(t[i]).is_some() by {
        assert(t[i] == hx[i] as u8);
    }
    let b = hex_bytes(t)->0;
    assert(b =~= h@) by {
        assert forall|k: int| 0 <= k < 16 implies b[k] == h@[k] by {
            lemma_hex_digit_byte(h@[k] as int / 16);
            lemma_hex_digit_byte(h@[k] as int % 16);
            assert(t[2 * k] == hx[2 * k] as u8);
            assert(t[2 * k + 1] == hx[2 * k + 1] as u8);
            assert((2 * k) / 2 == k);
            assert((2 * k + 1) / 2 == k);
            assert((2 * k) % 2 == 0);
            assert((2 * k + 1) % 2 == 1);
        }
    }
}

/// A block published under its key reaches the remote index of every
/// node that watches the keys: applying the watch's put of the record for
/// `h` leaves the record among those of `h`.
pub proof fn lemma_watch_indexes_published_block(
    pre: Map<PrefixHash, Seq<RemoteBlockInfo>>,
    h: PrefixHash,
    meta: BlockLocationMeta,
)
    requires
        crate::remote_index::records_one_per_node(pre),
    ensures
        ({
            let post = block_event_result(
                pre,
                encode_utf8(blocks_prefix() + hex_text(h@)),
                BlockEvent::Put(Some(meta)),
            );
            &&& post.contains_key(h)
            &&& post[h].contains(info_of(meta))
            &&& crate::remote_index::records_one_per_node(post)
            &&& forall|k: PrefixHash| k != h ==> post.contains_key(k) == pre.contains_key(k)
        }),
{
    lemma_block_key_roundtrip(h);
    let c = crate::service::hash_from_bytes(h@);
    assert(exists|x: PrefixHash| x@ == h@);
    assert(c@ == h@);
    assert(c =~= h);
    let info = info_of(meta);
    let post = block_event_result(pre, encode_utf8(blocks_prefix() + hex_text(h@)), BlockEvent::Put(Some(meta)));
    if pre.contains_key(h) {
        crate::remote_index::lemma_upsert_one_per_node(pre[h], info);
    } else {
        assert(seq![info][0] == info);
    }
    assert forall|k: PrefixHash| #[trigger] post.contains_key(k) implies crate::remote_index::one_per_node(post[k]) by {
        if k != h {
            assert(pre.contains_key(k));
        }
    }
}

} // verus!
