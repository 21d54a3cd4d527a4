//! Consistent hashing ring for cache placement.
//!
//! Each physical node owns `vnodes_per_node` points on a 64-bit ring; the
//! point of virtual node `i` of node `n` is the first 8 bytes (big-endian)
//! of the SHA-256 digest of the text `n:i`. A prefix hash belongs to the
//! node of the first point at or after the digest position of its lowercase
//! hex text, wrapping around to the first point.
//!
//! The ring is kept as a vector of (position, node) pairs sorted by
//! position, each position once.
use vstd::prelude::*;
use vstd::bytes::{spec_u64_from_le_bytes, u64_from_le_bytes};
use vstd::string::StringExecFns;
use vstd::utf8::encode_utf8;

use crate::digest::{hex_encode, hex_text, sha256, sha256_of};
use crate::prefix::PrefixHash;

verus! {

/// The decimal ASCII digits of `n`.
pub open spec fn decimal(n: nat) -> Seq<u8>
    decreases n,
{
    if n < 10 {
        seq![(48 + n) as u8]
    } else {
        decimal(n / 10).push((48 + n % 10) as u8)
    }
}

/// The big-endian value of the first 8 bytes of `s`.
pub open spec fn be_u64(s: Seq<u8>) -> u64 {
    spec_u64_from_le_bytes(seq![s[7], s[6], s[5], s[4], s[3], s[2], s[1], s[0]])
}

/// The ring position of a key: its SHA-256 digest's first 8 bytes, big-endian.
pub open spec fn position(key: Seq<u8>) -> u64 {
    be_u64(sha256_of(key))
}

/// The text `node:i` that names virtual node `i` of `node`, as bytes.
pub open spec fn vnode_key(node: Seq<char>, i: nat) -> Seq<u8> {
    encode_utf8(node) + seq![58u8] + decimal(i)
}

/// The ring position of virtual node `i` of `node`.
pub open spec fn vnode_position(node: Seq<char>, i: nat) -> u64 {
    position(vnode_key(node, i))
}

/// The ring position of a prefix hash: that of its lowercase hex text.
pub open spec fn prefix_position(h: PrefixHash) -> u64 {
    position(encode_utf8(hex_text(h@)))
}

/// The first `k` virtual nodes of `node`, as ring points.
pub open spec fn vnode_map(node: Seq<char>, k: nat) -> Map<u64, Seq<char>> {
    Map::new(|q: u64| exists|j: nat| j < k && vnode_position(node, j) == q, |q: u64| node)
}

/// Positions strictly increase along the ring.
pub open spec fn sorted(s: Seq<(u64, Seq<char>)>) -> bool {
    forall|a: int, b: int| 0 <= a < b < s.len() ==> s[a].0 < s[b].0
}

/// Every point of `s` belongs to one of `members`.
pub open spec fn owned_by_members(s: Seq<(u64, Seq<char>)>, members: Seq<Seq<char>>) -> bool {
    forall|i: int| 0 <= i < s.len() ==> members.contains(#[trigger] s[i].1)
}

/// Whether some point of `s` sits at position `q`.
pub open spec fn has_pos(s: Seq<(u64, Seq<char>)>, q: u64) -> bool {
    exists|j: int| 0 <= j < s.len() && s[j].0 == q
}

/// The points of `s` as a map from position to node.
pub open spec fn points_map(s: Seq<(u64, Seq<char>)>) -> Map<u64, Seq<char>> {
    Map::new(
        |q: u64| has_pos(s, q),
        |q: u64| s[choose|j: int| 0 <= j < s.len() && s[j].0 == q].1,
    )
}

/// The points of `m` that do not belong to `node`.
pub open spec fn without_owner(m: Map<u64, Seq<char>>, node: Seq<char>) -> Map<u64, Seq<char>> {
    Map::new(|q: u64| m.contains_key(q) && m[q] != node, |q: u64| m[q])
}

/// How many points of `s` lie before position `p` (for sorted `s`: the
/// index of the first point at or after `p`).
pub open spec fn count_below(s: Seq<(u64, Seq<char>)>, p: u64) -> nat
    decreases s.len(),
{
    if s.len() == 0 {
        0
    } else if s[0].0 < p {
        1 + count_below(s.drop_first(), p)
    } else {
        0
    }
}

/// The index of the point that owns position `p`: the first at or after
/// `p`, else (wrapping around) the first point.
pub open spec fn owner_index(s: Seq<(u64, Seq<char>)>, p: u64) -> int {
    if count_below(s, p) < s.len() {
        count_below(s, p) as int
    } else {
        0
    }
}

/// The node that owns position `p` on the ring `s`.
pub open spec fn ring_owner(s: Seq<(u64, Seq<char>)>, p: u64) -> Seq<char> {
    s[owner_index(s, p)].1
}

/// The position of the point that owns position `p` on the ring `s`.
pub open spec fn owner_pos(s: Seq<(u64, Seq<char>)>, p: u64) -> u64 {
    s[owner_index(s, p)].0
}

/// The nodes met walking the ring from the point that follows `p`
/// to the end, and then once more from the start.
pub open spec fn walk(s: Seq<(u64, Seq<char>)>, p: u64) -> Seq<Seq<char>> {
    (s.skip(count_below(s, p) as int) + s).map_values(|e: (u64, Seq<char>)| e.1)
}

/// `s` with every element after its first occurrence dropped.
pub open spec fn dedup(s: Seq<Seq<char>>) -> Seq<Seq<char>>
    decreases s.len(),
{
    if s.len() == 0 {
        s
    } else {
        let d = dedup(s.drop_last());
        if d.contains(s.last()) {
            d
        } else {
            d.push(s.last())
        }
    }
}

proof fn lemma_points_map_at(s: Seq<(u64, Seq<char>)>, j: int)
    requires
        sorted(s),
        0 <= j < s.len(),
    ensures
        points_map(s).contains_key(s[j].0),
        points_map(s)[s[j].0] == s[j].1,
{
    let k = choose|k: int| 0 <= k < s.len() && s[k].0 == s[j].0;
    if k < j {
        assert(s[k].0 < s[j].0);
    }
    if j < k {
        assert(s[j].0 < s[k].0);
    }
}

proof fn lemma_map_owners(s: Seq<(u64, Seq<char>)>, ms: Seq<Seq<char>>)
    requires
        sorted(s),
        owned_by_members(s, ms),
    ensures
        forall|q: u64| #[trigger] points_map(s).contains_key(q) ==> ms.contains(points_map(s)[q]),
{
    assert forall|q: u64| #[trigger] points_map(s).contains_key(q) implies ms.contains(points_map(s)[q]) by {
        let j = choose|j: int| 0 <= j < s.len() && s[j].0 == q;
        lemma_points_map_at(s, j);
    }
}

proof fn lemma_owned_from_map(t: Seq<(u64, Seq<char>)>, ms: Seq<Seq<char>>)
    requires
        sorted(t),
        forall|q: u64| #[trigger] points_map(t).contains_key(q) ==> ms.contains(points_map(t)[q]),
    ensures
        owned_by_members(t, ms),
{
    assert forall|i: int| 0 <= i < t.len() implies ms.contains(#[trigger] t[i].1) by {
        lemma_points_map_at(t, i);
    }
}

proof fn lemma_count_below(s: Seq<(u64, Seq<char>)>, p: u64)
    requires
        sorted(s),
    ensures
        count_below(s, p) <= s.len(),
        forall|j: int| 0 <= j < count_below(s, p) ==> #[trigger] s[j].0 < p,
        count_below(s, p) < s.len() ==> s[count_below(s, p) as int].0 >= p,
    decreases s.len(),
{
    if s.len() > 0 && s[0].0 < p {
        let t = s.drop_first();
        assert(sorted(t)) by {
            assert forall|a: int, b: int| 0 <= a < b < t.len() implies t[a].0 < t[b].0 by {
                assert(t[a] == s[a + 1] && t[b] == s[b + 1]);
            }
        }
        lemma_count_below(t, p);
        assert forall|j: int| 0 <= j < count_below(s, p) implies #[trigger] s[j].0 < p by {
            if j > 0 {
                assert(s[j] == t[j - 1]);
            }
        }
        if count_below(s, p) < s.len() {
            assert(s[count_below(s, p) as int] == t[count_below(t, p) as int]);
        }
    }
}

proof fn lemma_count_below_exact(s: Seq<(u64, Seq<char>)>, p: u64, i: int)
    requires
        sorted(s),
        0 <= i <= s.len(),
        forall|j: int| 0 <= j < i ==> #[trigger] s[j].0 < p,
        i < s.len() ==> s[i].0 >= p,
    ensures
        count_below(s, p) == i,
{
    lemma_count_below(s, p);
    let c = count_below(s, p) as int;
    if c < i {
        assert(s[c].0 < p);
    }
    if i < c {
        assert(s[i].0 < p);
    }
}

proof fn lemma_dedup_step(s: Seq<Seq<char>>, k: int)
    requires
        0 <= k < s.len(),
    ensures
        dedup(s.take(k + 1)) == if dedup(s.take(k)).contains(s[k]) {
            dedup(s.take(k))
        } else {
            dedup(s.take(k)).push(s[k])
        },
{
    assert(s.take(k + 1).drop_last() =~= s.take(k));
}

proof fn lemma_dedup_distinct(s: Seq<Seq<char>>)
    ensures
        dedup(s).no_duplicates(),
    decreases s.len(),
{
    if s.len() > 0 {
        lemma_dedup_distinct(s.drop_last());
    }
}

proof fn lemma_dedup_prefix(s: Seq<Seq<char>>, k: int)
    requires
        0 <= k <= s.len(),
    ensures
        dedup(s.take(k)).len() <= dedup(s).len(),
        dedup(s.take(k)) == dedup(s).take(dedup(s.take(k)).len() as int),
    decreases s.len() - k,
{
    if k == s.len() {
        assert(s.take(k) =~= s);
    } else {
        lemma_dedup_step(s, k);
        lemma_dedup_prefix(s, k + 1);
        let a = dedup(s.take(k));
        let b = dedup(s.take(k + 1));
        assert(a == b.take(a.len() as int)) by {
            if !a.contains(s[k]) {
                assert(a =~= a.push(s[k]).take(a.len() as int));
            }
        }
        assert(a =~= dedup(s).take(a.len() as int));
    }
}

/// The decimal digits of `n`, as ASCII bytes.
fn decimal_bytes(n: u32) -> (v: Vec<u8>)
    ensures
        v@ == decimal(n as nat),
    decreases n,
{
    if n < 10 {
        let mut v: Vec<u8> = Vec::new();
        v.push(48 + n as u8);
        v
    } else {
        let mut v = decimal_bytes(n / 10);
        v.push(48 + (n % 10) as u8);
        v
    }
}

/// The ring position that a digest gives: its first 8 bytes, big-endian.
pub fn position_from_digest(digest: &[u8]) -> (p: u64)
    requires
        digest@.len() >= 8,
    ensures
        p == be_u64(digest@),
{
    let mut le: Vec<u8> = Vec::with_capacity(8);
    le.push(digest[7]);
    le.push(digest[6]);
    le.push(digest[5]);
    le.push(digest[4]);
    le.push(digest[3]);
    le.push(digest[2]);
    le.push(digest[1]);
    le.push(digest[0]);
    assert(le@ =~= seq![digest@[7], digest@[6], digest@[5], digest@[4], digest@[3], digest@[2], digest@[1], digest@[0]]);
    u64_from_le_bytes(le.as_slice())
}

/// The ring position of a key.
fn hash_position(key: &[u8]) -> (p: u64)
    ensures
        p == position(key@),
{
    let d = sha256(key);
    position_from_digest(d.as_slice())
}

/// The bytes of the text `node:i`.
fn vnode_key_bytes(node: &String, i: u32) -> (v: Vec<u8>)
    ensures
        v@ == vnode_key(node@, i as nat),
{
    let name = node.as_str().as_bytes();
    let digits = decimal_bytes(i);
    let mut v: Vec<u8> = Vec::new();
    let mut k: usize = 0;
    while k < name.len()
        invariant
            k <= name@.len(),
            v@ == name@.subrange(0, k as int),
        decreases name@.len() - k,
    {
        v.push(name[k]);
        k = k + 1;
        assert(v@ =~= name@.subrange(0, k as int));
    }
    v.push(58u8);
    let mut k: usize = 0;
    while k < digits.len()
        invariant
            k <= digits@.len(),
            v@ == name@ + seq![58u8] + digits@.subrange(0, k as int),
        decreases digits@.len() - k,
    {
        v.push(digits[k]);
        k = k + 1;
        assert(v@ =~= name@ + seq![58u8] + digits@.subrange(0, k as int));
    }
    assert(name@ == encode_utf8(node@));
    assert(digits@.subrange(0, digits@.len() as int) =~= digits@);
    v
}

/// Consistent hash ring with virtual nodes.
pub struct HashRing {
    /// The points (position, node), sorted by position, so that the point
    /// owning a position is found by binary search.
    ring: Vec<(u64, String)>,
    vnodes_per_node: u32,
    nodes: Vec<String>,
}

impl HashRing {
    /// The ring's points in position order.
    pub closed spec fn points(&self) -> Seq<(u64, Seq<char>)> {
        self.ring@.map_values(|e: (u64, String)| (e.0, e.1@))
    }

    /// The physical nodes, in the order they were added.
    pub closed spec fn members(&self) -> Seq<Seq<char>> {
        self.nodes@.map_values(|n: String| n@)
    }

    pub closed spec fn spec_vnodes_per_node(&self) -> nat {
        self.vnodes_per_node as nat
    }

    pub closed spec fn wf(&self) -> bool {
        &&& sorted(self.points())
        &&& self.members().no_duplicates()
        &&& owned_by_members(self.points(), self.members())
    }

    /// What well-formedness gives: points in strictly increasing position
    /// order, members listed once, and every point owned by a member.
    pub proof fn lemma_wf(&self)
        requires
            self.wf(),
        ensures
            sorted(self.points()),
            self.members().no_duplicates(),
            owned_by_members(self.points(), self.members()),
    {
    }

    pub fn new(vnodes_per_node: u32) -> (ring: Self)
        ensures
            ring.wf(),
            ring.points() == Seq::<(u64, Seq<char>)>::empty(),
            ring.members() == Seq::<Seq<char>>::empty(),
            ring.spec_vnodes_per_node() == vnodes_per_node,
    {
        let ring = Self { ring: Vec::new(), vnodes_per_node, nodes: Vec::new() };
        assert(ring.points() =~= Seq::<(u64, Seq<char>)>::empty());
        assert(ring.members() =~= Seq::<Seq<char>>::empty());
        ring
    }

    /// Whether `node_id` is a member.
    fn has_node(&self, node_id: &String) -> (b: bool)
        ensures
            b == self.members().contains(node_id@),
    {
        let mut i: usize = 0;
        while i < self.nodes.len()
            invariant
                i <= self.nodes@.len(),
                forall|j: int| 0 <= j < i ==> #[trigger] self.nodes@[j]@ != node_id@,
            decreases self.nodes@.len() - i,
        {
            if self.nodes[i] == *node_id {
                assert(self.members()[i as int] == node_id@);
                return true;
            }
            i = i + 1;
        }
        proof {
            if self.members().contains(node_id@) {
                let j = choose|j: int| 0 <= j < self.members().len() && self.members()[j] == node_id@;
                assert(self.nodes@[j]@ == node_id@);
            }
        }
        false
    }

    /// Put a point for `node` at `pos`, replacing any point already there.
    fn insert_point(&mut self, pos: u64, node: String)
        requires
            sorted(old(self).points()),
        ensures
            sorted(final(self).points()),
            points_map(final(self).points()) == points_map(old(self).points()).insert(pos, node@),
            final(self).nodes == old(self).nodes,
            final(self).vnodes_per_node == old(self).vnodes_per_node,
    {
        let ghost s = self.points();
        // Binary search for the first point at or after `pos`.
        let mut lo: usize = 0;
        let mut hi: usize = self.ring.len();
        while lo < hi
            invariant
                s == self.points(),
                sorted(s),
                0 <= lo <= hi <= self.ring@.len(),
                forall|j: int| 0 <= j < lo ==> #[trigger] s[j].0 < pos,
                forall|j: int| hi <= j < s.len() ==> #[trigger] s[j].0 >= pos,
            decreases hi - lo,
        {
            let mid = lo + (hi - lo) / 2;
            if self.ring[mid].0 < pos {
                assert(s[mid as int].0 < pos);
                assert forall|j: int| 0 <= j < mid + 1 implies #[trigger] s[j].0 < pos by {
                    if j < mid {
                        assert(s[j].0 < s[mid as int].0);
                    }
                }
                lo = mid + 1;
            } else {
                assert forall|j: int| mid <= j < s.len() implies #[trigger] s[j].0 >= pos by {
                    if j > mid {
                        assert(s[mid as int].0 < s[j].0);
                    }
                }
                hi = mid;
            }
        }
        let i = lo;
        let ghost nd = node@;
        if i < self.ring.len() && self.ring[i].0 == pos {
            assert(s[i as int].0 == pos);
            self.ring.set(i, (pos, node));
            proof {
                let t = self.points();
                assert(t =~= s.update(i as int, (pos, nd)));
                assert(sorted(t)) by {
                    assert forall|a: int, b: int| 0 <= a < b < t.len() implies t[a].0 < t[b].0 by {
                        assert(t[a].0 == s[a].0 && t[b].0 == s[b].0);
                    }
                }
                assert(points_map(t) =~= points_map(s).insert(pos, nd)) by {
                    assert forall|q: u64| (has_pos(s, q) || q == pos) implies #[trigger] has_pos(t, q) by {
                        if q == pos {
                            assert(t[i as int].0 == q);
                        } else {
                            let j = choose|j: int| 0 <= j < s.len() && s[j].0 == q;
                            assert(t[j].0 == q);
                        }
                    }
                    assert forall|q: u64| #[trigger] has_pos(t, q) implies (has_pos(s, q) || q == pos) by {
                        if has_pos(t, q) {
                            let j = choose|j: int| 0 <= j < t.len() && t[j].0 == q;
                            assert(s[j].0 == q);
                        }
                    }
                    assert forall|q: u64| has_pos(t, q) implies #[trigger] points_map(t)[q]
                        == points_map(s).insert(pos, nd)[q] by {
                        let j = choose|j: int| 0 <= j < t.len() && t[j].0 == q;
                        lemma_points_map_at(t, j);
                        if j != i {
                            lemma_points_map_at(s, j);
                        }
                    }
                }
            }
        } else {
            self.ring.insert(i, (pos, node));
            proof {
                let t = self.points();
                assert(t =~= s.insert(i as int, (pos, nd)));
                assert(sorted(t)) by {
                    assert forall|a: int, b: int| 0 <= a < b < t.len() implies t[a].0 < t[b].0 by {
                        if b < i {
                        } else if a > i {
                            assert(t[a] == s[a - 1] && t[b] == s[b - 1]);
                        } else if a == i {
                            assert(t[b] == s[b - 1]);
                            assert(s[b - 1].0 >= pos);
                            assert(s[b - 1].0 != pos);
                        } else if b == i {
                            assert(t[a] == s[a]);
                        } else {
                            assert(t[a] == s[a] && t[b] == s[b - 1]);
                        }
                    }
                }
                assert(points_map(t) =~= points_map(s).insert(pos, nd)) by {
                    assert forall|q: u64| (has_pos(s, q) || q == pos) implies #[trigger] has_pos(t, q) by {
                        if q == pos {
                            assert(t[i as int].0 == q);
                        } else {
                            let j = choose|j: int| 0 <= j < s.len() && s[j].0 == q;
                            if j < i {
                                assert(t[j].0 == q);
                            } else {
                                assert(t[j + 1].0 == q);
                            }
                        }
                    }
                    assert forall|q: u64| #[trigger] has_pos(t, q) implies (has_pos(s, q) || q == pos) by {
                        if has_pos(t, q) {
                            let j = choose|j: int| 0 <= j < t.len() && t[j].0 == q;
                            if j < i {
                                assert(s[j].0 == q);
                            } else if j > i {
                                assert(s[j - 1].0 == q);
                            }
                        }
                    }
                    assert forall|q: u64| has_pos(t, q) implies #[trigger] points_map(t)[q]
                        == points_map(s).insert(pos, nd)[q] by {
                        let j = choose|j: int| 0 <= j < t.len() && t[j].0 == q;
                        lemma_points_map_at(t, j);
                        if j < i {
                            lemma_points_map_at(s, j);
                        } else if j > i {
                            lemma_points_map_at(s, j - 1);
                        }
                    }
                }
            }
        }
    }

    /// Add a node to the ring, creating `vnodes_per_node` virtual nodes;
    /// a node already present is left as it is.
    pub fn add_node(&mut self, node_id: String)
        requires
            old(self).wf(),
        ensures
            final(self).wf(),
            final(self).spec_vnodes_per_node() == old(self).spec_vnodes_per_node(),
            old(self).members().contains(node_id@) ==> *final(self) == *old(self),
            !old(self).members().contains(node_id@) ==> {
                &&& final(self).members() == old(self).members().push(node_id@)
                &&& points_map(final(self).points()) == points_map(old(self).points()).union_prefer_right(
                    vnode_map(node_id@, old(self).spec_vnodes_per_node()),
                )
            },
    {
        if self.has_node(&node_id) {
            return;
        }
        let ghost m0 = points_map(self.points());
        let ghost nd = node_id@;
        let mut i: u32 = 0;
        while i < self.vnodes_per_node
            invariant
                i <= self.vnodes_per_node,
                sorted(self.points()),
                self.nodes == old(self).nodes,
                self.vnodes_per_node == old(self).vnodes_per_node,
                nd == node_id@,
                m0 == points_map(old(self).points()),
                points_map(self.points()) == m0.union_prefer_right(vnode_map(nd, i as nat)),
            decreases self.vnodes_per_node - i,
        {
            let vnode_key = vnode_key_bytes(&node_id, i);
            let pos = hash_position(vnode_key.as_slice());
            self.insert_point(pos, node_id.clone());
            proof {
                assert(m0.union_prefer_right(vnode_map(nd, i as nat)).insert(pos, nd) =~= m0.union_prefer_right(
                    vnode_map(nd, (i + 1) as nat),
                )) by {
                    assert(pos == vnode_position(nd, i as nat));
                    assert forall|q: u64| #[trigger] vnode_map(nd, (i + 1) as nat).contains_key(q) <==> (
                    vnode_map(nd, i as nat).contains_key(q) || q == pos) by {
                        if q == pos {
                            assert(vnode_position(nd, i as nat) == q);
                        }
                        if vnode_map(nd, (i + 1) as nat).contains_key(q) {
                            let j = choose|j: nat| j < i + 1 && vnode_position(nd, j) == q;
                            if j < i {
                                assert(vnode_map(nd, i as nat).contains_key(q));
                            }
                        }
                    }
                }
            }
            i = i + 1;
        }
        let ghost pre_nodes = self.members();
        self.nodes.push(node_id);
        proof {
            assert(self.members() =~= pre_nodes.push(nd));
            assert(self.members().no_duplicates()) by {
                assert forall|a: int, b: int|
                    0 <= a < b < self.members().len() implies self.members()[a] != self.members()[b] by {
                    if b == self.members().len() - 1 {
                        assert(pre_nodes[a] != nd);
                    }
                }
            }
            let ms = self.members();
            lemma_map_owners(old(self).points(), pre_nodes);
            assert(ms[ms.len() - 1] == nd);
            assert forall|q: u64| #[trigger] points_map(self.points()).contains_key(q) implies ms.contains(
                points_map(self.points())[q],
            ) by {
                if vnode_map(nd, self.vnodes_per_node as nat).contains_key(q) {
                    assert(points_map(self.points())[q] == nd);
                } else {
                    let x = m0[q];
                    assert(pre_nodes.contains(x));
                    let k = choose|k: int| 0 <= k < pre_nodes.len() && pre_nodes[k] == x;
                    assert(ms[k] == x);
                }
            }
            lemma_owned_from_map(self.points(), ms);
        }
    }

    /// Remove a node and all its virtual nodes from the ring.
    pub fn remove_node(&mut self, node_id: &str)
        requires
            old(self).wf(),
        ensures
            final(self).wf(),
            final(self).spec_vnodes_per_node() == old(self).spec_vnodes_per_node(),
            points_map(final(self).points()) == without_owner(points_map(old(self).points()), node_id@),
            final(self).members() == old(self).members().remove_value(node_id@),
    {
        let node = String::from_str(node_id);
        let ghost s = self.points();
        let ghost nd = node@;
        let mut kept: Vec<(u64, String)> = Vec::new();
        let mut i: usize = 0;
        while i < self.ring.len()
            invariant
                s == self.points(),
                sorted(s),
                nd == node@,
                i <= s.len(),
                sorted(kept@.map_values(|e: (u64, String)| (e.0, e.1@))),
                kept@.len() > 0 && i < s.len() ==> kept@.last().0 < s[i as int].0,
                points_map(kept@.map_values(|e: (u64, String)| (e.0, e.1@))) == without_owner(
                    points_map(s.take(i as int)),
                    nd,
                ),
            decreases s.len() - i,
        {
            let ghost k0 = kept@.map_values(|e: (u64, String)| (e.0, e.1@));
            let pos = self.ring[i].0;
            let keep = self.ring[i].1 != node;
            if keep {
                kept.push((pos, self.ring[i].1.clone()));
            }
            proof {
                let k1 = kept@.map_values(|e: (u64, String)| (e.0, e.1@));
                let a = s.take(i as int);
                let b = s.take(i + 1);
                assert(sorted(a)) by {
                    assert forall|x: int, y: int| 0 <= x < y < a.len() implies a[x].0 < a[y].0 by {
                        assert(a[x] == s[x] && a[y] == s[y]);
                    }
                }
                assert(sorted(b)) by {
                    assert forall|x: int, y: int| 0 <= x < y < b.len() implies b[x].0 < b[y].0 by {
                        assert(b[x] == s[x] && b[y] == s[y]);
                    }
                }
                assert(keep == (s[i as int].1 != nd));
                lemma_points_map_at(b, i as int);
                assert forall|q: u64| #[trigger] has_pos(b, q) <==> (has_pos(a, q) || q == s[i as int].0) by {
                    if has_pos(b, q) {
                        let j = choose|j: int| 0 <= j < b.len() && b[j].0 == q;
                        if j < i {
                            assert(a[j].0 == q);
                        }
                    }
                    if has_pos(a, q) {
                        let j = choose|j: int| 0 <= j < a.len() && a[j].0 == q;
                        assert(b[j].0 == q);
                    }
                    if q == s[i as int].0 {
                        assert(b[i as int].0 == q);
                    }
                }
                assert(!has_pos(a, s[i as int].0)) by {
                    if has_pos(a, s[i as int].0) {
                        let j = choose|j: int| 0 <= j < a.len() && a[j].0 == s[i as int].0;
                        assert(s[j].0 < s[i as int].0);
                    }
                }
                assert forall|q: u64| has_pos(a, q) implies #[trigger] points_map(b)[q] == points_map(a)[q] by {
                    let j = choose|j: int| 0 <= j < a.len() && a[j].0 == q;
                    lemma_points_map_at(a, j);
                    lemma_points_map_at(b, j);
                }
                if keep {
                    assert(k1 =~= k0.push((pos, s[i as int].1)));
                    assert(sorted(k1)) by {
                        assert forall|x: int, y: int| 0 <= x < y < k1.len() implies k1[x].0 < k1[y].0 by {
                            if y == k1.len() - 1 && x < y {
                                assert(k0.last().0 < s[i as int].0);
                                if x < k0.len() - 1 {
                                    assert(k0[x].0 < k0.last().0);
                                }
                            }
                        }
                    }
                    lemma_points_map_at(k1, k1.len() - 1);
                    assert forall|q: u64| #[trigger] has_pos(k1, q) <==> (has_pos(k0, q) || q == pos) by {
                        if has_pos(k1, q) {
                            let j = choose|j: int| 0 <= j < k1.len() && k1[j].0 == q;
                            if j < k0.len() {
                                assert(k0[j].0 == q);
                            }
                        }
                        if has_pos(k0, q) {
                            let j = choose|j: int| 0 <= j < k0.len() && k0[j].0 == q;
                            assert(k1[j].0 == q);
                        }
                        if q == pos {
                            assert(k1[k1.len() - 1].0 == q);
                        }
                    }
                    assert forall|q: u64| has_pos(k0, q) implies #[trigger] points_map(k1)[q] == points_map(k0)[q] by {
                        let j = choose|j: int| 0 <= j < k0.len() && k0[j].0 == q;
                        lemma_points_map_at(k0, j);
                        lemma_points_map_at(k1, j);
                    }
                    let wb = without_owner(points_map(b), nd);
                    assert forall|q: u64| #[trigger] points_map(k1).contains_key(q) implies wb.contains_key(q) by {
                        if q != pos {
                            assert(has_pos(k0, q));
                            assert(points_map(k0).contains_key(q));
                            assert(without_owner(points_map(a), nd).contains_key(q));
                            assert(has_pos(a, q));
                            assert(points_map(b)[q] == points_map(a)[q]);
                        }
                    }
                    assert forall|q: u64| #[trigger] wb.contains_key(q) implies points_map(k1).contains_key(q) by {
                        if q != pos {
                            assert(has_pos(b, q));
                            assert(has_pos(a, q));
                            assert(points_map(b)[q] == points_map(a)[q]);
                            assert(without_owner(points_map(a), nd).contains_key(q));
                            assert(points_map(k0).contains_key(q));
                            assert(has_pos(k0, q));
                        }
                    }
                    assert forall|q: u64| points_map(k1).contains_key(q) implies #[trigger] points_map(k1)[q] == wb[q] by {
                        if q == pos {
                            assert(k1[k1.len() - 1].0 == pos);
                        } else {
                            assert(has_pos(k0, q));
                            assert(points_map(k1)[q] == points_map(k0)[q]);
                            assert(has_pos(a, q));
                            assert(points_map(b)[q] == points_map(a)[q]);
                        }
                    }
                    assert(points_map(k1) =~= wb);
                } else {
                    assert(k1 == k0);
                    assert(points_map(k1) =~= without_owner(points_map(b), nd));
                }
                if i + 1 < s.len() && kept@.len() > 0 {
                    assert(s[i as int].0 < s[i + 1].0);
                }
            }
            i = i + 1;
        }
        proof {
            assert(s.take(s.len() as int) =~= s);
        }
        self.ring = kept;
        let ghost final_points = self.points();

        // Drop the node from the member list (each member is listed once).
        let ghost ms = self.members();
        let mut j: usize = 0;
        while j < self.nodes.len()
            invariant
                ms == self.members(),
                ms.no_duplicates(),
                final_points == self.points(),
                sorted(final_points),
                points_map(final_points) == without_owner(points_map(s), nd),
                self.vnodes_per_node == old(self).vnodes_per_node,
                ms == old(self).members(),
                s == old(self).points(),
                sorted(s),
                owned_by_members(s, ms),
                nd == node_id@,
                nd == node@,
                j <= ms.len(),
                forall|k: int| 0 <= k < j ==> #[trigger] ms[k] != nd,
            decreases ms.len() - j,
        {
            if self.nodes[j] == node {
                proof {
                    crate::eviction::lemma_first_of_distinct(ms, j as int, nd);
                }
                self.nodes.remove(j);
                proof {
                    assert(self.members() =~= ms.remove(j as int));
                    assert(self.members().no_duplicates()) by {
                        assert forall|a: int, b: int|
                            0 <= a < b < self.members().len() implies self.members()[a] != self.members()[b] by {
                            let oa = if a < j { a } else { a + 1 };
                            let ob = if b < j { b } else { b + 1 };
                            assert(self.members()[a] == ms[oa] && self.members()[b] == ms[ob]);
                        }
                    }
                    let ms2 = self.members();
                    lemma_map_owners(s, ms);
                    assert forall|q: u64| #[trigger] points_map(final_points).contains_key(q) implies ms2.contains(
                        points_map(final_points)[q],
                    ) by {
                        let x = points_map(final_points)[q];
                        assert(x != nd);
                        assert(ms.contains(x));
                        let k = choose|k: int| 0 <= k < ms.len() && ms[k] == x;
                        assert(k != j);
                        if k < j {
                            assert(ms2[k] == x);
                        } else {
                            assert(ms2[k - 1] == x);
                        }
                    }
                    lemma_owned_from_map(final_points, ms2);
                }
                return;
            }
            j = j + 1;
        }
        proof {
            assert(!ms.contains(nd));
            crate::eviction::lemma_remove_absent(ms, nd);
            lemma_map_owners(s, ms);
            lemma_owned_from_map(final_points, ms);
        }
    }

    /// The index of the first point at or after `p` (the number of points
    /// before it).
    fn successor(&self, p: u64) -> (i: usize)
        requires
            self.wf(),
        ensures
            i == count_below(self.points(), p),
    {
        let ghost s = self.points();
        let mut lo: usize = 0;
        let mut hi: usize = self.ring.len();
        while lo < hi
            invariant
                s == self.points(),
                sorted(s),
                0 <= lo <= hi <= s.len(),
                forall|j: int| 0 <= j < lo ==> #[trigger] s[j].0 < p,
                forall|j: int| hi <= j < s.len() ==> #[trigger] s[j].0 >= p,
            decreases hi - lo,
        {
            let mid = lo + (hi - lo) / 2;
            if self.ring[mid].0 < p {
                assert forall|j: int| 0 <= j < mid + 1 implies #[trigger] s[j].0 < p by {
                    if j < mid {
                        assert(s[j].0 < s[mid as int].0);
                    }
                }
                lo = mid + 1;
            } else {
                assert forall|j: int| mid <= j < s.len() implies #[trigger] s[j].0 >= p by {
                    if j > mid {
                        assert(s[mid as int].0 < s[j].0);
                    }
                }
                hi = mid;
            }
        }
        proof {
            lemma_count_below_exact(s, p, lo as int);
        }
        lo
    }

    /// The ring position of a prefix hash.
    fn prefix_hash_position(prefix_hash: &PrefixHash) -> (p: u64)
        ensures
            p == prefix_position(*prefix_hash),
    {
        let text = hex_encode(prefix_hash.as_slice());
        hash_position(text.as_str().as_bytes())
    }

    /// The preferred node for a prefix hash: the node of the first point at
    /// or after its position, wrapping around; `None` on an empty ring.
    pub fn preferred_node(&self, prefix_hash: &PrefixHash) -> (r: Option<&str>)
        requires
            self.wf(),
        ensures
            self.points().len() == 0 ==> r.is_none(),
            self.points().len() > 0 ==> (r matches Some(name) && name@ == ring_owner(
                self.points(),
                prefix_position(*prefix_hash),
            ) && self.members().contains(name@)),
    {
        if self.ring.len() == 0 {
            return None;
        }
        let pos = Self::prefix_hash_position(prefix_hash);
        let i = self.successor(pos);
        let idx = if i < self.ring.len() { i } else { 0 };
        proof {
            lemma_count_below(self.points(), pos);
            assert(self.members().contains(self.points()[idx as int].1));
        }
        Some(self.ring[idx].1.as_str())
    }

    /// The nodes of the ring points at `picked`.
    pub closed spec fn picked_names(&self, picked: Seq<usize>) -> Seq<Seq<char>> {
        picked.map_values(|j: usize| self.points()[j as int].1)
    }

    /// Record ring point `j` in `picked` unless its node is already there.
    fn pick_if_new(&self, j: usize, picked: &mut Vec<usize>)
        requires
            j < self.ring@.len(),
            forall|x: int| 0 <= x < old(picked)@.len() ==> #[trigger] old(picked)@[x] < self.ring@.len(),
        ensures
            forall|x: int| 0 <= x < final(picked)@.len() ==> #[trigger] final(picked)@[x] < self.ring@.len(),
            final(picked)@.len() <= old(picked)@.len() + 1,
            self.picked_names(final(picked)@) == if self.picked_names(old(picked)@).contains(
                self.points()[j as int].1,
            ) {
                self.picked_names(old(picked)@)
            } else {
                self.picked_names(old(picked)@).push(self.points()[j as int].1)
            },
    {
        let ghost names = self.picked_names(picked@);
        let ghost name = self.points()[j as int].1;
        let mut t: usize = 0;
        while t < picked.len()
            invariant
                picked@ == old(picked)@,
                names == self.picked_names(picked@),
                name == self.points()[j as int].1,
                j < self.ring@.len(),
                forall|x: int| 0 <= x < picked@.len() ==> #[trigger] picked@[x] < self.ring@.len(),
                t <= picked@.len(),
                forall|x: int| 0 <= x < t ==> #[trigger] names[x] != name,
            decreases picked@.len() - t,
        {
            if self.ring[picked[t]].1 == self.ring[j].1 {
                assert(names[t as int] == name);
                return;
            }
            t = t + 1;
        }
        proof {
            if names.contains(name) {
                let x = choose|x: int| 0 <= x < names.len() && names[x] == name;
                assert(false);
            }
        }
        picked.push(j);
        proof {
            assert(self.picked_names(picked@) =~= names.push(name));
        }
    }

    /// The first `n` distinct nodes met walking the ring from a prefix
    /// hash's position (fewer when the ring has fewer nodes), for replication.
    pub fn preferred_nodes(&self, prefix_hash: &PrefixHash, n: usize) -> (r: Vec<&str>)
        requires
            self.wf(),
        ensures
            self.points().len() == 0 ==> r@.len() == 0,
            self.points().len() > 0 ==> {
                let d = dedup(walk(self.points(), prefix_position(*prefix_hash)));
                let want = n as int;
                let m = if d.len() < want { d.len() as int } else { want };
                &&& r@.len() == m
                &&& forall|k: int| 0 <= k < m ==> #[trigger] r@[k]@ == d[k]
            },
    {
        let mut result: Vec<&str> = Vec::new();
        if self.ring.len() == 0 || n == 0 {
            return result;
        }
        let want: usize = n;
        let pos = Self::prefix_hash_position(prefix_hash);
        let start = self.successor(pos);
        let len = self.ring.len();
        let ghost s = self.points();
        let ghost w = walk(s, pos);
        proof {
            lemma_count_below(s, pos);
            assert(w.len() == (len - start) + len);
            assert forall|k: int| 0 <= k < w.len() implies #[trigger] w[k] == s[if k < len - start {
                start + k
            } else {
                k - (len - start)
            }].1 by {}
        }
        let mut picked: Vec<usize> = Vec::new();
        // From the point that follows the position to the end of the ring.
        let mut j: usize = start;
        while j < len && picked.len() < want
            invariant
                s == self.points(),
                w == walk(s, pos),
                start == count_below(s, pos),
                start <= j <= len,
                len == s.len(),
                forall|k: int| 0 <= k < w.len() ==> #[trigger] w[k] == s[if k < len - start {
                    start + k
                } else {
                    k - (len - start)
                }].1,
                forall|x: int| 0 <= x < picked@.len() ==> #[trigger] picked@[x] < len,
                picked@.len() <= want,
                self.picked_names(picked@) == dedup(w.take(j - start)),
            decreases len - j,
        {
            proof {
                lemma_dedup_step(w, j - start);
            }
            self.pick_if_new(j, &mut picked);
            j = j + 1;
        }
        let ghost done1 = (j - start) as int;
        // Then once more from the start of the ring.
        let mut j2: usize = 0;
        if picked.len() < want {
            while j2 < len && picked.len() < want
                invariant
                    s == self.points(),
                    w == walk(s, pos),
                    start == count_below(s, pos),
                    start <= len,
                    done1 == len - start,
                    0 <= j2 <= len,
                    len == s.len(),
                    forall|k: int| 0 <= k < w.len() ==> #[trigger] w[k] == s[if k < len - start {
                        start + k
                    } else {
                        k - (len - start)
                    }].1,
                    forall|x: int| 0 <= x < picked@.len() ==> #[trigger] picked@[x] < len,
                    picked@.len() <= want,
                    self.picked_names(picked@) == dedup(w.take(done1 + j2)),
                decreases len - j2,
            {
                proof {
                    lemma_dedup_step(w, done1 + j2);
                }
                self.pick_if_new(j2, &mut picked);
                j2 = j2 + 1;
            }
        }
        let ghost consumed = done1 + j2;
        proof {
            assert(0 <= consumed <= w.len());
            lemma_dedup_prefix(w, consumed);
            if picked@.len() < want {
                assert(consumed == w.len());
                assert(w.take(consumed) =~= w);
            }
            assert(dedup(w).len() > 0) by {
                lemma_dedup_step(w, 0);
                lemma_dedup_prefix(w, 1);
                assert(w.take(0) =~= Seq::<Seq<char>>::empty());
            }
        }
        let mut k: usize = 0;
        while k < picked.len()
            invariant
                k <= picked@.len(),
                forall|x: int| 0 <= x < picked@.len() ==> #[trigger] picked@[x] < self.ring@.len(),
                result@.len() == k,
                forall|x: int| 0 <= x < k ==> #[trigger] result@[x]@ == self.picked_names(picked@)[x],
            decreases picked@.len() - k,
        {
            result.push(self.ring[picked[k]].1.as_str());
            k = k + 1;
        }
        proof {
            let names = self.picked_names(picked@);
            let d = dedup(w);
            assert(names == d.take(names.len() as int));
            assert forall|x: int| 0 <= x < names.len() implies #[trigger] result@[x]@ == d[x] by {
                assert(names[x] == d.take(names.len() as int)[x]);
            }
        }
        result
    }

    /// Number of physical nodes in the ring.
    pub fn node_count(&self) -> (n: usize)
        ensures
            n == self.members().len(),
    {
        self.nodes.len()
    }
}

/// The owning point of `p` is a point of the ring: the first at or after
/// `p` if there is one, else the first of all.
pub proof fn lemma_owner_pos(s: Seq<(u64, Seq<char>)>, p: u64)
    requires
        sorted(s),
        s.len() > 0,
    ensures
        has_pos(s, owner_pos(s, p)),
        points_map(s)[owner_pos(s, p)] == ring_owner(s, p),
        forall|q: u64| #[trigger] has_pos(s, q) && q >= p ==> p <= owner_pos(s, p) <= q,
        owner_pos(s, p) < p ==> forall|q: u64| #[trigger] has_pos(s, q) ==> q < p && owner_pos(s, p) <= q,
{
    lemma_count_below(s, p);
    let i = owner_index(s, p);
    lemma_points_map_at(s, i);
    let c = count_below(s, p) as int;
    assert forall|q: u64| #[trigger] has_pos(s, q) && q >= p implies p <= owner_pos(s, p) <= q by {
        let j = choose|j: int| 0 <= j < s.len() && s[j].0 == q;
        if j < c {
            assert(s[j].0 < p);
        }
        if c < j {
            assert(s[c].0 < s[j].0);
        }
    }
    if owner_pos(s, p) < p {
        assert forall|q: u64| #[trigger] has_pos(s, q) implies q < p && owner_pos(s, p) <= q by {
            let j = choose|j: int| 0 <= j < s.len() && s[j].0 == q;
            assert(c == s.len());
            assert(s[j].0 < p);
            if j > 0 {
                assert(s[0].0 < s[j].0);
            }
        }
    }
}

/// On two rings where every point of `s` is a point of `t`, if the point
/// of `t` that owns `p` is a point of `s`, it owns `p` on `s` too.
proof fn lemma_owner_pos_agree(s: Seq<(u64, Seq<char>)>, t: Seq<(u64, Seq<char>)>, p: u64)
    requires
        sorted(s),
        sorted(t),
        s.len() > 0,
        t.len() > 0,
        forall|q: u64| #[trigger] has_pos(s, q) ==> has_pos(t, q),
        has_pos(s, owner_pos(t, p)),
    ensures
        owner_pos(t, p) == owner_pos(s, p),
{
    lemma_owner_pos(s, p);
    lemma_owner_pos(t, p);
    let a = owner_pos(s, p);
    let b = owner_pos(t, p);
    assert(has_pos(t, a));
    if b >= p {
        assert(has_pos(s, b) && b >= p);
        assert(a <= b);
        if a >= p {
            assert(b <= a);
        }
    } else {
        assert(b <= a);
        assert(a < p);
        assert(a <= b);
    }
}

/// Adding a node moves a prefix hash, if at all, to the new node: after
/// `add_node` of a node that was not a member, each hash is owned by the
/// node that owned it before or by the new node (by the new node alone
/// when the ring had no points).
pub proof fn lemma_add_node_moves_only_to_new_node(pre: HashRing, post: HashRing, node: Seq<char>, h: PrefixHash)
    requires
        pre.wf(),
        post.wf(),
        points_map(post.points()) == points_map(pre.points()).union_prefer_right(
            vnode_map(node, pre.spec_vnodes_per_node()),
        ),
    ensures
        pre.points().len() > 0 ==> post.points().len() > 0,
        post.points().len() > 0 ==> {
            ||| pre.points().len() > 0 && ring_owner(post.points(), prefix_position(h)) == ring_owner(
                pre.points(),
                prefix_position(h),
            )
            ||| ring_owner(post.points(), prefix_position(h)) == node
        },
{
    let s = pre.points();
    let t = post.points();
    let p = prefix_position(h);
    let v = vnode_map(node, pre.spec_vnodes_per_node());
    if s.len() > 0 {
        lemma_owner_pos(s, p);
        assert(points_map(t).contains_key(owner_pos(s, p)));
    }
    if t.len() > 0 {
        lemma_owner_pos(t, p);
        let b = owner_pos(t, p);
        assert forall|q: u64| #[trigger] has_pos(s, q) implies has_pos(t, q) by {
            assert(points_map(s).contains_key(q));
            assert(points_map(t).contains_key(q));
        }
        if !v.contains_key(b) {
            assert(points_map(t).contains_key(b));
            assert(points_map(s).contains_key(b));
            lemma_owner_pos_agree(s, t, p);
        }
    }
}

/// Removing a node leaves every prefix hash the node did not own where it
/// was: after `remove_node`, a hash owned by another node keeps its owner.
pub proof fn lemma_remove_node_keeps_other_owners(pre: HashRing, post: HashRing, node: Seq<char>, h: PrefixHash)
    requires
        pre.wf(),
        post.wf(),
        pre.points().len() > 0,
        points_map(post.points()) == without_owner(points_map(pre.points()), node),
        ring_owner(pre.points(), prefix_position(h)) != node,
    ensures
        post.points().len() > 0,
        ring_owner(post.points(), prefix_position(h)) == ring_owner(pre.points(), prefix_position(h)),
{
    let s = pre.points();
    let t = post.points();
    let p = prefix_position(h);
    lemma_owner_pos(s, p);
    let a = owner_pos(s, p);
    assert(points_map(t).contains_key(a));
    assert(t.len() > 0);
    lemma_owner_pos(t, p);
    assert forall|q: u64| #[trigger] has_pos(t, q) implies has_pos(s, q) by {
        assert(points_map(t).contains_key(q));
    }
    assert(has_pos(t, owner_pos(s, p)));
    lemma_owner_pos_agree(t, s, p);
}

/// The first of the preferred nodes of a hash is its preferred node, and
/// the preferred nodes are distinct.
pub proof fn lemma_preferred_nodes_start_at_owner(s: Seq<(u64, Seq<char>)>, p: u64)
    requires
        sorted(s),
        s.len() > 0,
    ensures
        dedup(walk(s, p)).len() > 0,
        dedup(walk(s, p))[0] == ring_owner(s, p),
        dedup(walk(s, p)).no_duplicates(),
{
    let w = walk(s, p);
    lemma_count_below(s, p);
    assert(w.len() > 0);
    lemma_dedup_step(w, 0);
    lemma_dedup_prefix(w, 1);
    assert(w.take(0) =~= Seq::<Seq<char>>::empty());
    assert(dedup(w.take(1)) =~= seq![w[0]]);
    assert(dedup(w)[0] == dedup(w).take(1)[0]);
    let c = count_below(s, p) as int;
    let u = s.skip(c) + s;
    if c < s.len() {
        assert(u[0] == s[c]);
    } else {
        assert(u[0] == s[0]);
    }
    assert(w[0] == u[0].1);
    lemma_dedup_distinct(w);
}

/// Adding a node that was not a member and then removing it gives back
/// the ring as it was (same members, same points, same owner of every
/// position), provided none of the new node's virtual nodes fell on a
/// position the ring already had.
pub proof fn lemma_add_then_remove_restores(r0: HashRing, r1: HashRing, r2: HashRing, node: Seq<char>)
    requires
        r0.wf(),
        r1.wf(),
        r2.wf(),
        !r0.members().contains(node),
        forall|q: u64| #[trigger]
            vnode_map(node, r0.spec_vnodes_per_node()).contains_key(q) ==> !points_map(
                r0.points(),
            ).contains_key(q),
        r1.members() == r0.members().push(node),
        points_map(r1.points()) == points_map(r0.points()).union_prefer_right(
            vnode_map(node, r0.spec_vnodes_per_node()),
        ),
        r2.members() == r1.members().remove_value(node),
        points_map(r2.points()) == without_owner(points_map(r1.points()), node),
    ensures
        r2.members() == r0.members(),
        points_map(r2.points()) == points_map(r0.points()),
        r2.points().len() == 0 <==> r0.points().len() == 0,
        forall|p: u64| r0.points().len() > 0 ==> #[trigger] ring_owner(r2.points(), p) == ring_owner(r0.points(), p),
{
    let s = r0.points();
    let t = r2.points();
    let m0 = points_map(s);
    let v = vnode_map(node, r0.spec_vnodes_per_node());
    lemma_map_owners(s, r0.members());
    assert(points_map(t) =~= m0) by {
        assert forall|q: u64| #[trigger] points_map(t).contains_key(q) <==> m0.contains_key(q) by {
            if m0.contains_key(q) {
                assert(r0.members().contains(m0[q]));
                assert(!v.contains_key(q));
            }
        }
    }
    let ms = r0.members();
    assert(r1.members().index_of_first(node) == Some(ms.len() as int)) by {
        r1.members().index_of_first_ensures(node);
        let i = ms.len() as int;
        assert(r1.members()[i] == node);
        match r1.members().index_of_first(node) {
            Some(j) => {
                if j < i {
                    assert(ms[j] == node);
                }
            },
            None => {},
        }
    }
    assert(r2.members() =~= ms);
    assert forall|q: u64| #[trigger] has_pos(s, q) <==> has_pos(t, q) by {
        assert(points_map(s).contains_key(q) == has_pos(s, q));
        assert(points_map(t).contains_key(q) == has_pos(t, q));
    }
    if s.len() > 0 {
        lemma_points_map_at(s, 0);
        let q0 = s[0].0;
        assert(has_pos(t, q0));
    }
    if t.len() > 0 {
        lemma_points_map_at(t, 0);
        assert(has_pos(s, t[0].0));
    }
    assert forall|p: u64| s.len() > 0 implies #[trigger] ring_owner(t, p) == ring_owner(s, p) by {
        lemma_owner_pos(s, p);
        lemma_owner_pos(t, p);
        lemma_owner_pos_agree(s, t, p);
    }
}

/// After `remove_node`, the removed node owns no position.
pub proof fn lemma_removed_node_owns_nothing(pre: HashRing, post: HashRing, node: Seq<char>, p: u64)
    requires
        post.wf(),
        post.points().len() > 0,
        points_map(post.points()) == without_owner(points_map(pre.points()), node),
    ensures
        ring_owner(post.points(), p) != node,
{
    let t = post.points();
    lemma_owner_pos(t, p);
    assert(points_map(t).contains_key(owner_pos(t, p)));
}

/// The node count is the number of distinct members.
pub proof fn lemma_node_count_distinct(r: HashRing)
    requires
        r.wf(),
    ensures
        r.members().len() == r.members().to_set().len(),
{
    r.members().unique_seq_to_set();
}

/// `add_node` of a node that was not a member adds it to the set of
/// members, and the node count grows by one.
pub proof fn lemma_add_node_count(pre: HashRing, post: HashRing, node: Seq<char>)
    requires
        pre.wf(),
        post.wf(),
        post.members() == pre.members().push(node),
    ensures
        post.members().to_set() == pre.members().to_set().insert(node),
        post.members().len() == pre.members().len() + 1,
{
    assert(post.members().to_set() =~= pre.members().to_set().insert(node)) by {
        assert forall|x: Seq<char>| #[trigger] post.members().to_set().contains(x) <==> pre.members().to_set().insert(node).contains(x) by {
            if post.members().contains(x) && x != node {
                let i = choose|i: int| 0 <= i < post.members().len() && post.members()[i] == x;
                assert(pre.members()[i] == x);
            }
            if pre.members().contains(x) {
                let i = choose|i: int| 0 <= i < pre.members().len() && pre.members()[i] == x;
                assert(post.members()[i] == x);
            }
            if x == node {
                assert(post.members()[pre.members().len() as int] == x);
            }
        }
    }
}

/// `remove_node` takes the node out of the set of members; the node count
/// drops by one when it was a member and is unchanged otherwise.
pub proof fn lemma_remove_node_count(pre: HashRing, post: HashRing, node: Seq<char>)
    requires
        pre.wf(),
        post.wf(),
        post.members() == pre.members().remove_value(node),
    ensures
        post.members().to_set() == pre.members().to_set().remove(node),
        pre.members().contains(node) ==> post.members().len() + 1 == pre.members().len(),
        !pre.members().contains(node) ==> post.members() == pre.members(),
{
    let ms = pre.members();
    ms.index_of_first_ensures(node);
    match ms.index_of_first(node) {
        Some(i) => {
            assert(post.members() == ms.remove(i));
            assert(post.members().to_set() =~= ms.to_set().remove(node)) by {
                assert forall|x: Seq<char>| #[trigger] post.members().to_set().contains(x) <==> ms.to_set().remove(node).contains(x) by {
                    if post.members().contains(x) {
                        let j = choose|j: int| 0 <= j < post.members().len() && post.members()[j] == x;
                        if j < i {
                            assert(ms[j] == x);
                            assert(j != i);
                        } else {
                            assert(ms[j + 1] == x);
                        }
                    }
                    if ms.contains(x) && x != node {
                        let j = choose|j: int| 0 <= j < ms.len() && ms[j] == x;
                        if j < i {
                            assert(post.members()[j] == x);
                        } else {
                            assert(j != i);
                            assert(post.members()[j - 1] == x);
                        }
                    }
                }
            }
        },
        None => {
            assert(post.members().to_set() =~= ms.to_set().remove(node));
        },
    }
}

/// The ids added and not removed since, after the calls `ops` (`true`: add
/// the id, `false`: remove it) starting from a ring without members.
pub open spec fn live_ids(ops: Seq<(bool, Seq<char>)>) -> Set<Seq<char>>
    decreases ops.len(),
{
    if ops.len() == 0 {
        Set::empty()
    } else {
        let prev = live_ids(ops.drop_last());
        let op = ops.last();
        if op.0 {
            prev.insert(op.1)
        } else {
            prev.remove(op.1)
        }
    }
}

/// How one call changes the member list, as `add_node` (`op.0`) and
/// `remove_node` state it.
pub open spec fn members_step(pre: Seq<Seq<char>>, post: Seq<Seq<char>>, op: (bool, Seq<char>)) -> bool {
    if op.0 {
        &&& pre.contains(op.1) ==> post == pre
        &&& !pre.contains(op.1) ==> post == pre.push(op.1)
    } else {
        post == pre.remove_value(op.1)
    }
}

/// Over any sequence of `add_node` and `remove_node` calls from a ring
/// without members, the node count is the number of distinct ids added and
/// not removed since.
pub proof fn lemma_node_count_after_calls(rings: Seq<HashRing>, ops: Seq<(bool, Seq<char>)>)
    requires
        rings.len() == ops.len() + 1,
        rings[0].members().len() == 0,
        forall|i: int| 0 <= i < rings.len() ==> #[trigger] rings[i].wf(),
        forall|i: int|
            0 <= i < ops.len() ==> members_step(#[trigger] rings[i].members(), rings[i + 1].members(), ops[i]),
    ensures
        rings.last().members().to_set() == live_ids(ops),
        rings.last().members().len() == live_ids(ops).len(),
    decreases ops.len(),
{
    let n = ops.len() as int;
    let post = rings[n];
    assert(post.wf());
    if n == 0 {
        assert(post.members().to_set() =~= Set::<Seq<char>>::empty());
    } else {
        let rs = rings.drop_last();
        let os = ops.drop_last();
        assert forall|i: int| 0 <= i < rs.len() implies #[trigger] rs[i].wf() by {
            assert(rs[i] == rings[i]);
        }
        assert forall|i: int| 0 <= i < os.len() implies members_step(
            #[trigger] rs[i].members(),
            rs[i + 1].members(),
            os[i],
        ) by {
            assert(rs[i] == rings[i] && rs[i + 1] == rings[i + 1] && os[i] == ops[i]);
            assert(members_step(rings[i].members(), rings[i + 1].members(), ops[i]));
        }
        lemma_node_count_after_calls(rs, os);
        let pre = rings[n - 1];
        assert(rs.last() == pre);
        assert(pre.wf());
        let op = ops[n - 1];
        assert(members_step(rings[n - 1].members(), rings[n].members(), ops[n - 1]));
        assert(live_ids(ops) == if op.0 {
            live_ids(os).insert(op.1)
        } else {
            live_ids(os).remove(op.1)
        });
        if op.0 {
            if pre.members().contains(op.1) {
                assert(post.members() == pre.members());
                assert(pre.members().to_set().contains(op.1));
                assert(live_ids(ops) =~= live_ids(os));
            } else {
                lemma_add_node_count(pre, post, op.1);
            }
        } else {
            lemma_remove_node_count(pre, post, op.1);
        }
    }
    lemma_node_count_distinct(post);
}

/// The walk for the replica list goes clockwise from the owner of `p`: its
/// `k`-th node (for `k` less than the number of points) is that of the
/// `k`-th point after the owning point, wrapping around past the last.
pub proof fn lemma_walk_is_clockwise(s: Seq<(u64, Seq<char>)>, p: u64)
    requires
        sorted(s),
        s.len() > 0,
    ensures
        walk(s, p).len() >= s.len(),
        forall|k: int|
            0 <= k < s.len() ==> #[trigger] walk(s, p)[k] == s[(owner_index(s, p) + k) % (s.len() as int)].1,
{
    lemma_count_below(s, p);
    let c = count_below(s, p) as int;
    let n = s.len() as int;
    let u = s.skip(c) + s;
    assert(walk(s, p).len() == u.len());
    assert forall|k: int| 0 <= k < n implies #[trigger] walk(s, p)[k] == s[(owner_index(s, p) + k) % n].1 by {
        assert(walk(s, p)[k] == u[k].1);
        if c < n {
            assert(owner_index(s, p) == c);
            if k < n - c {
                assert(u[k] == s[c + k]);
                assert((c + k) % n == c + k) by (nonlinear_arith)
                    requires
                        0 <= c + k < n,
                ;
            } else {
                assert(u[k] == s[k - (n - c)]);
                assert((c + k) % n == c + k - n) by (nonlinear_arith)
                    requires
                        n <= c + k < 2 * n,
                ;
            }
        } else {
            assert(owner_index(s, p) == 0);
            assert(u[k] == s[k]);
            assert(k % n == k) by (nonlinear_arith)
                requires
                    0 <= k < n,
            ;
        }
    }
}

/// `dedup` keeps exactly the distinct elements, each once, in the order of
/// their first occurrence: it has no duplicates, holds the same elements as
/// `s`, starts with `s`'s first element, and is `dedup` of any prefix of
/// `s` extended.
pub proof fn lemma_dedup_law(s: Seq<Seq<char>>)
    ensures
        dedup(s).no_duplicates(),
        forall|x: Seq<char>| #[trigger] dedup(s).contains(x) <==> s.contains(x),
        s.len() > 0 ==> dedup(s)[0] == s[0],
        forall|k: int| 0 <= k <= s.len() ==> #[trigger] dedup(s.take(k)) == dedup(s).take(dedup(s.take(k)).len() as int),
    decreases s.len(),
{
    lemma_dedup_distinct(s);
    assert forall|k: int| 0 <= k <= s.len() implies #[trigger] dedup(s.take(k)) == dedup(s).take(
        dedup(s.take(k)).len() as int,
    ) by {
        lemma_dedup_prefix(s, k);
    }
    if s.len() > 0 {
        lemma_dedup_law(s.drop_last());
        let d = dedup(s.drop_last());
        assert forall|x: Seq<char>| #[trigger] dedup(s).contains(x) <==> s.contains(x) by {
            if s.contains(x) && x != s.last() {
                let i = choose|i: int| 0 <= i < s.len() && s[i] == x;
                assert(s.drop_last()[i] == x);
            }
            if d.contains(x) {
                let i = choose|i: int| 0 <= i < s.drop_last().len() && s.drop_last()[i] == x;
                assert(s[i] == x);
            }
            if dedup(s).contains(x) && !d.contains(x) {
                assert(x == s.last());
            }
            if x == s.last() {
                assert(s[s.len() - 1] == x);
                if !d.contains(x) {
                    assert(d.push(x)[d.len() as int] == x);
                }
            }
            if d.contains(x) && !d.contains(s.last()) {
                let i = choose|i: int| 0 <= i < d.len() && d[i] == x;
                assert(d.push(s.last())[i] == x);
            }
        }
        lemma_dedup_prefix(s, 1);
        assert(s.take(1).drop_last() =~= Seq::<Seq<char>>::empty());
        assert(dedup(Seq::<Seq<char>>::empty()) =~= Seq::<Seq<char>>::empty());
        assert(dedup(s.take(1)) =~= seq![s[0]]);
    }
}

} // verus!
