//! Transport abstraction: peers, memory regions, errors, the mock
//! transport's in-process state, the connection cache, and the NIXL stub.
use dashmap::DashMap;
use vstd::prelude::*;
use vstd::string::{StrSliceExecFns, StringExecFns};

use crate::digest::hex_digit;

verus! {

/// `std::time::Instant`, carried opaquely.
#[verifier::external_type_specification]
#[verifier::external_body]
pub struct ExInstant(std::time::Instant);

/// Identifies a remote peer.
#[derive(Debug, Clone, PartialEq, Eq, Hash)]
pub struct PeerId(pub String);

impl View for PeerId {
    type V = Seq<char>;

    open spec fn view(&self) -> Seq<char> {
        self.0@
    }
}

impl PeerId {
    /// A copy of the id.
    pub fn duplicate(&self) -> (p: Self)
        ensures
            p == *self,
    {
        PeerId(self.0.clone())
    }
}

/// A registered memory region that can be used for RDMA operations.
#[derive(Debug, Clone)]
pub struct RemoteMemoryRegion {
    pub peer: PeerId,
    pub addr: u64,
    pub size: u64,
    pub rkey: u32,
}

/// Local buffer for RDMA operations: the bytes it holds (its size is
/// their number) and its local memory key.
#[derive(Debug)]
pub struct LocalBuffer {
    pub buf: Vec<u8>,
    pub lkey: u32,
}

/// A region size as a local length (`as usize`, truncating where `usize`
/// is narrower than 64 bits).
fn region_len(size: u64) -> (n: usize)
    ensures
        n == size as usize,
{
    size as usize
}

/// The smaller of two lengths.
fn transfer_len(a: usize, b: usize) -> (n: usize)
    ensures
        n == vstd::math::min(a as int, b as int),
{
    if a < b {
        a
    } else {
        b
    }
}

/// How many bytes a read copies: as many as the buffer, the stored data
/// and the region all have.
pub open spec fn copy_len(buffer: nat, data: nat, region: u64) -> int {
    vstd::math::min(vstd::math::min(buffer as int, data as int), (region as usize) as int)
}

/// Transport error types.
#[derive(Debug)]
pub enum TransportError {
    ConnectionFailed(String, String),
    TransferFailed(String),
    PeerNotFound(String),
    Timeout(u64),
    NotAvailable(String),
}

/// What transport was negotiated (for observability).
#[derive(Debug, Clone, Copy, PartialEq, Eq)]
pub enum TransportType {
    InfiniBand,
    RoCEv2,
    Tcp,
    Mock,
}

impl TransportType {
    /// The name shown for the transport.
    pub fn display_name(&self) -> (s: &'static str)
        ensures
            *self == TransportType::InfiniBand ==> s@ == "InfiniBand"@,
            *self == TransportType::RoCEv2 ==> s@ == "RoCE v2"@,
            *self == TransportType::Tcp ==> s@ == "TCP"@,
            *self == TransportType::Mock ==> s@ == "Mock"@,
    {
        match self {
            TransportType::InfiniBand => "InfiniBand",
            TransportType::RoCEv2 => "RoCE v2",
            TransportType::Tcp => "TCP",
            TransportType::Mock => "Mock",
        }
    }
}

/// Lowercase hex digits of `n`, without leading zeros.
pub open spec fn hex_u64(n: nat) -> Seq<char>
    decreases n,
{
    if n < 16 {
        seq![hex_digit(n as int)]
    } else {
        hex_u64(n / 16).push(hex_digit((n % 16) as int))
    }
}

/// The ids of a sequence of peers.
pub open spec fn peer_views(s: Seq<PeerId>) -> Seq<Seq<char>> {
    s.map_values(|p: PeerId| p@)
}

/// The hex digit for a value below 16, as text.
fn hex_digit_str(d: u64) -> (s: &'static str)
    requires
        d < 16,
    ensures
        s@ == seq![hex_digit(d as int)],
{
    let table = "0123456789abcdef";
    proof {
        reveal_strlit("0123456789abcdef");
    }
    let s = table.substring_char(d as usize, d as usize + 1);
    assert(s@ =~= seq![hex_digit(d as int)]);
    s
}

/// The lowercase hex digits of `n`.
fn hex_u64_text(n: u64) -> (s: String)
    ensures
        s@ == hex_u64(n as nat),
    decreases n,
{
    if n < 16 {
        String::from_str(hex_digit_str(n))
    } else {
        let mut s = hex_u64_text(n / 16);
        s.append(hex_digit_str(n % 16));
        s
    }
}

/// The text of the error for a read of remote memory that is not there.
pub open spec fn no_memory_message(addr: u64, peer: Seq<char>) -> Seq<char> {
    "no remote memory at addr 0x"@ + hex_u64(addr as nat) + " for peer "@ + peer
}

/// Keys of simulated remote memory: peer and address.
pub open spec fn memory_key(e: (PeerId, u64, Vec<u8>)) -> (Seq<char>, u64) {
    (e.0@, e.1)
}

/// The simulated remote memory as a map.
pub open spec fn memory_map(s: Seq<(PeerId, u64, Vec<u8>)>) -> Map<(Seq<char>, u64), Seq<u8>> {
    Map::new(
        |k: (Seq<char>, u64)| exists|i: int| 0 <= i < s.len() && memory_key(s[i]) == k,
        |k: (Seq<char>, u64)| s[choose|i: int| 0 <= i < s.len() && memory_key(s[i]) == k].2@,
    )
}

/// Mock transport that simulates RDMA with in-process memory copies.
pub struct MockTransport {
    /// Connected peers.
    connections: Vec<PeerId>,
    /// The address each connected peer was connected at (same positions).
    addrs: Vec<String>,
    /// Simulated remote memory: (peer, addr) -> bytes.
    remote_memory: Vec<(PeerId, u64, Vec<u8>)>,
    /// Next local memory key.
    next_lkey: u32,
}

impl MockTransport {
    /// Connected peers.
    pub closed spec fn connected(&self) -> Set<Seq<char>> {
        peer_views(self.connections@).to_set()
    }

    /// The address a connected peer was last connected at.
    pub closed spec fn peer_addr(&self, p: Seq<char>) -> Option<Seq<char>> {
        if self.connected().contains(p) {
            Some(
                self.addrs@[choose|i: int|
                    0 <= i < self.connections@.len() && #[trigger] peer_views(self.connections@)[i] == p]@,
            )
        } else {
            None
        }
    }

    /// The address of the peer at position `i` is the one recorded there.
    proof fn lemma_addr_at(&self, i: int)
        requires
            self.wf(),
            0 <= i < self.connections@.len(),
        ensures
            self.connected().contains(peer_views(self.connections@)[i]),
            self.peer_addr(peer_views(self.connections@)[i]) == Some(self.addrs@[i]@),
    {
        let v = peer_views(self.connections@);
        let p = v[i];
        assert(v.contains(p));
        let j = choose|j: int| 0 <= j < self.connections@.len() && #[trigger] v[j] == p;
        if j != i {
            assert(v[j] == v[i]);
        }
    }

    /// Simulated remote memory.
    pub closed spec fn memory(&self) -> Map<(Seq<char>, u64), Seq<u8>> {
        memory_map(self.remote_memory@)
    }

    pub closed spec fn spec_next_lkey(&self) -> u32 {
        self.next_lkey
    }

    /// Each peer is listed once, and each (peer, address) once.
    pub closed spec fn wf(&self) -> bool {
        &&& peer_views(self.connections@).no_duplicates()
        &&& self.addrs@.len() == self.connections@.len()
        &&& forall|i: int, j: int|
            0 <= i < j < self.remote_memory@.len() ==> memory_key(self.remote_memory@[i]) != memory_key(
                self.remote_memory@[j],
            )
    }

    pub fn new() -> (t: Self)
        ensures
            t.wf(),
            t.connected() == Set::<Seq<char>>::empty(),
            t.memory() == Map::<(Seq<char>, u64), Seq<u8>>::empty(),
            t.spec_next_lkey() == 1,
    {
        let t = MockTransport { connections: Vec::new(), addrs: Vec::new(), remote_memory: Vec::new(), next_lkey: 1 };
        assert(peer_views(t.connections@) =~= Seq::<Seq<char>>::empty());
        assert(t.connected() =~= Set::<Seq<char>>::empty());
        assert(t.memory() =~= Map::<(Seq<char>, u64), Seq<u8>>::empty());
        t
    }

    /// The position of `peer` among the connections, if connected.
    fn find_peer(&self, peer: &PeerId) -> (r: Option<usize>)
        ensures
            match r {
                Some(i) => {
                    &&& i < self.connections@.len()
                    &&& peer_views(self.connections@)[i as int] == peer@
                    &&& self.connected().contains(peer@)
                },
                None => !self.connected().contains(peer@),
            },
    {
        let mut i: usize = 0;
        while i < self.connections.len()
            invariant
                i <= self.connections@.len(),
                forall|j: int| 0 <= j < i ==> #[trigger] self.connections@[j]@ != peer@,
            decreases self.connections@.len() - i,
        {
            if self.connections[i].0 == peer.0 {
                assert(peer_views(self.connections@)[i as int] == peer@);
                return Some(i);
            }
            i = i + 1;
        }
        proof {
            if self.connected().contains(peer@) {
                let j = choose|j: int|
                    0 <= j < self.connections@.len() && #[trigger] peer_views(self.connections@)[j] == peer@;
                assert(self.connections@[j]@ == peer@);
            }
        }
        None
    }

    /// The position of the simulated memory at (`peer`, `addr`), if any.
    fn find_memory(&self, peer: &PeerId, addr: u64) -> (r: Option<usize>)
        ensures
            match r {
                Some(i) => i < self.remote_memory@.len() && memory_key(self.remote_memory@[i as int]) == (peer@, addr),
                None => !self.memory().contains_key((peer@, addr)),
            },
    {
        let mut i: usize = 0;
        while i < self.remote_memory.len()
            invariant
                i <= self.remote_memory@.len(),
                forall|j: int| 0 <= j < i ==> #[trigger] memory_key(self.remote_memory@[j]) != (peer@, addr),
            decreases self.remote_memory@.len() - i,
        {
            if self.remote_memory[i].1 == addr && self.remote_memory[i].0.0 == peer.0 {
                return Some(i);
            }
            i = i + 1;
        }
        None
    }

    proof fn lemma_memory_at(&self, i: int)
        requires
            self.wf(),
            0 <= i < self.remote_memory@.len(),
        ensures
            self.memory().contains_key(memory_key(self.remote_memory@[i])),
            self.memory()[memory_key(self.remote_memory@[i])] == self.remote_memory@[i].2@,
    {
        let k = memory_key(self.remote_memory@[i]);
        let j = choose|j: int| 0 <= j < self.remote_memory@.len() && memory_key(self.remote_memory@[j]) == k;
        if j < i {
            assert(memory_key(self.remote_memory@[j]) != memory_key(self.remote_memory@[i]));
        }
        if i < j {
            assert(memory_key(self.remote_memory@[i]) != memory_key(self.remote_memory@[j]));
        }
    }

    /// Set the simulated memory at (`peer`, `addr`) to `data`.
    fn put_memory(&mut self, peer: PeerId, addr: u64, data: Vec<u8>)
        requires
            old(self).wf(),
        ensures
            final(self).wf(),
            final(self).memory() == old(self).memory().insert((peer@, addr), data@),
            final(self).connected() == old(self).connected(),
            final(self).spec_next_lkey() == old(self).spec_next_lkey(),
    {
        let ghost s = self.remote_memory@;
        let ghost key = (peer@, addr);
        match self.find_memory(&peer, addr) {
            Some(i) => {
                self.remote_memory.set(i, (peer, addr, data));
                proof {
                    let t = self.remote_memory@;
                    assert(t == s.update(i as int, t[i as int]));
                    assert forall|a: int, b: int| 0 <= a < b < t.len() implies memory_key(t[a]) != memory_key(t[b]) by {
                        assert(memory_key(t[a]) == memory_key(s[a]));
                        assert(memory_key(t[b]) == memory_key(s[b]));
                    }
                    assert(self.memory() =~= memory_map(s).insert(key, data@)) by {
                        assert forall|k: (Seq<char>, u64)| #[trigger] self.memory().contains_key(k) <==> memory_map(s).insert(key, data@).contains_key(k) by {
                            if self.memory().contains_key(k) {
                                let j = choose|j: int| 0 <= j < t.len() && memory_key(t[j]) == k;
                                assert(memory_key(s[j]) == k);
                            }
                            if memory_map(s).contains_key(k) {
                                let j = choose|j: int| 0 <= j < s.len() && memory_key(s[j]) == k;
                                assert(memory_key(t[j]) == k);
                            }
                            if k == key {
                                assert(memory_key(t[i as int]) == k);
                            }
                        }
                        assert forall|k: (Seq<char>, u64)| self.memory().contains_key(k) implies #[trigger] self.memory()[k] == memory_map(s).insert(key, data@)[k] by {
                            let j = choose|j: int| 0 <= j < t.len() && memory_key(t[j]) == k;
                            self.lemma_memory_at(j);
                            if j != i {
                                assert(memory_key(s[j]) == k);
                                old(self).lemma_memory_at(j);
                            }
                        }
                    }
                }
            },
            None => {
                self.remote_memory.push((peer, addr, data));
                proof {
                    let t = self.remote_memory@;
                    let n = s.len() as int;
                    assert forall|a: int, b: int| 0 <= a < b < t.len() implies memory_key(t[a]) != memory_key(t[b]) by {
                        assert(t[a] == s[a]);
                        if b < n {
                            assert(t[b] == s[b]);
                        } else {
                            assert(memory_map(s).contains_key(memory_key(s[a])));
                        }
                    }
                    assert(self.memory() =~= memory_map(s).insert(key, data@)) by {
                        assert forall|k: (Seq<char>, u64)| #[trigger] self.memory().contains_key(k) <==> memory_map(s).insert(key, data@).contains_key(k) by {
                            if self.memory().contains_key(k) {
                                let j = choose|j: int| 0 <= j < t.len() && memory_key(t[j]) == k;
                                if j < n {
                                    assert(memory_key(s[j]) == k);
                                }
                            }
                            if memory_map(s).contains_key(k) {
                                let j = choose|j: int| 0 <= j < s.len() && memory_key(s[j]) == k;
                                assert(memory_key(t[j]) == k);
                            }
                            if k == key {
                                assert(memory_key(t[n]) == k);
                            }
                        }
                        assert forall|k: (Seq<char>, u64)| self.memory().contains_key(k) implies #[trigger] self.memory()[k] == memory_map(s).insert(key, data@)[k] by {
                            let j = choose|j: int| 0 <= j < t.len() && memory_key(t[j]) == k;
                            self.lemma_memory_at(j);
                            if j < n {
                                old(self).lemma_memory_at(j);
                            }
                        }
                    }
                }
            },
        }
    }

    /// Pre-populate simulated remote memory for testing reads.
    pub fn insert_remote_memory(&mut self, peer: PeerId, addr: u64, data: Vec<u8>)
        requires
            old(self).wf(),
        ensures
            final(self).wf(),
            final(self).memory() == old(self).memory().insert((peer@, addr), data@),
            final(self).connected() == old(self).connected(),
            final(self).spec_next_lkey() == old(self).spec_next_lkey(),
    {
        self.put_memory(peer, addr, data);
    }

    /// Connect to a peer at `addr` (reconnecting an already connected peer
    /// records the new address).
    pub fn connect(&mut self, peer: &PeerId, addr: &str) -> (r: Result<TransportType, TransportError>)
        requires
            old(self).wf(),
        ensures
            final(self).wf(),
            r matches Ok(t) && t == TransportType::Mock,
            final(self).connected() == old(self).connected().insert(peer@),
            final(self).peer_addr(peer@) == Some(addr@),
            forall|q: Seq<char>| q != peer@ ==> #[trigger] final(self).peer_addr(q) == old(self).peer_addr(q),
            final(self).memory() == old(self).memory(),
            final(self).spec_next_lkey() == old(self).spec_next_lkey(),
    {
        let ghost v = peer_views(self.connections@);
        let ghost pre = *self;
        match self.find_peer(peer) {
            None => {
                self.connections.push(peer.duplicate());
                self.addrs.push(addr.to_owned());
                proof {
                    let w = peer_views(self.connections@);
                    assert(w =~= v.push(peer@));
                    assert(w.no_duplicates()) by {
                        assert forall|a: int, b: int| 0 <= a < b < w.len() implies w[a] != w[b] by {
                            if b == w.len() - 1 {
                                assert(v.contains(v[a]));
                            }
                        }
                    }
                    assert forall|x: Seq<char>| #[trigger] w.to_set().contains(x) <==> v.to_set().insert(peer@).contains(x) by {
                        if v.contains(x) {
                            let j = choose|j: int| 0 <= j < v.len() && v[j] == x;
                            assert(w[j] == x);
                        }
                        if x == peer@ {
                            assert(w[v.len() as int] == x);
                        }
                        if w.contains(x) {
                            let j = choose|j: int| 0 <= j < w.len() && w[j] == x;
                            if j < v.len() {
                                assert(v[j] == x);
                            }
                        }
                    }
                    assert(w.to_set() =~= v.to_set().insert(peer@));
                    self.lemma_addr_at(v.len() as int);
                    assert forall|q: Seq<char>| q != peer@ implies #[trigger] self.peer_addr(q) == pre.peer_addr(q) by {
                        if pre.connected().contains(q) {
                            let j = choose|j: int| 0 <= j < v.len() && #[trigger] v[j] == q;
                            pre.lemma_addr_at(j);
                            self.lemma_addr_at(j);
                        }
                    }
                }
            },
            Some(i) => {
                self.addrs.set(i, addr.to_owned());
                proof {
                    assert(self.connected().insert(peer@) =~= self.connected());
                    self.lemma_addr_at(i as int);
                    assert forall|q: Seq<char>| q != peer@ implies #[trigger] self.peer_addr(q) == pre.peer_addr(q) by {
                        if pre.connected().contains(q) {
                            let j = choose|j: int| 0 <= j < v.len() && #[trigger] v[j] == q;
                            pre.lemma_addr_at(j);
                            self.lemma_addr_at(j);
                        }
                    }
                }
            },
        }
        Ok(TransportType::Mock)
    }

    /// Disconnect from a peer; `PeerNotFound` if it was not connected.
    pub fn disconnect(&mut self, peer: &PeerId) -> (r: Result<(), TransportError>)
        requires
            old(self).wf(),
        ensures
            final(self).wf(),
            final(self).memory() == old(self).memory(),
            final(self).spec_next_lkey() == old(self).spec_next_lkey(),
            final(self).connected() == old(self).connected().remove(peer@),
            old(self).connected().contains(peer@) <==> r is Ok,
            r matches Err(e) ==> e matches TransportError::PeerNotFound(name) && name@ == peer@,
    {
        let ghost v = peer_views(self.connections@);
        match self.find_peer(peer) {
            None => {
                assert(v.to_set().remove(peer@) =~= v.to_set());
                Err(TransportError::PeerNotFound(peer.0.clone()))
            },
            Some(i) => {
                self.connections.remove(i);
                self.addrs.remove(i);
                proof {
                    let w = peer_views(self.connections@);
                    assert(w =~= v.remove(i as int));
                    assert(v.contains(peer@));
                    assert(w.no_duplicates()) by {
                        assert forall|a: int, b: int| 0 <= a < b < w.len() implies w[a] != w[b] by {
                            let oa = if a < i { a } else { a + 1 };
                            let ob = if b < i { b } else { b + 1 };
                            assert(w[a] == v[oa] && w[b] == v[ob]);
                        }
                    }
                    assert(w.to_set() =~= v.to_set().remove(peer@)) by {
                        assert forall|x: Seq<char>| #[trigger] w.to_set().contains(x) <==> v.to_set().remove(peer@).contains(x) by {
                            if w.to_set().contains(x) {
                                let a = choose|a: int| 0 <= a < w.len() && w[a] == x;
                                let oa = if a < i { a } else { a + 1 };
                                assert(v[oa] == x);
                                assert(oa != i);
                            }
                            if v.to_set().remove(peer@).contains(x) {
                                let a = choose|a: int| 0 <= a < v.len() && v[a] == x;
                                assert(a != i);
                                let na = if a < i { a } else { a - 1 };
                                assert(w[na] == x);
                            }
                        }
                    }
                }
                Ok(())
            },
        }
    }

    /// One-sided read into `local`: the first bytes of the remote memory,
    /// as many as the buffer, the stored data and the region all have,
    /// replace the start of the buffer; returns how many were copied.
    pub fn read(&self, remote: &RemoteMemoryRegion, local: &mut LocalBuffer) -> (r: Result<usize, TransportError>)
        requires
            self.wf(),
        ensures
            final(local).lkey == old(local).lkey,
            r is Err ==> final(local).buf@ == old(local).buf@,
            !self.connected().contains(remote.peer@) ==> (r matches Err(TransportError::PeerNotFound(name)) && name@ == remote.peer@),
            self.connected().contains(remote.peer@) && !self.memory().contains_key((remote.peer@, remote.addr))
                ==> (r matches Err(TransportError::TransferFailed(msg)) && msg@ == no_memory_message(remote.addr, remote.peer@)),
            self.connected().contains(remote.peer@) && self.memory().contains_key((remote.peer@, remote.addr)) ==> {
                let data = self.memory()[(remote.peer@, remote.addr)];
                let n = copy_len(old(local).buf@.len(), data.len(), remote.size);
                &&& r matches Ok(copied) && copied == n
                &&& final(local).buf@ == data.subrange(0, n) + old(local).buf@.skip(n)
            },
    {
        if self.find_peer(&remote.peer).is_none() {
            return Err(TransportError::PeerNotFound(remote.peer.0.clone()));
        }
        let i = match self.find_memory(&remote.peer, remote.addr) {
            Some(i) => i,
            None => {
                let mut msg = String::from_str("no remote memory at addr 0x");
                let hex = hex_u64_text(remote.addr);
                msg.append(hex.as_str());
                msg.append(" for peer ");
                msg.append(remote.peer.0.as_str());
                return Err(TransportError::TransferFailed(msg));
            },
        };
        proof {
            self.lemma_memory_at(i as int);
        }
        let data = &self.remote_memory[i].2;
        let n = transfer_len(transfer_len(local.buf.len(), data.len()), region_len(remote.size));
        let ghost before = local.buf@;
        let mut k: usize = 0;
        while k < n
            invariant
                n <= data@.len(),
                n <= before.len(),
                k <= n,
                local.buf@.len() == before.len(),
                local.lkey == old(local).lkey,
                before == old(local).buf@,
                forall|j: int| 0 <= j < k ==> #[trigger] local.buf@[j] == data@[j],
                forall|j: int| k <= j < before.len() ==> #[trigger] local.buf@[j] == before[j],
            decreases n - k,
        {
            local.buf.set(k, data[k]);
            k = k + 1;
        }
        assert(local.buf@ =~= data@.subrange(0, n as int) + before.skip(n as int));
        Ok(n)
    }

    /// One-sided write from `local`: its first bytes (as many as the region
    /// holds) become the remote memory at the region's address; returns how
    /// many were written.
    pub fn write(&mut self, local: &LocalBuffer, remote: &RemoteMemoryRegion) -> (r: Result<usize, TransportError>)
        requires
            old(self).wf(),
        ensures
            final(self).wf(),
            final(self).connected() == old(self).connected(),
            final(self).spec_next_lkey() == old(self).spec_next_lkey(),
            !old(self).connected().contains(remote.peer@) ==> (r matches Err(TransportError::PeerNotFound(name)) && name@ == remote.peer@)
                && final(self).memory() == old(self).memory(),
            old(self).connected().contains(remote.peer@) ==> {
                let n = vstd::math::min(local.buf@.len() as int, (remote.size as usize) as int);
                &&& r matches Ok(written) && written == n
                &&& final(self).memory() == old(self).memory().insert((remote.peer@, remote.addr), local.buf@.subrange(0, n))
            },
    {
        if self.find_peer(&remote.peer).is_none() {
            return Err(TransportError::PeerNotFound(remote.peer.0.clone()));
        }
        let n = transfer_len(local.buf.len(), region_len(remote.size));
        let mut data: Vec<u8> = Vec::with_capacity(n);
        let mut k: usize = 0;
        while k < n
            invariant
                n <= local.buf@.len(),
                k <= n,
                data@ == local.buf@.subrange(0, k as int),
            decreases n - k,
        {
            data.push(local.buf[k]);
            k = k + 1;
            assert(data@ =~= local.buf@.subrange(0, k as int));
        }
        self.put_memory(remote.peer.duplicate(), remote.addr, data);
        Ok(n)
    }

    /// Register a local memory region: hands out the next local key.
    pub fn register_memory(&mut self, addr: usize, size: usize) -> (r: Result<u32, TransportError>)
        requires
            old(self).wf(),
        ensures
            final(self).wf(),
            r matches Ok(k) && k == old(self).spec_next_lkey(),
            final(self).spec_next_lkey() == (if old(self).spec_next_lkey() == u32::MAX {
                0
            } else {
                old(self).spec_next_lkey() + 1
            }),
            final(self).connected() == old(self).connected(),
            final(self).memory() == old(self).memory(),
    {
        let lkey = self.next_lkey;
        self.next_lkey = self.next_lkey.wrapping_add(1);
        Ok(lkey)
    }

    /// Deregister a memory region (nothing to do for the mock).
    pub fn deregister_memory(&self, lkey: u32) -> (r: Result<(), TransportError>)
        ensures
            r is Ok,
    {
        Ok(())
    }

    /// The transport negotiated with a peer: `Mock` while connected.
    pub fn transport_type(&self, peer: &PeerId) -> (r: Option<TransportType>)
        requires
            self.wf(),
        ensures
            self.connected().contains(peer@) ==> r == Some(TransportType::Mock),
            !self.connected().contains(peer@) ==> r.is_none(),
    {
        match self.find_peer(peer) {
            Some(i) => {
                assert(peer_views(self.connections@)[i as int] == peer@);
                Some(TransportType::Mock)
            },
            None => None,
        }
    }
}

/// A one-sided read returns what a one-sided write put there: after a
/// write of `local` to a connected peer's region, a read of that region
/// into a buffer of `buffer_len` bytes gets the first bytes of `local`, as
/// many as the buffer, the data written and the region all have; all of
/// `local` when both buffer and region are at least as large.
pub proof fn lemma_mock_read_after_write(
    pre: MockTransport,
    post: MockTransport,
    local: Seq<u8>,
    remote: RemoteMemoryRegion,
    buffer_len: nat,
)
    requires
        pre.wf(),
        post.wf(),
        pre.connected().contains(remote.peer@),
        post.connected() == pre.connected(),
        post.memory() == pre.memory().insert(
            (remote.peer@, remote.addr),
            local.subrange(0, vstd::math::min(local.len() as int, (remote.size as usize) as int)),
        ),
    ensures
        post.connected().contains(remote.peer@),
        post.memory().contains_key((remote.peer@, remote.addr)),
        ({
            let data = post.memory()[(remote.peer@, remote.addr)];
            let n = copy_len(buffer_len, data.len(), remote.size);
            &&& data.subrange(0, n) == local.subrange(0, n)
            &&& buffer_len >= local.len() && remote.size as usize >= local.len() ==> data.subrange(0, n) == local
        }),
{
    let data = post.memory()[(remote.peer@, remote.addr)];
    let n = copy_len(buffer_len, data.len(), remote.size);
    assert(data.subrange(0, n) =~= local.subrange(0, n));
    if buffer_len >= local.len() && remote.size as usize >= local.len() {
        assert(local.subrange(0, n) =~= local);
    }
}

impl Default for MockTransport {
    fn default() -> (t: Self)
        ensures
            t.wf(),
            t.connected() == Set::<Seq<char>>::empty(),
            t.memory() == Map::<(Seq<char>, u64), Seq<u8>>::empty(),
            t.spec_next_lkey() == 1,
    {
        Self::new()
    }
}

/// State of a connection to a remote peer.
#[derive(Debug)]
pub struct ConnectionState {
    pub transport_type: TransportType,
    pub addr: String,
    pub connected_at: std::time::Instant,
}

/// The map type of a connection pool.
pub type ConnectionMap = DashMap<PeerId, ConnectionState>;

/// What a connection pool's `DashMap` holds: per peer id, the transport and
/// address of the connection.
pub uninterp spec fn connection_map(m: ConnectionMap) -> Map<Seq<char>, (TransportType, Seq<char>)>;

/// `DashMap::new`: an empty map.
#[verifier::external_body]
fn connection_map_new() -> (m: ConnectionMap)
    ensures
        connection_map(m).is_empty(),
{
    DashMap::new()
}

/// `DashMap::get`: the transport of the connection to `peer`, if cached.
#[verifier::external_body]
fn connection_map_transport(m: &ConnectionMap, peer: &PeerId) -> (r: Option<TransportType>)
    ensures
        match r {
            Some(t) => connection_map(*m).contains_key(peer@) && connection_map(*m)[peer@].0 == t,
            None => !connection_map(*m).contains_key(peer@),
        },
{
    m.get(peer).map(|e| e.transport_type)
}

/// `DashMap::insert`: the connection to `peer` becomes `state`.
#[verifier::external_body]
fn connection_map_insert(m: &mut ConnectionMap, peer: PeerId, state: ConnectionState)
    ensures
        connection_map(*final(m)) == connection_map(*old(m)).insert(peer@, (state.transport_type, state.addr@)),
{
    m.insert(peer, state);
}

/// `DashMap::remove`: the connection to `peer` leaves the map.
#[verifier::external_body]
fn connection_map_remove(m: &mut ConnectionMap, peer: &PeerId)
    ensures
        connection_map(*final(m)) == connection_map(*old(m)).remove(peer@),
{
    m.remove(peer);
}

/// `DashMap::iter`: the peer ids, each once, in no particular order.
#[verifier::external_body]
fn connection_map_peers(m: &ConnectionMap) -> (v: Vec<PeerId>)
    ensures
        peer_views(v@).to_set() == connection_map(*m).dom(),
        peer_views(v@).no_duplicates(),
{
    m.iter().map(|e| e.key().duplicate()).collect()
}

/// `Instant::now`: the current time, of which nothing is stated.
#[verifier::external_body]
fn instant_now() -> std::time::Instant {
    std::time::Instant::now()
}

/// What a connection pool needs of a transport: connecting, disconnecting,
/// and asking whether a peer is still connected. Implementations keep a set
/// of connected peers, and for each the address it was connected at and
/// the transport negotiated with it.
pub trait PeerTransport {
    /// The transport's own invariant.
    spec fn inv(&self) -> bool;

    /// The connected peers.
    spec fn peers(&self) -> Set<Seq<char>>;

    /// The address a connected peer was connected at.
    spec fn addr_of(&self, peer: Seq<char>) -> Option<Seq<char>>;

    /// The transport negotiated with a connected peer.
    spec fn type_of(&self, peer: Seq<char>) -> Option<TransportType>;

    /// Connect to a peer at `addr`; on success it is connected there, over
    /// the transport returned.
    fn connect(&mut self, peer: &PeerId, addr: &str) -> (r: Result<TransportType, TransportError>)
        requires
            old(self).inv(),
        ensures
            final(self).inv(),
            r matches Ok(t) ==> final(self).peers() == old(self).peers().insert(peer@) && final(self).addr_of(peer@)
                == Some(addr@) && final(self).type_of(peer@) == Some(t),
            r is Err ==> final(self).peers() == old(self).peers(),
    ;

    /// Disconnect from a peer: it is no longer connected; `Ok` exactly when
    /// it was.
    fn disconnect(&mut self, peer: &PeerId) -> (r: Result<(), TransportError>)
        requires
            old(self).inv(),
        ensures
            final(self).inv(),
            final(self).peers() == old(self).peers().remove(peer@),
            old(self).peers().contains(peer@) <==> r is Ok,
    ;

    /// The negotiated transport for a peer, if it is connected.
    fn transport_type(&self, peer: &PeerId) -> (r: Option<TransportType>)
        requires
            self.inv(),
        ensures
            r == self.type_of(peer@),
            self.peers().contains(peer@) <==> r is Some,
    ;
}

impl PeerTransport for MockTransport {
    open spec fn inv(&self) -> bool {
        self.wf()
    }

    open spec fn peers(&self) -> Set<Seq<char>> {
        self.connected()
    }

    open spec fn addr_of(&self, peer: Seq<char>) -> Option<Seq<char>> {
        self.peer_addr(peer)
    }

    open spec fn type_of(&self, peer: Seq<char>) -> Option<TransportType> {
        if self.connected().contains(peer) {
            Some(TransportType::Mock)
        } else {
            None
        }
    }

    fn connect(&mut self, peer: &PeerId, addr: &str) -> (r: Result<TransportType, TransportError>)
        ensures
            r matches Ok(t) && t == TransportType::Mock,
            final(self).memory() == old(self).memory(),
            final(self).spec_next_lkey() == old(self).spec_next_lkey(),
    {
        MockTransport::connect(self, peer, addr)
    }

    fn disconnect(&mut self, peer: &PeerId) -> (r: Result<(), TransportError>)
        ensures
            final(self).memory() == old(self).memory(),
            final(self).spec_next_lkey() == old(self).spec_next_lkey(),
            r matches Err(e) ==> e matches TransportError::PeerNotFound(name) && name@ == peer@,
    {
        MockTransport::disconnect(self, peer)
    }

    fn transport_type(&self, peer: &PeerId) -> (r: Option<TransportType>) {
        MockTransport::transport_type(self, peer)
    }
}

/// Pool of transport connections, keyed by peer id: connects lazily on
/// first use and caches the connection.
pub struct ConnectionPool<T: PeerTransport> {
    transport: T,
    connections: ConnectionMap,
}

impl<T: PeerTransport> View for ConnectionPool<T> {
    type V = Map<Seq<char>, (TransportType, Seq<char>)>;

    closed spec fn view(&self) -> Map<Seq<char>, (TransportType, Seq<char>)> {
        connection_map(self.connections)
    }
}

impl<T: PeerTransport> ConnectionPool<T> {
    /// The transport the pool connects through.
    pub closed spec fn spec_transport(&self) -> T {
        self.transport
    }

    pub open spec fn wf(&self) -> bool {
        self.spec_transport().inv()
    }

    pub fn new(transport: T) -> (p: Self)
        requires
            transport.inv(),
        ensures
            p.wf(),
            p@.is_empty(),
            p.spec_transport() == transport,
    {
        ConnectionPool { transport, connections: connection_map_new() }
    }

    /// The transport the pool connects through.
    pub fn transport(&self) -> (t: &T)
        ensures
            *t == self.spec_transport(),
    {
        &self.transport
    }

    /// The cached connection's transport if there is one; otherwise connect
    /// through the transport at `addr` and cache the transport it
    /// negotiated. A failed connect is returned and nothing is cached.
    pub fn get_or_connect(&mut self, peer: &PeerId, addr: &str) -> (r: Result<TransportType, TransportError>)
        requires
            old(self).wf(),
        ensures
            final(self).wf(),
            old(self)@.contains_key(peer@) ==> {
                &&& r matches Ok(t) && t == old(self)@[peer@].0
                &&& final(self)@ == old(self)@
                &&& final(self).spec_transport() == old(self).spec_transport()
            },
            !old(self)@.contains_key(peer@) ==> {
                &&& r matches Ok(t) ==> final(self)@ == old(self)@.insert(peer@, (t, addr@))
                    && final(self).spec_transport().peers() == old(self).spec_transport().peers().insert(peer@)
                    && final(self).spec_transport().addr_of(peer@) == Some(addr@)
                    && final(self).spec_transport().type_of(peer@) == Some(t)
                &&& r is Err ==> final(self)@ == old(self)@ && final(self).spec_transport().peers()
                    == old(self).spec_transport().peers()
            },
    {
        if let Some(t) = connection_map_transport(&self.connections, peer) {
            return Ok(t);
        }
        let tt = match self.transport.connect(peer, addr) {
            Ok(tt) => tt,
            Err(e) => {
                return Err(e);
            },
        };
        let state = ConnectionState { transport_type: tt, addr: addr.to_owned(), connected_at: instant_now() };
        connection_map_insert(&mut self.connections, peer.duplicate(), state);
        Ok(tt)
    }

    /// Remove `peer` from the cache and disconnect it at the transport.
    pub fn disconnect(&mut self, peer: &PeerId) -> (r: Result<(), TransportError>)
        requires
            old(self).wf(),
        ensures
            final(self).wf(),
            final(self)@ == old(self)@.remove(peer@),
            final(self).spec_transport().peers() == old(self).spec_transport().peers().remove(peer@),
            old(self).spec_transport().peers().contains(peer@) <==> r is Ok,
    {
        connection_map_remove(&mut self.connections, peer);
        self.transport.disconnect(peer)
    }

    /// The cached peers, each once.
    pub fn connected_peers(&self) -> (v: Vec<PeerId>)
        ensures
            peer_views(v@).to_set() == self@.dom(),
            peer_views(v@).no_duplicates(),
    {
        connection_map_peers(&self.connections)
    }

    /// One pass of the health check: every cached peer the transport no
    /// longer reports connected leaves the cache.
    pub fn remove_stale(&mut self)
        requires
            old(self).wf(),
        ensures
            final(self).wf(),
            final(self).spec_transport() == old(self).spec_transport(),
            final(self)@ == old(self)@.restrict(old(self).spec_transport().peers()),
    {
        let peers = connection_map_peers(&self.connections);
        let ghost m0 = connection_map(self.connections);
        let ghost keys = peer_views(peers@);
        let mut i: usize = 0;
        while i < peers.len()
            invariant
                self.wf(),
                self.transport == old(self).transport,
                m0 == connection_map(old(self).connections),
                keys == peer_views(peers@),
                keys.to_set() == m0.dom(),
                keys.no_duplicates(),
                i <= peers@.len(),
                connection_map(self.connections) == m0.restrict(
                    m0.dom().filter(|k: Seq<char>| !keys.subrange(0, i as int).contains(k) || self.transport.peers().contains(k)),
                ),
            decreases peers@.len() - i,
        {
            let ghost before = connection_map(self.connections);
            let stale = self.transport.transport_type(&peers[i]).is_none();
            if stale {
                connection_map_remove(&mut self.connections, &peers[i]);
            }
            proof {
                let ki = keys[i as int];
                assert(ki == peers@[i as int]@);
                let live = self.transport.peers();
                assert(stale <==> !live.contains(ki));
                let pre = keys.subrange(0, i as int);
                let post = keys.subrange(0, i as int + 1);
                assert forall|k: Seq<char>| #[trigger] post.contains(k) <==> (pre.contains(k) || k == ki) by {
                    if post.contains(k) {
                        let j = choose|j: int| 0 <= j < post.len() && post[j] == k;
                        if j < pre.len() {
                            assert(pre[j] == k);
                        }
                    }
                    if pre.contains(k) {
                        let j = choose|j: int| 0 <= j < pre.len() && pre[j] == k;
                        assert(post[j] == k);
                    }
                    if k == ki {
                        assert(post[i as int] == k);
                    }
                }
                let after = m0.restrict(m0.dom().filter(|k: Seq<char>| !post.contains(k) || live.contains(k)));
                assert(before == m0.restrict(m0.dom().filter(|k: Seq<char>| !pre.contains(k) || live.contains(k))));
                assert(connection_map(self.connections).dom() =~= after.dom());
                assert(connection_map(self.connections) =~= after);
            }
            i = i + 1;
        }
        proof {
            assert(keys.subrange(0, i as int) =~= keys);
            assert forall|k: Seq<char>| #[trigger] m0.dom().contains(k) implies keys.contains(k) by {
                assert(keys.to_set().contains(k));
            }
            assert(connection_map(self.connections) =~= m0.restrict(old(self).transport.peers()));
        }
    }
}

/// NIXL-backed transport, when built with NIXL support. This build has
/// none: creating one fails.
pub struct NixlTransport {
    _private: (),
}

impl NixlTransport {
    /// NIXL transport is not available in this build.
    pub fn new() -> (r: Result<Self, &'static str>)
        ensures
            r matches Err(m) && m@ == "NIXL transport not available. Build with --features nixl or use MockTransport."@,
    {
        Err("NIXL transport not available. Build with --features nixl or use MockTransport.")
    }
}

} // verus!
