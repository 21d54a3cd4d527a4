//! Block header and data layout for KV cache blocks.
//!
//! Each block stores a fixed number of tokens' KV cache data (default: 16
//! tokens, matching vLLM PagedAttention page size). The header at the start
//! of the block holds what integrity checking and staleness detection need.
//!
//! Header layout (24 bytes, little-endian): CRC-32C (4), zero padding (4),
//! generation (8), data size (4), reserved (4).
use vstd::prelude::*;
use vstd::bytes::{
    spec_u32_from_le_bytes, spec_u32_to_le_bytes, spec_u64_from_le_bytes, spec_u64_to_le_bytes,
    u32_from_le_bytes, u32_to_le_bytes, u64_from_le_bytes, u64_to_le_bytes,
};
use vstd::slice::slice_subrange;

verus! {

/// Number of tokens per block (matches vLLM PagedAttention page size).
pub const TOKENS_PER_BLOCK: u32 = 16;

/// The reflected CRC-32C (Castagnoli) polynomial.
pub const CRC32C_POLY: u32 = 0x82F6_3B78;

/// One bit of CRC-32C division on the reflected register `c`.
pub open spec fn crc_bit(c: u32) -> u32 {
    if c & 1u32 == 1u32 {
        (c >> 1u32) ^ CRC32C_POLY
    } else {
        c >> 1u32
    }
}

/// The register after taking in byte `b`: the byte enters the low bits,
/// then eight bits are divided out.
pub open spec fn crc_byte(c: u32, b: u8) -> u32 {
    let x = c ^ (b as u32);
    crc_bit(crc_bit(crc_bit(crc_bit(crc_bit(crc_bit(crc_bit(crc_bit(x))))))))
}

/// The register after taking in `data`, starting from `c`.
pub open spec fn crc_update(c: u32, data: Seq<u8>) -> u32
    decreases data.len(),
{
    if data.len() == 0 {
        c
    } else {
        crc_byte(crc_update(c, data.drop_last()), data.last())
    }
}

/// The CRC-32C checksum of a byte sequence: the register starts at all
/// ones and is inverted at the end.
pub open spec fn crc32c_of(data: Seq<u8>) -> u32 {
    !crc_update(0xFFFF_FFFFu32, data)
}

/// One bit of division loses nothing: the top bit of the result tells
/// whether the polynomial was added, so the register before it is known.
proof fn lemma_crc_bit_injective(x: u32, y: u32)
    requires
        crc_bit(x) == crc_bit(y),
    ensures
        x == y,
{
    assert(x == y) by (bit_vector)
        requires
            (if x & 1u32 == 1u32 { (x >> 1u32) ^ 0x82F6_3B78u32 } else { x >> 1u32 }) == (if y & 1u32 == 1u32 {
                (y >> 1u32) ^ 0x82F6_3B78u32
            } else {
                y >> 1u32
            }),
    ;
}

/// Two registers that come out equal after one byte each went in equal
/// after the byte entered: `c1 ^ b1 == c2 ^ b2`.
proof fn lemma_crc_byte_injective(c1: u32, b1: u8, c2: u32, b2: u8)
    requires
        crc_byte(c1, b1) == crc_byte(c2, b2),
    ensures
        c1 ^ (b1 as u32) == c2 ^ (b2 as u32),
{
    let x1 = c1 ^ (b1 as u32);
    let x2 = c2 ^ (b2 as u32);
    lemma_crc_bit_injective(
        crc_bit(crc_bit(crc_bit(crc_bit(crc_bit(crc_bit(crc_bit(x1))))))),
        crc_bit(crc_bit(crc_bit(crc_bit(crc_bit(crc_bit(crc_bit(x2))))))),
    );
    lemma_crc_bit_injective(
        crc_bit(crc_bit(crc_bit(crc_bit(crc_bit(crc_bit(x1)))))),
        crc_bit(crc_bit(crc_bit(crc_bit(crc_bit(crc_bit(x2)))))),
    );
    lemma_crc_bit_injective(
        crc_bit(crc_bit(crc_bit(crc_bit(crc_bit(x1))))),
        crc_bit(crc_bit(crc_bit(crc_bit(crc_bit(x2))))),
    );
    lemma_crc_bit_injective(crc_bit(crc_bit(crc_bit(crc_bit(x1)))), crc_bit(crc_bit(crc_bit(crc_bit(x2)))));
    lemma_crc_bit_injective(crc_bit(crc_bit(crc_bit(x1))), crc_bit(crc_bit(crc_bit(x2))));
    lemma_crc_bit_injective(crc_bit(crc_bit(x1)), crc_bit(crc_bit(x2)));
    lemma_crc_bit_injective(crc_bit(x1), crc_bit(x2));
    lemma_crc_bit_injective(x1, x2);
}

/// Taking in `x` and then `y` is taking in `x + y`.
proof fn lemma_crc_update_concat(c: u32, x: Seq<u8>, y: Seq<u8>)
    ensures
        crc_update(c, x + y) == crc_update(crc_update(c, x), y),
    decreases y.len(),
{
    if y.len() == 0 {
        assert(x + y =~= x);
    } else {
        assert((x + y).drop_last() =~= x + y.drop_last());
        assert((x + y).last() == y.last());
        lemma_crc_update_concat(c, x, y.drop_last());
    }
}

/// Registers that differ stay different whatever data follows.
proof fn lemma_crc_update_keeps_difference(c1: u32, c2: u32, t: Seq<u8>)
    requires
        c1 != c2,
    ensures
        crc_update(c1, t) != crc_update(c2, t),
    decreases t.len(),
{
    if t.len() > 0 {
        lemma_crc_update_keeps_difference(c1, c2, t.drop_last());
        let r1 = crc_update(c1, t.drop_last());
        let r2 = crc_update(c2, t.drop_last());
        let b = t.last();
        if crc_byte(r1, b) == crc_byte(r2, b) {
            lemma_crc_byte_injective(r1, b, r2, b);
            assert(r1 == r2) by (bit_vector)
                requires
                    r1 ^ (b as u32) == r2 ^ (b as u32),
            ;
        }
    }
}

/// The checksum of data with one more byte is the checksum of the data
/// taken up again (un-inverted), with that byte passed through the CRC-32C
/// step: every byte of the data enters the checksum, in order.
pub proof fn lemma_crc32c_push(data: Seq<u8>, b: u8)
    ensures
        crc32c_of(data.push(b)) == !crc_byte(!crc32c_of(data), b),
        crc32c_of(Seq::<u8>::empty()) == 0u32,
{
    assert(data.push(b).drop_last() =~= data);
    let r = crc_update(0xFFFF_FFFFu32, data);
    assert(!(!r) == r) by (bit_vector);
    assert(!0xFFFF_FFFFu32 == 0u32) by (bit_vector);
}

/// CRC-32C detects any change of a single byte: two sequences of the same
/// length that differ in exactly one position have different checksums,
/// wherever that position is.
pub proof fn lemma_crc32c_detects_byte_change(d1: Seq<u8>, d2: Seq<u8>, i: int)
    requires
        d1.len() == d2.len(),
        0 <= i < d1.len(),
        d1[i] != d2[i],
        forall|j: int| 0 <= j < d1.len() && j != i ==> d1[j] == d2[j],
    ensures
        crc32c_of(d1) != crc32c_of(d2),
{
    let p = d1.take(i);
    let t = d1.skip(i + 1);
    assert(d2.take(i) =~= p);
    assert(d2.skip(i + 1) =~= t);
    assert(d1 =~= p.push(d1[i]) + t);
    assert(d2 =~= p.push(d2[i]) + t);
    let c0 = 0xFFFF_FFFFu32;
    let r = crc_update(c0, p);
    assert(p.push(d1[i]).drop_last() =~= p);
    assert(p.push(d2[i]).drop_last() =~= p);
    let r1 = crc_byte(r, d1[i]);
    let r2 = crc_byte(r, d2[i]);
    assert(r1 != r2) by {
        if r1 == r2 {
            lemma_crc_byte_injective(r, d1[i], r, d2[i]);
            let b1 = d1[i];
            let b2 = d2[i];
            assert(b1 == b2) by (bit_vector)
                requires
                    r ^ (b1 as u32) == r ^ (b2 as u32),
            ;
        }
    }
    lemma_crc_update_concat(c0, p.push(d1[i]), t);
    lemma_crc_update_concat(c0, p.push(d2[i]), t);
    lemma_crc_update_keeps_difference(r1, r2, t);
    let f1 = crc_update(r1, t);
    let f2 = crc_update(r2, t);
    assert(!f1 != !f2) by (bit_vector)
        requires
            f1 != f2,
    ;
}

/// A header made for some data (as `BlockHeader::new` makes it) does not
/// verify data that differs from it in any one byte (as `verify` checks).
pub proof fn lemma_header_rejects_changed_byte(h: BlockHeader, d1: Seq<u8>, d2: Seq<u8>, i: int)
    requires
        h.crc32 == crc32c_of(d1),
        d1.len() == d2.len(),
        0 <= i < d1.len(),
        d1[i] != d2[i],
        forall|j: int| 0 <= j < d1.len() && j != i ==> d1[j] == d2[j],
    ensures
        crc32c_of(d2) != h.crc32,
{
    lemma_crc32c_detects_byte_change(d1, d2, i);
}

/// One bit of division.
fn crc_bit_exec(c: u32) -> (r: u32)
    ensures
        r == crc_bit(c),
{
    if c & 1u32 == 1u32 {
        (c >> 1u32) ^ CRC32C_POLY
    } else {
        c >> 1u32
    }
}

/// Take in one byte.
fn crc_byte_exec(c: u32, b: u8) -> (r: u32)
    ensures
        r == crc_byte(c, b),
{
    let mut x = c ^ (b as u32);
    x = crc_bit_exec(x);
    x = crc_bit_exec(x);
    x = crc_bit_exec(x);
    x = crc_bit_exec(x);
    x = crc_bit_exec(x);
    x = crc_bit_exec(x);
    x = crc_bit_exec(x);
    crc_bit_exec(x)
}

/// The CRC-32C checksum of `data`.
pub fn crc32c(data: &[u8]) -> (c: u32)
    ensures
        c == crc32c_of(data@),
{
    let mut r: u32 = 0xFFFF_FFFFu32;
    let mut i: usize = 0;
    while i < data.len()
        invariant
            i <= data@.len(),
            r == crc_update(0xFFFF_FFFFu32, data@.subrange(0, i as int)),
        decreases data@.len() - i,
    {
        assert(data@.subrange(0, i + 1).drop_last() =~= data@.subrange(0, i as int));
        r = crc_byte_exec(r, data[i]);
        i = i + 1;
    }
    assert(data@.subrange(0, data@.len() as int) =~= data@);
    !r
}

/// Block header stored at the beginning of each allocated block.
#[derive(Debug, Clone, Copy)]
pub struct BlockHeader {
    /// CRC-32C checksum of the data region (not including the header).
    pub crc32: u32,
    /// Generation counter. Incremented on each write. Readers compare against
    /// the generation in metadata to detect stale reads after eviction/rewrite.
    pub generation: u64,
    /// Actual data size in bytes (may be less than block capacity).
    pub data_size: u32,
    /// Reserved for future use (always written as zero).
    pub reserved: u32,
}

/// The bytes that encode a header.
pub open spec fn header_bytes(h: BlockHeader) -> Seq<u8> {
    spec_u32_to_le_bytes(h.crc32) + seq![0u8, 0u8, 0u8, 0u8] + spec_u64_to_le_bytes(h.generation)
        + spec_u32_to_le_bytes(h.data_size) + spec_u32_to_le_bytes(h.reserved)
}

/// The header that the first 24 bytes of `s` encode.
pub open spec fn parse_header(s: Seq<u8>) -> BlockHeader {
    BlockHeader {
        crc32: spec_u32_from_le_bytes(s.subrange(0, 4)),
        generation: spec_u64_from_le_bytes(s.subrange(8, 16)),
        data_size: spec_u32_from_le_bytes(s.subrange(16, 20)),
        reserved: spec_u32_from_le_bytes(s.subrange(20, 24)),
    }
}

/// A header is 24 bytes, and parsing them gives the header back, whatever
/// follows them.
pub proof fn lemma_header_roundtrip(h: BlockHeader, rest: Seq<u8>)
    ensures
        header_bytes(h).len() == 24,
        parse_header(header_bytes(h) + rest) == h,
{
    vstd::bytes::lemma_auto_spec_u32_to_from_le_bytes();
    vstd::bytes::lemma_auto_spec_u64_to_from_le_bytes();
    let s = header_bytes(h) + rest;
    assert(s.subrange(0, 4) =~= spec_u32_to_le_bytes(h.crc32));
    assert(s.subrange(8, 16) =~= spec_u64_to_le_bytes(h.generation));
    assert(s.subrange(16, 20) =~= spec_u32_to_le_bytes(h.data_size));
    assert(s.subrange(20, 24) =~= spec_u32_to_le_bytes(h.reserved));
}

/// Copy `src` into `dst` starting at `at`.
fn put_bytes(dst: &mut [u8], at: usize, src: &[u8])
    requires
        at + src@.len() <= old(dst)@.len(),
    ensures
        final(dst)@.len() == old(dst)@.len(),
        forall|j: int|
            0 <= j < old(dst)@.len() ==> #[trigger] final(dst)@[j] == if at <= j < at + src@.len() {
                src@[j - at]
            } else {
                old(dst)@[j]
            },
{
    let n = dst.len();
    let mut k: usize = 0;
    while k < src.len()
        invariant
            n == dst@.len(),
            at + src@.len() <= dst@.len(),
            dst@.len() == old(dst)@.len(),
            k <= src@.len(),
            forall|j: int|
                0 <= j < dst@.len() ==> #[trigger] dst@[j] == if at <= j < at + k {
                    src@[j - at]
                } else {
                    old(dst)@[j]
                },
        decreases src@.len() - k,
    {
        dst[at + k] = src[k];
        k = k + 1;
    }
}

impl BlockHeader {
    /// Size of an encoded header in bytes.
    pub const SIZE: usize = 24;

    /// The header for `data` written with the given generation.
    pub fn new(data: &[u8], generation: u64) -> (h: Self)
        ensures
            h.crc32 == crc32c_of(data@),
            h.generation == generation,
            h.data_size == data@.len() as u32,
            h.reserved == 0,
    {
        Self { crc32: crc32c(data), generation, data_size: data.len() as u32, reserved: 0 }
    }

    /// Verify the CRC-32C checksum against the given data.
    pub fn verify(&self, data: &[u8]) -> (ok: bool)
        ensures
            ok == (crc32c_of(data@) == self.crc32),
    {
        crc32c(data) == self.crc32
    }

    /// Write the header to the first `BlockHeader::SIZE` bytes of `dst`.
    pub fn write_to(&self, dst: &mut [u8])
        requires
            old(dst)@.len() >= 24,
        ensures
            final(dst)@ == header_bytes(*self) + old(dst)@.subrange(24, old(dst)@.len() as int),
    {
        let crc = u32_to_le_bytes(self.crc32);
        let gen = u64_to_le_bytes(self.generation);
        let size = u32_to_le_bytes(self.data_size);
        let res = u32_to_le_bytes(self.reserved);
        let pad: [u8; 4] = [0u8, 0u8, 0u8, 0u8];
        put_bytes(dst, 0, crc.as_slice());
        put_bytes(dst, 4, pad.as_slice());
        put_bytes(dst, 8, gen.as_slice());
        put_bytes(dst, 16, size.as_slice());
        put_bytes(dst, 20, res.as_slice());
        proof {
            let expect = header_bytes(*self) + old(dst)@.subrange(24, old(dst)@.len() as int);
            assert(pad@ == seq![0u8, 0u8, 0u8, 0u8]);
            assert forall|j: int| 0 <= j < dst@.len() implies #[trigger] dst@[j] == expect[j] by {}
            assert(dst@ =~= expect);
        }
    }

    /// Read a header from the first `BlockHeader::SIZE` bytes of `src`;
    /// `None` if `src` is shorter.
    pub fn read_from(src: &[u8]) -> (h: Option<Self>)
        ensures
            src@.len() < 24 ==> h.is_none(),
            src@.len() >= 24 ==> h == Some(parse_header(src@)),
    {
        if src.len() < Self::SIZE {
            return None;
        }
        let crc32 = u32_from_le_bytes(slice_subrange(src, 0, 4));
        let generation = u64_from_le_bytes(slice_subrange(src, 8, 16));
        let data_size = u32_from_le_bytes(slice_subrange(src, 16, 20));
        let reserved = u32_from_le_bytes(slice_subrange(src, 20, 24));
        Some(BlockHeader { crc32, generation, data_size, reserved })
    }
}

/// Location of a block within the memory pool.
#[derive(Debug, Clone, Copy, PartialEq, Eq, Hash)]
pub struct BlockLocation {
    /// Node that owns this block (local node ID or remote node ID).
    pub node_id: u32,
    /// Index of the block within the memory pool.
    pub block_index: u32,
    /// Byte offset from the start of the memory pool.
    pub offset: u64,
    /// Size of the block in bytes (including header).
    pub block_size: u64,
    /// Generation counter at time of write.
    pub generation: u64,
}

} // verus!
