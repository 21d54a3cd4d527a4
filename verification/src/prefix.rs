//! Prefix hashes: the 16-byte keys under which KV cache entries are stored.
use vstd::prelude::*;
use vstd::bytes::{spec_u128_from_le_bytes, spec_u128_to_le_bytes, u128_from_le_bytes};

verus! {

/// A prefix hash: 16 bytes of a truncated digest of a token prefix.
pub type PrefixHash = [u8; 16];

/// The integer that a prefix hash denotes (its bytes read little-endian).
/// Distinct hashes denote distinct integers, so the integer can key a hash table.
pub open spec fn hash_key(h: [u8; 16]) -> u128 {
    spec_u128_from_le_bytes(h@)
}

/// Computes `hash_key(*h)`.
pub fn prefix_key(h: &[u8; 16]) -> (k: u128)
    ensures
        k == hash_key(*h),
{
    u128_from_le_bytes(h.as_slice())
}

/// Two prefix hashes with the same key are the same hash.
pub proof fn lemma_hash_key_injective(a: [u8; 16], b: [u8; 16])
    requires
        hash_key(a) == hash_key(b),
    ensures
        a == b,
{
    vstd::bytes::lemma_auto_spec_u128_to_from_le_bytes();
    assert(a@.len() == 16);
    assert(b@.len() == 16);
    assert(a@ == spec_u128_to_le_bytes(spec_u128_from_le_bytes(a@)));
    assert(b@ == spec_u128_to_le_bytes(spec_u128_from_le_bytes(b@)));
    assert forall|i: int| 0 <= i < 16 implies a[i] == b[i] by {
        assert(a@[i] == b@[i]);
    }
    assert(a =~= b);
}

} // verus!
