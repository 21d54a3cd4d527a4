//! SHA-256 digests and hexadecimal text, from the `sha2` and `hex` crates.
use sha2::{Digest, Sha256};
use vstd::prelude::*;

verus! {

/// The SHA-256 digest of a byte sequence.
pub uninterp spec fn sha256_of(data: Seq<u8>) -> Seq<u8>;

/// `sha2::Sha256::digest`: the SHA-256 digest of `data`, 32 bytes long.
/// The contract names the digest and states its length; nothing else of
/// the hash function is claimed.
#[verifier::external_body]
pub(crate) fn sha256(data: &[u8]) -> (d: Vec<u8>)
    ensures
        d@ == sha256_of(data@),
        d@.len() == 32,
{
    Sha256::digest(data).to_vec()
}

/// The lowercase hexadecimal digit for a value below 16.
pub open spec fn hex_digit(v: int) -> char {
    if v < 10 {
        (('0' as int) + v) as char
    } else {
        (('a' as int) + v - 10) as char
    }
}

/// Lowercase hex text for `data`: two digits per byte, high nibble first.
pub open spec fn hex_text(data: Seq<u8>) -> Seq<char> {
    Seq::new(
        2 * data.len(),
        |i: int|
            if i % 2 == 0 {
                hex_digit(data[i / 2] as int / 16)
            } else {
                hex_digit(data[i / 2] as int % 16)
            },
    )
}

/// `hex::encode`: the lowercase hexadecimal text of `data`.
#[verifier::external_body]
pub(crate) fn hex_encode(data: &[u8]) -> (s: String)
    ensures
        s@ == hex_text(data@),
{
    hex::encode(data)
}

/// The value of a hex digit (either case), if it is one.
pub open spec fn hex_value(c: u8) -> Option<u8> {
    if 48 <= c <= 57 {
        Some((c - 48) as u8)
    } else if 97 <= c <= 102 {
        Some((c - 97 + 10) as u8)
    } else if 65 <= c <= 70 {
        Some((c - 65 + 10) as u8)
    } else {
        None
    }
}

/// The bytes that hex text spells: `None` unless its length is even and
/// every character is a hex digit.
pub open spec fn hex_bytes(text: Seq<u8>) -> Option<Seq<u8>> {
    if text.len() % 2 == 0 && forall|i: int| 0 <= i < text.len() ==> #[trigger] hex_value(text[i]).is_some() {
        Some(
            Seq::new(
                text.len() / 2,
                |k: int|
                    (hex_value(text[2 * k]).unwrap() * 16 + hex_value(text[2 * k + 1]).unwrap()) as u8,
            ),
        )
    } else {
        None
    }
}

/// `hex::decode`: the bytes that `text` spells, or `None` for text of odd
/// length or with a character that is no hex digit (the error's kind is
/// dropped).
#[verifier::external_body]
pub(crate) fn hex_decode(text: &[u8]) -> (r: Option<Vec<u8>>)
    ensures
        match r {
            Some(v) => hex_bytes(text@) == Some(v@),
            None => hex_bytes(text@).is_none(),
        },
{
    match hex::decode(text) {
        Ok(v) => Some(v),
        Err(_) => None,
    }
}

} // verus!
