//! The digest utility: the SHA-1 digest that names objects and seals the
//! staging index, and the lowercase hex spelling of a digest.

use sha1::Digest;
use vstd::prelude::*;

verus! {

/// The 20-byte SHA-1 digest of a byte string. The digest function itself is
/// not written out here; the name stands for whatever `sha1` computes, which
/// depends on the input bytes alone.
pub uninterp spec fn sha1_of(data: Seq<u8>) -> Seq<u8>;

/// Relies on the `sha1` crate (`Sha1::new` / `Digest::update` /
/// `Digest::finalize`): one digest over all of `data`, 20 bytes long,
/// a function of `data` alone.
#[verifier::external_body]
pub fn sha1_digest(data: &Vec<u8>) -> (r: Vec<u8>)
    ensures
        r@ == sha1_of(data@),
        r@.len() == 20,
{
    let mut hasher = sha1::Sha1::new();
    hasher.update(data.as_slice());
    hasher.finalize().to_vec()
}

/// The lowercase ASCII hex digit for a value below 16.
pub open spec fn hex_digit(n: u8) -> u8
    recommends
        n < 16,
{
    if n < 10 {
        (48 + n) as u8
    } else {
        (87 + n) as u8
    }
}

/// The lowercase hex spelling of a byte string: two digits per byte, high
/// nibble first.
pub open spec fn hex_bytes(s: Seq<u8>) -> Seq<u8>
    decreases s.len(),
{
    if s.len() == 0 {
        Seq::empty()
    } else {
        seq![hex_digit(s[0] / 16), hex_digit(s[0] % 16)] + hex_bytes(s.drop_first())
    }
}

/// Each byte yields two digits.
pub proof fn lemma_hex_bytes_len(s: Seq<u8>)
    ensures
        hex_bytes(s).len() == 2 * s.len(),
    decreases s.len(),
{
    if s.len() > 0 {
        lemma_hex_bytes_len(s.drop_first());
    }
}

/// Relies on `hex::encode`: the lowercase hex string of the bytes, high
/// nibble of each byte first.
#[verifier::external_body]
pub fn hex_encode(data: &Vec<u8>) -> (r: Vec<u8>)
    ensures
        r@ == hex_bytes(data@),
{
    hex::encode(data.as_slice()).into_bytes()
}

} // verus!
