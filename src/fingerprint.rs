//! Content fingerprints of captured images.
use sha2::Digest;
use vstd::prelude::*;

verus! {

/// The lower-case hex SHA-256 digest of `data`.
pub uninterp spec fn sha256_hex(data: Seq<u8>) -> Seq<char>;

/// Relies on `sha2::Sha256` (through `Digest::new`, `update` and `finalize`)
/// and the `LowerHex` formatting of its output: the digest of the bytes, 32
/// bytes written as 64 hex digits.
#[verifier::external_body]
fn sha256_of(data: &Vec<u8>) -> (r: String)
    ensures
        r@ == sha256_hex(data@),
        r@.len() == 64,
{
    let mut hasher = sha2::Sha256::new();
    hasher.update(data);
    format!("{:x}", hasher.finalize())
}

/// The fingerprint of a capture from its bytes; an unreadable capture
/// (`None`) has the empty fingerprint, which no digest equals.
pub fn compute_hash(data: &Option<Vec<u8>>) -> (r: String)
    ensures
        data matches Some(d) ==> r@ == sha256_hex(d@) && r@.len() == 64,
        data is None ==> r@.len() == 0,
{
    match data {
        Some(d) => sha256_of(d),
        None => String::new(),
    }
}

} // verus!
