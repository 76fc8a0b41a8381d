//! The double SHA-256 hash that names transactions and blocks, computed with
//! the `sha2` crate.
use sha2::{Digest, Sha256};
use vstd::prelude::*;

verus! {

/// The SHA-256 digest of `data`.
pub uninterp spec fn spec_sha256(data: Seq<u8>) -> Seq<u8>;

/// SHA-256 applied twice.
pub open spec fn spec_sha256d(data: Seq<u8>) -> Seq<u8> {
    spec_sha256(spec_sha256(data))
}

/// Calls `sha2::Sha256::digest`. Claimed: the result is the SHA-256 digest of
/// `data` (a function of the bytes alone, named `spec_sha256`, whose value on
/// given bytes is not stated here) and has 32 bytes (`Sha256`'s output size is
/// `U32`).
#[verifier::external_body]
fn sha256(data: &[u8]) -> (digest: Vec<u8>)
    ensures
        digest@ == spec_sha256(data@),
        digest@.len() == 32,
{
    Sha256::digest(data).to_vec()
}

/// SHA-256 of the SHA-256 of `data`: a transaction's id from its raw bytes,
/// a block's hash from its 80-byte header.
pub fn sha256d(data: &[u8]) -> (digest: Vec<u8>)
    ensures
        digest@ == spec_sha256d(data@),
        digest@.len() == 32,
{
    let first = sha256(data);
    sha256(first.as_slice())
}

} // verus!
