//! The hash primitive and the concatenation of digests that feeds it.

use sha2::Digest;
use sha2::Sha256;
use vstd::prelude::*;

verus! {

/// Number of bytes in a digest.
pub const DIGEST_LEN: usize = 32;

/// The SHA-256 digest of a byte string, as a mathematical function.
///
/// Nothing is assumed of it beyond being a function of its argument: equal
/// inputs give equal digests. In particular it is not assumed injective.
pub uninterp spec fn sha256(data: Seq<u8>) -> Seq<u8>;

/// Calls `sha2::Sha256::digest` (the one-shot form of `new`, `update`,
/// `finalize`) on `data`.
///
/// Trusted: the returned 32 bytes are the SHA-256 digest of `data`, which
/// depends on the bytes of `data` and on nothing else.
#[verifier::external_body]
fn sha256_digest(data: &[u8]) -> (digest: [u8; 32])
    ensures
        digest@ == sha256(data@),
{
    Sha256::digest(data).into()
}

/// Hashes a byte string to its 32-byte digest.
pub fn hash_bytes(b: &[u8]) -> (digest: [u8; 32])
    ensures
        digest@ == sha256(b@),
{
    sha256_digest(b)
}

} // verus!
