//! SHA-256, as the `sha2` crate computes it.
use sha2::Digest;
use sha2::Sha256;
use vstd::prelude::*;

verus! {

/// The SHA-256 digest of `data`.
pub uninterp spec fn sha256_digest(data: Seq<u8>) -> [u8; 32];

/// Hashes `data` with `sha2::Sha256` (`Digest::new`, `Digest::input`,
/// `Digest::result`). Trusted: the result holds the 32 bytes (the hasher's
/// `OutputSize` is `U32`) of the digest named `sha256_digest` of the input.
#[verifier::external_body]
pub(crate) fn sha256(data: &[u8]) -> (digest: Vec<u8>)
    ensures
        digest@ == sha256_digest(data@)@,
{
    let mut hasher = Sha256::new();
    hasher.input(data);
    hasher.result().as_slice().to_vec()
}

} // verus!
