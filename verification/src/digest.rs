//! The SHA-256 digest, computed by the `sha2` crate.

use sha2::{Digest, Sha256};
use vstd::prelude::*;

verus! {

/// The SHA-256 digest of a byte string: thirty-two bytes.
pub uninterp spec fn sha256(data: Seq<u8>) -> [u8; 32];

/// Hashes `data` with `sha2::Sha256`: a fresh hasher is fed the whole input
/// once (`Digest::chain_update`) and finished (`Digest::finalize`).
///
/// Trusted: the thirty-two bytes that come back are taken to be the SHA-256
/// digest of the input, a function of the input bytes alone.
#[verifier::external_body]
pub(crate) fn sha256_digest(data: &[u8]) -> (digest: [u8; 32])
    ensures
        digest == sha256(data@),
{
    Sha256::new().chain_update(data).finalize().into()
}

} // verus!
