//! SHA-256 digests, the hashes that identify stored values.

use sha2::{Digest, Sha256};
use vstd::prelude::*;

verus! {

/// The SHA-256 digest of `data`, as the `sha2` crate computes it.
pub uninterp spec fn sha256_digest(data: Seq<u8>) -> Seq<u8>;

/// A 32-byte SHA-256 digest.
#[derive(Clone, Copy, Debug, PartialEq, Eq)]
pub struct HashValue {
    bytes: [u8; 32],
}

impl View for HashValue {
    type V = Seq<u8>;

    closed spec fn view(&self) -> Seq<u8> {
        self.bytes@
    }
}

impl HashValue {
    /// The 32 bytes of the digest.
    pub fn as_bytes(&self) -> (bytes: [u8; 32])
        ensures
            bytes@ == self@,
    {
        self.bytes
    }
}

/// Hashes `data` with SHA-256.
///
/// Calls `<sha2::Sha256 as digest::Digest>::digest`. The contract claims only that the
/// result is the value of `sha256_digest` on the input, the same for the same bytes.
#[verifier::external_body]
pub(crate) fn sha256(data: &[u8]) -> (h: HashValue)
    ensures
        h@ == sha256_digest(data@),
{
    HashValue { bytes: Sha256::digest(data).into() }
}

} // verus!
