//! The content identifier: a SHA-1 digest.

use vstd::prelude::*;

verus! {

/// The length of a digest in bytes.
pub const DIGEST_LENGTH: usize = 20;

/// SHA-1 is defined for messages of fewer than 2^64 bits: this many bytes
/// are one too many.
pub const DIGEST_INPUT_LIMIT: u64 = 0x2000_0000_0000_0000;

/// The SHA-1 digest of `data`, as `sha1_smol` computes it.
pub uninterp spec fn sha1(data: Seq<u8>) -> Seq<u8>;

/// Calls `sha1_smol::Sha1::from`, then `digest` and `bytes` on what it
/// gives. The contract claims that the 20 bytes that come back depend on the
/// bytes of `data` alone. Inputs of `DIGEST_INPUT_LIMIT` bytes or more are
/// left out: on them the crate's count of bits overflows.
#[verifier::external_body]
pub(crate) fn sha1_digest(data: &[u8]) -> (digest: [u8; 20])
    requires
        data@.len() < DIGEST_INPUT_LIMIT,
    ensures
        digest@ == sha1(data@),
{
    sha1_smol::Sha1::from(data).digest().bytes()
}

} // verus!
