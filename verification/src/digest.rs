//! Content hashing.

use crate::ids::EntryHash;
use vstd::prelude::*;

verus! {

/// The BLAKE3 digest of a byte string: what `blake3::hash` returns.
pub uninterp spec fn blake3_digest(input: Seq<u8>) -> Seq<u8>;

/// Trusted: `blake3::hash` is a function of the input bytes alone, and
/// `Hash::as_bytes` gives its 32 bytes.
#[verifier::external_body]
pub(crate) fn blake3_hash(input: &[u8]) -> (digest: [u8; 32])
    ensures
        digest@ == blake3_digest(input@),
{
    *blake3::hash(input).as_bytes()
}

/// The entry hash of a byte string.
pub fn hash_bytes(input: &[u8]) -> (hash: EntryHash)
    ensures
        hash@ == blake3_digest(input@),
{
    EntryHash(blake3_hash(input))
}

} // verus!
