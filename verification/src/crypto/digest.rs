use vstd::prelude::*;

verus! {

/// The BLAKE3 digest of a byte string (32 bytes).
pub uninterp spec fn blake3_digest(data: Seq<u8>) -> Seq<u8>;

/// Calls `blake3::hash` and returns the digest bytes.
/// Trusted: the result is the BLAKE3 digest of `data`, a function of `data` alone,
/// and it is 32 bytes long.
#[verifier::external_body]
pub fn blake3_hash(data: &[u8]) -> (h: [u8; 32])
    ensures
        h@ == blake3_digest(data@),
{
    *blake3::hash(data).as_bytes()
}

} // verus!
