//! SHA-256, the one hash of the transcript and of the Merkle trees.

use sha2::Digest;
use sha2::Sha256;
use vstd::prelude::*;

verus! {

/// The SHA-256 digest of `data`, as `sha2::Sha256` computes it.
pub uninterp spec fn sha256(data: Seq<u8>) -> Seq<u8>;

/// The digest as the library's contracts use it: always 32 bytes long.
///
/// It is `sha256(data)` wherever that has 32 bytes, which is the case for
/// every digest that `hash` has returned.
pub open spec fn digest(data: Seq<u8>) -> Seq<u8> {
    if sha256(data).len() == 32 {
        sha256(data)
    } else {
        Seq::new(32, |i: int| 0u8)
    }
}

/// Calls `<sha2::Sha256 as sha2::Digest>::digest`.
///
/// Trusted: the 32 bytes returned are the SHA-256 digest of `data`, a
/// function of the bytes of `data` alone.
#[verifier::external_body]
fn sha256_of(data: &[u8]) -> (out: [u8; 32])
    ensures
        out@ == sha256(data@),
{
    Sha256::digest(data).into()
}

/// Hashes `data` with SHA-256.
pub fn hash(data: &[u8]) -> (out: [u8; 32])
    ensures
        out@ == digest(data@),
{
    sha256_of(data)
}

/// Hashes the concatenation `left ‖ right`.
pub fn hash_pair(left: &[u8], right: &[u8]) -> (out: [u8; 32])
    ensures
        out@ == digest(left@ + right@),
{
    let mut buf: Vec<u8> = Vec::new();
    buf.extend_from_slice(left);
    buf.extend_from_slice(right);
    assert(buf@ =~= left@ + right@);
    hash(buf.as_slice())
}

} // verus!
