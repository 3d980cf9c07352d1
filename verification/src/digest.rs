//! Strong checksums, and comparison of byte strings.

use sha2::Digest;
use vstd::prelude::*;

verus! {

/// The BLAKE3 hash of `data`.
pub uninterp spec fn blake3_of(data: Seq<u8>) -> Seq<u8>;

/// The SHA-256 hash of `data`.
pub uninterp spec fn sha256_of(data: Seq<u8>) -> Seq<u8>;

/// Hashes the bytes of `head` followed by those of `tail` with
/// `blake3::Hasher`. The claim: input that is handed over in two pieces is
/// hashed as one string, and the digest depends on that string alone.
#[verifier::external_body]
fn blake3_digest(head: &[u8], tail: &[u8]) -> (strong: [u8; 32])
    ensures
        strong@ == blake3_of(head@ + tail@),
{
    let mut hasher = blake3::Hasher::new();
    hasher.update(head);
    hasher.update(tail);
    *hasher.finalize().as_bytes()
}

/// Hashes `data` with `sha2::Sha256::digest`. The claim: the digest depends on
/// the bytes alone and is 32 bytes long.
#[verifier::external_body]
fn sha256_digest(data: &[u8]) -> (strong: Vec<u8>)
    ensures
        strong@ == sha256_of(data@),
        strong@.len() == 32,
{
    sha2::Sha256::digest(data).to_vec()
}

/// The BLAKE3 hash of `data`.
pub fn strong_checksum(data: &[u8]) -> (strong: [u8; 32])
    ensures
        strong@ == blake3_of(data@),
{
    let strong = strong_checksum_parts(data, &[]);
    assert(data@ + Seq::<u8>::empty() =~= data@);
    strong
}

/// The BLAKE3 hash of two byte strings taken as one.
pub fn strong_checksum_parts(head: &[u8], tail: &[u8]) -> (strong: [u8; 32])
    ensures
        strong@ == blake3_of(head@ + tail@),
{
    blake3_digest(head, tail)
}

/// The SHA-256 hash of `data`.
pub fn sha256(data: &[u8]) -> (strong: Vec<u8>)
    ensures
        strong@ == sha256_of(data@),
        strong@.len() == 32,
{
    sha256_digest(data)
}

/// Whether two byte strings are equal.
pub fn bytes_equal(left: &[u8], right: &[u8]) -> (equal: bool)
    ensures
        equal == (left@ == right@),
{
    if left.len() != right.len() {
        return false;
    }
    let mut index: usize = 0;
    while index < left.len()
        invariant
            index <= left.len(),
            left.len() == right.len(),
            forall|i: int| 0 <= i < index ==> left@[i] == right@[i],
        decreases left.len() - index,
    {
        if left[index] != right[index] {
            return false;
        }
        index = index + 1;
    }
    assert(left@ =~= right@);
    true
}

} // verus!
