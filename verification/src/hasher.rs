//! Keccak-256, the digest by which the store addresses a node.

use vstd::prelude::*;
use hashdb::Hasher;
use keccak_hasher::KeccakHasher;

verus! {

/// A Keccak-256 digest.
pub type Digest = [u8; 32];

/// The Keccak-256 digest of a byte string, as `KeccakHasher::hash` computes
/// it.
pub uninterp spec fn keccak256(data: Seq<u8>) -> Seq<u8>;

/// The digest of a byte string, thirty-two bytes whatever the string.
pub open spec fn digest_of(data: Seq<u8>) -> Seq<u8> {
    if keccak256(data).len() == 32 {
        keccak256(data)
    } else {
        Seq::new(32, |i: int| 0u8)
    }
}

/// Calls `KeccakHasher::hash` of the crate keccak-hasher, which runs
/// Keccak-256 over the bytes and hands back the thirty-two bytes of the
/// digest. Nothing is proved of it: the contract only gives the digest its
/// name.
#[verifier::external_body]
pub(crate) fn keccak(data: &[u8]) -> (digest: Digest)
    ensures
        digest@ == keccak256(data@),
{
    KeccakHasher::hash(data).0
}

/// The digest of a byte string.
pub fn hash_bytes(data: &[u8]) -> (digest: Digest)
    ensures
        digest@ == digest_of(data@),
{
    keccak(data)
}

/// Whether two digests are the same.
pub fn same_digest(a: &Digest, b: &Digest) -> (same: bool)
    ensures
        same == (a@ == b@),
{
    let mut i: usize = 0;
    while i < 32
        invariant
            i <= 32,
            forall|k: int| 0 <= k < i ==> a@[k] == b@[k],
        decreases 32 - i,
    {
        if a[i] != b[i] {
            return false;
        }
        i += 1;
    }
    assert(a@ =~= b@);
    true
}

/// The digest that a string of thirty-two bytes spells.
pub fn digest_from(bytes: &[u8]) -> (digest: Digest)
    requires
        bytes.len() == 32,
    ensures
        digest@ == bytes@,
{
    let mut digest: Digest = [0u8; 32];
    let mut i: usize = 0;
    while i < 32
        invariant
            i <= 32,
            bytes.len() == 32,
            forall|k: int| 0 <= k < i ==> digest@[k] == bytes@[k],
        decreases 32 - i,
    {
        digest[i] = bytes[i];
        i += 1;
    }
    assert(digest@ =~= bytes@);
    digest
}

} // verus!
