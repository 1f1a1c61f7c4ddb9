//! BLAKE3 digests.
use vstd::prelude::*;

verus! {

/// The incremental hasher of the `blake3` crate.
#[verifier::external_type_specification]
#[verifier::external_body]
pub struct ExHasher(blake3::Hasher);

/// The bytes that a hasher has taken in so far, in order.
pub uninterp spec fn absorbed(hasher: blake3::Hasher) -> Seq<u8>;

/// The BLAKE3 digest of a byte string.
pub uninterp spec fn blake3_digest(bytes: Seq<u8>) -> [u8; 32];

/// `blake3::Hasher::new`: a hasher that has taken in nothing.
#[verifier::external_body]
pub(crate) fn hasher_new() -> (hasher: blake3::Hasher)
    ensures
        absorbed(hasher) == Seq::<u8>::empty(),
{
    blake3::Hasher::new()
}

/// `blake3::Hasher::update`: takes in `bytes` after what was taken in before.
#[verifier::external_body]
pub(crate) fn hasher_update(hasher: &mut blake3::Hasher, bytes: &[u8])
    ensures
        absorbed(*final(hasher)) == absorbed(*old(hasher)) + bytes@,
{
    hasher.update(bytes);
}

/// `blake3::Hasher::finalize`: the digest of everything taken in, which depends
/// on those bytes alone.
#[verifier::external_body]
pub(crate) fn hasher_finish(hasher: &blake3::Hasher) -> (digest: [u8; 32])
    ensures
        digest == blake3_digest(absorbed(*hasher)),
{
    *hasher.finalize().as_bytes()
}

/// The digest of one byte string.
pub fn digest_bytes(bytes: &[u8]) -> (digest: [u8; 32])
    ensures
        digest == blake3_digest(bytes@),
{
    let mut hasher = hasher_new();
    hasher_update(&mut hasher, bytes);
    proof {
        assert(Seq::<u8>::empty() + bytes@ =~= bytes@);
    }
    hasher_finish(&hasher)
}

} // verus!
