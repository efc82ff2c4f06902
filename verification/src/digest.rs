use vstd::prelude::*;

verus! {

/// A chunk digest: a 64-bit non-cryptographic fingerprint of the chunk's
/// bytes, used as its content address.
pub type Digest = u64;

/// The digest of a byte sequence.  The digest is a pure function of the bytes
/// alone: the hasher runs with a fixed seed, so the value is stable across
/// calls and sessions.
pub uninterp spec fn digest_of(b: Seq<u8>) -> Digest;

/// Computes the digest of one chunk.
///
/// Relies on wyhash2::WyHash with seed 0 (std::hash::Hasher write + finish):
/// the result is a deterministic function of the bytes alone.
#[verifier::external_body]
pub(crate) fn wyhash_digest(data: &[u8]) -> (h: Digest)
    ensures
        h == digest_of(data@),
{
    let mut hasher = wyhash2::WyHash::with_seed(0);
    std::hash::Hasher::write(&mut hasher, data);
    std::hash::Hasher::finish(&hasher)
}

/// Digest purity: equal byte content always yields an equal digest, wherever
/// and whenever it is observed.
pub proof fn lemma_digest_pure(b1: Seq<u8>, b2: Seq<u8>)
    requires
        b1 == b2,
    ensures
        digest_of(b1) == digest_of(b2),
{
}

} // verus!
