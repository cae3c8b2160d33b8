use miden_crypto::hash::rpo::Rpo256;
use miden_crypto::{Felt, Word};
use vstd::prelude::*;

verus! {

/// A fixed-width hash digest: the canonical 64-bit representations of the
/// four field elements that make up an RPO-256 digest.  Two digests are equal
/// exactly when their four words are equal.
#[derive(Clone, Copy, PartialEq, Eq, Structural, Debug)]
pub struct Digest {
    pub w0: u64,
    pub w1: u64,
    pub w2: u64,
    pub w3: u64,
}

/// The digest RPO-256 assigns to a byte string: a function of the bytes alone.
pub uninterp spec fn hash_of(data: Seq<u8>) -> Digest;

/// The digest an RPO-256 merge assigns to an ordered pair of digests: a
/// function of the pair alone, and (by the hash's padding discipline) in a
/// domain separate from `hash_of`, so an interior digest is never confused
/// with a leaf digest.
pub uninterp spec fn merge_of(left: Digest, right: Digest) -> Digest;

/// Relies on miden_crypto::hash::rpo::Rpo256::hash: the digest of a byte
/// string, a deterministic function of the bytes alone.
#[verifier::external_body]
fn rpo_hash(data: &[u8]) -> (r: Digest)
    ensures
        r == hash_of(data@),
{
    let w = Rpo256::hash(data);
    Digest {
        w0: w.a.as_canonical_u64(),
        w1: w.b.as_canonical_u64(),
        w2: w.c.as_canonical_u64(),
        w3: w.d.as_canonical_u64(),
    }
}

/// Relies on miden_crypto::hash::rpo::Rpo256::merge: the digest of an ordered
/// pair of digests, a deterministic function of the pair alone.
#[verifier::external_body]
pub(crate) fn rpo_merge(left: &Digest, right: &Digest) -> (r: Digest)
    ensures
        r == merge_of(*left, *right),
{
    let l = [left.w0, left.w1, left.w2, left.w3].map(Felt::new);
    let r = [right.w0, right.w1, right.w2, right.w3].map(Felt::new);
    let m = Rpo256::merge(&[Word::new(l), Word::new(r)]);
    Digest { w0: m.a.as_canonical_u64(), w1: m.b.as_canonical_u64(), w2: m.c.as_canonical_u64(), w3: m.d.as_canonical_u64() }
}

/// Hash an externally supplied data item into its leaf digest.
pub fn hash_leaf(data: &[u8]) -> (r: Digest)
    ensures
        r == hash_of(data@),
{
    rpo_hash(data)
}

} // verus!
