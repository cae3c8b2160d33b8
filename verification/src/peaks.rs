use crate::digest::{rpo_merge, Digest};
use crate::model::fold_path;
use vstd::prelude::*;

verus! {

/// An inclusion proof: a passive carrier of the peak locator and the ordered
/// sibling path from the leaf up to that peak's root.  Never mutated after
/// construction.
#[derive(Clone, Debug)]
pub struct MmrProof {
    /// Which peak of the peak set the leaf's subtree belongs to, counting
    /// from the tallest.
    pub peak_index: usize,
    /// The position of the leaf within its peak's subtree; its bits give the
    /// left/right orientation at each level of the walk.
    pub relative_pos: usize,
    /// The sibling digests met on the walk from the leaf to the peak root,
    /// bottom first.
    pub path: Vec<Digest>,
}

/// The peak set for a given forest size: the minimal ordered sequence of
/// complete-subtree roots whose leaf counts sum to that size, tallest first.
#[derive(Clone, Debug)]
pub struct MmrPeaks {
    /// The forest size this peak set was computed for.
    pub num_leaves: usize,
    /// The peak digests, tallest subtree first.
    pub peaks: Vec<Digest>,
}

impl MmrPeaks {
    /// The forest size this peak set was computed for.
    pub fn num_leaves(&self) -> (n: usize)
        ensures
            n == self.num_leaves,
    {
        self.num_leaves
    }

    /// How many peaks the set holds: `popcount(num_leaves)`.
    pub fn num_peaks(&self) -> (n: usize)
        ensures
            n as nat == self.peaks@.len(),
    {
        self.peaks.len()
    }

    /// Check an inclusion proof against a claimed leaf digest: refold the
    /// leaf with each sibling digest, taking the merge order from the bits of
    /// the proof's relative position, and compare the result against the peak
    /// the proof points at.  A pure boolean predicate, safe on adversarial
    /// input: true exactly when the peak index is in bounds and the refolded
    /// digest equals that peak.
    pub fn verify(&self, leaf: Digest, proof: &MmrProof) -> (ok: bool)
        ensures
            ok == (proof.peak_index < self.peaks@.len() && fold_path(
                leaf,
                proof.path@,
                proof.relative_pos as nat,
            ) == self.peaks@[proof.peak_index as int]),
    {
        if proof.peak_index >= self.peaks.len() {
            return false;
        }
        let mut cur = leaf;
        let mut pos = proof.relative_pos;
        let mut k: usize = 0;
        proof {
            assert(proof.path@.subrange(0, proof.path@.len() as int) =~= proof.path@);
        }
        while k < proof.path.len()
            invariant
                k <= proof.path@.len(),
                fold_path(leaf, proof.path@, proof.relative_pos as nat) == fold_path(
                    cur,
                    proof.path@.subrange(k as int, proof.path@.len() as int),
                    pos as nat,
                ),
            decreases proof.path@.len() - k,
        {
            let ghost rest = proof.path@.subrange(k as int, proof.path@.len() as int);
            let sib = proof.path[k];
            cur = if pos % 2 == 0 {
                rpo_merge(&cur, &sib)
            } else {
                rpo_merge(&sib, &cur)
            };
            pos = pos / 2;
            k = k + 1;
            proof {
                assert(rest[0] == sib);
                assert(rest.subrange(1, rest.len() as int) =~= proof.path@.subrange(
                    k as int,
                    proof.path@.len() as int,
                ));
            }
        }
        proof {
            assert(proof.path@.subrange(k as int, proof.path@.len() as int) =~= Seq::<
                Digest,
            >::empty());
        }
        cur == self.peaks[proof.peak_index]
    }
}

} // verus!
