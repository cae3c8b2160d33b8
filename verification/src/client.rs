use crate::digest::{hash_leaf, hash_of, Digest};
use crate::mmr::{Mmr, MmrError};
use crate::model::{
    fold_path, lemma_fold_honest, path_spec, peak_index_spec, peaks_spec, rel_pos_spec,
};
use crate::peaks::{MmrPeaks, MmrProof};
use vstd::prelude::*;

verus! {

/// The in-process accumulator service: the facade the transport and CLI
/// layers call.  It owns the accumulator directly and exposes the four
/// primitive operations plus the derived `add_data` and `verify`.
pub struct InMemoryClient {
    mmr: Mmr,
}

impl InMemoryClient {
    /// The facade is well formed when its accumulator is.
    pub closed spec fn wf(&self) -> bool {
        self.mmr.wf()
    }

    /// The history of appended leaf digests.
    pub closed spec fn leaves(&self) -> Seq<Digest> {
        self.mmr.leaves()
    }

    /// A fresh service over an empty accumulator.
    pub fn new() -> (c: InMemoryClient)
        ensures
            c.wf(),
            c.leaves() == Seq::<Digest>::empty(),
    {
        InMemoryClient { mmr: Mmr::new() }
    }

    /// The current forest size: the number of leaves appended so far.
    pub fn forest(&self) -> (n: usize)
        requires
            self.wf(),
        ensures
            n as nat == self.leaves().len(),
    {
        self.mmr.forest()
    }

    /// Append a precomputed leaf digest; returns its 0-based index, the
    /// forest size before the call.
    pub fn add_leaf(&mut self, leaf: Digest) -> (index: usize)
        requires
            old(self).wf(),
            old(self).leaves().len() < usize::MAX,
        ensures
            final(self).wf(),
            index as nat == old(self).leaves().len(),
            final(self).leaves() == old(self).leaves().push(leaf),
    {
        self.mmr.append(leaf)
    }

    /// Hash a data item into a leaf digest and append it; indices are handed
    /// out in call order, 0 first.
    pub fn add_data(&mut self, data: &[u8]) -> (index: usize)
        requires
            old(self).wf(),
            old(self).leaves().len() < usize::MAX,
        ensures
            final(self).wf(),
            index as nat == old(self).leaves().len(),
            final(self).leaves() == old(self).leaves().push(hash_of(data@)),
    {
        let digest = hash_leaf(data);
        self.add_leaf(digest)
    }

    /// The peak set at forest size `block`; `OutOfRange` exactly when that
    /// size lies beyond the current forest.
    pub fn get_peaks(&self, block: usize) -> (r: Result<MmrPeaks, MmrError>)
        requires
            self.wf(),
        ensures
            block as nat > self.leaves().len() ==> r == Err::<MmrPeaks, MmrError>(
                MmrError::OutOfRange,
            ),
            block as nat <= self.leaves().len() ==> (r matches Ok(ps) && ps.num_leaves == block
                && ps.peaks@ == peaks_spec(self.leaves(), block as nat)),
    {
        self.mmr.peaks_at(block)
    }

    /// The inclusion proof for leaf `index` at forest size `block`;
    /// `IndexOutOfRange` when the index is not below the size, `OutOfRange`
    /// when the size lies beyond the current forest.
    pub fn get_proof(&self, block: usize, index: usize) -> (r: Result<MmrProof, MmrError>)
        requires
            self.wf(),
        ensures
            index >= block ==> r == Err::<MmrProof, MmrError>(MmrError::IndexOutOfRange),
            index < block && block as nat > self.leaves().len() ==> r == Err::<MmrProof, MmrError>(
                MmrError::OutOfRange,
            ),
            index < block && block as nat <= self.leaves().len() ==> (r matches Ok(p)
                && p.peak_index as nat == peak_index_spec(block as nat, index as nat)
                && p.relative_pos as nat == rel_pos_spec(block as nat, index as nat) && p.path@
                == path_spec(self.leaves(), block as nat, index as nat, 0)),
    {
        self.mmr.open_at(block, index)
    }

    /// Verify that `data` is the item behind leaf `index`: hash it, fetch the
    /// proof and the peaks at forest size `index + 1`, and check the proof.
    /// Fails with `OutOfRange` exactly when the accumulator has not yet
    /// reached that size; and whenever `data` is the exact item that produced
    /// leaf `index`, the answer is `Ok(true)`.
    pub fn verify(&self, data: &[u8], index: usize) -> (r: Result<bool, MmrError>)
        requires
            self.wf(),
        ensures
            (index as nat) >= self.leaves().len() ==> r == Err::<bool, MmrError>(
                MmrError::OutOfRange,
            ),
            (index as nat) < self.leaves().len() ==> (r matches Ok(ok) && ok == (peak_index_spec(
                (index + 1) as nat,
                index as nat,
            ) < peaks_spec(self.leaves(), (index + 1) as nat).len() && fold_path(
                hash_of(data@),
                path_spec(self.leaves(), (index + 1) as nat, index as nat, 0),
                rel_pos_spec((index + 1) as nat, index as nat),
            ) == peaks_spec(self.leaves(), (index + 1) as nat)[peak_index_spec(
                (index + 1) as nat,
                index as nat,
            ) as int])),
            (index as nat) < self.leaves().len() && hash_of(data@) == self.leaves()[index as int]
                ==> r == Ok::<bool, MmrError>(true),
    {
        let digest = hash_leaf(data);
        if index >= self.mmr.forest() {
            return Err(MmrError::OutOfRange);
        }
        let block = index + 1;
        let proof = match self.mmr.open_at(block, index) {
            Ok(p) => p,
            Err(e) => {
                return Err(e);
            },
        };
        let peaks = match self.mmr.peaks_at(block) {
            Ok(ps) => ps,
            Err(e) => {
                return Err(e);
            },
        };
        let ok = peaks.verify(digest, &proof);
        proof {
            if hash_of(data@) == self.leaves()[index as int] {
                lemma_fold_honest(self.leaves(), block as nat, index as nat, 0);
            }
        }
        Ok(ok)
    }
}

} // verus!
