use crate::digest::{rpo_merge, Digest};
use crate::model::{
    lemma_level_count_bound, lemma_level_count_carry_stop, lemma_level_count_pred,
    lemma_level_count_zero, lemma_node_at_prefix, lemma_popcount_le, lemma_rel_pos_le,
    level_count, node_at,
    path_spec, peak_index_spec, peaks_from, peaks_spec, popcount, pow2n, rel_pos_spec,
    sibling_of,
};
use crate::peaks::{MmrPeaks, MmrProof};
use vstd::prelude::*;

verus! {

/// Why a query about a forest snapshot cannot be answered.
#[derive(Clone, Copy, PartialEq, Eq, Structural, Debug)]
pub enum MmrError {
    /// The requested forest size exceeds the accumulator's current size.
    OutOfRange,
    /// The requested leaf index is not below the requested forest size.
    IndexOutOfRange,
}

/// The append-only Merkle Mountain Range accumulator.  It owns every node
/// digest it has ever created; peak sets and inclusion proofs for any past
/// forest size are read-only views derived from that history.
pub struct Mmr {
    /// `levels[h]` holds every height-`h` node ever created, in creation
    /// order.  An interior node is created the instant its two children
    /// exist, so level `h` always holds exactly `forest / 2^h` nodes.
    levels: Vec<Vec<Digest>>,
    /// The number of leaves appended so far.
    forest: usize,
}

impl Mmr {
    /// The history of appended leaf digests.
    pub closed spec fn leaves(&self) -> Seq<Digest> {
        if self.levels@.len() == 0 {
            Seq::empty()
        } else {
            self.levels@[0]@
        }
    }

    /// Well-formedness: every materialized level holds exactly the nodes the
    /// leaf history determines, and every level that should hold a node is
    /// materialized.
    pub closed spec fn wf(&self) -> bool {
        &&& self.forest as nat == self.leaves().len()
        &&& forall|h: int|
            0 <= h < self.levels@.len() ==> (#[trigger] self.levels@[h])@.len() == level_count(
                self.forest as nat,
                h as nat,
            )
        &&& forall|h: int, j: int|
            0 <= h < self.levels@.len() && 0 <= j < self.levels@[h]@.len() ==> (
            #[trigger] self.levels@[h]@[j]) == node_at(self.leaves(), h as nat, j as nat)
        &&& forall|h: nat|
            #[trigger] level_count(self.forest as nat, h) >= 1 ==> h < self.levels@.len()
    }

    /// A fresh, empty accumulator: forest size 0.
    pub fn new() -> (m: Mmr)
        ensures
            m.wf(),
            m.leaves() == Seq::<Digest>::empty(),
    {
        let m = Mmr { levels: Vec::new(), forest: 0 };
        proof {
            assert forall|h: nat| #[trigger] level_count(0, h) >= 1 implies h < 0 by {
                lemma_level_count_zero(h);
            }
        }
        m
    }

    /// The current forest size: the number of leaves appended so far.
    pub fn forest(&self) -> (n: usize)
        requires
            self.wf(),
        ensures
            n as nat == self.leaves().len(),
    {
        self.forest
    }

    /// Append a leaf digest.  Returns the leaf's 0-based index, equal to the
    /// forest size before the call; the forest size grows by exactly one, and
    /// interior nodes are created by merging every pair of now-complete
    /// sibling subtrees, cascading upward like a binary-counter carry.
    pub fn append(&mut self, leaf: Digest) -> (index: usize)
        requires
            old(self).wf(),
            old(self).leaves().len() < usize::MAX,
        ensures
            final(self).wf(),
            index as nat == old(self).leaves().len(),
            final(self).leaves() == old(self).leaves().push(leaf),
    {
        let index = self.forest;
        let n1 = self.forest + 1;
        let ghost l1 = old(self).leaves().push(leaf);
        proof {
            assert forall|l: int, j: int|
                0 <= l < self.levels@.len() && 0 <= j < self.levels@[l]@.len() implies (
            #[trigger] self.levels@[l]@[j]) == node_at(l1, l as nat, j as nat) by {
                lemma_node_at_prefix(old(self).leaves(), l1, l as nat, j as nat);
            }
        }
        proof {
            assert(level_count(n1 as nat, 0) == n1 as nat);
            assert(pow2n(0) == 1);
            assert(node_at(l1, 0, (n1 - 1) as nat) == l1[n1 - 1]);
        }
        let mut carry = leaf;
        let mut h: usize = 0;
        let mut done = false;
        while !done
            invariant
                n1 == old(self).forest + 1,
                self.forest == old(self).forest,
                old(self).forest as nat == old(self).leaves().len(),
                l1 == old(self).leaves().push(leaf),
                level_count(n1 as nat, h as nat) * pow2n(h as nat) == n1 as nat,
                !done ==> carry == node_at(
                    l1,
                    h as nat,
                    (level_count(n1 as nat, h as nat) - 1) as nat,
                ),
                forall|l: int|
                    0 <= l < h ==> l < self.levels@.len() && (#[trigger] self.levels@[l])@.len()
                        == level_count(n1 as nat, l as nat),
                done ==> h < self.levels@.len() && self.levels@[h as int]@.len() == level_count(
                    n1 as nat,
                    h as nat,
                ) && level_count(n1 as nat, h as nat) % 2 == 1,
                !done ==> h <= self.levels@.len(),
                !done ==> forall|l: int|
                    h <= l < self.levels@.len() ==> (#[trigger] self.levels@[l])@.len()
                        == level_count(old(self).forest as nat, l as nat),
                done ==> forall|l: int|
                    h < l < self.levels@.len() ==> (#[trigger] self.levels@[l])@.len()
                        == level_count(old(self).forest as nat, l as nat),
                forall|l: int, j: int|
                    0 <= l < self.levels@.len() && 0 <= j < self.levels@[l]@.len() ==> (
                #[trigger] self.levels@[l]@[j]) == node_at(l1, l as nat, j as nat),
                forall|l: nat|
                    #[trigger] level_count(old(self).forest as nat, l) >= 1 ==> l
                        < self.levels@.len(),
            decreases level_count(n1 as nat, h as nat), (if done { 0int } else { 1int }),
        {
            proof {
                lemma_level_count_pred(n1 as nat, h as nat);
            }
            if h == self.levels.len() {
                self.levels.push(Vec::new());
            }
            let ghost lv0 = self.levels@;
            let mut lvl = self.levels.remove(h);
            lvl.push(carry);
            let cnt = lvl.len();
            proof {
                assert(lvl@.len() - 1 == level_count(old(self).forest as nat, h as nat));
                assert(cnt as nat == level_count(n1 as nat, h as nat));
            }
            if cnt % 2 == 1 {
                self.levels.insert(h, lvl);
                proof {
                    assert(self.levels@ =~= lv0.update(h as int, self.levels@[h as int]));
                }
                done = true;
            } else {
                let a = lvl[cnt - 2];
                let b = lvl[cnt - 1];
                self.levels.insert(h, lvl);
                proof {
                    assert(self.levels@ =~= lv0.update(h as int, self.levels@[h as int]));
                }
                carry = rpo_merge(&a, &b);
                proof {
                    let c = level_count(n1 as nat, h as nat);
                    let p = pow2n(h as nat);
                    assert(level_count(n1 as nat, (h + 1) as nat) == c / 2);
                    assert((c / 2) * (2 * p) == c * p) by (nonlinear_arith)
                        requires
                            c % 2 == 0,
                            p >= 0,
                            c >= 0,
                    {};
                    assert(level_count(n1 as nat, (h + 1) as nat) * pow2n((h + 1) as nat)
                        == n1 as nat);
                    let k = (c / 2 - 1) as nat;
                    assert(2 * k == cnt - 2 && 2 * k + 1 == cnt - 1);
                    assert(a == node_at(l1, h as nat, (cnt - 2) as nat));
                    assert(b == node_at(l1, h as nat, (cnt - 1) as nat));
                    assert(carry == node_at(l1, (h + 1) as nat, k));
                    lemma_level_count_bound(n1 as nat, h as nat);
                }
                h = h + 1;
            }
        }
        self.forest = n1;
        proof {
            assert(self.leaves() =~= l1) by {
                assert(self.levels@[0]@.len() == level_count(n1 as nat, 0) == n1 as nat);
                assert(forall|j: int|
                    0 <= j < n1 ==> self.levels@[0]@[j] == node_at(l1, 0, j as nat));
            }
            assert forall|l: int| 0 <= l < self.levels@.len() implies (
            #[trigger] self.levels@[l])@.len() == level_count(n1 as nat, l as nat) by {
                if l > h {
                    lemma_level_count_carry_stop(n1 as nat, h as nat, l as nat);
                }
            }
            assert forall|l: nat| #[trigger] level_count(n1 as nat, l) >= 1 implies l
                < self.levels@.len() by {
                if l > h {
                    lemma_level_count_carry_stop(n1 as nat, h as nat, l);
                }
            }
        }
        index
    }

    /// The peak set for forest size `size`: the ordered roots of the complete
    /// subtrees that together span the first `size` leaves.  Fails with
    /// `OutOfRange` exactly when `size` exceeds the current forest size.
    pub fn peaks_at(&self, size: usize) -> (r: Result<MmrPeaks, MmrError>)
        requires
            self.wf(),
        ensures
            size as nat > self.leaves().len() ==> r == Err::<MmrPeaks, MmrError>(
                MmrError::OutOfRange,
            ),
            size as nat <= self.leaves().len() ==> (r matches Ok(ps) && ps.num_leaves == size
                && ps.peaks@ == peaks_spec(self.leaves(), size as nat)),
    {
        if size > self.forest {
            return Err(MmrError::OutOfRange);
        }
        let peaks = self.collect_peaks(size, 0);
        Ok(MmrPeaks { num_leaves: size, peaks })
    }

    /// Collect the peaks of a forest of `n` height-`h` subtree roots, tallest
    /// first, by peeling the binary decomposition of `n` from the low end.
    fn collect_peaks(&self, n: usize, h: usize) -> (out: Vec<Digest>)
        requires
            self.wf(),
            n as nat <= level_count(self.leaves().len(), h as nat),
        ensures
            out@ == peaks_from(self.leaves(), n as nat, h as nat),
        decreases n,
    {
        if n == 0 {
            Vec::new()
        } else {
            proof {
                lemma_level_count_bound(self.leaves().len(), h as nat);
                assert(level_count(self.leaves().len(), (h + 1) as nat) == level_count(
                    self.leaves().len(),
                    h as nat,
                ) / 2);
            }
            let mut out = self.collect_peaks(n / 2, h + 1);
            if n % 2 == 1 {
                let d = self.levels[h][n - 1];
                out.push(d);
                proof {
                    assert(out@ =~= peaks_from(self.leaves(), n as nat, h as nat));
                }
            }
            out
        }
    }

    /// The inclusion proof for leaf `index` as of forest size `size`: which
    /// peak covers the leaf, the leaf's position under that peak, and the
    /// sibling digests from the leaf up to the peak's root.  Fails with
    /// `IndexOutOfRange` when `index` is not below `size`, and with
    /// `OutOfRange` when `size` exceeds the current forest size.
    pub fn open_at(&self, size: usize, index: usize) -> (r: Result<MmrProof, MmrError>)
        requires
            self.wf(),
        ensures
            index >= size ==> r == Err::<MmrProof, MmrError>(MmrError::IndexOutOfRange),
            index < size && size as nat > self.leaves().len() ==> r == Err::<MmrProof, MmrError>(
                MmrError::OutOfRange,
            ),
            index < size && size as nat <= self.leaves().len() ==> (r matches Ok(p)
                && p.peak_index as nat == peak_index_spec(size as nat, index as nat)
                && p.relative_pos as nat == rel_pos_spec(size as nat, index as nat) && p.path@
                == path_spec(self.leaves(), size as nat, index as nat, 0)),
    {
        if index >= size {
            return Err(MmrError::IndexOutOfRange);
        }
        if size > self.forest {
            return Err(MmrError::OutOfRange);
        }
        let mut path: Vec<Digest> = Vec::new();
        let (peak_index, relative_pos) = self.open_rec(size, index, 0, &mut path);
        Ok(MmrProof { peak_index, relative_pos, path })
    }

    /// Walk from node `i` (of `n` nodes at height `h`) up to its peak,
    /// recording each sibling digest; returns the peak's index within the
    /// peak set and the node's position under its peak.
    fn open_rec(&self, n: usize, i: usize, h: usize, path: &mut Vec<Digest>) -> (r: (usize, usize))
        requires
            self.wf(),
            i < n,
            n as nat <= level_count(self.leaves().len(), h as nat),
        ensures
            final(path)@ == old(path)@ + path_spec(self.leaves(), n as nat, i as nat, h as nat),
            r.0 as nat == peak_index_spec(n as nat, i as nat),
            r.1 as nat == rel_pos_spec(n as nat, i as nat),
        decreases n,
    {
        if n % 2 == 1 && i == n - 1 {
            let pi = popcount_exec(n / 2);
            proof {
                assert(path@ =~= old(path)@ + path_spec(
                    self.leaves(),
                    n as nat,
                    i as nat,
                    h as nat,
                ));
            }
            (pi, 0)
        } else {
            let sib = if i % 2 == 0 {
                self.levels[h][i + 1]
            } else {
                self.levels[h][i - 1]
            };
            proof {
                assert(sib == node_at(self.leaves(), h as nat, sibling_of(i as nat)));
            }
            path.push(sib);
            proof {
                lemma_level_count_bound(self.leaves().len(), h as nat);
                assert(level_count(self.leaves().len(), (h + 1) as nat) == level_count(
                    self.leaves().len(),
                    h as nat,
                ) / 2);
            }
            let (pi, rp) = self.open_rec(n / 2, i / 2, h + 1, path);
            proof {
                lemma_rel_pos_le((n / 2) as nat, (i / 2) as nat);
                assert(path@ =~= old(path)@ + path_spec(
                    self.leaves(),
                    n as nat,
                    i as nat,
                    h as nat,
                ));
            }
            (pi, i % 2 + 2 * rp)
        }
    }
}

/// The number of ones in the binary representation of `n`.
fn popcount_exec(n: usize) -> (c: usize)
    ensures
        c as nat == popcount(n as nat),
{
    proof {
        lemma_popcount_le(n as nat);
    }
    let mut m = n;
    let mut c: usize = 0;
    while m > 0
        invariant
            c as nat + popcount(m as nat) == popcount(n as nat),
            popcount(n as nat) <= n,
        decreases m,
    {
        c = c + m % 2;
        m = m / 2;
        proof {
            lemma_popcount_le(m as nat);
        }
    }
    c
}

} // verus!
