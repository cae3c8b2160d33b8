use crate::digest::Digest;
use crate::model::{
    fold_path, lemma_fold_honest, lemma_peaks_from_len, lemma_peaks_from_prefix, node_at,
    path_spec, peak_heights_from, peak_index_spec, peaks_spec, popcount, pow2n, rel_pos_spec,
};
use vstd::prelude::*;

verus! {

/// The total number of leaves covered by a sequence of peak heights: each
/// peak of height `h` spans a complete subtree of `2^h` leaves.
pub open spec fn covered_leaves(heights: Seq<nat>) -> nat
    decreases heights.len(),
{
    if heights.len() == 0 {
        0
    } else {
        covered_leaves(heights.drop_last()) + pow2n(heights.last())
    }
}

proof fn lemma_covered_push(heights: Seq<nat>, h: nat)
    ensures
        covered_leaves(heights.push(h)) == covered_leaves(heights) + pow2n(h),
{
    assert(heights.push(h).drop_last() =~= heights);
}

proof fn lemma_covered_scaled(n: nat, h: nat)
    ensures
        covered_leaves(peak_heights_from(n, h)) == n * pow2n(h),
    decreases n,
{
    if n == 0 {
        assert(0 * pow2n(h) == 0) by (nonlinear_arith);
    } else {
        lemma_covered_scaled(n / 2, h + 1);
        let upper = peak_heights_from(n / 2, h + 1);
        if n % 2 == 1 {
            assert(peak_heights_from(n, h) =~= upper.push(h));
            lemma_covered_push(upper, h);
        } else {
            assert(peak_heights_from(n, h) =~= upper);
        }
        let q = n / 2;
        let r = n % 2;
        let p = pow2n(h);
        assert(pow2n(h + 1) == 2 * p);
        assert(n == 2 * q + r);
        assert(q * (2 * p) + r * p == (2 * q + r) * p) by (nonlinear_arith);
    }
}

/// A peak set for forest size `n` has exactly `popcount(n)` peaks, and the
/// leaf counts of the peaks' complete subtrees sum to exactly `n`.
pub proof fn lemma_peak_decomposition(leaves: Seq<Digest>, n: nat)
    ensures
        peaks_spec(leaves, n).len() == popcount(n),
        peak_heights_from(n, 0).len() == popcount(n),
        covered_leaves(peak_heights_from(n, 0)) == n,
{
    lemma_peaks_from_len(leaves, n, 0);
    lemma_covered_scaled(n, 0);
    assert(n * 1 == n) by (nonlinear_arith);
}

/// Round trip: replaying the honestly generated proof for leaf `i` of the
/// first `n` leaves, starting from that leaf's own digest, lands exactly on
/// the peak the proof points at — so `verify` accepts it.
pub proof fn lemma_round_trip(leaves: Seq<Digest>, n: nat, i: nat)
    requires
        i < n,
        n <= leaves.len(),
    ensures
        peak_index_spec(n, i) < peaks_spec(leaves, n).len(),
        fold_path(leaves[i as int], path_spec(leaves, n, i, 0), rel_pos_spec(n, i)) == peaks_spec(
            leaves,
            n,
        )[peak_index_spec(n, i) as int],
{
    assert(node_at(leaves, 0, i) == leaves[i as int]);
    lemma_fold_honest(leaves, n, i, 0);
}

/// Monotonicity: the peak set computed for forest size `n` depends only on
/// the first `n` leaves, so later appends never change it.
pub proof fn lemma_peaks_monotonic(earlier: Seq<Digest>, later: Seq<Digest>, n: nat)
    requires
        n <= earlier.len(),
        earlier.len() <= later.len(),
        forall|k: int| 0 <= k < earlier.len() ==> earlier[k] == later[k],
    ensures
        peaks_spec(earlier, n) == peaks_spec(later, n),
{
    lemma_peaks_from_prefix(earlier, later, n, 0);
}

} // verus!
