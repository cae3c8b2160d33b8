use crate::digest::{merge_of, Digest};
use vstd::prelude::*;

verus! {

/// Number of height-`h` subtree roots that a history of `n` leaves has ever
/// produced: `n / 2^h`, written as iterated halving.
pub open spec fn level_count(n: nat, h: nat) -> nat
    decreases h,
{
    if h == 0 {
        n
    } else {
        level_count(n, (h - 1) as nat) / 2
    }
}

/// `2^h`.
pub open spec fn pow2n(h: nat) -> nat
    decreases h,
{
    if h == 0 {
        1
    } else {
        2 * pow2n((h - 1) as nat)
    }
}

/// Number of ones in the binary representation of `n`.
pub open spec fn popcount(n: nat) -> nat
    decreases n,
{
    if n == 0 {
        0
    } else {
        popcount(n / 2) + n % 2
    }
}

/// The digest of the `j`-th height-`h` node of the forest grown from
/// `leaves`: leaves stand at height 0, and every interior node is the merge
/// of its two children.
pub open spec fn node_at(leaves: Seq<Digest>, h: nat, j: nat) -> Digest
    decreases h,
{
    if h == 0 {
        leaves[j as int]
    } else {
        merge_of(
            node_at(leaves, (h - 1) as nat, 2 * j),
            node_at(leaves, (h - 1) as nat, 2 * j + 1),
        )
    }
}

/// The peaks of a forest that has `n` subtree roots at height `h`, tallest
/// first: the unique decomposition of `n` into descending powers of two,
/// mirrored on the node values.
pub open spec fn peaks_from(leaves: Seq<Digest>, n: nat, h: nat) -> Seq<Digest>
    decreases n,
{
    if n == 0 {
        Seq::empty()
    } else if n % 2 == 1 {
        peaks_from(leaves, n / 2, h + 1) + seq![node_at(leaves, h, (n - 1) as nat)]
    } else {
        peaks_from(leaves, n / 2, h + 1)
    }
}

/// The peak set of the first `n` leaves of `leaves`, tallest peak first.
pub open spec fn peaks_spec(leaves: Seq<Digest>, n: nat) -> Seq<Digest> {
    peaks_from(leaves, n, 0)
}

/// The heights of the peaks of `peaks_from(_, n, h)`, in the same order.
pub open spec fn peak_heights_from(n: nat, h: nat) -> Seq<nat>
    decreases n,
{
    if n == 0 {
        Seq::empty()
    } else if n % 2 == 1 {
        peak_heights_from(n / 2, h + 1) + seq![h]
    } else {
        peak_heights_from(n / 2, h + 1)
    }
}

/// The index of the sibling of node `j` within its level.
pub open spec fn sibling_of(j: nat) -> nat {
    if j % 2 == 0 {
        j + 1
    } else {
        (j - 1) as nat
    }
}

/// The sibling digests met on the walk from node `i` (of `n` nodes at height
/// `h`) up to the root of its peak, bottom first.
pub open spec fn path_spec(leaves: Seq<Digest>, n: nat, i: nat, h: nat) -> Seq<Digest>
    decreases n,
{
    if n == 0 {
        Seq::empty()
    } else if n % 2 == 1 && i == (n - 1) as nat {
        Seq::empty()
    } else {
        seq![node_at(leaves, h, sibling_of(i))] + path_spec(leaves, n / 2, i / 2, h + 1)
    }
}

/// The position, within the ordered peak set, of the peak whose subtree
/// covers node `i` of `n` nodes at the current height.
pub open spec fn peak_index_spec(n: nat, i: nat) -> nat
    decreases n,
{
    if n == 0 {
        0
    } else if n % 2 == 1 && i == (n - 1) as nat {
        popcount(n / 2)
    } else {
        peak_index_spec(n / 2, i / 2)
    }
}

/// The position of leaf `i` within its peak's subtree.
pub open spec fn rel_pos_spec(n: nat, i: nat) -> nat
    decreases n,
{
    if n == 0 {
        0
    } else if n % 2 == 1 && i == (n - 1) as nat {
        0
    } else {
        i % 2 + 2 * rel_pos_spec(n / 2, i / 2)
    }
}

/// Replay a sibling path against a starting digest: at each step the bit of
/// `pos` says whether the current node is a left or a right child, and so on
/// which side the sibling is merged.
pub open spec fn fold_path(cur: Digest, path: Seq<Digest>, pos: nat) -> Digest
    decreases path.len(),
{
    if path.len() == 0 {
        cur
    } else {
        let next = if pos % 2 == 0 {
            merge_of(cur, path[0])
        } else {
            merge_of(path[0], cur)
        };
        fold_path(next, path.subrange(1, path.len() as int), pos / 2)
    }
}

/// `2^h` is positive.
pub proof fn lemma_pow2n_pos(h: nat)
    ensures
        pow2n(h) >= 1,
    decreases h,
{
    if h > 0 {
        lemma_pow2n_pos((h - 1) as nat);
    }
}

/// A level that still holds a node sits well below the leaf count.
pub proof fn lemma_level_count_bound(n: nat, h: nat)
    requires
        level_count(n, h) >= 1,
    ensures
        h + level_count(n, h) <= n,
    decreases h,
{
    if h > 0 {
        lemma_level_count_bound(n, (h - 1) as nat);
    }
}

/// Composing two climbs is one climb.
pub proof fn lemma_level_count_compose(n: nat, a: nat, b: nat)
    ensures
        level_count(n, a + b) == level_count(level_count(n, a), b),
    decreases b,
{
    if b > 0 {
        lemma_level_count_compose(n, a, (b - 1) as nat);
        assert(a + b - 1 == a + (b - 1) as nat);
    }
}

/// The count of a level never overstates the leaves below it.
pub proof fn lemma_level_count_mul_le(n: nat, h: nat)
    ensures
        level_count(n, h) * pow2n(h) <= n,
        n < (level_count(n, h) + 1) * pow2n(h),
    decreases h,
{
    if h == 0 {
    } else {
        let hp = (h - 1) as nat;
        lemma_level_count_mul_le(n, hp);
        let c = level_count(n, hp);
        let p = pow2n(hp);
        let q = level_count(n, h);
        assert(q == c / 2);
        assert(pow2n(h) == 2 * p);
        assert(c == 2 * q + c % 2);
        assert(q * (2 * p) <= c * p && (c + 1) * p <= (q + 1) * (2 * p)) by (nonlinear_arith)
            requires
                p >= 0,
                q >= 0,
                2 * q <= c,
                c + 1 <= 2 * q + 2,
        {};
        assert(c * p <= n);
        assert(n < (c + 1) * p);
    }
}

/// An empty history has nodes at no level.
pub proof fn lemma_level_count_zero(h: nat)
    ensures
        level_count(0, h) == 0,
    decreases h,
{
    if h > 0 {
        lemma_level_count_zero((h - 1) as nat);
    }
}

/// Removing one leaf from a history whose size is a multiple of `2^h`
/// removes exactly one node at height `h`.
pub proof fn lemma_level_count_pred(n: nat, h: nat)
    requires
        n >= 1,
        level_count(n, h) * pow2n(h) == n,
    ensures
        level_count(n, h) >= 1,
        level_count((n - 1) as nat, h) == level_count(n, h) - 1,
    decreases h,
{
    if h == 0 {
    } else {
        let hp = (h - 1) as nat;
        let c = level_count(n, hp);
        let cp = level_count(n, h);
        let p = pow2n(hp);
        lemma_level_count_mul_le(n, hp);
        lemma_pow2n_pos(hp);
        assert(cp == c / 2);
        assert(pow2n(h) == 2 * p);
        assert(n == cp * (2 * p));
        if c % 2 == 1 {
            assert(c == 2 * cp + 1);
            assert((2 * cp + 1) * p == cp * (2 * p) + p) by (nonlinear_arith);
            assert(c * p > n);
            assert(false);
        }
        assert(c == 2 * cp);
        assert((2 * cp) * p == cp * (2 * p)) by (nonlinear_arith);
        assert(c * p == n);
        assert(cp >= 1) by {
            if cp == 0 {
                assert(n == 0 * (2 * p));
                assert(false);
            }
        }
        lemma_level_count_pred(n, hp);
        assert(level_count((n - 1) as nat, hp) == c - 1);
        assert(level_count((n - 1) as nat, h) == (c - 1) / 2);
        assert((2 * cp - 1) / 2 == cp - 1);
    }
}

/// Once the carry of an append stops at height `h` (the node count there is
/// odd), every higher level keeps the count it had before the append.
pub proof fn lemma_level_count_carry_stop(n: nat, h: nat, l: nat)
    requires
        n >= 1,
        level_count(n, h) * pow2n(h) == n,
        level_count(n, h) % 2 == 1,
        l > h,
    ensures
        level_count((n - 1) as nat, l) == level_count(n, l),
{
    let c = level_count(n, h);
    lemma_level_count_pred(n, h);
    assert(level_count((n - 1) as nat, h) == c - 1);
    assert(level_count(n, h + 1) == c / 2);
    assert(level_count((n - 1) as nat, h + 1) == (c - 1) / 2);
    assert((c - 1) / 2 == c / 2);
    lemma_level_count_compose(n, h + 1, (l - h - 1) as nat);
    lemma_level_count_compose((n - 1) as nat, h + 1, (l - h - 1) as nat);
    assert(h + 1 + (l - h - 1) as nat == l);
}

/// A node's digest depends only on the leaves beneath it, so it is the same
/// in any extension of the history.
pub proof fn lemma_node_at_prefix(l1: Seq<Digest>, l2: Seq<Digest>, h: nat, j: nat)
    requires
        l1.len() <= l2.len(),
        forall|k: int| 0 <= k < l1.len() ==> l1[k] == l2[k],
        j < level_count(l1.len(), h),
    ensures
        node_at(l1, h, j) == node_at(l2, h, j),
    decreases h,
{
    if h > 0 {
        let hp = (h - 1) as nat;
        let c = level_count(l1.len(), hp);
        assert(j < c / 2);
        assert(2 * j + 1 < c);
        lemma_node_at_prefix(l1, l2, hp, 2 * j);
        lemma_node_at_prefix(l1, l2, hp, 2 * j + 1);
    }
}

/// A forest of `n` roots has exactly `popcount(n)` peaks.
pub proof fn lemma_peaks_from_len(leaves: Seq<Digest>, n: nat, h: nat)
    ensures
        peaks_from(leaves, n, h).len() == popcount(n),
        peak_heights_from(n, h).len() == popcount(n),
    decreases n,
{
    if n > 0 {
        lemma_peaks_from_len(leaves, n / 2, h + 1);
    }
}

/// The peak set of the first `n` leaves is the same in any extension of the
/// history: later appends never change it.
pub proof fn lemma_peaks_from_prefix(l1: Seq<Digest>, l2: Seq<Digest>, n: nat, h: nat)
    requires
        l1.len() <= l2.len(),
        forall|k: int| 0 <= k < l1.len() ==> l1[k] == l2[k],
        n <= level_count(l1.len(), h),
    ensures
        peaks_from(l1, n, h) == peaks_from(l2, n, h),
    decreases n,
{
    if n > 0 {
        assert(level_count(l1.len(), h + 1) == level_count(l1.len(), h) / 2);
        assert(n / 2 <= level_count(l1.len(), h) / 2);
        lemma_peaks_from_prefix(l1, l2, n / 2, h + 1);
        if n % 2 == 1 {
            lemma_node_at_prefix(l1, l2, h, (n - 1) as nat);
            assert(peaks_from(l1, n, h) =~= peaks_from(l2, n, h));
        } else {
            assert(peaks_from(l1, n, h) =~= peaks_from(l2, n, h));
        }
    }
}

/// `popcount(n)` never exceeds `n`.
pub proof fn lemma_popcount_le(n: nat)
    ensures
        popcount(n) <= n,
    decreases n,
{
    if n > 0 {
        lemma_popcount_le(n / 2);
    }
}

/// A leaf's position within its peak never exceeds its position in the level.
pub proof fn lemma_rel_pos_le(n: nat, i: nat)
    ensures
        rel_pos_spec(n, i) <= i,
    decreases n,
{
    if n > 0 && !(n % 2 == 1 && i == (n - 1) as nat) {
        lemma_rel_pos_le(n / 2, i / 2);
    }
}

/// Replaying the honest sibling path of node `i` reproduces exactly the peak
/// that `peak_index_spec` points at: generated proofs always verify.
pub proof fn lemma_fold_honest(leaves: Seq<Digest>, n: nat, i: nat, h: nat)
    requires
        i < n,
    ensures
        peak_index_spec(n, i) < peaks_from(leaves, n, h).len(),
        peaks_from(leaves, n, h).len() == popcount(n),
        fold_path(node_at(leaves, h, i), path_spec(leaves, n, i, h), rel_pos_spec(n, i))
            == peaks_from(leaves, n, h)[peak_index_spec(n, i) as int],
    decreases n,
{
    lemma_peaks_from_len(leaves, n, h);
    lemma_peaks_from_len(leaves, n / 2, h + 1);
    if n % 2 == 1 && i == (n - 1) as nat {
        assert(path_spec(leaves, n, i, h).len() == 0);
        assert(peaks_from(leaves, n, h)[popcount(n / 2) as int] == node_at(leaves, h, i));
    } else {
        let sib = node_at(leaves, h, sibling_of(i));
        let tail = path_spec(leaves, n / 2, i / 2, h + 1);
        let full = seq![sib] + tail;
        assert(path_spec(leaves, n, i, h) == full);
        let rel = rel_pos_spec(n, i);
        assert(rel == i % 2 + 2 * rel_pos_spec(n / 2, i / 2));
        assert(rel % 2 == i % 2 && rel / 2 == rel_pos_spec(n / 2, i / 2)) by {
            let r2 = rel_pos_spec(n / 2, i / 2);
            assert(i % 2 + 2 * r2 == rel);
            assert((i % 2 + 2 * r2) % 2 == i % 2) by (nonlinear_arith)
                requires i % 2 < 2, r2 >= 0,
            {};
            assert((i % 2 + 2 * r2) / 2 == r2) by (nonlinear_arith)
                requires i % 2 < 2, r2 >= 0,
            {};
        }
        let start = node_at(leaves, h, i);
        let merged = if rel % 2 == 0 {
            merge_of(start, sib)
        } else {
            merge_of(sib, start)
        };
        assert(merged == node_at(leaves, h + 1, i / 2)) by {
            if i % 2 == 0 {
                assert(2 * (i / 2) == i);
                assert(sibling_of(i) == i + 1);
            } else {
                assert(2 * (i / 2) == i - 1);
                assert(sibling_of(i) == i - 1);
            }
        }
        assert(full.subrange(1, full.len() as int) =~= tail);
        assert(fold_path(start, path_spec(leaves, n, i, h), rel)
            == fold_path(merged, tail, rel / 2));
        assert(i / 2 < n / 2);
        lemma_fold_honest(leaves, n / 2, i / 2, h + 1);
        if n % 2 == 1 {
            assert(peaks_from(leaves, n, h)
                == peaks_from(leaves, n / 2, h + 1) + seq![node_at(leaves, h, (n - 1) as nat)]);
            assert(peak_index_spec(n, i) < popcount(n / 2));
            assert(peaks_from(leaves, n, h)[peak_index_spec(n, i) as int]
                == peaks_from(leaves, n / 2, h + 1)[peak_index_spec(n, i) as int]);
        }
        lemma_peak_index_lt(n, i);
    }
}

/// Every leaf's peak index lies within the peak set.
pub proof fn lemma_peak_index_lt(n: nat, i: nat)
    requires
        i < n,
    ensures
        peak_index_spec(n, i) < popcount(n),
    decreases n,
{
    if n % 2 == 1 && i == (n - 1) as nat {
    } else {
        assert(i / 2 < n / 2);
        lemma_peak_index_lt(n / 2, i / 2);
    }
}

} // verus!
