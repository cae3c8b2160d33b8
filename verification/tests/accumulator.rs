//! Properties of the accumulator itself: index assignment, peak counts,
//! round trips, proof tampering, monotonicity and boundary behaviour.

use mmr_log::client::InMemoryClient;
use mmr_log::digest::{hash_leaf, Digest};
use mmr_log::mmr::{Mmr, MmrError};

fn filled(items: &[&[u8]]) -> Mmr {
    let mut mmr = Mmr::new();
    for item in items {
        mmr.append(hash_leaf(item));
    }
    mmr
}

#[test]
fn indices_in_call_order() {
    let mut client = InMemoryClient::new();
    assert_eq!(client.add_data(b"hello"), 0);
    assert_eq!(client.add_data(b"goodbye"), 1);
    assert_eq!(client.add_data(b"again"), 2);
    assert_eq!(client.forest(), 3);
}

#[test]
fn three_leaves_two_peaks() {
    let mmr = filled(&[b"x" as &[u8], b"y", b"z"]);
    assert_eq!(mmr.forest(), 3);

    let peaks = mmr.peaks_at(3).unwrap();
    assert_eq!(peaks.num_leaves(), 3);
    assert_eq!(peaks.num_peaks(), 2);

    // the lone height-0 peak: leaf 2, with nothing on its path
    let proof = mmr.open_at(3, 2).unwrap();
    assert_eq!(proof.peak_index, 1);
    assert!(proof.path.is_empty());
    assert!(peaks.verify(hash_leaf(b"z"), &proof));

    // leaf 0 sits under the height-1 peak, beside leaf 1
    let proof = mmr.open_at(3, 0).unwrap();
    assert_eq!(proof.peak_index, 0);
    assert_eq!(proof.path.len(), 1);
    assert_eq!(proof.path[0], hash_leaf(b"y"));
    assert!(peaks.verify(hash_leaf(b"x"), &proof));
}

#[test]
fn num_peaks_is_popcount() {
    let items: Vec<Vec<u8>> = (0u8..13).map(|b| vec![b]).collect();
    let mut mmr = Mmr::new();
    assert_eq!(mmr.peaks_at(0).unwrap().num_peaks(), 0);
    for (k, item) in items.iter().enumerate() {
        mmr.append(hash_leaf(item));
        let n = k + 1;
        assert_eq!(mmr.peaks_at(n).unwrap().num_peaks() as u32, (n as u32).count_ones());
    }
}

#[test]
fn round_trip_all_leaves() {
    let items: [&[u8]; 5] = [b"a", b"b", b"c", b"d", b"e"];
    let mut client = InMemoryClient::new();
    for item in items {
        client.add_data(item);
    }
    // through the facade, at forest size index + 1
    for (i, item) in items.iter().enumerate() {
        assert_eq!(client.verify(item, i), Ok(true));
    }
    // and against every later snapshot
    let mmr = filled(&items);
    for n in 1..=items.len() {
        let peaks = mmr.peaks_at(n).unwrap();
        for (i, item) in items.iter().enumerate().take(n) {
            let proof = mmr.open_at(n, i).unwrap();
            assert!(peaks.verify(hash_leaf(item), &proof));
        }
    }
}

#[test]
fn tampered_proofs_fail() {
    let mmr = filled(&[b"x" as &[u8], b"y", b"z"]);
    let peaks = mmr.peaks_at(3).unwrap();
    let proof = mmr.open_at(3, 0).unwrap();
    let leaf = hash_leaf(b"x");
    assert!(peaks.verify(leaf, &proof));

    // flip single bits in the sibling digest
    for bit in [0u32, 17, 63] {
        let mut bad = proof.clone();
        bad.path[0].w0 ^= 1u64 << bit;
        assert!(!peaks.verify(leaf, &bad));
        let mut bad = proof.clone();
        bad.path[0].w3 ^= 1u64 << bit;
        assert!(!peaks.verify(leaf, &bad));
    }

    // flip single bits in the leaf digest
    for bit in [0u32, 31, 63] {
        let mut bad_leaf = leaf;
        bad_leaf.w1 ^= 1u64 << bit;
        assert!(!peaks.verify(bad_leaf, &proof));
    }

    // flip bits in the peak index: to the other peak, and out of bounds
    let mut bad = proof.clone();
    bad.peak_index ^= 1;
    assert!(!peaks.verify(leaf, &bad));
    let mut bad = proof.clone();
    bad.peak_index ^= 2;
    assert!(!peaks.verify(leaf, &bad));

    // flip the orientation bit of the walk
    let mut bad = proof.clone();
    bad.relative_pos ^= 1;
    assert!(!peaks.verify(leaf, &bad));
}

#[test]
fn peaks_never_change_for_a_size() {
    let mut mmr = Mmr::new();
    mmr.append(hash_leaf(b"one"));
    mmr.append(hash_leaf(b"two"));
    let before = mmr.peaks_at(2).unwrap();
    for extra in [b"three".as_slice(), b"four", b"five"] {
        mmr.append(hash_leaf(extra));
        let after = mmr.peaks_at(2).unwrap();
        assert_eq!(after.num_leaves(), before.num_leaves());
        assert_eq!(after.peaks, before.peaks);
    }
}

#[test]
fn boundaries() {
    let mut mmr = Mmr::new();
    let empty = mmr.peaks_at(0).unwrap();
    assert_eq!(empty.num_leaves(), 0);
    assert_eq!(empty.num_peaks(), 0);
    assert_eq!(mmr.peaks_at(1).unwrap_err(), MmrError::OutOfRange);

    mmr.append(hash_leaf(b"only"));
    assert_eq!(mmr.open_at(1, 1).unwrap_err(), MmrError::IndexOutOfRange);
    assert_eq!(mmr.open_at(0, 0).unwrap_err(), MmrError::IndexOutOfRange);
    assert_eq!(mmr.open_at(2, 1).unwrap_err(), MmrError::OutOfRange);
    assert_eq!(mmr.peaks_at(2).unwrap_err(), MmrError::OutOfRange);

    let client = InMemoryClient::new();
    assert_eq!(client.verify(b"anything", 0).unwrap_err(), MmrError::OutOfRange);
}

#[test]
fn digests_are_not_passthrough() {
    // distinct inputs hash apart, and a merged root differs from both leaves
    assert_ne!(hash_leaf(b"a"), hash_leaf(b"b"));
    assert_ne!(hash_leaf(b"a"), Digest { w0: 0, w1: 0, w2: 0, w3: 0 });

    let mmr = filled(&[b"first" as &[u8], b"second"]);
    let peaks = mmr.peaks_at(2).unwrap();
    assert_eq!(peaks.num_peaks(), 1);
    let root = peaks.peaks[0];
    assert_ne!(root, hash_leaf(b"first"));
    assert_ne!(root, hash_leaf(b"second"));

    // a wrong item under a right index does not verify
    let proof = mmr.open_at(2, 0).unwrap();
    assert!(peaks.verify(hash_leaf(b"first"), &proof));
    assert!(!peaks.verify(hash_leaf(b"second"), &proof));
}
