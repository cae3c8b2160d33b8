//! The service-level scenarios: appending data items and querying peaks and
//! proofs through the in-process client.

use mmr_log::client::InMemoryClient;
use mmr_log::digest::hash_leaf;

#[test]
fn test_leaves() {
    let mut client = InMemoryClient::new();
    assert_eq!(client.add_data(b"hello"), 0);
    assert_eq!(client.add_data(b"goodbye"), 1);
}

#[test]
fn test_peaks() {
    let mut client = InMemoryClient::new();
    let block = client.add_data(b"a") + 1;

    let peaks = client.get_peaks(block).unwrap();
    assert_eq!(peaks.num_leaves(), 1);
    assert_eq!(peaks.num_peaks(), 1);
}

#[test]
fn test_proofs() {
    let mut client = InMemoryClient::new();
    let leaf = client.add_data(b"1");
    let block = leaf + 1;
    let peaks = client.get_peaks(block).unwrap();
    let proof = client.get_proof(block, leaf).unwrap();

    assert_eq!(proof.peak_index, 0);
    assert_eq!(proof.relative_pos, 0);
    assert!(proof.path.is_empty());
    assert!(peaks.verify(hash_leaf(b"1"), &proof));
}

#[test]
fn verify_after_append() {
    let mut client = InMemoryClient::new();
    let index = client.add_data(b"1");
    assert_eq!(index, 0);
    assert_eq!(client.verify(b"1", 0), Ok(true));
}
