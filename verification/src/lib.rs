//! An append-only Merkle Mountain Range (MMR) accumulator.
//!
//! Data items are hashed into leaf digests and appended to a growing forest of
//! perfect binary trees.  For any historical forest size the accumulator can
//! produce the ordered set of subtree roots (the peaks) and a compact
//! inclusion proof for any leaf, and a peak set can check such a proof against
//! a leaf digest.  The hash primitive is RPO-256, reached through a small
//! trusted boundary; everything else is verified.

pub mod client;
pub mod digest;
pub mod laws;
pub mod mmr;
pub mod model;
pub mod peaks;
