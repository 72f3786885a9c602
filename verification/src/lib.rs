//! Verified sparse-Merkle-tree proofs and chain-block validation for sequencing commitments.

pub mod hash;
pub mod bitmap;
pub mod hasher;
pub mod store;
pub mod proof_single;
pub mod proof_multi;
pub mod tree;
pub mod seq_commit;
pub mod atan;
pub mod smt_laws;

pub mod multi_laws;
