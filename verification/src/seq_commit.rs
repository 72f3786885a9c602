//! The hash functions of sequencing commitments, as `kaspa_seq_commit` computes them.
//!
//! Each function here makes one call into `kaspa_seq_commit::hashing`. What the call returns
//! is a domain-separated BLAKE3 hash (or a Merkle root of such hashes) of its inputs; it is
//! named by an uninterpreted spec function of those inputs.

use vstd::prelude::*;
use crate::hash::Hash256;

verus! {

/// `kaspa_seq_commit::hashing::lane_key` of a lane id.
pub uninterp spec fn lane_key_digest(lane_id: [u8; 20]) -> [u8; 32];

/// `kaspa_seq_commit::hashing::activity_leaf` of a transaction id, version and merge index.
pub uninterp spec fn activity_leaf_digest(tx_id: [u8; 32], version: u16, merge_index: u32) -> [u8; 32];

/// `kaspa_seq_commit::hashing::activity_digest_lane` of a sequence of activity leaves.
pub uninterp spec fn activity_digest_lane_digest(leaves: Seq<[u8; 32]>) -> [u8; 32];

/// `kaspa_seq_commit::hashing::lane_tip_next` of a parent reference, lane key, activity digest
/// and context hash.
pub uninterp spec fn lane_tip_digest(
    parent_ref: [u8; 32],
    lane_key: [u8; 32],
    activity_digest: [u8; 32],
    context_hash: [u8; 32],
) -> [u8; 32];

/// `kaspa_seq_commit::hashing::mergeset_context_hash` of a timestamp, DAA score and blue score.
pub uninterp spec fn mergeset_context_digest(timestamp: u64, daa_score: u64, blue_score: u64) -> [u8; 32];

/// `kaspa_seq_commit::hashing::miner_payload_leaf` of a block hash, big-endian blue work bytes
/// and coinbase payload.
pub uninterp spec fn miner_payload_leaf_digest(
    block_hash: [u8; 32],
    blue_work_be_bytes: Seq<u8>,
    payload: Seq<u8>,
) -> [u8; 32];

/// `kaspa_seq_commit::hashing::miner_payload_root` of a sequence of miner payload leaves.
pub uninterp spec fn miner_payload_root_digest(leaves: Seq<[u8; 32]>) -> [u8; 32];

/// `kaspa_seq_commit::hashing::smt_leaf_hash` of a lane tip and blue score.
pub uninterp spec fn smt_leaf_digest(lane_tip: [u8; 32], blue_score: u64) -> [u8; 32];

/// `kaspa_seq_commit::hashing::payload_and_context_digest` of a context hash and payload root.
pub uninterp spec fn payload_and_context_digest_of(context_hash: [u8; 32], payload_root: [u8; 32]) -> [u8; 32];

/// `kaspa_seq_commit::hashing::seq_state_root` of an activity root and payload-and-context digest.
pub uninterp spec fn seq_state_root_digest(activity_root: [u8; 32], payload_and_ctx_digest: [u8; 32]) -> [u8; 32];

/// `kaspa_seq_commit::hashing::seq_commit` of a parent commitment and state root.
pub uninterp spec fn seq_commit_digest(parent_seq_commit: [u8; 32], state_root: [u8; 32]) -> [u8; 32];

/// Calls `kaspa_seq_commit::hashing::lane_key`; trusted to return [`lane_key_digest`].
#[verifier::external_body]
pub(crate) fn lane_key(lane_id: &[u8; 20]) -> (h: Hash256)
    ensures
        h.0 == lane_key_digest(*lane_id),
{
    Hash256(kaspa_seq_commit::hashing::lane_key(lane_id).as_bytes())
}

/// Calls `kaspa_seq_commit::hashing::activity_leaf`; trusted to return [`activity_leaf_digest`].
#[verifier::external_body]
pub(crate) fn activity_leaf(tx_id: &Hash256, version: u16, merge_index: u32) -> (h: Hash256)
    ensures
        h.0 == activity_leaf_digest(tx_id.0, version, merge_index),
{
    Hash256(
        kaspa_seq_commit::hashing::activity_leaf(&kaspa_hashes::Hash::from_bytes(tx_id.0), version, merge_index).as_bytes(),
    )
}

/// Calls `kaspa_seq_commit::hashing::activity_digest_lane` on the leaves in order; trusted to
/// return [`activity_digest_lane_digest`] of their bytes.
#[verifier::external_body]
pub(crate) fn activity_digest_lane(leaves: &[Hash256]) -> (h: Hash256)
    ensures
        h.0 == activity_digest_lane_digest(leaves@.map_values(|l: Hash256| l.0)),
{
    Hash256(
        kaspa_seq_commit::hashing::activity_digest_lane(
            leaves.iter().map(|l| kaspa_hashes::Hash::from_bytes(l.0)),
        ).as_bytes(),
    )
}

/// Calls `kaspa_seq_commit::hashing::lane_tip_next`; trusted to return [`lane_tip_digest`].
#[verifier::external_body]
pub(crate) fn lane_tip_next(
    parent_ref: &Hash256,
    lane_key: &Hash256,
    activity_digest: &Hash256,
    context_hash: &Hash256,
) -> (h: Hash256)
    ensures
        h.0 == lane_tip_digest(parent_ref.0, lane_key.0, activity_digest.0, context_hash.0),
{
    Hash256(
        kaspa_seq_commit::hashing::lane_tip_next(
            &kaspa_seq_commit::types::LaneTipInput {
                parent_ref: &kaspa_hashes::Hash::from_bytes(parent_ref.0),
                lane_key: &kaspa_hashes::Hash::from_bytes(lane_key.0),
                activity_digest: &kaspa_hashes::Hash::from_bytes(activity_digest.0),
                context_hash: &kaspa_hashes::Hash::from_bytes(context_hash.0),
            },
        ).as_bytes(),
    )
}

/// Calls `kaspa_seq_commit::hashing::mergeset_context_hash`; trusted to return
/// [`mergeset_context_digest`].
#[verifier::external_body]
pub(crate) fn mergeset_context_hash(timestamp: u64, daa_score: u64, blue_score: u64) -> (h: Hash256)
    ensures
        h.0 == mergeset_context_digest(timestamp, daa_score, blue_score),
{
    Hash256(
        kaspa_seq_commit::hashing::mergeset_context_hash(
            &kaspa_seq_commit::types::MergesetContext { timestamp, daa_score, blue_score },
        ).as_bytes(),
    )
}

/// Calls `kaspa_seq_commit::hashing::miner_payload_leaf`; trusted to return
/// [`miner_payload_leaf_digest`].
#[verifier::external_body]
pub(crate) fn miner_payload_leaf(block_hash: &Hash256, blue_work_be_bytes: &[u8], payload: &[u8]) -> (h: Hash256)
    ensures
        h.0 == miner_payload_leaf_digest(block_hash.0, blue_work_be_bytes@, payload@),
{
    Hash256(
        kaspa_seq_commit::hashing::miner_payload_leaf(
            kaspa_seq_commit::types::MinerPayloadLeafInput {
                block_hash: &kaspa_hashes::Hash::from_bytes(block_hash.0),
                blue_work_be_bytes,
                payload,
            },
        ).as_bytes(),
    )
}

/// Calls `kaspa_seq_commit::hashing::miner_payload_root` on the leaves in order; trusted to
/// return [`miner_payload_root_digest`] of their bytes.
#[verifier::external_body]
pub(crate) fn miner_payload_root(leaves: &[Hash256]) -> (h: Hash256)
    ensures
        h.0 == miner_payload_root_digest(leaves@.map_values(|l: Hash256| l.0)),
{
    Hash256(
        kaspa_seq_commit::hashing::miner_payload_root(
            leaves.iter().map(|l| kaspa_hashes::Hash::from_bytes(l.0)),
        ).as_bytes(),
    )
}

/// Calls `kaspa_seq_commit::hashing::smt_leaf_hash`; trusted to return [`smt_leaf_digest`].
#[verifier::external_body]
pub(crate) fn smt_leaf_hash(lane_tip: &Hash256, blue_score: u64) -> (h: Hash256)
    ensures
        h.0 == smt_leaf_digest(lane_tip.0, blue_score),
{
    Hash256(
        kaspa_seq_commit::hashing::smt_leaf_hash(
            &kaspa_seq_commit::types::SmtLeafInput {
                lane_tip: &kaspa_hashes::Hash::from_bytes(lane_tip.0),
                blue_score,
            },
        ).as_bytes(),
    )
}

/// Calls `kaspa_seq_commit::hashing::payload_and_context_digest`; trusted to return
/// [`payload_and_context_digest_of`].
#[verifier::external_body]
pub(crate) fn payload_and_context_digest(context_hash: &Hash256, payload_root: &Hash256) -> (h: Hash256)
    ensures
        h.0 == payload_and_context_digest_of(context_hash.0, payload_root.0),
{
    Hash256(
        kaspa_seq_commit::hashing::payload_and_context_digest(
            &kaspa_hashes::Hash::from_bytes(context_hash.0),
            &kaspa_hashes::Hash::from_bytes(payload_root.0),
        ).as_bytes(),
    )
}

/// Calls `kaspa_seq_commit::hashing::seq_state_root`; trusted to return [`seq_state_root_digest`].
#[verifier::external_body]
pub(crate) fn seq_state_root(activity_root: &Hash256, payload_and_ctx_digest: &Hash256) -> (h: Hash256)
    ensures
        h.0 == seq_state_root_digest(activity_root.0, payload_and_ctx_digest.0),
{
    Hash256(
        kaspa_seq_commit::hashing::seq_state_root(
            &kaspa_seq_commit::types::SeqState {
                activity_root: &kaspa_hashes::Hash::from_bytes(activity_root.0),
                payload_and_ctx_digest: &kaspa_hashes::Hash::from_bytes(payload_and_ctx_digest.0),
            },
        ).as_bytes(),
    )
}

/// Calls `kaspa_seq_commit::hashing::seq_commit`; trusted to return [`seq_commit_digest`].
#[verifier::external_body]
pub(crate) fn seq_commit(parent_seq_commit: &Hash256, state_root: &Hash256) -> (h: Hash256)
    ensures
        h.0 == seq_commit_digest(parent_seq_commit.0, state_root.0),
{
    Hash256(
        kaspa_seq_commit::hashing::seq_commit(
            &kaspa_seq_commit::types::SeqCommitInput {
                parent_seq_commit: &kaspa_hashes::Hash::from_bytes(parent_seq_commit.0),
                state_root: &kaspa_hashes::Hash::from_bytes(state_root.0),
            },
        ).as_bytes(),
    )
}

} // verus!
