//! The chain blocks an ATAN keeps, and the data that proves them.

use vstd::prelude::*;
use crate::hash::Hash256;
use crate::proof_single::OwnedSmtProof;
use crate::atan::errors::LaneId;

verus! {

/// What the activity digest of a transaction reads of it: its id and its version.
#[derive(Clone, Copy, Debug, PartialEq)]
pub struct Transaction {
    /// The id of the transaction.
    pub id: Hash256,
    /// The version of the transaction.
    pub version: u16,
}

/// The consensus parameters of a chain block that its sequencing commitment commits to.
#[derive(Clone, Copy, Debug, PartialEq)]
pub struct MergesetContext {
    /// The chain block's timestamp.
    pub timestamp: u64,
    /// The chain block's DAA score.
    pub daa_score: u64,
    /// The chain block's blue score.
    pub blue_score: u64,
}

/// The fields of a merged block that go into the miner payload root.
#[derive(Clone, Debug, PartialEq)]
pub struct MinerPayload {
    /// The merged block's hash.
    pub block_hash: Hash256,
    /// The merged block's blue work, as 24 big-endian bytes.
    pub blue_work: [u8; 24],
    /// The merged block's coinbase transaction payload.
    pub payload: Vec<u8>,
}

/// The fields of one transaction of a lane that go into the lane's activity digest.
#[derive(Clone, Copy, Debug, PartialEq)]
pub struct ActivityDigest {
    /// The id of the transaction.
    pub id: Hash256,
    /// The version of the transaction.
    pub version: u16,
    /// The index of the transaction in the chain block's merge set.
    pub merge_index: u32,
}

/// What proves a lane's activity digests against a sequencing commitment.
#[derive(Clone, Debug, PartialEq)]
pub struct LaneActivityProof {
    /// The blue score of the highest chain block that merged transactions in this lane.
    pub last_touched_blue_score: u64,
    /// The lane's parent reference.
    pub parent_ref: Hash256,
    /// The proof of the lane's payload in the active-lanes tree.
    pub smt_proof: OwnedSmtProof,
}

/// Two lane proofs hold the same values.
pub open spec fn lane_proof_same(a: LaneActivityProof, b: LaneActivityProof) -> bool {
    &&& a.last_touched_blue_score == b.last_touched_blue_score
    &&& a.parent_ref == b.parent_ref
    &&& a.smt_proof.bitmap == b.smt_proof.bitmap
    &&& a.smt_proof.siblings@ == b.smt_proof.siblings@
    &&& a.smt_proof.terminal == b.smt_proof.terminal
}

impl LaneActivityProof {
    /// A copy of the lane proof.
    pub fn copy_lane_proof(&self) -> (p: LaneActivityProof)
        ensures
            lane_proof_same(p, *self),
    {
        LaneActivityProof {
            last_touched_blue_score: self.last_touched_blue_score,
            parent_ref: self.parent_ref,
            smt_proof: self.smt_proof.copy_proof(),
        }
    }
}

/// The activity digests of one lane in one chain block, with their proof.
#[derive(Clone, Debug, PartialEq)]
pub struct LaneActivityDigestsWithProof {
    /// The lane.
    pub lane_id: LaneId,
    /// The activity digests of the transactions this chain block merged in the lane.
    pub activity_digests: Vec<ActivityDigest>,
    /// What proves them against the sequencing commitment.
    pub lane_proof: LaneActivityProof,
}

/// A transaction with its index in the merge set.
#[derive(Debug, PartialEq)]
pub struct TransactionWithMergeIndex {
    /// The transaction.
    pub transaction: Transaction,
    /// The index of the transaction in the merge set.
    pub merge_index: u32,
}

impl TransactionWithMergeIndex {
    /// The activity digest of the transaction: its id, its version and its merge index.
    pub fn activity_digest(&self) -> (d: ActivityDigest)
        ensures
            d == (ActivityDigest {
                id: self.transaction.id,
                version: self.transaction.version,
                merge_index: self.merge_index,
            }),
    {
        ActivityDigest {
            id: self.transaction.id,
            version: self.transaction.version,
            merge_index: self.merge_index,
        }
    }
}

/// The transactions of one lane in one chain block, with their proof.
#[derive(Debug, PartialEq)]
pub struct LaneTransactionsWithProof {
    /// The lane.
    pub lane_id: LaneId,
    /// The transactions this chain block merged in the lane.
    pub transactions: Vec<TransactionWithMergeIndex>,
    /// What proves them against the sequencing commitment.
    pub lane_proof: LaneActivityProof,
}

/// `digests` is the lane `transactions` with each transaction replaced by its activity
/// digest: same lane, same proof, one digest per transaction, each the transaction's id and
/// version with its merge index.
pub open spec fn lane_digests_of(
    transactions: LaneTransactionsWithProof,
    digests: LaneActivityDigestsWithProof,
) -> bool {
    &&& digests.lane_id == transactions.lane_id
    &&& lane_proof_same(digests.lane_proof, transactions.lane_proof)
    &&& digests.activity_digests@.len() == transactions.transactions@.len()
    &&& forall|j: int|
        0 <= j < digests.activity_digests@.len() ==> #[trigger] digests.activity_digests@[j]
            == digest_of(transactions.transactions@[j])
}

/// The activity digest of a transaction with its merge index.
pub open spec fn digest_of(t: TransactionWithMergeIndex) -> ActivityDigest {
    ActivityDigest { id: t.transaction.id, version: t.transaction.version, merge_index: t.merge_index }
}

/// `digests` holds, lane by lane, the activity digests of `transactions`.
pub open spec fn lanes_digests_of(
    transactions: Seq<LaneTransactionsWithProof>,
    digests: Seq<LaneActivityDigestsWithProof>,
) -> bool {
    &&& digests.len() == transactions.len()
    &&& forall|i: int| 0 <= i < digests.len() ==> lane_digests_of(transactions[i], #[trigger] digests[i])
}

impl LaneTransactionsWithProof {
    /// The lane with each transaction replaced by its activity digest.
    pub fn to_activity_digests(&self) -> (r: LaneActivityDigestsWithProof)
        ensures
            lane_digests_of(*self, r),
    {
        let mut activity_digests: Vec<ActivityDigest> = Vec::new();
        let mut i: usize = 0;
        while i < self.transactions.len()
            invariant
                i <= self.transactions@.len(),
                activity_digests@.len() == i,
                forall|j: int|
                    0 <= j < i ==> #[trigger] activity_digests@[j] == digest_of(self.transactions@[j]),
            decreases self.transactions@.len() - i,
        {
            activity_digests.push(self.transactions[i].activity_digest());
            i = i + 1;
        }
        LaneActivityDigestsWithProof {
            lane_id: self.lane_id,
            activity_digests,
            lane_proof: self.lane_proof.copy_lane_proof(),
        }
    }
}

/// The fields all kinds of chain block hold.
#[derive(Clone, Debug, PartialEq)]
pub struct ChainBlockBase {
    /// The hash of the chain block.
    pub block_hash: Hash256,
    /// The sequencing commitment of the chain block.
    pub sequencing_commitment: Hash256,
    /// The sequencing commitment of the chain block's selected parent.
    pub selected_parent_sequencing_commitment: Hash256,
    /// The mergeset context of the chain block.
    pub merge_set_context: MergesetContext,
    /// One miner payload per merged block, in merge order.
    pub miner_payloads: Vec<MinerPayload>,
    /// The active-lanes root.
    pub active_lanes_root: Hash256,
}

/// A chain block that keeps no transaction data.
#[derive(Clone, Debug, PartialEq)]
pub struct BareChainBlock {
    /// The common fields.
    pub base: ChainBlockBase,
    /// The active-lanes root.
    pub active_lanes_root: Hash256,
}

/// A chain block that keeps the activity digests of its transactions, grouped by lane.
#[derive(Clone, Debug, PartialEq)]
pub struct ChainBlockWithActivityDigests {
    /// The common fields.
    pub base: ChainBlockBase,
    /// One entry per lane with activity, in order.
    pub activity_digests_with_proofs: Vec<LaneActivityDigestsWithProof>,
}

/// A chain block that keeps its full transactions, grouped by lane.
#[derive(Debug, PartialEq)]
pub struct ChainBlockWithTransactions {
    /// The common fields.
    pub base: ChainBlockBase,
    /// One entry per lane with activity, in order.
    pub transactions_with_proofs: Vec<LaneTransactionsWithProof>,
}

impl ChainBlockWithTransactions {
    /// The lanes of the block with each transaction replaced by its activity digest.
    pub fn activity_digests_with_proofs(&self) -> (r: Vec<LaneActivityDigestsWithProof>)
        ensures
            lanes_digests_of(self.transactions_with_proofs@, r@),
    {
        let mut r: Vec<LaneActivityDigestsWithProof> = Vec::new();
        let mut i: usize = 0;
        while i < self.transactions_with_proofs.len()
            invariant
                i <= self.transactions_with_proofs@.len(),
                r@.len() == i,
                forall|j: int| 0 <= j < i ==> lane_digests_of(self.transactions_with_proofs@[j], #[trigger] r@[j]),
            decreases self.transactions_with_proofs@.len() - i,
        {
            r.push(self.transactions_with_proofs[i].to_activity_digests());
            i = i + 1;
        }
        r
    }
}

/// A block of the selected parent chain, in one of the three forms an ATAN keeps.
pub enum ChainBlock {
    /// Only the commitment data.
    Bare(BareChainBlock),
    /// Also the activity digests (transaction ids and versions).
    WithTransactionIDs(ChainBlockWithActivityDigests),
    /// Also the full transactions.
    WithTransactions(ChainBlockWithTransactions),
}

/// The common fields of a chain block.
pub open spec fn spec_base(chain_block: ChainBlock) -> ChainBlockBase {
    match chain_block {
        ChainBlock::Bare(b) => b.base,
        ChainBlock::WithTransactionIDs(b) => b.base,
        ChainBlock::WithTransactions(b) => b.base,
    }
}

impl ChainBlock {
    /// The common fields of this chain block.
    pub fn base(&self) -> (b: &ChainBlockBase)
        ensures
            *b == spec_base(*self),
    {
        match self {
            ChainBlock::Bare(chain_block) => &chain_block.base,
            ChainBlock::WithTransactionIDs(chain_block) => &chain_block.base,
            ChainBlock::WithTransactions(chain_block) => &chain_block.base,
        }
    }
}

} // verus!
