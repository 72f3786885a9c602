//! Validation of chain blocks: recomputing the sequencing commitment from a block's data.
//!
//! The expected sequencing commitment of a block is computed as follows:
//! 1. the mergeset context hash and the miner payload root give the state root;
//! 2. the active-lanes root is stored in a bare block; otherwise it is computed from the lanes
//!    of the block: a single-lane validator wants exactly its own lane, an all-lane validator
//!    wants at least one lane; the first lane's tip and proof give the root, and every other
//!    lane must give the same root;
//! 3. the active-lanes root and the state root give the sequencing state root;
//! 4. with the selected parent's sequencing commitment it gives the block's commitment,
//!    which must equal the stated one.

use vstd::prelude::*;
use crate::hash::{Hash256, hash_eq};
use crate::hasher::SeqCommitActiveNode;
use crate::proof_single::{SmtProofError, single_proof_result};
use crate::seq_commit::{
    activity_digest_lane, activity_digest_lane_digest, activity_leaf, activity_leaf_digest, lane_key,
    lane_key_digest, lane_tip_digest, lane_tip_next, mergeset_context_digest, mergeset_context_hash,
    miner_payload_leaf, miner_payload_leaf_digest, miner_payload_root, miner_payload_root_digest,
    payload_and_context_digest, payload_and_context_digest_of, seq_commit, seq_commit_digest,
    seq_state_root, seq_state_root_digest, smt_leaf_digest, smt_leaf_hash,
};
use crate::atan::errors::{AtanError, AtanResult, Actual, Expected, LaneId, ValidationError};
use crate::atan::model::{
    ActivityDigest, ChainBlock, ChainBlockBase, ChainBlockWithActivityDigests, ChainBlockWithTransactions,
    LaneActivityDigestsWithProof, LaneTransactionsWithProof, MergesetContext, MinerPayload, lane_digests_of,
    lanes_digests_of, spec_base,
};

verus! {

/// The mergeset context hash of a context.
pub open spec fn spec_mergeset_context_hash(ctx: MergesetContext) -> Hash256 {
    Hash256(mergeset_context_digest(ctx.timestamp, ctx.daa_score, ctx.blue_score))
}

/// The miner payload leaf of a payload.
pub open spec fn spec_miner_payload_leaf(p: MinerPayload) -> [u8; 32] {
    miner_payload_leaf_digest(p.block_hash.0, p.blue_work@, p.payload@)
}

/// The miner payload root of a sequence of payloads.
pub open spec fn spec_miner_payloads_root(payloads: Seq<MinerPayload>) -> Hash256 {
    Hash256(miner_payload_root_digest(payloads.map_values(|p: MinerPayload| spec_miner_payload_leaf(p))))
}

/// The activity leaf of an activity digest.
pub open spec fn spec_activity_leaf(d: ActivityDigest) -> [u8; 32] {
    activity_leaf_digest(d.id.0, d.version, d.merge_index)
}

/// The activity digest of a lane's sequence of activity digests.
pub open spec fn spec_activity_digests_root(ds: Seq<ActivityDigest>) -> Hash256 {
    Hash256(activity_digest_lane_digest(ds.map_values(|d: ActivityDigest| spec_activity_leaf(d))))
}

/// The key of a lane in the active-lanes tree.
pub open spec fn spec_lane_key(lane_id: LaneId) -> Hash256 {
    Hash256(lane_key_digest(lane_id))
}

/// The payload of a lane in the active-lanes tree: the leaf hash of the lane's next tip (from
/// its parent reference, key, activity digest and the mergeset context hash) with its last
/// touched blue score.
pub open spec fn spec_lane_payload(lane: LaneActivityDigestsWithProof, context_hash: Hash256) -> Hash256 {
    let lane_key = spec_lane_key(lane.lane_id);
    let tip = lane_tip_digest(
        lane.lane_proof.parent_ref.0,
        lane_key.0,
        spec_activity_digests_root(lane.activity_digests@).0,
        context_hash.0,
    );
    Hash256(smt_leaf_digest(tip, lane.lane_proof.last_touched_blue_score))
}

/// The active-lanes root that one lane's proof implies for the lane's payload.
pub open spec fn spec_lane_active_lanes_root(
    lane: LaneActivityDigestsWithProof,
    context_hash: Hash256,
) -> Result<Hash256, SmtProofError> {
    single_proof_result::<SeqCommitActiveNode>(
        lane.lane_proof.smt_proof.bitmap@,
        lane.lane_proof.smt_proof.siblings@,
        lane.lane_proof.smt_proof.terminal,
        spec_lane_key(lane.lane_id),
        Some(spec_lane_payload(lane, context_hash)),
    )
}

/// The active-lanes root that lanes `i..` of `lanes` confirm: each must imply `first`.
pub open spec fn spec_rest_lanes_root(
    lanes: Seq<LaneActivityDigestsWithProof>,
    context_hash: Hash256,
    first: Hash256,
    i: int,
) -> AtanResult<Hash256>
    decreases lanes.len() - i,
{
    if i >= lanes.len() {
        Ok(first)
    } else {
        match spec_lane_active_lanes_root(lanes[i], context_hash) {
            Err(e) => Err(AtanError::Validation(ValidationError::InvalidLaneSMTProof(e))),
            Ok(root) => if root != first {
                Err(
                    AtanError::Validation(
                        ValidationError::UnmatchingActiveLanesRootForDifferentLanes(
                            lanes[0].lane_id,
                            first,
                            lanes[i].lane_id,
                            root,
                        ),
                    ),
                )
            } else {
                spec_rest_lanes_root(lanes, context_hash, first, i + 1)
            },
        }
    }
}

/// The active-lanes root that the lanes of a block imply, for a validator of `lane_id`
/// (`None` for all lanes): the lane checks, then the root of the first lane, confirmed by
/// every other lane.
pub open spec fn spec_active_lanes_root(
    lane_id: Option<LaneId>,
    lanes: Seq<LaneActivityDigestsWithProof>,
    context_hash: Hash256,
) -> AtanResult<Hash256> {
    let check: Option<AtanError> = match lane_id {
        Some(expected) => if lanes.len() != 1 {
            Some(
                AtanError::Validation(
                    ValidationError::InvalidNumberOfLanesWithActivityDigests(
                        Actual(lanes.len() as usize),
                    ),
                ),
            )
        } else if lanes[0].lane_id != expected {
            Some(
                AtanError::Validation(
                    ValidationError::InvalidLaneID(Expected(expected), Actual(lanes[0].lane_id)),
                ),
            )
        } else {
            None
        },
        None => if lanes.len() == 0 {
            Some(AtanError::Validation(ValidationError::EmptyLanesWithActivityDigests))
        } else {
            None
        },
    };
    match check {
        Some(e) => Err(e),
        None => match spec_lane_active_lanes_root(lanes[0], context_hash) {
            Err(e) => Err(AtanError::Validation(ValidationError::InvalidLaneSMTProof(e))),
            Ok(first) => spec_rest_lanes_root(lanes, context_hash, first, 1),
        },
    }
}

/// The state root of a block: its mergeset context hash with its miner payload root.
pub open spec fn spec_state_root(base: ChainBlockBase) -> Hash256 {
    Hash256(
        payload_and_context_digest_of(
            spec_mergeset_context_hash(base.merge_set_context).0,
            spec_miner_payloads_root(base.miner_payloads@).0,
        ),
    )
}

/// The sequencing commitment of a block with the given active-lanes root: the sequencing
/// state root (active-lanes root with state root) committed on top of the selected parent's
/// sequencing commitment.
pub open spec fn spec_commitment(base: ChainBlockBase, active_lanes_root: Hash256) -> Hash256 {
    Hash256(
        seq_commit_digest(
            base.selected_parent_sequencing_commitment.0,
            seq_state_root_digest(active_lanes_root.0, spec_state_root(base).0),
        ),
    )
}

/// The sequencing commitment a block implies, given what its active-lanes root came to.
pub open spec fn spec_commitment_result(
    base: ChainBlockBase,
    active_lanes_root: AtanResult<Hash256>,
) -> AtanResult<Hash256> {
    match active_lanes_root {
        Err(e) => Err(e),
        Ok(root) => Ok(spec_commitment(base, root)),
    }
}

/// The outcome of validating a block whose expected commitment came to `commitment`: valid
/// exactly when the stated commitment equals it.
pub open spec fn spec_validation(base: ChainBlockBase, commitment: AtanResult<Hash256>) -> AtanResult<()> {
    match commitment {
        Err(e) => Err(e),
        Ok(c) => if base.sequencing_commitment == c {
            Ok(())
        } else {
            Err(
                AtanError::Validation(
                    ValidationError::InvalidSequencingCommitment(
                        Expected(c),
                        Actual(base.sequencing_commitment),
                    ),
                ),
            )
        },
    }
}

/// `r` is what the expected sequencing commitment of `chain_block` comes to, for a validator
/// of `lane_id`: a bare block's stored active-lanes root; the active-lanes root of the lanes
/// of a block with activity digests; and for a block with transactions, the active-lanes root
/// of its lanes with each transaction replaced by its activity digest.
pub open spec fn commitment_outcome(
    lane_id: Option<LaneId>,
    chain_block: ChainBlock,
    r: AtanResult<Hash256>,
) -> bool {
    let base = spec_base(chain_block);
    let ctx = spec_mergeset_context_hash(base.merge_set_context);
    match chain_block {
        ChainBlock::Bare(b) => r == spec_commitment_result(base, Ok(b.active_lanes_root)),
        ChainBlock::WithTransactionIDs(b) => r == spec_commitment_result(
            base,
            spec_active_lanes_root(lane_id, b.activity_digests_with_proofs@, ctx),
        ),
        ChainBlock::WithTransactions(b) => exists|lanes: Seq<LaneActivityDigestsWithProof>|
            lanes_digests_of(b.transactions_with_proofs@, lanes) && r == spec_commitment_result(
                base,
                spec_active_lanes_root(lane_id, lanes, ctx),
            ),
    }
}

/// `r` is the outcome of validating `chain_block` for a validator of `lane_id`: the
/// commitment outcome (see [`commitment_outcome`]) checked against the stated commitment.
pub open spec fn validation_outcome(lane_id: Option<LaneId>, chain_block: ChainBlock, r: AtanResult<()>) -> bool {
    exists|c: AtanResult<Hash256>|
        commitment_outcome(lane_id, chain_block, c) && r == spec_validation(spec_base(chain_block), c)
}

impl MergesetContext {
    /// The mergeset context hash.
    pub fn hash(&self) -> (h: Hash256)
        ensures
            h == spec_mergeset_context_hash(*self),
    {
        mergeset_context_hash(self.timestamp, self.daa_score, self.blue_score)
    }
}

/// The miner payload root of `payloads`.
pub fn miner_payloads_root(payloads: &[MinerPayload]) -> (h: Hash256)
    ensures
        h == spec_miner_payloads_root(payloads@),
        h == Hash256(
            miner_payload_root_digest(
                Seq::new(
                    payloads@.len(),
                    |i: int|
                        miner_payload_leaf_digest(
                            payloads@[i].block_hash.0,
                            payloads@[i].blue_work@,
                            payloads@[i].payload@,
                        ),
                ),
            ),
        ),
{
    proof {
        law_miner_payloads_root_has_a_leaf_per_payload(payloads@);
    }
    let mut leaves: Vec<Hash256> = Vec::new();
    let mut i: usize = 0;
    while i < payloads.len()
        invariant
            i <= payloads@.len(),
            leaves@.len() == i,
            forall|j: int| 0 <= j < i ==> (#[trigger] leaves@[j]).0 == spec_miner_payload_leaf(payloads@[j]),
        decreases payloads@.len() - i,
    {
        let p = &payloads[i];
        leaves.push(miner_payload_leaf(&p.block_hash, &p.blue_work, p.payload.as_slice()));
        i = i + 1;
    }
    assert(leaves@.map_values(|l: Hash256| l.0) =~= payloads@.map_values(
        |p: MinerPayload| spec_miner_payload_leaf(p),
    ));
    miner_payload_root(leaves.as_slice())
}

/// The activity digest of a lane's activity digests.
pub fn activity_digests_root(ds: &[ActivityDigest]) -> (h: Hash256)
    ensures
        h == spec_activity_digests_root(ds@),
{
    let mut leaves: Vec<Hash256> = Vec::new();
    let mut i: usize = 0;
    while i < ds.len()
        invariant
            i <= ds@.len(),
            leaves@.len() == i,
            forall|j: int| 0 <= j < i ==> (#[trigger] leaves@[j]).0 == spec_activity_leaf(ds@[j]),
        decreases ds@.len() - i,
    {
        let d = ds[i];
        leaves.push(activity_leaf(&d.id, d.version, d.merge_index));
        i = i + 1;
    }
    assert(leaves@.map_values(|l: Hash256| l.0) =~= ds@.map_values(|d: ActivityDigest| spec_activity_leaf(d)));
    activity_digest_lane(leaves.as_slice())
}

/// Computes the active-lanes root that one lane implies: the lane's payload (see
/// [`spec_lane_payload`]) put through the lane's proof, under the lane's key.
pub fn calculate_active_lanes_root_for_lane(
    lane_activity_digests_with_proof: &LaneActivityDigestsWithProof,
    mergeset_context_hash: &Hash256,
) -> (r: AtanResult<Hash256>)
    ensures
        r == match spec_lane_active_lanes_root(*lane_activity_digests_with_proof, *mergeset_context_hash) {
            Ok(h) => Ok::<Hash256, AtanError>(h),
            Err(e) => Err(AtanError::Validation(ValidationError::InvalidLaneSMTProof(e))),
        },
{
    let proof = &lane_activity_digests_with_proof.lane_proof;
    let lane_key = lane_key(&lane_activity_digests_with_proof.lane_id);
    let activity_digest = activity_digests_root(lane_activity_digests_with_proof.activity_digests.as_slice());
    let lane_tip = lane_tip_next(&proof.parent_ref, &lane_key, &activity_digest, mergeset_context_hash);
    let lane_payload = smt_leaf_hash(&lane_tip, proof.last_touched_blue_score);
    match proof.smt_proof.compute_root::<SeqCommitActiveNode>(&lane_key, Some(lane_payload)) {
        Ok(root) => Ok(root),
        Err(e) => Err(AtanError::Validation(ValidationError::InvalidLaneSMTProof(e))),
    }
}

/// Whether two lane ids are equal.
pub fn lane_id_eq(a: &LaneId, b: &LaneId) -> (r: bool)
    ensures
        r == (*a == *b),
{
    let mut i: usize = 0;
    while i < 20
        invariant
            0 <= i <= 20,
            forall|j: int| 0 <= j < i ==> a[j] == b[j],
        decreases 20 - i,
    {
        if a[i] != b[i] {
            return false;
        }
        i = i + 1;
    }
    assert(*a =~= *b);
    true
}

/// `r` is the outcome of validating a recent `chain_block` when the chain's tip has the
/// sequencing commitment `tip`: the block must name it as its selected parent's commitment,
/// and then be valid (see [`validation_outcome`]).
pub open spec fn recent_outcome(lane_id: Option<LaneId>, chain_block: ChainBlock, tip: Hash256, r: AtanResult<()>) -> bool {
    let actual = spec_base(chain_block).selected_parent_sequencing_commitment;
    if actual != tip {
        r == Err::<(), AtanError>(
            AtanError::Validation(ValidationError::RecentBlockDoesntConnect(Expected(tip), Actual(actual))),
        )
    } else {
        validation_outcome(lane_id, chain_block, r)
    }
}

/// `r` is the outcome of validating a historical `chain_block` when the chain's sink has the
/// selected parent sequencing commitment `sink`: the block's own commitment must equal it, and
/// then the block must be valid (see [`validation_outcome`]).
pub open spec fn historical_outcome(
    lane_id: Option<LaneId>,
    chain_block: ChainBlock,
    sink: Hash256,
    r: AtanResult<()>,
) -> bool {
    let actual = spec_base(chain_block).sequencing_commitment;
    if actual != sink {
        r == Err::<(), AtanError>(
            AtanError::Validation(ValidationError::HistoricalBlockDoesntConnect(Expected(sink), Actual(actual))),
        )
    } else {
        validation_outcome(lane_id, chain_block, r)
    }
}

/// Validates chain blocks of one lane (`lane_id` is `Some`) or of all lanes (`None`), and
/// connects them to an existing chain through two callbacks: one gives the sequencing
/// commitment of the chain's tip, the other the selected parent sequencing commitment of the
/// chain's sink.
pub struct AtanValidator<F, G> where F: Fn() -> Hash256, G: Fn() -> Hash256 {
    /// The lane this validator keeps; `None` for all lanes.
    pub lane_id: Option<LaneId>,
    /// Returns the sequencing commitment of the chain's tip block.
    pub get_chain_tip_callback: F,
    /// Returns the selected parent sequencing commitment of the chain's sink block.
    pub get_chain_sink_callback: G,
}

impl<F, G> AtanValidator<F, G> where F: Fn() -> Hash256, G: Fn() -> Hash256 {
    /// A validator for `lane_id` (`None` for all lanes) with the two callbacks.
    pub fn new(lane_id: Option<LaneId>, get_chain_tip_callback: F, get_chain_sink_callback: G) -> (v: Self)
        ensures
            v.lane_id == lane_id,
            v.get_chain_tip_callback == get_chain_tip_callback,
            v.get_chain_sink_callback == get_chain_sink_callback,
    {
        Self { lane_id, get_chain_tip_callback, get_chain_sink_callback }
    }

    /// The active-lanes root that `lanes` imply (see [`spec_active_lanes_root`]).
    pub fn active_lanes_root_of_lanes(
        &self,
        lanes: &[LaneActivityDigestsWithProof],
        mergeset_context_hash: &Hash256,
    ) -> (r: AtanResult<Hash256>)
        ensures
            r == spec_active_lanes_root(self.lane_id, lanes@, *mergeset_context_hash),
    {
        match self.lane_id {
            Some(expected_lane_id) => {
                if lanes.len() != 1 {
                    return Err(
                        AtanError::Validation(
                            ValidationError::InvalidNumberOfLanesWithActivityDigests(
                                Actual(lanes.len()),
                            ),
                        ),
                    );
                }
                let actual_lane_id = lanes[0].lane_id;
                if !lane_id_eq(&actual_lane_id, &expected_lane_id) {
                    return Err(
                        AtanError::Validation(
                            ValidationError::InvalidLaneID(Expected(expected_lane_id), Actual(actual_lane_id)),
                        ),
                    );
                }
            },
            None => {
                if lanes.len() == 0 {
                    return Err(AtanError::Validation(ValidationError::EmptyLanesWithActivityDigests));
                }
            },
        }
        let first_lane = &lanes[0];
        let first_root = match calculate_active_lanes_root_for_lane(first_lane, mergeset_context_hash) {
            Ok(h) => h,
            Err(e) => return Err(e),
        };
        let mut i: usize = 1;
        while i < lanes.len()
            invariant
                1 <= i <= lanes@.len(),
                spec_active_lanes_root(self.lane_id, lanes@, *mergeset_context_hash)
                    == spec_rest_lanes_root(lanes@, *mergeset_context_hash, first_root, i as int),
                first_lane == lanes@[0],
            decreases lanes@.len() - i,
        {
            let root = match calculate_active_lanes_root_for_lane(&lanes[i], mergeset_context_hash) {
                Ok(h) => h,
                Err(e) => return Err(e),
            };
            if !hash_eq(&root, &first_root) {
                return Err(
                    AtanError::Validation(
                        ValidationError::UnmatchingActiveLanesRootForDifferentLanes(
                            first_lane.lane_id,
                            first_root,
                            lanes[i].lane_id,
                            root,
                        ),
                    ),
                );
            }
            i = i + 1;
        }
        Ok(first_root)
    }

    /// The active-lanes root of a chain block: stored in a bare block, implied by the lanes of
    /// the other kinds (for a block with transactions, by its lanes with each transaction
    /// replaced by its activity digest).
    fn calculate_active_lanes_root(&self, chain_block: &ChainBlock, mergeset_context_hash: &Hash256) -> (r: AtanResult<Hash256>)
        ensures
            match *chain_block {
                ChainBlock::Bare(b) => r == Ok::<Hash256, AtanError>(b.active_lanes_root),
                ChainBlock::WithTransactionIDs(b) => r == spec_active_lanes_root(
                    self.lane_id,
                    b.activity_digests_with_proofs@,
                    *mergeset_context_hash,
                ),
                ChainBlock::WithTransactions(b) => exists|lanes: Seq<LaneActivityDigestsWithProof>|
                    lanes_digests_of(b.transactions_with_proofs@, lanes) && r == spec_active_lanes_root(
                        self.lane_id,
                        lanes,
                        *mergeset_context_hash,
                    ),
            },
    {
        match chain_block {
            ChainBlock::Bare(cb) => Ok(cb.active_lanes_root),
            ChainBlock::WithTransactionIDs(cb) => self.active_lanes_root_of_lanes(
                cb.activity_digests_with_proofs.as_slice(),
                mergeset_context_hash,
            ),
            ChainBlock::WithTransactions(cb) => {
                let lanes = cb.activity_digests_with_proofs();
                let r = self.active_lanes_root_of_lanes(lanes.as_slice(), mergeset_context_hash);
                assert(lanes_digests_of(cb.transactions_with_proofs@, lanes@));
                r
            },
        }
    }

    /// Computes the sequencing commitment that a chain block's data implies (see
    /// [`commitment_outcome`]).
    pub fn calculate_sequencing_commitment(&self, chain_block: &ChainBlock) -> (r: AtanResult<Hash256>)
        ensures
            commitment_outcome(self.lane_id, *chain_block, r),
    {
        let base = chain_block.base();
        let mergeset_context_hash = base.merge_set_context.hash();
        let miner_payload_root = miner_payloads_root(base.miner_payloads.as_slice());
        let state_root = payload_and_context_digest(&mergeset_context_hash, &miner_payload_root);
        let active = self.calculate_active_lanes_root(chain_block, &mergeset_context_hash);
        let r = match active {
            Ok(active_lanes_root) => {
                let sequencing_state_root = seq_state_root(&active_lanes_root, &state_root);
                Ok(seq_commit(&base.selected_parent_sequencing_commitment, &sequencing_state_root))
            },
            Err(e) => Err(e),
        };
        proof {
            if let ChainBlock::WithTransactions(b) = chain_block {
                {
                    let lanes = choose|lanes: Seq<LaneActivityDigestsWithProof>|
                        lanes_digests_of(b.transactions_with_proofs@, lanes) && active
                            == spec_active_lanes_root(self.lane_id, lanes, mergeset_context_hash);
                    assert(lanes_digests_of(b.transactions_with_proofs@, lanes) && r == spec_commitment_result(
                        *base,
                        spec_active_lanes_root(self.lane_id, lanes, mergeset_context_hash),
                    ));
                }
            }
        }
        r
    }

    /// Validates a chain block: valid exactly when the sequencing commitment its data implies
    /// equals its stated one (see [`validation_outcome`]).
    pub fn validate_chain_block(&self, chain_block: &ChainBlock) -> (r: AtanResult<()>)
        ensures
            validation_outcome(self.lane_id, *chain_block, r),
    {
        let expected = self.calculate_sequencing_commitment(chain_block);
        let ghost c = expected;
        let r = match expected {
            Err(e) => Err(e),
            Ok(expected_sequencing_commitment) => {
                let actual_sequencing_commitment = chain_block.base().sequencing_commitment;
                if !hash_eq(&actual_sequencing_commitment, &expected_sequencing_commitment) {
                    Err(
                        AtanError::Validation(
                            ValidationError::InvalidSequencingCommitment(
                                Expected(expected_sequencing_commitment),
                                Actual(actual_sequencing_commitment),
                            ),
                        ),
                    )
                } else {
                    Ok(())
                }
            },
        };
        assert(commitment_outcome(self.lane_id, *chain_block, c) && r == spec_validation(
            spec_base(*chain_block),
            c,
        ));
        r
    }

    /// Validates a recent chain block against the sequencing commitment `chain_tip` of the
    /// chain's tip (see [`recent_outcome`]).
    pub fn check_recent_chain_block(&self, chain_block: &ChainBlock, chain_tip: Hash256) -> (r: AtanResult<()>)
        ensures
            recent_outcome(self.lane_id, *chain_block, chain_tip, r),
    {
        let actual = chain_block.base().selected_parent_sequencing_commitment;
        if !hash_eq(&actual, &chain_tip) {
            return Err(
                AtanError::Validation(
                    ValidationError::RecentBlockDoesntConnect(Expected(chain_tip), Actual(actual)),
                ),
            );
        }
        self.validate_chain_block(chain_block)
    }

    /// Validates a historical chain block against the selected parent sequencing commitment
    /// `chain_sink` of the chain's sink (see [`historical_outcome`]).
    pub fn check_historical_chain_block(&self, chain_block: &ChainBlock, chain_sink: Hash256) -> (r: AtanResult<()>)
        ensures
            historical_outcome(self.lane_id, *chain_block, chain_sink, r),
    {
        let actual = chain_block.base().sequencing_commitment;
        if !hash_eq(&actual, &chain_sink) {
            return Err(
                AtanError::Validation(
                    ValidationError::HistoricalBlockDoesntConnect(Expected(chain_sink), Actual(actual)),
                ),
            );
        }
        self.validate_chain_block(chain_block)
    }

    /// Validates a recent chain block, which must connect to the existing chain from above:
    /// asks the tip callback for the tip's commitment, then validates against whatever it
    /// returned (see [`AtanValidator::check_recent_chain_block`]).
    pub fn validate_recent_chain_block(&self, chain_block: &ChainBlock) -> (r: AtanResult<()>)
        requires
            call_requires(self.get_chain_tip_callback, ()),
        ensures
            exists|tip: Hash256|
                call_ensures(self.get_chain_tip_callback, (), tip) && recent_outcome(
                    self.lane_id,
                    *chain_block,
                    tip,
                    r,
                ),
    {
        let tip = (self.get_chain_tip_callback)();
        self.check_recent_chain_block(chain_block, tip)
    }

    /// Validates a historical chain block, which must connect to the existing chain from below:
    /// asks the sink callback for the sink's selected parent commitment, then validates
    /// against whatever it returned (see [`AtanValidator::check_historical_chain_block`]).
    pub fn validate_historical_chain_block(&self, chain_block: &ChainBlock) -> (r: AtanResult<()>)
        requires
            call_requires(self.get_chain_sink_callback, ()),
        ensures
            exists|sink: Hash256|
                call_ensures(self.get_chain_sink_callback, (), sink) && historical_outcome(
                    self.lane_id,
                    *chain_block,
                    sink,
                    r,
                ),
    {
        let sink = (self.get_chain_sink_callback)();
        self.check_historical_chain_block(chain_block, sink)
    }
}

/// Two lanes that both hold the activity digests of the same lane of transactions imply the
/// same active-lanes root.
proof fn lemma_lane_roots_agree(
    t: LaneTransactionsWithProof,
    a: LaneActivityDigestsWithProof,
    b: LaneActivityDigestsWithProof,
    context_hash: Hash256,
)
    requires
        lane_digests_of(t, a),
        lane_digests_of(t, b),
    ensures
        a.lane_id == b.lane_id,
        spec_lane_active_lanes_root(a, context_hash) == spec_lane_active_lanes_root(b, context_hash),
{
    assert(a.activity_digests@ =~= b.activity_digests@);
    assert(a.lane_proof.smt_proof.bitmap@ =~= b.lane_proof.smt_proof.bitmap@);
}

/// Lanes `i..` of two lane sequences that hold the activity digests of the same transactions
/// confirm a root alike.
proof fn lemma_rest_roots_agree(
    transactions: Seq<LaneTransactionsWithProof>,
    a: Seq<LaneActivityDigestsWithProof>,
    b: Seq<LaneActivityDigestsWithProof>,
    context_hash: Hash256,
    first: Hash256,
    i: int,
)
    requires
        lanes_digests_of(transactions, a),
        lanes_digests_of(transactions, b),
        0 <= i,
        a.len() > 0,
    ensures
        spec_rest_lanes_root(a, context_hash, first, i) == spec_rest_lanes_root(b, context_hash, first, i),
    decreases a.len() - i,
{
    lemma_lane_roots_agree(transactions[0], a[0], b[0], context_hash);
    if i < a.len() {
        lemma_lane_roots_agree(transactions[i], a[i], b[i], context_hash);
        lemma_rest_roots_agree(transactions, a, b, context_hash, first, i + 1);
    }
}

/// Lanes with transactions give the same active-lanes root, for any validator, whichever
/// lanes of activity digests stand for them: the result depends on the transactions' ids,
/// versions and merge indices and on the lanes' proofs alone.
pub proof fn law_lanes_root_of_transactions_is_that_of_their_digests(
    lane_id: Option<LaneId>,
    transactions: Seq<LaneTransactionsWithProof>,
    a: Seq<LaneActivityDigestsWithProof>,
    b: Seq<LaneActivityDigestsWithProof>,
    context_hash: Hash256,
)
    requires
        lanes_digests_of(transactions, a),
        lanes_digests_of(transactions, b),
    ensures
        spec_active_lanes_root(lane_id, a, context_hash) == spec_active_lanes_root(lane_id, b, context_hash),
{
    if a.len() > 0 {
        lemma_lane_roots_agree(transactions[0], a[0], b[0], context_hash);
        lemma_rest_roots_agree(transactions, a, b, context_hash, spec_lane_active_lanes_root(a[0], context_hash)->Ok_0, 1);
    }
}

/// A chain block with transactions and the chain block with activity digests that has the
/// same common fields and, lane by lane, the activity digests of those transactions, imply
/// the same sequencing commitment (or fail alike) for every validator.
pub proof fn law_block_kinds_commit_alike(
    lane_id: Option<LaneId>,
    with_transactions: ChainBlockWithTransactions,
    with_digests: ChainBlockWithActivityDigests,
    r1: AtanResult<Hash256>,
    r2: AtanResult<Hash256>,
)
    requires
        with_digests.base == with_transactions.base,
        lanes_digests_of(with_transactions.transactions_with_proofs@, with_digests.activity_digests_with_proofs@),
        commitment_outcome(lane_id, ChainBlock::WithTransactions(with_transactions), r1),
        commitment_outcome(lane_id, ChainBlock::WithTransactionIDs(with_digests), r2),
    ensures
        r1 == r2,
{
    let ctx = spec_mergeset_context_hash(with_transactions.base.merge_set_context);
    let lanes = choose|lanes: Seq<LaneActivityDigestsWithProof>|
        lanes_digests_of(with_transactions.transactions_with_proofs@, lanes) && r1 == spec_commitment_result(
            with_transactions.base,
            spec_active_lanes_root(lane_id, lanes, ctx),
        );
    law_lanes_root_of_transactions_is_that_of_their_digests(
        lane_id,
        with_transactions.transactions_with_proofs@,
        lanes,
        with_digests.activity_digests_with_proofs@,
        ctx,
    );
}

/// A chain block's expected sequencing commitment is determined by the block: two outcomes of
/// it are the same.
proof fn lemma_commitment_outcome_unique(
    lane_id: Option<LaneId>,
    chain_block: ChainBlock,
    c1: AtanResult<Hash256>,
    c2: AtanResult<Hash256>,
)
    requires
        commitment_outcome(lane_id, chain_block, c1),
        commitment_outcome(lane_id, chain_block, c2),
    ensures
        c1 == c2,
{
    if let ChainBlock::WithTransactions(b) = chain_block {
        let base = spec_base(chain_block);
        let ctx = spec_mergeset_context_hash(base.merge_set_context);
        let l1 = choose|lanes: Seq<LaneActivityDigestsWithProof>|
            lanes_digests_of(b.transactions_with_proofs@, lanes) && c1 == spec_commitment_result(
                base,
                spec_active_lanes_root(lane_id, lanes, ctx),
            );
        let l2 = choose|lanes: Seq<LaneActivityDigestsWithProof>|
            lanes_digests_of(b.transactions_with_proofs@, lanes) && c2 == spec_commitment_result(
                base,
                spec_active_lanes_root(lane_id, lanes, ctx),
            );
        law_lanes_root_of_transactions_is_that_of_their_digests(lane_id, b.transactions_with_proofs@, l1, l2, ctx);
    }
}

/// Validating a chain block checks its stated sequencing commitment against the commitment
/// that its data implies (what [`AtanValidator::calculate_sequencing_commitment`] gives), for
/// every kind of block: it succeeds exactly when the two agree, answers a differing computed
/// commitment `x` with `InvalidSequencingCommitment(Expected(x), Actual(stated))`, and passes
/// on a failure to compute the commitment.
pub proof fn law_validation_checks_the_stated_commitment(
    lane_id: Option<LaneId>,
    chain_block: ChainBlock,
    r: AtanResult<()>,
    c: AtanResult<Hash256>,
)
    requires
        validation_outcome(lane_id, chain_block, r),
        commitment_outcome(lane_id, chain_block, c),
    ensures
        r == Ok::<(), AtanError>(()) <==> c == Ok::<Hash256, AtanError>(spec_base(chain_block).sequencing_commitment),
        c matches Ok(x) ==> (x != spec_base(chain_block).sequencing_commitment ==> r == Err::<(), AtanError>(
            AtanError::Validation(
                ValidationError::InvalidSequencingCommitment(
                    Expected(x),
                    Actual(spec_base(chain_block).sequencing_commitment),
                ),
            ),
        )),
        c matches Err(e) ==> r == Err::<(), AtanError>(e),
{
    let c0 = choose|c0: AtanResult<Hash256>|
        commitment_outcome(lane_id, chain_block, c0) && r == spec_validation(spec_base(chain_block), c0);
    lemma_commitment_outcome_unique(lane_id, chain_block, c0, c);
}

/// Validating a recent chain block when the chain's tip has commitment `tip`: a block whose
/// selected parent commitment is not `tip` is refused with `RecentBlockDoesntConnect`; one that
/// connects gets exactly the answer of validating it on its own. So it succeeds exactly when the
/// block connects to the tip and its stated commitment is the one its data implies.
pub proof fn law_recent_block_connects_and_is_valid(
    lane_id: Option<LaneId>,
    chain_block: ChainBlock,
    tip: Hash256,
    r: AtanResult<()>,
    v: AtanResult<()>,
    c: AtanResult<Hash256>,
)
    requires
        recent_outcome(lane_id, chain_block, tip, r),
        validation_outcome(lane_id, chain_block, v),
        commitment_outcome(lane_id, chain_block, c),
    ensures
        r == Ok::<(), AtanError>(()) <==> spec_base(chain_block).selected_parent_sequencing_commitment == tip
            && c == Ok::<Hash256, AtanError>(spec_base(chain_block).sequencing_commitment),
        spec_base(chain_block).selected_parent_sequencing_commitment == tip ==> r == v,
        spec_base(chain_block).selected_parent_sequencing_commitment != tip ==> r == Err::<(), AtanError>(
            AtanError::Validation(
                ValidationError::RecentBlockDoesntConnect(
                    Expected(tip),
                    Actual(spec_base(chain_block).selected_parent_sequencing_commitment),
                ),
            ),
        ),
{
    law_validation_checks_the_stated_commitment(lane_id, chain_block, v, c);
    if spec_base(chain_block).selected_parent_sequencing_commitment == tip {
        law_validation_checks_the_stated_commitment(lane_id, chain_block, r, c);
    }
}

/// Validating a historical chain block when the chain's sink has selected parent commitment
/// `sink`: a block whose own commitment is not `sink` is refused with
/// `HistoricalBlockDoesntConnect`; one that matches gets exactly the answer of validating it on
/// its own. So it succeeds exactly when the block's commitment is `sink` and is the one its
/// data implies.
pub proof fn law_historical_block_connects_and_is_valid(
    lane_id: Option<LaneId>,
    chain_block: ChainBlock,
    sink: Hash256,
    r: AtanResult<()>,
    v: AtanResult<()>,
    c: AtanResult<Hash256>,
)
    requires
        historical_outcome(lane_id, chain_block, sink, r),
        validation_outcome(lane_id, chain_block, v),
        commitment_outcome(lane_id, chain_block, c),
    ensures
        r == Ok::<(), AtanError>(()) <==> spec_base(chain_block).sequencing_commitment == sink && c == Ok::<
            Hash256,
            AtanError,
        >(sink),
        spec_base(chain_block).sequencing_commitment == sink ==> r == v,
        spec_base(chain_block).sequencing_commitment != sink ==> r == Err::<(), AtanError>(
            AtanError::Validation(
                ValidationError::HistoricalBlockDoesntConnect(
                    Expected(sink),
                    Actual(spec_base(chain_block).sequencing_commitment),
                ),
            ),
        ),
{
    law_validation_checks_the_stated_commitment(lane_id, chain_block, v, c);
    if spec_base(chain_block).sequencing_commitment == sink {
        law_validation_checks_the_stated_commitment(lane_id, chain_block, r, c);
    }
}

/// What lanes `i..` confirm is `first` exactly when each of them implies `first`.
proof fn lemma_rest_lanes_each(
    lanes: Seq<LaneActivityDigestsWithProof>,
    context_hash: Hash256,
    first: Hash256,
    i: int,
)
    requires
        0 <= i,
    ensures
        spec_rest_lanes_root(lanes, context_hash, first, i) is Ok ==> spec_rest_lanes_root(
            lanes,
            context_hash,
            first,
            i,
        ) == Ok::<Hash256, AtanError>(first),
        spec_rest_lanes_root(lanes, context_hash, first, i) is Ok <==> forall|j: int|
            i <= j < lanes.len() ==> #[trigger] spec_lane_active_lanes_root(lanes[j], context_hash) == Ok::<
                Hash256,
                SmtProofError,
            >(first),
    decreases lanes.len() - i,
{
    if i < lanes.len() {
        lemma_rest_lanes_each(lanes, context_hash, first, i + 1);
        if spec_lane_active_lanes_root(lanes[i], context_hash) != Ok::<Hash256, SmtProofError>(first) {
            assert(!(spec_rest_lanes_root(lanes, context_hash, first, i) is Ok));
        }
    }
}

/// The active-lanes root of a block's lanes is `r` exactly when the lanes meet the validator's
/// lane rules (a single-lane validator gets its own lane alone, an all-lane validator at least
/// one lane) and every lane, put through its own proof (what
/// [`calculate_active_lanes_root_for_lane`] computes), implies `r`.
pub proof fn law_active_lanes_root_is_implied_by_every_lane(
    lane_id: Option<LaneId>,
    lanes: Seq<LaneActivityDigestsWithProof>,
    context_hash: Hash256,
    r: Hash256,
)
    ensures
        spec_active_lanes_root(lane_id, lanes, context_hash) == Ok::<Hash256, AtanError>(r) <==> {
            &&& lanes.len() > 0
            &&& lane_id matches Some(l) ==> lanes.len() == 1 && lanes[0].lane_id == l
            &&& forall|i: int|
                0 <= i < lanes.len() ==> #[trigger] spec_lane_active_lanes_root(lanes[i], context_hash) == Ok::<
                    Hash256,
                    SmtProofError,
                >(r)
        },
{
    if lanes.len() > 0 {
        lemma_rest_lanes_each(lanes, context_hash, r, 1);
        if let Ok(first) = spec_lane_active_lanes_root(lanes[0], context_hash) {
            lemma_rest_lanes_each(lanes, context_hash, first, 1);
        }
    }
}

/// The miner payload root of a block has one leaf per merged block, in merge order: the leaf
/// of each payload's block hash, blue work and coinbase payload.
pub proof fn law_miner_payloads_root_has_a_leaf_per_payload(payloads: Seq<MinerPayload>)
    ensures
        spec_miner_payloads_root(payloads) == Hash256(
            miner_payload_root_digest(
                Seq::new(
                    payloads.len(),
                    |i: int|
                        miner_payload_leaf_digest(
                            payloads[i].block_hash.0,
                            payloads[i].blue_work@,
                            payloads[i].payload@,
                        ),
                ),
            ),
        ),
{
    assert(payloads.map_values(|p: MinerPayload| spec_miner_payload_leaf(p)) =~= Seq::new(
        payloads.len(),
        |i: int| miner_payload_leaf_digest(payloads[i].block_hash.0, payloads[i].blue_work@, payloads[i].payload@),
    ));
}

/// The sequencing commitment a chain block's data implies is the commitment, on top of the
/// selected parent's commitment, of the sequencing state root of its active-lanes root and of
/// the state root; the state root is that of the mergeset context hash (timestamp, DAA score,
/// blue score) and of the miner payload root (one leaf per merged block, in order). The
/// active-lanes root is the stored one for a bare block, and what the lanes imply otherwise;
/// a failure to compute it is the outcome.
pub proof fn law_sequencing_commitment_of_a_block(
    lane_id: Option<LaneId>,
    chain_block: ChainBlock,
    c: AtanResult<Hash256>,
    active_lanes_root: AtanResult<Hash256>,
)
    requires
        commitment_outcome(lane_id, chain_block, c),
        chain_block is Bare ==> active_lanes_root == Ok::<Hash256, AtanError>(chain_block->Bare_0.active_lanes_root),
        chain_block is WithTransactionIDs ==> active_lanes_root == spec_active_lanes_root(
            lane_id,
            chain_block->WithTransactionIDs_0.activity_digests_with_proofs@,
            spec_mergeset_context_hash(spec_base(chain_block).merge_set_context),
        ),
        chain_block is WithTransactions ==> exists|lanes: Seq<LaneActivityDigestsWithProof>|
            lanes_digests_of(chain_block->WithTransactions_0.transactions_with_proofs@, lanes) && active_lanes_root
                == spec_active_lanes_root(
                lane_id,
                lanes,
                spec_mergeset_context_hash(spec_base(chain_block).merge_set_context),
            ),
    ensures
        ({
            let base = spec_base(chain_block);
            let ctx = base.merge_set_context;
            let payloads = base.miner_payloads@;
            let state_root = payload_and_context_digest_of(
                mergeset_context_digest(ctx.timestamp, ctx.daa_score, ctx.blue_score),
                miner_payload_root_digest(
                    Seq::new(
                        payloads.len(),
                        |i: int|
                            miner_payload_leaf_digest(
                                payloads[i].block_hash.0,
                                payloads[i].blue_work@,
                                payloads[i].payload@,
                            ),
                    ),
                ),
            );
            match active_lanes_root {
                Ok(root) => c == Ok::<Hash256, AtanError>(
                    Hash256(
                        seq_commit_digest(
                            base.selected_parent_sequencing_commitment.0,
                            seq_state_root_digest(root.0, state_root),
                        ),
                    ),
                ),
                Err(e) => c == Err::<Hash256, AtanError>(e),
            }
        }),
{
    law_miner_payloads_root_has_a_leaf_per_payload(spec_base(chain_block).miner_payloads@);
    if let ChainBlock::WithTransactions(b) = chain_block {
        let base = spec_base(chain_block);
        let ctx = spec_mergeset_context_hash(base.merge_set_context);
        let l1 = choose|lanes: Seq<LaneActivityDigestsWithProof>|
            lanes_digests_of(b.transactions_with_proofs@, lanes) && c == spec_commitment_result(
                base,
                spec_active_lanes_root(lane_id, lanes, ctx),
            );
        let l2 = choose|lanes: Seq<LaneActivityDigestsWithProof>|
            lanes_digests_of(b.transactions_with_proofs@, lanes) && active_lanes_root == spec_active_lanes_root(
                lane_id,
                lanes,
                ctx,
            );
        law_lanes_root_of_transactions_is_that_of_their_digests(lane_id, b.transactions_with_proofs@, l1, l2, ctx);
    }
}

} // verus!
