use kaspa_atan::atan::errors::{Actual, AtanError, Expected, LaneId, ValidationError};
use kaspa_atan::atan::model::{
    ActivityDigest, BareChainBlock, ChainBlock, ChainBlockBase, ChainBlockWithActivityDigests,
    ChainBlockWithTransactions, LaneActivityDigestsWithProof, LaneActivityProof, LaneTransactionsWithProof,
    MergesetContext, MinerPayload, Transaction, TransactionWithMergeIndex,
};
use kaspa_atan::atan::validator::{
    activity_digests_root, calculate_active_lanes_root_for_lane, miner_payloads_root, AtanValidator,
};
use kaspa_atan::hash::{bit_at, Hash256, DEPTH};
use kaspa_atan::hasher::{empty_hashes, SeqCommitActiveNode, SmtHasher};
use kaspa_atan::proof_single::SmtProofError;
use kaspa_atan::store::{BranchKey, CollapsedLeaf, MemoryStore, Node};
use kaspa_atan::tree::SparseMerkleTree;
use kaspa_consensus_core::subnets::SUBNETWORK_ID_NATIVE;
use kaspa_consensus_core::tx::Transaction as KaspaTransaction;

use kaspa_seq_commit::hashing;
use kaspa_seq_commit::types::{LaneTipInput, MinerPayloadLeafInput, SeqCommitInput, SeqState, SmtLeafInput};

type Tree = SparseMerkleTree<SeqCommitActiveNode, MemoryStore>;

fn h(x: Hash256) -> kaspa_hashes::Hash {
    kaspa_hashes::Hash::from_bytes(x.0)
}

fn k(x: kaspa_hashes::Hash) -> Hash256 {
    Hash256(x.as_bytes())
}

fn node_hash(sub: &Option<(bool, Hash256, Hash256)>, height: usize, empties: &[Hash256]) -> Hash256 {
    match sub {
        None => empties[height],
        Some((true, key, leaf)) => SeqCommitActiveNode::hash_collapsed(key, leaf),
        Some((false, hash, _)) => *hash,
    }
}

/// Stores the subtree at `depth` holding the sorted `leaves`; returns `None` for an empty
/// subtree, `(true, key, leaf)` for a collapsed one and `(false, hash, _)` for a branch.
fn build(store: &mut MemoryStore, leaves: &[(Hash256, Hash256)], depth: usize, empties: &[Hash256]) -> Option<(bool, Hash256, Hash256)> {
    if leaves.is_empty() {
        return None;
    }
    let bk = BranchKey::new(depth as u8, &leaves[0].0);
    if leaves.len() == 1 {
        let (key, leaf) = leaves[0];
        if depth < DEPTH {
            store.insert_node(bk, Some(Node::Collapsed(CollapsedLeaf { lane_key: key, leaf_hash: leaf })));
        }
        return Some((true, key, leaf));
    }
    let split = leaves.iter().position(|(key, _)| bit_at(key, depth)).unwrap_or(leaves.len());
    let (l, r) = leaves.split_at(split);
    let (left, right) = (build(store, l, depth + 1, empties), build(store, r, depth + 1, empties));
    let height = DEPTH - depth - 1;
    let hash = SeqCommitActiveNode::hash_node(&node_hash(&left, height, empties), &node_hash(&right, height, empties));
    store.insert_node(bk, Some(Node::Internal(hash)));
    Some((false, hash, hash))
}

fn tree_of(leaves: &[(Hash256, Hash256)]) -> Tree {
    let mut sorted = leaves.to_vec();
    sorted.sort_by(|a, b| a.0.cmp(&b.0));
    let empties = empty_hashes::<SeqCommitActiveNode>();
    let mut store = MemoryStore::new();
    for (key, leaf) in &sorted {
        store.insert_leaf(*key, Some(*leaf));
    }
    let root = node_hash(&build(&mut store, &sorted, 0, &empties), DEPTH, &empties);
    SparseMerkleTree::from_root(store, root)
}

fn context() -> MergesetContext {
    MergesetContext { timestamp: 1_700_000_000_000, daa_score: 4242, blue_score: 4000 }
}

fn context_hash() -> kaspa_hashes::Hash {
    let ctx = context();
    hashing::mergeset_context_hash(&kaspa_seq_commit::types::MergesetContext {
        timestamp: ctx.timestamp,
        daa_score: ctx.daa_score,
        blue_score: ctx.blue_score,
    })
}

fn payloads() -> Vec<MinerPayload> {
    let mut blue_work = [0u8; 24];
    blue_work[22] = 0x12;
    blue_work[23] = 0x34;
    vec![
        MinerPayload { block_hash: Hash256([0x11; 32]), blue_work, payload: b"miner one".to_vec() },
        MinerPayload { block_hash: Hash256([0x22; 32]), blue_work: [0u8; 24], payload: vec![] },
    ]
}

fn payload_root() -> kaspa_hashes::Hash {
    let leaves: Vec<kaspa_hashes::Hash> = payloads()
        .iter()
        .map(|p| {
            hashing::miner_payload_leaf(MinerPayloadLeafInput {
                block_hash: &h(p.block_hash),
                blue_work_be_bytes: &p.blue_work,
                payload: &p.payload,
            })
        })
        .collect();
    hashing::miner_payload_root(leaves.into_iter())
}

fn commitment(parent: Hash256, active_lanes_root: Hash256) -> Hash256 {
    let state = hashing::payload_and_context_digest(&context_hash(), &payload_root());
    let seq_state = hashing::seq_state_root(&SeqState { activity_root: &h(active_lanes_root), payload_and_ctx_digest: &state });
    k(hashing::seq_commit(&SeqCommitInput { parent_seq_commit: &h(parent), state_root: &seq_state }))
}

fn digests(lane: u8) -> Vec<ActivityDigest> {
    (0..3u32).map(|i| ActivityDigest { id: Hash256([lane.wrapping_add(i as u8); 32]), version: 1, merge_index: i * 2 }).collect()
}

fn lane_id(lane: u8) -> LaneId {
    [lane; 20]
}

fn lane_key(lane: u8) -> Hash256 {
    k(hashing::lane_key(&lane_id(lane)))
}

fn digest_of(ds: &[ActivityDigest]) -> kaspa_hashes::Hash {
    hashing::activity_digest_lane(ds.iter().map(|d| hashing::activity_leaf(&h(d.id), d.version, d.merge_index)).collect::<Vec<_>>().into_iter())
}

fn parent_ref(lane: u8) -> Hash256 {
    Hash256([lane ^ 0x5A; 32])
}

fn last_touched(lane: u8) -> u64 {
    3900 + lane as u64
}

fn lane_payload_of(lane: u8, ds: &[ActivityDigest]) -> Hash256 {
    let key = h(lane_key(lane));
    let tip = hashing::lane_tip_next(&LaneTipInput {
        parent_ref: &h(parent_ref(lane)),
        lane_key: &key,
        activity_digest: &digest_of(ds),
        context_hash: &context_hash(),
    });
    k(hashing::smt_leaf_hash(&SmtLeafInput { lane_tip: &tip, blue_score: last_touched(lane) }))
}

fn lanes_tree(lanes: &[u8]) -> Tree {
    let leaves: Vec<(Hash256, Hash256)> = lanes.iter().map(|l| (lane_key(*l), lane_payload_of(*l, &digests(*l)))).collect();
    tree_of(&leaves)
}

fn lane_with_proof(tree: &Tree, lane: u8) -> LaneActivityDigestsWithProof {
    LaneActivityDigestsWithProof {
        lane_id: lane_id(lane),
        activity_digests: digests(lane),
        lane_proof: LaneActivityProof {
            last_touched_blue_score: last_touched(lane),
            parent_ref: parent_ref(lane),
            smt_proof: tree.prove(&lane_key(lane)).ok().unwrap(),
        },
    }
}

fn base(parent: Hash256, commitment: Hash256, active_lanes_root: Hash256) -> ChainBlockBase {
    ChainBlockBase {
        block_hash: Hash256([0xAB; 32]),
        sequencing_commitment: commitment,
        selected_parent_sequencing_commitment: parent,
        merge_set_context: context(),
        miner_payloads: payloads(),
        active_lanes_root,
    }
}

fn block_with_digests(tree: &Tree, lanes: &[u8], parent: Hash256) -> ChainBlock {
    let root = tree.root();
    ChainBlock::WithTransactionIDs(ChainBlockWithActivityDigests {
        base: base(parent, commitment(parent, root), root),
        activity_digests_with_proofs: lanes.iter().map(|l| lane_with_proof(tree, *l)).collect(),
    })
}

fn no_callback() -> Hash256 {
    Hash256([0u8; 32])
}

fn validator(lane: Option<u8>) -> AtanValidator<fn() -> Hash256, fn() -> Hash256> {
    AtanValidator::new(lane.map(lane_id), no_callback as fn() -> Hash256, no_callback as fn() -> Hash256)
}

fn validation(e: ValidationError) -> Result<(), AtanError> {
    Err(AtanError::Validation(e))
}

#[test]
fn mergeset_context_hash_is_the_seq_commit_hash() {
    assert_eq!(context().hash(), k(context_hash()));
    let other = MergesetContext { timestamp: 1, ..context() };
    assert_ne!(other.hash(), context().hash());
}

#[test]
fn miner_payloads_root_is_the_seq_commit_root() {
    assert_eq!(miner_payloads_root(&payloads()), k(payload_root()));
    assert_ne!(miner_payloads_root(&payloads()[..1]), k(payload_root()));
}

#[test]
fn activity_digests_root_is_the_lane_digest() {
    let ds = digests(7);
    assert_eq!(activity_digests_root(&ds), k(digest_of(&ds)));
    let single = &ds[..1];
    assert_eq!(activity_digests_root(single), k(hashing::activity_leaf(&h(single[0].id), 1, 0)));
}

#[test]
fn lane_proof_implies_the_active_lanes_root() {
    let tree = lanes_tree(&[1, 2, 3]);
    let lane = lane_with_proof(&tree, 2);
    assert_eq!(calculate_active_lanes_root_for_lane(&lane, &k(context_hash())), Ok(tree.root()));
    let mut tampered = lane.clone();
    tampered.lane_proof.last_touched_blue_score += 1;
    assert_ne!(calculate_active_lanes_root_for_lane(&tampered, &k(context_hash())), Ok(tree.root()));
}

#[test]
fn bare_block_with_its_commitment_is_valid() {
    let parent = Hash256([0x01; 32]);
    let active = Hash256([0x77; 32]);
    let c = commitment(parent, active);
    let block = ChainBlock::Bare(BareChainBlock { base: base(parent, c, active), active_lanes_root: active });
    assert_eq!(validator(None).calculate_sequencing_commitment(&block), Ok(c));
    assert_eq!(validator(None).validate_chain_block(&block), Ok(()));
}

#[test]
fn bare_block_with_a_wrong_commitment_is_invalid() {
    let parent = Hash256([0x01; 32]);
    let active = Hash256([0x77; 32]);
    let c = commitment(parent, active);
    let wrong = Hash256([0x99; 32]);
    let block = ChainBlock::Bare(BareChainBlock { base: base(parent, wrong, active), active_lanes_root: active });
    assert_eq!(
        validator(None).validate_chain_block(&block),
        validation(ValidationError::InvalidSequencingCommitment(Expected(c), Actual(wrong)))
    );
}

#[test]
fn all_lane_block_with_activity_digests_is_valid() {
    let tree = lanes_tree(&[1, 2, 3, 4]);
    let block = block_with_digests(&tree, &[1, 3, 4], Hash256([0x02; 32]));
    assert_eq!(validator(None).validate_chain_block(&block), Ok(()));
}

#[test]
fn single_lane_block_with_its_lane_is_valid() {
    let tree = lanes_tree(&[1, 2, 3]);
    let block = block_with_digests(&tree, &[2], Hash256([0x02; 32]));
    assert_eq!(validator(Some(2)).validate_chain_block(&block), Ok(()));
}

#[test]
fn single_lane_block_with_another_lane_is_refused() {
    let tree = lanes_tree(&[1, 2, 3]);
    let block = block_with_digests(&tree, &[3], Hash256([0x02; 32]));
    assert_eq!(
        validator(Some(2)).validate_chain_block(&block),
        validation(ValidationError::InvalidLaneID(Expected(lane_id(2)), Actual(lane_id(3))))
    );
}

#[test]
fn single_lane_block_with_several_lanes_is_refused() {
    let tree = lanes_tree(&[1, 2, 3]);
    let block = block_with_digests(&tree, &[2, 3], Hash256([0x02; 32]));
    assert_eq!(
        validator(Some(2)).validate_chain_block(&block),
        validation(ValidationError::InvalidNumberOfLanesWithActivityDigests(Actual(2)))
    );
    let empty = block_with_digests(&tree, &[], Hash256([0x02; 32]));
    assert_eq!(
        validator(Some(2)).validate_chain_block(&empty),
        validation(ValidationError::InvalidNumberOfLanesWithActivityDigests(Actual(0)))
    );
}

#[test]
fn all_lane_block_without_lanes_is_refused() {
    let tree = lanes_tree(&[1]);
    let block = block_with_digests(&tree, &[], Hash256([0x02; 32]));
    assert_eq!(validator(None).validate_chain_block(&block), validation(ValidationError::EmptyLanesWithActivityDigests));
}

#[test]
fn lanes_implying_different_roots_are_refused() {
    let tree = lanes_tree(&[1, 2, 3]);
    let mut block = block_with_digests(&tree, &[1, 2], Hash256([0x02; 32]));
    let expected_first = tree.root();
    let mut other_root = None;
    if let ChainBlock::WithTransactionIDs(b) = &mut block {
        b.activity_digests_with_proofs[1].lane_proof.last_touched_blue_score += 1;
        other_root = calculate_active_lanes_root_for_lane(&b.activity_digests_with_proofs[1], &k(context_hash())).ok();
    }
    let other_root = other_root.unwrap();
    assert_ne!(other_root, expected_first);
    assert_eq!(
        validator(None).validate_chain_block(&block),
        validation(ValidationError::UnmatchingActiveLanesRootForDifferentLanes(
            lane_id(1),
            expected_first,
            lane_id(2),
            other_root
        ))
    );
}

#[test]
fn lane_with_a_malformed_proof_is_refused() {
    let tree = lanes_tree(&[1, 2, 3]);
    let mut block = block_with_digests(&tree, &[1], Hash256([0x02; 32]));
    let mut expected = 0;
    if let ChainBlock::WithTransactionIDs(b) = &mut block {
        let proof = &mut b.activity_digests_with_proofs[0].lane_proof.smt_proof;
        expected = proof.siblings.len();
        proof.siblings.push(Hash256([3u8; 32]));
    }
    assert_eq!(
        validator(None).validate_chain_block(&block),
        validation(ValidationError::InvalidLaneSMTProof(SmtProofError::SiblingCountMismatch {
            expected,
            actual: expected + 1
        }))
    );
}

#[test]
fn block_with_transactions_is_valid() {
    let lane = 5u8;
    let txs: Vec<KaspaTransaction> = (0..2u64)
        .map(|i| KaspaTransaction::new(0, vec![], vec![], i, SUBNETWORK_ID_NATIVE, 0, vec![i as u8]))
        .collect();
    let ds: Vec<ActivityDigest> = txs
        .iter()
        .enumerate()
        .map(|(i, tx)| ActivityDigest { id: k(tx.id()), version: tx.version, merge_index: i as u32 })
        .collect();
    let tree = tree_of(&[(lane_key(lane), lane_payload_of(lane, &ds)), (lane_key(9), Hash256([9u8; 32]))]);
    let parent = Hash256([0x03; 32]);
    let root = tree.root();
    let lane_txs = LaneTransactionsWithProof {
        lane_id: lane_id(lane),
        transactions: txs
            .iter()
            .enumerate()
            .map(|(i, tx)| TransactionWithMergeIndex {
                transaction: Transaction { id: k(tx.id()), version: tx.version },
                merge_index: i as u32,
            })
            .collect(),
        lane_proof: LaneActivityProof {
            last_touched_blue_score: last_touched(lane),
            parent_ref: parent_ref(lane),
            smt_proof: tree.prove(&lane_key(lane)).ok().unwrap(),
        },
    };
    assert_eq!(lane_txs.transactions[1].activity_digest(), ds[1]);
    assert_eq!(lane_txs.to_activity_digests().activity_digests, ds);
    let block = ChainBlock::WithTransactions(ChainBlockWithTransactions {
        base: base(parent, commitment(parent, root), root),
        transactions_with_proofs: vec![lane_txs],
    });
    assert_eq!(validator(Some(lane)).validate_chain_block(&block), Ok(()));
    assert_eq!(block.base().selected_parent_sequencing_commitment, parent);
    if let ChainBlock::WithTransactions(b) = &block {
        let same = ChainBlock::WithTransactionIDs(ChainBlockWithActivityDigests {
            base: b.base.clone(),
            activity_digests_with_proofs: b.activity_digests_with_proofs(),
        });
        for v in [validator(Some(lane)), validator(None), validator(Some(9))] {
            assert_eq!(v.calculate_sequencing_commitment(&block), v.calculate_sequencing_commitment(&same));
        }
        assert_eq!(validator(None).calculate_sequencing_commitment(&same), Ok(commitment(parent, root)));
    }
}

#[test]
fn recent_block_must_connect_to_the_tip() {
    let parent = Hash256([0x04; 32]);
    let active = Hash256([0x55; 32]);
    let c = commitment(parent, active);
    let block = ChainBlock::Bare(BareChainBlock { base: base(parent, c, active), active_lanes_root: active });
    let v = AtanValidator::new(None, move || parent, || Hash256([0u8; 32]));
    assert_eq!(v.validate_recent_chain_block(&block), Ok(()));
    let elsewhere = Hash256([0x05; 32]);
    let w = AtanValidator::new(None, move || elsewhere, || Hash256([0u8; 32]));
    assert_eq!(
        w.validate_recent_chain_block(&block),
        validation(ValidationError::RecentBlockDoesntConnect(Expected(elsewhere), Actual(parent)))
    );
}

#[test]
fn historical_block_must_connect_to_the_sink() {
    let parent = Hash256([0x04; 32]);
    let active = Hash256([0x55; 32]);
    let c = commitment(parent, active);
    let block = ChainBlock::Bare(BareChainBlock { base: base(parent, c, active), active_lanes_root: active });
    let v = AtanValidator::new(None, || Hash256([0u8; 32]), move || c);
    assert_eq!(v.validate_historical_chain_block(&block), Ok(()));
    let elsewhere = Hash256([0x06; 32]);
    let w = AtanValidator::new(None, || Hash256([0u8; 32]), move || elsewhere);
    assert_eq!(
        w.validate_historical_chain_block(&block),
        validation(ValidationError::HistoricalBlockDoesntConnect(Expected(elsewhere), Actual(c)))
    );
    assert_eq!(
        w.check_historical_chain_block(&block, c),
        Ok(())
    );
}
