//! Laws of the sparse Merkle tree: proofs generated from a consistent store verify against
//! the tree's root.

use vstd::prelude::*;
use crate::bitmap::bitmap_bit;
use crate::hash::{Hash256, DEPTH, spec_bit_at, spec_zero_hash};
use crate::hasher::{SmtHasher, empty_hash};
use crate::proof_single::{
    OwnedSmtProof, nonempty_count, path_node, proof_seed, single_proof_result,
};
use crate::tree::{
    NodeBranchingData, SparseMerkleTree, proves_key, spec_branching_data, walk_bit, walk_siblings,
    walk_stop,
};
use crate::store::{
    BranchKey, Node, SmtStore, mask_byte, masked_key, spec_child_branch_key, with_bit_flipped,
    with_bit_set,
};

verus! {

proof fn lemma_mask_step_byte(b: u8, r: u8)
    requires
        r < 8,
    ensures
        (if r == 7 { b } else { b & (0xFFu8 << ((7 - r) as u8)) }) == if b & (0x80u8 >> r) != 0u8 {
            (if r == 0 { 0u8 } else { b & (0xFFu8 << ((8 - r) as u8)) }) | (0x80u8 >> r)
        } else {
            if r == 0 { 0u8 } else { b & (0xFFu8 << ((8 - r) as u8)) }
        },
{
    assert((if r == 7 { b } else { b & (0xFFu8 << ((7 - r) as u8)) }) == if b & (0x80u8 >> r) != 0u8 {
        (if r == 0 { 0u8 } else { b & (0xFFu8 << ((8 - r) as u8)) }) | (0x80u8 >> r)
    } else {
        if r == 0 { 0u8 } else { b & (0xFFu8 << ((8 - r) as u8)) }
    }) by (bit_vector)
        requires
            r < 8,
    ;
}

pub(crate) proof fn lemma_masked_key_index(key: Hash256, d: int)
    ensures
        forall|i: int| 0 <= i < 32 ==> #[trigger] masked_key(key, d).0[i] == mask_byte(key.0[i], i, d),
{
    let m = masked_key(key, d);
    assert forall|i: int| 0 <= i < 32 implies #[trigger] m.0[i] == mask_byte(key.0[i], i, d) by {
        assert(m.0@ == seq![
            mask_byte(key.0[0], 0, d), mask_byte(key.0[1], 1, d), mask_byte(key.0[2], 2, d),
            mask_byte(key.0[3], 3, d), mask_byte(key.0[4], 4, d), mask_byte(key.0[5], 5, d),
            mask_byte(key.0[6], 6, d), mask_byte(key.0[7], 7, d), mask_byte(key.0[8], 8, d),
            mask_byte(key.0[9], 9, d), mask_byte(key.0[10], 10, d), mask_byte(key.0[11], 11, d),
            mask_byte(key.0[12], 12, d), mask_byte(key.0[13], 13, d), mask_byte(key.0[14], 14, d),
            mask_byte(key.0[15], 15, d), mask_byte(key.0[16], 16, d), mask_byte(key.0[17], 17, d),
            mask_byte(key.0[18], 18, d), mask_byte(key.0[19], 19, d), mask_byte(key.0[20], 20, d),
            mask_byte(key.0[21], 21, d), mask_byte(key.0[22], 22, d), mask_byte(key.0[23], 23, d),
            mask_byte(key.0[24], 24, d), mask_byte(key.0[25], 25, d), mask_byte(key.0[26], 26, d),
            mask_byte(key.0[27], 27, d), mask_byte(key.0[28], 28, d), mask_byte(key.0[29], 29, d),
            mask_byte(key.0[30], 30, d), mask_byte(key.0[31], 31, d),
        ]);
    }
}

/// The key of the child on the path of `key` below its node at depth `d` is the key of its
/// node at depth `d + 1`.
pub(crate) proof fn lemma_path_child(key: Hash256, d: int)
    requires
        0 <= d < DEPTH - 1,
    ensures
        spec_child_branch_key(BranchKey { depth: d as u8, node_key: masked_key(key, d) }, spec_bit_at(key, d))
            == (BranchKey { depth: (d + 1) as u8, node_key: masked_key(key, d + 1) }),
{
    let q = d / 8;
    let r = (d % 8) as u8;
    let b = key.0[q];
    lemma_mask_step_byte(b, r);
    lemma_masked_key_index(key, d);
    lemma_masked_key_index(key, d + 1);
    let m = masked_key(key, d);
    let m1 = masked_key(key, d + 1);
    let child = spec_child_branch_key(BranchKey { depth: d as u8, node_key: m }, spec_bit_at(key, d));
    assert(mask_byte(b, q, d) == if r == 0 { 0u8 } else { b & (0xFFu8 << ((8 - r) as u8)) });
    assert(mask_byte(b, q, d + 1) == if r == 7 { b } else { b & (0xFFu8 << ((7 - r) as u8)) });
    assert forall|i: int| 0 <= i < 32 implies child.node_key.0[i] == m1.0[i] by {
        if i != q {
        }
    }
    assert(child.node_key.0 =~= m1.0);
}

proof fn lemma_last_bit_byte(b: u8)
    ensures
        b & (0x80u8 >> 7u8) != 0u8 ==> b == ((b & (0xFFu8 << 1u8)) | (0x80u8 >> 7u8)) && (b ^ (0x80u8 >> 7u8)) == (b & (0xFFu8 << 1u8)),
        b & (0x80u8 >> 7u8) == 0u8 ==> b == (b & (0xFFu8 << 1u8)) && (b ^ (0x80u8 >> 7u8)) == ((b & (0xFFu8 << 1u8)) | (0x80u8 >> 7u8)),
{
    assert(b & (0x80u8 >> 7u8) != 0u8 ==> b == ((b & (0xFFu8 << 1u8)) | (0x80u8 >> 7u8)) && (b ^ (0x80u8 >> 7u8)) == (b & (0xFFu8 << 1u8))) by (bit_vector);
    assert(b & (0x80u8 >> 7u8) == 0u8 ==> b == (b & (0xFFu8 << 1u8)) && (b ^ (0x80u8 >> 7u8)) == ((b & (0xFFu8 << 1u8)) | (0x80u8 >> 7u8))) by (bit_vector);
}

/// Below the last branching level, the two leaves are the key whose last bit is clear (the
/// node's own key) and the one whose last bit is set; a key and its sibling leaf are these two.
pub(crate) proof fn lemma_last_level(key: Hash256)
    ensures
        spec_bit_at(key, DEPTH - 1) ==> key == with_bit_set(masked_key(key, DEPTH - 1), DEPTH - 1)
            && with_bit_flipped(key, DEPTH - 1) == masked_key(key, DEPTH - 1),
        !spec_bit_at(key, DEPTH - 1) ==> key == masked_key(key, DEPTH - 1) && with_bit_flipped(key, DEPTH - 1)
            == with_bit_set(masked_key(key, DEPTH - 1), DEPTH - 1),
{
    let b = key.0[31];
    lemma_last_bit_byte(b);
    let m = masked_key(key, DEPTH - 1);
    assert(mask_byte(b, 31, 255) == b & (0xFFu8 << 1u8));
    let s = with_bit_set(m, DEPTH - 1);
    let f = with_bit_flipped(key, DEPTH - 1);
    if spec_bit_at(key, DEPTH - 1) {
        assert(key.0 =~= s.0);
        assert(f.0 =~= m.0);
    } else {
        assert(key.0 =~= m.0);
        assert(f.0 =~= s.0);
    }
}

/// The key of the root node is the zero hash, whatever the key.
pub(crate) proof fn lemma_root_key(key: Hash256)
    ensures
        masked_key(key, 0) == spec_zero_hash(),
{
    assert(masked_key(key, 0).0 =~= spec_zero_hash().0);
}

/// The hash that the node stored under `bk` stands for: its own hash, the collapsed hash of
/// its one leaf, or the hash of an empty subtree rooted at its depth.
pub open spec fn node_value<H: SmtHasher, S: SmtStore>(store: S, bk: BranchKey) -> Hash256 {
    match store.spec_node(bk) {
        Some(Node::Internal(h)) => h,
        Some(Node::Collapsed(cl)) => H::spec_collapsed(cl.lane_key, cl.leaf_hash),
        None => empty_hash::<H>((DEPTH - bk.depth) as nat),
    }
}

/// The hash that the leaf stored under `key` stands for: the collapsed hash of the key with
/// its leaf hash, or the zero hash of an empty leaf.
pub open spec fn leaf_value<H: SmtHasher, S: SmtStore>(store: S, key: Hash256) -> Hash256 {
    match store.spec_leaf(key) {
        Some(l) => H::spec_collapsed(key, l),
        None => spec_zero_hash(),
    }
}

/// A store is consistent with `root` when `root` is what its root node stands for, and every
/// branch node it stores is the hash of its two children (below the last branching level,
/// of its two leaves).
pub open spec fn store_consistent<H: SmtHasher, S: SmtStore>(store: S, root: Hash256) -> bool {
    &&& root == node_value::<H, S>(store, BranchKey { depth: 0, node_key: spec_zero_hash() })
    &&& forall|bk: BranchKey|
        match #[trigger] store.spec_node(bk) {
            Some(Node::Internal(h)) => h == branch_value::<H, S>(store, bk),
            _ => true,
        }
}

/// The hash of the two children of the branch node `bk`: the nodes below it, or below the
/// last branching level its two leaves.
pub open spec fn branch_value<H: SmtHasher, S: SmtStore>(store: S, bk: BranchKey) -> Hash256 {
    if bk.depth < DEPTH - 1 {
        H::spec_node(
            node_value::<H, S>(store, spec_child_branch_key(bk, false)),
            node_value::<H, S>(store, spec_child_branch_key(bk, true)),
        )
    } else {
        H::spec_node(
            leaf_value::<H, S>(store, bk.node_key),
            leaf_value::<H, S>(store, with_bit_set(bk.node_key, DEPTH - 1)),
        )
    }
}

/// What the tree holds under `key`, as its walk finds it: the leaf hash of the collapsed
/// node of the key where the walk stops, the leaf hash stored under the key when the walk
/// reaches the leaf level, and nothing otherwise.
pub open spec fn key_status<H: SmtHasher, S: SmtStore>(store: S, key: Hash256) -> Option<Hash256> {
    let s = walk_stop::<H, S>(store, key, 0);
    if s >= DEPTH {
        store.spec_leaf(key)
    } else {
        match store.spec_node(BranchKey { depth: s as u8, node_key: masked_key(key, s) }) {
            Some(Node::Collapsed(cl)) => if cl.lane_key == key {
                Some(cl.leaf_hash)
            } else {
                None
            },
            _ => None,
        }
    }
}

/// The hash that the node at depth `d` on the path of `key` stands for (the leaf's at depth
/// [`DEPTH`]).
pub open spec fn path_value<H: SmtHasher, S: SmtStore>(store: S, key: Hash256, d: int) -> Hash256 {
    if d >= DEPTH {
        leaf_value::<H, S>(store, key)
    } else {
        node_value::<H, S>(store, BranchKey { depth: d as u8, node_key: masked_key(key, d) })
    }
}

pub(crate) proof fn lemma_walk_branches<H: SmtHasher, S: SmtStore>(store: S, key: Hash256, a: int, d: int)
    requires
        0 <= a <= d < walk_stop::<H, S>(store, key, a),
    ensures
        spec_branching_data::<H, S>(store, key, d) is Sibling,
        walk_stop::<H, S>(store, key, a) == walk_stop::<H, S>(store, key, d + 1),
    decreases d - a,
{
    if a < d {
        lemma_walk_branches::<H, S>(store, key, a + 1, d);
    }
}

pub(crate) proof fn lemma_walk_stop_bounds<H: SmtHasher, S: SmtStore>(store: S, key: Hash256, a: int)
    requires
        0 <= a <= DEPTH,
    ensures
        a <= walk_stop::<H, S>(store, key, a) <= DEPTH,
        walk_stop::<H, S>(store, key, a) < DEPTH ==> !(spec_branching_data::<H, S>(
            store,
            key,
            walk_stop::<H, S>(store, key, a),
        ) is Sibling),
    decreases DEPTH - a,
{
    if a < DEPTH && spec_branching_data::<H, S>(store, key, a) is Sibling {
        lemma_walk_stop_bounds::<H, S>(store, key, a + 1);
    }
}

proof fn lemma_walk_siblings_prefix<H: SmtHasher, S: SmtStore>(store: S, key: Hash256, a: int, b: int)
    requires
        0 <= a <= b,
    ensures
        walk_siblings::<H, S>(store, key, a).len() <= walk_siblings::<H, S>(store, key, b).len(),
        walk_siblings::<H, S>(store, key, a) == walk_siblings::<H, S>(store, key, b).subrange(
            0,
            walk_siblings::<H, S>(store, key, a).len() as int,
        ),
    decreases b - a,
{
    if a < b {
        lemma_walk_siblings_prefix::<H, S>(store, key, a, b - 1);
        let wb1 = walk_siblings::<H, S>(store, key, b - 1);
        let wb = walk_siblings::<H, S>(store, key, b);
        let wa = walk_siblings::<H, S>(store, key, a);
        assert(wb.subrange(0, wb1.len() as int) =~= wb1);
        assert(wb.subrange(0, wa.len() as int) =~= wb1.subrange(0, wa.len() as int));
    } else {
        let wa = walk_siblings::<H, S>(store, key, a);
        assert(wa.subrange(0, wa.len() as int) =~= wa);
    }
}

proof fn lemma_count_matches_walk<H: SmtHasher, S: SmtStore>(
    store: S,
    key: Hash256,
    proof: OwnedSmtProof,
    d: int,
)
    requires
        proves_key::<H, S>(store, key, proof),
        0 <= d <= walk_stop::<H, S>(store, key, 0),
    ensures
        nonempty_count(proof.bitmap@, d) == walk_siblings::<H, S>(store, key, d).len(),
    decreases d,
{
    if d > 0 {
        lemma_count_matches_walk::<H, S>(store, key, proof, d - 1);
        lemma_walk_branches::<H, S>(store, key, 0, d - 1);
        assert(bitmap_bit(proof.bitmap@, d - 1) == walk_bit::<H, S>(store, key, d - 1));
    }
}

proof fn lemma_count_past_stop<H: SmtHasher, S: SmtStore>(
    store: S,
    key: Hash256,
    proof: OwnedSmtProof,
    d: int,
)
    requires
        proves_key::<H, S>(store, key, proof),
        walk_stop::<H, S>(store, key, 0) <= d <= DEPTH,
    ensures
        nonempty_count(proof.bitmap@, d) == nonempty_count(
            proof.bitmap@,
            walk_stop::<H, S>(store, key, 0),
        ),
    decreases d - walk_stop::<H, S>(store, key, 0),
{
    lemma_walk_stop_bounds::<H, S>(store, key, 0);
    if d > walk_stop::<H, S>(store, key, 0) {
        lemma_count_past_stop::<H, S>(store, key, proof, d - 1);
        assert(bitmap_bit(proof.bitmap@, d - 1) == walk_bit::<H, S>(store, key, d - 1));
    }
}

proof fn lemma_empty_tail<H: SmtHasher, S: SmtStore>(
    store: S,
    key: Hash256,
    proof: OwnedSmtProof,
    seed: Hash256,
    d: int,
)
    requires
        proves_key::<H, S>(store, key, proof),
        walk_stop::<H, S>(store, key, 0) <= d <= DEPTH,
        seed == spec_zero_hash(),
    ensures
        path_node::<H>(proof.bitmap@, proof.siblings@, key, seed, DEPTH as int, d) == empty_hash::<H>(
            (DEPTH - d) as nat,
        ),
    decreases DEPTH - d,
{
    lemma_walk_stop_bounds::<H, S>(store, key, 0);
    if d < DEPTH {
        lemma_empty_tail::<H, S>(store, key, proof, seed, d + 1);
        assert(bitmap_bit(proof.bitmap@, d) == walk_bit::<H, S>(store, key, d));
        assert(empty_hash::<H>((DEPTH - d) as nat) == H::spec_node(
            empty_hash::<H>((DEPTH - d - 1) as nat),
            empty_hash::<H>((DEPTH - d - 1) as nat),
        ));
    }
}

proof fn lemma_path_up<H: SmtHasher, S: SmtStore>(
    store: S,
    root: Hash256,
    key: Hash256,
    proof: OwnedSmtProof,
    seed: Hash256,
    limit: int,
    d: int,
)
    requires
        store_consistent::<H, S>(store, root),
        proves_key::<H, S>(store, key, proof),
        0 <= d <= walk_stop::<H, S>(store, key, 0),
        limit == proof.terminal.spec_depth(),
        path_node::<H>(proof.bitmap@, proof.siblings@, key, seed, limit, walk_stop::<H, S>(store, key, 0))
            == path_value::<H, S>(store, key, walk_stop::<H, S>(store, key, 0)),
        walk_stop::<H, S>(store, key, 0) <= limit,
    ensures
        path_node::<H>(proof.bitmap@, proof.siblings@, key, seed, limit, d) == path_value::<H, S>(
            store,
            key,
            d,
        ),
    decreases walk_stop::<H, S>(store, key, 0) - d,
{
    let stop = walk_stop::<H, S>(store, key, 0);
    if d < stop {
        lemma_path_up::<H, S>(store, root, key, proof, seed, limit, d + 1);
        lemma_walk_branches::<H, S>(store, key, 0, d);
        lemma_walk_stop_bounds::<H, S>(store, key, 0);
        let bk = BranchKey { depth: d as u8, node_key: masked_key(key, d) };
        let data = spec_branching_data::<H, S>(store, key, d);
        assert(bitmap_bit(proof.bitmap@, d) == walk_bit::<H, S>(store, key, d));
        lemma_count_matches_walk::<H, S>(store, key, proof, d);
        lemma_walk_siblings_prefix::<H, S>(store, key, d + 1, stop);
        let ws = walk_siblings::<H, S>(store, key, d);
        if let NodeBranchingData::Sibling(Some(h)) = data {
            assert(walk_siblings::<H, S>(store, key, d + 1) == ws.push(h));
            assert(proof.siblings@[ws.len() as int] == walk_siblings::<H, S>(store, key, d + 1)[ws.len() as int]);
        }
        if d < DEPTH - 1 {
            lemma_path_child(key, d);
            assert(store.spec_node(bk) is Some);
        } else {
            lemma_last_level(key);
            assert(store.spec_node(bk) is Some);
        }
    }
}

/// A single-key proof generated from a store consistent with the tree's root verifies
/// against that root, for whatever the tree holds under the key: its leaf hash when the key
/// is present (an inclusion proof), nothing when it is not (a non-inclusion proof).
pub proof fn law_single_proof_verifies<H: SmtHasher, S: SmtStore>(
    tree: SparseMerkleTree<H, S>,
    key: Hash256,
    proof: OwnedSmtProof,
)
    requires
        store_consistent::<H, S>(tree.store, tree.root),
        proves_key::<H, S>(tree.store, key, proof),
    ensures
        single_proof_result::<H>(
            proof.bitmap@,
            proof.siblings@,
            proof.terminal,
            key,
            key_status::<H, S>(tree.store, key),
        ) == Ok::<Hash256, crate::proof_single::SmtProofError>(tree.root),
{
    let store = tree.store;
    let stop = walk_stop::<H, S>(store, key, 0);
    lemma_walk_stop_bounds::<H, S>(store, key, 0);
    let limit = proof.terminal.spec_depth() as int;
    let status = key_status::<H, S>(store, key);
    let seed = proof_seed::<H>(proof.terminal, key, status);
    lemma_count_matches_walk::<H, S>(store, key, proof, stop);
    if stop < DEPTH {
        let data = spec_branching_data::<H, S>(store, key, stop);
        match data {
            NodeBranchingData::Terminal(t) => {
                assert(limit == stop);
            },
            _ => {
                assert(limit == DEPTH);
                lemma_count_past_stop::<H, S>(store, key, proof, DEPTH as int);
                lemma_empty_tail::<H, S>(store, key, proof, seed, stop);
            },
        }
    } else {
        assert(limit == DEPTH);
    }
    assert(proof.siblings@.len() == nonempty_count(proof.bitmap@, limit));
    lemma_path_up::<H, S>(store, tree.root, key, proof, seed, limit, 0);
    lemma_root_key(key);
}

} // verus!
