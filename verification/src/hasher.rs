//! Node hashers of the sparse Merkle tree and the hashes of empty subtrees.

use vstd::prelude::*;
use crate::hash::{Hash256, DEPTH, spec_zero_hash, zero_hash};

verus! {

/// What the keyed BLAKE3 hasher `SeqCommitActiveNode` of `kaspa_hashes` returns for `data`.
pub uninterp spec fn seq_commit_active_node_digest(data: Seq<u8>) -> [u8; 32];

/// What the keyed BLAKE3 hasher `SeqCommitActiveCollapsedNode` of `kaspa_hashes` returns for `data`.
pub uninterp spec fn seq_commit_active_collapsed_node_digest(data: Seq<u8>) -> [u8; 32];

/// Calls `kaspa_hashes::Hasher::hash` of `SeqCommitActiveNode` on `data`; trusted to return
/// [`seq_commit_active_node_digest`] of those bytes.
#[verifier::external_body]
fn seq_commit_active_node_hash(data: &[u8]) -> (h: Hash256)
    ensures
        h.0 == seq_commit_active_node_digest(data@),
{
    Hash256(<kaspa_hashes::SeqCommitActiveNode as kaspa_hashes::Hasher>::hash(data).as_bytes())
}

/// Calls `kaspa_hashes::Hasher::hash` of `SeqCommitActiveCollapsedNode` on `data`; trusted to
/// return [`seq_commit_active_collapsed_node_digest`] of those bytes.
#[verifier::external_body]
fn seq_commit_active_collapsed_node_hash(data: &[u8]) -> (h: Hash256)
    ensures
        h.0 == seq_commit_active_collapsed_node_digest(data@),
{
    Hash256(<kaspa_hashes::SeqCommitActiveCollapsedNode as kaspa_hashes::Hasher>::hash(data).as_bytes())
}

/// The 64 bytes `a || b`.
pub fn concat_hashes(a: &Hash256, b: &Hash256) -> (v: Vec<u8>)
    ensures
        v@ == a.0@ + b.0@,
{
    let mut v: Vec<u8> = Vec::with_capacity(64);
    let mut i: usize = 0;
    while i < 32
        invariant
            0 <= i <= 32,
            v@ == a.0@.subrange(0, i as int),
        decreases 32 - i,
    {
        v.push(a.0[i]);
        i = i + 1;
        assert(v@ =~= a.0@.subrange(0, i as int));
    }
    assert(a.0@.subrange(0, 32) =~= a.0@);
    let mut j: usize = 0;
    while j < 32
        invariant
            0 <= j <= 32,
            v@ == a.0@ + b.0@.subrange(0, j as int),
        decreases 32 - j,
    {
        v.push(b.0[j]);
        j = j + 1;
        assert(v@ =~= a.0@ + b.0@.subrange(0, j as int));
    }
    assert(b.0@.subrange(0, 32) =~= b.0@);
    v
}

/// The hashers a sparse Merkle tree is built with: one for branch nodes and one for
/// collapsed (single-leaf) subtrees, kept apart so that the two kinds of node cannot collide.
pub trait SmtHasher {
    /// The hash of a branch node with children `left` and `right`.
    spec fn spec_node(left: Hash256, right: Hash256) -> Hash256;

    /// The hash of a collapsed subtree holding the single leaf `leaf` under `key`.
    spec fn spec_collapsed(key: Hash256, leaf: Hash256) -> Hash256;

    /// Hashes a branch node from its children.
    fn hash_node(left: &Hash256, right: &Hash256) -> (h: Hash256)
        ensures
            h == Self::spec_node(*left, *right),
    ;

    /// Hashes a collapsed subtree from its key and leaf hash.
    fn hash_collapsed(key: &Hash256, leaf: &Hash256) -> (h: Hash256)
        ensures
            h == Self::spec_collapsed(*key, *leaf),
    ;
}

/// The hasher of the active-lanes tree of sequencing commitments.
pub struct SeqCommitActiveNode;

impl SmtHasher for SeqCommitActiveNode {
    open spec fn spec_node(left: Hash256, right: Hash256) -> Hash256 {
        Hash256(seq_commit_active_node_digest(left.0@ + right.0@))
    }

    open spec fn spec_collapsed(key: Hash256, leaf: Hash256) -> Hash256 {
        Hash256(seq_commit_active_collapsed_node_digest(key.0@ + leaf.0@))
    }

    fn hash_node(left: &Hash256, right: &Hash256) -> (h: Hash256) {
        let data = concat_hashes(left, right);
        seq_commit_active_node_hash(data.as_slice())
    }

    fn hash_collapsed(key: &Hash256, leaf: &Hash256) -> (h: Hash256) {
        let data = concat_hashes(key, leaf);
        seq_commit_active_collapsed_node_hash(data.as_slice())
    }
}

/// The hash of an empty subtree of the given height: the zero hash for an empty leaf, and the
/// branch hash of two empty subtrees one level lower above it.
pub open spec fn empty_hash<H: SmtHasher>(height: nat) -> Hash256
    decreases height,
{
    if height == 0 {
        spec_zero_hash()
    } else {
        let below = empty_hash::<H>((height - 1) as nat);
        H::spec_node(below, below)
    }
}

/// The hash of the empty sibling subtree met when branching at depth `d`, that is, of an empty
/// subtree rooted at depth `d + 1`.
pub open spec fn empty_hash_at_depth<H: SmtHasher>(d: int) -> Hash256 {
    empty_hash::<H>((DEPTH - 1 - d) as nat)
}

/// The hashes of the empty subtrees of every height from 0 to [`DEPTH`].
pub fn empty_hashes<H: SmtHasher>() -> (t: Vec<Hash256>)
    ensures
        t@.len() == DEPTH + 1,
        forall|h: int| 0 <= h <= DEPTH ==> #[trigger] t@[h] == empty_hash::<H>(h as nat),
{
    let mut t: Vec<Hash256> = Vec::with_capacity(DEPTH + 1);
    t.push(zero_hash());
    let mut h: usize = 1;
    while h <= DEPTH
        invariant
            1 <= h <= DEPTH + 1,
            t@.len() == h,
            forall|k: int| 0 <= k < h ==> #[trigger] t@[k] == empty_hash::<H>(k as nat),
        decreases DEPTH + 1 - h,
    {
        let below = t[h - 1];
        let next = H::hash_node(&below, &below);
        t.push(next);
        h = h + 1;
    }
    t
}

} // verus!
