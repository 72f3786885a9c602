//! A sparse Merkle tree over a store, and the generation of single- and multi-key proofs.

use vstd::prelude::*;
use crate::bitmap::{MutableBitmap, bitmap_bit, bytes_for_bits, lemma_set_bit, lemma_zero_byte};
use crate::hash::{Hash256, DEPTH, spec_bit_at, bit_at, hash_eq, keys_sorted, is_sorted};
use crate::hasher::SmtHasher;
use crate::proof_single::{OwnedSmtProof, ProofTerminal, nonempty_count};
use crate::proof_multi::{OwnedSmtMultiProof, has_collapsed_other};
use crate::store::{
    BranchKey, Node, SmtStore, masked_key, spec_child_branch_key, with_bit_flipped, child_branch_key,
    flip_bit,
};

verus! {

/// A sparse Merkle tree: the store holding its nodes and leaves, and its root hash.
pub struct SparseMerkleTree<H: SmtHasher, S: SmtStore> {
    pub store: S,
    pub root: Hash256,
    pub hasher: core::marker::PhantomData<H>,
}

impl<H: SmtHasher, S: SmtStore> SparseMerkleTree<H, S> {
    /// A tree over an existing store with the given root hash.
    pub fn from_root(store: S, root: Hash256) -> (t: Self)
        ensures
            t.store == store,
            t.root == root,
    {
        SparseMerkleTree { store, root, hasher: core::marker::PhantomData }
    }

    /// The root hash of the tree.
    pub fn root(&self) -> (r: Hash256)
        ensures
            r == self.root,
    {
        self.root
    }
}

/// What the store says about the node at a given depth on the path of a key.
#[derive(Clone, Copy, Debug, PartialEq, Eq)]
pub enum NodeBranchingData {
    /// The node branches: the hash of the sibling of the path's child, `None` for an empty one.
    Sibling(Option<Hash256>),
    /// The node is a collapsed subtree, which ends the walk.
    Terminal(ProofTerminal),
    /// There is no node: the subtree is empty.
    EmptySubtree,
}

/// The branching data of the node at `depth` on the path of `key`, as the store holds it.
/// Below the last branching level (depth 255) the sibling is the leaf under the key that
/// differs in the last bit, hashed as a collapsed subtree.
pub open spec fn spec_branching_data<H: SmtHasher, S: SmtStore>(
    store: S,
    key: Hash256,
    depth: int,
) -> NodeBranchingData {
    let bk = BranchKey { depth: depth as u8, node_key: masked_key(key, depth) };
    match store.spec_node(bk) {
        Some(Node::Internal(_)) => {
            if depth == DEPTH - 1 {
                let sk = with_bit_flipped(key, depth);
                match store.spec_leaf(sk) {
                    None => NodeBranchingData::Sibling(None),
                    Some(lh) => NodeBranchingData::Sibling(Some(H::spec_collapsed(sk, lh))),
                }
            } else {
                match store.spec_node(spec_child_branch_key(bk, !spec_bit_at(key, depth))) {
                    None => NodeBranchingData::Sibling(None),
                    Some(Node::Internal(h)) => NodeBranchingData::Sibling(Some(h)),
                    Some(Node::Collapsed(cl)) => NodeBranchingData::Sibling(
                        Some(H::spec_collapsed(cl.lane_key, cl.leaf_hash)),
                    ),
                }
            }
        },
        Some(Node::Collapsed(cl)) => {
            if cl.lane_key == key {
                NodeBranchingData::Terminal(ProofTerminal::Collapsed { depth: depth as u8 })
            } else {
                NodeBranchingData::Terminal(
                    ProofTerminal::CollapsedOther { depth: depth as u8, leaf: cl },
                )
            }
        },
        None => NodeBranchingData::EmptySubtree,
    }
}

impl<H: SmtHasher, S: SmtStore> SparseMerkleTree<H, S> {
    /// Reads the branching data of the node at `depth` on the path of `key`
    /// (see [`spec_branching_data`]); fails only when the store fails.
    pub fn get_branching_data(&self, key: &Hash256, depth: usize) -> (r: Result<
        NodeBranchingData,
        S::Error,
    >)
        requires
            depth < DEPTH,
        ensures
            r matches Ok(b) ==> b == spec_branching_data::<H, S>(self.store, *key, depth as int),
    {
        let branch_key = BranchKey::new(depth as u8, key);
        let goes_right = bit_at(key, depth);
        match self.store.get_node(&branch_key)? {
            Some(Node::Internal(_)) => {
                if depth == DEPTH - 1 {
                    let sibling_leaf_key = flip_bit(key, depth);
                    match self.store.get_leaf(&sibling_leaf_key)? {
                        None => Ok(NodeBranchingData::Sibling(None)),
                        Some(leaf_hash) => Ok(
                            NodeBranchingData::Sibling(
                                Some(H::hash_collapsed(&sibling_leaf_key, &leaf_hash)),
                            ),
                        ),
                    }
                } else {
                    let sibling_key = child_branch_key(&branch_key, !goes_right);
                    match self.store.get_node(&sibling_key)? {
                        None => Ok(NodeBranchingData::Sibling(None)),
                        Some(Node::Internal(hash)) => Ok(NodeBranchingData::Sibling(Some(hash))),
                        Some(Node::Collapsed(cl)) => Ok(
                            NodeBranchingData::Sibling(
                                Some(H::hash_collapsed(&cl.lane_key, &cl.leaf_hash)),
                            ),
                        ),
                    }
                }
            },
            Some(Node::Collapsed(cl)) => {
                if hash_eq(&cl.lane_key, key) {
                    Ok(NodeBranchingData::Terminal(ProofTerminal::Collapsed { depth: depth as u8 }))
                } else {
                    Ok(
                        NodeBranchingData::Terminal(
                            ProofTerminal::CollapsedOther { depth: depth as u8, leaf: cl },
                        ),
                    )
                }
            },
            None => Ok(NodeBranchingData::EmptySubtree),
        }
    }
}


/// The first depth at or after `d` whose node on the path of `key` does not branch
/// ([`DEPTH`] if every one does): where a single-key walk stops.
pub open spec fn walk_stop<H: SmtHasher, S: SmtStore>(store: S, key: Hash256, d: int) -> int
    decreases DEPTH - d,
{
    if d >= DEPTH {
        DEPTH as int
    } else if spec_branching_data::<H, S>(store, key, d) is Sibling {
        walk_stop::<H, S>(store, key, d + 1)
    } else {
        d
    }
}

/// The non-empty siblings met on the path of `key` at the depths below `d`, in depth order.
pub open spec fn walk_siblings<H: SmtHasher, S: SmtStore>(store: S, key: Hash256, d: int) -> Seq<
    Hash256,
>
    decreases d,
{
    if d <= 0 {
        Seq::empty()
    } else {
        let prev = walk_siblings::<H, S>(store, key, d - 1);
        match spec_branching_data::<H, S>(store, key, d - 1) {
            NodeBranchingData::Sibling(Some(h)) => prev.push(h),
            _ => prev,
        }
    }
}

/// How the walk of `key` ends: the terminal found where it stops, `Full` otherwise.
pub open spec fn walk_terminal<H: SmtHasher, S: SmtStore>(store: S, key: Hash256) -> ProofTerminal {
    let s = walk_stop::<H, S>(store, key, 0);
    if s < DEPTH {
        match spec_branching_data::<H, S>(store, key, s) {
            NodeBranchingData::Terminal(t) => t,
            _ => ProofTerminal::Full,
        }
    } else {
        ProofTerminal::Full
    }
}

/// Bit `e` of the bitmap of the proof of `key`: set when the walk stopped at or above `e`, or
/// when the sibling at depth `e` is empty.
pub open spec fn walk_bit<H: SmtHasher, S: SmtStore>(store: S, key: Hash256, e: int) -> bool {
    e >= walk_stop::<H, S>(store, key, 0) || spec_branching_data::<H, S>(store, key, e)
        == NodeBranchingData::Sibling(None)
}

/// `p` is the proof of `key` that a walk down `store` gives: the terminal where the walk
/// stopped, the non-empty siblings met above it, and a bitmap bit for every empty sibling and
/// every depth at or below the stop.
pub open spec fn proves_key<H: SmtHasher, S: SmtStore>(store: S, key: Hash256, p: OwnedSmtProof) -> bool {
    &&& p.terminal == walk_terminal::<H, S>(store, key)
    &&& p.siblings@ == walk_siblings::<H, S>(store, key, walk_stop::<H, S>(store, key, 0))
    &&& forall|e: int| 0 <= e < DEPTH ==> bitmap_bit(p.bitmap@, e) == walk_bit::<H, S>(store, key, e)
}

fn set_bit(bitmap: &mut [u8; 32], d: usize)
    requires
        d < DEPTH,
    ensures
        bitmap_bit(final(bitmap)@, d as int),
        forall|e: int| 0 <= e < DEPTH && e != d ==> bitmap_bit(final(bitmap)@, e) == bitmap_bit(old(bitmap)@, e),
{
    let ghost before = bitmap@;
    let k = d / 8;
    let s = (d % 8) as u8;
    bitmap[k] = bitmap[k] | (1u8 << s);
    proof {
        lemma_set_bit(before[k as int], s, s);
        assert forall|e: int| 0 <= e < DEPTH && e != d implies bitmap_bit(bitmap@, e) == bitmap_bit(before, e) by {
            if e / 8 == k {
                lemma_set_bit(before[k as int], s, (e % 8) as u8);
            }
        }
    }
}

fn set_bits_from(bitmap: &mut [u8; 32], from: usize)
    requires
        from <= DEPTH,
    ensures
        forall|e: int| from <= e < DEPTH ==> bitmap_bit(final(bitmap)@, e),
        forall|e: int| 0 <= e < from ==> bitmap_bit(final(bitmap)@, e) == bitmap_bit(old(bitmap)@, e),
{
    let mut d = from;
    while d < DEPTH
        invariant
            from <= d <= DEPTH,
            forall|e: int| from <= e < d ==> bitmap_bit(bitmap@, e),
            forall|e: int| 0 <= e < from ==> bitmap_bit(bitmap@, e) == bitmap_bit(old(bitmap)@, e),
        decreases DEPTH - d,
    {
        set_bit(bitmap, d);
        d = d + 1;
    }
}

impl<H: SmtHasher, S: SmtStore> SparseMerkleTree<H, S> {
    /// Generates an inclusion or non-inclusion proof for `key` by walking down from the root:
    /// the proof records the non-empty siblings met, a bitmap bit for every empty sibling and
    /// every depth at or below the stop, and the terminal where the walk stopped
    /// (see [`walk_stop`], [`walk_siblings`], [`walk_bit`], [`walk_terminal`]).
    /// Fails only when the store fails.
    pub fn prove(&self, key: &Hash256) -> (r: Result<OwnedSmtProof, S::Error>)
        ensures
            r matches Ok(p) ==> proves_key::<H, S>(self.store, *key, p),
    {
        let mut bitmap = [0u8; 32];
        let mut siblings: Vec<Hash256> = Vec::new();
        proof {
            assert forall|e: int| 0 <= e < DEPTH implies !bitmap_bit(bitmap@, e) by {
                lemma_zero_byte((e % 8) as u8);
            }
        }
        let mut depth: usize = 0;
        while depth < DEPTH
            invariant
                depth <= DEPTH,
                walk_stop::<H, S>(self.store, *key, 0) == walk_stop::<H, S>(self.store, *key, depth as int),
                siblings@ == walk_siblings::<H, S>(self.store, *key, depth as int),
                forall|e: int|
                    0 <= e < DEPTH ==> bitmap_bit(bitmap@, e) == (e < depth && spec_branching_data::<H, S>(
                        self.store,
                        *key,
                        e,
                    ) == NodeBranchingData::Sibling(None)),
            decreases DEPTH - depth,
        {
            let data = self.get_branching_data(key, depth)?;
            match data {
                NodeBranchingData::Sibling(sibling) => {
                    match sibling {
                        None => {
                            set_bit(&mut bitmap, depth);
                        },
                        Some(sibling_hash) => {
                            siblings.push(sibling_hash);
                        },
                    }
                },
                NodeBranchingData::Terminal(proof_terminal) => {
                    set_bits_from(&mut bitmap, depth);
                    return Ok(OwnedSmtProof { bitmap, siblings, terminal: proof_terminal });
                },
                NodeBranchingData::EmptySubtree => {
                    set_bits_from(&mut bitmap, depth);
                    return Ok(OwnedSmtProof { bitmap, siblings, terminal: ProofTerminal::Full });
                },
            }
            depth = depth + 1;
        }
        Ok(OwnedSmtProof { bitmap, siblings, terminal: ProofTerminal::Full })
    }
}


/// A range `lo..hi` of the (sorted) keys of a multi-key proof that share the path down to
/// the node at `depth`.
#[derive(Clone, Copy, Debug, PartialEq, Eq)]
pub struct KeyGroup {
    pub lo: usize,
    pub hi: usize,
    pub depth: usize,
}

/// The first index in `lo..hi` whose key has bit `d` set (`hi` if none has): where a group
/// of sorted keys splits into its left and right parts.
pub open spec fn first_right(keys: Seq<Hash256>, lo: int, hi: int, d: int) -> int
    decreases hi - lo,
{
    if lo >= hi {
        hi
    } else if spec_bit_at(keys[lo], d) {
        lo
    } else {
        first_right(keys, lo + 1, hi, d)
    }
}

pub proof fn lemma_first_right_bounds(keys: Seq<Hash256>, lo: int, hi: int, d: int)
    requires
        lo <= hi,
    ensures
        lo <= first_right(keys, lo, hi, d) <= hi,
    decreases hi - lo,
{
    if lo < hi && !spec_bit_at(keys[lo], d) {
        lemma_first_right_bounds(keys, lo + 1, hi, d);
    }
}

/// The weight of a group: its number of keys times the levels left down to `top`.
pub open spec fn group_weight(g: KeyGroup, top: int) -> nat {
    if g.lo < g.hi && g.depth <= top {
        ((g.hi - g.lo) * (top - g.depth)) as nat
    } else {
        0
    }
}

/// The total weight of a queue of groups.
pub open spec fn queue_weight(q: Seq<KeyGroup>, top: int) -> nat
    decreases q.len(),
{
    if q.len() == 0 {
        0
    } else {
        queue_weight(q.drop_last(), top) + group_weight(q.last(), top)
    }
}

pub proof fn lemma_queue_weight_drop_first(q: Seq<KeyGroup>, top: int)
    requires
        q.len() > 0,
    ensures
        queue_weight(q, top) == group_weight(q[0], top) + queue_weight(q.drop_first(), top),
    decreases q.len(),
{
    if q.len() > 1 {
        lemma_queue_weight_drop_first(q.drop_last(), top);
        assert(q.drop_last().drop_first() =~= q.drop_first().drop_last());
    } else {
        assert(q.drop_last() =~= Seq::<KeyGroup>::empty());
        assert(q.drop_first() =~= Seq::<KeyGroup>::empty());
    }
}

pub proof fn lemma_split_weight(lo: int, split: int, hi: int, d: int, top: int)
    requires
        lo < split < hi,
        0 <= d < top,
    ensures
        (split - lo) * (top - (d + 1)) + (hi - split) * (top - (d + 1)) == (hi - lo) * (top - d) - (hi - lo),
{
    assert((split - lo) * (top - (d + 1)) + (hi - split) * (top - (d + 1)) == (hi - lo) * (top - d) - (hi - lo)) by (nonlinear_arith);
}

pub proof fn lemma_step_weight(lo: int, hi: int, d: int, top: int)
    requires
        lo < hi,
        0 <= d < top,
    ensures
        (hi - lo) * (top - (d + 1)) == (hi - lo) * (top - d) - (hi - lo),
{
    assert((hi - lo) * (top - (d + 1)) == (hi - lo) * (top - d) - (hi - lo)) by (nonlinear_arith);
}

/// Why a multi-key proof cannot be generated, other than a failing store.
pub enum ProveFailure {
    TerminalForMultipleKeys(Seq<Hash256>),
    CollapsedOtherInMultiProof(ProofTerminal),
    EmptySubtreeKey(Hash256),
    KeysNotSorted,
}

/// The breadth-first generation of a multi-key proof, from the queue of pending groups `q`
/// and the bits, non-empty siblings and terminals recorded so far.
///
/// The first group is taken. A group past the leaf level ends (its terminal stays `Full`), or
/// fails if it holds several keys. A group whose keys all go the same way at its depth reads
/// the branching data of its node: a sibling appends one bit (set for an empty sibling, which
/// is not stored) and the group goes on one level down; a terminal ends the group (failing for
/// several keys or a `CollapsedOther`); an empty subtree fails. A group whose keys go both ways
/// is replaced by its right and left parts one level down, right first: each level is
/// generated from right to left, so that the generation read backwards is in canonical order
/// (depth descending, key ascending).
#[verifier::opaque]
pub open spec fn prove_run<H: SmtHasher, S: SmtStore>(
    store: S,
    keys: Seq<Hash256>,
    q: Seq<KeyGroup>,
    bits: Seq<bool>,
    sibs: Seq<Hash256>,
    terms: Seq<ProofTerminal>,
) -> Result<(Seq<bool>, Seq<Hash256>, Seq<ProofTerminal>), ProveFailure>
    decreases queue_weight(q, DEPTH + 1), q.len(),
{
    if q.len() == 0 {
        Ok((bits, sibs, terms))
    } else {
        let g = q[0];
        let rest = q.drop_first();
        proof {
            lemma_queue_weight_drop_first(q, DEPTH + 1);
        }
        if g.lo >= g.hi {
            prove_run::<H, S>(store, keys, rest, bits, sibs, terms)
        } else if g.depth >= DEPTH {
            if g.hi - g.lo == 1 {
                prove_run::<H, S>(store, keys, rest, bits, sibs, terms)
            } else {
                Err(ProveFailure::TerminalForMultipleKeys(keys.subrange(g.lo as int, g.hi as int)))
            }
        } else {
            let split = first_right(keys, g.lo as int, g.hi as int, g.depth as int);
            proof {
                lemma_first_right_bounds(keys, g.lo as int, g.hi as int, g.depth as int);
            }
            if split == g.lo || split == g.hi {
                match spec_branching_data::<H, S>(store, keys[g.lo as int], g.depth as int) {
                    NodeBranchingData::Sibling(sib) => {
                        let next = KeyGroup { lo: g.lo, hi: g.hi, depth: (g.depth + 1) as usize };
                        proof {
                            lemma_step_weight(g.lo as int, g.hi as int, g.depth as int, DEPTH + 1);
                            assert(rest.push(next).drop_last() =~= rest);
                        }
                        prove_run::<H, S>(
                            store,
                            keys,
                            rest.push(next),
                            bits.push(sib is None),
                            match sib {
                                Some(h) => sibs.push(h),
                                None => sibs,
                            },
                            terms,
                        )
                    },
                    NodeBranchingData::Terminal(t) => {
                        if g.hi - g.lo != 1 {
                            Err(
                                ProveFailure::TerminalForMultipleKeys(
                                    keys.subrange(g.lo as int, g.hi as int),
                                ),
                            )
                        } else if t is CollapsedOther {
                            Err(ProveFailure::CollapsedOtherInMultiProof(t))
                        } else {
                            prove_run::<H, S>(store, keys, rest, bits, sibs, terms.update(g.lo as int, t))
                        }
                    },
                    NodeBranchingData::EmptySubtree => Err(
                        ProveFailure::EmptySubtreeKey(keys[g.lo as int]),
                    ),
                }
            } else {
                let left = KeyGroup { lo: g.lo, hi: split as usize, depth: (g.depth + 1) as usize };
                let right = KeyGroup { lo: split as usize, hi: g.hi, depth: (g.depth + 1) as usize };
                proof {
                    lemma_split_weight(g.lo as int, split, g.hi as int, g.depth as int, DEPTH + 1);
                    assert(rest.push(right).drop_last() =~= rest);
                    assert(rest.push(right).push(left).drop_last() =~= rest.push(right));
                    assert(left.hi == split && right.lo == split);
                    assert(group_weight(left, DEPTH + 1) == (split - g.lo) * (DEPTH + 1 - (g.depth + 1)));
                    assert(group_weight(right, DEPTH + 1) == (g.hi - split) * (DEPTH + 1 - (g.depth + 1)));
                    assert(group_weight(g, DEPTH + 1) == (g.hi - g.lo) * (DEPTH + 1 - g.depth));
                    assert(queue_weight(rest.push(right), DEPTH + 1) == queue_weight(rest, DEPTH + 1) + group_weight(right, DEPTH + 1));
                    assert(queue_weight(rest.push(right).push(left), DEPTH + 1) == queue_weight(rest.push(right), DEPTH + 1) + group_weight(left, DEPTH + 1));
                }
                prove_run::<H, S>(store, keys, rest.push(right).push(left), bits, sibs, terms)
            }
        }
    }
}

/// The outcome of generating a multi-key proof for `keys`: `KeysNotSorted` for unsorted keys,
/// and otherwise [`prove_run`] from one group holding every key at the root, with no bits or
/// siblings recorded and every terminal `Full`.
pub open spec fn prove_multiple_outcome<H: SmtHasher, S: SmtStore>(store: S, keys: Seq<Hash256>) -> Result<
    (Seq<bool>, Seq<Hash256>, Seq<ProofTerminal>),
    ProveFailure,
> {
    if !keys_sorted(keys) {
        Err(ProveFailure::KeysNotSorted)
    } else {
        prove_run::<H, S>(
            store,
            keys,
            seq![KeyGroup { lo: 0, hi: keys.len() as usize, depth: 0 }],
            Seq::empty(),
            Seq::empty(),
            Seq::new(keys.len(), |i: int| ProofTerminal::Full),
        )
    }
}

pub proof fn lemma_prove_run_empty<H: SmtHasher, S: SmtStore>(
    store: S,
    keys: Seq<Hash256>,
    q: Seq<KeyGroup>,
    bits: Seq<bool>,
    sibs: Seq<Hash256>,
    terms: Seq<ProofTerminal>,
)
    requires
        q.len() == 0,
    ensures
        prove_run::<H, S>(store, keys, q, bits, sibs, terms) == Ok::<
            (Seq<bool>, Seq<Hash256>, Seq<ProofTerminal>),
            ProveFailure,
        >((bits, sibs, terms)),
{
    reveal(prove_run);
}

pub proof fn lemma_prove_run_leaf_level<H: SmtHasher, S: SmtStore>(
    store: S,
    keys: Seq<Hash256>,
    q: Seq<KeyGroup>,
    bits: Seq<bool>,
    sibs: Seq<Hash256>,
    terms: Seq<ProofTerminal>,
)
    requires
        q.len() > 0,
        q[0].lo < q[0].hi,
        q[0].depth >= DEPTH,
    ensures
        prove_run::<H, S>(store, keys, q, bits, sibs, terms) == if q[0].hi - q[0].lo == 1 {
            prove_run::<H, S>(store, keys, q.drop_first(), bits, sibs, terms)
        } else {
            Err(ProveFailure::TerminalForMultipleKeys(keys.subrange(q[0].lo as int, q[0].hi as int)))
        },
{
    reveal(prove_run);
}

pub proof fn lemma_prove_run_split<H: SmtHasher, S: SmtStore>(
    store: S,
    keys: Seq<Hash256>,
    q: Seq<KeyGroup>,
    bits: Seq<bool>,
    sibs: Seq<Hash256>,
    terms: Seq<ProofTerminal>,
    split: int,
)
    requires
        q.len() > 0,
        q[0].lo < split < q[0].hi,
        q[0].depth < DEPTH,
        split == first_right(keys, q[0].lo as int, q[0].hi as int, q[0].depth as int),
    ensures
        prove_run::<H, S>(store, keys, q, bits, sibs, terms) == prove_run::<H, S>(
            store,
            keys,
            q.drop_first().push(KeyGroup { lo: split as usize, hi: q[0].hi, depth: (q[0].depth + 1) as usize }).push(
                KeyGroup { lo: q[0].lo, hi: split as usize, depth: (q[0].depth + 1) as usize },
            ),
            bits,
            sibs,
            terms,
        ),
{
    reveal(prove_run);
}

pub proof fn lemma_prove_run_step<H: SmtHasher, S: SmtStore>(
    store: S,
    keys: Seq<Hash256>,
    q: Seq<KeyGroup>,
    bits: Seq<bool>,
    sibs: Seq<Hash256>,
    terms: Seq<ProofTerminal>,
)
    requires
        q.len() > 0,
        q[0].lo < q[0].hi,
        q[0].depth < DEPTH,
        first_right(keys, q[0].lo as int, q[0].hi as int, q[0].depth as int) == q[0].lo
            || first_right(keys, q[0].lo as int, q[0].hi as int, q[0].depth as int) == q[0].hi,
    ensures
        prove_run::<H, S>(store, keys, q, bits, sibs, terms) == match spec_branching_data::<H, S>(
            store,
            keys[q[0].lo as int],
            q[0].depth as int,
        ) {
            NodeBranchingData::Sibling(sib) => prove_run::<H, S>(
                store,
                keys,
                q.drop_first().push(KeyGroup { lo: q[0].lo, hi: q[0].hi, depth: (q[0].depth + 1) as usize }),
                bits.push(sib is None),
                match sib {
                    Some(h) => sibs.push(h),
                    None => sibs,
                },
                terms,
            ),
            NodeBranchingData::Terminal(t) => {
                if q[0].hi - q[0].lo != 1 {
                    Err(ProveFailure::TerminalForMultipleKeys(keys.subrange(q[0].lo as int, q[0].hi as int)))
                } else if t is CollapsedOther {
                    Err(ProveFailure::CollapsedOtherInMultiProof(t))
                } else {
                    prove_run::<H, S>(store, keys, q.drop_first(), bits, sibs, terms.update(q[0].lo as int, t))
                }
            },
            NodeBranchingData::EmptySubtree => Err(ProveFailure::EmptySubtreeKey(keys[q[0].lo as int])),
        },
{
    reveal(prove_run);
}

/// Errors of multi-key proof generation.
pub enum ProveError<S: SmtStore> {
    /// The store failed.
    StoreError(S::Error),
    /// The walk reached a terminal while several keys still share the path.
    TerminalForMultipleKeys(Vec<Hash256>),
    /// A `CollapsedOther` terminal was met, which multi-key proofs do not support.
    CollapsedOtherInMultiProof(ProofTerminal),
    /// The subtree of a key is empty.
    EmptySubtreeKey(Hash256),
    /// The keys are not sorted.
    KeysNotSorted,
}

/// The [`ProveFailure`] an error stands for (a store error stands for none).
pub open spec fn failure_of<S: SmtStore>(e: ProveError<S>) -> Option<ProveFailure> {
    match e {
        ProveError::StoreError(_) => None,
        ProveError::TerminalForMultipleKeys(v) => Some(ProveFailure::TerminalForMultipleKeys(v@)),
        ProveError::CollapsedOtherInMultiProof(t) => Some(ProveFailure::CollapsedOtherInMultiProof(t)),
        ProveError::EmptySubtreeKey(k) => Some(ProveFailure::EmptySubtreeKey(k)),
        ProveError::KeysNotSorted => Some(ProveFailure::KeysNotSorted),
    }
}

/// The number of unset bits.
pub open spec fn falses(bits: Seq<bool>) -> nat
    decreases bits.len(),
{
    if bits.len() == 0 {
        0
    } else {
        falses(bits.drop_last()) + if bits.last() {
            0nat
        } else {
            1nat
        }
    }
}

pub proof fn lemma_nonempty_count_is_falses(bytes: Seq<u8>, bits: Seq<bool>, n: int)
    requires
        0 <= n <= bits.len(),
        forall|i: int| 0 <= i < bits.len() ==> bitmap_bit(bytes, i) == bits[i],
    ensures
        nonempty_count(bytes, n) == falses(bits.subrange(0, n)),
    decreases n,
{
    if n > 0 {
        lemma_nonempty_count_is_falses(bytes, bits, n - 1);
        assert(bits.subrange(0, n).drop_last() =~= bits.subrange(0, n - 1));
    }
}

/// The proof `p` holds the generated `bits`, `sibs` and `terms` in canonical order: the bits
/// and the non-empty siblings in the reverse of the order they were generated in (depth
/// descending, key ascending), one terminal per key.
pub open spec fn proof_records(
    p: OwnedSmtMultiProof,
    bits: Seq<bool>,
    sibs: Seq<Hash256>,
    terms: Seq<ProofTerminal>,
) -> bool {
    &&& p.total_sibling_count == bits.len()
    &&& p.bitmap@.len() == bytes_for_bits(bits.len())
    &&& forall|i: int| 0 <= i < bits.len() ==> #[trigger] bitmap_bit(p.bitmap@, i) == bits[bits.len() - 1 - i]
    &&& forall|i: int| bits.len() <= i < 8 * p.bitmap@.len() ==> !#[trigger] bitmap_bit(p.bitmap@, i)
    &&& p.siblings@.len() == sibs.len()
    &&& forall|i: int| 0 <= i < sibs.len() ==> #[trigger] p.siblings@[i] == sibs[sibs.len() - 1 - i]
    &&& p.terminals@ == terms
}

pub proof fn lemma_falses_drop_first(bits: Seq<bool>)
    requires
        bits.len() > 0,
    ensures
        falses(bits) == falses(bits.drop_first()) + if bits[0] {
            0nat
        } else {
            1nat
        },
    decreases bits.len(),
{
    if bits.len() > 1 {
        lemma_falses_drop_first(bits.drop_last());
        assert(bits.drop_last().drop_first() =~= bits.drop_first().drop_last());
    } else {
        assert(bits.drop_first() =~= Seq::<bool>::empty());
        assert(bits.drop_last() =~= Seq::<bool>::empty());
    }
}

/// Reversing bits keeps the number of unset ones.
pub proof fn lemma_falses_reverse(bits: Seq<bool>)
    ensures
        falses(Seq::new(bits.len(), |i: int| bits[bits.len() - 1 - i])) == falses(bits),
    decreases bits.len(),
{
    let n = bits.len() as int;
    let r = Seq::new(bits.len(), |i: int| bits[n - 1 - i]);
    if n > 0 {
        let t = bits.drop_first();
        lemma_falses_reverse(t);
        assert(r.drop_last() =~= Seq::new(t.len(), |i: int| t[t.len() - 1 - i]));
        lemma_falses_drop_first(bits);
    } else {
        assert(r =~= Seq::<bool>::empty());
    }
}

/// The keys `lo..hi`, copied.
fn copy_range(keys: &[Hash256], lo: usize, hi: usize) -> (v: Vec<Hash256>)
    requires
        lo <= hi <= keys@.len(),
    ensures
        v@ == keys@.subrange(lo as int, hi as int),
{
    let mut v: Vec<Hash256> = Vec::new();
    let mut i = lo;
    while i < hi
        invariant
            lo <= i <= hi <= keys@.len(),
            v@ == keys@.subrange(lo as int, i as int),
        decreases hi - i,
    {
        v.push(keys[i]);
        i = i + 1;
        assert(v@ =~= keys@.subrange(lo as int, i as int));
    }
    v
}

/// Where the group `lo..hi` of sorted keys splits at bit `d` (see [`first_right`]).
fn find_split(keys: &[Hash256], lo: usize, hi: usize, d: usize) -> (s: usize)
    requires
        lo <= hi <= keys@.len(),
        d < DEPTH,
    ensures
        s == first_right(keys@, lo as int, hi as int, d as int),
{
    let mut i = lo;
    while i < hi && !bit_at(&keys[i], d)
        invariant
            lo <= i <= hi <= keys@.len(),
            d < DEPTH,
            first_right(keys@, lo as int, hi as int, d as int) == first_right(keys@, i as int, hi as int, d as int),
        decreases hi - i,
    {
        i = i + 1;
    }
    i
}

impl<H: SmtHasher, S: SmtStore> SparseMerkleTree<H, S> {
    /// For the group of keys `lo..hi`, which all go the same way at `depth`, reads the branching
    /// data of their node at `depth` and records the next step of the proof: a sibling (one bit,
    /// set for an empty sibling, and the sibling itself when it is not empty; returns
    /// `Ok(false)`) or a terminal for the one key of the group (returns `Ok(true)`). Fails
    /// with a terminal for several keys, a `CollapsedOther` terminal, an empty subtree, or a
    /// failing store (which leaves everything as it was).
    fn add_next_step_to_proof(
        &self,
        bits: &mut Vec<bool>,
        total_sibling_count: &mut usize,
        siblings: &mut Vec<Hash256>,
        terminals: &mut Vec<ProofTerminal>,
        keys: &[Hash256],
        lo: usize,
        hi: usize,
        depth: usize,
    ) -> (r: Result<bool, ProveError<S>>)
        requires
            lo < hi <= keys@.len(),
            lo < old(terminals)@.len(),
            depth < DEPTH,
            old(bits)@.len() < usize::MAX,
            *old(total_sibling_count) == old(bits)@.len(),
        ensures
            *final(total_sibling_count) == final(bits)@.len(),
            r matches Err(ProveError::StoreError(_)) ==> {
                &&& final(bits)@ == old(bits)@
                &&& final(siblings)@ == old(siblings)@
                &&& final(terminals)@ == old(terminals)@
            },
            !(r matches Err(ProveError::StoreError(_))) ==> match spec_branching_data::<H, S>(
                self.store,
                keys@[lo as int],
                depth as int,
            ) {
                NodeBranchingData::Sibling(sib) => {
                    &&& r == Ok::<bool, ProveError<S>>(false)
                    &&& final(bits)@ == old(bits)@.push(sib is None)
                    &&& final(siblings)@ == match sib {
                        Some(h) => old(siblings)@.push(h),
                        None => old(siblings)@,
                    }
                    &&& final(terminals)@ == old(terminals)@
                },
                NodeBranchingData::Terminal(t) => {
                    &&& final(bits)@ == old(bits)@
                    &&& final(siblings)@ == old(siblings)@
                    &&& if hi - lo != 1 {
                        r matches Err(ProveError::TerminalForMultipleKeys(v)) && v@ == keys@.subrange(
                            lo as int,
                            hi as int,
                        ) && final(terminals)@ == old(terminals)@
                    } else if t is CollapsedOther {
                        r matches Err(ProveError::CollapsedOtherInMultiProof(t2)) && t2 == t
                            && final(terminals)@ == old(terminals)@
                    } else {
                        r == Ok::<bool, ProveError<S>>(true) && final(terminals)@ == old(
                            terminals,
                        )@.update(lo as int, t)
                    }
                },
                NodeBranchingData::EmptySubtree => {
                    &&& r matches Err(ProveError::EmptySubtreeKey(k)) && k == keys@[lo as int]
                    &&& final(bits)@ == old(bits)@
                    &&& final(siblings)@ == old(siblings)@
                    &&& final(terminals)@ == old(terminals)@
                },
            },
    {
        let data = match self.get_branching_data(&keys[lo], depth) {
            Ok(data) => data,
            Err(e) => return Err(ProveError::StoreError(e)),
        };
        match data {
            NodeBranchingData::Sibling(sibling) => {
                *total_sibling_count = *total_sibling_count + 1;
                match sibling {
                    None => {
                        bits.push(true);
                    },
                    Some(sibling_hash) => {
                        bits.push(false);
                        siblings.push(sibling_hash);
                    },
                }
                Ok(false)
            },
            NodeBranchingData::Terminal(proof_terminal) => {
                if hi - lo != 1 {
                    return Err(ProveError::TerminalForMultipleKeys(copy_range(keys, lo, hi)));
                }
                if let ProofTerminal::CollapsedOther { .. } = proof_terminal {
                    return Err(ProveError::CollapsedOtherInMultiProof(proof_terminal));
                }
                terminals.set(lo, proof_terminal);
                Ok(true)
            },
            NodeBranchingData::EmptySubtree => Err(ProveError::EmptySubtreeKey(keys[lo])),
        }
    }
}

impl<H: SmtHasher, S: SmtStore> SparseMerkleTree<H, S> {
    /// Generates a compressed proof for several sorted keys at once, breadth-first from the
    /// root (see [`prove_multiple_outcome`]): the proof records every bit, non-empty sibling and
    /// terminal of that generation. A generated proof always passes the structural checks of
    /// verification: as many stored siblings as unset bits, enough bitmap bytes, one terminal
    /// per key and no `CollapsedOther` terminal. Fails with `KeysNotSorted` exactly for
    /// unsorted keys; the other failures are those of the generation, or a failing store.
    #[verifier::rlimit(60)]
    #[verifier::spinoff_prover]
    pub fn prove_multiple(&self, keys: &[Hash256]) -> (r: Result<OwnedSmtMultiProof, ProveError<S>>)
        requires
            keys@.len() > 0,
            keys@.len() <= usize::MAX / 512,
        ensures
            !keys_sorted(keys@) <==> r matches Err(ProveError::KeysNotSorted),
            r matches Ok(p) ==> {
                &&& prove_multiple_outcome::<H, S>(self.store, keys@) matches Ok(o)
                &&& proof_records(p, o.0, o.1, o.2)
            },
            r matches Err(e) ==> (failure_of(e) matches Some(f) ==> prove_multiple_outcome::<H, S>(
                self.store,
                keys@,
            ) == Err::<(Seq<bool>, Seq<Hash256>, Seq<ProofTerminal>), ProveFailure>(f)),
            r matches Ok(p) ==> {
                &&& p.siblings@.len() == nonempty_count(p.bitmap@, p.total_sibling_count as int)
                &&& p.total_sibling_count <= 8 * p.bitmap@.len()
                &&& p.terminals@.len() == keys@.len()
                &&& !has_collapsed_other(p.terminals@)
            },
    {
        if !is_sorted(keys) {
            return Err(ProveError::KeysNotSorted);
        }
        let n = keys.len();
        let mut bits: Vec<bool> = Vec::new();
        let mut total_sibling_count: usize = 0;
        let mut siblings: Vec<Hash256> = Vec::new();
        let mut terminals: Vec<ProofTerminal> = Vec::new();
        let mut i: usize = 0;
        while i < n
            invariant
                i <= n,
                terminals@ =~= Seq::new(i as nat, |j: int| ProofTerminal::Full),
            decreases n - i,
        {
            terminals.push(ProofTerminal::Full);
            i = i + 1;
        }
        let mut queue: Vec<KeyGroup> = Vec::new();
        queue.push(KeyGroup { lo: 0, hi: n, depth: 0 });
        let mut head: usize = 0;
        proof {
            assert(queue@.subrange(0, 1) =~= seq![KeyGroup { lo: 0, hi: n, depth: 0 }]);
            assert(bits@ =~= Seq::<bool>::empty());
            assert(siblings@ =~= Seq::<Hash256>::empty());
            let pend = queue@.subrange(0, 1);
            assert(pend.drop_last() =~= Seq::<KeyGroup>::empty());
            assert(queue_weight(pend.drop_last(), DEPTH as int) == 0);
            assert(queue_weight(pend, DEPTH as int) == group_weight(pend[0], DEPTH as int));
        }
        let ghost target = prove_multiple_outcome::<H, S>(self.store, keys@);
        while head < queue.len()
            invariant
                n == keys@.len(),
                0 < n <= usize::MAX / 512,
                keys_sorted(keys@),
                head <= queue@.len(),
                target == prove_multiple_outcome::<H, S>(self.store, keys@),
                prove_run::<H, S>(
                    self.store,
                    keys@,
                    queue@.subrange(head as int, queue@.len() as int),
                    bits@,
                    siblings@,
                    terminals@,
                ) == target,
                forall|j: int|
                    0 <= j < queue@.len() ==> #[trigger] queue@[j].lo < queue@[j].hi <= n && queue@[j].depth
                        <= DEPTH,
                total_sibling_count == bits@.len(),
                siblings@.len() == falses(bits@),
                terminals@.len() == n,
                forall|j: int| 0 <= j < n ==> !(#[trigger] terminals@[j] is CollapsedOther),
                bits@.len() + queue_weight(
                    queue@.subrange(head as int, queue@.len() as int),
                    DEPTH as int,
                ) <= DEPTH * n,
            decreases
                queue_weight(queue@.subrange(head as int, queue@.len() as int), DEPTH + 1),
                queue@.len() - head,
        {
            let ghost pend = queue@.subrange(head as int, queue@.len() as int);
            let ghost bits0 = bits@;
            let ghost sibs0 = siblings@;
            let ghost terms0 = terminals@;
            let g = queue[head];
            head = head + 1;
            proof {
                assert(pend[0] == g);
                assert(pend.drop_first() =~= queue@.subrange(head as int, queue@.len() as int));
                lemma_queue_weight_drop_first(pend, DEPTH + 1);
                lemma_queue_weight_drop_first(pend, DEPTH as int);
            }
            let ghost rest = queue@.subrange(head as int, queue@.len() as int);
            if g.depth >= DEPTH {
                proof {
                    lemma_prove_run_leaf_level::<H, S>(self.store, keys@, pend, bits0, sibs0, terms0);
                }
                if g.hi - g.lo == 1 {
                    continue;
                } else {
                    return Err(ProveError::TerminalForMultipleKeys(copy_range(keys, g.lo, g.hi)));
                }
            }
            let split = find_split(keys, g.lo, g.hi, g.depth);
            proof {
                lemma_first_right_bounds(keys@, g.lo as int, g.hi as int, g.depth as int);
            }
            if split == g.lo || split == g.hi {
                proof {
                    lemma_prove_run_step::<H, S>(self.store, keys@, pend, bits0, sibs0, terms0);
                }
                let step = self.add_next_step_to_proof(
                    &mut bits,
                    &mut total_sibling_count,
                    &mut siblings,
                    &mut terminals,
                    keys,
                    g.lo,
                    g.hi,
                    g.depth,
                );
                let is_terminal = match step {
                    Ok(b) => b,
                    Err(e) => {
                        return Err(e);
                    },
                };
                if !is_terminal {
                    let next = KeyGroup { lo: g.lo, hi: g.hi, depth: g.depth + 1 };
                    let ghost before = queue@;
                    queue.push(next);
                    proof {
                        assert forall|j: int| 0 <= j < queue@.len() implies #[trigger] queue@[j].lo < queue@[j].hi <= n
                            && queue@[j].depth <= DEPTH by {
                            if j < before.len() {
                                assert(queue@[j] == before[j]);
                            }
                        }
                        assert(queue@.subrange(head as int, queue@.len() as int) =~= rest.push(next));
                        assert(rest.push(next).drop_last() =~= rest);
                        assert(bits@.drop_last() =~= bits0);
                        lemma_step_weight(g.lo as int, g.hi as int, g.depth as int, DEPTH as int);
                        lemma_step_weight(g.lo as int, g.hi as int, g.depth as int, DEPTH + 1);
                        assert(queue_weight(rest.push(next), DEPTH + 1) == queue_weight(rest, DEPTH + 1) + group_weight(next, DEPTH + 1));
                        assert(queue_weight(rest.push(next), DEPTH as int) == queue_weight(rest, DEPTH as int) + group_weight(next, DEPTH as int));
                    }
                }
            } else {
                let left = KeyGroup { lo: g.lo, hi: split, depth: g.depth + 1 };
                let right = KeyGroup { lo: split, hi: g.hi, depth: g.depth + 1 };
                proof {
                    lemma_prove_run_split::<H, S>(self.store, keys@, pend, bits0, sibs0, terms0, split as int);
                }
                let ghost before = queue@;
                proof {
                    assert(before[head - 1] == g);
                    assert(g.lo < split < g.hi <= n);
                    assert(g.depth < DEPTH);
                }
                queue.push(right);
                queue.push(left);
                proof {
                    assert forall|j: int| 0 <= j < queue@.len() implies #[trigger] queue@[j].lo < queue@[j].hi <= n
                        && queue@[j].depth <= DEPTH by {
                        if j < before.len() {
                            assert(queue@[j] == before[j]);
                        } else if j == before.len() {
                            assert(queue@[j] == right);
                        } else {
                            assert(queue@[j] == left);
                        }
                    }
                    assert(queue@.subrange(head as int, queue@.len() as int) =~= rest.push(right).push(left));
                    assert(rest.push(right).drop_last() =~= rest);
                    assert(rest.push(right).push(left).drop_last() =~= rest.push(right));
                    lemma_split_weight(g.lo as int, split as int, g.hi as int, g.depth as int, DEPTH as int);
                    lemma_split_weight(g.lo as int, split as int, g.hi as int, g.depth as int, DEPTH + 1);
                    assert(queue_weight(rest.push(right), DEPTH + 1) == queue_weight(rest, DEPTH + 1) + group_weight(right, DEPTH + 1));
                    assert(queue_weight(rest.push(right).push(left), DEPTH + 1) == queue_weight(rest.push(right), DEPTH + 1) + group_weight(left, DEPTH + 1));
                    assert(queue_weight(rest.push(right), DEPTH as int) == queue_weight(rest, DEPTH as int) + group_weight(right, DEPTH as int));
                    assert(queue_weight(rest.push(right).push(left), DEPTH as int) == queue_weight(rest.push(right), DEPTH as int) + group_weight(left, DEPTH as int));
                }
            }
        }
        // The proof holds the bits and siblings in canonical order: the reverse of generation.
        let nb = bits.len();
        let mut bitmap = MutableBitmap::new();
        let mut i: usize = 0;
        while i < nb
            invariant
                nb == bits@.len(),
                nb <= usize::MAX / 2,
                i <= nb,
                bitmap.wf(),
                bitmap.view().len() == i,
                forall|j: int| 0 <= j < i ==> #[trigger] bitmap.view()[j] == bits@[nb - 1 - j],
            decreases nb - i,
        {
            bitmap.append(bits[nb - 1 - i]);
            i = i + 1;
        }
        let ns = siblings.len();
        let mut canonical: Vec<Hash256> = Vec::new();
        let mut k: usize = 0;
        while k < ns
            invariant
                ns == siblings@.len(),
                k <= ns,
                canonical@.len() == k,
                forall|j: int| 0 <= j < k ==> #[trigger] canonical@[j] == siblings@[ns - 1 - j],
            decreases ns - k,
        {
            canonical.push(siblings[ns - 1 - k]);
            k = k + 1;
        }
        let ghost gen_bits = bits@;
        let ghost canon_bits = bitmap.view();
        let bytes = bitmap.bitmap();
        let p = OwnedSmtMultiProof { bitmap: bytes, total_sibling_count, siblings: canonical, terminals };
        proof {
            assert(queue@.subrange(head as int, queue@.len() as int) =~= Seq::<KeyGroup>::empty());
            lemma_prove_run_empty::<H, S>(self.store, keys@, queue@.subrange(head as int, queue@.len() as int), gen_bits, siblings@, p.terminals@);
            lemma_nonempty_count_is_falses(p.bitmap@, canon_bits, canon_bits.len() as int);
            assert(canon_bits.subrange(0, canon_bits.len() as int) =~= canon_bits);
            assert(canon_bits =~= Seq::new(gen_bits.len(), |j: int| gen_bits[gen_bits.len() - 1 - j]));
            lemma_falses_reverse(gen_bits);
            assert forall|j: int| 0 <= j < p.terminals@.len() implies !(#[trigger] p.terminals@[j] is CollapsedOther) by {
            }
        }
        Ok(p)
    }
}

} // verus!
