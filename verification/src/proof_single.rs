//! Single-key proofs of the sparse Merkle tree and the root they imply.

use vstd::prelude::*;
use crate::bitmap::bitmap_bit;
use crate::hash::{Hash256, DEPTH, spec_bit_at, bit_at, hash_eq, spec_zero_hash, zero_hash};
use crate::hasher::{SmtHasher, empty_hash, empty_hash_at_depth, empty_hashes};
use crate::store::CollapsedLeaf;

verus! {

/// Where and how a proof's walk down the tree stopped.
#[derive(Clone, Copy, Debug, PartialEq, Eq)]
pub enum ProofTerminal {
    /// The walk went all the way down to the leaf level.
    Full,
    /// The walk stopped at `depth`, at a collapsed subtree holding the queried key.
    Collapsed { depth: u8 },
    /// The walk stopped at `depth`, at a collapsed subtree holding a different key (`leaf`).
    CollapsedOther { depth: u8, leaf: CollapsedLeaf },
}

impl ProofTerminal {
    /// The depth at which the walk stopped: [`DEPTH`] for `Full`, the stored depth otherwise.
    pub open spec fn spec_depth(self) -> nat {
        match self {
            ProofTerminal::Full => DEPTH as nat,
            ProofTerminal::Collapsed { depth } => depth as nat,
            ProofTerminal::CollapsedOther { depth, .. } => depth as nat,
        }
    }

    /// The depth at which the walk stopped (see [`ProofTerminal::spec_depth`]).
    pub fn depth(self) -> (d: usize)
        ensures
            d == self.spec_depth(),
    {
        match self {
            ProofTerminal::Full => DEPTH,
            ProofTerminal::Collapsed { depth } => depth as usize,
            ProofTerminal::CollapsedOther { depth, .. } => depth as usize,
        }
    }
}

/// Errors of proof verification.
#[derive(Clone, Debug, PartialEq, Eq)]
pub enum SmtProofError {
    /// The bitmap implies `expected` non-empty siblings, but the proof holds `actual`.
    SiblingCountMismatch { expected: usize, actual: usize },
}

/// The number of depths below `limit` whose sibling is non-empty (bitmap bit unset).
pub open spec fn nonempty_count(bitmap: Seq<u8>, limit: int) -> nat
    decreases limit,
{
    if limit <= 0 {
        0
    } else {
        nonempty_count(bitmap, limit - 1) + if bitmap_bit(bitmap, limit - 1) {
            0nat
        } else {
            1nat
        }
    }
}

/// The hash a single proof starts from at its terminal depth.
pub open spec fn proof_seed<H: SmtHasher>(
    terminal: ProofTerminal,
    key: Hash256,
    leaf_hash: Option<Hash256>,
) -> Hash256 {
    match (terminal, leaf_hash) {
        (ProofTerminal::CollapsedOther { leaf, .. }, None) => if leaf.lane_key != key {
            H::spec_collapsed(leaf.lane_key, leaf.leaf_hash)
        } else {
            spec_zero_hash()
        },
        (_, Some(lh)) => H::spec_collapsed(key, lh),
        (_, None) => spec_zero_hash(),
    }
}

/// The hash a single proof implies for the node at depth `d` on the path of `key`: the seed at
/// the terminal depth `limit`, and above it the branch hash of the child on the path and its
/// sibling, where the sibling at depth `d` is the empty-subtree hash when its bitmap bit is set
/// and otherwise the next stored sibling (siblings are stored in ascending depth order).
pub open spec fn path_node<H: SmtHasher>(
    bitmap: Seq<u8>,
    siblings: Seq<Hash256>,
    key: Hash256,
    seed: Hash256,
    limit: int,
    d: int,
) -> Hash256
    decreases limit - d,
{
    if d >= limit {
        seed
    } else {
        let child = path_node::<H>(bitmap, siblings, key, seed, limit, d + 1);
        let sibling = if bitmap_bit(bitmap, d) {
            empty_hash_at_depth::<H>(d)
        } else {
            siblings[nonempty_count(bitmap, d) as int]
        };
        if spec_bit_at(key, d) {
            H::spec_node(sibling, child)
        } else {
            H::spec_node(child, sibling)
        }
    }
}

/// The root a single proof implies for `key` with an optional leaf hash.
pub open spec fn single_proof_root<H: SmtHasher>(
    bitmap: Seq<u8>,
    siblings: Seq<Hash256>,
    terminal: ProofTerminal,
    key: Hash256,
    leaf_hash: Option<Hash256>,
) -> Hash256 {
    path_node::<H>(
        bitmap,
        siblings,
        key,
        proof_seed::<H>(terminal, key, leaf_hash),
        terminal.spec_depth() as int,
        0,
    )
}

/// What computing the root of a single proof gives: the sibling-count error when the number
/// of stored siblings differs from the number of unset bitmap bits below the terminal depth,
/// and [`single_proof_root`] otherwise.
pub open spec fn single_proof_result<H: SmtHasher>(
    bitmap: Seq<u8>,
    siblings: Seq<Hash256>,
    terminal: ProofTerminal,
    key: Hash256,
    leaf_hash: Option<Hash256>,
) -> Result<Hash256, SmtProofError> {
    if siblings.len() != nonempty_count(bitmap, terminal.spec_depth() as int) {
        Err(
            SmtProofError::SiblingCountMismatch {
                expected: nonempty_count(bitmap, terminal.spec_depth() as int) as usize,
                actual: siblings.len() as usize,
            },
        )
    } else {
        Ok(single_proof_root::<H>(bitmap, siblings, terminal, key, leaf_hash))
    }
}

/// Owned compressed proof for one key of a 256-bit sparse Merkle tree.
#[derive(Clone, Debug, PartialEq, Eq)]
pub struct OwnedSmtProof {
    /// Bit `d` set means the sibling at depth `d` is the empty-subtree hash and is omitted.
    pub bitmap: [u8; 32],
    /// The non-empty siblings, in ascending depth order, up to the terminal depth.
    pub siblings: Vec<Hash256>,
    /// How the walk down the tree ended.
    pub terminal: ProofTerminal,
}

/// Counts the depths below `limit` whose bitmap bit is unset.
fn bitmap_clear_count_before(bitmap: &[u8; 32], limit: usize) -> (n: usize)
    requires
        limit <= DEPTH,
    ensures
        n == nonempty_count(bitmap@, limit as int),
{
    let mut n: usize = 0;
    let mut d: usize = 0;
    while d < limit
        invariant
            d <= limit <= DEPTH,
            n == nonempty_count(bitmap@, d as int),
            n <= d,
        decreases limit - d,
    {
        if bitmap[d / 8] & (1u8 << ((d % 8) as u8)) == 0 {
            n = n + 1;
        }
        d = d + 1;
    }
    n
}

impl OwnedSmtProof {
    /// A copy of the proof.
    pub fn copy_proof(&self) -> (p: OwnedSmtProof)
        ensures
            p.bitmap == self.bitmap,
            p.siblings@ == self.siblings@,
            p.terminal == self.terminal,
    {
        let mut siblings: Vec<Hash256> = Vec::new();
        let mut i: usize = 0;
        while i < self.siblings.len()
            invariant
                i <= self.siblings@.len(),
                siblings@ == self.siblings@.subrange(0, i as int),
            decreases self.siblings@.len() - i,
        {
            siblings.push(self.siblings[i]);
            i = i + 1;
            assert(siblings@ =~= self.siblings@.subrange(0, i as int));
        }
        assert(siblings@ =~= self.siblings@);
        OwnedSmtProof { bitmap: self.bitmap, siblings, terminal: self.terminal }
    }

    /// Reconstructs the root that this proof implies for `key` with `leaf_hash`
    /// (`Some` for an inclusion proof, `None` for a non-inclusion proof).
    ///
    /// Fails exactly when the number of stored siblings differs from the number of unset bitmap
    /// bits below the terminal depth; otherwise returns [`single_proof_root`].
    pub fn compute_root<H: SmtHasher>(&self, key: &Hash256, leaf_hash: Option<Hash256>) -> (r: Result<
        Hash256,
        SmtProofError,
    >)
        ensures
            r == single_proof_result::<H>(self.bitmap@, self.siblings@, self.terminal, *key, leaf_hash),
            self.siblings@.len() != nonempty_count(self.bitmap@, self.terminal.spec_depth() as int)
                ==> r == Err::<Hash256, SmtProofError>(
                SmtProofError::SiblingCountMismatch {
                    expected: nonempty_count(
                        self.bitmap@,
                        self.terminal.spec_depth() as int,
                    ) as usize,
                    actual: self.siblings@.len() as usize,
                },
            ),
            self.siblings@.len() == nonempty_count(self.bitmap@, self.terminal.spec_depth() as int)
                ==> r == Ok::<Hash256, SmtProofError>(
                single_proof_root::<H>(
                    self.bitmap@,
                    self.siblings@,
                    self.terminal,
                    *key,
                    leaf_hash,
                ),
            ),
    {
        let limit = self.terminal.depth();
        let expected = bitmap_clear_count_before(&self.bitmap, limit);
        if self.siblings.len() != expected {
            return Err(SmtProofError::SiblingCountMismatch { expected, actual: self.siblings.len() });
        }
        let mut current = match (self.terminal, leaf_hash) {
            (ProofTerminal::CollapsedOther { leaf, .. }, None) => {
                if !hash_eq(&leaf.lane_key, key) {
                    H::hash_collapsed(&leaf.lane_key, &leaf.leaf_hash)
                } else {
                    zero_hash()
                }
            },
            (_, Some(lh)) => H::hash_collapsed(key, &lh),
            (_, None) => zero_hash(),
        };
        let ghost seed = current;
        assert(seed == proof_seed::<H>(self.terminal, *key, leaf_hash));
        let empties = empty_hashes::<H>();
        let mut sib_idx = self.siblings.len();
        let mut d = limit;
        while d > 0
            invariant
                d <= limit <= DEPTH,
                limit == self.terminal.spec_depth(),
                self.siblings@.len() == nonempty_count(self.bitmap@, limit as int),
                sib_idx == nonempty_count(self.bitmap@, d as int),
                empties@.len() == DEPTH + 1,
                forall|h: int| 0 <= h <= DEPTH ==> #[trigger] empties@[h] == empty_hash::<H>(h as nat),
                current == path_node::<H>(self.bitmap@, self.siblings@, *key, seed, limit as int, d as int),
            decreases d,
        {
            proof {
                lemma_nonempty_count_monotone(self.bitmap@, d as int, limit as int);
            }
            d = d - 1;
            let is_empty = self.bitmap[d / 8] & (1u8 << ((d % 8) as u8)) != 0;
            let sibling = if is_empty {
                empties[DEPTH - 1 - d]
            } else {
                sib_idx = sib_idx - 1;
                self.siblings[sib_idx]
            };
            current = if bit_at(key, d) {
                H::hash_node(&sibling, &current)
            } else {
                H::hash_node(&current, &sibling)
            };
        }
        Ok(current)
    }

    /// Whether the proof implies `root` for `key` with `leaf_hash`; fails as [`OwnedSmtProof::compute_root`].
    pub fn verify<H: SmtHasher>(&self, key: &Hash256, leaf_hash: Option<Hash256>, root: Hash256) -> (r: Result<
        bool,
        SmtProofError,
    >)
        ensures
            match r {
                Ok(b) => self.siblings@.len() == nonempty_count(
                    self.bitmap@,
                    self.terminal.spec_depth() as int,
                ) && b == (single_proof_root::<H>(
                    self.bitmap@,
                    self.siblings@,
                    self.terminal,
                    *key,
                    leaf_hash,
                ) == root),
                Err(e) => self.siblings@.len() != nonempty_count(
                    self.bitmap@,
                    self.terminal.spec_depth() as int,
                ),
            },
    {
        let computed = self.compute_root::<H>(key, leaf_hash)?;
        Ok(hash_eq(&computed, &root))
    }
}

/// More depths never count fewer non-empty siblings.
pub proof fn lemma_nonempty_count_monotone(bitmap: Seq<u8>, a: int, b: int)
    requires
        a <= b,
    ensures
        nonempty_count(bitmap, a) <= nonempty_count(bitmap, b),
    decreases b - a,
{
    if a < b {
        lemma_nonempty_count_monotone(bitmap, a, b - 1);
    }
}

} // verus!
