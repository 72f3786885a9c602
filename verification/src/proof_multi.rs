//! Compressed multi-key proofs of the sparse Merkle tree and the root they imply.
//!
//! Once the keys and the depths at which their walks stop are known, the siblings of a proof
//! have a canonical order: by depth descending, then by key ascending. The verifier consumes
//! them front to back (deepest level first, left to right) while it combines the nodes of the
//! keys bottom-up.

use vstd::prelude::*;
use crate::bitmap::{bitmap_bit, bitmap_bit_at};
use crate::hash::{Hash256, DEPTH, spec_bit_at, bit_at, hash_eq, keys_sorted, is_sorted};
use crate::hasher::{SmtHasher, empty_hash, empty_hash_at_depth, empty_hashes};
use crate::proof_single::{ProofTerminal, nonempty_count, lemma_nonempty_count_monotone};

verus! {

/// Borrowed, zero-copy compressed multi-key proof for a 256-bit sparse Merkle tree.
#[derive(Clone, Copy, Debug, PartialEq, Eq)]
pub struct SmtMultiProof<'a> {
    /// Bit `i` (bit `i % 8` of byte `i / 8`) set means that the `i`-th sibling in canonical
    /// order is the empty-subtree hash and is omitted from `siblings`.
    pub bitmap: &'a [u8],
    /// The total number of siblings, empty or not: the number of meaningful bits of `bitmap`.
    pub total_sibling_count: usize,
    /// The non-empty sibling hashes, in canonical order.
    pub siblings: &'a [Hash256],
    /// Where the walk of each key stopped, one per key.
    pub terminals: &'a [ProofTerminal],
}

/// Owned compressed multi-key proof; see [`SmtMultiProof`] for the meaning of the fields.
#[derive(Clone, Debug, PartialEq, Eq)]
pub struct OwnedSmtMultiProof {
    pub bitmap: Vec<u8>,
    pub total_sibling_count: usize,
    pub siblings: Vec<Hash256>,
    pub terminals: Vec<ProofTerminal>,
}

impl OwnedSmtMultiProof {
    /// Borrows the proof as an [`SmtMultiProof`].
    pub fn as_proof(&self) -> (p: SmtMultiProof<'_>)
        ensures
            p.bitmap@ == self.bitmap@,
            p.total_sibling_count == self.total_sibling_count,
            p.siblings@ == self.siblings@,
            p.terminals@ == self.terminals@,
    {
        SmtMultiProof {
            bitmap: self.bitmap.as_slice(),
            total_sibling_count: self.total_sibling_count,
            siblings: self.siblings.as_slice(),
            terminals: self.terminals.as_slice(),
        }
    }
}

/// Errors of multi-proof verification.
#[derive(Clone, Debug, PartialEq, Eq)]
pub enum SmtMultiProofError {
    /// The bitmap implies `expected` non-empty siblings, but the proof holds `actual`.
    SiblingCountMismatch { expected: usize, actual: usize },
    /// The proof has `expected` terminals, but `actual` keys were given.
    KeyWithLeafHashesCountMismatch { expected: usize, actual: usize },
    /// The given keys are not sorted.
    KeyWithLeafHashesAreNotSorted,
    /// A multi-proof holds a `CollapsedOther` terminal, which only single exclusion proofs use.
    CollapsedOtherInMultiProof,
    /// The proof holds more siblings than the root needs.
    MoreSiblingsThenNeeded,
    /// The proof holds fewer siblings than the root needs, or keys that never merge into one
    /// root.
    MissingSiblings,
    /// The proof claims `total_sibling_count` sibling positions, more than the `bitmap_len`
    /// bytes of its bitmap hold.
    BitmapTooShort { total_sibling_count: usize, bitmap_len: usize },
}

/// A node on the way up to the root: the node at `depth` on the path of `key` (the key with
/// index `key_index`), with its hash `value`.
#[derive(Clone, Copy, Debug, PartialEq, Eq)]
pub struct QueueItem {
    pub key: Hash256,
    pub depth: usize,
    pub key_index: usize,
    pub value: Hash256,
}

/// The processing order of queue items: deeper first, and within one depth the smaller key
/// index (the left-most key) first. `item_lt(a, b)` means `b` is processed before `a`.
pub open spec fn item_lt(a: QueueItem, b: QueueItem) -> bool {
    a.depth < b.depth || (a.depth == b.depth && a.key_index > b.key_index)
}

fn item_lt_exec(a: &QueueItem, b: &QueueItem) -> (r: bool)
    ensures
        r == item_lt(*a, *b),
{
    a.depth < b.depth || (a.depth == b.depth && a.key_index > b.key_index)
}

/// Where `x` goes in `q`: after the last element that precedes it.
pub open spec fn insert_position(q: Seq<QueueItem>, x: QueueItem) -> int
    decreases q.len(),
{
    if q.len() == 0 {
        0
    } else if item_lt(q.last(), x) {
        q.len() as int
    } else {
        insert_position(q.drop_last(), x)
    }
}

/// The queue `q` with `x` inserted in order; the next item to process is the last one.
pub open spec fn queue_insert(q: Seq<QueueItem>, x: QueueItem) -> Seq<QueueItem> {
    q.insert(insert_position(q, x), x)
}

/// The sum of the depths of the items of a queue.
pub open spec fn depth_sum(q: Seq<QueueItem>) -> nat
    decreases q.len(),
{
    if q.len() == 0 {
        0
    } else {
        depth_sum(q.drop_last()) + q.last().depth as nat
    }
}

pub proof fn lemma_insert_position_bounds(q: Seq<QueueItem>, x: QueueItem)
    ensures
        0 <= insert_position(q, x) <= q.len(),
    decreases q.len(),
{
    if q.len() > 0 && !item_lt(q.last(), x) {
        lemma_insert_position_bounds(q.drop_last(), x);
    }
}

pub proof fn lemma_depth_sum_append(a: Seq<QueueItem>, b: Seq<QueueItem>)
    ensures
        depth_sum(a + b) == depth_sum(a) + depth_sum(b),
    decreases b.len(),
{
    if b.len() == 0 {
        assert(a + b =~= a);
    } else {
        assert((a + b).drop_last() =~= a + b.drop_last());
        lemma_depth_sum_append(a, b.drop_last());
    }
}

pub proof fn lemma_depth_sum_insert(q: Seq<QueueItem>, x: QueueItem)
    ensures
        depth_sum(queue_insert(q, x)) == depth_sum(q) + x.depth,
{
    let p = insert_position(q, x);
    lemma_insert_position_bounds(q, x);
    let a = q.subrange(0, p);
    let b = q.subrange(p, q.len() as int);
    lemma_depth_sum_append(a.push(x), b);
    lemma_depth_sum_append(a, b);
    assert(a + b =~= q);
    assert(a.push(x).drop_last() =~= a);
}

/// Two keys are siblings at depth `p`: they agree on the bits above `p` and differ at `p`.
pub open spec fn are_siblings(a: Hash256, b: Hash256, p: int) -> bool {
    (forall|i: int| 0 <= i < p ==> spec_bit_at(a, i) == spec_bit_at(b, i)) && spec_bit_at(a, p)
        != spec_bit_at(b, p)
}

fn are_siblings_exec(a: &Hash256, b: &Hash256, p: usize) -> (r: bool)
    requires
        p < DEPTH,
    ensures
        r == are_siblings(*a, *b, p as int),
{
    let mut i: usize = 0;
    while i < p
        invariant
            i <= p < DEPTH,
            forall|j: int| 0 <= j < i ==> spec_bit_at(*a, j) == spec_bit_at(*b, j),
        decreases p - i,
    {
        if bit_at(a, i) != bit_at(b, i) {
            return false;
        }
        i = i + 1;
    }
    bit_at(a, p) != bit_at(b, p)
}

/// One step of the bottom-up combination, then the rest of it: the result of verifying from
/// queue `q`, with the first `b` of the `total` bitmap positions and the first `s` stored
/// siblings consumed.
///
/// The next item (the last one) is at the root: the result is its hash if it is the only
/// item left and every position and sibling was consumed, `MoreSiblingsThenNeeded` if some
/// are left, and `MissingSiblings` if other items are left. Else its sibling is the next
/// queue item when that item is its right sibling, and otherwise the next bitmap position:
/// the empty-subtree hash if the bit is set, the next stored sibling if not; with no position
/// left the result is `MissingSiblings`. The two are hashed into the parent node, which goes
/// back into the queue.
pub open spec fn multi_run<H: SmtHasher>(
    bitmap: Seq<u8>,
    total: int,
    siblings: Seq<Hash256>,
    q: Seq<QueueItem>,
    b: int,
    s: int,
) -> Result<Hash256, SmtMultiProofError>
    decreases depth_sum(q),
{
    if q.len() == 0 {
        Err(SmtMultiProofError::MoreSiblingsThenNeeded)
    } else {
        let cur = q.last();
        let rest = q.drop_last();
        if cur.depth == 0 {
            if b < total || s < siblings.len() {
                Err(SmtMultiProofError::MoreSiblingsThenNeeded)
            } else if rest.len() == 0 {
                Ok(cur.value)
            } else {
                Err(SmtMultiProofError::MissingSiblings)
            }
        } else {
            let p = cur.depth - 1;
            let is_right = spec_bit_at(cur.key, p);
            let in_queue = !is_right && rest.len() > 0 && rest.last().depth == cur.depth
                && are_siblings(cur.key, rest.last().key, p);
            if !in_queue && b >= total {
                Err(SmtMultiProofError::MissingSiblings)
            } else {
                let sibling = if in_queue {
                    rest.last().value
                } else if bitmap_bit(bitmap, b) {
                    empty_hash_at_depth::<H>(p)
                } else {
                    siblings[s]
                };
                let rest2 = if in_queue {
                    rest.drop_last()
                } else {
                    rest
                };
                let b2 = if in_queue {
                    b
                } else {
                    b + 1
                };
                let s2 = if in_queue || bitmap_bit(bitmap, b) {
                    s
                } else {
                    s + 1
                };
                let value = if is_right {
                    H::spec_node(sibling, cur.value)
                } else {
                    H::spec_node(cur.value, sibling)
                };
                let next = QueueItem {
                    key: cur.key,
                    depth: (cur.depth - 1) as usize,
                    key_index: cur.key_index,
                    value,
                };
                proof {
                    lemma_depth_sum_insert(rest2, next);
                    if in_queue {
                        assert(depth_sum(rest) == depth_sum(rest.drop_last()) + rest.last().depth);
                    }
                }
                multi_run::<H>(bitmap, total, siblings, queue_insert(rest2, next), b2, s2)
            }
        }
    }
}

/// The starting item of key `i`: the collapsed hash of the key and its leaf hash, at the depth
/// where the key's walk stopped.
pub open spec fn start_item<H: SmtHasher>(
    terminals: Seq<ProofTerminal>,
    keys_with_leaf_hashes: Seq<(Hash256, Hash256)>,
    i: int,
) -> QueueItem {
    QueueItem {
        key: keys_with_leaf_hashes[i].0,
        depth: terminals[i].spec_depth() as usize,
        key_index: i as usize,
        value: H::spec_collapsed(keys_with_leaf_hashes[i].0, keys_with_leaf_hashes[i].1),
    }
}

/// The queue holding the starting items of the first `n` keys, in processing order.
pub open spec fn start_queue<H: SmtHasher>(
    terminals: Seq<ProofTerminal>,
    keys_with_leaf_hashes: Seq<(Hash256, Hash256)>,
    n: int,
) -> Seq<QueueItem>
    decreases n,
{
    if n <= 0 {
        Seq::empty()
    } else {
        queue_insert(
            start_queue::<H>(terminals, keys_with_leaf_hashes, n - 1),
            start_item::<H>(terminals, keys_with_leaf_hashes, n - 1),
        )
    }
}

/// The keys of a list of (key, leaf hash) pairs.
pub open spec fn keys_of(keys_with_leaf_hashes: Seq<(Hash256, Hash256)>) -> Seq<Hash256> {
    keys_with_leaf_hashes.map_values(|p: (Hash256, Hash256)| p.0)
}

/// Whether some terminal is `CollapsedOther`.
pub open spec fn has_collapsed_other(terminals: Seq<ProofTerminal>) -> bool {
    exists|i: int| 0 <= i < terminals.len() && #[trigger] terminals[i] is CollapsedOther
}

/// The result of verifying a multi-proof against the given keys with leaf hashes: the checks
/// in order (one terminal per key, keys sorted, a bitmap bit for every sibling position, as
/// many stored siblings as unset meaningful bitmap bits, no `CollapsedOther` terminal), then the bottom-up combination [`multi_run`]
/// from the starting items of all keys with nothing consumed yet.
pub open spec fn multi_proof_root<H: SmtHasher>(
    bitmap: Seq<u8>,
    total_sibling_count: int,
    siblings: Seq<Hash256>,
    terminals: Seq<ProofTerminal>,
    keys_with_leaf_hashes: Seq<(Hash256, Hash256)>,
) -> Result<Hash256, SmtMultiProofError> {
    if terminals.len() != keys_with_leaf_hashes.len() {
        Err(
            SmtMultiProofError::KeyWithLeafHashesCountMismatch {
                expected: terminals.len() as usize,
                actual: keys_with_leaf_hashes.len() as usize,
            },
        )
    } else if !keys_sorted(keys_of(keys_with_leaf_hashes)) {
        Err(SmtMultiProofError::KeyWithLeafHashesAreNotSorted)
    } else if total_sibling_count > 8 * bitmap.len() {
        Err(
            SmtMultiProofError::BitmapTooShort {
                total_sibling_count: total_sibling_count as usize,
                bitmap_len: bitmap.len() as usize,
            },
        )
    } else if siblings.len() != nonempty_count(bitmap, total_sibling_count) {
        Err(
            SmtMultiProofError::SiblingCountMismatch {
                expected: nonempty_count(bitmap, total_sibling_count) as usize,
                actual: siblings.len() as usize,
            },
        )
    } else if has_collapsed_other(terminals) {
        Err(SmtMultiProofError::CollapsedOtherInMultiProof)
    } else {
        multi_run::<H>(
            bitmap,
            total_sibling_count,
            siblings,
            start_queue::<H>(terminals, keys_with_leaf_hashes, terminals.len() as int),
            0,
            0,
        )
    }
}

/// Every item of the queue is at most at the leaf level.
pub open spec fn queue_depths_ok(q: Seq<QueueItem>) -> bool {
    forall|i: int| 0 <= i < q.len() ==> #[trigger] q[i].depth <= DEPTH
}

fn queue_push(queue: &mut Vec<QueueItem>, x: QueueItem)
    requires
        queue_depths_ok(old(queue)@),
        x.depth <= DEPTH,
    ensures
        final(queue)@ == queue_insert(old(queue)@, x),
        queue_depths_ok(final(queue)@),
{
    let ghost q = queue@;
    let mut pos = queue.len();
    assert(q.subrange(0, pos as int) =~= q);
    while pos > 0 && !item_lt_exec(&queue[pos - 1], &x)
        invariant
            queue@ == q,
            pos <= q.len(),
            insert_position(q, x) == insert_position(q.subrange(0, pos as int), x),
        decreases pos,
    {
        assert(q.subrange(0, pos as int).drop_last() =~= q.subrange(0, pos - 1));
        pos = pos - 1;
    }
    proof {
        if pos > 0 {
            assert(q.subrange(0, pos as int).last() == q[pos - 1]);
        }
        assert(insert_position(q, x) == pos);
    }
    queue.insert(pos, x);
    proof {
        q.insert_ensures(pos as int, x);
        assert forall|i: int| 0 <= i < queue@.len() implies #[trigger] queue@[i].depth <= DEPTH by {
            if i < pos {
            } else if i > pos {
                assert(queue@[i] == q[i - 1]);
            }
        }
    }
}

impl<'a> SmtMultiProof<'a> {
    /// Reconstructs the root that this proof implies for the given sorted keys with their leaf
    /// hashes: exactly [`multi_proof_root`].
    pub fn compute_root<H: SmtHasher>(&self, keys_with_leaf_hashes: &[(Hash256, Hash256)]) -> (r: Result<
        Hash256,
        SmtMultiProofError,
    >)
        ensures
            r == multi_proof_root::<H>(
                self.bitmap@,
                self.total_sibling_count as int,
                self.siblings@,
                self.terminals@,
                keys_with_leaf_hashes@,
            ),
    {
        let n = self.terminals.len();
        // 1. One terminal per key.
        if n != keys_with_leaf_hashes.len() {
            return Err(
                SmtMultiProofError::KeyWithLeafHashesCountMismatch {
                    expected: n,
                    actual: keys_with_leaf_hashes.len(),
                },
            );
        }
        // 2. Keys are sorted.
        let mut keys: Vec<Hash256> = Vec::new();
        let mut i: usize = 0;
        while i < n
            invariant
                i <= n,
                n == keys_with_leaf_hashes@.len(),
                keys@ == keys_of(keys_with_leaf_hashes@).subrange(0, i as int),
            decreases n - i,
        {
            keys.push(keys_with_leaf_hashes[i].0);
            i = i + 1;
            assert(keys@ =~= keys_of(keys_with_leaf_hashes@).subrange(0, i as int));
        }
        assert(keys@ =~= keys_of(keys_with_leaf_hashes@));
        if !is_sorted(keys.as_slice()) {
            return Err(SmtMultiProofError::KeyWithLeafHashesAreNotSorted);
        }
        // 3. The bitmap holds a bit for every sibling position.
        let total = self.total_sibling_count;
        let bitmap_len = self.bitmap.len();
        if total / 8 > bitmap_len || (total / 8 == bitmap_len && total % 8 != 0) {
            assert(total > 8 * self.bitmap@.len());
            return Err(SmtMultiProofError::BitmapTooShort { total_sibling_count: total, bitmap_len });
        }
        assert(total <= 8 * self.bitmap@.len());
        // 4. As many stored siblings as unset meaningful bitmap bits.
        let mut expected: usize = 0;
        let mut j: usize = 0;
        while j < total
            invariant
                j <= total <= 8 * self.bitmap@.len(),
                expected == nonempty_count(self.bitmap@, j as int),
                expected <= j,
            decreases total - j,
        {
            if !bitmap_bit_at(self.bitmap, j) {
                expected = expected + 1;
            }
            j = j + 1;
        }
        if self.siblings.len() != expected {
            return Err(
                SmtMultiProofError::SiblingCountMismatch { expected, actual: self.siblings.len() },
            );
        }
        // 5. The starting item of every key, in processing order.
        let mut queue: Vec<QueueItem> = Vec::new();
        let mut k: usize = 0;
        while k < n
            invariant
                k <= n,
                n == self.terminals@.len(),
                n == keys_with_leaf_hashes@.len(),
                queue@ == start_queue::<H>(self.terminals@, keys_with_leaf_hashes@, k as int),
                queue_depths_ok(queue@),
                forall|m: int| 0 <= m < k ==> !(#[trigger] self.terminals@[m] is CollapsedOther),
                total == self.total_sibling_count,
                total <= 8 * self.bitmap@.len(),
                self.siblings@.len() == nonempty_count(self.bitmap@, total as int),
                keys_sorted(keys_of(keys_with_leaf_hashes@)),
            decreases n - k,
        {
            let (key, leaf_hash) = keys_with_leaf_hashes[k];
            let depth = match self.terminals[k] {
                ProofTerminal::CollapsedOther { .. } => {
                    assert(has_collapsed_other(self.terminals@)) by {
                        assert(self.terminals@[k as int] is CollapsedOther);
                    }
                    return Err(SmtMultiProofError::CollapsedOtherInMultiProof);
                },
                ProofTerminal::Full => DEPTH,
                ProofTerminal::Collapsed { depth } => depth as usize,
            };
            let value = H::hash_collapsed(&key, &leaf_hash);
            let item = QueueItem { key, depth, key_index: k, value };
            assert(item == start_item::<H>(self.terminals@, keys_with_leaf_hashes@, k as int));
            queue_push(&mut queue, item);
            k = k + 1;
        }
        assert(!has_collapsed_other(self.terminals@));
        // 6. Combine bottom-up, taking siblings from the queue or from the front of the proof.
        let empties = empty_hashes::<H>();
        let mut bitmap_index: usize = 0;
        let mut sib_idx: usize = 0;
        let ghost target = multi_run::<H>(self.bitmap@, total as int, self.siblings@, queue@, 0, 0);
        assert(target == multi_proof_root::<H>(
            self.bitmap@,
            self.total_sibling_count as int,
            self.siblings@,
            self.terminals@,
            keys_with_leaf_hashes@,
        ));
        loop
            invariant
                bitmap_index <= total <= 8 * self.bitmap@.len(),
                sib_idx == nonempty_count(self.bitmap@, bitmap_index as int),
                self.siblings@.len() == nonempty_count(self.bitmap@, total as int),
                queue_depths_ok(queue@),
                empties@.len() == DEPTH + 1,
                forall|h: int| 0 <= h <= DEPTH ==> #[trigger] empties@[h] == empty_hash::<H>(h as nat),
                multi_run::<H>(self.bitmap@, total as int, self.siblings@, queue@, bitmap_index as int, sib_idx as int)
                    == target,
                target == multi_proof_root::<H>(
                    self.bitmap@,
                    self.total_sibling_count as int,
                    self.siblings@,
                    self.terminals@,
                    keys_with_leaf_hashes@,
                ),
            decreases depth_sum(queue@),
        {
            let ghost q = queue@;
            proof {
                lemma_nonempty_count_monotone(self.bitmap@, bitmap_index as int, total as int);
            }
            if queue.len() == 0 {
                return Err(SmtMultiProofError::MoreSiblingsThenNeeded);
            }
            let cur = queue.pop().unwrap();
            assert(queue@ =~= q.drop_last());
            if cur.depth == 0 {
                if bitmap_index < total {
                    return Err(SmtMultiProofError::MoreSiblingsThenNeeded);
                } else if queue.len() == 0 {
                    return Ok(cur.value);
                } else {
                    return Err(SmtMultiProofError::MissingSiblings);
                }
            }
            let p = cur.depth - 1;
            let is_right = bit_at(&cur.key, p);
            let nq = queue.len();
            let in_queue = !is_right && nq > 0 && queue[nq - 1].depth == cur.depth
                && are_siblings_exec(&cur.key, &queue[nq - 1].key, p);
            if !in_queue && bitmap_index == total {
                return Err(SmtMultiProofError::MissingSiblings);
            }
            let sibling = if in_queue {
                let other = queue.pop().unwrap();
                other.value
            } else {
                proof {
                    lemma_nonempty_count_monotone(self.bitmap@, bitmap_index + 1, total as int);
                }
                let bit = bitmap_bit_at(self.bitmap, bitmap_index);
                bitmap_index = bitmap_index + 1;
                if bit {
                    empties[DEPTH - 1 - p]
                } else {
                    let h = self.siblings[sib_idx];
                    sib_idx = sib_idx + 1;
                    h
                }
            };
            let value = if is_right {
                H::hash_node(&sibling, &cur.value)
            } else {
                H::hash_node(&cur.value, &sibling)
            };
            let next = QueueItem { key: cur.key, depth: p, key_index: cur.key_index, value };
            proof {
                assert(depth_sum(q) == depth_sum(q.drop_last()) + cur.depth);
                if in_queue {
                    assert(queue@ =~= q.drop_last().drop_last());
                    assert(depth_sum(q.drop_last()) == depth_sum(q.drop_last().drop_last()) + q.drop_last().last().depth);
                }
                lemma_depth_sum_insert(queue@, next);
            }
            queue_push(&mut queue, next);
        }
    }

    /// Whether the proof implies `expected_root` for the given keys with leaf hashes; fails
    /// exactly when [`SmtMultiProof::compute_root`] fails, with the same error.
    pub fn verify<H: SmtHasher>(
        &self,
        keys_with_leaf_hashes: &[(Hash256, Hash256)],
        expected_root: Hash256,
    ) -> (r: Result<bool, SmtMultiProofError>)
        ensures
            match multi_proof_root::<H>(
                self.bitmap@,
                self.total_sibling_count as int,
                self.siblings@,
                self.terminals@,
                keys_with_leaf_hashes@,
            ) {
                Ok(root) => r == Ok::<bool, SmtMultiProofError>(root == expected_root),
                Err(e) => r == Err::<bool, SmtMultiProofError>(e),
            },
    {
        let computed = self.compute_root::<H>(keys_with_leaf_hashes)?;
        Ok(hash_eq(&computed, &expected_root))
    }

    /// Bit `index` of the bitmap: whether the `index`-th sibling is the empty-subtree hash.
    pub fn bitmap_value_at_index(&self, index: usize) -> (b: bool)
        requires
            index / 8 < self.bitmap@.len(),
        ensures
            b == bitmap_bit(self.bitmap@, index as int),
    {
        bitmap_bit_at(self.bitmap, index)
    }
}

} // verus!
