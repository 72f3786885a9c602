//! The laws of multi-key proofs: a proof generated for keys present in a tree whose store is
//! consistent with its root verifies, with the keys' leaf hashes, against that root; the
//! generation succeeds for distinct sorted keys that are all in the tree; and the proof
//! generated for one key is that key's single-key proof read in the other order.
//!
//! The first proof follows the generation step by step. Every step of the breadth-first
//! generation is matched, in reverse, by a step of the bottom-up verification: the
//! verification queue that corresponds to a generation state holds, for each pending group of
//! keys, the node of the group at its depth (under the group's first key), and for each key
//! whose walk already ended, its starting item. Queues are compared as sorted sequences of
//! their members.

use vstd::prelude::*;
use crate::proof_multi::{
    QueueItem, item_lt, insert_position, queue_insert, start_item, start_queue, multi_run, keys_of, are_siblings,
    multi_proof_root, OwnedSmtMultiProof,
};
use crate::bitmap::bitmap_bit;
use crate::hash::{Hash256, DEPTH, spec_bit_at, hash_le, hash_lt, keys_sorted};
use crate::hasher::{SmtHasher, empty_hash_at_depth};
use crate::proof_single::{OwnedSmtProof, ProofTerminal};
use crate::store::{BranchKey, SmtStore, mask_byte, masked_key};
use crate::tree::{
    KeyGroup, NodeBranchingData, SparseMerkleTree, ProveFailure, first_right, spec_branching_data, walk_stop,
    walk_bit, walk_siblings, walk_terminal, proves_key, lemma_first_right_bounds,
    prove_run, prove_multiple_outcome, proof_records, falses, queue_weight, group_weight, lemma_falses_reverse,
    lemma_prove_run_empty, lemma_prove_run_leaf_level, lemma_prove_run_step, lemma_prove_run_split,
    lemma_queue_weight_drop_first, lemma_step_weight, lemma_split_weight, lemma_nonempty_count_is_falses,
};
use crate::smt_laws::{
    lemma_root_key, key_status, lemma_last_level, lemma_masked_key_index, lemma_path_child, lemma_walk_branches,
    lemma_walk_stop_bounds, path_value, store_consistent,
};

verus! {

/// The queue is strictly increasing in processing order (the next item to process is last).
spec fn queue_sorted(q: Seq<QueueItem>) -> bool {
    forall|i: int, j: int| 0 <= i < j < q.len() ==> item_lt(#[trigger] q[i], #[trigger] q[j])
}

/// Items with different key indices are ordered one way or the other.
proof fn lemma_items_comparable(a: QueueItem, b: QueueItem)
    requires
        a.key_index != b.key_index,
    ensures
        item_lt(a, b) || item_lt(b, a),
{
}

proof fn lemma_insert_position_split(q: Seq<QueueItem>, x: QueueItem)
    requires
        queue_sorted(q),
        forall|i: int| 0 <= i < q.len() ==> item_lt(#[trigger] q[i], x) || item_lt(x, q[i]),
    ensures
        0 <= insert_position(q, x) <= q.len(),
        forall|i: int| 0 <= i < insert_position(q, x) ==> item_lt(#[trigger] q[i], x),
        forall|i: int| insert_position(q, x) <= i < q.len() ==> item_lt(x, #[trigger] q[i]),
    decreases q.len(),
{
    if q.len() > 0 {
        let last = q.len() - 1;
        if item_lt(q[last], x) {
            assert forall|i: int| 0 <= i < q.len() implies item_lt(#[trigger] q[i], x) by {
                if i < last {
                    assert(item_lt(q[i], q[last]));
                }
            }
        } else {
            let d = q.drop_last();
            assert(queue_sorted(d)) by {
                assert forall|i: int, j: int| 0 <= i < j < d.len() implies item_lt(#[trigger] d[i], #[trigger] d[j]) by {
                    assert(d[i] == q[i] && d[j] == q[j]);
                }
            }
            assert forall|i: int| 0 <= i < d.len() implies item_lt(#[trigger] d[i], x) || item_lt(x, d[i]) by {
                assert(d[i] == q[i]);
            }
            lemma_insert_position_split(d, x);
            assert(item_lt(x, q[last]));
            assert forall|i: int| 0 <= i < insert_position(q, x) implies item_lt(#[trigger] q[i], x) by {
                assert(d[i] == q[i]);
            }
            assert forall|i: int| insert_position(q, x) <= i < q.len() implies item_lt(x, #[trigger] q[i]) by {
                if i < last {
                    assert(d[i] == q[i]);
                }
            }
        }
    }
}

/// Inserting an item that is ordered against every member keeps a queue sorted, and adds
/// exactly that item.
proof fn lemma_queue_insert(q: Seq<QueueItem>, x: QueueItem)
    requires
        queue_sorted(q),
        forall|i: int| 0 <= i < q.len() ==> item_lt(#[trigger] q[i], x) || item_lt(x, q[i]),
    ensures
        queue_sorted(queue_insert(q, x)),
        forall|y: QueueItem| queue_insert(q, x).contains(y) <==> (q.contains(y) || y == x),
{
    lemma_insert_position_split(q, x);
    let p = insert_position(q, x);
    let r = queue_insert(q, x);
    q.insert_ensures(p, x);
    assert forall|i: int, j: int| 0 <= i < j < r.len() implies item_lt(#[trigger] r[i], #[trigger] r[j]) by {
        if i < p {
            assert(r[i] == q[i]);
            if j < p {
                assert(r[j] == q[j]);
            } else if j > p {
                assert(r[j] == q[j - 1]);
            }
        } else if i == p {
            assert(r[j] == q[j - 1]);
        } else {
            assert(r[i] == q[i - 1]);
            assert(r[j] == q[j - 1]);
        }
    }
    assert forall|y: QueueItem| r.contains(y) <==> (q.contains(y) || y == x) by {
        if r.contains(y) {
            let k = choose|k: int| 0 <= k < r.len() && r[k] == y;
            if k < p {
                assert(q[k] == y);
            } else if k > p {
                assert(q[k - 1] == y);
            }
        }
        if q.contains(y) {
            let k = choose|k: int| 0 <= k < q.len() && q[k] == y;
            if k < p {
                assert(r[k] == y);
            } else {
                assert(r[k + 1] == y);
            }
        }
        if y == x {
            assert(r[p] == x);
        }
    }
}

/// Dropping the last item of a sorted queue removes exactly that item, which every other
/// member precedes.
proof fn lemma_queue_drop_last(q: Seq<QueueItem>)
    requires
        queue_sorted(q),
        q.len() > 0,
    ensures
        queue_sorted(q.drop_last()),
        forall|y: QueueItem| q.contains(y) && y != q.last() ==> item_lt(y, q.last()),
        forall|y: QueueItem| q.drop_last().contains(y) <==> (q.contains(y) && y != q.last()),
{
    let d = q.drop_last();
    let last = q.len() - 1;
    assert forall|i: int, j: int| 0 <= i < j < d.len() implies item_lt(#[trigger] d[i], #[trigger] d[j]) by {
        assert(d[i] == q[i] && d[j] == q[j]);
    }
    assert forall|y: QueueItem| q.contains(y) && y != q.last() implies item_lt(y, q.last()) by {
        let k = choose|k: int| 0 <= k < q.len() && q[k] == y;
        assert(item_lt(q[k], q[last]));
    }
    assert forall|y: QueueItem| d.contains(y) <==> (q.contains(y) && y != q.last()) by {
        if d.contains(y) {
            let k = choose|k: int| 0 <= k < d.len() && d[k] == y;
            assert(q[k] == y);
            assert(item_lt(q[k], q[last]));
        }
        if q.contains(y) && y != q.last() {
            let k = choose|k: int| 0 <= k < q.len() && q[k] == y;
            assert(d[k] == y);
        }
    }
}

/// The last item of a sorted queue is the member that every other member precedes.
proof fn lemma_queue_last(q: Seq<QueueItem>, x: QueueItem)
    requires
        queue_sorted(q),
        q.contains(x),
        forall|y: QueueItem| q.contains(y) && y != x ==> item_lt(y, x),
    ensures
        q.len() > 0,
        q.last() == x,
{
    let k = choose|k: int| 0 <= k < q.len() && q[k] == x;
    let last = q.len() - 1;
    if k < last {
        assert(item_lt(q[k], q[last]));
        assert(q.contains(q[last]));
    }
}

/// Two sorted queues with the same members are equal.
proof fn lemma_queue_unique(a: Seq<QueueItem>, b: Seq<QueueItem>)
    requires
        queue_sorted(a),
        queue_sorted(b),
        forall|y: QueueItem| a.contains(y) <==> b.contains(y),
    ensures
        a == b,
    decreases a.len(),
{
    if a.len() == 0 {
        if b.len() > 0 {
            assert(b.contains(b[0]));
        }
        assert(a =~= b);
    } else {
        if b.len() == 0 {
            assert(a.contains(a[0]));
        }
        assert(a.contains(a.last()));
        assert(b.contains(b.last()));
        lemma_queue_drop_last(a);
        lemma_queue_drop_last(b);
        if a.last() != b.last() {
            assert(item_lt(a.last(), b.last()));
            assert(item_lt(b.last(), a.last()));
        }
        assert forall|y: QueueItem| a.drop_last().contains(y) <==> b.drop_last().contains(y) by {
            if a.drop_last().contains(y) {
                assert(a.contains(y));
            }
            if b.drop_last().contains(y) {
                assert(b.contains(y));
            }
        }
        lemma_queue_unique(a.drop_last(), b.drop_last());
        assert(a =~= a.drop_last().push(a.last()));
        assert(b =~= b.drop_last().push(b.last()));
    }
}

/// The queue holding the items `f(0)`, ..., `f(k - 1)` that are present, inserted in that
/// order.
spec fn canon(f: spec_fn(int) -> Option<QueueItem>, k: int) -> Seq<QueueItem>
    decreases k,
{
    if k <= 0 {
        Seq::empty()
    } else {
        match f(k - 1) {
            Some(x) => queue_insert(canon(f, k - 1), x),
            None => canon(f, k - 1),
        }
    }
}

/// When each present `f(i)` has key index `i`, the canonical queue is sorted and holds
/// exactly the present items.
#[verifier::spinoff_prover]
proof fn lemma_canon(f: spec_fn(int) -> Option<QueueItem>, k: int)
    requires
        forall|i: int| 0 <= i < k && #[trigger] f(i) is Some ==> f(i)->0.key_index == i,
    ensures
        queue_sorted(canon(f, k)),
        forall|y: QueueItem| canon(f, k).contains(y) <==> exists|i: int| 0 <= i < k && #[trigger] f(i) == Some(y),
        forall|i: int, y: QueueItem| #![trigger f(i), canon(f, k).contains(y)]
            0 <= i < k && f(i) == Some(y) ==> canon(f, k).contains(y),
    decreases k,
{
    if k > 0 {
        lemma_canon(f, k - 1);
        let prev = canon(f, k - 1);
        if f(k - 1) is Some {
            let x = f(k - 1)->0;
            assert forall|i: int| 0 <= i < prev.len() implies item_lt(#[trigger] prev[i], x) || item_lt(x, prev[i]) by {
                assert(prev.contains(prev[i]));
                let j = choose|j: int| 0 <= j < k - 1 && #[trigger] f(j) == Some(prev[i]);
                lemma_items_comparable(prev[i], x);
            }
            lemma_queue_insert(prev, x);
            assert(canon(f, k) == queue_insert(prev, x));
            assert forall|y: QueueItem| canon(f, k).contains(y) implies exists|i: int| 0 <= i < k && #[trigger] f(i) == Some(y) by {
                assert(queue_insert(prev, x).contains(y));
                if y == x {
                    assert(f(k - 1) == Some(y));
                } else {
                    assert(prev.contains(y));
                    let i = choose|i: int| 0 <= i < k - 1 && #[trigger] f(i) == Some(y);
                    assert(f(i) == Some(y));
                }
            }
            assert forall|y: QueueItem| (exists|i: int| 0 <= i < k && #[trigger] f(i) == Some(y)) implies canon(f, k).contains(y) by {
                let i = choose|i: int| 0 <= i < k && #[trigger] f(i) == Some(y);
                if i < k - 1 {
                    assert(prev.contains(y));
                } else {
                    assert(y == x);
                }
                assert(prev.contains(y) || y == x);
                assert(queue_insert(prev, x).contains(y) <==> (prev.contains(y) || y == x));
                assert(queue_insert(prev, x).contains(y));
            }
        } else {
            assert(canon(f, k) == prev);
            assert forall|y: QueueItem| canon(f, k).contains(y) <==> exists|i: int| 0 <= i < k && #[trigger] f(i) == Some(y) by {
                if exists|i: int| 0 <= i < k && #[trigger] f(i) == Some(y) {
                    let i = choose|i: int| 0 <= i < k && #[trigger] f(i) == Some(y);
                    assert(i < k - 1);
                    assert(prev.contains(y));
                }
            }
        }
    }
}

/// Canonical queues of functions that agree below `k` are equal.
proof fn lemma_canon_ext(f: spec_fn(int) -> Option<QueueItem>, g: spec_fn(int) -> Option<QueueItem>, k: int)
    requires
        forall|i: int| 0 <= i < k ==> #[trigger] f(i) == g(i),
    ensures
        canon(f, k) == canon(g, k),
    decreases k,
{
    if k > 0 {
        lemma_canon_ext(f, g, k - 1);
        assert(f(k - 1) == g(k - 1));
    }
}

/// Keys `a` and `b` agree on their first `d` bits.
spec fn prefix_eq(a: Hash256, b: Hash256, d: int) -> bool {
    forall|t: int| 0 <= t < d ==> #[trigger] spec_bit_at(a, t) == spec_bit_at(b, t)
}

proof fn lemma_byte_from_bits(x: u8, y: u8, r: u8)
    by (bit_vector)
    requires
        r <= 8,
        r > 0 ==> ((x & (0x80u8 >> 0u8)) != 0u8) == ((y & (0x80u8 >> 0u8)) != 0u8),
        r > 1 ==> ((x & (0x80u8 >> 1u8)) != 0u8) == ((y & (0x80u8 >> 1u8)) != 0u8),
        r > 2 ==> ((x & (0x80u8 >> 2u8)) != 0u8) == ((y & (0x80u8 >> 2u8)) != 0u8),
        r > 3 ==> ((x & (0x80u8 >> 3u8)) != 0u8) == ((y & (0x80u8 >> 3u8)) != 0u8),
        r > 4 ==> ((x & (0x80u8 >> 4u8)) != 0u8) == ((y & (0x80u8 >> 4u8)) != 0u8),
        r > 5 ==> ((x & (0x80u8 >> 5u8)) != 0u8) == ((y & (0x80u8 >> 5u8)) != 0u8),
        r > 6 ==> ((x & (0x80u8 >> 6u8)) != 0u8) == ((y & (0x80u8 >> 6u8)) != 0u8),
        r > 7 ==> ((x & (0x80u8 >> 7u8)) != 0u8) == ((y & (0x80u8 >> 7u8)) != 0u8),
    ensures
        r == 8 ==> x == y,
        0 < r < 8 ==> x & (0xFFu8 << ((8 - r) as u8)) == y & (0xFFu8 << ((8 - r) as u8)),
{
}

proof fn lemma_byte_order(x: u8, y: u8, r: u8)
    by (bit_vector)
    requires
        r < 8,
        r > 0 ==> x & (0xFFu8 << ((8 - r) as u8)) == y & (0xFFu8 << ((8 - r) as u8)),
        x & (0x80u8 >> r) != 0u8,
        y & (0x80u8 >> r) == 0u8,
    ensures
        x > y,
{
}

/// Bit `8 * i + j` of a key is bit `j` (from the most significant) of its byte `i`.
proof fn lemma_bit_in_byte(a: Hash256, i: int, j: int)
    requires
        0 <= i < 32,
        0 <= j < 8,
    ensures
        spec_bit_at(a, 8 * i + j) == ((a.0[i] & (0x80u8 >> (j as u8))) != 0u8),
{
    assert((8 * i + j) / 8 == i);
    assert((8 * i + j) % 8 == j);
}

/// When two keys agree on the first `r` bits of byte `i`, the byte is equal (all eight
/// bits), or equal once masked to those bits.
proof fn lemma_byte_prefix(a: Hash256, b: Hash256, i: int, r: int)
    requires
        0 <= i < 32,
        0 <= r <= 8,
        forall|t: int| 8 * i <= t < 8 * i + r ==> #[trigger] spec_bit_at(a, t) == spec_bit_at(b, t),
    ensures
        r == 8 ==> a.0[i] == b.0[i],
        0 < r < 8 ==> a.0[i] & (0xFFu8 << ((8 - r) as u8)) == b.0[i] & (0xFFu8 << ((8 - r) as u8)),
{
    lemma_bit_in_byte(a, i, 0);
    lemma_bit_in_byte(b, i, 0);
    lemma_bit_in_byte(a, i, 1);
    lemma_bit_in_byte(b, i, 1);
    lemma_bit_in_byte(a, i, 2);
    lemma_bit_in_byte(b, i, 2);
    lemma_bit_in_byte(a, i, 3);
    lemma_bit_in_byte(b, i, 3);
    lemma_bit_in_byte(a, i, 4);
    lemma_bit_in_byte(b, i, 4);
    lemma_bit_in_byte(a, i, 5);
    lemma_bit_in_byte(b, i, 5);
    lemma_bit_in_byte(a, i, 6);
    lemma_bit_in_byte(b, i, 6);
    lemma_bit_in_byte(a, i, 7);
    lemma_bit_in_byte(b, i, 7);
    assert(0 < r ==> 0int < r);
    lemma_byte_from_bits(a.0[i], b.0[i], r as u8);
}

/// Keys that agree on their first `d` bits have the same key at depth `d`.
proof fn lemma_prefix_masked(a: Hash256, b: Hash256, d: int)
    requires
        0 <= d <= DEPTH,
        prefix_eq(a, b, d),
    ensures
        masked_key(a, d) == masked_key(b, d),
{
    lemma_masked_key_index(a, d);
    lemma_masked_key_index(b, d);
    assert forall|i: int| 0 <= i < 32 implies mask_byte(a.0[i], i, d) == mask_byte(b.0[i], i, d) by {
        if 8 * i + 8 <= d {
            assert forall|t: int| 8 * i <= t < 8 * i + 8 implies #[trigger] spec_bit_at(a, t) == spec_bit_at(b, t) by {
                assert(0 <= t < d);
            }
            lemma_byte_prefix(a, b, i, 8);
        } else if 8 * i < d {
            let r = d - 8 * i;
            assert forall|t: int| 8 * i <= t < 8 * i + r implies #[trigger] spec_bit_at(a, t) == spec_bit_at(b, t) by {
                assert(0 <= t < d);
            }
            lemma_byte_prefix(a, b, i, r);
        }
    }
    assert(masked_key(a, d).0 =~= masked_key(b, d).0);
}

/// Keys that agree on every bit are equal.
proof fn lemma_prefix_full(a: Hash256, b: Hash256)
    requires
        prefix_eq(a, b, DEPTH as int),
    ensures
        a == b,
{
    lemma_prefix_masked(a, b, DEPTH as int);
    lemma_masked_key_index(a, DEPTH as int);
    lemma_masked_key_index(b, DEPTH as int);
    assert(a.0 =~= b.0);
}

/// Among sorted keys that agree on their first `d` bits, bit `d` can only go from clear to
/// set.
proof fn lemma_sorted_bit(a: Hash256, b: Hash256, d: int)
    requires
        hash_le(a, b),
        0 <= d < DEPTH,
        prefix_eq(a, b, d),
        spec_bit_at(a, d),
    ensures
        spec_bit_at(b, d),
{
    if !spec_bit_at(b, d) {
        assert(a != b);
        assert(hash_lt(a, b));
        let i = choose|i: int| 0 <= i < 32 && a.0[i] < b.0[i] && (forall|j: int| 0 <= j < i ==> a.0[j] == b.0[j]);
        let q = d / 8;
        let r = d % 8;
        assert(d == 8 * q + r);
        lemma_bit_in_byte(a, q, r);
        lemma_bit_in_byte(b, q, r);
        if i < q {
            assert forall|t: int| 8 * i <= t < 8 * i + 8 implies #[trigger] spec_bit_at(a, t) == spec_bit_at(b, t) by {
                assert(0 <= t < d);
            }
            lemma_byte_prefix(a, b, i, 8);
        } else if i > q {
            assert(a.0[q] == b.0[q]);
        } else {
            assert forall|t: int| 8 * i <= t < 8 * i + r implies #[trigger] spec_bit_at(a, t) == spec_bit_at(b, t) by {
                assert(0 <= t < d);
            }
            lemma_byte_prefix(a, b, i, r);
            lemma_byte_order(a.0[i], b.0[i], r as u8);
        }
    }
}

/// The keys `lo..hi` agree pairwise on their first `d` bits.
spec fn group_prefix(keys: Seq<Hash256>, lo: int, hi: int, d: int) -> bool {
    forall|i1: int, i2: int|
        lo <= i1 < hi && lo <= i2 < hi ==> prefix_eq(#[trigger] keys[i1], #[trigger] keys[i2], d)
}

proof fn lemma_first_right_clear(keys: Seq<Hash256>, lo: int, hi: int, d: int, i: int)
    requires
        lo <= i < first_right(keys, lo, hi, d),
        i < hi,
    ensures
        !spec_bit_at(keys[i], d),
    decreases hi - lo,
{
    if lo < hi && !spec_bit_at(keys[lo], d) && i > lo {
        lemma_first_right_clear(keys, lo + 1, hi, d, i);
    }
}

proof fn lemma_first_right_set(keys: Seq<Hash256>, lo: int, hi: int, d: int)
    requires
        lo <= hi,
        first_right(keys, lo, hi, d) < hi,
    ensures
        spec_bit_at(keys[first_right(keys, lo, hi, d)], d),
    decreases hi - lo,
{
    if lo < hi && !spec_bit_at(keys[lo], d) {
        lemma_first_right_set(keys, lo + 1, hi, d);
    }
}

proof fn lemma_bits_after(keys: Seq<Hash256>, s: int, i: int, hi: int, d: int)
    requires
        keys_sorted(keys),
        0 <= s <= i < hi <= keys.len(),
        0 <= d < DEPTH,
        group_prefix(keys, s, hi, d),
        spec_bit_at(keys[s], d),
    ensures
        spec_bit_at(keys[i], d),
    decreases i - s,
{
    if i > s {
        lemma_bits_after(keys, s, i - 1, hi, d);
        assert(hash_le(keys[i - 1], keys[i]));
        assert(prefix_eq(keys[i - 1], keys[i], d));
        lemma_sorted_bit(keys[i - 1], keys[i], d);
    }
}

/// A group of sorted keys that agree on their first `d` bits splits at bit `d`: the keys
/// before its first right key have the bit clear, the others have it set, and each part
/// agrees on its first `d + 1` bits.
proof fn lemma_group_split(keys: Seq<Hash256>, lo: int, hi: int, d: int)
    requires
        keys_sorted(keys),
        0 <= lo <= hi <= keys.len(),
        0 <= d < DEPTH,
        group_prefix(keys, lo, hi, d),
    ensures
        lo <= first_right(keys, lo, hi, d) <= hi,
        forall|i: int| lo <= i < first_right(keys, lo, hi, d) ==> !spec_bit_at(#[trigger] keys[i], d),
        forall|i: int| first_right(keys, lo, hi, d) <= i < hi ==> spec_bit_at(#[trigger] keys[i], d),
        group_prefix(keys, lo, first_right(keys, lo, hi, d), d + 1),
        group_prefix(keys, first_right(keys, lo, hi, d), hi, d + 1),
{
    crate::tree::lemma_first_right_bounds(keys, lo, hi, d);
    let s = first_right(keys, lo, hi, d);
    lemma_group_split_bits(keys, lo, hi, d);
    lemma_group_refine(keys, lo, s, d, false);
    lemma_group_refine(keys, s, hi, d, true);
}

proof fn lemma_group_split_bits(keys: Seq<Hash256>, lo: int, hi: int, d: int)
    requires
        keys_sorted(keys),
        0 <= lo <= hi <= keys.len(),
        0 <= d < DEPTH,
        group_prefix(keys, lo, hi, d),
    ensures
        forall|i: int| lo <= i < first_right(keys, lo, hi, d) ==> !spec_bit_at(#[trigger] keys[i], d),
        forall|i: int| first_right(keys, lo, hi, d) <= i < hi ==> spec_bit_at(#[trigger] keys[i], d),
{
    crate::tree::lemma_first_right_bounds(keys, lo, hi, d);
    let s = first_right(keys, lo, hi, d);
    assert forall|i: int| lo <= i < s implies !spec_bit_at(#[trigger] keys[i], d) by {
        lemma_first_right_clear(keys, lo, hi, d, i);
    }
    if s < hi {
        lemma_first_right_set(keys, lo, hi, d);
        assert(group_prefix(keys, s, hi, d));
    }
    assert forall|i: int| s <= i < hi implies spec_bit_at(#[trigger] keys[i], d) by {
        lemma_bits_after(keys, s, i, hi, d);
    }
}

proof fn lemma_group_refine(keys: Seq<Hash256>, lo: int, hi: int, d: int, bit: bool)
    requires
        group_prefix(keys, lo, hi, d),
        forall|i: int| lo <= i < hi ==> spec_bit_at(#[trigger] keys[i], d) == bit,
    ensures
        group_prefix(keys, lo, hi, d + 1),
{
    assert forall|i1: int, i2: int| lo <= i1 < hi && lo <= i2 < hi implies prefix_eq(#[trigger] keys[i1], #[trigger] keys[i2], d + 1) by {
        assert(prefix_eq(keys[i1], keys[i2], d));
        assert(spec_bit_at(keys[i1], d) == bit && spec_bit_at(keys[i2], d) == bit);
    }
}

/// While a walk has not stopped above `d`, it is where the walk from `d` stops.
proof fn lemma_walk_from<H: SmtHasher, S: SmtStore>(store: S, key: Hash256, d: int)
    requires
        0 <= d <= DEPTH,
        d <= walk_stop::<H, S>(store, key, 0),
    ensures
        walk_stop::<H, S>(store, key, 0) == walk_stop::<H, S>(store, key, d),
        spec_branching_data::<H, S>(store, key, d) is Sibling && d < DEPTH ==> d + 1 <= walk_stop::<H, S>(store, key, 0),
        !(spec_branching_data::<H, S>(store, key, d) is Sibling) && d < DEPTH ==> walk_stop::<H, S>(store, key, 0) == d,
{
    if d > 0 {
        lemma_walk_branches::<H, S>(store, key, 0, d - 1);
    }
    lemma_walk_stop_bounds::<H, S>(store, key, d);
    if d < DEPTH {
        lemma_walk_stop_bounds::<H, S>(store, key, d + 1);
    }
}

/// Whether the walk of a key branches at depth `d` depends only on the node at `d`.
proof fn lemma_branches_iff_internal<H: SmtHasher, S: SmtStore>(store: S, key: Hash256, d: int)
    requires
        0 <= d < DEPTH,
    ensures
        spec_branching_data::<H, S>(store, key, d) is Sibling <==> store.spec_node(
            BranchKey { depth: d as u8, node_key: masked_key(key, d) },
        ) is Some && store.spec_node(BranchKey { depth: d as u8, node_key: masked_key(key, d) })->0 is Internal,
{
}

/// Keys that agree on their first `d + 1` bits branch the same way at depth `d`.
proof fn lemma_sibling_shared<H: SmtHasher, S: SmtStore>(store: S, a: Hash256, b: Hash256, d: int)
    requires
        0 <= d < DEPTH,
        prefix_eq(a, b, d + 1),
        spec_branching_data::<H, S>(store, a, d) is Sibling,
    ensures
        spec_branching_data::<H, S>(store, b, d) == spec_branching_data::<H, S>(store, a, d),
{
    if d == DEPTH - 1 {
        lemma_prefix_full(a, b);
    } else {
        lemma_prefix_masked(a, b, d);
        assert(spec_bit_at(a, d) == spec_bit_at(b, d));
    }
}

/// At a depth where the walk of `key` branches, the node on the path of `key` is the hash of
/// the child on the path and of the sibling the walk reads (the empty-subtree hash when there
/// is none).
proof fn lemma_path_value_step<H: SmtHasher, S: SmtStore>(store: S, root: Hash256, key: Hash256, d: int)
    requires
        store_consistent::<H, S>(store, root),
        0 <= d < DEPTH,
        spec_branching_data::<H, S>(store, key, d) is Sibling,
    ensures
        ({
            let sib = match spec_branching_data::<H, S>(store, key, d) {
                NodeBranchingData::Sibling(Some(h)) => h,
                _ => empty_hash_at_depth::<H>(d),
            };
            let child = path_value::<H, S>(store, key, d + 1);
            path_value::<H, S>(store, key, d) == if spec_bit_at(key, d) {
                H::spec_node(sib, child)
            } else {
                H::spec_node(child, sib)
            }
        }),
{
    let bk = BranchKey { depth: d as u8, node_key: masked_key(key, d) };
    assert(store.spec_node(bk) is Some);
    if d < DEPTH - 1 {
        lemma_path_child(key, d);
    } else {
        lemma_last_level(key);
    }
}

/// Below a branch node, the node on the path of a left key and the node on the path of a
/// right key hash into it.
proof fn lemma_path_value_merge<H: SmtHasher, S: SmtStore>(
    store: S,
    root: Hash256,
    kl: Hash256,
    kr: Hash256,
    d: int,
)
    requires
        store_consistent::<H, S>(store, root),
        0 <= d < DEPTH,
        prefix_eq(kl, kr, d),
        !spec_bit_at(kl, d),
        spec_bit_at(kr, d),
        spec_branching_data::<H, S>(store, kr, d) is Sibling,
    ensures
        path_value::<H, S>(store, kr, d) == H::spec_node(
            path_value::<H, S>(store, kl, d + 1),
            path_value::<H, S>(store, kr, d + 1),
        ),
        path_value::<H, S>(store, kl, d) == path_value::<H, S>(store, kr, d),
{
    lemma_prefix_masked(kl, kr, d);
    let bk = BranchKey { depth: d as u8, node_key: masked_key(kr, d) };
    assert(store.spec_node(bk) is Some);
    if d < DEPTH - 1 {
        lemma_path_child(kl, d);
        lemma_path_child(kr, d);
    } else {
        lemma_last_level(kl);
        lemma_last_level(kr);
    }
}

/// Two different keys that are both in the tree and whose walks reach depth `d` on a shared
/// path branch there.
proof fn lemma_split_branches<H: SmtHasher, S: SmtStore>(
    store: S,
    kl: Hash256,
    kr: Hash256,
    vl: Hash256,
    vr: Hash256,
    d: int,
)
    requires
        0 <= d < DEPTH,
        prefix_eq(kl, kr, d),
        kl != kr,
        d <= walk_stop::<H, S>(store, kl, 0),
        d <= walk_stop::<H, S>(store, kr, 0),
        key_status::<H, S>(store, kl) == Some(vl),
        key_status::<H, S>(store, kr) == Some(vr),
    ensures
        spec_branching_data::<H, S>(store, kl, d) is Sibling,
        spec_branching_data::<H, S>(store, kr, d) is Sibling,
{
    lemma_prefix_masked(kl, kr, d);
    lemma_branches_iff_internal::<H, S>(store, kl, d);
    lemma_branches_iff_internal::<H, S>(store, kr, d);
    lemma_walk_from::<H, S>(store, kl, d);
    lemma_walk_from::<H, S>(store, kr, d);
}

/// Where the walk of a key in the tree ends at a terminal for that key, the node there is the
/// collapsed hash of the key with its leaf hash.
proof fn lemma_terminal_value<H: SmtHasher, S: SmtStore>(store: S, key: Hash256, v: Hash256, d: int)
    requires
        0 <= d < DEPTH,
        d <= walk_stop::<H, S>(store, key, 0),
        key_status::<H, S>(store, key) == Some(v),
        spec_branching_data::<H, S>(store, key, d) matches NodeBranchingData::Terminal(t) && !(t is CollapsedOther),
    ensures
        path_value::<H, S>(store, key, d) == H::spec_collapsed(key, v),
        spec_branching_data::<H, S>(store, key, d) == NodeBranchingData::Terminal(ProofTerminal::Collapsed { depth: d as u8 }),
{
    lemma_walk_from::<H, S>(store, key, d);
}

/// Where the walk of a key in the tree reaches the leaf level, the leaf is the collapsed hash
/// of the key with its leaf hash.
proof fn lemma_leaf_value<H: SmtHasher, S: SmtStore>(store: S, key: Hash256, v: Hash256)
    requires
        DEPTH <= walk_stop::<H, S>(store, key, 0),
        key_status::<H, S>(store, key) == Some(v),
    ensures
        path_value::<H, S>(store, key, DEPTH as int) == H::spec_collapsed(key, v),
{
    lemma_walk_stop_bounds::<H, S>(store, key, 0);
}

/// `a` and `b` agree on their first `d` bits exactly when `b` and `a` do, and then on every
/// shorter prefix.
proof fn lemma_prefix_sym_mono(a: Hash256, b: Hash256, d: int, e: int)
    requires
        e <= d,
    ensures
        prefix_eq(a, b, d) ==> prefix_eq(b, a, e),
{
    if prefix_eq(a, b, d) {
        assert forall|t: int| 0 <= t < e implies #[trigger] spec_bit_at(b, t) == spec_bit_at(a, t) by {
            assert(spec_bit_at(a, t) == spec_bit_at(b, t));
        }
    }
}

/// Key index `i` belongs to the group `g`.
spec fn in_group(g: KeyGroup, i: int) -> bool {
    g.lo <= i < g.hi
}

/// The first group of `q` that holds key index `i`.
spec fn find_group(q: Seq<KeyGroup>, i: int) -> Option<KeyGroup>
    decreases q.len(),
{
    if q.len() == 0 {
        None
    } else if in_group(q[0], i) {
        Some(q[0])
    } else {
        find_group(q.drop_first(), i)
    }
}

/// The verification item of a pending group: the node at the group's depth on the path of
/// its first key, under that key and its index.
spec fn group_item<H: SmtHasher, S: SmtStore>(store: S, keys: Seq<Hash256>, g: KeyGroup) -> QueueItem {
    QueueItem {
        key: keys[g.lo as int],
        depth: g.depth,
        key_index: g.lo,
        value: path_value::<H, S>(store, keys[g.lo as int], g.depth as int),
    }
}

/// What the verification queue of generation state (`q`, `terms`) holds under key index `i`:
/// the item of its pending group if `i` is the group's first key (nothing for the group's
/// other keys), and the starting item of the key if its walk already ended.
spec fn slot<H: SmtHasher, S: SmtStore>(
    store: S,
    keys: Seq<Hash256>,
    kwl: Seq<(Hash256, Hash256)>,
    q: Seq<KeyGroup>,
    terms: Seq<ProofTerminal>,
    i: int,
) -> Option<QueueItem> {
    match find_group(q, i) {
        Some(g) => if i == g.lo {
            Some(group_item::<H, S>(store, keys, g))
        } else {
            None
        },
        None => Some(start_item::<H>(terms, kwl, i)),
    }
}

/// The verification queue of generation state (`q`, `terms`).
spec fn state_queue<H: SmtHasher, S: SmtStore>(
    store: S,
    keys: Seq<Hash256>,
    kwl: Seq<(Hash256, Hash256)>,
    q: Seq<KeyGroup>,
    terms: Seq<ProofTerminal>,
) -> Seq<QueueItem> {
    canon(|i: int| slot::<H, S>(store, keys, kwl, q, terms, i), keys.len() as int)
}

/// The breadth-first order of pending groups, each level taken from right to left: a group is
/// followed by groups of its depth to its left, or by groups one level deeper to its right.
spec fn bfs_ordered(a: KeyGroup, b: KeyGroup) -> bool {
    (a.depth == b.depth && b.hi <= a.lo) || (a.depth + 1 == b.depth && a.hi <= b.lo)
}

/// What holds of every state of the generation of a proof for keys in the tree: the pending
/// groups are non-empty and in breadth-first order; a key whose walk ended did so no deeper
/// than the first pending group, with a terminal that is not `CollapsedOther`, and a pending
/// key has no terminal yet; the keys of a group agree on the bits above its depth, keys of
/// different groups do not, and the walk of each key reaches the depth of its group.
#[verifier::opaque]
spec fn bfs_inv<H: SmtHasher, S: SmtStore>(
    store: S,
    keys: Seq<Hash256>,
    q: Seq<KeyGroup>,
    terms: Seq<ProofTerminal>,
) -> bool {
    &&& terms.len() == keys.len()
    &&& forall|j: int|
        0 <= j < q.len() ==> (#[trigger] q[j]).lo < q[j].hi && q[j].hi <= keys.len() && q[j].depth <= DEPTH
    &&& forall|j1: int, j2: int| 0 <= j1 < j2 < q.len() ==> bfs_ordered(#[trigger] q[j1], #[trigger] q[j2])
    &&& forall|i: int|
        0 <= i < keys.len() && find_group(q, i) is None && q.len() > 0 ==> (#[trigger] terms[i]).spec_depth()
            <= q[0].depth
    &&& forall|i: int| 0 <= i < keys.len() && find_group(q, i) is Some ==> #[trigger] terms[i] == ProofTerminal::Full
    &&& forall|i: int| 0 <= i < keys.len() ==> !((#[trigger] terms[i]) is CollapsedOther)
    &&& forall|j: int| 0 <= j < q.len() ==> group_prefix(keys, (#[trigger] q[j]).lo as int, q[j].hi as int, q[j].depth as int)
    &&& forall|j1: int, j2: int, i1: int, i2: int|
        0 <= j1 < j2 < q.len() && #[trigger] in_group(q[j1], i1) && #[trigger] in_group(q[j2], i2) ==> !prefix_eq(
            keys[i1],
            keys[i2],
            q[j1].depth as int,
        )
    &&& forall|j: int, i: int|
        0 <= j < q.len() && #[trigger] in_group(q[j], i) ==> q[j].depth <= walk_stop::<H, S>(store, keys[i], 0)
}

/// In a queue of disjoint groups, the group found for a key index is the one that holds it.
proof fn lemma_find_group(q: Seq<KeyGroup>, i: int)
    requires
        forall|j1: int, j2: int| 0 <= j1 < j2 < q.len() ==> bfs_ordered(#[trigger] q[j1], #[trigger] q[j2]),
    ensures
        forall|j: int| 0 <= j < q.len() && #[trigger] in_group(q[j], i) ==> find_group(q, i) == Some(q[j]),
        (forall|j: int| 0 <= j < q.len() ==> !#[trigger] in_group(q[j], i)) ==> find_group(q, i) is None,
        find_group(q, i) matches Some(g) ==> in_group(g, i) && q.contains(g),
    decreases q.len(),
{
    if q.len() > 0 {
        let r = q.drop_first();
        assert forall|j1: int, j2: int| 0 <= j1 < j2 < r.len() implies bfs_ordered(#[trigger] r[j1], #[trigger] r[j2]) by {
            assert(bfs_ordered(q[j1 + 1], q[j2 + 1]));
        }
        lemma_find_group(r, i);
        assert forall|j: int| 0 <= j < q.len() && #[trigger] in_group(q[j], i) implies find_group(q, i) == Some(q[j]) by {
            if j > 0 {
                assert(bfs_ordered(q[0], q[j]));
                assert(r[j - 1] == q[j]);
            }
        }
        if (forall|j: int| 0 <= j < q.len() ==> !#[trigger] in_group(q[j], i)) {
            assert(!in_group(q[0], i));
            assert forall|j: int| 0 <= j < r.len() implies !#[trigger] in_group(r[j], i) by {
                assert(r[j] == q[j + 1]);
            }
        }
        if find_group(q, i) is Some && !in_group(q[0], i) {
            let g = find_group(r, i)->0;
            let k = choose|k: int| 0 <= k < r.len() && r[k] == g;
            assert(q[k + 1] == g);
        }
        if in_group(q[0], i) {
            assert(q.contains(q[0]));
        }
    }
}

/// The verification queue of a generation state is sorted and holds the present slots.
proof fn lemma_state_queue<H: SmtHasher, S: SmtStore>(
    store: S,
    keys: Seq<Hash256>,
    kwl: Seq<(Hash256, Hash256)>,
    q: Seq<KeyGroup>,
    terms: Seq<ProofTerminal>,
)
    requires
        keys.len() <= usize::MAX,
        forall|j: int| 0 <= j < q.len() ==> (#[trigger] q[j]).lo < q[j].hi && q[j].hi <= keys.len(),
        forall|j1: int, j2: int| 0 <= j1 < j2 < q.len() ==> bfs_ordered(#[trigger] q[j1], #[trigger] q[j2]),
    ensures
        queue_sorted(state_queue::<H, S>(store, keys, kwl, q, terms)),
        forall|y: QueueItem|
            state_queue::<H, S>(store, keys, kwl, q, terms).contains(y) <==> exists|i: int|
                0 <= i < keys.len() && #[trigger] slot::<H, S>(store, keys, kwl, q, terms, i) == Some(y),
{
    let f = |i: int| slot::<H, S>(store, keys, kwl, q, terms, i);
    assert forall|i: int| 0 <= i < keys.len() && #[trigger] f(i) is Some implies f(i)->0.key_index == i by {
        lemma_find_group(q, i);
    }
    lemma_canon(f, keys.len() as int);
    assert forall|y: QueueItem|
        state_queue::<H, S>(store, keys, kwl, q, terms).contains(y) <==> exists|i: int|
            0 <= i < keys.len() && #[trigger] slot::<H, S>(store, keys, kwl, q, terms, i) == Some(y) by {
        if state_queue::<H, S>(store, keys, kwl, q, terms).contains(y) {
            let i = choose|i: int| 0 <= i < keys.len() && #[trigger] f(i) == Some(y);
            assert(slot::<H, S>(store, keys, kwl, q, terms, i) == Some(y));
        }
        if exists|i: int| 0 <= i < keys.len() && #[trigger] slot::<H, S>(store, keys, kwl, q, terms, i) == Some(y) {
            let i = choose|i: int| 0 <= i < keys.len() && #[trigger] slot::<H, S>(store, keys, kwl, q, terms, i) == Some(y);
            assert(f(i) == Some(y));
        }
    }
}

/// Generation states whose slots agree have the same verification queue.
proof fn lemma_state_queue_ext<H: SmtHasher, S: SmtStore>(
    store: S,
    keys: Seq<Hash256>,
    kwl: Seq<(Hash256, Hash256)>,
    q1: Seq<KeyGroup>,
    t1: Seq<ProofTerminal>,
    q2: Seq<KeyGroup>,
    t2: Seq<ProofTerminal>,
)
    requires
        forall|i: int| 0 <= i < keys.len() ==> #[trigger] slot::<H, S>(store, keys, kwl, q1, t1, i) == slot::<H, S>(store, keys, kwl, q2, t2, i),
    ensures
        state_queue::<H, S>(store, keys, kwl, q1, t1) == state_queue::<H, S>(store, keys, kwl, q2, t2),
{
    let f = |i: int| slot::<H, S>(store, keys, kwl, q1, t1, i);
    let g = |i: int| slot::<H, S>(store, keys, kwl, q2, t2, i);
    assert forall|i: int| 0 <= i < keys.len() implies #[trigger] f(i) == g(i) by {
        assert(slot::<H, S>(store, keys, kwl, q1, t1, i) == slot::<H, S>(store, keys, kwl, q2, t2, i));
    }
    lemma_canon_ext(f, g, keys.len() as int);
}

/// The facts about the keys and the tree that the generation steps rely on.
spec fn keys_in_tree<H: SmtHasher, S: SmtStore>(
    store: S,
    keys: Seq<Hash256>,
    kwl: Seq<(Hash256, Hash256)>,
) -> bool {
    &&& keys == keys_of(kwl)
    &&& keys.len() <= usize::MAX
    &&& keys_sorted(keys)
    &&& forall|i: int| 0 <= i < keys.len() ==> #[trigger] key_status::<H, S>(store, keys[i]) == Some(kwl[i].1)
}

/// Dropping the first pending group keeps the breadth-first order and the facts about each
/// remaining group, and the groups found for other keys.
proof fn lemma_drop_first_inv<H: SmtHasher, S: SmtStore>(
    store: S,
    keys: Seq<Hash256>,
    q: Seq<KeyGroup>,
    terms: Seq<ProofTerminal>,
)
    requires
        bfs_inv::<H, S>(store, keys, q, terms),
        q.len() > 0,
    ensures
        ({
            let r = q.drop_first();
            &&& forall|j: int| 0 <= j < r.len() ==> (#[trigger] r[j]).lo < r[j].hi && r[j].hi <= keys.len() && r[j].depth <= DEPTH
            &&& forall|j1: int, j2: int| 0 <= j1 < j2 < r.len() ==> bfs_ordered(#[trigger] r[j1], #[trigger] r[j2])
            &&& forall|j: int| 0 <= j < r.len() ==> group_prefix(keys, (#[trigger] r[j]).lo as int, r[j].hi as int, r[j].depth as int)
            &&& forall|j1: int, j2: int, i1: int, i2: int|
                0 <= j1 < j2 < r.len() && #[trigger] in_group(r[j1], i1) && #[trigger] in_group(r[j2], i2) ==> !prefix_eq(
                    keys[i1],
                    keys[i2],
                    r[j1].depth as int,
                )
            &&& forall|j: int, i: int|
                0 <= j < r.len() && #[trigger] in_group(r[j], i) ==> r[j].depth <= walk_stop::<H, S>(store, keys[i], 0)
            &&& forall|j: int| 0 <= j < r.len() ==> bfs_ordered(q[0], #[trigger] r[j])
            &&& forall|j: int, i1: int, i2: int|
                0 <= j < r.len() && #[trigger] in_group(q[0], i1) && #[trigger] in_group(r[j], i2) ==> !prefix_eq(
                    keys[i1],
                    keys[i2],
                    q[0].depth as int,
                )
            &&& forall|i: int| !in_group(q[0], i) ==> find_group(q, i) == #[trigger] find_group(r, i)
            &&& forall|i: int| in_group(q[0], i) ==> find_group(q, i) == Some(q[0]) && #[trigger] find_group(r, i) is None
        }),
{
    reveal(bfs_inv);
    let r = q.drop_first();
    assert forall|j: int| 0 <= j < r.len() implies (#[trigger] r[j]).lo < r[j].hi && r[j].hi <= keys.len() && r[j].depth <= DEPTH by {
        assert(r[j] == q[j + 1]);
    }
    assert forall|j1: int, j2: int| 0 <= j1 < j2 < r.len() implies bfs_ordered(#[trigger] r[j1], #[trigger] r[j2]) by {
        assert(bfs_ordered(q[j1 + 1], q[j2 + 1]));
    }
    assert forall|j: int| 0 <= j < r.len() implies group_prefix(keys, (#[trigger] r[j]).lo as int, r[j].hi as int, r[j].depth as int) by {
        assert(r[j] == q[j + 1]);
    }
    assert forall|j1: int, j2: int, i1: int, i2: int|
        0 <= j1 < j2 < r.len() && #[trigger] in_group(r[j1], i1) && #[trigger] in_group(r[j2], i2) implies !prefix_eq(
            keys[i1],
            keys[i2],
            r[j1].depth as int,
        ) by {
        assert(in_group(q[j1 + 1], i1) && in_group(q[j2 + 1], i2));
    }
    assert forall|j: int, i: int| 0 <= j < r.len() && #[trigger] in_group(r[j], i) implies r[j].depth <= walk_stop::<H, S>(store, keys[i], 0) by {
        assert(in_group(q[j + 1], i));
    }
    assert forall|j: int| 0 <= j < r.len() implies bfs_ordered(q[0], #[trigger] r[j]) by {
        assert(bfs_ordered(q[0], q[j + 1]));
    }
    assert forall|j: int, i1: int, i2: int|
        0 <= j < r.len() && #[trigger] in_group(q[0], i1) && #[trigger] in_group(r[j], i2) implies !prefix_eq(
            keys[i1],
            keys[i2],
            q[0].depth as int,
        ) by {
        assert(in_group(q[j + 1], i2));
    }
    assert forall|i: int| in_group(q[0], i) implies find_group(q, i) == Some(q[0]) && #[trigger] find_group(r, i) is None by {
        lemma_find_group(r, i);
        assert forall|j: int| 0 <= j < r.len() implies !#[trigger] in_group(r[j], i) by {
            assert(bfs_ordered(q[0], q[j + 1]));
        }
    }
}

/// The generation ends the walk of the one key of the first group at the leaf level: the key's
/// leaf replaces the group in the verification queue, which does not change.
proof fn lemma_leaf_step<H: SmtHasher, S: SmtStore>(
    store: S,
    keys: Seq<Hash256>,
    kwl: Seq<(Hash256, Hash256)>,
    q: Seq<KeyGroup>,
    terms: Seq<ProofTerminal>,
)
    requires
        keys_in_tree::<H, S>(store, keys, kwl),
        bfs_inv::<H, S>(store, keys, q, terms),
        q.len() > 0,
        q[0].depth >= DEPTH,
        q[0].hi - q[0].lo == 1,
    ensures
        bfs_inv::<H, S>(store, keys, q.drop_first(), terms),
        state_queue::<H, S>(store, keys, kwl, q.drop_first(), terms) == state_queue::<H, S>(store, keys, kwl, q, terms),
        forall|i: int| 0 <= i < keys.len() && find_group(q, i) is None ==> #[trigger] find_group(q.drop_first(), i) is None,
{
    reveal(bfs_inv);
    let g = q[0];
    let lo = g.lo as int;
    let r = q.drop_first();
    lemma_drop_first_inv::<H, S>(store, keys, q, terms);
    assert(in_group(g, lo));
    assert(find_group(r, lo) is None);
    assert forall|i: int| 0 <= i < keys.len() && find_group(r, i) is None && r.len() > 0 implies (#[trigger] terms[i]).spec_depth() <= r[0].depth by {
        assert(bfs_ordered(g, r[0]));
        if i != lo {
            assert(find_group(q, i) == find_group(r, i));
        }
    }
    assert forall|i: int| 0 <= i < keys.len() && find_group(r, i) is Some implies #[trigger] terms[i] == ProofTerminal::Full by {
        assert(find_group(q, i) == find_group(r, i));
    }
    assert(bfs_inv::<H, S>(store, keys, r, terms));
    assert(slot::<H, S>(store, keys, kwl, q, terms, lo) == Some(group_item::<H, S>(store, keys, g)));
    assert(keys[lo] == kwl[lo].0);
    assert(key_status::<H, S>(store, keys[lo]) == Some(kwl[lo].1));
    lemma_leaf_value::<H, S>(store, keys[lo], kwl[lo].1);
    assert forall|i: int| 0 <= i < keys.len() implies #[trigger] slot::<H, S>(store, keys, kwl, r, terms, i) == slot::<H, S>(store, keys, kwl, q, terms, i) by {
        if i != lo {
            assert(find_group(q, i) == find_group(r, i));
        }
    }
    lemma_state_queue_ext::<H, S>(store, keys, kwl, r, terms, q, terms);
}

/// The generation ends the walk of the one key of the first group at a terminal: the key's
/// starting item replaces the group in the verification queue, which does not change.
proof fn lemma_terminal_step<H: SmtHasher, S: SmtStore>(
    store: S,
    keys: Seq<Hash256>,
    kwl: Seq<(Hash256, Hash256)>,
    q: Seq<KeyGroup>,
    terms: Seq<ProofTerminal>,
    t: ProofTerminal,
)
    requires
        keys_in_tree::<H, S>(store, keys, kwl),
        bfs_inv::<H, S>(store, keys, q, terms),
        q.len() > 0,
        q[0].depth < DEPTH,
        q[0].hi - q[0].lo == 1,
        spec_branching_data::<H, S>(store, keys[q[0].lo as int], q[0].depth as int) == NodeBranchingData::Terminal(t),
        !(t is CollapsedOther),
    ensures
        bfs_inv::<H, S>(store, keys, q.drop_first(), terms.update(q[0].lo as int, t)),
        state_queue::<H, S>(store, keys, kwl, q.drop_first(), terms.update(q[0].lo as int, t))
            == state_queue::<H, S>(store, keys, kwl, q, terms),
        forall|i: int|
            0 <= i < keys.len() && find_group(q, i) is None ==> #[trigger] find_group(q.drop_first(), i) is None
                && terms.update(q[0].lo as int, t)[i] == terms[i],
{
    reveal(bfs_inv);
    let g = q[0];
    let lo = g.lo as int;
    let d = g.depth as int;
    let r = q.drop_first();
    let t2 = terms.update(lo, t);
    lemma_drop_first_inv::<H, S>(store, keys, q, terms);
    assert(in_group(g, lo));
    assert(find_group(r, lo) is None);
    assert(keys[lo] == kwl[lo].0);
    assert(key_status::<H, S>(store, keys[lo]) == Some(kwl[lo].1));
    lemma_terminal_value::<H, S>(store, keys[lo], kwl[lo].1, d);
    assert(t2[lo].spec_depth() == d);
    assert forall|i: int| 0 <= i < keys.len() && find_group(r, i) is None && r.len() > 0 implies (#[trigger] t2[i]).spec_depth() <= r[0].depth by {
        assert(bfs_ordered(g, r[0]));
        if i != lo {
            assert(find_group(q, i) == find_group(r, i));
        }
    }
    assert forall|i: int| 0 <= i < keys.len() && find_group(r, i) is Some implies #[trigger] t2[i] == ProofTerminal::Full by {
        assert(find_group(q, i) == find_group(r, i));
    }
    assert forall|i: int| 0 <= i < keys.len() implies !((#[trigger] t2[i]) is CollapsedOther) by {
        if i != lo {
            assert(t2[i] == terms[i]);
        }
    }
    assert(bfs_inv::<H, S>(store, keys, r, t2));
    assert(slot::<H, S>(store, keys, kwl, q, terms, lo) == Some(group_item::<H, S>(store, keys, g)));
    assert forall|i: int| 0 <= i < keys.len() implies #[trigger] slot::<H, S>(store, keys, kwl, r, t2, i) == slot::<H, S>(store, keys, kwl, q, terms, i) by {
        if i != lo {
            assert(find_group(q, i) == find_group(r, i));
            assert(t2[i] == terms[i]);
        }
    }
    lemma_state_queue_ext::<H, S>(store, keys, kwl, r, t2, q, terms);
    assert forall|i: int| 0 <= i < keys.len() && find_group(q, i) is None implies #[trigger] find_group(r, i) is None
        && t2[i] == terms[i] by {
        assert(i != lo);
        assert(find_group(q, i) == find_group(r, i));
    }
}

/// Siblings at depth `p` agree on their first `p` bits.
proof fn lemma_siblings_prefix(a: Hash256, b: Hash256, p: int)
    ensures
        are_siblings(a, b, p) ==> prefix_eq(a, b, p),
        prefix_eq(a, b, p) && spec_bit_at(a, p) != spec_bit_at(b, p) ==> are_siblings(a, b, p),
{
    if are_siblings(a, b, p) {
        assert forall|t: int| 0 <= t < p implies #[trigger] spec_bit_at(a, t) == spec_bit_at(b, t) by {
        }
    }
}

/// The first group goes on one level down with all its keys: the generation state after the
/// step keeps the invariant, with the same groups for the keys outside it.
proof fn lemma_sibling_step_inv<H: SmtHasher, S: SmtStore>(
    store: S,
    keys: Seq<Hash256>,
    kwl: Seq<(Hash256, Hash256)>,
    q: Seq<KeyGroup>,
    terms: Seq<ProofTerminal>,
)
    requires
        keys_in_tree::<H, S>(store, keys, kwl),
        bfs_inv::<H, S>(store, keys, q, terms),
        q.len() > 0,
        q[0].depth < DEPTH,
        first_right(keys, q[0].lo as int, q[0].hi as int, q[0].depth as int) == q[0].lo
            || first_right(keys, q[0].lo as int, q[0].hi as int, q[0].depth as int) == q[0].hi,
        spec_branching_data::<H, S>(store, keys[q[0].lo as int], q[0].depth as int) is Sibling,
    ensures
        ({
            let g = q[0];
            let g2 = KeyGroup { lo: g.lo, hi: g.hi, depth: (g.depth + 1) as usize };
            let qn = q.drop_first().push(g2);
            &&& bfs_inv::<H, S>(store, keys, qn, terms)
            &&& forall|i: int| #[trigger] in_group(g, i) ==> find_group(qn, i) == Some(g2) && find_group(q, i) == Some(g)
            &&& forall|i: int| !in_group(g, i) ==> #[trigger] find_group(qn, i) == find_group(q, i)
            &&& forall|k: int| #[trigger] in_group(g, k) ==> spec_branching_data::<H, S>(store, keys[k], g.depth as int)
                == spec_branching_data::<H, S>(store, keys[g.lo as int], g.depth as int)
                && spec_bit_at(keys[k], g.depth as int) == spec_bit_at(keys[g.hi - 1], g.depth as int)
        }),
{
    reveal(bfs_inv);
    let g = q[0];
    let lo = g.lo as int;
    let hi = g.hi as int;
    let d = g.depth as int;
    let g2 = KeyGroup { lo: g.lo, hi: g.hi, depth: (g.depth + 1) as usize };
    let r = q.drop_first();
    let qn = r.push(g2);
    lemma_drop_first_inv::<H, S>(store, keys, q, terms);
    assert(group_prefix(keys, lo, hi, d));
    lemma_group_split(keys, lo, hi, d);
    assert(group_prefix(keys, lo, hi, d + 1));
    assert forall|k: int| #[trigger] in_group(g, k) implies spec_branching_data::<H, S>(store, keys[k], d)
        == spec_branching_data::<H, S>(store, keys[lo], d) && spec_bit_at(keys[k], d) == spec_bit_at(keys[hi - 1], d) by {
        assert(prefix_eq(keys[lo], keys[k], d + 1));
        lemma_sibling_shared::<H, S>(store, keys[lo], keys[k], d);
        assert(prefix_eq(keys[k], keys[hi - 1], d + 1));
    }
    assert forall|j: int| 0 <= j < qn.len() implies (#[trigger] qn[j]).lo < qn[j].hi && qn[j].hi <= keys.len() && qn[j].depth <= DEPTH by {
        if j < r.len() {
            assert(qn[j] == r[j]);
        }
    }
    assert forall|j1: int, j2: int| 0 <= j1 < j2 < qn.len() implies bfs_ordered(#[trigger] qn[j1], #[trigger] qn[j2]) by {
        assert(qn[j1] == r[j1]);
        if j2 < r.len() {
            assert(qn[j2] == r[j2]);
        } else {
            assert(bfs_ordered(g, r[j1]));
        }
    }
    assert forall|i: int| #[trigger] in_group(g, i) implies find_group(qn, i) == Some(g2) && find_group(q, i) == Some(g) by {
        lemma_find_group(qn, i);
        assert(in_group(qn[r.len() as int], i));
    }
    assert forall|i: int| !in_group(g, i) implies #[trigger] find_group(qn, i) == find_group(q, i) by {
        lemma_find_group(qn, i);
        lemma_find_group(r, i);
        if exists|j: int| 0 <= j < r.len() && #[trigger] in_group(r[j], i) {
            let j = choose|j: int| 0 <= j < r.len() && #[trigger] in_group(r[j], i);
            assert(qn[j] == r[j]);
            assert(in_group(qn[j], i));
        } else {
            assert forall|j: int| 0 <= j < qn.len() implies !#[trigger] in_group(qn[j], i) by {
                if j < r.len() {
                    assert(qn[j] == r[j]);
                }
            }
        }
    }
    assert forall|i: int| 0 <= i < keys.len() && find_group(qn, i) is None && qn.len() > 0 implies (#[trigger] terms[i]).spec_depth() <= qn[0].depth by {
        if in_group(g, i) {
        } else {
            if r.len() > 0 {
                assert(qn[0] == r[0]);
                assert(bfs_ordered(g, r[0]));
            }
        }
    }
    assert forall|i: int| 0 <= i < keys.len() && find_group(qn, i) is Some implies #[trigger] terms[i] == ProofTerminal::Full by {
        if !in_group(g, i) {
            assert(find_group(qn, i) == find_group(q, i));
        }
    }
    assert forall|j: int| 0 <= j < qn.len() implies group_prefix(keys, (#[trigger] qn[j]).lo as int, qn[j].hi as int, qn[j].depth as int) by {
        if j < r.len() {
            assert(qn[j] == r[j]);
        }
    }
    assert forall|j1: int, j2: int, i1: int, i2: int|
        0 <= j1 < j2 < qn.len() && #[trigger] in_group(qn[j1], i1) && #[trigger] in_group(qn[j2], i2) implies !prefix_eq(
            keys[i1],
            keys[i2],
            qn[j1].depth as int,
        ) by {
        assert(qn[j1] == r[j1]);
        if j2 < r.len() {
            assert(qn[j2] == r[j2]);
        } else {
            assert(in_group(g, i2));
            assert(bfs_ordered(g, r[j1]));
            assert(!prefix_eq(keys[i2], keys[i1], d));
            lemma_prefix_sym_mono(keys[i1], keys[i2], r[j1].depth as int, d);
        }
    }
    assert forall|j: int, i: int| 0 <= j < qn.len() && #[trigger] in_group(qn[j], i) implies qn[j].depth <= walk_stop::<H, S>(store, keys[i], 0) by {
        if j < r.len() {
            assert(qn[j] == r[j]);
        } else {
            assert(in_group(g, i));
            assert(in_group(q[0], i));
            lemma_walk_from::<H, S>(store, keys[i], d);
        }
    }
}

/// The members of the verification queues before and after the step where the first group
/// goes on one level down: the new queue holds the group's item one level down instead of the
/// group's item, and every other member comes before it and is not its sibling.
#[verifier::spinoff_prover]
proof fn lemma_sibling_members<H: SmtHasher, S: SmtStore>(
    store: S,
    keys: Seq<Hash256>,
    kwl: Seq<(Hash256, Hash256)>,
    q: Seq<KeyGroup>,
    terms: Seq<ProofTerminal>,
)
    requires
        keys_in_tree::<H, S>(store, keys, kwl),
        bfs_inv::<H, S>(store, keys, q, terms),
        q.len() > 0,
        q[0].depth < DEPTH,
        first_right(keys, q[0].lo as int, q[0].hi as int, q[0].depth as int) == q[0].lo
            || first_right(keys, q[0].lo as int, q[0].hi as int, q[0].depth as int) == q[0].hi,
        spec_branching_data::<H, S>(store, keys[q[0].lo as int], q[0].depth as int) is Sibling,
    ensures
        ({
            let g = q[0];
            let d = g.depth as int;
            let g2 = KeyGroup { lo: g.lo, hi: g.hi, depth: (g.depth + 1) as usize };
            let qn = q.drop_first().push(g2);
            let vn = state_queue::<H, S>(store, keys, kwl, qn, terms);
            let vc = state_queue::<H, S>(store, keys, kwl, q, terms);
            let top = group_item::<H, S>(store, keys, g2);
            let gi = group_item::<H, S>(store, keys, g);
            &&& queue_sorted(vn)
            &&& queue_sorted(vc)
            &&& vn.contains(top)
            &&& vc.contains(gi)
            &&& forall|y: QueueItem| vn.contains(y) && y != top ==> item_lt(y, top) && y.key_index != g.lo
                && (y.depth == d + 1 ==> !are_siblings(top.key, y.key, d)) && vc.contains(y)
            &&& forall|y: QueueItem| vc.contains(y) && y != gi ==> vn.contains(y) && y.key_index != g.lo
            &&& g.lo < g.hi
        }),
{
    reveal(bfs_inv);
    let g = q[0];
    let hi = g.hi as int;
    let d = g.depth as int;
    let g2 = KeyGroup { lo: g.lo, hi: g.hi, depth: (g.depth + 1) as usize };
    let r = q.drop_first();
    let qn = r.push(g2);
    lemma_drop_first_inv::<H, S>(store, keys, q, terms);
    lemma_sibling_step_inv::<H, S>(store, keys, kwl, q, terms);
    let vn = state_queue::<H, S>(store, keys, kwl, qn, terms);
    let vc = state_queue::<H, S>(store, keys, kwl, q, terms);
    lemma_state_queue::<H, S>(store, keys, kwl, qn, terms);
    lemma_state_queue::<H, S>(store, keys, kwl, q, terms);
    let top = group_item::<H, S>(store, keys, g2);
    let gi = group_item::<H, S>(store, keys, g);
    let lo = g.lo as int;
    assert(in_group(g, lo));
    assert(slot::<H, S>(store, keys, kwl, qn, terms, lo) == Some(top));
    assert(slot::<H, S>(store, keys, kwl, q, terms, lo) == Some(gi));
    assert forall|y: QueueItem| vn.contains(y) && y != top implies item_lt(y, top) && y.key_index != lo && (y.depth
        == d + 1 ==> !are_siblings(top.key, y.key, d)) && vc.contains(y) by {
        let i = choose|i: int| 0 <= i < keys.len() && #[trigger] slot::<H, S>(store, keys, kwl, qn, terms, i) == Some(y);
        lemma_find_group(qn, i);
        lemma_find_group(q, i);
        if in_group(g, i) {
            assert(find_group(qn, i) == Some(g2));
        } else {
            assert(find_group(qn, i) == find_group(q, i));
            assert(slot::<H, S>(store, keys, kwl, q, terms, i) == Some(y));
            match find_group(q, i) {
                Some(gg) => {
                    let k = choose|k: int| 0 <= k < q.len() && q[k] == gg;
                    assert(k != 0);
                    assert(r[k - 1] == gg);
                    assert(bfs_ordered(g, r[k - 1]));
                    assert(in_group(r[k - 1], i));
                    assert(in_group(q[0], lo));
                    assert(!prefix_eq(keys[lo], keys[i], d));
                    lemma_siblings_prefix(top.key, y.key, d);
                },
                None => {
                    assert(terms[i].spec_depth() <= q[0].depth);
                },
            }
        }
    }
    assert forall|y: QueueItem| vc.contains(y) && y != gi implies vn.contains(y) && y.key_index != lo by {
        let i = choose|i: int| 0 <= i < keys.len() && #[trigger] slot::<H, S>(store, keys, kwl, q, terms, i) == Some(y);
        lemma_find_group(q, i);
        if in_group(g, i) {
            assert(find_group(q, i) == Some(g));
        } else {
            assert(find_group(qn, i) == find_group(q, i));
            assert(slot::<H, S>(store, keys, kwl, qn, terms, i) == Some(y));
        }
    }
}

/// The item one level up from `cur`, hashed with `sibling` on the other side.
spec fn combine<H: SmtHasher>(cur: QueueItem, sibling: Hash256) -> QueueItem {
    QueueItem {
        key: cur.key,
        depth: (cur.depth - 1) as usize,
        key_index: cur.key_index,
        value: if spec_bit_at(cur.key, cur.depth - 1) {
            H::spec_node(sibling, cur.value)
        } else {
            H::spec_node(cur.value, sibling)
        },
    }
}

/// A verification step that takes the sibling from the proof.
proof fn lemma_multi_run_single<H: SmtHasher>(
    bytes: Seq<u8>,
    total: int,
    fs: Seq<Hash256>,
    v: Seq<QueueItem>,
    b: int,
    s: int,
)
    requires
        v.len() > 0,
        v.last().depth > 0,
        !(!spec_bit_at(v.last().key, v.last().depth - 1) && v.drop_last().len() > 0 && v.drop_last().last().depth
            == v.last().depth && are_siblings(v.last().key, v.drop_last().last().key, v.last().depth - 1)),
        b < total,
    ensures
        multi_run::<H>(bytes, total, fs, v, b, s) == multi_run::<H>(
            bytes,
            total,
            fs,
            queue_insert(
                v.drop_last(),
                combine::<H>(
                    v.last(),
                    if bitmap_bit(bytes, b) {
                        empty_hash_at_depth::<H>(v.last().depth - 1)
                    } else {
                        fs[s]
                    },
                ),
            ),
            b + 1,
            if bitmap_bit(bytes, b) { s } else { s + 1 },
        ),
{
}

/// A verification step that takes the sibling from the queue.
proof fn lemma_multi_run_merge<H: SmtHasher>(
    bytes: Seq<u8>,
    total: int,
    fs: Seq<Hash256>,
    v: Seq<QueueItem>,
    b: int,
    s: int,
)
    requires
        v.len() > 1,
        v.last().depth > 0,
        !spec_bit_at(v.last().key, v.last().depth - 1),
        v.drop_last().last().depth == v.last().depth,
        are_siblings(v.last().key, v.drop_last().last().key, v.last().depth - 1),
    ensures
        multi_run::<H>(bytes, total, fs, v, b, s) == multi_run::<H>(
            bytes,
            total,
            fs,
            queue_insert(v.drop_last().drop_last(), combine::<H>(v.last(), v.drop_last().last().value)),
            b,
            s,
        ),
{
}

/// In reverse, the step where the first group goes on one level down is one verification
/// step: the group's item one level down is processed first, takes the recorded sibling (the
/// empty-subtree hash for a set bit, the next stored sibling otherwise) and gives the group's
/// item.
#[verifier::spinoff_prover]
proof fn lemma_sibling_step_queue<H: SmtHasher, S: SmtStore>(
    store: S,
    root: Hash256,
    keys: Seq<Hash256>,
    kwl: Seq<(Hash256, Hash256)>,
    q: Seq<KeyGroup>,
    terms: Seq<ProofTerminal>,
    bytes: Seq<u8>,
    total: int,
    fs: Seq<Hash256>,
    b: int,
    sl: int,
)
    requires
        store_consistent::<H, S>(store, root),
        keys_in_tree::<H, S>(store, keys, kwl),
        bfs_inv::<H, S>(store, keys, q, terms),
        q.len() > 0,
        q[0].depth < DEPTH,
        first_right(keys, q[0].lo as int, q[0].hi as int, q[0].depth as int) == q[0].lo
            || first_right(keys, q[0].lo as int, q[0].hi as int, q[0].depth as int) == q[0].hi,
        spec_branching_data::<H, S>(store, keys[q[0].lo as int], q[0].depth as int) is Sibling,
        0 <= b < total,
        sl >= 0,
        bitmap_bit(bytes, b) == (spec_branching_data::<H, S>(store, keys[q[0].lo as int], q[0].depth as int)
            == NodeBranchingData::Sibling(None)),
        spec_branching_data::<H, S>(store, keys[q[0].lo as int], q[0].depth as int) matches NodeBranchingData::Sibling(Some(h))
            ==> sl < fs.len() && fs[sl] == h,
    ensures
        ({
            let g = q[0];
            let g2 = KeyGroup { lo: g.lo, hi: g.hi, depth: (g.depth + 1) as usize };
            let qn = q.drop_first().push(g2);
            let sn = if bitmap_bit(bytes, b) { sl } else { sl + 1 };
            multi_run::<H>(bytes, total, fs, state_queue::<H, S>(store, keys, kwl, qn, terms), b, sl)
                == multi_run::<H>(bytes, total, fs, state_queue::<H, S>(store, keys, kwl, q, terms), b + 1, sn)
        }),
{
    let g = q[0];
    let lo = g.lo as int;
    let d = g.depth as int;
    let g2 = KeyGroup { lo: g.lo, hi: g.hi, depth: (g.depth + 1) as usize };
    let qn = q.drop_first().push(g2);
    lemma_sibling_members::<H, S>(store, keys, kwl, q, terms);
    let vn = state_queue::<H, S>(store, keys, kwl, qn, terms);
    let vc = state_queue::<H, S>(store, keys, kwl, q, terms);
    let top = group_item::<H, S>(store, keys, g2);
    let gi = group_item::<H, S>(store, keys, g);
    lemma_queue_last(vn, top);
    lemma_queue_drop_last(vn);
    let rest = vn.drop_last();
    if !spec_bit_at(top.key, d) && rest.len() > 0 && rest.last().depth == d + 1 {
        assert(rest.contains(rest.last()));
        assert(!are_siblings(top.key, rest.last().key, d));
    }
    lemma_multi_run_single::<H>(bytes, total, fs, vn, b, sl);
    lemma_path_value_step::<H, S>(store, root, keys[lo], d);
    let sibling = if bitmap_bit(bytes, b) {
        empty_hash_at_depth::<H>(d)
    } else {
        fs[sl]
    };
    assert(combine::<H>(top, sibling) == gi);
    assert forall|i: int| 0 <= i < rest.len() implies item_lt(#[trigger] rest[i], gi) || item_lt(gi, rest[i]) by {
        assert(rest.contains(rest[i]));
        lemma_items_comparable(rest[i], gi);
    }
    lemma_queue_insert(rest, gi);
    assert forall|y: QueueItem| queue_insert(rest, gi).contains(y) <==> vc.contains(y) by {
        if vc.contains(y) && y != gi {
            assert(y != top);
        }
    }
    lemma_queue_unique(queue_insert(rest, gi), vc);
}

/// The first group splits into its left and right parts one level down: the generation state
/// after the step keeps the invariant, with the same groups for the keys outside it.
#[verifier::spinoff_prover]
proof fn lemma_split_step_inv<H: SmtHasher, S: SmtStore>(
    store: S,
    keys: Seq<Hash256>,
    kwl: Seq<(Hash256, Hash256)>,
    q: Seq<KeyGroup>,
    terms: Seq<ProofTerminal>,
)
    requires
        keys_in_tree::<H, S>(store, keys, kwl),
        bfs_inv::<H, S>(store, keys, q, terms),
        q.len() > 0,
        q[0].depth < DEPTH,
        q[0].lo < first_right(keys, q[0].lo as int, q[0].hi as int, q[0].depth as int) < q[0].hi,
    ensures
        ({
            let g = q[0];
            let d = g.depth as int;
            let sp = first_right(keys, g.lo as int, g.hi as int, d);
            let gl = KeyGroup { lo: g.lo, hi: sp as usize, depth: (g.depth + 1) as usize };
            let gr = KeyGroup { lo: sp as usize, hi: g.hi, depth: (g.depth + 1) as usize };
            let qn = q.drop_first().push(gr).push(gl);
            &&& bfs_inv::<H, S>(store, keys, qn, terms)
            &&& forall|i: int| #[trigger] in_group(g, i) ==> find_group(q, i) == Some(g) && find_group(qn, i) == if i < sp {
                Some(gl)
            } else {
                Some(gr)
            }
            &&& forall|i: int| !in_group(g, i) ==> #[trigger] find_group(qn, i) == find_group(q, i)
            &&& prefix_eq(keys[g.lo as int], keys[sp], d)
            &&& !spec_bit_at(keys[g.lo as int], d)
            &&& spec_bit_at(keys[sp], d)
            &&& spec_branching_data::<H, S>(store, keys[sp], d) is Sibling
        }),
{
    reveal(bfs_inv);
    let g = q[0];
    let lo = g.lo as int;
    let hi = g.hi as int;
    let d = g.depth as int;
    let sp = first_right(keys, lo, hi, d);
    let gl = KeyGroup { lo: g.lo, hi: sp as usize, depth: (g.depth + 1) as usize };
    let gr = KeyGroup { lo: sp as usize, hi: g.hi, depth: (g.depth + 1) as usize };
    let r = q.drop_first();
    let qn = r.push(gr).push(gl);
    let ln = r.len() as int;
    assert(qn[ln] == gr && qn[ln + 1] == gl);
    assert forall|j: int| 0 <= j < ln implies qn[j] == r[j] by {}
    lemma_drop_first_inv::<H, S>(store, keys, q, terms);
    assert(group_prefix(keys, lo, hi, d));
    lemma_group_split(keys, lo, hi, d);
    assert(in_group(g, lo) && in_group(g, hi - 1) && in_group(g, sp - 1));
    assert(keys[lo] != keys[hi - 1]);
    lemma_split_branches::<H, S>(store, keys[lo], keys[hi - 1], kwl[lo].1, kwl[hi - 1].1, d);
    assert forall|k: int| #[trigger] in_group(g, k) implies d + 1 <= walk_stop::<H, S>(store, keys[k], 0) by {
        assert(prefix_eq(keys[k], keys[hi - 1], d));
        lemma_prefix_masked(keys[k], keys[hi - 1], d);
        lemma_branches_iff_internal::<H, S>(store, keys[k], d);
        lemma_branches_iff_internal::<H, S>(store, keys[hi - 1], d);
        assert(in_group(q[0], k));
        lemma_walk_from::<H, S>(store, keys[k], d);
    }
    assert forall|j: int| 0 <= j < qn.len() implies (#[trigger] qn[j]).lo < qn[j].hi && qn[j].hi <= keys.len() && qn[j].depth <= DEPTH by {
    }
    assert forall|j1: int, j2: int| 0 <= j1 < j2 < qn.len() implies bfs_ordered(#[trigger] qn[j1], #[trigger] qn[j2]) by {
        if j2 < ln {
        } else if j1 < ln {
            assert(bfs_ordered(g, r[j1]));
        }
    }
    assert forall|i: int| #[trigger] in_group(g, i) implies find_group(q, i) == Some(g) && find_group(qn, i) == if i < sp {
        Some(gl)
    } else {
        Some(gr)
    } by {
        lemma_find_group(qn, i);
        if i < sp {
            assert(in_group(qn[ln + 1], i));
        } else {
            assert(in_group(qn[ln], i));
        }
    }
    assert forall|i: int| !in_group(g, i) implies #[trigger] find_group(qn, i) == find_group(q, i) by {
        lemma_find_group(qn, i);
        lemma_find_group(r, i);
        if exists|j: int| 0 <= j < r.len() && #[trigger] in_group(r[j], i) {
            let j = choose|j: int| 0 <= j < r.len() && #[trigger] in_group(r[j], i);
            assert(in_group(qn[j], i));
        } else {
            assert forall|j: int| 0 <= j < qn.len() implies !#[trigger] in_group(qn[j], i) by {
                if j < ln {
                    assert(!in_group(r[j], i));
                }
            }
        }
    }
    assert forall|i: int| 0 <= i < keys.len() && find_group(qn, i) is None && qn.len() > 0 implies (#[trigger] terms[i]).spec_depth() <= qn[0].depth by {
        if !in_group(g, i) {
            if ln > 0 {
                assert(bfs_ordered(g, r[0]));
            }
        }
    }
    assert forall|i: int| 0 <= i < keys.len() && find_group(qn, i) is Some implies #[trigger] terms[i] == ProofTerminal::Full by {
        if !in_group(g, i) {
            assert(find_group(qn, i) == find_group(q, i));
        }
    }
    assert forall|j: int| 0 <= j < qn.len() implies group_prefix(keys, (#[trigger] qn[j]).lo as int, qn[j].hi as int, qn[j].depth as int) by {
    }
    assert forall|j1: int, j2: int, i1: int, i2: int|
        0 <= j1 < j2 < qn.len() && #[trigger] in_group(qn[j1], i1) && #[trigger] in_group(qn[j2], i2) implies !prefix_eq(
            keys[i1],
            keys[i2],
            qn[j1].depth as int,
        ) by {
        if j2 < ln {
        } else if j1 < ln {
            assert(in_group(g, i2));
            assert(bfs_ordered(g, r[j1]));
            assert(!prefix_eq(keys[i2], keys[i1], d));
            lemma_prefix_sym_mono(keys[i1], keys[i2], r[j1].depth as int, d);
        } else {
            assert(spec_bit_at(keys[i1], d) && !spec_bit_at(keys[i2], d));
        }
    }
    assert forall|j: int, i: int| 0 <= j < qn.len() && #[trigger] in_group(qn[j], i) implies qn[j].depth <= walk_stop::<H, S>(store, keys[i], 0) by {
        if j >= ln {
            assert(in_group(g, i));
        }
    }
    assert(in_group(g, sp));
    assert(prefix_eq(keys[lo], keys[sp], d));
    lemma_prefix_masked(keys[sp], keys[hi - 1], d);
    lemma_branches_iff_internal::<H, S>(store, keys[sp], d);
    lemma_branches_iff_internal::<H, S>(store, keys[hi - 1], d);
}

/// The members of the verification queues before and after the step where the first group
/// splits: the new queue holds the items of both parts instead of the group's item; the left
/// part's item comes first, then the right part's, then every other member.
#[verifier::spinoff_prover]
proof fn lemma_split_members<H: SmtHasher, S: SmtStore>(
    store: S,
    keys: Seq<Hash256>,
    kwl: Seq<(Hash256, Hash256)>,
    q: Seq<KeyGroup>,
    terms: Seq<ProofTerminal>,
)
    requires
        keys_in_tree::<H, S>(store, keys, kwl),
        bfs_inv::<H, S>(store, keys, q, terms),
        q.len() > 0,
        q[0].depth < DEPTH,
        q[0].lo < first_right(keys, q[0].lo as int, q[0].hi as int, q[0].depth as int) < q[0].hi,
    ensures
        ({
            let g = q[0];
            let d = g.depth as int;
            let sp = first_right(keys, g.lo as int, g.hi as int, d);
            let gl = KeyGroup { lo: g.lo, hi: sp as usize, depth: (g.depth + 1) as usize };
            let gr = KeyGroup { lo: sp as usize, hi: g.hi, depth: (g.depth + 1) as usize };
            let qn = q.drop_first().push(gr).push(gl);
            let vn = state_queue::<H, S>(store, keys, kwl, qn, terms);
            let vc = state_queue::<H, S>(store, keys, kwl, q, terms);
            let top = group_item::<H, S>(store, keys, gl);
            let other = group_item::<H, S>(store, keys, gr);
            let gi = group_item::<H, S>(store, keys, g);
            &&& queue_sorted(vn)
            &&& queue_sorted(vc)
            &&& vn.contains(top)
            &&& vn.contains(other)
            &&& other != top
            &&& vc.contains(gi)
            &&& forall|y: QueueItem| vn.contains(y) && y != top ==> item_lt(y, top)
            &&& forall|y: QueueItem| vn.contains(y) && y != top && y != other ==> item_lt(y, other)
                && y.key_index != g.lo && vc.contains(y)
            &&& forall|y: QueueItem| vc.contains(y) && y != gi ==> vn.contains(y) && y != top && y != other
        }),
{
    reveal(bfs_inv);
    let g = q[0];
    let lo = g.lo as int;
    let hi = g.hi as int;
    let d = g.depth as int;
    let sp = first_right(keys, lo, hi, d);
    let gl = KeyGroup { lo: g.lo, hi: sp as usize, depth: (g.depth + 1) as usize };
    let gr = KeyGroup { lo: sp as usize, hi: g.hi, depth: (g.depth + 1) as usize };
    let r = q.drop_first();
    let qn = r.push(gr).push(gl);
    let ln = r.len() as int;
    assert(qn[ln] == gr && qn[ln + 1] == gl);
    lemma_drop_first_inv::<H, S>(store, keys, q, terms);
    lemma_split_step_inv::<H, S>(store, keys, kwl, q, terms);
    reveal(bfs_inv);
    let vn = state_queue::<H, S>(store, keys, kwl, qn, terms);
    let vc = state_queue::<H, S>(store, keys, kwl, q, terms);
    lemma_state_queue::<H, S>(store, keys, kwl, qn, terms);
    lemma_state_queue::<H, S>(store, keys, kwl, q, terms);
    let top = group_item::<H, S>(store, keys, gl);
    let other = group_item::<H, S>(store, keys, gr);
    let gi = group_item::<H, S>(store, keys, g);
    assert(in_group(g, lo) && in_group(g, sp));
    assert(slot::<H, S>(store, keys, kwl, qn, terms, lo) == Some(top));
    assert(slot::<H, S>(store, keys, kwl, qn, terms, sp) == Some(other));
    assert(slot::<H, S>(store, keys, kwl, q, terms, lo) == Some(gi));
    assert forall|y: QueueItem| vn.contains(y) && y != top implies item_lt(y, top) && (y != other ==> item_lt(y, other)
        && y.key_index != lo && vc.contains(y)) by {
        let i = choose|i: int| 0 <= i < keys.len() && #[trigger] slot::<H, S>(store, keys, kwl, qn, terms, i) == Some(y);
        lemma_find_group(qn, i);
        lemma_find_group(q, i);
        if in_group(g, i) {
        } else {
            assert(find_group(qn, i) == find_group(q, i));
            assert(slot::<H, S>(store, keys, kwl, q, terms, i) == Some(y));
            match find_group(q, i) {
                Some(gg) => {
                    let k = choose|k: int| 0 <= k < q.len() && q[k] == gg;
                    assert(k != 0);
                    assert(r[k - 1] == gg);
                    assert(bfs_ordered(g, r[k - 1]));
                },
                None => {
                    assert(terms[i].spec_depth() <= q[0].depth);
                },
            }
        }
    }
    assert forall|y: QueueItem| vc.contains(y) && y != gi implies vn.contains(y) && y != top && y != other by {
        let i = choose|i: int| 0 <= i < keys.len() && #[trigger] slot::<H, S>(store, keys, kwl, q, terms, i) == Some(y);
        lemma_find_group(q, i);
        if in_group(g, i) {
            assert(find_group(q, i) == Some(g));
        } else {
            assert(find_group(qn, i) == find_group(q, i));
            assert(slot::<H, S>(store, keys, kwl, qn, terms, i) == Some(y));
        }
    }
}

/// In reverse, the step where the first group splits is one verification step: the left
/// part's item is processed first, takes the right part's item as its sibling and gives the
/// group's item.
#[verifier::spinoff_prover]
proof fn lemma_split_step_queue<H: SmtHasher, S: SmtStore>(
    store: S,
    root: Hash256,
    keys: Seq<Hash256>,
    kwl: Seq<(Hash256, Hash256)>,
    q: Seq<KeyGroup>,
    terms: Seq<ProofTerminal>,
    bytes: Seq<u8>,
    total: int,
    fs: Seq<Hash256>,
    b: int,
    sl: int,
)
    requires
        store_consistent::<H, S>(store, root),
        keys_in_tree::<H, S>(store, keys, kwl),
        bfs_inv::<H, S>(store, keys, q, terms),
        q.len() > 0,
        q[0].depth < DEPTH,
        q[0].lo < first_right(keys, q[0].lo as int, q[0].hi as int, q[0].depth as int) < q[0].hi,
    ensures
        ({
            let g = q[0];
            let sp = first_right(keys, g.lo as int, g.hi as int, g.depth as int);
            let gl = KeyGroup { lo: g.lo, hi: sp as usize, depth: (g.depth + 1) as usize };
            let gr = KeyGroup { lo: sp as usize, hi: g.hi, depth: (g.depth + 1) as usize };
            let qn = q.drop_first().push(gr).push(gl);
            multi_run::<H>(bytes, total, fs, state_queue::<H, S>(store, keys, kwl, qn, terms), b, sl)
                == multi_run::<H>(bytes, total, fs, state_queue::<H, S>(store, keys, kwl, q, terms), b, sl)
        }),
{
    let g = q[0];
    let lo = g.lo as int;
    let hi = g.hi as int;
    let d = g.depth as int;
    let sp = first_right(keys, lo, hi, d);
    let gl = KeyGroup { lo: g.lo, hi: sp as usize, depth: (g.depth + 1) as usize };
    let gr = KeyGroup { lo: sp as usize, hi: g.hi, depth: (g.depth + 1) as usize };
    let qn = q.drop_first().push(gr).push(gl);
    lemma_split_step_inv::<H, S>(store, keys, kwl, q, terms);
    lemma_split_members::<H, S>(store, keys, kwl, q, terms);
    let vn = state_queue::<H, S>(store, keys, kwl, qn, terms);
    let vc = state_queue::<H, S>(store, keys, kwl, q, terms);
    let top = group_item::<H, S>(store, keys, gl);
    let other = group_item::<H, S>(store, keys, gr);
    let gi = group_item::<H, S>(store, keys, g);
    lemma_queue_last(vn, top);
    lemma_queue_drop_last(vn);
    let rest = vn.drop_last();
    assert(rest.contains(other));
    lemma_queue_last(rest, other);
    lemma_queue_drop_last(rest);
    let rest2 = rest.drop_last();
    lemma_siblings_prefix(top.key, other.key, d);
    lemma_multi_run_merge::<H>(bytes, total, fs, vn, b, sl);
    lemma_path_value_merge::<H, S>(store, root, keys[lo], keys[sp], d);
    assert(combine::<H>(top, other.value) == gi);
    assert forall|i: int| 0 <= i < rest2.len() implies item_lt(#[trigger] rest2[i], gi) || item_lt(gi, rest2[i]) by {
        assert(rest2.contains(rest2[i]));
        assert(rest.contains(rest2[i]));
        lemma_items_comparable(rest2[i], gi);
    }
    lemma_queue_insert(rest2, gi);
    assert forall|y: QueueItem| queue_insert(rest2, gi).contains(y) <==> vc.contains(y) by {
        if queue_insert(rest2, gi).contains(y) && y != gi {
            assert(rest.contains(y));
        }
    }
    lemma_queue_unique(queue_insert(rest2, gi), vc);
}

/// The facts about the first pending group that the generation steps start from.
proof fn lemma_inv_first<H: SmtHasher, S: SmtStore>(
    store: S,
    keys: Seq<Hash256>,
    q: Seq<KeyGroup>,
    terms: Seq<ProofTerminal>,
)
    requires
        bfs_inv::<H, S>(store, keys, q, terms),
    ensures
        terms.len() == keys.len(),
        q.len() == 0 ==> forall|i: int| 0 <= i < terms.len() ==> !((#[trigger] terms[i]) is CollapsedOther),
        q.len() > 0 ==> q[0].lo < q[0].hi && q[0].hi <= keys.len() && q[0].depth <= DEPTH
            && group_prefix(keys, q[0].lo as int, q[0].hi as int, q[0].depth as int),
{
    reveal(bfs_inv);
    if q.len() > 0 {
        assert(q[0].lo < q[0].hi);
    }
}

/// The generation, from any state on the way, records bits, siblings and terminals such that
/// the verification from the final state's queue (every key's starting item, with every bit
/// and sibling to consume) comes to what the verification from the state's queue comes to,
/// with the bits and siblings recorded so far.
#[verifier::spinoff_prover]
proof fn lemma_run_verifies<H: SmtHasher, S: SmtStore>(
    store: S,
    root: Hash256,
    keys: Seq<Hash256>,
    kwl: Seq<(Hash256, Hash256)>,
    q: Seq<KeyGroup>,
    bits: Seq<bool>,
    sibs: Seq<Hash256>,
    terms: Seq<ProofTerminal>,
    fb: Seq<bool>,
    fs: Seq<Hash256>,
    ft: Seq<ProofTerminal>,
    bytes: Seq<u8>,
    cs: Seq<Hash256>,
)
    requires
        store_consistent::<H, S>(store, root),
        keys_in_tree::<H, S>(store, keys, kwl),
        bfs_inv::<H, S>(store, keys, q, terms),
        sibs.len() == falses(bits),
        prove_run::<H, S>(store, keys, q, bits, sibs, terms) == Ok::<
            (Seq<bool>, Seq<Hash256>, Seq<ProofTerminal>),
            ProveFailure,
        >((fb, fs, ft)),
        forall|i: int| 0 <= i < fb.len() ==> #[trigger] bitmap_bit(bytes, i) == fb[fb.len() - 1 - i],
        cs.len() == fs.len(),
        forall|i: int| 0 <= i < cs.len() ==> #[trigger] cs[i] == fs[fs.len() - 1 - i],
    ensures
        bits.len() <= fb.len(),
        fb.subrange(0, bits.len() as int) == bits,
        sibs.len() <= fs.len(),
        fs.subrange(0, sibs.len() as int) == sibs,
        fs.len() == falses(fb),
        ft.len() == terms.len(),
        forall|i: int| 0 <= i < keys.len() && find_group(q, i) is None ==> #[trigger] ft[i] == terms[i],
        forall|i: int| 0 <= i < ft.len() ==> !((#[trigger] ft[i]) is CollapsedOther),
        multi_run::<H>(bytes, fb.len() as int, cs, state_queue::<H, S>(store, keys, kwl, Seq::empty(), ft), 0, 0)
            == multi_run::<H>(
            bytes,
            fb.len() as int,
            cs,
            state_queue::<H, S>(store, keys, kwl, q, terms),
            fb.len() - bits.len(),
            fs.len() - sibs.len(),
        ),
    decreases queue_weight(q, DEPTH + 1), q.len(), 3nat,
{
    lemma_inv_first::<H, S>(store, keys, q, terms);
    if q.len() == 0 {
        lemma_prove_run_empty::<H, S>(store, keys, q, bits, sibs, terms);
        assert(fb.subrange(0, bits.len() as int) =~= bits);
        assert(fs.subrange(0, sibs.len() as int) =~= sibs);
        assert(q =~= Seq::<KeyGroup>::empty());
    } else if q[0].depth >= DEPTH {
        let r = q.drop_first();
        lemma_queue_weight_drop_first(q, DEPTH + 1);
        lemma_prove_run_leaf_level::<H, S>(store, keys, q, bits, sibs, terms);
        assert(q[0].hi - q[0].lo == 1);
        lemma_leaf_step::<H, S>(store, keys, kwl, q, terms);
        lemma_run_verifies::<H, S>(store, root, keys, kwl, r, bits, sibs, terms, fb, fs, ft, bytes, cs);
    } else {
        lemma_run_branch::<H, S>(store, root, keys, kwl, q, bits, sibs, terms, fb, fs, ft, bytes, cs);
    }
}

/// [`lemma_run_verifies`] for a first group above the leaf level.
#[verifier::spinoff_prover]
proof fn lemma_run_branch<H: SmtHasher, S: SmtStore>(
    store: S,
    root: Hash256,
    keys: Seq<Hash256>,
    kwl: Seq<(Hash256, Hash256)>,
    q: Seq<KeyGroup>,
    bits: Seq<bool>,
    sibs: Seq<Hash256>,
    terms: Seq<ProofTerminal>,
    fb: Seq<bool>,
    fs: Seq<Hash256>,
    ft: Seq<ProofTerminal>,
    bytes: Seq<u8>,
    cs: Seq<Hash256>,
)
    requires
        store_consistent::<H, S>(store, root),
        keys_in_tree::<H, S>(store, keys, kwl),
        bfs_inv::<H, S>(store, keys, q, terms),
        sibs.len() == falses(bits),
        prove_run::<H, S>(store, keys, q, bits, sibs, terms) == Ok::<
            (Seq<bool>, Seq<Hash256>, Seq<ProofTerminal>),
            ProveFailure,
        >((fb, fs, ft)),
        forall|i: int| 0 <= i < fb.len() ==> #[trigger] bitmap_bit(bytes, i) == fb[fb.len() - 1 - i],
        cs.len() == fs.len(),
        forall|i: int| 0 <= i < cs.len() ==> #[trigger] cs[i] == fs[fs.len() - 1 - i],
        q.len() > 0,
        q[0].depth < DEPTH,
    ensures
        bits.len() <= fb.len(),
        fb.subrange(0, bits.len() as int) == bits,
        sibs.len() <= fs.len(),
        fs.subrange(0, sibs.len() as int) == sibs,
        fs.len() == falses(fb),
        ft.len() == terms.len(),
        forall|i: int| 0 <= i < keys.len() && find_group(q, i) is None ==> #[trigger] ft[i] == terms[i],
        forall|i: int| 0 <= i < ft.len() ==> !((#[trigger] ft[i]) is CollapsedOther),
        multi_run::<H>(bytes, fb.len() as int, cs, state_queue::<H, S>(store, keys, kwl, Seq::empty(), ft), 0, 0)
            == multi_run::<H>(
            bytes,
            fb.len() as int,
            cs,
            state_queue::<H, S>(store, keys, kwl, q, terms),
            fb.len() - bits.len(),
            fs.len() - sibs.len(),
        ),
    decreases queue_weight(q, DEPTH + 1), q.len(), 2nat,
{
    lemma_inv_first::<H, S>(store, keys, q, terms);
    let g = q[0];
    let lo = g.lo as int;
    let hi = g.hi as int;
    let d = g.depth as int;
    lemma_group_split(keys, lo, hi, d);
    let sp = first_right(keys, lo, hi, d);
    if sp == lo || sp == hi {
        lemma_run_single::<H, S>(store, root, keys, kwl, q, bits, sibs, terms, fb, fs, ft, bytes, cs);
    } else {
        lemma_run_split::<H, S>(store, root, keys, kwl, q, bits, sibs, terms, fb, fs, ft, bytes, cs);
    }
}

/// [`lemma_run_verifies`] for a first group above the leaf level that splits.
#[verifier::spinoff_prover]
proof fn lemma_run_split<H: SmtHasher, S: SmtStore>(
    store: S,
    root: Hash256,
    keys: Seq<Hash256>,
    kwl: Seq<(Hash256, Hash256)>,
    q: Seq<KeyGroup>,
    bits: Seq<bool>,
    sibs: Seq<Hash256>,
    terms: Seq<ProofTerminal>,
    fb: Seq<bool>,
    fs: Seq<Hash256>,
    ft: Seq<ProofTerminal>,
    bytes: Seq<u8>,
    cs: Seq<Hash256>,
)
    requires
        store_consistent::<H, S>(store, root),
        keys_in_tree::<H, S>(store, keys, kwl),
        bfs_inv::<H, S>(store, keys, q, terms),
        sibs.len() == falses(bits),
        prove_run::<H, S>(store, keys, q, bits, sibs, terms) == Ok::<
            (Seq<bool>, Seq<Hash256>, Seq<ProofTerminal>),
            ProveFailure,
        >((fb, fs, ft)),
        forall|i: int| 0 <= i < fb.len() ==> #[trigger] bitmap_bit(bytes, i) == fb[fb.len() - 1 - i],
        cs.len() == fs.len(),
        forall|i: int| 0 <= i < cs.len() ==> #[trigger] cs[i] == fs[fs.len() - 1 - i],
        q.len() > 0,
        q[0].depth < DEPTH,
        q[0].lo < first_right(keys, q[0].lo as int, q[0].hi as int, q[0].depth as int) < q[0].hi,
    ensures
        bits.len() <= fb.len(),
        fb.subrange(0, bits.len() as int) == bits,
        sibs.len() <= fs.len(),
        fs.subrange(0, sibs.len() as int) == sibs,
        fs.len() == falses(fb),
        ft.len() == terms.len(),
        forall|i: int| 0 <= i < keys.len() && find_group(q, i) is None ==> #[trigger] ft[i] == terms[i],
        forall|i: int| 0 <= i < ft.len() ==> !((#[trigger] ft[i]) is CollapsedOther),
        multi_run::<H>(bytes, fb.len() as int, cs, state_queue::<H, S>(store, keys, kwl, Seq::empty(), ft), 0, 0)
            == multi_run::<H>(
            bytes,
            fb.len() as int,
            cs,
            state_queue::<H, S>(store, keys, kwl, q, terms),
            fb.len() - bits.len(),
            fs.len() - sibs.len(),
        ),
    decreases queue_weight(q, DEPTH + 1), q.len(), 1nat,
{
    lemma_inv_first::<H, S>(store, keys, q, terms);
    let g = q[0];
    let lo = g.lo as int;
    let hi = g.hi as int;
    let d = g.depth as int;
    let r = q.drop_first();
    let sp = first_right(keys, lo, hi, d);
    lemma_queue_weight_drop_first(q, DEPTH + 1);
    let gl = KeyGroup { lo: g.lo, hi: sp as usize, depth: (g.depth + 1) as usize };
    let gr = KeyGroup { lo: sp as usize, hi: g.hi, depth: (g.depth + 1) as usize };
    let qn = r.push(gr).push(gl);
    lemma_prove_run_split::<H, S>(store, keys, q, bits, sibs, terms, sp);
    lemma_split_weight(lo, sp, hi, d, DEPTH + 1);
    assert(r.push(gr).drop_last() =~= r);
    assert(qn.drop_last() =~= r.push(gr));
    assert(group_weight(gl, DEPTH + 1) == (sp - lo) * (DEPTH + 1 - (d + 1)));
    assert(group_weight(gr, DEPTH + 1) == (hi - sp) * (DEPTH + 1 - (d + 1)));
    assert(group_weight(g, DEPTH + 1) == (hi - lo) * (DEPTH + 1 - d));
    assert(queue_weight(r.push(gr), DEPTH + 1) == queue_weight(r, DEPTH + 1) + group_weight(gr, DEPTH + 1));
    assert(queue_weight(qn, DEPTH + 1) == queue_weight(r.push(gr), DEPTH + 1) + group_weight(gl, DEPTH + 1));
    lemma_split_step_inv::<H, S>(store, keys, kwl, q, terms);
    lemma_run_verifies::<H, S>(store, root, keys, kwl, qn, bits, sibs, terms, fb, fs, ft, bytes, cs);
    lemma_split_step_queue::<H, S>(
        store,
        root,
        keys,
        kwl,
        q,
        terms,
        bytes,
        fb.len() as int,
        cs,
        fb.len() - bits.len(),
        fs.len() - sibs.len(),
    );
    assert forall|i: int| 0 <= i < keys.len() && find_group(q, i) is None implies #[trigger] ft[i] == terms[i] by {
        if in_group(g, i) {
        } else {
            assert(find_group(qn, i) == find_group(q, i));
        }
    }
}

/// [`lemma_run_verifies`] for a first group above the leaf level whose keys all go the same
/// way.
#[verifier::spinoff_prover]
proof fn lemma_run_single<H: SmtHasher, S: SmtStore>(
    store: S,
    root: Hash256,
    keys: Seq<Hash256>,
    kwl: Seq<(Hash256, Hash256)>,
    q: Seq<KeyGroup>,
    bits: Seq<bool>,
    sibs: Seq<Hash256>,
    terms: Seq<ProofTerminal>,
    fb: Seq<bool>,
    fs: Seq<Hash256>,
    ft: Seq<ProofTerminal>,
    bytes: Seq<u8>,
    cs: Seq<Hash256>,
)
    requires
        store_consistent::<H, S>(store, root),
        keys_in_tree::<H, S>(store, keys, kwl),
        bfs_inv::<H, S>(store, keys, q, terms),
        sibs.len() == falses(bits),
        prove_run::<H, S>(store, keys, q, bits, sibs, terms) == Ok::<
            (Seq<bool>, Seq<Hash256>, Seq<ProofTerminal>),
            ProveFailure,
        >((fb, fs, ft)),
        forall|i: int| 0 <= i < fb.len() ==> #[trigger] bitmap_bit(bytes, i) == fb[fb.len() - 1 - i],
        cs.len() == fs.len(),
        forall|i: int| 0 <= i < cs.len() ==> #[trigger] cs[i] == fs[fs.len() - 1 - i],
        q.len() > 0,
        q[0].depth < DEPTH,
        first_right(keys, q[0].lo as int, q[0].hi as int, q[0].depth as int) == q[0].lo
            || first_right(keys, q[0].lo as int, q[0].hi as int, q[0].depth as int) == q[0].hi,
    ensures
        bits.len() <= fb.len(),
        fb.subrange(0, bits.len() as int) == bits,
        sibs.len() <= fs.len(),
        fs.subrange(0, sibs.len() as int) == sibs,
        fs.len() == falses(fb),
        ft.len() == terms.len(),
        forall|i: int| 0 <= i < keys.len() && find_group(q, i) is None ==> #[trigger] ft[i] == terms[i],
        forall|i: int| 0 <= i < ft.len() ==> !((#[trigger] ft[i]) is CollapsedOther),
        multi_run::<H>(bytes, fb.len() as int, cs, state_queue::<H, S>(store, keys, kwl, Seq::empty(), ft), 0, 0)
            == multi_run::<H>(
            bytes,
            fb.len() as int,
            cs,
            state_queue::<H, S>(store, keys, kwl, q, terms),
            fb.len() - bits.len(),
            fs.len() - sibs.len(),
        ),
    decreases queue_weight(q, DEPTH + 1), q.len(), 1nat,
{
    lemma_inv_first::<H, S>(store, keys, q, terms);
    let g = q[0];
    let lo = g.lo as int;
    let hi = g.hi as int;
    let d = g.depth as int;
    let r = q.drop_first();
    lemma_queue_weight_drop_first(q, DEPTH + 1);
    lemma_prove_run_step::<H, S>(store, keys, q, bits, sibs, terms);
    match spec_branching_data::<H, S>(store, keys[lo], d) {
        NodeBranchingData::Sibling(_) => {
            lemma_run_sibling::<H, S>(store, root, keys, kwl, q, bits, sibs, terms, fb, fs, ft, bytes, cs);
        },
        NodeBranchingData::Terminal(t) => {
            assert(hi - lo == 1);
            assert(!(t is CollapsedOther));
            let t2 = terms.update(lo, t);
            lemma_terminal_step::<H, S>(store, keys, kwl, q, terms, t);
            lemma_run_verifies::<H, S>(store, root, keys, kwl, r, bits, sibs, t2, fb, fs, ft, bytes, cs);
        },
        NodeBranchingData::EmptySubtree => {
            assert(false);
        },
    }
}

/// The generation step where the first group goes on one level down: the rest of the
/// generation goes on from the group one level down with the step's bit and sibling recorded,
/// and the queue weighs less.
proof fn lemma_sibling_step_run<H: SmtHasher, S: SmtStore>(
    store: S,
    keys: Seq<Hash256>,
    q: Seq<KeyGroup>,
    bits: Seq<bool>,
    sibs: Seq<Hash256>,
    terms: Seq<ProofTerminal>,
    fb: Seq<bool>,
    fs: Seq<Hash256>,
    ft: Seq<ProofTerminal>,
)
    requires
        sibs.len() == falses(bits),
        prove_run::<H, S>(store, keys, q, bits, sibs, terms) == Ok::<
            (Seq<bool>, Seq<Hash256>, Seq<ProofTerminal>),
            ProveFailure,
        >((fb, fs, ft)),
        q.len() > 0,
        q[0].lo < q[0].hi,
        q[0].depth < DEPTH,
        first_right(keys, q[0].lo as int, q[0].hi as int, q[0].depth as int) == q[0].lo
            || first_right(keys, q[0].lo as int, q[0].hi as int, q[0].depth as int) == q[0].hi,
        spec_branching_data::<H, S>(store, keys[q[0].lo as int], q[0].depth as int) is Sibling,
    ensures
        ({
            let sib = spec_branching_data::<H, S>(store, keys[q[0].lo as int], q[0].depth as int)->Sibling_0;
            let qn = q.drop_first().push(KeyGroup { lo: q[0].lo, hi: q[0].hi, depth: (q[0].depth + 1) as usize });
            let bits2 = bits.push(sib is None);
            let sibs2 = match sib {
                Some(h) => sibs.push(h),
                None => sibs,
            };
            &&& prove_run::<H, S>(store, keys, qn, bits2, sibs2, terms) == Ok::<
                (Seq<bool>, Seq<Hash256>, Seq<ProofTerminal>),
                ProveFailure,
            >((fb, fs, ft))
            &&& sibs2.len() == falses(bits2)
            &&& queue_weight(qn, DEPTH + 1) < queue_weight(q, DEPTH + 1)
        }),
{
    let g = q[0];
    let r = q.drop_first();
    let sib = spec_branching_data::<H, S>(store, keys[g.lo as int], g.depth as int)->Sibling_0;
    let g2 = KeyGroup { lo: g.lo, hi: g.hi, depth: (g.depth + 1) as usize };
    let qn = r.push(g2);
    let bits2 = bits.push(sib is None);
    lemma_queue_weight_drop_first(q, DEPTH + 1);
    lemma_prove_run_step::<H, S>(store, keys, q, bits, sibs, terms);
    lemma_step_weight(g.lo as int, g.hi as int, g.depth as int, DEPTH + 1);
    assert(qn.drop_last() =~= r);
    assert(bits2.drop_last() =~= bits);
}

/// What the generation recorded before and at a step that reads a sibling, seen from the
/// finished records: the records before the step are a prefix, and the step's bit and sibling
/// are where the verification, which reads the records backwards, meets them.
proof fn lemma_record_step(
    fb: Seq<bool>,
    fs: Seq<Hash256>,
    bits: Seq<bool>,
    sibs: Seq<Hash256>,
    sib: Option<Hash256>,
    bytes: Seq<u8>,
    cs: Seq<Hash256>,
)
    requires
        bits.len() + 1 <= fb.len(),
        fb.subrange(0, bits.len() + 1 as int) == bits.push(sib is None),
        (match sib {
            Some(h) => sibs.push(h),
            None => sibs,
        }).len() <= fs.len(),
        fs.subrange(
            0,
            (match sib {
                Some(h) => sibs.push(h),
                None => sibs,
            }).len() as int,
        ) == (match sib {
            Some(h) => sibs.push(h),
            None => sibs,
        }),
        forall|i: int| 0 <= i < fb.len() ==> #[trigger] bitmap_bit(bytes, i) == fb[fb.len() - 1 - i],
        cs.len() == fs.len(),
        forall|i: int| 0 <= i < cs.len() ==> #[trigger] cs[i] == fs[fs.len() - 1 - i],
    ensures
        fb.subrange(0, bits.len() as int) == bits,
        sibs.len() <= fs.len(),
        fs.subrange(0, sibs.len() as int) == sibs,
        bitmap_bit(bytes, fb.len() - (bits.len() + 1)) == (sib is None),
        sib matches Some(h) ==> 0 <= fs.len() - (sibs.len() + 1) < cs.len() && cs[fs.len() - (sibs.len() + 1)] == h,
{
    let b = bits.len() as int;
    let bits2 = bits.push(sib is None);
    assert(fb[b] == bits2[b]);
    assert(fb.subrange(0, b) =~= fb.subrange(0, b + 1).subrange(0, b));
    assert(bits2.subrange(0, b) =~= bits);
    let bn = fb.len() - (b + 1);
    assert(bitmap_bit(bytes, bn) == fb[fb.len() - 1 - bn]);
    match sib {
        Some(h) => {
            let sl = sibs.len() as int;
            let sibs2 = sibs.push(h);
            assert(fs[sl] == sibs2[sl]);
            assert(fs.subrange(0, sl) =~= fs.subrange(0, sl + 1).subrange(0, sl));
            assert(sibs2.subrange(0, sl) =~= sibs);
            assert(cs[fs.len() - (sl + 1)] == fs[fs.len() - 1 - (fs.len() - (sl + 1))]);
        },
        None => {},
    }
}

/// [`lemma_run_verifies`] for a first group above the leaf level whose keys all go the same
/// way, at a node that branches.
#[verifier::spinoff_prover]
proof fn lemma_run_sibling<H: SmtHasher, S: SmtStore>(
    store: S,
    root: Hash256,
    keys: Seq<Hash256>,
    kwl: Seq<(Hash256, Hash256)>,
    q: Seq<KeyGroup>,
    bits: Seq<bool>,
    sibs: Seq<Hash256>,
    terms: Seq<ProofTerminal>,
    fb: Seq<bool>,
    fs: Seq<Hash256>,
    ft: Seq<ProofTerminal>,
    bytes: Seq<u8>,
    cs: Seq<Hash256>,
)
    requires
        store_consistent::<H, S>(store, root),
        keys_in_tree::<H, S>(store, keys, kwl),
        bfs_inv::<H, S>(store, keys, q, terms),
        sibs.len() == falses(bits),
        prove_run::<H, S>(store, keys, q, bits, sibs, terms) == Ok::<
            (Seq<bool>, Seq<Hash256>, Seq<ProofTerminal>),
            ProveFailure,
        >((fb, fs, ft)),
        forall|i: int| 0 <= i < fb.len() ==> #[trigger] bitmap_bit(bytes, i) == fb[fb.len() - 1 - i],
        cs.len() == fs.len(),
        forall|i: int| 0 <= i < cs.len() ==> #[trigger] cs[i] == fs[fs.len() - 1 - i],
        q.len() > 0,
        q[0].depth < DEPTH,
        first_right(keys, q[0].lo as int, q[0].hi as int, q[0].depth as int) == q[0].lo
            || first_right(keys, q[0].lo as int, q[0].hi as int, q[0].depth as int) == q[0].hi,
        spec_branching_data::<H, S>(store, keys[q[0].lo as int], q[0].depth as int) is Sibling,
    ensures
        bits.len() <= fb.len(),
        fb.subrange(0, bits.len() as int) == bits,
        sibs.len() <= fs.len(),
        fs.subrange(0, sibs.len() as int) == sibs,
        fs.len() == falses(fb),
        ft.len() == terms.len(),
        forall|i: int| 0 <= i < keys.len() && find_group(q, i) is None ==> #[trigger] ft[i] == terms[i],
        forall|i: int| 0 <= i < ft.len() ==> !((#[trigger] ft[i]) is CollapsedOther),
        multi_run::<H>(bytes, fb.len() as int, cs, state_queue::<H, S>(store, keys, kwl, Seq::empty(), ft), 0, 0)
            == multi_run::<H>(
            bytes,
            fb.len() as int,
            cs,
            state_queue::<H, S>(store, keys, kwl, q, terms),
            fb.len() - bits.len(),
            fs.len() - sibs.len(),
        ),
    decreases queue_weight(q, DEPTH + 1), q.len(), 0nat,
{
    lemma_inv_first::<H, S>(store, keys, q, terms);
    let g = q[0];
    let lo = g.lo as int;
    let hi = g.hi as int;
    let d = g.depth as int;
    let r = q.drop_first();
    let sib = spec_branching_data::<H, S>(store, keys[lo], d)->Sibling_0;
    assert(spec_branching_data::<H, S>(store, keys[lo], d) == NodeBranchingData::Sibling(sib));
    let g2 = KeyGroup { lo: g.lo, hi: g.hi, depth: (g.depth + 1) as usize };
    let qn = r.push(g2);
    let bits2 = bits.push(sib is None);
    let sibs2 = match sib {
        Some(h) => sibs.push(h),
        None => sibs,
    };
    lemma_sibling_step_run::<H, S>(store, keys, q, bits, sibs, terms, fb, fs, ft);
    lemma_sibling_step_inv::<H, S>(store, keys, kwl, q, terms);
    lemma_run_verifies::<H, S>(store, root, keys, kwl, qn, bits2, sibs2, terms, fb, fs, ft, bytes, cs);
    lemma_record_step(fb, fs, bits, sibs, sib, bytes, cs);
    let bn = fb.len() - (bits.len() + 1);
    lemma_sibling_step_queue::<H, S>(
        store,
        root,
        keys,
        kwl,
        q,
        terms,
        bytes,
        fb.len() as int,
        cs,
        bn,
        fs.len() - sibs2.len(),
    );
    let sl = fs.len() - sibs2.len();
    assert(bn + 1 == fb.len() - bits.len());
    assert((if bitmap_bit(bytes, bn) { sl } else { sl + 1 }) == fs.len() - sibs.len());
    let vn = state_queue::<H, S>(store, keys, kwl, qn, terms);
    let vq = state_queue::<H, S>(store, keys, kwl, q, terms);
    assert(multi_run::<H>(bytes, fb.len() as int, cs, vn, bn, sl) == multi_run::<H>(
        bytes,
        fb.len() as int,
        cs,
        vq,
        fb.len() - bits.len(),
        fs.len() - sibs.len(),
    ));
    assert forall|i: int| 0 <= i < keys.len() && find_group(q, i) is None implies #[trigger] ft[i] == terms[i] by {
        if in_group(g, i) {
        } else {
            assert(find_group(qn, i) == find_group(q, i));
        }
    }
}

proof fn lemma_start_queue_canon<H: SmtHasher>(terms: Seq<ProofTerminal>, kwl: Seq<(Hash256, Hash256)>, k: int)
    ensures
        start_queue::<H>(terms, kwl, k) == canon(|i: int| Some(start_item::<H>(terms, kwl, i)), k),
    decreases k,
{
    if k > 0 {
        lemma_start_queue_canon::<H>(terms, kwl, k - 1);
    }
}

/// The generation starts from one group holding every key at the root, with no terminal yet.
proof fn lemma_initial_state<H: SmtHasher, S: SmtStore>(
    store: S,
    keys: Seq<Hash256>,
)
    requires
        0 < keys.len() <= usize::MAX,
    ensures
        bfs_inv::<H, S>(
            store,
            keys,
            seq![KeyGroup { lo: 0, hi: keys.len() as usize, depth: 0 }],
            Seq::new(keys.len(), |i: int| ProofTerminal::Full),
        ),
        forall|i: int| 0 <= i < keys.len() ==> #[trigger] find_group(seq![KeyGroup { lo: 0, hi: keys.len() as usize, depth: 0 }], i)
            == Some(KeyGroup { lo: 0, hi: keys.len() as usize, depth: 0 }),
{
    reveal(bfs_inv);
    let n = keys.len() as int;
    let g0 = KeyGroup { lo: 0, hi: n as usize, depth: 0 };
    let q0 = seq![g0];
    assert forall|i: int| 0 <= i < n implies #[trigger] find_group(q0, i) == Some(g0) by {
        assert(in_group(q0[0], i));
    }
    assert forall|j: int| 0 <= j < q0.len() implies group_prefix(keys, (#[trigger] q0[j]).lo as int, q0[j].hi as int, q0[j].depth as int) by {
        assert forall|i1: int, i2: int| 0 <= i1 < n && 0 <= i2 < n implies prefix_eq(#[trigger] keys[i1], #[trigger] keys[i2], 0) by {
        }
    }
    assert forall|j: int, i: int| 0 <= j < q0.len() && #[trigger] in_group(q0[j], i) implies q0[j].depth <= walk_stop::<H, S>(store, keys[i], 0) by {
        lemma_walk_stop_bounds::<H, S>(store, keys[i], 0);
    }
}

/// The verification queue of the first generation state holds the root's item alone.
#[verifier::spinoff_prover]
proof fn lemma_initial_queue<H: SmtHasher, S: SmtStore>(
    store: S,
    keys: Seq<Hash256>,
    kwl: Seq<(Hash256, Hash256)>,
)
    requires
        0 < keys.len() <= usize::MAX,
    ensures
        state_queue::<H, S>(
            store,
            keys,
            kwl,
            seq![KeyGroup { lo: 0, hi: keys.len() as usize, depth: 0 }],
            Seq::new(keys.len(), |i: int| ProofTerminal::Full),
        ) == seq![group_item::<H, S>(store, keys, KeyGroup { lo: 0, hi: keys.len() as usize, depth: 0 })],
{
    let n = keys.len() as int;
    let g0 = KeyGroup { lo: 0, hi: n as usize, depth: 0 };
    let q0 = seq![g0];
    let terms0 = Seq::new(n as nat, |i: int| ProofTerminal::Full);
    lemma_initial_state::<H, S>(store, keys);
    reveal(bfs_inv);
    let gi0 = group_item::<H, S>(store, keys, g0);
    lemma_state_queue::<H, S>(store, keys, kwl, q0, terms0);
    let v0 = state_queue::<H, S>(store, keys, kwl, q0, terms0);
    assert(slot::<H, S>(store, keys, kwl, q0, terms0, 0) == Some(gi0));
    assert forall|y: QueueItem| v0.contains(y) <==> seq![gi0].contains(y) by {
        if v0.contains(y) {
            let i = choose|i: int| 0 <= i < keys.len() && #[trigger] slot::<H, S>(store, keys, kwl, q0, terms0, i) == Some(y);
            assert(find_group(q0, i) == Some(g0));
            assert(i == 0);
            assert(y == gi0);
            assert(seq![gi0][0] == y);
        }
        if seq![gi0].contains(y) {
            assert(seq![gi0][0] == y);
        }
    }
    lemma_queue_unique(v0, seq![gi0]);
}

/// The verification from the root's item alone, with nothing left to consume, comes to the
/// tree's root.
proof fn lemma_root_run<H: SmtHasher, S: SmtStore>(
    store: S,
    root: Hash256,
    keys: Seq<Hash256>,
    bytes: Seq<u8>,
    total: int,
    cs: Seq<Hash256>,
)
    requires
        store_consistent::<H, S>(store, root),
        0 < keys.len(),
    ensures
        multi_run::<H>(
            bytes,
            total,
            cs,
            seq![group_item::<H, S>(store, keys, KeyGroup { lo: 0, hi: keys.len() as usize, depth: 0 })],
            total,
            cs.len() as int,
        ) == Ok::<Hash256, crate::proof_multi::SmtMultiProofError>(root),
{
    lemma_root_key(keys[0]);
    let gi0 = group_item::<H, S>(store, keys, KeyGroup { lo: 0, hi: keys.len() as usize, depth: 0 });
    assert(gi0.value == root);
    assert(seq![gi0].last() == gi0);
    assert(seq![gi0].drop_last().len() == 0);
}

/// The verification queue of the last generation state is the starting queue of the
/// verification: every key's starting item.
proof fn lemma_final_queue<H: SmtHasher, S: SmtStore>(
    store: S,
    keys: Seq<Hash256>,
    kwl: Seq<(Hash256, Hash256)>,
    ft: Seq<ProofTerminal>,
)
    ensures
        state_queue::<H, S>(store, keys, kwl, Seq::empty(), ft) == start_queue::<H>(ft, kwl, keys.len() as int),
{
    let n = keys.len() as int;
    let f_end = |i: int| slot::<H, S>(store, keys, kwl, Seq::empty(), ft, i);
    let f_start = |i: int| Some(start_item::<H>(ft, kwl, i));
    assert forall|i: int| 0 <= i < n implies #[trigger] f_end(i) == f_start(i) by {}
    lemma_canon_ext(f_end, f_start, n);
    lemma_start_queue_canon::<H>(ft, kwl, n);
}

/// A multi-key proof generated for sorted keys that are all in the tree, from a store
/// consistent with the tree's root, verifies against that root with the keys' leaf hashes:
/// the root it implies is the tree's root.
#[verifier::spinoff_prover]
pub proof fn law_multi_proof_verifies<H: SmtHasher, S: SmtStore>(
    tree: SparseMerkleTree<H, S>,
    keys_with_leaf_hashes: Seq<(Hash256, Hash256)>,
    proof: OwnedSmtMultiProof,
)
    requires
        store_consistent::<H, S>(tree.store, tree.root),
        0 < keys_with_leaf_hashes.len() <= usize::MAX,
        forall|i: int|
            0 <= i < keys_with_leaf_hashes.len() ==> key_status::<H, S>(tree.store, #[trigger] keys_with_leaf_hashes[i].0)
                == Some(keys_with_leaf_hashes[i].1),
        prove_multiple_outcome::<H, S>(tree.store, keys_of(keys_with_leaf_hashes)) matches Ok(o) && proof_records(
            proof,
            o.0,
            o.1,
            o.2,
        ),
    ensures
        multi_proof_root::<H>(
            proof.bitmap@,
            proof.total_sibling_count as int,
            proof.siblings@,
            proof.terminals@,
            keys_with_leaf_hashes,
        ) == Ok::<Hash256, crate::proof_multi::SmtMultiProofError>(tree.root),
{
    let store = tree.store;
    let root = tree.root;
    let kwl = keys_with_leaf_hashes;
    let keys = keys_of(kwl);
    let n = kwl.len() as int;
    let o = prove_multiple_outcome::<H, S>(store, keys)->Ok_0;
    let fb = o.0;
    let fs = o.1;
    let ft = o.2;
    let bytes = proof.bitmap@;
    assert(keys_sorted(keys));
    assert forall|i: int| 0 <= i < keys.len() implies #[trigger] key_status::<H, S>(store, keys[i]) == Some(kwl[i].1) by {
        assert(keys[i] == kwl[i].0);
    }
    assert(keys_in_tree::<H, S>(store, keys, kwl));
    let q0 = seq![KeyGroup { lo: 0, hi: n as usize, depth: 0 }];
    let terms0 = Seq::new(n as nat, |i: int| ProofTerminal::Full);
    lemma_initial_state::<H, S>(store, keys);
    assert(falses(Seq::<bool>::empty()) == 0);
    let cs = proof.siblings@;
    assert forall|i: int| 0 <= i < fb.len() implies #[trigger] bitmap_bit(bytes, i) == fb[fb.len() - 1 - i] by {}
    assert forall|i: int| 0 <= i < cs.len() implies #[trigger] cs[i] == fs[fs.len() - 1 - i] by {}
    lemma_run_verifies::<H, S>(store, root, keys, kwl, q0, Seq::empty(), Seq::empty(), terms0, fb, fs, ft, bytes, cs);
    lemma_final_queue::<H, S>(store, keys, kwl, ft);
    lemma_initial_queue::<H, S>(store, keys, kwl);
    lemma_root_run::<H, S>(store, root, keys, bytes, fb.len() as int, cs);
    let canon = Seq::new(fb.len(), |i: int| fb[fb.len() - 1 - i]);
    lemma_nonempty_count_is_falses(bytes, canon, fb.len() as int);
    assert(canon.subrange(0, fb.len() as int) =~= canon);
    lemma_falses_reverse(fb);
}

/// Two different keys of the tree whose walks both reach depth `d` on a shared path do not
/// stop there: the node there branches.
proof fn lemma_shared_node_branches<H: SmtHasher, S: SmtStore>(
    store: S,
    keys: Seq<Hash256>,
    kwl: Seq<(Hash256, Hash256)>,
    a: int,
    b: int,
    d: int,
)
    requires
        keys_in_tree::<H, S>(store, keys, kwl),
        0 <= a < keys.len(),
        0 <= b < keys.len(),
        keys[a] != keys[b],
        0 <= d < DEPTH,
        prefix_eq(keys[a], keys[b], d),
        d <= walk_stop::<H, S>(store, keys[a], 0),
        d <= walk_stop::<H, S>(store, keys[b], 0),
    ensures
        spec_branching_data::<H, S>(store, keys[a], d) is Sibling,
{
    assert(key_status::<H, S>(store, keys[a]) == Some(kwl[a].1));
    assert(key_status::<H, S>(store, keys[b]) == Some(kwl[b].1));
    lemma_split_branches::<H, S>(store, keys[a], keys[b], kwl[a].1, kwl[b].1, d);
}

/// From any state on the way, the generation of a proof for distinct sorted keys that are all
/// in the tree ends without failure.
#[verifier::spinoff_prover]
#[verifier::rlimit(40)]
proof fn lemma_run_succeeds<H: SmtHasher, S: SmtStore>(
    store: S,
    keys: Seq<Hash256>,
    kwl: Seq<(Hash256, Hash256)>,
    q: Seq<KeyGroup>,
    bits: Seq<bool>,
    sibs: Seq<Hash256>,
    terms: Seq<ProofTerminal>,
)
    requires
        keys_in_tree::<H, S>(store, keys, kwl),
        forall|i: int, j: int| 0 <= i < j < keys.len() ==> #[trigger] keys[i] != #[trigger] keys[j],
        bfs_inv::<H, S>(store, keys, q, terms),
    ensures
        prove_run::<H, S>(store, keys, q, bits, sibs, terms) is Ok,
    decreases queue_weight(q, DEPTH + 1), q.len(),
{
    lemma_inv_first::<H, S>(store, keys, q, terms);
    if q.len() == 0 {
        lemma_prove_run_empty::<H, S>(store, keys, q, bits, sibs, terms);
    } else {
        let g = q[0];
        let lo = g.lo as int;
        let hi = g.hi as int;
        let d = g.depth as int;
        let r = q.drop_first();
        lemma_queue_weight_drop_first(q, DEPTH + 1);
        assert(in_group(g, lo)) by { reveal(bfs_inv); }
        assert(d <= walk_stop::<H, S>(store, keys[lo], 0)) by {
            reveal(bfs_inv);
            assert(in_group(q[0], lo));
        }
        if d >= DEPTH {
            if hi - lo != 1 {
                assert(prefix_eq(keys[lo], keys[lo + 1], d));
                lemma_prefix_full(keys[lo], keys[lo + 1]);
                assert(false);
            }
            lemma_prove_run_leaf_level::<H, S>(store, keys, q, bits, sibs, terms);
            lemma_leaf_step::<H, S>(store, keys, kwl, q, terms);
            lemma_run_succeeds::<H, S>(store, keys, kwl, r, bits, sibs, terms);
        } else {
            lemma_group_split(keys, lo, hi, d);
            let sp = first_right(keys, lo, hi, d);
            if sp == lo || sp == hi {
                lemma_prove_run_step::<H, S>(store, keys, q, bits, sibs, terms);
                lemma_walk_from::<H, S>(store, keys[lo], d);
                match spec_branching_data::<H, S>(store, keys[lo], d) {
                    NodeBranchingData::Sibling(sib) => {
                        let g2 = KeyGroup { lo: g.lo, hi: g.hi, depth: (g.depth + 1) as usize };
                        let qn = r.push(g2);
                        let bits2 = bits.push(sib is None);
                        let sibs2 = match sib {
                            Some(h) => sibs.push(h),
                            None => sibs,
                        };
                        lemma_step_weight(lo, hi, d, DEPTH + 1);
                        assert(qn.drop_last() =~= r);
                        lemma_sibling_step_inv::<H, S>(store, keys, kwl, q, terms);
                        lemma_run_succeeds::<H, S>(store, keys, kwl, qn, bits2, sibs2, terms);
                    },
                    NodeBranchingData::Terminal(t) => {
                        if hi - lo != 1 {
                            assert(in_group(g, lo + 1));
                            assert(prefix_eq(keys[lo], keys[lo + 1], d)) by { reveal(bfs_inv); }
                            assert(d <= walk_stop::<H, S>(store, keys[lo + 1], 0)) by {
                                reveal(bfs_inv);
                                assert(in_group(q[0], lo + 1));
                            }
                            assert(keys[lo] != keys[lo + 1]);
                            lemma_shared_node_branches::<H, S>(store, keys, kwl, lo, lo + 1, d);
                            assert(false);
                        }
                        assert(key_status::<H, S>(store, keys[lo]) == Some(kwl[lo].1));
                        lemma_masked_key_index(keys[lo], d);
                        if t is CollapsedOther {
                            assert(false);
                        }
                        lemma_terminal_step::<H, S>(store, keys, kwl, q, terms, t);
                        lemma_run_succeeds::<H, S>(store, keys, kwl, r, bits, sibs, terms.update(lo, t));
                    },
                    NodeBranchingData::EmptySubtree => {
                        assert(key_status::<H, S>(store, keys[lo]) == Some(kwl[lo].1));
                        assert(false);
                    },
                }
            } else {
                let gl = KeyGroup { lo: g.lo, hi: sp as usize, depth: (g.depth + 1) as usize };
                let gr = KeyGroup { lo: sp as usize, hi: g.hi, depth: (g.depth + 1) as usize };
                let qn = r.push(gr).push(gl);
                lemma_prove_run_split::<H, S>(store, keys, q, bits, sibs, terms, sp);
                lemma_split_weight(lo, sp, hi, d, DEPTH + 1);
                assert(r.push(gr).drop_last() =~= r);
                assert(qn.drop_last() =~= r.push(gr));
                assert(group_weight(gl, DEPTH + 1) == (sp - lo) * (DEPTH + 1 - (d + 1)));
                assert(group_weight(gr, DEPTH + 1) == (hi - sp) * (DEPTH + 1 - (d + 1)));
                assert(group_weight(g, DEPTH + 1) == (hi - lo) * (DEPTH + 1 - d));
                assert(queue_weight(r.push(gr), DEPTH + 1) == queue_weight(r, DEPTH + 1) + group_weight(gr, DEPTH + 1));
                assert(queue_weight(qn, DEPTH + 1) == queue_weight(r.push(gr), DEPTH + 1) + group_weight(gl, DEPTH + 1));
                lemma_split_step_inv::<H, S>(store, keys, kwl, q, terms);
                lemma_run_succeeds::<H, S>(store, keys, kwl, qn, bits, sibs, terms);
            }
        }
    }
}

/// Generating a multi-key proof succeeds for distinct keys in ascending order that are all
/// in the tree: no key shares a terminal with another, meets another key's collapsed node or
/// an empty subtree, and no two keys reach the leaf level together.
pub proof fn law_prove_multiple_succeeds<H: SmtHasher, S: SmtStore>(
    tree: SparseMerkleTree<H, S>,
    keys: Seq<Hash256>,
)
    requires
        0 < keys.len() <= usize::MAX,
        keys_sorted(keys),
        forall|i: int, j: int| 0 <= i < j < keys.len() ==> #[trigger] keys[i] != #[trigger] keys[j],
        forall|i: int| 0 <= i < keys.len() ==> (#[trigger] key_status::<H, S>(tree.store, keys[i])) is Some,
    ensures
        prove_multiple_outcome::<H, S>(tree.store, keys) is Ok,
{
    let store = tree.store;
    let kwl = Seq::new(keys.len(), |i: int| (keys[i], key_status::<H, S>(store, keys[i])->0));
    assert(keys_of(kwl) =~= keys);
    assert(keys_in_tree::<H, S>(store, keys, kwl));
    lemma_initial_state::<H, S>(store, keys);
    lemma_run_succeeds::<H, S>(
        store,
        keys,
        kwl,
        seq![KeyGroup { lo: 0, hi: keys.len() as usize, depth: 0 }],
        Seq::empty(),
        Seq::empty(),
        Seq::new(keys.len(), |i: int| ProofTerminal::Full),
    );
}

/// The walk of `key` up to depth `d`, as the generation of a proof for `key` alone records it:
/// one bit per depth, the non-empty siblings, and no terminal yet.
spec fn one_key_run<H: SmtHasher, S: SmtStore>(store: S, key: Hash256, d: int) -> Result<
    (Seq<bool>, Seq<Hash256>, Seq<ProofTerminal>),
    ProveFailure,
> {
    prove_run::<H, S>(
        store,
        seq![key],
        seq![KeyGroup { lo: 0, hi: 1, depth: d as usize }],
        Seq::new(d as nat, |j: int| walk_bit::<H, S>(store, key, j)),
        walk_siblings::<H, S>(store, key, d),
        seq![ProofTerminal::Full],
    )
}

/// From any depth its walk reaches, the generation of a proof for one key, when it succeeds,
/// records the single-key walk: a bit per depth above the stop, the non-empty siblings, and
/// the terminal where the walk stopped.
proof fn lemma_one_key_run<H: SmtHasher, S: SmtStore>(store: S, key: Hash256, d: int)
    requires
        0 <= d <= DEPTH,
        d <= walk_stop::<H, S>(store, key, 0),
        one_key_run::<H, S>(store, key, d) is Ok,
    ensures
        one_key_run::<H, S>(store, key, d) == Ok::<(Seq<bool>, Seq<Hash256>, Seq<ProofTerminal>), ProveFailure>(
            (
                Seq::new(walk_stop::<H, S>(store, key, 0) as nat, |j: int| walk_bit::<H, S>(store, key, j)),
                walk_siblings::<H, S>(store, key, walk_stop::<H, S>(store, key, 0)),
                seq![walk_terminal::<H, S>(store, key)],
            ),
        ),
        walk_stop::<H, S>(store, key, 0) < DEPTH ==> key_status::<H, S>(store, key) is Some,
    decreases DEPTH - d,
{
    let keys = seq![key];
    let g = KeyGroup { lo: 0, hi: 1, depth: d as usize };
    let q = seq![g];
    let bits = Seq::new(d as nat, |j: int| walk_bit::<H, S>(store, key, j));
    let sibs = walk_siblings::<H, S>(store, key, d);
    let terms = seq![ProofTerminal::Full];
    let r = q.drop_first();
    assert(r =~= Seq::<KeyGroup>::empty());
    lemma_walk_stop_bounds::<H, S>(store, key, 0);
    lemma_walk_from::<H, S>(store, key, d);
    if d >= DEPTH {
        lemma_prove_run_leaf_level::<H, S>(store, keys, q, bits, sibs, terms);
        lemma_prove_run_empty::<H, S>(store, keys, r, bits, sibs, terms);
        assert(walk_stop::<H, S>(store, key, 0) == DEPTH);
    } else {
        lemma_first_right_bounds(keys, 0, 1, d);
        lemma_prove_run_step::<H, S>(store, keys, q, bits, sibs, terms);
        assert(keys[0] == key);
        match spec_branching_data::<H, S>(store, key, d) {
            NodeBranchingData::Sibling(sib) => {
                let g2 = KeyGroup { lo: 0, hi: 1, depth: (d + 1) as usize };
                assert(r.push(g2) =~= seq![g2]);
                let bits2 = Seq::new((d + 1) as nat, |j: int| walk_bit::<H, S>(store, key, j));
                assert(bits.push(sib is None) =~= bits2);
                assert(walk_siblings::<H, S>(store, key, d + 1) == match sib {
                    Some(h) => sibs.push(h),
                    None => sibs,
                });
                lemma_one_key_run::<H, S>(store, key, d + 1);
            },
            NodeBranchingData::Terminal(t) => {
                lemma_prove_run_empty::<H, S>(store, keys, r, bits, sibs, terms.update(0, t));
                assert(terms.update(0, t) =~= seq![t]);
                assert(walk_stop::<H, S>(store, key, 0) == d);
            },
            NodeBranchingData::EmptySubtree => {},
        }
    }
}

/// The proof generated for one key alone is the single-key proof of that key, read in the
/// other order: it has one sibling position per depth above the depth where the walk of the
/// key stops, the bit of position `i` is the single proof's bit for depth `n - 1 - i`, the
/// non-empty siblings are the single proof's in reverse, and its one terminal is the single
/// proof's terminal.
pub proof fn law_one_key_multi_proof_is_single_proof<H: SmtHasher, S: SmtStore>(
    tree: SparseMerkleTree<H, S>,
    key: Hash256,
    single: OwnedSmtProof,
    multi: OwnedSmtMultiProof,
)
    requires
        proves_key::<H, S>(tree.store, key, single),
        prove_multiple_outcome::<H, S>(tree.store, seq![key]) matches Ok(o) && proof_records(multi, o.0, o.1, o.2),
    ensures
        multi.total_sibling_count == walk_stop::<H, S>(tree.store, key, 0),
        multi.terminals@ == seq![single.terminal],
        multi.siblings@.len() == single.siblings@.len(),
        forall|i: int|
            0 <= i < multi.total_sibling_count ==> #[trigger] bitmap_bit(multi.bitmap@, i) == bitmap_bit(
                single.bitmap@,
                multi.total_sibling_count - 1 - i,
            ),
        forall|i: int|
            0 <= i < multi.siblings@.len() ==> #[trigger] multi.siblings@[i] == single.siblings@[single.siblings@.len()
                - 1 - i],
{
    let store = tree.store;
    let n = walk_stop::<H, S>(store, key, 0);
    lemma_walk_stop_bounds::<H, S>(store, key, 0);
    assert(keys_sorted(seq![key]));
    assert(Seq::new(0nat, |j: int| walk_bit::<H, S>(store, key, j)) =~= Seq::<bool>::empty());
    assert(Seq::new(1nat, |i: int| ProofTerminal::Full) =~= seq![ProofTerminal::Full]);
    assert(seq![KeyGroup { lo: 0, hi: seq![key].len() as usize, depth: 0 }] == seq![KeyGroup { lo: 0, hi: 1, depth: 0usize }]);
    assert(prove_multiple_outcome::<H, S>(store, seq![key]) == one_key_run::<H, S>(store, key, 0));
    lemma_one_key_run::<H, S>(store, key, 0);
    let o = prove_multiple_outcome::<H, S>(store, seq![key])->Ok_0;
    assert forall|i: int| 0 <= i < multi.total_sibling_count implies #[trigger] bitmap_bit(multi.bitmap@, i) == bitmap_bit(
        single.bitmap@,
        multi.total_sibling_count - 1 - i,
    ) by {
        assert(bitmap_bit(multi.bitmap@, i) == o.0[o.0.len() - 1 - i]);
        assert(0 <= n - 1 - i < DEPTH);
    }
}

/// The round trip of multi-key proofs: for distinct sorted keys that are all in a tree whose
/// store is consistent with its root, generating a proof succeeds, and the proof that records
/// the generation verifies with the keys' leaf hashes against the tree's root.
pub proof fn law_multi_proof_round_trip<H: SmtHasher, S: SmtStore>(
    tree: SparseMerkleTree<H, S>,
    keys_with_leaf_hashes: Seq<(Hash256, Hash256)>,
    proof: OwnedSmtMultiProof,
)
    requires
        store_consistent::<H, S>(tree.store, tree.root),
        0 < keys_with_leaf_hashes.len() <= usize::MAX,
        keys_sorted(keys_of(keys_with_leaf_hashes)),
        forall|i: int, j: int|
            0 <= i < j < keys_with_leaf_hashes.len() ==> #[trigger] keys_with_leaf_hashes[i].0
                != #[trigger] keys_with_leaf_hashes[j].0,
        forall|i: int|
            0 <= i < keys_with_leaf_hashes.len() ==> key_status::<H, S>(tree.store, #[trigger] keys_with_leaf_hashes[i].0)
                == Some(keys_with_leaf_hashes[i].1),
    ensures
        prove_multiple_outcome::<H, S>(tree.store, keys_of(keys_with_leaf_hashes)) is Ok,
        ({
            let o = prove_multiple_outcome::<H, S>(tree.store, keys_of(keys_with_leaf_hashes))->Ok_0;
            proof_records(proof, o.0, o.1, o.2) ==> multi_proof_root::<H>(
                proof.bitmap@,
                proof.total_sibling_count as int,
                proof.siblings@,
                proof.terminals@,
                keys_with_leaf_hashes,
            ) == Ok::<Hash256, crate::proof_multi::SmtMultiProofError>(tree.root)
        }),
{
    let kwl = keys_with_leaf_hashes;
    let keys = keys_of(kwl);
    assert forall|i: int, j: int| 0 <= i < j < keys.len() implies #[trigger] keys[i] != #[trigger] keys[j] by {
        assert(keys[i] == kwl[i].0 && keys[j] == kwl[j].0);
    }
    assert forall|i: int| 0 <= i < keys.len() implies (#[trigger] key_status::<H, S>(tree.store, keys[i])) is Some by {
        assert(keys[i] == kwl[i].0);
    }
    law_prove_multiple_succeeds::<H, S>(tree, keys);
    let o = prove_multiple_outcome::<H, S>(tree.store, keys)->Ok_0;
    if proof_records(proof, o.0, o.1, o.2) {
        law_multi_proof_verifies::<H, S>(tree, kwl, proof);
    }
}

/// A key that is not in the tree, and whose walk stops above the leaf level, gets no
/// multi-key proof of its own: generating one fails.
pub proof fn law_absent_key_alone_gets_no_multi_proof<H: SmtHasher, S: SmtStore>(
    tree: SparseMerkleTree<H, S>,
    key: Hash256,
)
    requires
        key_status::<H, S>(tree.store, key) is None,
        walk_stop::<H, S>(tree.store, key, 0) < DEPTH,
    ensures
        prove_multiple_outcome::<H, S>(tree.store, seq![key]) is Err,
{
    let store = tree.store;
    assert(keys_sorted(seq![key]));
    assert(Seq::new(0nat, |j: int| walk_bit::<H, S>(store, key, j)) =~= Seq::<bool>::empty());
    assert(Seq::new(1nat, |i: int| ProofTerminal::Full) =~= seq![ProofTerminal::Full]);
    assert(seq![KeyGroup { lo: 0, hi: seq![key].len() as usize, depth: 0 }] == seq![KeyGroup { lo: 0, hi: 1, depth: 0usize }]);
    assert(prove_multiple_outcome::<H, S>(store, seq![key]) == one_key_run::<H, S>(store, key, 0));
    lemma_walk_stop_bounds::<H, S>(store, key, 0);
    if prove_multiple_outcome::<H, S>(store, seq![key]) is Ok {
        lemma_one_key_run::<H, S>(store, key, 0);
    }
}

} // verus!
