//! Nodes of the sparse Merkle tree, their keys, and the stores they are read from.

use vstd::prelude::*;
use crate::hash::{Hash256, DEPTH, hash_eq};

verus! {

/// A collapsed single-leaf subtree: the key of its one leaf and that leaf's hash.
#[derive(Clone, Copy, Debug, PartialEq, Eq)]
pub struct CollapsedLeaf {
    pub lane_key: Hash256,
    pub leaf_hash: Hash256,
}

/// A stored node of the tree.
#[derive(Clone, Copy, Debug, PartialEq, Eq)]
pub enum Node {
    /// A branch node with at least two leaves below it, stored with its own hash.
    Internal(Hash256),
    /// A subtree with exactly one leaf, stored as that leaf.
    Collapsed(CollapsedLeaf),
}

/// The key of a branch node: its depth (0 is the root) and the key of any leaf below it with
/// every bit from `depth` on cleared.
#[derive(Clone, Copy, Debug, PartialEq, Eq)]
pub struct BranchKey {
    pub depth: u8,
    pub node_key: Hash256,
}

/// Byte `i` of a key with every bit from `depth` on cleared.
pub open spec fn mask_byte(b: u8, i: int, depth: int) -> u8 {
    if 8 * i + 8 <= depth {
        b
    } else if 8 * i >= depth {
        0u8
    } else {
        b & (0xFFu8 << ((8 - (depth - 8 * i)) as u8))
    }
}

/// `key` with every bit from `depth` on cleared.
pub open spec fn masked_key(key: Hash256, depth: int) -> Hash256 {
    Hash256(
        [
        mask_byte(key.0[0], 0, depth),
        mask_byte(key.0[1], 1, depth),
        mask_byte(key.0[2], 2, depth),
        mask_byte(key.0[3], 3, depth),
        mask_byte(key.0[4], 4, depth),
        mask_byte(key.0[5], 5, depth),
        mask_byte(key.0[6], 6, depth),
        mask_byte(key.0[7], 7, depth),
        mask_byte(key.0[8], 8, depth),
        mask_byte(key.0[9], 9, depth),
        mask_byte(key.0[10], 10, depth),
        mask_byte(key.0[11], 11, depth),
        mask_byte(key.0[12], 12, depth),
        mask_byte(key.0[13], 13, depth),
        mask_byte(key.0[14], 14, depth),
        mask_byte(key.0[15], 15, depth),
        mask_byte(key.0[16], 16, depth),
        mask_byte(key.0[17], 17, depth),
        mask_byte(key.0[18], 18, depth),
        mask_byte(key.0[19], 19, depth),
        mask_byte(key.0[20], 20, depth),
        mask_byte(key.0[21], 21, depth),
        mask_byte(key.0[22], 22, depth),
        mask_byte(key.0[23], 23, depth),
        mask_byte(key.0[24], 24, depth),
        mask_byte(key.0[25], 25, depth),
        mask_byte(key.0[26], 26, depth),
        mask_byte(key.0[27], 27, depth),
        mask_byte(key.0[28], 28, depth),
        mask_byte(key.0[29], 29, depth),
        mask_byte(key.0[30], 30, depth),
        mask_byte(key.0[31], 31, depth),
        ],
    )
}


impl BranchKey {
    /// The key of the branch node at `depth` on the path of `key`.
    pub fn new(depth: u8, key: &Hash256) -> (bk: BranchKey)
        ensures
            bk.depth == depth,
            bk.node_key == masked_key(*key, depth as int),
    {
        let mut bytes = key.0;
        let d = depth as usize;
        let mut i: usize = 0;
        while i < 32
            invariant
                0 <= i <= 32,
                d == depth,
                forall|j: int| 0 <= j < i ==> bytes[j] == mask_byte(key.0[j], j, d as int),
                forall|j: int| i <= j < 32 ==> bytes[j] == key.0[j],
            decreases 32 - i,
        {
            if 8 * i + 8 <= d {
            } else if 8 * i >= d {
                bytes[i] = 0;
            } else {
                let shift = (8 - (d - 8 * i)) as u8;
                bytes[i] = bytes[i] & (0xFFu8 << shift);
            }
            i = i + 1;
        }
        let r = BranchKey { depth, node_key: Hash256(bytes) };
        assert(r.node_key.0 =~= masked_key(*key, depth as int).0);
        r
    }
}

/// Whether two branch keys are equal.
pub fn branch_key_eq(a: &BranchKey, b: &BranchKey) -> (r: bool)
    ensures
        r == (*a == *b),
{
    a.depth == b.depth && hash_eq(&a.node_key, &b.node_key)
}

/// `key` with bit `d` set.
pub open spec fn with_bit_set(key: Hash256, d: int) -> Hash256 {
    Hash256(vstd::array::spec_array_update(key.0, d / 8, key.0[d / 8] | (0x80u8 >> ((d % 8) as u8))))
}

/// `key` with bit `d` flipped.
pub open spec fn with_bit_flipped(key: Hash256, d: int) -> Hash256 {
    Hash256(vstd::array::spec_array_update(key.0, d / 8, key.0[d / 8] ^ (0x80u8 >> ((d % 8) as u8))))
}

/// The key of a child of the branch node `parent`: the right child when `right` holds.
pub open spec fn spec_child_branch_key(parent: BranchKey, right: bool) -> BranchKey {
    BranchKey {
        depth: (parent.depth + 1) as u8,
        node_key: if right {
            with_bit_set(parent.node_key, parent.depth as int)
        } else {
            parent.node_key
        },
    }
}

/// The key of a child of the branch node `parent` (see [`spec_child_branch_key`]).
pub fn child_branch_key(parent: &BranchKey, right: bool) -> (bk: BranchKey)
    requires
        parent.depth < DEPTH - 1,
    ensures
        bk == spec_child_branch_key(*parent, right),
{
    let d = parent.depth as usize;
    let mut bytes = parent.node_key.0;
    if right {
        bytes[d / 8] = bytes[d / 8] | (0x80u8 >> ((d % 8) as u8));
    }
    let r = BranchKey { depth: parent.depth + 1, node_key: Hash256(bytes) };
    proof {
        if right {
            assert(r.node_key.0 =~= with_bit_set(parent.node_key, d as int).0);
        }
    }
    r
}

/// `key` with bit `d` flipped (see [`with_bit_flipped`]).
pub fn flip_bit(key: &Hash256, d: usize) -> (r: Hash256)
    requires
        d < DEPTH,
    ensures
        r == with_bit_flipped(*key, d as int),
{
    let mut bytes = key.0;
    bytes[d / 8] = bytes[d / 8] ^ (0x80u8 >> ((d % 8) as u8));
    let r = Hash256(bytes);
    assert(r.0 =~= with_bit_flipped(*key, d as int).0);
    r
}

/// A read-only source of the nodes and leaves of a sparse Merkle tree, which users of the
/// tree implement (in memory, on disk, ...). A successful read gives what the store holds.
pub trait SmtStore {
    /// What a failed read reports.
    type Error;

    /// The node the store holds under `key`, if any.
    spec fn spec_node(&self, key: BranchKey) -> Option<Node>;

    /// The leaf hash the store holds under `key`, if any.
    spec fn spec_leaf(&self, key: Hash256) -> Option<Hash256>;

    /// Reads the node under `key`.
    fn get_node(&self, key: &BranchKey) -> (r: Result<Option<Node>, Self::Error>)
        ensures
            r matches Ok(n) ==> n == self.spec_node(*key),
    ;

    /// Reads the leaf hash under `key`.
    fn get_leaf(&self, key: &Hash256) -> (r: Result<Option<Hash256>, Self::Error>)
        ensures
            r matches Ok(l) ==> l == self.spec_leaf(*key),
    ;
}

/// The newest entry for `key` in an append-only log of writes (`None` if there is none, or if
/// the newest one removed it).
pub open spec fn newest_entry<K, V>(log: Seq<(K, Option<V>)>, key: K) -> Option<V>
    decreases log.len(),
{
    if log.len() == 0 {
        None
    } else if log.last().0 == key {
        log.last().1
    } else {
        newest_entry(log.drop_last(), key)
    }
}

/// An in-memory store: append-only logs of node and leaf writes, where the newest write of a
/// key wins.
pub struct MemoryStore {
    nodes: Vec<(BranchKey, Option<Node>)>,
    leaves: Vec<(Hash256, Option<Hash256>)>,
}

impl MemoryStore {
    /// The node writes, oldest first.
    pub closed spec fn node_log(&self) -> Seq<(BranchKey, Option<Node>)> {
        self.nodes@
    }

    /// The leaf writes, oldest first.
    pub closed spec fn leaf_log(&self) -> Seq<(Hash256, Option<Hash256>)> {
        self.leaves@
    }

    /// An empty store.
    pub fn new() -> (s: MemoryStore)
        ensures
            forall|k: BranchKey| s.spec_node(k) is None,
            forall|k: Hash256| s.spec_leaf(k) is None,
    {
        MemoryStore { nodes: Vec::new(), leaves: Vec::new() }
    }

    /// Writes (`Some`) or removes (`None`) the node under `key`.
    pub fn insert_node(&mut self, key: BranchKey, node: Option<Node>)
        ensures
            final(self).spec_node(key) == node,
            forall|k: BranchKey| k != key ==> final(self).spec_node(k) == old(self).spec_node(k),
            forall|k: Hash256| final(self).spec_leaf(k) == old(self).spec_leaf(k),
    {
        let ghost old_log = self.nodes@;
        self.nodes.push((key, node));
        assert(self.nodes@.drop_last() =~= old_log);
    }

    /// Writes (`Some`) or removes (`None`) the leaf hash under `key`.
    pub fn insert_leaf(&mut self, key: Hash256, leaf_hash: Option<Hash256>)
        ensures
            final(self).spec_leaf(key) == leaf_hash,
            forall|k: Hash256| k != key ==> final(self).spec_leaf(k) == old(self).spec_leaf(k),
            forall|k: BranchKey| final(self).spec_node(k) == old(self).spec_node(k),
    {
        let ghost old_log = self.leaves@;
        self.leaves.push((key, leaf_hash));
        assert(self.leaves@.drop_last() =~= old_log);
    }
}

impl SmtStore for MemoryStore {
    type Error = ();

    open spec fn spec_node(&self, key: BranchKey) -> Option<Node> {
        newest_entry(self.node_log(), key)
    }

    open spec fn spec_leaf(&self, key: Hash256) -> Option<Hash256> {
        newest_entry(self.leaf_log(), key)
    }

    fn get_node(&self, key: &BranchKey) -> (r: Result<Option<Node>, ()>)
        ensures
            r is Ok,
    {
        let mut i = self.nodes.len();
        assert(self.nodes@.subrange(0, i as int) =~= self.nodes@);
        while i > 0
            invariant
                i <= self.nodes@.len(),
                newest_entry(self.nodes@, *key) == newest_entry(self.nodes@.subrange(0, i as int), *key),
            decreases i,
        {
            let ghost pre = self.nodes@.subrange(0, i as int);
            assert(pre.drop_last() =~= self.nodes@.subrange(0, i - 1));
            if branch_key_eq(&self.nodes[i - 1].0, key) {
                return Ok(self.nodes[i - 1].1);
            }
            i = i - 1;
        }
        Ok(None)
    }

    fn get_leaf(&self, key: &Hash256) -> (r: Result<Option<Hash256>, ()>)
        ensures
            r is Ok,
    {
        let mut i = self.leaves.len();
        assert(self.leaves@.subrange(0, i as int) =~= self.leaves@);
        while i > 0
            invariant
                i <= self.leaves@.len(),
                newest_entry(self.leaves@, *key) == newest_entry(self.leaves@.subrange(0, i as int), *key),
            decreases i,
        {
            let ghost pre = self.leaves@.subrange(0, i as int);
            assert(pre.drop_last() =~= self.leaves@.subrange(0, i - 1));
            if hash_eq(&self.leaves[i - 1].0, key) {
                return Ok(self.leaves[i - 1].1);
            }
            i = i - 1;
        }
        Ok(None)
    }
}

} // verus!
