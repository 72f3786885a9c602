//! The 256-bit hash type, its bits and byte order, and the node hashers of the tree.

use vstd::prelude::*;

verus! {

/// Depth of the sparse Merkle tree: the number of levels from the root down to a leaf.
pub const DEPTH: usize = 256;

/// A 256-bit hash value, held as its 32 bytes.
#[derive(Clone, Copy, Debug, PartialEq, Eq, Hash, PartialOrd, Ord)]
pub struct Hash256(pub [u8; 32]);

impl Hash256 {
    /// Builds a hash from its bytes.
    pub fn from_bytes(bytes: [u8; 32]) -> (h: Hash256)
        ensures
            h.0 == bytes,
    {
        Hash256(bytes)
    }

    /// The bytes of the hash.
    pub fn as_bytes(&self) -> (bytes: [u8; 32])
        ensures
            bytes == self.0,
    {
        self.0
    }
}

/// The all-zero hash.
pub open spec fn spec_zero_hash() -> Hash256 {
    Hash256(spec_array_fill(0u8))
}

/// An array holding `v` at every position.
pub open spec fn spec_array_fill(v: u8) -> [u8; 32] {
    vstd::array::spec_array_fill_for_copy_type::<u8, 32>(v)
}

/// The all-zero hash, which also stands for an empty leaf.
pub fn zero_hash() -> (h: Hash256)
    ensures
        h == spec_zero_hash(),
        forall|i: int| 0 <= i < 32 ==> h.0[i] == 0,
{
    let h = Hash256([0u8; 32]);
    assert(h.0 =~= spec_array_fill(0u8));
    h
}

/// Bit `d` of a key, in big-endian bit order: bit 0 is the most significant bit of byte 0,
/// bit 255 the least significant bit of byte 31. A set bit means the right branch.
pub open spec fn spec_bit_at(key: Hash256, d: int) -> bool {
    key.0[d / 8] & (0x80u8 >> ((d % 8) as u8)) != 0u8
}

/// Bit `d` of `key` (see [`spec_bit_at`]).
pub fn bit_at(key: &Hash256, d: usize) -> (b: bool)
    requires
        d < DEPTH,
    ensures
        b == spec_bit_at(*key, d as int),
{
    key.0[d / 8] & (0x80u8 >> ((d % 8) as u8)) != 0
}

/// Whether two hashes are equal.
pub fn hash_eq(a: &Hash256, b: &Hash256) -> (r: bool)
    ensures
        r == (*a == *b),
{
    let mut i: usize = 0;
    while i < 32
        invariant
            0 <= i <= 32,
            forall|j: int| 0 <= j < i ==> a.0[j] == b.0[j],
        decreases 32 - i,
    {
        if a.0[i] != b.0[i] {
            return false;
        }
        i = i + 1;
    }
    assert(a.0 =~= b.0);
    true
}

/// `a` comes strictly before `b` in lexicographic byte order.
pub open spec fn hash_lt(a: Hash256, b: Hash256) -> bool {
    exists|i: int|
        0 <= i < 32 && a.0[i] < b.0[i] && (forall|j: int| 0 <= j < i ==> a.0[j] == b.0[j])
}

/// `a` comes before `b` in lexicographic byte order, or equals it.
pub open spec fn hash_le(a: Hash256, b: Hash256) -> bool {
    a == b || hash_lt(a, b)
}

/// Whether `a <= b` in lexicographic byte order (the order in which keys are sorted).
pub fn hash_le_exec(a: &Hash256, b: &Hash256) -> (r: bool)
    ensures
        r == hash_le(*a, *b),
{
    let mut i: usize = 0;
    while i < 32
        invariant
            0 <= i <= 32,
            forall|j: int| 0 <= j < i ==> a.0[j] == b.0[j],
        decreases 32 - i,
    {
        if a.0[i] != b.0[i] {
            if a.0[i] < b.0[i] {
                assert(hash_lt(*a, *b));
                return true;
            } else {
                assert(!hash_lt(*a, *b)) by {
                    if hash_lt(*a, *b) {
                        let k = choose|k: int|
                            0 <= k < 32 && a.0[k] < b.0[k] && (forall|j: int|
                                0 <= j < k ==> a.0[j] == b.0[j]);
                        if k < i {
                        } else if k > i {
                            assert(a.0[i as int] == b.0[i as int]);
                        }
                    }
                }
                assert(a.0[i as int] != b.0[i as int]);
                return false;
            }
        }
        i = i + 1;
    }
    assert(a.0 =~= b.0);
    true
}

/// A sequence of keys is sorted when each key is `<=` the next one.
pub open spec fn keys_sorted(keys: Seq<Hash256>) -> bool {
    forall|i: int| 0 <= i < keys.len() - 1 ==> hash_le(#[trigger] keys[i], keys[i + 1])
}

/// Whether `keys` is sorted (see [`keys_sorted`]).
pub fn is_sorted(keys: &[Hash256]) -> (r: bool)
    ensures
        r == keys_sorted(keys@),
{
    let n = keys.len();
    if n < 2 {
        return true;
    }
    let mut i: usize = 0;
    while i < n - 1
        invariant
            n == keys@.len(),
            n >= 2,
            0 <= i <= n - 1,
            forall|j: int| 0 <= j < i ==> hash_le(#[trigger] keys@[j], keys@[j + 1]),
        decreases n - 1 - i,
    {
        if !hash_le_exec(&keys[i], &keys[i + 1]) {
            return false;
        }
        i = i + 1;
    }
    true
}

} // verus!
