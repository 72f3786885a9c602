//! A growable bitmap that records one bit per proof sibling, least significant bit first.

use vstd::prelude::*;

verus! {

/// Bit `j` (0 = least significant) of byte `b`.
pub open spec fn bit_of_byte(b: u8, j: int) -> bool {
    b & (1u8 << (j as u8)) != 0u8
}

/// Bit `i` of a byte string: bit `i % 8` of byte `i / 8`.
pub open spec fn bitmap_bit(bytes: Seq<u8>, i: int) -> bool {
    bit_of_byte(bytes[i / 8], i % 8)
}

/// The number of bytes needed to hold `n` bits.
pub open spec fn bytes_for_bits(n: nat) -> nat {
    (n + 7) / 8
}

/// Bit `index` of `bitmap` (see [`bitmap_bit`]).
pub fn bitmap_bit_at(bitmap: &[u8], index: usize) -> (b: bool)
    requires
        index / 8 < bitmap@.len(),
    ensures
        b == bitmap_bit(bitmap@, index as int),
{
    bitmap[index / 8] & (1u8 << ((index % 8) as u8)) != 0
}

pub proof fn lemma_set_bit(b: u8, k: u8, j: u8)
    requires
        k < 8,
        j < 8,
    ensures
        (b | (1u8 << k)) & (1u8 << j) != 0u8 <==> (j == k || b & (1u8 << j) != 0u8),
{
    assert((b | (1u8 << k)) & (1u8 << j) != 0u8 <==> (j == k || b & (1u8 << j) != 0u8))
        by (bit_vector)
        requires
            k < 8,
            j < 8,
    ;
}

pub proof fn lemma_zero_byte(j: u8)
    requires
        j < 8,
    ensures
        0u8 & (1u8 << j) == 0u8,
{
    assert(0u8 & (1u8 << j) == 0u8) by (bit_vector);
}

/// A bitmap under construction: bits are appended one at a time.
pub struct MutableBitmap {
    bitmap: Vec<u8>,
    next_index: usize,
}

impl MutableBitmap {
    /// The bits appended so far, in order.
    pub closed spec fn view(&self) -> Seq<bool> {
        Seq::new(self.next_index as nat, |i: int| bitmap_bit(self.bitmap@, i))
    }

    /// The bytes hold exactly the appended bits, and every bit past them is unset.
    pub closed spec fn wf(&self) -> bool {
        &&& self.bitmap@.len() == bytes_for_bits(self.next_index as nat)
        &&& forall|i: int|
            self.next_index <= i < 8 * self.bitmap@.len() ==> !#[trigger] bitmap_bit(
                self.bitmap@,
                i,
            )
    }

    /// An empty bitmap.
    pub fn new() -> (r: Self)
        ensures
            r.wf(),
            r.view() == Seq::<bool>::empty(),
    {
        let r = Self { bitmap: Vec::new(), next_index: 0 };
        assert(r.view() =~= Seq::<bool>::empty());
        r
    }

    /// The number of bits appended so far.
    pub fn len(&self) -> (n: usize)
        ensures
            n == self.view().len(),
    {
        self.next_index
    }

    /// The bytes of the bitmap: bit `i` of the result (see [`bitmap_bit`]) is the `i`-th
    /// appended bit, the result has just enough bytes for them, and the bits past them are unset.
    pub fn bitmap(self) -> (bytes: Vec<u8>)
        requires
            self.wf(),
        ensures
            bytes@.len() == bytes_for_bits(self.view().len()),
            forall|i: int| 0 <= i < self.view().len() ==> #[trigger] bitmap_bit(bytes@, i) == self.view()[i],
            forall|i: int| self.view().len() <= i < 8 * bytes@.len() ==> !#[trigger] bitmap_bit(bytes@, i),
    {
        self.bitmap
    }

    /// Appends one bit.
    pub fn append(&mut self, value: bool)
        requires
            old(self).wf(),
            old(self).view().len() < usize::MAX,
        ensures
            final(self).wf(),
            final(self).view() == old(self).view().push(value),
    {
        let ghost old_bytes = self.bitmap@;
        let n = self.next_index;
        if n % 8 == 0 {
            self.bitmap.push(0);
            proof {
                assert forall|i: int| n <= i < 8 * self.bitmap@.len() implies !#[trigger] bitmap_bit(self.bitmap@, i) by {
                    if i < 8 * old_bytes.len() {
                        assert(self.bitmap@[i / 8] == old_bytes[i / 8]);
                        assert(bitmap_bit(old_bytes, i));
                    } else {
                        assert(i / 8 == old_bytes.len());
                        lemma_zero_byte((i % 8) as u8);
                    }
                }
                assert forall|i: int| 0 <= i < n implies #[trigger] bitmap_bit(self.bitmap@, i) == bitmap_bit(old_bytes, i) by {
                    assert(self.bitmap@[i / 8] == old_bytes[i / 8]);
                }
            }
        }
        let ghost mid_bytes = self.bitmap@;
        assert(n / 8 < mid_bytes.len());
        if value {
            let k = n / 8;
            let s = (n % 8) as u8;
            self.bitmap[k] = self.bitmap[k] | (1u8 << s);
            proof {
                assert forall|i: int| 0 <= i < 8 * self.bitmap@.len() && i != n implies #[trigger] bitmap_bit(self.bitmap@, i) == bitmap_bit(mid_bytes, i) by {
                    if i / 8 == k {
                        lemma_set_bit(mid_bytes[k as int], s, (i % 8) as u8);
                    }
                }
                lemma_set_bit(mid_bytes[k as int], s, s);
            }
        }
        self.next_index = n + 1;
        proof {
            assert(bitmap_bit(self.bitmap@, n as int) == value) by {
                if !value {
                    assert(!bitmap_bit(mid_bytes, n as int));
                }
            }
            assert(self.view() =~= old(self).view().push(value));
        }
    }
}

} // verus!
