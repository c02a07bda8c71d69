//! Bit streams that are filled most significant bit first, and their
//! conversion to the byte packing of RFC 1951.

use crate::bits::{bit_value, byte_bit, byte_bits};
use vstd::prelude::*;

verus! {

/// Errors of the bit stream's operations.
#[derive(Debug)]
pub enum BitError {
    /// The range of bits asked for is not within a byte, or ends before it begins.
    InvalidPartialRange(u8, u8),
}

/// A stream of bits stored in bytes, the first bit in the most significant
/// position of the first byte.
///
/// `len` counts the bits and `idx` is the place of the next bit that `next`
/// hands out.
pub struct BitStream {
    pub len: usize,
    pub idx: usize,
    pub bytes: Vec<u8>,
}

/// Bit `i` of a byte sequence, each byte read from its most significant bit
/// downwards.
pub open spec fn packed_bit(bytes: Seq<u8>, i: int) -> bool {
    byte_bit(bytes[i / 8], 7 - i % 8)
}

/// The first `len` bits of a byte sequence, each byte read from its most
/// significant bit downwards.
pub open spec fn packed_bits(bytes: Seq<u8>, len: nat) -> Seq<bool> {
    Seq::new(len, |i: int| packed_bit(bytes, i))
}

/// The `count` least significant bits of `buffer`, the most significant of
/// them first; bits beyond the 32 of the buffer are zero.
pub open spec fn low_bits(buffer: u32, count: nat) -> Seq<bool> {
    Seq::new(count, |k: int| buffer.spec_bit((count - 1 - k) as u8))
}

/// The bits of `byte` from `start` to `end`, both counted from the most
/// significant bit and both included.
pub open spec fn byte_range(byte: u8, start: int, end: int) -> Seq<bool> {
    Seq::new((end - start + 1) as nat, |k: int| byte_bit(byte, 7 - (start + k)))
}

proof fn lemma_place_bit(byte: u8, shift: u8, bit: u8, k: u8)
    by (bit_vector)
    requires
        shift < 8,
        bit <= 1,
        k < 8,
    ensures
        byte_bit(((byte >> shift) | bit) << shift, k as int) == (if k < shift {
            false
        } else if k == shift {
            bit == 1 || byte_bit(byte, k as int)
        } else {
            byte_bit(byte, k as int)
        }),
{
}

proof fn lemma_top_bit(bit: u8, k: u8)
    by (bit_vector)
    requires
        bit <= 1,
        k < 8,
    ensures
        byte_bit(bit << 7u8, k as int) == (k == 7 && bit == 1),
{
}

proof fn lemma_bit_of_byte(byte: u8, k: u8)
    by (bit_vector)
    requires
        k < 8,
    ensures
        (byte >> k) & 1u8 <= 1,
{
}

proof fn lemma_bit_of_word(word: u32, k: u8)
    by (bit_vector)
    requires
        k < 32,
    ensures
        (word >> k) & 1u32 <= 1,
{
}

/// Reading single bits of a number.
pub trait BitIndex {
    /// Bit `index` of the number, counted from the least significant bit.
    /// Beyond the width of the number every bit is zero.
    spec fn spec_bit(&self, index: u8) -> bool;

    /// Bit `index` of the number, as 0 or 1.
    fn bit_index(&self, index: u8) -> (bit: u8)
        ensures
            bit == bit_value(self.spec_bit(index)),
    ;
}

impl BitIndex for u32 {
    open spec fn spec_bit(&self, index: u8) -> bool {
        index < 32 && (*self >> index) & 1u32 == 1u32
    }

    fn bit_index(&self, index: u8) -> (bit: u8) {
        if index < 32 {
            proof {
                lemma_bit_of_word(*self, index);
            }
            ((*self >> index) & 1) as u8
        } else {
            0
        }
    }
}

impl BitStream {
    /// The bits of the stream, first to last.
    pub open spec fn bits(&self) -> Seq<bool> {
        packed_bits(self.bytes@, self.len as nat)
    }

    /// The bytes are those that `len` bits need, and the unused bits of the
    /// last byte are zero.
    pub open spec fn wf(&self) -> bool {
        &&& self.bytes@.len() == (self.len + 7) / 8
        &&& forall|i: int| self.len <= i < 8 * self.bytes@.len() ==> !#[trigger] packed_bit(self.bytes@, i)
    }

    /// Creates an empty bit stream.
    pub fn new() -> (stream: Self)
        ensures
            stream.wf(),
            stream.bits() == Seq::<bool>::empty(),
            stream.len == 0,
            stream.idx == 0,
    {
        let stream = Self { len: 0, idx: 0, bytes: Vec::new() };
        assert(stream.bits() =~= Seq::<bool>::empty());
        stream
    }

    /// Appends one bit. Any value other than 0 counts as 1.
    pub fn push_bit(&mut self, bit: u8)
        requires
            old(self).wf(),
            old(self).len < usize::MAX,
        ensures
            final(self).wf(),
            final(self).bits() == old(self).bits().push(bit != 0),
            final(self).len == old(self).len + 1,
            final(self).idx == old(self).idx,
    {
        let normalized_bit: u8 = if bit == 0 {
            0
        } else {
            1
        };
        let bit_index: u8 = (self.len % 8) as u8;
        let ghost before = *self;
        if bit_index != 0 {
            let shift: u8 = 8 - bit_index - 1;
            let last = self.bytes.len() - 1;
            let byte = self.bytes[last];
            self.bytes.set(last, ((byte >> shift) | normalized_bit) << shift);
            self.len += 1;
            proof {
                assert forall|i: int| 0 <= i < 8 * self.bytes@.len() implies #[trigger] packed_bit(
                    self.bytes@,
                    i,
                ) == (if i == before.len {
                    bit != 0
                } else {
                    packed_bit(before.bytes@, i)
                }) by {
                    lemma_place_bit(byte, shift, normalized_bit, (7 - i % 8) as u8);
                    if i / 8 == last {
                        assert(before.len <= i ==> !packed_bit(before.bytes@, i));
                    }
                }
            }
        } else {
            let working_byte = normalized_bit << 7;
            self.bytes.push(working_byte);
            self.len += 1;
            proof {
                assert forall|i: int| 0 <= i < 8 * self.bytes@.len() implies #[trigger] packed_bit(
                    self.bytes@,
                    i,
                ) == (if i == before.len {
                    bit != 0
                } else if i < before.len {
                    packed_bit(before.bytes@, i)
                } else {
                    false
                }) by {
                    lemma_top_bit(normalized_bit, (7 - i % 8) as u8);
                }
            }
        }
        assert(self.bits() =~= before.bits().push(bit != 0));
    }

    /// Appends the bits of `byte` from `start` to `end`, both counted from
    /// the most significant bit and both included. A range that ends
    /// before it begins, or that leaves the byte, is refused and leaves the
    /// stream as it was.
    pub fn push_partial(&mut self, byte: u8, start: u8, end: u8) -> (r: Result<(), BitError>)
        requires
            old(self).wf(),
            old(self).len + 8 <= usize::MAX,
        ensures
            final(self).wf(),
            start > end || end >= 8 ==> (r matches Err(BitError::InvalidPartialRange(a, b)) && a == start
                && b == end && *final(self) == *old(self)),
            start <= end < 8 ==> r is Ok && final(self).bits() == old(self).bits() + byte_range(
                byte,
                start as int,
                end as int,
            ) && final(self).len == old(self).len + (end - start + 1) && final(self).idx == old(self).idx,
    {
        if start > end || start >= 8 || end >= 8 {
            return Err(BitError::InvalidPartialRange(start, end));
        }
        let mut i: u8 = start;
        while i <= end
            invariant
                start <= i <= end + 1,
                end < 8,
                self.wf(),
                old(self).len + 8 <= usize::MAX,
                self.len == old(self).len + (i - start),
                self.idx == old(self).idx,
                self.bits() == old(self).bits() + byte_range(byte, start as int, i - 1),
            decreases end + 1 - i,
        {
            proof {
                lemma_bit_of_byte(byte, (7 - i) as u8);
            }
            let bit = (byte >> (7 - i)) & 1;
            let ghost before = self.bits();
            self.push_bit(bit);
            proof {
                assert(before.push(bit != 0) =~= old(self).bits() + byte_range(
                    byte,
                    start as int,
                    i as int,
                ));
            }
            i += 1;
        }
        Ok(())
    }

    /// Appends the `length` least significant bits of `buffer`, the most
    /// significant of them first.
    pub fn push(&mut self, buffer: u32, length: u8)
        requires
            old(self).wf(),
            old(self).len + length <= usize::MAX,
        ensures
            final(self).wf(),
            final(self).bits() == old(self).bits() + low_bits(buffer, length as nat),
            final(self).len == old(self).len + length,
            final(self).idx == old(self).idx,
    {
        let mut i: u8 = length;
        while i > 0
            invariant
                i <= length,
                self.wf(),
                old(self).len + length <= usize::MAX,
                self.len == old(self).len + (length - i),
                self.idx == old(self).idx,
                self.bits() == old(self).bits() + low_bits(buffer, length as nat).take(length - i),
            decreases i,
        {
            i -= 1;
            let ghost before = self.bits();
            self.push_bit(buffer.bit_index(i));
            proof {
                assert(before.push(buffer.spec_bit(i)) =~= old(self).bits() + low_bits(
                    buffer,
                    length as nat,
                ).take(length - i));
            }
        }
        proof {
            assert(low_bits(buffer, length as nat).take(length as int) =~= low_bits(buffer, length as nat));
        }
    }

    /// The whole bytes of the stream in the packing of RFC 1951, in which
    /// the first bit of the stream is the least significant bit of the
    /// first byte. Bits behind the last whole byte are left out.
    pub fn to_rfc_bytes(&self) -> (packed: Vec<u8>)
        requires
            self.wf(),
        ensures
            packed@.len() == self.len / 8,
            byte_bits(packed@) == self.bits().take(8 * (self.len / 8) as int),
    {
        let whole = self.len / 8;
        let mut packed: Vec<u8> = Vec::new();
        let mut i: usize = 0;
        while i < whole
            invariant
                i <= whole,
                whole == self.len / 8,
                self.wf(),
                packed@.len() == i,
                forall|k: int, j: int|
                    0 <= k < i && 0 <= j < 8 ==> #[trigger] byte_bit(packed@[k], j) == byte_bit(
                        self.bytes@[k],
                        7 - j,
                    ),
            decreases whole - i,
        {
            packed.push(reverse_byte(self.bytes[i]));
            i += 1;
        }
        proof {
            assert(byte_bits(packed@) =~= self.bits().take(8 * whole as int));
        }
        packed
    }

    /// Hands out the bit at `idx` as 0 or 1 and moves `idx` past it. At the
    /// end of the stream nothing is handed out.
    pub fn next(&mut self) -> (r: Option<u8>)
        requires
            old(self).wf(),
        ensures
            final(self).wf(),
            final(self).bytes == old(self).bytes,
            final(self).len == old(self).len,
            old(self).idx < old(self).len ==> r == Some(bit_value(old(self).bits()[old(self).idx as int]) as u8)
                && final(self).idx == old(self).idx + 1,
            old(self).idx >= old(self).len ==> r is None && final(self).idx == old(self).idx,
    {
        if self.idx < self.len {
            let byte_idx = self.idx / 8;
            let bit_idx: u8 = 7 - (self.idx % 8) as u8;
            let current_byte = self.bytes[byte_idx];
            proof {
                lemma_bit_of_byte(current_byte, bit_idx);
            }
            let bit = (current_byte >> bit_idx) & 1;
            self.idx += 1;
            Some(bit)
        } else {
            None
        }
    }
}

impl Default for BitStream {
    fn default() -> (stream: Self)
        ensures
            stream.wf(),
            stream.bits() == Seq::<bool>::empty(),
            stream.len == 0,
            stream.idx == 0,
    {
        BitStream::new()
    }
}

/// Reverses the order of the eight bits of a byte.
pub fn reverse_byte(byte: u8) -> (reversed: u8)
    ensures
        forall|i: int| 0 <= i < 8 ==> #[trigger] byte_bit(reversed, i) == byte_bit(byte, 7 - i),
{
    let nibbles: u8 = (byte >> 4) | (byte << 4);
    let pairs: u8 = ((nibbles & 0xCC) >> 2) | ((nibbles & 0x33) << 2);
    let reversed: u8 = ((pairs & 0xAA) >> 1) | ((pairs & 0x55) << 1);
    assert(forall|i: u8|
        0 <= i < 8 ==> (((reversed >> i) & 1u8 == 1u8) == ((byte >> ((7 - i) as u8)) & 1u8 == 1u8)))
        by (bit_vector)
        requires
            nibbles == (byte >> 4) | (byte << 4),
            pairs == ((nibbles & 0xCC) >> 2) | ((nibbles & 0x33) << 2),
            reversed == ((pairs & 0xAA) >> 1) | ((pairs & 0x55) << 1),
    ;
    assert forall|i: int| 0 <= i < 8 implies #[trigger] byte_bit(reversed, i) == byte_bit(byte, 7 - i) by {
        let j: u8 = i as u8;
        assert(0 <= j < 8);
    }
    reversed
}

} // verus!
