//! A growable vector of bits kept in 64-bit words, with a read cursor.

use crate::bitstream::reverse_byte;
use crate::inflate::DeflateError;
use crate::prefix::{walk_symbol, PrefixTree};
use vstd::arithmetic::power2::{lemma2_to64, lemma_pow2_unfold, pow2};
use vstd::prelude::*;

verus! {

/// Errors of the bit vector's writing operations.
#[derive(Debug)]
pub enum BitVecError {
    /// The given count or bit value is outside the range the operation accepts.
    OutOfBounds(usize),
}

/// Bit `index` of `byte`, counted from the least significant bit.
pub open spec fn byte_bit(byte: u8, index: int) -> bool {
    (byte >> (index as u8)) & 1u8 == 1u8
}

/// Bit `index` of `word`, counted from the most significant bit.
pub open spec fn word_bit(word: u64, index: u64) -> bool {
    (word >> ((63 - index) as u64)) & 1u64 == 1u64
}

/// The number that a bit stands for.
pub open spec fn bit_value(bit: bool) -> nat {
    if bit {
        1
    } else {
        0
    }
}

/// The bits of a byte sequence in the order in which RFC 1951 consumes them:
/// byte after byte, each from its least significant bit upwards.
pub open spec fn byte_bits(bytes: Seq<u8>) -> Seq<bool> {
    Seq::new(8 * bytes.len(), |i: int| byte_bit(bytes[i / 8], i % 8))
}

/// The bits of a byte sequence, each byte from its most significant bit downwards.
pub open spec fn byte_bits_msb(bytes: Seq<u8>) -> Seq<bool> {
    Seq::new(8 * bytes.len(), |i: int| byte_bit(bytes[i / 8], 7 - i % 8))
}

/// The `count` least significant bits of `value`, most significant of them first.
pub open spec fn low_bits_msb(value: u64, count: int) -> Seq<bool> {
    Seq::new(count as nat, |k: int| (value >> ((count - 1 - k) as u64)) & 1u64 == 1u64)
}

/// The number that the `count` bits from `pos` on spell, the first of them
/// being the least significant.
pub open spec fn bits_value(bits: Seq<bool>, pos: int, count: nat) -> nat
    decreases count,
{
    if count == 0 {
        0
    } else {
        bit_value(bits[pos]) + 2 * bits_value(bits, pos + 1, (count - 1) as nat)
    }
}

/// The `count` bytes that the bits from `pos` on spell, each byte from its
/// least significant bit upwards.
pub open spec fn bits_bytes(bits: Seq<bool>, pos: int, count: nat) -> Seq<u8> {
    Seq::new(count, |k: int| bits_value(bits, pos + 8 * k, 8) as u8)
}

/// The first position at or behind `pos` that is a multiple of 8.
pub open spec fn byte_boundary(pos: int) -> int {
    (pos + 7) / 8 * 8
}

/// `count` bits spell a number below 2 to the power of `count`.
pub proof fn lemma_bits_value_bound(bits: Seq<bool>, pos: int, count: nat)
    ensures
        bits_value(bits, pos, count) < pow2(count),
    decreases count,
{
    lemma2_to64();
    if count > 0 {
        lemma_bits_value_bound(bits, pos + 1, (count - 1) as nat);
        lemma_pow2_unfold(count);
    }
}

/// Bit `i` of a sequence of words, each word read from its most significant
/// bit downwards.
pub open spec fn stored_bit(words: Seq<u64>, i: int) -> bool {
    word_bit(words[i / 64], (i % 64) as u64)
}

/// The first `len` bits of a sequence of words.
pub open spec fn stored_bits(words: Seq<u64>, len: nat) -> Seq<bool> {
    Seq::new(len, |i: int| stored_bit(words, i))
}

/// A vector of bits stored in 64-bit words, the first bit in the most
/// significant position of the first word.
///
/// `len` counts the stored bits and `idx` is the read cursor: the bits before
/// it have been consumed.
pub struct BitVector64 {
    pub buffer: Vec<u64>,
    pub len: usize,
    pub idx: usize,
}

proof fn lemma_set_word_bit(word: u64, at: u64, j: u64)
    by (bit_vector)
    requires
        at < 64,
        j < 64,
    ensures
        word_bit(word | (1u64 << ((63 - at) as u64)), j) == (j == at || word_bit(word, j)),
{
}

proof fn lemma_zero_word_bit(j: u64)
    by (bit_vector)
    requires
        j < 64,
    ensures
        !word_bit(0u64, j),
{
}

proof fn lemma_bit_as_byte(word: u64, at: u64)
    by (bit_vector)
    requires
        at < 64,
    ensures
        ((word >> ((63 - at) as u64)) & 1u64) == 0 || ((word >> ((63 - at) as u64)) & 1u64) == 1,
{
}

proof fn lemma_merge_word_bit(word: u64, value: u64, count: u64, at: u64, j: u64)
    by (bit_vector)
    requires
        1 <= count <= 64,
        at < 64,
        j < 64,
    ensures
        word_bit(word | ((value << ((64 - count) as u64)) >> at), j) == (word_bit(word, j) || (j >= at
            && j - at < count && (value >> ((count - 1 - (j - at)) as u64)) & 1u64 == 1u64)),
{
}

proof fn lemma_carry_word_bit(value: u64, count: u64, at: u64, j: u64)
    by (bit_vector)
    requires
        1 <= count <= 64,
        1 <= at < 64,
        j < 64,
    ensures
        word_bit((value << ((64 - count) as u64)) << ((64 - at) as u64), j) == (64 - at + j < count && (
        value >> ((count - 1 - (64 - at + j)) as u64)) & 1u64 == 1u64),
{
}

proof fn lemma_widened_byte_bit(byte: u8, j: u64)
    by (bit_vector)
    requires
        j < 8,
    ensures
        ((byte as u64 >> j) & 1u64 == 1u64) == ((byte >> (j as u8)) & 1u8 == 1u8),
{
}

impl BitVector64 {
    /// Bit `i` of the storage, whether or not it lies below `len`.
    #[verifier::inline]
    pub open spec fn bit(&self, i: int) -> bool {
        stored_bit(self.buffer@, i)
    }

    /// The stored bits, first to last.
    pub open spec fn bits(&self) -> Seq<bool> {
        stored_bits(self.buffer@, self.len as nat)
    }

    /// The bits that the cursor has not passed yet.
    pub open spec fn remaining(&self) -> Seq<bool> {
        self.bits().skip(self.idx as int)
    }

    /// The storage holds exactly the words that `len` bits need plus room for
    /// the next bit, every unused bit is zero, and the cursor is within the
    /// stored bits.
    pub open spec fn wf(&self) -> bool {
        &&& self.buffer@.len() == self.len / 64 + 1
        &&& self.idx <= self.len
        &&& forall|i: int| self.len <= i < 64 * self.buffer@.len() ==> !#[trigger] self.bit(i)
    }

    /// Creates an empty bit vector.
    pub fn new() -> (v: Self)
        ensures
            v.wf(),
            v.bits() == Seq::<bool>::empty(),
            v.len == 0,
            v.idx == 0,
    {
        let mut buffer: Vec<u64> = Vec::new();
        buffer.push(0);
        let v = Self { buffer, len: 0, idx: 0 };
        proof {
            assert forall|i: int| 0 <= i < 64 implies !#[trigger] v.bit(i) by {
                lemma_zero_word_bit(i as u64);
            }
            assert(v.bits() =~= Seq::<bool>::empty());
        }
        v
    }

    /// Appends one bit, given as 0 or 1. Any other value is refused and leaves
    /// the vector as it was.
    pub fn push_bit(&mut self, bit: u8) -> (r: Result<(), BitVecError>)
        requires
            old(self).wf(),
            old(self).len < usize::MAX,
        ensures
            final(self).wf(),
            bit <= 1 ==> r is Ok && final(self).bits() == old(self).bits().push(bit == 1)
                && final(self).len == old(self).len + 1 && final(self).idx == old(self).idx,
            bit > 1 ==> r == Err::<(), BitVecError>(BitVecError::OutOfBounds(bit as usize))
                && *final(self) == *old(self),
    {
        if bit > 1 {
            return Err(BitVecError::OutOfBounds(bit as usize));
        }
        let bit_idx: usize = self.len % 64;
        let buf_idx: usize = self.buffer.len() - 1;
        let word: u64 = self.buffer[buf_idx];
        let ghost before = *self;
        if bit == 1 {
            self.buffer.set(buf_idx, word | (1u64 << (63 - bit_idx as u64)));
        }
        if bit_idx >= 63 {
            self.buffer.push(0);
        }
        self.len += 1;
        proof {
            assert forall|i: int| 0 <= i < 64 * self.buffer@.len() implies #[trigger] self.bit(i) == (
            if i == before.len {
                bit == 1
            } else if i < 64 * before.buffer@.len() {
                before.bit(i)
            } else {
                false
            }) by {
                lemma_zero_word_bit((i % 64) as u64);
                lemma_set_word_bit(word, bit_idx as u64, (i % 64) as u64);
                if i / 64 == buf_idx {
                    assert(before.len <= i ==> !before.bit(i));
                }
            }
            assert(self.bits() =~= before.bits().push(bit == 1));
        }
        Ok(())
    }

    /// Appends the `len` least significant bits of `buffer`, the most
    /// significant of them first. A count above 64 is refused and leaves the
    /// vector as it was.
    pub fn push_buffer(&mut self, buffer: u64, len: usize) -> (r: Result<(), BitVecError>)
        requires
            old(self).wf(),
            len <= 64 ==> old(self).len + len <= usize::MAX,
        ensures
            final(self).wf(),
            len <= 64 ==> r is Ok && final(self).bits() == old(self).bits() + low_bits_msb(buffer, len as int)
                && final(self).len == old(self).len + len && final(self).idx == old(self).idx,
            len > 64 ==> r == Err::<(), BitVecError>(BitVecError::OutOfBounds(len)) && *final(self) == *old(self),
    {
        if len > 64 {
            return Err(BitVecError::OutOfBounds(len));
        }
        if len == 0 {
            assert(self.bits() + low_bits_msb(buffer, 0) =~= self.bits());
            return Ok(());
        }
        let bit_idx: usize = self.len % 64;
        let buf_idx: usize = self.buffer.len() - 1;
        let shifted: u64 = buffer << (64 - len as u64);
        let word: u64 = self.buffer[buf_idx];
        let ghost before = *self;
        self.buffer.set(buf_idx, word | (shifted >> bit_idx as u64));
        if bit_idx + len >= 64 {
            let carry: u64 = if bit_idx == 0 {
                0
            } else {
                shifted << (64 - bit_idx as u64)
            };
            self.buffer.push(carry);
        }
        self.len += len;
        proof {
            assert forall|i: int| 0 <= i < 64 * self.buffer@.len() implies #[trigger] self.bit(i) == (
            if i < before.len {
                before.bit(i)
            } else if i < before.len + len {
                low_bits_msb(buffer, len as int)[i - before.len]
            } else {
                false
            }) by {
                let j: u64 = (i % 64) as u64;
                lemma_zero_word_bit(j);
                lemma_merge_word_bit(word, buffer, len as u64, bit_idx as u64, j);
                if bit_idx > 0 {
                    lemma_carry_word_bit(buffer, len as u64, bit_idx as u64, j);
                }
                if i / 64 == buf_idx {
                    assert(before.len <= i ==> !before.bit(i));
                }
            }
            assert(self.bits() =~= before.bits() + low_bits_msb(buffer, len as int));
        }
        Ok(())
    }

    /// Builds a bit vector from bytes, each byte contributing its bits from
    /// the least significant upwards: the order in which a DEFLATE stream is
    /// read.
    pub fn from_be_bytes(raw: &[u8]) -> (v: Self)
        requires
            raw@.len() * 8 <= usize::MAX,
        ensures
            v.wf(),
            v.bits() == byte_bits(raw@),
            v.idx == 0,
    {
        let mut v = BitVector64::new();
        let mut i: usize = 0;
        while i < raw.len()
            invariant
                i <= raw@.len(),
                raw@.len() * 8 <= usize::MAX,
                v.wf(),
                v.len == 8 * i,
                v.idx == 0,
                v.bits() == byte_bits(raw@.take(i as int)),
            decreases raw@.len() - i,
        {
            let byte: u8 = raw[i];
            let reversed: u8 = reverse_byte(byte);
            let ghost before = v.bits();
            let pushed = v.push_buffer(reversed as u64, 8);
            proof {
                assert forall|k: int| 0 <= k < 8 implies #[trigger] low_bits_msb(reversed as u64, 8)[k] == byte_bit(
                    byte,
                    k,
                ) by {
                    lemma_widened_byte_bit(reversed, (7 - k) as u64);
                    assert(byte_bit(reversed, 7 - k) == byte_bit(byte, 7 - (7 - k)));
                }
                assert(before + low_bits_msb(reversed as u64, 8) =~= byte_bits(raw@.take(i + 1)));
            }
            i += 1;
        }
        proof {
            assert(raw@.take(i as int) =~= raw@);
        }
        v
    }

    /// Builds a bit vector from bytes, each byte contributing its bits from
    /// the most significant downwards.
    pub fn from_le_bytes(raw: &[u8]) -> (v: Self)
        requires
            raw@.len() * 8 <= usize::MAX,
        ensures
            v.wf(),
            v.bits() == byte_bits_msb(raw@),
            v.idx == 0,
    {
        let mut v = BitVector64::new();
        let mut i: usize = 0;
        while i < raw.len()
            invariant
                i <= raw@.len(),
                raw@.len() * 8 <= usize::MAX,
                v.wf(),
                v.len == 8 * i,
                v.idx == 0,
                v.bits() == byte_bits_msb(raw@.take(i as int)),
            decreases raw@.len() - i,
        {
            let byte: u8 = raw[i];
            let ghost before = v.bits();
            let pushed = v.push_buffer(byte as u64, 8);
            proof {
                assert forall|k: int| 0 <= k < 8 implies #[trigger] low_bits_msb(byte as u64, 8)[k] == byte_bit(
                    byte,
                    7 - k,
                ) by {
                    lemma_widened_byte_bit(byte, (7 - k) as u64);
                }
                assert(before + low_bits_msb(byte as u64, 8) =~= byte_bits_msb(raw@.take(i + 1)));
            }
            i += 1;
        }
        proof {
            assert(raw@.take(i as int) =~= raw@);
        }
        v
    }

    /// Removes the first unread bit and returns it, or returns `None` when no
    /// unread bit is left. Words that have been read completely are released.
    pub fn pop_front(&mut self) -> (r: Option<u8>)
        requires
            old(self).wf(),
        ensures
            final(self).wf(),
            old(self).idx >= old(self).len ==> r is None && *final(self) == *old(self),
            old(self).idx < old(self).len ==> r == Some(bit_value(old(self).remaining()[0]) as u8)
                && final(self).remaining() == old(self).remaining().drop_first(),
    {
        if self.idx >= self.len {
            return None;
        }
        let ghost before = *self;
        if self.idx >= 64 {
            self.buffer.remove(0);
            self.idx -= 64;
            self.len -= 64;
            proof {
                assert forall|i: int| 0 <= i < 64 * self.buffer@.len() implies #[trigger] self.bit(i)
                    == before.bit(i + 64) by {}
                assert(self.remaining() =~= before.remaining());
            }
        }
        let bit = self.get(self.idx);
        let ghost unread = self.remaining();
        self.idx += 1;
        proof {
            assert(self.remaining() =~= unread.drop_first());
        }
        Some(bit)
    }

    /// Reads the bit under the cursor and moves the cursor past it. At the end
    /// of the stored bits nothing is read.
    pub fn next(&mut self) -> (r: Option<u8>)
        requires
            old(self).wf(),
        ensures
            final(self).wf(),
            final(self).buffer == old(self).buffer,
            final(self).len == old(self).len,
            old(self).idx < old(self).len ==> r == Some(bit_value(old(self).bits()[old(self).idx as int]) as u8)
                && final(self).idx == old(self).idx + 1,
            old(self).idx >= old(self).len ==> r is None && final(self).idx == old(self).idx,
    {
        if self.idx < self.len {
            let bit = self.get(self.idx);
            self.idx += 1;
            Some(bit)
        } else {
            None
        }
    }

    /// Reads `n` bits as a number, the first bit read being the least
    /// significant, and moves the cursor past them. Where fewer than `n` bits
    /// are left, nothing is read.
    pub fn read_bits(&mut self, n: u8) -> (r: Result<u16, DeflateError>)
        requires
            old(self).wf(),
            n <= 16,
        ensures
            final(self).wf(),
            final(self).buffer == old(self).buffer,
            final(self).len == old(self).len,
            old(self).idx + n <= old(self).len ==> r == Ok::<u16, DeflateError>(
                bits_value(old(self).bits(), old(self).idx as int, n as nat) as u16,
            ) && final(self).idx == old(self).idx + n,
            old(self).idx + n > old(self).len ==> r == Err::<u16, DeflateError>(
                DeflateError::UnexpectedEnd,
            ) && final(self).idx == old(self).idx,
    {
        if n as usize > self.len - self.idx {
            return Err(DeflateError::UnexpectedEnd);
        }
        let mut value: u32 = 0;
        let mut k: u8 = n;
        proof {
            lemma2_to64();
        }
        while k > 0
            invariant
                self.wf(),
                k <= n <= 16,
                self.idx + n <= self.len,
                value == bits_value(self.bits(), self.idx + k, (n - k) as nat),
                value < pow2((n - k) as nat),
            decreases k,
        {
            k -= 1;
            let bit = self.get(self.idx + k as usize);
            proof {
                lemma_pow2_unfold((n - k) as nat);
                crate::canonical::lemma_pow2_le_65536((n - k) as nat);
            }
            value = 2 * value + bit as u32;
        }
        proof {
            crate::canonical::lemma_pow2_le_65536(n as nat);
        }
        self.idx += n as usize;
        Ok(value as u16)
    }

    /// Decodes one symbol with `tree`: single bits are read and followed
    /// down the tree, from the node that its walk has reached, until a node
    /// with a symbol is reached. The walk ends at the root. A tree without
    /// codes decodes nothing: it is `CorruptStream` whatever the input
    /// holds. On failure the cursor stays where it was.
    pub fn read_huffman(&mut self, tree: &mut PrefixTree) -> (r: Result<usize, DeflateError>)
        requires
            old(self).wf(),
            old(tree).wf(),
        ensures
            final(self).wf(),
            final(self).buffer == old(self).buffer,
            final(self).len == old(self).len,
            final(tree).wf(),
            final(tree)@ == old(tree)@,
            final(tree).position() == Seq::<bool>::empty(),
            match walk_symbol(old(tree)@, old(self).bits(), old(self).idx as int, old(tree).position()) {
                Ok((symbol, end)) => r == Ok::<usize, DeflateError>(symbol) && final(self).idx == end,
                Err(e) => r == Err::<usize, DeflateError>(e) && final(self).idx == old(self).idx,
            },
    {
        let start = self.idx;
        loop
            invariant
                self.wf(),
                self.buffer == old(self).buffer,
                self.len == old(self).len,
                start == old(self).idx,
                start <= self.idx,
                tree.wf(),
                tree@ == old(tree)@,
                walk_symbol(tree@, self.bits(), self.idx as int, tree.position()) == walk_symbol(
                    old(tree)@,
                    old(self).bits(),
                    old(self).idx as int,
                    old(tree).position(),
                ),
            decreases self.len - self.idx,
        {
            if !tree.has_branch(0) && !tree.has_branch(1) {
                self.idx = start;
                tree.reset();
                return Err(DeflateError::CorruptStream);
            }
            if self.idx >= self.len {
                self.idx = start;
                tree.reset();
                return Err(DeflateError::UnexpectedEnd);
            }
            let bit = self.get(self.idx);
            if !tree.has_branch(bit) {
                self.idx = start;
                tree.reset();
                return Err(DeflateError::CorruptStream);
            }
            let found = tree.walk(bit);
            self.idx += 1;
            if let Some(symbol) = found {
                return Ok(symbol);
            }
        }
    }

    /// Moves the cursor to the next byte boundary, or to the end of the
    /// stored bits where that comes first. A cursor on a boundary stays.
    pub fn align_to_byte(&mut self)
        requires
            old(self).wf(),
        ensures
            final(self).wf(),
            final(self).buffer == old(self).buffer,
            final(self).len == old(self).len,
            final(self).idx == (if byte_boundary(old(self).idx as int) <= old(self).len {
                byte_boundary(old(self).idx as int)
            } else {
                old(self).len as int
            }),
    {
        let inside: usize = self.idx % 8;
        if inside != 0 {
            if 8 - inside <= self.len - self.idx {
                self.idx += 8 - inside;
            } else {
                self.idx = self.len;
            }
        }
    }

    /// Reads `n` whole bytes and moves the cursor past them. A cursor inside a
    /// byte is refused as `Unaligned`; where fewer than `n` bytes are left
    /// the result is `UnexpectedEnd`. On failure nothing is read.
    pub fn read_bytes(&mut self, n: usize) -> (r: Result<Vec<u8>, DeflateError>)
        requires
            old(self).wf(),
        ensures
            final(self).wf(),
            final(self).buffer == old(self).buffer,
            final(self).len == old(self).len,
            old(self).idx % 8 != 0 ==> r is Err && r->Err_0 == DeflateError::Unaligned && final(self).idx
                == old(self).idx,
            old(self).idx % 8 == 0 && old(self).idx + 8 * n > old(self).len ==> r is Err && r->Err_0
                == DeflateError::UnexpectedEnd && final(self).idx == old(self).idx,
            old(self).idx % 8 == 0 && old(self).idx + 8 * n <= old(self).len ==> r is Ok && r->Ok_0@
                == bits_bytes(old(self).bits(), old(self).idx as int, n as nat) && final(self).idx
                == old(self).idx + 8 * n,
    {
        if self.idx % 8 != 0 {
            return Err(DeflateError::Unaligned);
        }
        if n > (self.len - self.idx) / 8 {
            return Err(DeflateError::UnexpectedEnd);
        }
        let mut bytes: Vec<u8> = Vec::new();
        let mut k: usize = 0;
        let ghost start = self.idx;
        while k < n
            invariant
                self.wf(),
                self.buffer == old(self).buffer,
                self.len == old(self).len,
                start == old(self).idx,
                k <= n,
                start + 8 * n <= self.len,
                self.idx == start + 8 * k,
                bytes@ == bits_bytes(self.bits(), start as int, k as nat),
            decreases n - k,
        {
            let byte = match self.read_bits(8) {
                Ok(byte) => byte,
                Err(_) => vstd::pervasive::unreached(),
            };
            proof {
                lemma_bits_value_bound(self.bits(), start + 8 * k, 8);
                lemma2_to64();
            }
            bytes.push(byte as u8);
            k += 1;
            proof {
                assert(bytes@ =~= bits_bytes(self.bits(), start as int, k as nat));
            }
        }
        Ok(bytes)
    }

    /// The stored bit at position `at`, as 0 or 1.
    pub fn get(&self, at: usize) -> (bit: u8)
        requires
            self.wf(),
            at < self.len,
        ensures
            bit == bit_value(self.bits()[at as int]),
    {
        let word: u64 = self.buffer[at / 64];
        let shift: u64 = 63 - (at % 64) as u64;
        proof {
            lemma_bit_as_byte(word, (at % 64) as u64);
        }
        ((word >> shift) & 1) as u8
    }
}

impl Default for BitVector64 {
    fn default() -> (v: Self)
        ensures
            v.wf(),
            v.bits() == Seq::<bool>::empty(),
            v.len == 0,
            v.idx == 0,
    {
        BitVector64::new()
    }
}

} // verus!
