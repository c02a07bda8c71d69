//! The encoding of data in stored blocks, and the proof that decompressing
//! it gives the data back.

use crate::bits::{bit_value, bits_bytes, bits_value, byte_bit, byte_bits, byte_boundary};
use crate::gzip::{
    container_ok, extra_end, has_flag, header_end, header_ok, le32, name_end, payload, stated_size,
};
use crate::inflate::{block_at, block_body, inflate_blocks, stored_block, DeflateError};
use vstd::arithmetic::power2::{lemma2_to64, lemma_pow2_unfold, pow2};
use vstd::prelude::*;

verus! {

/// A stored block that holds `data`, of at most 65535 bytes: the header
/// in a byte of its own, the length and its complement in two bytes each,
/// the less significant first, and the data.
pub open spec fn stored_block_bytes(data: Seq<u8>, last: bool) -> Seq<u8> {
    seq![
        if last {
            1u8
        } else {
            0u8
        },
        (data.len() % 256) as u8,
        (data.len() / 256) as u8,
        (255 - data.len() % 256) as u8,
        (255 - data.len() / 256) as u8,
    ] + data
}

/// A DEFLATE stream that holds `data` in stored blocks of 65535 bytes, the
/// last one with what is left.
pub open spec fn stored_stream(data: Seq<u8>) -> Seq<u8>
    decreases data.len(),
{
    if data.len() <= 65535 {
        stored_block_bytes(data, true)
    } else {
        stored_block_bytes(data.take(65535), false) + stored_stream(data.skip(65535))
    }
}

/// The four bytes of a number below 2^32, the least significant first.
pub open spec fn le32_bytes(value: nat) -> Seq<u8> {
    seq![
        (value % 256) as u8,
        (value / 256 % 256) as u8,
        (value / 65536 % 256) as u8,
        (value / 16777216 % 256) as u8,
    ]
}

/// A GZIP file that holds `data` in stored blocks: a header without
/// optional fields, the stream, and the footer with the checksum `crc` and
/// the length of the data modulo 2^32.
pub open spec fn gzip_stored(data: Seq<u8>, crc: u32) -> Seq<u8> {
    seq![0x1fu8, 0x8bu8, 8u8, 0u8, 0u8, 0u8, 0u8, 0u8, 0u8, 255u8] + stored_stream(data) + le32_bytes(
        crc as nat,
    ) + le32_bytes(data.len() % 0x1_0000_0000)
}

proof fn lemma_byte_is_sum_of_bits(byte: u8)
    by (bit_vector)
    ensures
        byte == (byte & 1) + 2 * ((byte >> 1u8) & 1) + 4 * ((byte >> 2u8) & 1) + 8 * ((byte >> 3u8) & 1)
            + 16 * ((byte >> 4u8) & 1) + 32 * ((byte >> 5u8) & 1) + 64 * ((byte >> 6u8) & 1) + 128 * ((byte
            >> 7u8) & 1),
        byte & 1 == (byte >> 0u8) & 1,
        (byte >> 0u8) & 1 <= 1,
        (byte >> 1u8) & 1 <= 1,
        (byte >> 2u8) & 1 <= 1,
        (byte >> 3u8) & 1 <= 1,
        (byte >> 4u8) & 1 <= 1,
        (byte >> 5u8) & 1 <= 1,
        (byte >> 6u8) & 1 <= 1,
        (byte >> 7u8) & 1 <= 1,
{
}

proof fn lemma_complement(len: u16)
    by (bit_vector)
    ensures
        len ^ 0xFFFFu16 == 65535 - len,
{
}

proof fn lemma_no_flags(x: u8)
    by (bit_vector)
    requires
        x < 8,
    ensures
        (0u8 >> x) & 1u8 != 1u8,
{
}

/// Eight bits at a byte boundary spell the byte that stands there.
pub proof fn lemma_byte_value(bytes: Seq<u8>, k: int)
    requires
        0 <= k < bytes.len(),
    ensures
        bits_value(byte_bits(bytes), 8 * k, 8) == bytes[k],
{
    let bits = byte_bits(bytes);
    let byte = bytes[k];
    lemma_byte_is_sum_of_bits(byte);
    assert forall|j: int| 0 <= j < 8 implies #[trigger] bits[8 * k + j] == byte_bit(byte, j) by {
        assert((8 * k + j) / 8 == k);
        assert((8 * k + j) % 8 == j);
    }
    assert(bits_value(bits, 8 * k + 8, 0) == 0);
    assert(bits_value(bits, 8 * k + 7, 1) == bit_value(bits[8 * k + 7]));
    assert(bits_value(bits, 8 * k + 6, 2) == bit_value(bits[8 * k + 6]) + 2 * bits_value(
        bits,
        8 * k + 7,
        1,
    ));
    assert(bits_value(bits, 8 * k + 5, 3) == bit_value(bits[8 * k + 5]) + 2 * bits_value(
        bits,
        8 * k + 6,
        2,
    ));
    assert(bits_value(bits, 8 * k + 4, 4) == bit_value(bits[8 * k + 4]) + 2 * bits_value(
        bits,
        8 * k + 5,
        3,
    ));
    assert(bits_value(bits, 8 * k + 3, 5) == bit_value(bits[8 * k + 3]) + 2 * bits_value(
        bits,
        8 * k + 4,
        4,
    ));
    assert(bits_value(bits, 8 * k + 2, 6) == bit_value(bits[8 * k + 2]) + 2 * bits_value(
        bits,
        8 * k + 3,
        5,
    ));
    assert(bits_value(bits, 8 * k + 1, 7) == bit_value(bits[8 * k + 1]) + 2 * bits_value(
        bits,
        8 * k + 2,
        6,
    ));
    assert(bits_value(bits, 8 * k, 8) == bit_value(bits[8 * k + 0]) + 2 * bits_value(
        bits,
        8 * k + 1,
        7,
    ));
}

/// The bits of a number are those of its lower part followed by those of
/// its upper part.
pub proof fn lemma_bits_value_split(bits: Seq<bool>, pos: int, low: nat, high: nat)
    ensures
        bits_value(bits, pos, low + high) == bits_value(bits, pos, low) + pow2(low) * bits_value(
            bits,
            pos + low,
            high,
        ),
    decreases low,
{
    lemma2_to64();
    if low > 0 {
        lemma_bits_value_split(bits, pos + 1, (low - 1) as nat, high);
        lemma_pow2_unfold(low);
        let rest = bits_value(bits, pos + low, high);
        let half = pow2((low - 1) as nat);
        assert(2 * (half * rest) == (2 * half) * rest) by (nonlinear_arith);
    } else {
        let rest = bits_value(bits, pos, high);
        assert(1 * rest == rest) by (nonlinear_arith);
    }
}

/// Sixteen bits at a byte boundary spell the two bytes that stand there,
/// the less significant first.
pub proof fn lemma_word_value(bytes: Seq<u8>, k: int)
    requires
        0 <= k,
        k + 1 < bytes.len(),
    ensures
        bits_value(byte_bits(bytes), 8 * k, 16) == bytes[k] + 256 * bytes[k + 1],
{
    lemma2_to64();
    lemma_bits_value_split(byte_bits(bytes), 8 * k, 8, 8);
    lemma_byte_value(bytes, k);
    lemma_byte_value(bytes, k + 1);
}

/// Whole bytes read at a byte boundary are the bytes that stand there.
pub proof fn lemma_bytes_value(bytes: Seq<u8>, k: int, count: nat)
    requires
        0 <= k,
        k + count <= bytes.len(),
    ensures
        bits_bytes(byte_bits(bytes), 8 * k, count) == bytes.subrange(k, k + count),
{
    assert forall|i: int| 0 <= i < count implies #[trigger] bits_bytes(byte_bits(bytes), 8 * k, count)[i]
        == bytes[k + i] by {
        lemma_byte_value(bytes, k + i);
        assert(8 * k + 8 * i == 8 * (k + i));
    }
    assert(bits_bytes(byte_bits(bytes), 8 * k, count) =~= bytes.subrange(k, k + count));
}

/// A stored block that stands at byte `k` of the input inflates to its data.
pub proof fn lemma_one_stored_block(bytes: Seq<u8>, k: int, data: Seq<u8>, last: bool, out: Seq<u8>)
    requires
        0 <= k,
        data.len() <= 65535,
        k + 5 + data.len() <= bytes.len(),
        bytes.subrange(k, k + 5 + data.len()) == stored_block_bytes(data, last),
    ensures
        block_at(byte_bits(bytes), 8 * k, out) == (
            out + data,
            Ok::<int, DeflateError>(8 * (k + 5 + data.len())),
        ),
        byte_bits(bytes)[8 * k] == last,
{
    reveal(block_body);
    let bits = byte_bits(bytes);
    let block = stored_block_bytes(data, last);
    let len = data.len();
    assert forall|i: int| 0 <= i < 5 + len implies bytes[k + i] == block[i] by {
        assert(bytes.subrange(k, k + 5 + len)[i] == bytes[k + i]);
    }
    let head = bytes[k];
    assert(head == block[0]);
    lemma_byte_is_sum_of_bits(head);
    assert forall|j: int| 0 <= j < 8 implies #[trigger] bits[8 * k + j] == byte_bit(head, j) by {
        assert((8 * k + j) / 8 == k);
        assert((8 * k + j) % 8 == j);
    }
    assert(bits[8 * k + 0] == last);
    assert(!bits[8 * k + 1]);
    assert(!bits[8 * k + 2]);
    assert(bits_value(bits, 8 * k + 3, 0) == 0);
    assert(bits_value(bits, 8 * k + 2, 1) == 0);
    assert(bits_value(bits, 8 * k + 1, 2) == 0);
    assert(byte_boundary(8 * k + 3) == 8 * (k + 1));
    lemma_word_value(bytes, k + 1);
    lemma_word_value(bytes, k + 3);
    assert(bytes[k + 1] == block[1] && bytes[k + 2] == block[2] && bytes[k + 3] == block[3] && bytes[k
        + 4] == block[4]);
    assert(bits_value(bits, 8 * (k + 1), 16) == len);
    assert(bits_value(bits, 8 * (k + 3), 16) == 65535 - len);
    lemma_complement(len as u16);
    lemma_bytes_value(bytes, k + 5, len);
    assert(bytes.subrange(k + 5, k + 5 + len) =~= data) by {
        assert forall|i: int| 0 <= i < len implies bytes[k + 5 + i] == data[i] by {
            assert(block[5 + i] == data[i]);
        }
    }
    let start = 8 * (k + 1);
    assert(start + 16 == 8 * (k + 3));
    assert(start + 32 == 8 * (k + 5));
    assert(start + 32 + 8 * len == 8 * (k + 5 + len));
    assert(stored_block(bits, 8 * k + 3, out) == (
        out + data,
        Ok::<int, DeflateError>(8 * (k + 5 + len)),
    ));
    assert(block_body(bits, 8 * k + 3, 0, out) == stored_block(bits, 8 * k + 3, out));
}

/// Inflating blocks is inflating the first block and, unless it is the
/// last, the blocks behind it.
pub proof fn lemma_inflate_step(bits: Seq<bool>, pos: int, out: Seq<u8>)
    ensures
        inflate_blocks(bits, pos, out) == (match block_at(bits, pos, out).1 {
            Err(e) => block_at(bits, pos, out),
            Ok(end) => if bits[pos] {
                block_at(bits, pos, out)
            } else {
                inflate_blocks(bits, end, block_at(bits, pos, out).0)
            },
        }),
{
}

/// A block in the middle of a byte sequence.
proof fn lemma_block_in_place(before: Seq<u8>, block: Seq<u8>, behind: Seq<u8>)
    ensures
        (before + block + behind).subrange(before.len() as int, (before.len() + block.len()) as int) == block,
        (before + block + behind).len() == before.len() + block.len() + behind.len(),
{
    assert((before + block + behind).subrange(before.len() as int, (before.len() + block.len()) as int)
        =~= block);
}

/// Inflating the stored encoding of `data`, wherever in the input it
/// stands, appends `data` to the output and ends behind the encoding.
pub proof fn lemma_stored_stream_inflates(
    before: Seq<u8>,
    data: Seq<u8>,
    behind: Seq<u8>,
    out: Seq<u8>,
)
    ensures
        inflate_blocks(
            byte_bits(before + stored_stream(data) + behind),
            8 * before.len() as int,
            out,
        ) == (
            out + data,
            Ok::<int, DeflateError>(8 * (before.len() + stored_stream(data).len()) as int),
        ),
    decreases data.len(),
{
    let stream = stored_stream(data);
    let bytes = before + stream + behind;
    let bits = byte_bits(bytes);
    let k = before.len() as int;
    lemma_inflate_step(bits, 8 * k, out);
    if data.len() <= 65535 {
        assert(stream == stored_block_bytes(data, true));
        assert(stream.len() == 5 + data.len());
        lemma_block_in_place(before, stream, behind);
        lemma_one_stored_block(bytes, k, data, true, out);
    } else {
        let first = data.take(65535);
        let rest = data.skip(65535);
        let block = stored_block_bytes(first, false);
        let tail = stored_stream(rest);
        assert(stream == block + tail);
        assert(block.len() == 5 + first.len());
        assert(bytes =~= before + block + (tail + behind));
        lemma_block_in_place(before, block, tail + behind);
        lemma_one_stored_block(bytes, k, first, false, out);
        lemma_stored_stream_inflates(before + block, rest, behind, out + first);
        assert(before + block + tail + behind =~= bytes);
        assert(out + first + rest =~= out + data);
        assert((before + block).len() == k + 5 + first.len());
        assert(stream.len() == block.len() + tail.len());
    }
}

/// An input that begins with the magic bytes and has no flag set has a
/// header of ten bytes.
pub proof fn lemma_plain_header(bytes: Seq<u8>)
    requires
        bytes.len() >= 10,
        bytes[0] == 0x1f,
        bytes[1] == 0x8b,
        bytes[3] == 0,
    ensures
        header_ok(bytes),
        header_end(bytes) == Some(10int),
{
    assert forall|x: int| 0 <= x < 8 implies !has_flag(bytes, x) by {
        lemma_no_flags(x as u8);
    }
    assert(extra_end(bytes) == Some(10int));
    assert(name_end(bytes) == Some(10int));
}

/// The four bytes of a number spell the number.
pub proof fn lemma_le32_of_bytes(bytes: Seq<u8>, at: int, value: nat)
    requires
        0 <= at,
        at + 4 <= bytes.len(),
        value < 0x1_0000_0000,
        bytes.subrange(at, at + 4) == le32_bytes(value),
    ensures
        le32(bytes, at) == value,
{
    let four = bytes.subrange(at, at + 4);
    assert(four[0] == bytes[at] && four[1] == bytes[at + 1] && four[2] == bytes[at + 2] && four[3]
        == bytes[at + 3]);
}

/// The GZIP file that holds `data` in stored blocks has a header in order,
/// the stored stream as its payload and the length of `data` in its footer.
pub proof fn lemma_gzip_stored_container(data: Seq<u8>, crc: u32)
    ensures
        container_ok(gzip_stored(data, crc)),
        payload(gzip_stored(data, crc)) == stored_stream(data),
        stated_size(gzip_stored(data, crc)) == data.len() % 0x1_0000_0000,
{
    let bytes = gzip_stored(data, crc);
    let head = seq![0x1fu8, 0x8bu8, 8u8, 0u8, 0u8, 0u8, 0u8, 0u8, 0u8, 255u8];
    let stream = stored_stream(data);
    let size = data.len() % 0x1_0000_0000;
    let sum = le32_bytes(crc as nat);
    let foot = le32_bytes(size);
    assert(bytes == head + stream + sum + foot);
    assert(bytes.len() == 10 + stream.len() + 8);
    assert(bytes[0] == head[0] && bytes[1] == head[1] && bytes[3] == head[3]);
    lemma_plain_header(bytes);
    assert(bytes.subrange(10, bytes.len() - 8) =~= stream);
    assert(bytes.subrange(bytes.len() - 4, bytes.len() as int) =~= foot);
    lemma_le32_of_bytes(bytes, bytes.len() - 4, size);
}

/// Decompressing the GZIP file that holds `data` in stored blocks gives
/// `data`: the container is in order and its payload inflates to `data`.
/// The length of the output is the one that the footer states, modulo
/// 2^32.
pub proof fn lemma_gzip_stored_round_trip(data: Seq<u8>, crc: u32)
    ensures
        container_ok(gzip_stored(data, crc)),
        inflate_blocks(byte_bits(payload(gzip_stored(data, crc))), 0, Seq::<u8>::empty()).0 == data,
        inflate_blocks(byte_bits(payload(gzip_stored(data, crc))), 0, Seq::<u8>::empty()).1 is Ok,
        data.len() % 0x1_0000_0000 == stated_size(gzip_stored(data, crc)),
{
    lemma_gzip_stored_container(data, crc);
    let none = Seq::<u8>::empty();
    lemma_stored_stream_inflates(none, data, none, none);
    assert(none + stored_stream(data) + none =~= stored_stream(data));
    assert(none + data =~= data);
}

} // verus!
