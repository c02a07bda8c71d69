//! The DEFLATE inflater: block headers, stored, fixed and dynamic blocks.

use crate::bits::{bits_bytes, bits_value, byte_bits, byte_boundary, BitVector64};
use crate::canonical::{lemma_append_run, run};
use crate::prefix::{
    canonical_tree, decode_symbol, kraft_sum, lemma_walk_advances, valid_code_lengths, PrefixTree,
    DISTANCE_BASE, DISTANCE_CODES, DISTANCE_EXTRA_BITS, FIXED_CODE_LENGTHS, LENGTH_BASE,
    LENGTH_CODES, LENGTH_EXTRA_BITS,
};
use vstd::arithmetic::power2::lemma2_to64;
use vstd::prelude::*;

verus! {

/// The ways in which inflating a DEFLATE stream fails.
#[derive(Clone, Copy, Debug, PartialEq, Eq, Structural)]
pub enum DeflateError {
    /// The input ended inside a symbol, an integer or a stored block.
    UnexpectedEnd,
    /// A block header carries the reserved block type 3.
    InvalidBlockType,
    /// The stream breaks a rule of the format.
    CorruptStream,
    /// The input is too long for its bits to be counted in a `usize`.
    ResourceLimit,
    /// Whole bytes were asked for while the cursor stood inside a byte.
    Unaligned,
}

/// For each symbol of the code-length alphabet, the place of its code
/// length among the lengths that a dynamic block lists: the lengths come in
/// the order 16, 17, 18, 0, 8, 7, 9, 6, 10, 5, 11, 4, 12, 3, 13, 2, 14, 1, 15.
pub const CODE_LENGTH_SLOT: [usize; 19] = [
    3, 17, 15, 13, 11, 9, 7, 5, 4, 6, 8, 10, 12, 14, 16, 18, 0, 1, 2,
];

/// The output after a match was copied: `length` times the byte that lies
/// `distance` bytes before the end is appended, so that a match longer than
/// its distance repeats the bytes it has just produced.
pub open spec fn lz_copy(out: Seq<u8>, distance: int, length: nat) -> Seq<u8>
    decreases length,
{
    if length == 0 {
        out
    } else {
        lz_copy(out.push(out[out.len() - distance]), distance, (length - 1) as nat)
    }
}

/// What a match does to the output: the bytes before stay, `length` bytes
/// are added, and each of them equals the byte `distance` places before it,
/// which lies within the output at the time it is read.
pub proof fn lemma_copy_within_output(out: Seq<u8>, distance: int, length: nat)
    requires
        1 <= distance <= out.len(),
    ensures
        lz_copy(out, distance, length).len() == out.len() + length,
        lz_copy(out, distance, length).take(out.len() as int) == out,
        forall|j: int|
            out.len() <= j < out.len() + length ==> 0 <= j - distance < j && #[trigger] lz_copy(
                out,
                distance,
                length,
            )[j] == lz_copy(out, distance, length)[j - distance],
    decreases length,
{
    let all = lz_copy(out, distance, length);
    if length == 0 {
        assert(all.take(out.len() as int) =~= out);
    } else {
        let next = out.push(out[out.len() - distance]);
        lemma_copy_within_output(next, distance, (length - 1) as nat);
        assert(all.take(next.len() as int) == next);
        assert(all.take(out.len() as int) =~= out) by {
            assert forall|i: int| 0 <= i < out.len() implies all[i] == out[i] by {
                assert(all.take(next.len() as int)[i] == next[i]);
            }
        }
        assert forall|j: int| out.len() <= j < out.len() + length implies 0 <= j - distance < j
            && #[trigger] all[j] == all[j - distance] by {
            if j == out.len() {
                assert(all.take(next.len() as int)[j] == next[j]);
                assert(all.take(next.len() as int)[j - distance] == next[j - distance]);
            }
        }
    }
}

/// Reads `count` bits at `pos` as a number, least significant bit first:
/// the number and the position behind it, or `UnexpectedEnd`.
pub open spec fn take_bits(bits: Seq<bool>, pos: int, count: nat) -> Result<(nat, int), DeflateError> {
    if pos + count > bits.len() {
        Err(DeflateError::UnexpectedEnd)
    } else {
        Ok((bits_value(bits, pos, count), pos + count))
    }
}

/// Decodes what follows the length symbol `symbol` of a match: the extra
/// bits of the length, the distance symbol and its extra bits. The result is
/// the length, the distance and the position behind the match. A distance
/// symbol above 29 and a distance beyond the `available` output are
/// `CorruptStream`.
pub open spec fn decode_match(
    distances: Map<Seq<bool>, Option<usize>>,
    bits: Seq<bool>,
    pos: int,
    symbol: usize,
    available: nat,
) -> Result<(nat, int, int), DeflateError> {
    match take_bits(bits, pos, LENGTH_EXTRA_BITS[symbol - 257] as nat) {
        Err(e) => Err(e),
        Ok((length_extra, after_length)) => match decode_symbol(distances, bits, after_length) {
            Err(e) => Err(e),
            Ok((code, after_code)) => if code > 29 {
                Err(DeflateError::CorruptStream)
            } else {
                match take_bits(bits, after_code, DISTANCE_EXTRA_BITS[code as int] as nat) {
                    Err(e) => Err(e),
                    Ok((distance_extra, end)) => {
                        let distance = DISTANCE_BASE[code as int] + distance_extra;
                        if distance > available {
                            Err(DeflateError::CorruptStream)
                        } else {
                            Ok(((LENGTH_BASE[symbol - 257] + length_extra) as nat, distance, end))
                        }
                    },
                }
            },
        },
    }
}

/// Decodes the symbols of a fixed or dynamic block from `pos` on and
/// appends what they stand for to `out`: a symbol below 256 is a byte, 256
/// ends the block, 257 to 285 begin a match, and anything above is
/// `CorruptStream`. The result is the output, and the position behind the
/// end-of-block symbol or the failure.
pub open spec fn inflate_symbols(
    literals: Map<Seq<bool>, Option<usize>>,
    distances: Map<Seq<bool>, Option<usize>>,
    bits: Seq<bool>,
    pos: int,
    out: Seq<u8>,
) -> (Seq<u8>, Result<int, DeflateError>)
    decreases bits.len() - pos,
    via inflate_symbols_decreases
{
    match decode_symbol(literals, bits, pos) {
        Err(e) => (out, Err(e)),
        Ok((symbol, after)) => if symbol < 256 {
            inflate_symbols(literals, distances, bits, after, out.push(symbol as u8))
        } else if symbol == 256 {
            (out, Ok(after))
        } else if symbol > 285 {
            (out, Err(DeflateError::CorruptStream))
        } else {
            match decode_match(distances, bits, after, symbol, out.len()) {
                Err(e) => (out, Err(e)),
                Ok((length, distance, end)) => inflate_symbols(
                    literals,
                    distances,
                    bits,
                    end,
                    lz_copy(out, distance, length),
                ),
            }
        },
    }
}

/// The tables of the lengths and distances are in the order of their
/// symbols: the entry for the length symbol `257 + i`, and for the distance
/// symbol `i`, is entry `i`.
pub proof fn lemma_tables_in_order(i: int)
    ensures
        0 <= i < 29 ==> LENGTH_CODES[i] == 257 + i,
        0 <= i < 30 ==> DISTANCE_CODES[i] == i,
{
}

/// A decoded match has a length from 3 to 258 and a distance from 1 to
/// 32768 that does not reach before the beginning of the output.
pub proof fn lemma_match_within_output(
    distances: Map<Seq<bool>, Option<usize>>,
    bits: Seq<bool>,
    pos: int,
    symbol: usize,
    available: nat,
)
    requires
        257 <= symbol <= 285,
    ensures
        decode_match(distances, bits, pos, symbol, available) matches Ok((length, distance, _)) ==> 3
            <= length <= 258 && 1 <= distance <= available && distance <= 32768,
{
    let length_bits = LENGTH_EXTRA_BITS[symbol - 257] as nat;
    crate::bits::lemma_bits_value_bound(bits, pos, length_bits);
    crate::canonical::lemma_pow2_values();
    match take_bits(bits, pos, length_bits) {
        Err(e) => {},
        Ok((length_extra, after_length)) => {
            match decode_symbol(distances, bits, after_length) {
                Err(e) => {},
                Ok((code, after_code)) => {
                    if code <= 29 {
                        crate::bits::lemma_bits_value_bound(
                            bits,
                            after_code,
                            DISTANCE_EXTRA_BITS[code as int] as nat,
                        );
                    }
                },
            }
        },
    }
}

/// A stored block ends on a byte boundary.
pub proof fn lemma_stored_block_ends_aligned(bits: Seq<bool>, pos: int, out: Seq<u8>)
    ensures
        stored_block(bits, pos, out).1 matches Ok(end) ==> end % 8 == 0 && end >= pos,
{
}

/// A match ends at or behind the position it began at.
pub proof fn lemma_match_advances(
    distances: Map<Seq<bool>, Option<usize>>,
    bits: Seq<bool>,
    pos: int,
    symbol: usize,
    available: nat,
)
    ensures
        decode_match(distances, bits, pos, symbol, available) matches Ok((_, _, end)) ==> pos <= end
            <= bits.len(),
{
    match take_bits(bits, pos, LENGTH_EXTRA_BITS[symbol - 257] as nat) {
        Err(e) => {},
        Ok((length_extra, after_length)) => {
            lemma_walk_advances(distances, bits, after_length, Seq::<bool>::empty());
        },
    }
}

#[via_fn]
proof fn inflate_symbols_decreases(
    literals: Map<Seq<bool>, Option<usize>>,
    distances: Map<Seq<bool>, Option<usize>>,
    bits: Seq<bool>,
    pos: int,
    out: Seq<u8>,
) {
    lemma_walk_advances(literals, bits, pos, Seq::<bool>::empty());
    match decode_symbol(literals, bits, pos) {
        Err(e) => {},
        Ok((symbol, after)) => {
            lemma_match_advances(distances, bits, after, symbol, out.len());
        },
    }
}

/// The lengths of the fixed literal/length codes: 8 bits for the symbols 0
/// to 143, 9 for 144 to 255, 7 for 256 to 279 and 8 for 280 to 287.
pub open spec fn fixed_literal_lengths() -> Seq<u8> {
    Seq::new(
        288,
        |s: int|
            if s < 144 {
                8u8
            } else if s < 256 {
                9u8
            } else if s < 280 {
                7u8
            } else {
                8u8
            },
    )
}

/// The lengths of the fixed distance codes: every code has 5 bits. The
/// thirty distance symbols are followed by two that stand for no distance,
/// so that the codes are the numbers of five bits.
pub open spec fn fixed_distance_lengths() -> Seq<u8> {
    Seq::new(32, |s: int| 5u8)
}

/// The code lengths of the code-length alphabet as a dynamic block lists
/// them: `count` numbers of 3 bits from `pos` on, each for the symbol whose
/// slot it stands in; the symbols beyond `count` have length 0.
pub open spec fn code_length_lengths(bits: Seq<bool>, pos: int, count: nat) -> Seq<u8> {
    Seq::new(
        19,
        |s: int|
            if CODE_LENGTH_SLOT[s] < count {
                bits_value(bits, pos + 3 * CODE_LENGTH_SLOT[s], 3) as u8
            } else {
                0u8
            },
    )
}

/// The code lengths of the code-length alphabet are at most 7, the
/// greatest number of 3 bits.
pub proof fn lemma_code_length_lengths_bound(bits: Seq<bool>, pos: int, count: nat, symbol: int)
    requires
        0 <= symbol < 19,
    ensures
        code_length_lengths(bits, pos, count)[symbol] <= 7,
{
    lemma2_to64();
    crate::bits::lemma_bits_value_bound(bits, pos + 3 * CODE_LENGTH_SLOT[symbol], 3);
}

/// The order in which a dynamic block lists the code lengths of the
/// code-length alphabet.
pub const CODE_LENGTH_ORDER: [usize; 19] = [
    16, 17, 18, 0, 8, 7, 9, 6, 10, 5, 11, 4, 12, 3, 13, 2, 14, 1, 15,
];

/// The slot of a symbol is its place in the order of the code lengths.
pub proof fn lemma_slot_is_place_in_order(place: int)
    requires
        0 <= place < 19,
    ensures
        0 <= CODE_LENGTH_ORDER[place] < 19,
        CODE_LENGTH_SLOT[CODE_LENGTH_ORDER[place] as int] == place,
{
}

/// The number of extra bits that follow the repeat symbol `symbol` (16, 17 or 18).
pub open spec fn repeat_extra_bits(symbol: usize) -> nat {
    if symbol == 16 {
        2
    } else if symbol == 17 {
        3
    } else {
        7
    }
}

/// The smallest number of repetitions that the repeat symbol `symbol` stands for.
pub open spec fn repeat_base(symbol: usize) -> nat {
    if symbol == 18 {
        11
    } else {
        3
    }
}

/// Decodes code lengths with the code-length tree `tree` until `total` of
/// them are there, starting with those in `lengths`. A symbol below 16 is a
/// length; 16 repeats the length before it 3 to 6 times and is
/// `CorruptStream` where there is none; 17 and 18 stand for 3 to 10 and 11
/// to 138 zeros. A repetition that goes beyond `total` is `CorruptStream`.
pub open spec fn read_code_lengths(
    tree: Map<Seq<bool>, Option<usize>>,
    bits: Seq<bool>,
    pos: int,
    total: nat,
    lengths: Seq<u8>,
) -> Result<(Seq<u8>, int), DeflateError>
    decreases bits.len() - pos,
    via read_code_lengths_decreases
{
    if lengths.len() >= total {
        Ok((lengths, pos))
    } else {
        match decode_symbol(tree, bits, pos) {
            Err(e) => Err(e),
            Ok((symbol, after)) => if symbol < 16 {
                read_code_lengths(tree, bits, after, total, lengths.push(symbol as u8))
            } else if symbol > 18 {
                Err(DeflateError::CorruptStream)
            } else if symbol == 16 && lengths.len() == 0 {
                Err(DeflateError::CorruptStream)
            } else {
                match take_bits(bits, after, repeat_extra_bits(symbol)) {
                    Err(e) => Err(e),
                    Ok((extra, end)) => {
                        let count = repeat_base(symbol) + extra;
                        let value = if symbol == 16 {
                            lengths.last()
                        } else {
                            0u8
                        };
                        if lengths.len() + count > total {
                            Err(DeflateError::CorruptStream)
                        } else {
                            read_code_lengths(
                                tree,
                                bits,
                                end,
                                total,
                                lengths + Seq::new(count, |i: int| value),
                            )
                        }
                    },
                }
            },
        }
    }
}

#[via_fn]
proof fn read_code_lengths_decreases(
    tree: Map<Seq<bool>, Option<usize>>,
    bits: Seq<bool>,
    pos: int,
    total: nat,
    lengths: Seq<u8>,
) {
    lemma_walk_advances(tree, bits, pos, Seq::<bool>::empty());
}

/// Code lengths are read at a position at or behind the one they began at.
pub proof fn lemma_code_lengths_advance(
    tree: Map<Seq<bool>, Option<usize>>,
    bits: Seq<bool>,
    pos: int,
    total: nat,
    lengths: Seq<u8>,
)
    ensures
        read_code_lengths(tree, bits, pos, total, lengths) matches Ok((all, end)) ==> pos <= end
            && all.len() >= total && (lengths.len() <= total ==> all.len() == total),
    decreases bits.len() - pos,
{
    if lengths.len() < total {
        lemma_walk_advances(tree, bits, pos, Seq::<bool>::empty());
        match decode_symbol(tree, bits, pos) {
            Err(e) => {},
            Ok((symbol, after)) => {
                if symbol < 16 {
                    lemma_code_lengths_advance(tree, bits, after, total, lengths.push(symbol as u8));
                } else if symbol > 18 {
                } else if symbol == 16 && lengths.len() == 0 {
                } else {
                    match take_bits(bits, after, repeat_extra_bits(symbol)) {
                        Err(e) => {},
                        Ok((extra, end)) => {
                            let count = repeat_base(symbol) + extra;
                            let value = if symbol == 16 {
                                lengths.last()
                            } else {
                                0u8
                            };
                            if lengths.len() + count <= total {
                                lemma_code_lengths_advance(
                                    tree,
                                    bits,
                                    end,
                                    total,
                                    lengths + Seq::new(count, |i: int| value),
                                );
                            }
                        },
                    }
                }
            },
        }
    }
}

/// A stored block whose header ends at `pos`: behind the next byte
/// boundary stand `LEN` and `NLEN`, 16 bits each, and `LEN` bytes that are
/// appended to `out` as they are. `NLEN` other than `LEN` with every bit
/// inverted is `CorruptStream`.
pub open spec fn stored_block(bits: Seq<bool>, pos: int, out: Seq<u8>) -> (
    Seq<u8>,
    Result<int, DeflateError>,
) {
    let start = byte_boundary(pos);
    if start + 32 > bits.len() {
        (out, Err(DeflateError::UnexpectedEnd))
    } else {
        let len = bits_value(bits, start, 16) as u16;
        let nlen = bits_value(bits, start + 16, 16) as u16;
        if nlen != len ^ 0xFFFFu16 {
            (out, Err(DeflateError::CorruptStream))
        } else if start + 32 + 8 * len > bits.len() {
            (out, Err(DeflateError::UnexpectedEnd))
        } else {
            (out + bits_bytes(bits, start + 32, len as nat), Ok(start + 32 + 8 * len))
        }
    }
}

/// A block of the fixed codes whose header ends at `pos`.
pub open spec fn fixed_block(bits: Seq<bool>, pos: int, out: Seq<u8>) -> (
    Seq<u8>,
    Result<int, DeflateError>,
) {
    inflate_symbols(
        canonical_tree(fixed_literal_lengths()),
        canonical_tree(fixed_distance_lengths()),
        bits,
        pos,
        out,
    )
}

/// A block of dynamic codes whose header ends at `pos`: `HLIT`, `HDIST`
/// and `HCLEN` in 5, 5 and 4 bits, the `HCLEN + 4` lengths of the
/// code-length codes, the `HLIT + 257` literal/length and `HDIST + 1`
/// distance code lengths, and the symbols. Code lengths that give no valid
/// set of codes are `CorruptStream`.
pub open spec fn dynamic_block(bits: Seq<bool>, pos: int, out: Seq<u8>) -> (
    Seq<u8>,
    Result<int, DeflateError>,
) {
    if pos + 14 > bits.len() {
        (out, Err(DeflateError::UnexpectedEnd))
    } else {
        let literal_count = bits_value(bits, pos, 5) + 257;
        let distance_count = bits_value(bits, pos + 5, 5) + 1;
        let length_count = bits_value(bits, pos + 10, 4) + 4;
        let lengths_end = pos + 14 + 3 * length_count;
        if lengths_end > bits.len() {
            (out, Err(DeflateError::UnexpectedEnd))
        } else {
            let code_lengths = code_length_lengths(bits, pos + 14, length_count);
            if !valid_code_lengths(code_lengths) {
                (out, Err(DeflateError::CorruptStream))
            } else {
                match read_code_lengths(
                    canonical_tree(code_lengths),
                    bits,
                    lengths_end,
                    literal_count + distance_count,
                    Seq::<u8>::empty(),
                ) {
                    Err(e) => (out, Err(e)),
                    Ok((lengths, after)) => {
                        let literals = lengths.take(literal_count as int);
                        let distances = lengths.skip(literal_count as int);
                        if !valid_code_lengths(literals) || !valid_code_lengths(distances) {
                            (out, Err(DeflateError::CorruptStream))
                        } else {
                            inflate_symbols(
                                canonical_tree(literals),
                                canonical_tree(distances),
                                bits,
                                after,
                                out,
                            )
                        }
                    },
                }
            }
        }
    }
}

/// The block whose header, of 3 bits, ends at `pos`, by its type.
#[verifier::opaque]
pub open spec fn block_body(bits: Seq<bool>, pos: int, kind: nat, out: Seq<u8>) -> (
    Seq<u8>,
    Result<int, DeflateError>,
) {
    if kind == 0 {
        stored_block(bits, pos, out)
    } else if kind == 1 {
        fixed_block(bits, pos, out)
    } else if kind == 2 {
        dynamic_block(bits, pos, out)
    } else {
        (out, Err(DeflateError::InvalidBlockType))
    }
}

/// The block whose header begins at `pos`: its first bit marks the last
/// block, the two bits behind it give the type.
pub open spec fn block_at(bits: Seq<bool>, pos: int, out: Seq<u8>) -> (
    Seq<u8>,
    Result<int, DeflateError>,
) {
    if pos < 0 || pos + 3 > bits.len() {
        (out, Err(DeflateError::UnexpectedEnd))
    } else {
        block_body(bits, pos + 3, bits_value(bits, pos + 1, 2), out)
    }
}

/// Inflates the blocks from `pos` on, up to and with the first one that is
/// marked as the last, appending to `out`. The result is the output, and
/// the position behind the last block or the failure; on failure the
/// output is what had been produced before.
pub open spec fn inflate_blocks(bits: Seq<bool>, pos: int, out: Seq<u8>) -> (
    Seq<u8>,
    Result<int, DeflateError>,
)
    decreases bits.len() - pos,
    via inflate_blocks_decreases
{
    let body = block_at(bits, pos, out);
    match body.1 {
        Err(e) => body,
        Ok(end) => if bits[pos] {
            body
        } else {
            inflate_blocks(bits, end, body.0)
        },
    }
}

/// The symbols of a block end behind the position they began at.
pub proof fn lemma_symbols_advance(
    literals: Map<Seq<bool>, Option<usize>>,
    distances: Map<Seq<bool>, Option<usize>>,
    bits: Seq<bool>,
    pos: int,
    out: Seq<u8>,
)
    ensures
        inflate_symbols(literals, distances, bits, pos, out).1 matches Ok(end) ==> pos < end
            <= bits.len(),
    decreases bits.len() - pos,
{
    lemma_walk_advances(literals, bits, pos, Seq::<bool>::empty());
    match decode_symbol(literals, bits, pos) {
        Err(e) => {},
        Ok((symbol, after)) => {
            if symbol < 256 {
                lemma_symbols_advance(literals, distances, bits, after, out.push(symbol as u8));
            } else if symbol == 256 {
            } else if symbol > 285 {
            } else {
                lemma_match_advances(distances, bits, after, symbol, out.len());
                match decode_match(distances, bits, after, symbol, out.len()) {
                    Err(e) => {},
                    Ok((length, distance, end)) => {
                        lemma_symbols_advance(
                            literals,
                            distances,
                            bits,
                            end,
                            lz_copy(out, distance, length),
                        );
                    },
                }
            }
        },
    }
}

/// A block ends at or behind the position its body began at.
pub proof fn lemma_block_advances(bits: Seq<bool>, pos: int, kind: nat, out: Seq<u8>)
    requires
        pos >= 0,
    ensures
        block_body(bits, pos, kind, out).1 matches Ok(end) ==> pos <= end <= bits.len(),
{
    reveal(block_body);
    if kind == 0 {
    } else if kind == 1 {
        lemma_symbols_advance(
            canonical_tree(fixed_literal_lengths()),
            canonical_tree(fixed_distance_lengths()),
            bits,
            pos,
            out,
        );
    } else if kind == 2 {
        if pos + 14 <= bits.len() {
            let literal_count = bits_value(bits, pos, 5) + 257;
            let distance_count = bits_value(bits, pos + 5, 5) + 1;
            let length_count = bits_value(bits, pos + 10, 4) + 4;
            let lengths_end = pos + 14 + 3 * length_count;
            let code_lengths = code_length_lengths(bits, pos + 14, length_count);
            lemma_code_lengths_advance(
                canonical_tree(code_lengths),
                bits,
                lengths_end,
                literal_count + distance_count,
                Seq::<u8>::empty(),
            );
            match read_code_lengths(
                canonical_tree(code_lengths),
                bits,
                lengths_end,
                literal_count + distance_count,
                Seq::<u8>::empty(),
            ) {
                Err(e) => {},
                Ok((lengths, after)) => {
                    lemma_symbols_advance(
                        canonical_tree(lengths.take(literal_count as int)),
                        canonical_tree(lengths.skip(literal_count as int)),
                        bits,
                        after,
                        out,
                    );
                },
            }
        }
    }
}

#[via_fn]
proof fn inflate_blocks_decreases(bits: Seq<bool>, pos: int, out: Seq<u8>) {
    if pos >= 0 && pos + 3 <= bits.len() {
        lemma_block_advances(bits, pos + 3, bits_value(bits, pos + 1, 2), out);
    }
}

/// The fixed code lengths give valid sets of codes, and the table of the
/// fixed literal/length code lengths holds them.
pub proof fn lemma_fixed_lengths_valid()
    ensures
        valid_code_lengths(fixed_literal_lengths()),
        valid_code_lengths(fixed_distance_lengths()),
        FIXED_CODE_LENGTHS@ == fixed_literal_lengths(),
{
    lemma2_to64();
    let none = Seq::<u8>::empty();
    let a = none + run(8, 144);
    let b = a + run(9, 112);
    let c = b + run(7, 24);
    let d = c + run(8, 8);
    lemma_append_run(none, 8, 144);
    lemma_append_run(a, 9, 112);
    lemma_append_run(b, 7, 24);
    lemma_append_run(c, 8, 8);
    assert(d =~= fixed_literal_lengths());
    assert(kraft_sum(none) == 0);
    assert(kraft_sum(fixed_literal_lengths()) == 32768);
    lemma_append_run(none, 5, 32);
    assert(none + run(5, 32) =~= fixed_distance_lengths());
    assert(kraft_sum(fixed_distance_lengths()) == 32768);
    assert(FIXED_CODE_LENGTHS@ =~= fixed_literal_lengths());
}

/// The tree of the fixed literal/length codes.
pub fn fixed_literal_tree() -> (tree: PrefixTree)
    ensures
        tree.wf(),
        tree@ == canonical_tree(fixed_literal_lengths()),
        tree.position() == Seq::<bool>::empty(),
{
    proof {
        lemma_fixed_lengths_valid();
    }
    let lengths = FIXED_CODE_LENGTHS;
    match PrefixTree::from_lengths(lengths.as_slice()) {
        Ok(tree) => tree,
        Err(_) => vstd::pervasive::unreached(),
    }
}

/// The tree of the fixed distance codes.
pub fn fixed_distance_tree() -> (tree: PrefixTree)
    ensures
        tree.wf(),
        tree@ == canonical_tree(fixed_distance_lengths()),
        tree.position() == Seq::<bool>::empty(),
{
    proof {
        lemma_fixed_lengths_valid();
    }
    let mut lengths: Vec<u8> = Vec::new();
    let mut s: usize = 0;
    while s < 32
        invariant
            s <= 32,
            lengths@ == Seq::new(s as nat, |i: int| 5u8),
        decreases 32 - s,
    {
        lengths.push(5);
        s += 1;
        assert(lengths@ =~= Seq::new(s as nat, |i: int| 5u8));
    }
    match PrefixTree::from_lengths(lengths.as_slice()) {
        Ok(tree) => tree,
        Err(_) => vstd::pervasive::unreached(),
    }
}

/// Appends a match to the output: `length` bytes, each a copy of the byte
/// that lies `distance` bytes before the end at the time it is copied.
pub fn copy_match(out: &mut Vec<u8>, distance: usize, length: usize)
    requires
        1 <= distance <= old(out)@.len(),
    ensures
        final(out)@ == lz_copy(old(out)@, distance as int, length as nat),
{
    let mut k: usize = 0;
    while k < length
        invariant
            k <= length,
            1 <= distance <= out@.len(),
            lz_copy(out@, distance as int, (length - k) as nat) == lz_copy(
                old(out)@,
                distance as int,
                length as nat,
            ),
        decreases length - k,
    {
        let byte = out[out.len() - distance];
        out.push(byte);
        k += 1;
    }
}

/// Decodes what follows the length symbol `symbol` of a match, for an
/// output of `available` bytes: the length and the distance of the match.
pub fn read_match(
    bitstream: &mut BitVector64,
    distances: &mut PrefixTree,
    symbol: usize,
    available: usize,
) -> (r: Result<(usize, usize), DeflateError>)
    requires
        old(bitstream).wf(),
        old(distances).wf(),
        old(distances).position() == Seq::<bool>::empty(),
        257 <= symbol <= 285,
    ensures
        final(bitstream).wf(),
        final(bitstream).buffer == old(bitstream).buffer,
        final(bitstream).len == old(bitstream).len,
        final(distances).wf(),
        final(distances)@ == old(distances)@,
        final(distances).position() == Seq::<bool>::empty(),
        match decode_match(
            old(distances)@,
            old(bitstream).bits(),
            old(bitstream).idx as int,
            symbol,
            available as nat,
        ) {
            Ok((length, distance, end)) => r == Ok::<(usize, usize), DeflateError>(
                (length as usize, distance as usize),
            ) && final(bitstream).idx == end && 1 <= distance <= available && 3 <= length <= 258,
            Err(e) => r == Err::<(usize, usize), DeflateError>(e),
        },
{
    let ghost bits = bitstream.bits();
    let ghost pos = bitstream.idx as int;
    let ghost codes = distances@;
    proof {
        lemma_match_within_output(codes, bits, pos, symbol, available as nat);
    }
    let length_bits = LENGTH_EXTRA_BITS[symbol - 257];
    let length_base = LENGTH_BASE[symbol - 257];
    assert(length_bits <= 5 && length_base <= 258);
    let length_extra = match bitstream.read_bits(length_bits) {
        Ok(value) => value,
        Err(e) => {
            assert(take_bits(bits, pos, length_bits as nat) is Err);
            return Err(e);
        },
    };
    let ghost after_length = bitstream.idx as int;
    proof {
        crate::bits::lemma_bits_value_bound(bits, pos, length_bits as nat);
        crate::canonical::lemma_pow2_le_32(length_bits as nat);
        assert(take_bits(bits, pos, length_bits as nat) == Ok::<(nat, int), DeflateError>(
            (length_extra as nat, after_length),
        ));
    }
    let code = match bitstream.read_huffman(distances) {
        Ok(value) => value,
        Err(e) => {
            assert(decode_symbol(codes, bits, after_length) == Err::<(usize, int), DeflateError>(e));
            return Err(e);
        },
    };
    let ghost after_code = bitstream.idx as int;
    assert(decode_symbol(codes, bits, after_length) == Ok::<(usize, int), DeflateError>(
        (code, after_code),
    ));
    if code > 29 {
        return Err(DeflateError::CorruptStream);
    }
    let distance_bits = DISTANCE_EXTRA_BITS[code];
    let distance_base = DISTANCE_BASE[code];
    assert(distance_bits <= 13 && distance_base >= 1);
    let distance_extra = match bitstream.read_bits(distance_bits) {
        Ok(value) => value,
        Err(e) => {
            assert(take_bits(bits, after_code, distance_bits as nat) is Err);
            return Err(e);
        },
    };
    proof {
        crate::bits::lemma_bits_value_bound(bits, after_code, distance_bits as nat);
        crate::canonical::lemma_pow2_le_65536(distance_bits as nat);
        assert(take_bits(bits, after_code, distance_bits as nat) == Ok::<(nat, int), DeflateError>(
            (distance_extra as nat, bitstream.idx as int),
        ));
    }
    let distance = distance_base as usize + distance_extra as usize;
    if distance > available {
        return Err(DeflateError::CorruptStream);
    }
    let length = length_base as usize + length_extra as usize;
    Ok((length, distance))
}

/// Decodes the symbols of a block with the given trees and appends what
/// they stand for to `out`, up to and with the end-of-block symbol.
pub fn read_symbols(
    bitstream: &mut BitVector64,
    literals: &mut PrefixTree,
    distances: &mut PrefixTree,
    out: &mut Vec<u8>,
) -> (r: Result<(), DeflateError>)
    requires
        old(bitstream).wf(),
        old(literals).wf(),
        old(distances).wf(),
        old(literals).position() == Seq::<bool>::empty(),
        old(distances).position() == Seq::<bool>::empty(),
    ensures
        final(bitstream).wf(),
        final(bitstream).buffer == old(bitstream).buffer,
        final(bitstream).len == old(bitstream).len,
        final(literals).wf(),
        final(distances).wf(),
        final(literals)@ == old(literals)@,
        final(distances)@ == old(distances)@,
        final(literals).position() == Seq::<bool>::empty(),
        final(distances).position() == Seq::<bool>::empty(),
        ({
            let all = inflate_symbols(
                old(literals)@,
                old(distances)@,
                old(bitstream).bits(),
                old(bitstream).idx as int,
                old(out)@,
            );
            &&& final(out)@ == all.0
            &&& match all.1 {
                Ok(end) => r is Ok && final(bitstream).idx == end,
                Err(e) => r == Err::<(), DeflateError>(e),
            }
        }),
{
    let ghost whole = inflate_symbols(
        old(literals)@,
        old(distances)@,
        old(bitstream).bits(),
        old(bitstream).idx as int,
        old(out)@,
    );
    let ghost lit = literals@;
    let ghost dist = distances@;
    let ghost bits = bitstream.bits();
    loop
        invariant
            bitstream.wf(),
            bitstream.buffer == old(bitstream).buffer,
            bitstream.len == old(bitstream).len,
            bits == bitstream.bits(),
            literals.wf(),
            distances.wf(),
            literals@ == lit,
            distances@ == dist,
            lit == old(literals)@,
            dist == old(distances)@,
            literals.position() == Seq::<bool>::empty(),
            distances.position() == Seq::<bool>::empty(),
            inflate_symbols(lit, dist, bits, bitstream.idx as int, out@) == whole,
            whole == inflate_symbols(
                old(literals)@,
                old(distances)@,
                old(bitstream).bits(),
                old(bitstream).idx as int,
                old(out)@,
            ),
        decreases bitstream.len - bitstream.idx,
    {
        let ghost pos = bitstream.idx as int;
        let ghost before = out@;
        proof {
            lemma_walk_advances(lit, bits, pos, Seq::<bool>::empty());
        }
        let symbol = match bitstream.read_huffman(literals) {
            Ok(symbol) => symbol,
            Err(e) => {
                assert(inflate_symbols(lit, dist, bits, pos, before) == (before, Err::<int, DeflateError>(e)));
                return Err(e);
            },
        };
        let ghost after = bitstream.idx as int;
        assert(decode_symbol(lit, bits, pos) == Ok::<(usize, int), DeflateError>((symbol, after)));
        if symbol < 256 {
            out.push(symbol as u8);
            assert(inflate_symbols(lit, dist, bits, pos, before) == inflate_symbols(
                lit,
                dist,
                bits,
                after,
                before.push(symbol as u8),
            ));
        } else if symbol == 256 {
            assert(inflate_symbols(lit, dist, bits, pos, before) == (before, Ok::<int, DeflateError>(after)));
            return Ok(());
        } else if symbol > 285 {
            assert(inflate_symbols(lit, dist, bits, pos, before) == (
                before,
                Err::<int, DeflateError>(DeflateError::CorruptStream),
            ));
            return Err(DeflateError::CorruptStream);
        } else {
            proof {
                lemma_match_advances(dist, bits, after, symbol, before.len());
            }
            match read_match(bitstream, distances, symbol, out.len()) {
                Ok((length, distance)) => {
                    copy_match(out, distance, length);
                    assert(inflate_symbols(lit, dist, bits, pos, before) == inflate_symbols(
                        lit,
                        dist,
                        bits,
                        bitstream.idx as int,
                        out@,
                    ));
                },
                Err(e) => {
                    assert(inflate_symbols(lit, dist, bits, pos, before) == (
                        before,
                        Err::<int, DeflateError>(e),
                    ));
                    return Err(e);
                },
            }
        }
    }
}

/// Reads the code lengths of the code-length alphabet: `count` numbers of
/// 3 bits, each put in the place of the symbol that its slot stands for.
pub fn read_code_length_lengths(bitstream: &mut BitVector64, count: usize) -> (r: Result<
    Vec<u8>,
    DeflateError,
>)
    requires
        old(bitstream).wf(),
        count <= 19,
    ensures
        final(bitstream).wf(),
        final(bitstream).buffer == old(bitstream).buffer,
        final(bitstream).len == old(bitstream).len,
        old(bitstream).idx + 3 * count <= old(bitstream).len ==> r is Ok && r->Ok_0@
            == code_length_lengths(old(bitstream).bits(), old(bitstream).idx as int, count as nat)
            && final(bitstream).idx == old(bitstream).idx + 3 * count,
        old(bitstream).idx + 3 * count > old(bitstream).len ==> r is Err && r->Err_0
            == DeflateError::UnexpectedEnd,
{
    if 3 * count > bitstream.len - bitstream.idx {
        return Err(DeflateError::UnexpectedEnd);
    }
    let ghost start = bitstream.idx as int;
    let mut listed: Vec<u8> = Vec::new();
    let mut i: usize = 0;
    while i < 19
        invariant
            i <= 19,
            count <= 19,
            bitstream.wf(),
            bitstream.buffer == old(bitstream).buffer,
            bitstream.len == old(bitstream).len,
            start == old(bitstream).idx,
            start + 3 * count <= bitstream.len,
            bitstream.idx == start + 3 * (if i < count {
                i
            } else {
                count
            }),
            listed@.len() == i,
            forall|k: int|
                0 <= k < i ==> listed@[k] == (if k < count {
                    bits_value(bitstream.bits(), start + 3 * k, 3) as u8
                } else {
                    0u8
                }),
        decreases 19 - i,
    {
        if i < count {
            let value = match bitstream.read_bits(3) {
                Ok(value) => value,
                Err(e) => {
                    return Err(e);
                },
            };
            proof {
                crate::bits::lemma_bits_value_bound(bitstream.bits(), start + 3 * i, 3);
                lemma2_to64();
            }
            listed.push(value as u8);
        } else {
            listed.push(0);
        }
        i += 1;
    }
    let mut lengths: Vec<u8> = Vec::new();
    let mut s: usize = 0;
    while s < 19
        invariant
            s <= 19,
            listed@.len() == 19,
            lengths@.len() == s,
            forall|k: int| 0 <= k < s ==> lengths@[k] == listed@[CODE_LENGTH_SLOT[k] as int],
        decreases 19 - s,
    {
        lengths.push(listed[CODE_LENGTH_SLOT[s]]);
        s += 1;
    }
    proof {
        assert(lengths@ =~= code_length_lengths(old(bitstream).bits(), start, count as nat));
    }
    Ok(lengths)
}

/// Decodes `total` code lengths with the code-length tree `tree`.
pub fn read_lengths(bitstream: &mut BitVector64, tree: &mut PrefixTree, total: usize) -> (r: Result<
    Vec<u8>,
    DeflateError,
>)
    requires
        old(bitstream).wf(),
        old(tree).wf(),
        old(tree).position() == Seq::<bool>::empty(),
    ensures
        final(bitstream).wf(),
        final(bitstream).buffer == old(bitstream).buffer,
        final(bitstream).len == old(bitstream).len,
        final(tree).wf(),
        final(tree)@ == old(tree)@,
        final(tree).position() == Seq::<bool>::empty(),
        match read_code_lengths(
            old(tree)@,
            old(bitstream).bits(),
            old(bitstream).idx as int,
            total as nat,
            Seq::<u8>::empty(),
        ) {
            Ok((all, end)) => r is Ok && r->Ok_0@ == all && final(bitstream).idx == end,
            Err(e) => r == Err::<Vec<u8>, DeflateError>(e),
        },
{
    let mut lengths: Vec<u8> = Vec::new();
    while lengths.len() < total
        invariant
            bitstream.wf(),
            bitstream.buffer == old(bitstream).buffer,
            bitstream.len == old(bitstream).len,
            tree.wf(),
            tree@ == old(tree)@,
            tree.position() == Seq::<bool>::empty(),
            lengths@.len() <= total,
            read_code_lengths(tree@, bitstream.bits(), bitstream.idx as int, total as nat, lengths@)
                == read_code_lengths(
                old(tree)@,
                old(bitstream).bits(),
                old(bitstream).idx as int,
                total as nat,
                Seq::<u8>::empty(),
            ),
        decreases bitstream.len - bitstream.idx,
    {
        let ghost pos = bitstream.idx as int;
        let ghost bits = bitstream.bits();
        let ghost codes = tree@;
        proof {
            lemma_walk_advances(codes, bits, pos, Seq::<bool>::empty());
        }
        let symbol = match bitstream.read_huffman(tree) {
            Ok(value) => value,
            Err(e) => {
                return Err(e);
            },
        };
        assert(decode_symbol(codes, bits, pos) == Ok::<(usize, int), DeflateError>(
            (symbol, bitstream.idx as int),
        ));
        if symbol < 16 {
            lengths.push(symbol as u8);
        } else if symbol > 18 {
            return Err(DeflateError::CorruptStream);
        } else if symbol == 16 && lengths.len() == 0 {
            return Err(DeflateError::CorruptStream);
        } else {
            let extra_bits: u8 = if symbol == 16 {
                2
            } else if symbol == 17 {
                3
            } else {
                7
            };
            let base: usize = if symbol == 18 {
                11
            } else {
                3
            };
            let ghost after = bitstream.idx as int;
            let extra = match bitstream.read_bits(extra_bits) {
                Ok(value) => value,
                Err(e) => {
                    return Err(e);
                },
            };
            assert(take_bits(bits, after, repeat_extra_bits(symbol)) == Ok::<(nat, int), DeflateError>(
                (extra as nat, bitstream.idx as int),
            )) by {
                crate::bits::lemma_bits_value_bound(bits, after, extra_bits as nat);
                crate::canonical::lemma_pow2_le_65536(extra_bits as nat);
            }
            let count = base + extra as usize;
            let value = if symbol == 16 {
                lengths[lengths.len() - 1]
            } else {
                0
            };
            if count > total - lengths.len() {
                return Err(DeflateError::CorruptStream);
            }
            let ghost before = lengths@;
            let mut c: usize = 0;
            while c < count
                invariant
                    c <= count,
                    lengths@ == before + Seq::new(c as nat, |i: int| value),
                decreases count - c,
            {
                lengths.push(value);
                c += 1;
                assert(lengths@ =~= before + Seq::new(c as nat, |i: int| value));
            }
        }
    }
    Ok(lengths)
}

/// A DEFLATE stream that is being inflated: the compressed bytes, the
/// bits read from them, and the output produced so far.
pub struct DeflateData {
    compressed: Vec<u8>,
    decompressed: Vec<u8>,
    bitstream: BitVector64,
    finished: bool,
    failure: Option<DeflateError>,
    fixed_literals: PrefixTree,
    fixed_distances: PrefixTree,
}

impl DeflateData {
    /// The bit stream holds the bits of the compressed bytes, and the trees
    /// of the fixed codes are in place.
    pub closed spec fn wf(&self) -> bool {
        &&& self.bitstream.wf()
        &&& self.bitstream.bits() == byte_bits(self.compressed@)
        &&& self.fixed_literals.wf()
        &&& self.fixed_distances.wf()
        &&& self.fixed_literals@ == canonical_tree(fixed_literal_lengths())
        &&& self.fixed_distances@ == canonical_tree(fixed_distance_lengths())
        &&& self.fixed_literals.position() == Seq::<bool>::empty()
        &&& self.fixed_distances.position() == Seq::<bool>::empty()
    }

    /// The compressed bytes.
    pub closed spec fn input(&self) -> Seq<u8> {
        self.compressed@
    }

    /// The output produced so far.
    pub closed spec fn produced(&self) -> Seq<u8> {
        self.decompressed@
    }

    /// The position of the next bit to read.
    pub closed spec fn cursor(&self) -> int {
        self.bitstream.idx as int
    }

    /// Whether the last block has been inflated.
    pub closed spec fn done(&self) -> bool {
        self.finished
    }

    /// The failure that ended the inflating, if there was one.
    pub closed spec fn failed(&self) -> Option<DeflateError> {
        self.failure
    }

    /// What inflating gives from the state the stream is in: the output, and
    /// the position behind the last block or the failure.
    pub open spec fn outcome(&self) -> (Seq<u8>, Result<int, DeflateError>) {
        if let Some(e) = self.failed() {
            (self.produced(), Err(e))
        } else if self.done() {
            (self.produced(), Ok(self.cursor()))
        } else {
            inflate_blocks(byte_bits(self.input()), self.cursor(), self.produced())
        }
    }

    /// Prepares the inflating of `compressed`, which begins with the header
    /// of the first block.
    pub fn build(compressed: &[u8]) -> (data: Self)
        requires
            compressed@.len() * 8 <= usize::MAX,
        ensures
            data.wf(),
            data.input() == compressed@,
            data.produced() == Seq::<u8>::empty(),
            data.cursor() == 0,
            !data.done(),
            data.failed() is None,
    {
        let bitstream = BitVector64::from_be_bytes(compressed);
        Self {
            compressed: vstd::slice::slice_to_vec(compressed),
            decompressed: Vec::new(),
            bitstream,
            finished: false,
            failure: None,
            fixed_literals: fixed_literal_tree(),
            fixed_distances: fixed_distance_tree(),
        }
    }

    /// The output produced so far.
    pub fn output(&self) -> (out: &Vec<u8>)
        ensures
            out@ == self.produced(),
    {
        &self.decompressed
    }

    /// The position of the next bit to read.
    pub fn position(&self) -> (pos: usize)
        ensures
            pos == self.cursor(),
    {
        self.bitstream.idx
    }

    /// Whether the last block has been inflated.
    pub fn is_finished(&self) -> (done: bool)
        ensures
            done == self.done(),
    {
        self.finished
    }

    /// Inflates the body of a stored block.
    pub fn block_type_0(&mut self) -> (r: Result<(), DeflateError>)
        requires
            old(self).wf(),
        ensures
            final(self).wf(),
            final(self).input() == old(self).input(),
            final(self).done() == old(self).done(),
            final(self).failed() == old(self).failed(),
            ({
                let body = stored_block(
                    byte_bits(old(self).input()),
                    old(self).cursor(),
                    old(self).produced(),
                );
                &&& final(self).produced() == body.0
                &&& match body.1 {
                    Ok(end) => r is Ok && final(self).cursor() == end,
                    Err(e) => r == Err::<(), DeflateError>(e),
                }
            }),
    {
        let ghost pos = self.bitstream.idx as int;
        self.bitstream.align_to_byte();
        let ghost start = byte_boundary(pos);
        let len = match self.bitstream.read_bits(16) {
            Ok(value) => value,
            Err(e) => {
                return Err(e);
            },
        };
        let nlen = match self.bitstream.read_bits(16) {
            Ok(value) => value,
            Err(e) => {
                return Err(e);
            },
        };
        assert(self.bitstream.idx == start + 32);
        if nlen != len ^ 0xFFFF {
            return Err(DeflateError::CorruptStream);
        }
        let bytes = match self.bitstream.read_bytes(len as usize) {
            Ok(value) => value,
            Err(e) => {
                return Err(e);
            },
        };
        let ghost before = self.decompressed@;
        let mut k: usize = 0;
        while k < bytes.len()
            invariant
                k <= bytes@.len(),
                self.decompressed@ == before + bytes@.take(k as int),
                self.wf(),
                self.compressed == old(self).compressed,
                self.bitstream.idx == start + 32 + 8 * len,
                self.finished == old(self).finished,
                self.failure == old(self).failure,
            decreases bytes@.len() - k,
        {
            self.decompressed.push(bytes[k]);
            k += 1;
            assert(self.decompressed@ =~= before + bytes@.take(k as int));
        }
        assert(bytes@.take(bytes@.len() as int) =~= bytes@);
        Ok(())
    }

    /// Inflates the body of a block of the fixed codes.
    pub fn block_type_1(&mut self) -> (r: Result<(), DeflateError>)
        requires
            old(self).wf(),
        ensures
            final(self).wf(),
            final(self).input() == old(self).input(),
            final(self).done() == old(self).done(),
            final(self).failed() == old(self).failed(),
            ({
                let body = fixed_block(
                    byte_bits(old(self).input()),
                    old(self).cursor(),
                    old(self).produced(),
                );
                &&& final(self).produced() == body.0
                &&& match body.1 {
                    Ok(end) => r is Ok && final(self).cursor() == end,
                    Err(e) => r == Err::<(), DeflateError>(e),
                }
            }),
    {
        read_symbols(
            &mut self.bitstream,
            &mut self.fixed_literals,
            &mut self.fixed_distances,
            &mut self.decompressed,
        )
    }

    /// Inflates the body of a block of dynamic codes.
    pub fn block_type_2(&mut self) -> (r: Result<(), DeflateError>)
        requires
            old(self).wf(),
        ensures
            final(self).wf(),
            final(self).input() == old(self).input(),
            final(self).done() == old(self).done(),
            final(self).failed() == old(self).failed(),
            ({
                let body = dynamic_block(
                    byte_bits(old(self).input()),
                    old(self).cursor(),
                    old(self).produced(),
                );
                &&& final(self).produced() == body.0
                &&& match body.1 {
                    Ok(end) => r is Ok && final(self).cursor() == end,
                    Err(e) => r == Err::<(), DeflateError>(e),
                }
            }),
    {
        let ghost bits = self.bitstream.bits();
        let ghost pos = self.bitstream.idx as int;
        let hlit = match self.bitstream.read_bits(5) {
            Ok(value) => value,
            Err(e) => {
                return Err(e);
            },
        };
        let hdist = match self.bitstream.read_bits(5) {
            Ok(value) => value,
            Err(e) => {
                return Err(e);
            },
        };
        let hclen = match self.bitstream.read_bits(4) {
            Ok(value) => value,
            Err(e) => {
                return Err(e);
            },
        };
        proof {
            lemma2_to64();
            crate::bits::lemma_bits_value_bound(bits, pos, 5);
            crate::bits::lemma_bits_value_bound(bits, pos + 5, 5);
            crate::bits::lemma_bits_value_bound(bits, pos + 10, 4);
        }
        let literal_count = hlit as usize + 257;
        let distance_count = hdist as usize + 1;
        let length_count = hclen as usize + 4;
        let code_lengths = match read_code_length_lengths(&mut self.bitstream, length_count) {
            Ok(value) => value,
            Err(e) => {
                return Err(e);
            },
        };
        let mut length_tree = match PrefixTree::from_lengths(code_lengths.as_slice()) {
            Ok(value) => value,
            Err(e) => {
                return Err(e);
            },
        };
        let lengths = match read_lengths(
            &mut self.bitstream,
            &mut length_tree,
            literal_count + distance_count,
        ) {
            Ok(value) => value,
            Err(e) => {
                return Err(e);
            },
        };
        proof {
            lemma_code_lengths_advance(
                canonical_tree(code_lengths@),
                bits,
                pos + 14 + 3 * length_count,
                (literal_count + distance_count) as nat,
                Seq::<u8>::empty(),
            );
        }
        let literal_lengths = vstd::slice::slice_subrange(lengths.as_slice(), 0, literal_count);
        let distance_lengths = vstd::slice::slice_subrange(
            lengths.as_slice(),
            literal_count,
            lengths.len(),
        );
        let mut literals = match PrefixTree::from_lengths(literal_lengths) {
            Ok(value) => value,
            Err(e) => {
                return Err(e);
            },
        };
        let mut distances = match PrefixTree::from_lengths(distance_lengths) {
            Ok(value) => value,
            Err(e) => {
                return Err(e);
            },
        };
        read_symbols(&mut self.bitstream, &mut literals, &mut distances, &mut self.decompressed)
    }

    /// Inflates the block at the cursor, header and body, and says
    /// whether it is marked as the last.
    pub fn next_block(&mut self) -> (r: Result<bool, DeflateError>)
        requires
            old(self).wf(),
        ensures
            final(self).wf(),
            final(self).input() == old(self).input(),
            final(self).done() == old(self).done(),
            final(self).failed() == old(self).failed(),
            ({
                let bits = byte_bits(old(self).input());
                let block = block_at(bits, old(self).cursor(), old(self).produced());
                &&& final(self).produced() == block.0
                &&& match block.1 {
                    Ok(end) => r == Ok::<bool, DeflateError>(bits[old(self).cursor()])
                        && old(self).cursor() + 3 <= end <= bits.len() && final(self).cursor() == end,
                    Err(e) => r == Err::<bool, DeflateError>(e),
                }
            }),
    {
        let ghost bits = self.bitstream.bits();
        let ghost pos = self.bitstream.idx as int;
        let ghost before = self.decompressed@;
        let last = match self.bitstream.read_bits(1) {
            Ok(value) => value,
            Err(e) => {
                return Err(e);
            },
        };
        let kind = match self.bitstream.read_bits(2) {
            Ok(value) => value,
            Err(e) => {
                return Err(e);
            },
        };
        proof {
            assert(bits_value(bits, pos, 1) == crate::bits::bit_value(bits[pos])) by {
                assert(bits_value(bits, pos + 1, 0) == 0);
            }
            reveal(block_body);
            lemma2_to64();
            crate::bits::lemma_bits_value_bound(bits, pos, 1);
            crate::bits::lemma_bits_value_bound(bits, pos + 1, 2);
            lemma_block_advances(bits, pos + 3, kind as nat, before);
        }
        let body = if kind == 0 {
            self.block_type_0()
        } else if kind == 1 {
            self.block_type_1()
        } else if kind == 2 {
            self.block_type_2()
        } else {
            Err(DeflateError::InvalidBlockType)
        };
        match body {
            Ok(()) => Ok(last == 1),
            Err(e) => Err(e),
        }
    }

    /// Inflates the blocks from the cursor on, up to and with the one that
    /// is marked as the last, and returns the whole output. A stream that
    /// has been inflated gives its output again; one that has failed gives
    /// its failure again.
    pub fn decompress(&mut self) -> (r: Result<Vec<u8>, DeflateError>)
        requires
            old(self).wf(),
        ensures
            final(self).wf(),
            final(self).input() == old(self).input(),
            old(self).failed() matches Some(e) ==> r == Err::<Vec<u8>, DeflateError>(e) && final(self).produced() == old(self).produced() && final(self).failed() == old(self).failed(),
            old(self).failed() is None && old(self).done() ==> r is Ok && r->Ok_0@ == old(self).produced() && final(self).produced() == old(self).produced() && final(self).cursor()
                == old(self).cursor() && final(self).done() && final(self).failed() is None,
            old(self).failed() is None && !old(self).done() ==> ({
                let all = inflate_blocks(
                    byte_bits(old(self).input()),
                    old(self).cursor(),
                    old(self).produced(),
                );
                &&& final(self).produced() == all.0
                &&& match all.1 {
                    Ok(end) => r is Ok && r->Ok_0@ == all.0 && final(self).cursor() == end && final(self).done() && final(self).failed() is None,
                    Err(e) => r == Err::<Vec<u8>, DeflateError>(e) && final(self).failed() == Some(e)
                        && !final(self).done(),
                }
            }),
    {
        if let Some(e) = self.failure {
            return Err(e);
        }
        if self.finished {
            return Ok(self.decompressed.clone());
        }
        let ghost bits = self.bitstream.bits();
        let ghost whole = inflate_blocks(bits, self.bitstream.idx as int, self.decompressed@);
        loop
            invariant
                self.wf(),
                self.compressed@ == old(self).compressed@,
                bits == byte_bits(old(self).input()),
                self.bitstream.len == bits.len(),
                self.failure is None,
                !self.finished,
                old(self).failed() is None,
                !old(self).done(),
                whole == inflate_blocks(bits, old(self).cursor(), old(self).produced()),
                inflate_blocks(bits, self.bitstream.idx as int, self.decompressed@) == whole,
            decreases self.bitstream.len - self.bitstream.idx,
        {
            match self.next_block() {
                Ok(last) => {
                    if last {
                        self.finished = true;
                        return Ok(self.decompressed.clone());
                    }
                },
                Err(e) => {
                    self.failure = Some(e);
                    return Err(e);
                },
            }
        }
    }
}

/// Inflates a DEFLATE stream: the output, and the failure if there was
/// one. On failure the output is what had been produced before it. An input
/// whose bits a `usize` cannot count is refused as `ResourceLimit`.
pub fn inflate(payload: &[u8]) -> (r: (Vec<u8>, Option<DeflateError>))
    ensures
        payload@.len() * 8 > usize::MAX ==> r.0@ == Seq::<u8>::empty() && r.1 == Some(
            DeflateError::ResourceLimit,
        ),
        payload@.len() * 8 <= usize::MAX ==> ({
            let all = inflate_blocks(byte_bits(payload@), 0, Seq::<u8>::empty());
            &&& r.0@ == all.0
            &&& match all.1 {
                Ok(end) => r.1 is None,
                Err(e) => r.1 == Some(e),
            }
        }),
{
    if payload.len() > usize::MAX / 8 {
        return (Vec::new(), Some(DeflateError::ResourceLimit));
    }
    let mut data = DeflateData::build(payload);
    match data.decompress() {
        Ok(out) => (out, None),
        Err(e) => (data.decompressed, Some(e)),
    }
}

} // verus!
