//! The encoding of data as literals of the fixed codes, and the proof that
//! inflating it gives the data back.

use crate::bits::bits_value;
use crate::canonical::lemma_symbol_decodes;
use crate::inflate::{
    block_at, block_body, fixed_distance_lengths, fixed_literal_lengths, inflate_blocks,
    inflate_symbols, lemma_fixed_lengths_valid, DeflateError,
};
use crate::prefix::{canonical_tree, code_path, decode_symbol};
use crate::stored::lemma_inflate_step;
use vstd::prelude::*;

verus! {

/// The bits that spell `data` in the fixed literal/length codes: the code
/// of each byte, and the code of the end-of-block symbol behind them.
pub open spec fn literal_bits(data: Seq<u8>) -> Seq<bool>
    decreases data.len(),
{
    if data.len() == 0 {
        code_path(fixed_literal_lengths(), 256)
    } else {
        code_path(fixed_literal_lengths(), data[0] as int) + literal_bits(data.drop_first())
    }
}

/// The bits of a block of the fixed codes that holds `data` as literals
/// and is marked as the last: the header bits and the literals.
pub open spec fn literal_block_bits(data: Seq<u8>) -> Seq<bool> {
    seq![true, true, false] + literal_bits(data)
}

/// Decoding the symbols of literals gives the bytes back and ends behind
/// the end-of-block symbol.
pub proof fn lemma_literals_inflate(bits: Seq<bool>, pos: int, data: Seq<u8>, out: Seq<u8>)
    requires
        0 <= pos,
        pos + literal_bits(data).len() <= bits.len(),
        bits.subrange(pos, pos + literal_bits(data).len()) == literal_bits(data),
    ensures
        inflate_symbols(
            canonical_tree(fixed_literal_lengths()),
            canonical_tree(fixed_distance_lengths()),
            bits,
            pos,
            out,
        ) == (out + data, Ok::<int, DeflateError>(pos + literal_bits(data).len())),
    decreases data.len(),
{
    lemma_fixed_lengths_valid();
    let lengths = fixed_literal_lengths();
    let all = literal_bits(data);
    assert forall|i: int| 0 <= i < all.len() implies bits[pos + i] == all[i] by {
        assert(bits.subrange(pos, pos + all.len())[i] == bits[pos + i]);
    }
    if data.len() == 0 {
        assert(bits.subrange(pos, pos + 7) =~= code_path(lengths, 256));
        lemma_symbol_decodes(lengths, 256, bits, pos);
        assert(out + data =~= out);
    } else {
        let first = data[0];
        let code = code_path(lengths, first as int);
        let rest = data.drop_first();
        let size = lengths[first as int] as int;
        assert(all == code + literal_bits(rest));
        assert(bits.subrange(pos, pos + size) =~= code) by {
            assert forall|i: int| 0 <= i < size implies bits[pos + i] == code[i] by {
                assert(all[i] == code[i]);
            }
        }
        lemma_symbol_decodes(lengths, first as int, bits, pos);
        assert(bits.subrange(pos + size, pos + size + literal_bits(rest).len()) =~= literal_bits(rest)) by {
            assert forall|i: int| 0 <= i < literal_bits(rest).len() implies bits[pos + size + i]
                == literal_bits(rest)[i] by {
                assert(all[size + i] == literal_bits(rest)[i]);
            }
        }
        lemma_literals_inflate(bits, pos + size, rest, out.push(first));
        assert(out.push(first) + rest =~= out + data);
        assert(decode_symbol(canonical_tree(lengths), bits, pos) == Ok::<(usize, int), DeflateError>(
            (first as usize, pos + size),
        ));
    }
}

/// Inflating an input that begins with the literals of `data` in a block
/// of the fixed codes gives `data` and ends behind the block.
pub proof fn lemma_literal_block_inflates(bits: Seq<bool>, data: Seq<u8>)
    requires
        literal_block_bits(data).len() <= bits.len(),
        bits.take(literal_block_bits(data).len() as int) == literal_block_bits(data),
    ensures
        inflate_blocks(bits, 0, Seq::<u8>::empty()) == (
            data,
            Ok::<int, DeflateError>(literal_block_bits(data).len() as int),
        ),
{
    reveal(block_body);
    let block = literal_block_bits(data);
    let none = Seq::<u8>::empty();
    assert forall|i: int| 0 <= i < block.len() implies bits[i] == block[i] by {
        assert(bits.take(block.len() as int)[i] == bits[i]);
    }
    assert(bits[0] && bits[1] && !bits[2]);
    assert(bits_value(bits, 3, 0) == 0);
    assert(bits_value(bits, 2, 1) == 0);
    assert(bits_value(bits, 1, 2) == 1);
    assert(bits.subrange(3, 3 + literal_bits(data).len() as int) =~= literal_bits(data)) by {
        assert forall|i: int| 0 <= i < literal_bits(data).len() implies bits[3 + i] == literal_bits(
            data,
        )[i] by {
            assert(block[3 + i] == literal_bits(data)[i]);
        }
    }
    lemma_literals_inflate(bits, 3, data, none);
    assert(none + data =~= data);
    lemma_inflate_step(bits, 0, none);
    assert(block_at(bits, 0, none) == block_body(bits, 3, 1, none));
}

} // verus!
