use gzip::bits::{BitVecError, BitVector64};
use gzip::inflate::DeflateError;
use gzip::prefix::PrefixTree;

#[test]
fn test_bitvector() {
    let mut new_bitvec = BitVector64::new();
    new_bitvec.push_buffer(0b1111, 4).unwrap();
    assert_eq!(new_bitvec.buffer, vec![0xf000_0000_0000_0000]);
    new_bitvec.push_buffer(0b1111, 60).unwrap();
    assert_eq!(new_bitvec.buffer, vec![0xf000_0000_0000_000f, 0]);
    new_bitvec.push_buffer(0b1111, 4).unwrap();
    assert_eq!(new_bitvec.buffer, vec![0xf000_0000_0000_000f, 0xf000_0000_0000_0000]);
    assert_eq!(new_bitvec.len, 68);

    let mut push_bit_vector = BitVector64::new();

    for _ in 0..128 {
        push_bit_vector.push_bit(1).unwrap();
    }
    assert_eq!(push_bit_vector.buffer, vec![u64::MAX, u64::MAX, 0]);
    assert_eq!(push_bit_vector.len, 128);
}

#[test]
fn test_from_be() {
    let stream = BitVector64::from_be_bytes(&[0x01, 0x80, 0xf0]);
    assert_eq!(stream.len, 24);
    assert_eq!(stream.buffer, vec![0x8001_0f00_0000_0000]);
}

#[test]
fn test_pop_front() {
    let mut bitvec = BitVector64::new();
    bitvec.push_buffer(0b1111, 8).unwrap();

    bitvec.push_buffer(0xfffffff, 64).unwrap();

    let mut popped = Vec::new();
    for _ in 0..128 {
        popped.push(bitvec.pop_front());
    }
    let mut expected = Vec::new();
    for i in 0..128 {
        if i < 4 || (8..44).contains(&i) {
            expected.push(Some(0));
        } else if i < 72 {
            expected.push(Some(1));
        } else {
            expected.push(None);
        }
    }
    assert_eq!(popped, expected);
}

#[test]
fn from_le_bytes_keeps_the_order_of_the_bits() {
    let stream = BitVector64::from_le_bytes(&[0x01, 0x80, 0xf0]);
    assert_eq!(stream.len, 24);
    assert_eq!(stream.buffer, vec![0x0180_f000_0000_0000]);
}

#[test]
fn push_buffer_of_a_whole_word() {
    let mut vector = BitVector64::new();
    vector.push_buffer(0x0123_4567_89ab_cdef, 64).unwrap();
    assert_eq!(vector.buffer, vec![0x0123_4567_89ab_cdef, 0]);
    vector.push_buffer(0xff, 0).unwrap();
    assert_eq!(vector.len, 64);
    vector.push_buffer(0b101, 3).unwrap();
    assert_eq!(vector.buffer, vec![0x0123_4567_89ab_cdef, 0xa000_0000_0000_0000]);
}

#[test]
fn push_refuses_values_out_of_bounds() {
    let mut vector = BitVector64::new();
    assert!(matches!(vector.push_buffer(1, 65), Err(BitVecError::OutOfBounds(65))));
    assert!(matches!(vector.push_bit(2), Err(BitVecError::OutOfBounds(2))));
    assert_eq!(vector.len, 0);
    assert_eq!(vector.buffer, vec![0]);
}

#[test]
fn next_and_get_read_the_bits() {
    let mut vector = BitVector64::from_be_bytes(&[0b0000_0101]);
    assert_eq!(vector.get(0), 1);
    assert_eq!(vector.get(1), 0);
    assert_eq!(vector.get(2), 1);
    assert_eq!(vector.next(), Some(1));
    assert_eq!(vector.next(), Some(0));
    assert_eq!(vector.idx, 2);
    for _ in 0..6 {
        vector.next();
    }
    assert_eq!(vector.next(), None);
    assert_eq!(vector.idx, 8);
}

#[test]
fn read_bits_puts_the_first_bit_lowest() {
    let mut vector = BitVector64::from_be_bytes(&[0b1010_0110, 0xff]);
    assert_eq!(vector.read_bits(3), Ok(0b110));
    assert_eq!(vector.read_bits(0), Ok(0));
    assert_eq!(vector.read_bits(5), Ok(0b10100));
    assert_eq!(vector.read_bits(9), Err(DeflateError::UnexpectedEnd));
    assert_eq!(vector.idx, 8);
    assert_eq!(vector.read_bits(8), Ok(0xff));
    let mut wide = BitVector64::from_be_bytes(&[0x34, 0x12]);
    assert_eq!(wide.read_bits(16), Ok(0x1234));
}

#[test]
fn align_and_read_bytes() {
    let mut vector = BitVector64::from_be_bytes(&[0xff, 0x0b, 0x00, 0x4c]);
    vector.align_to_byte();
    assert_eq!(vector.idx, 0);
    assert_eq!(vector.read_bits(3), Ok(7));
    assert_eq!(vector.read_bytes(1), Err(DeflateError::Unaligned));
    vector.align_to_byte();
    assert_eq!(vector.idx, 8);
    assert_eq!(vector.read_bytes(4), Err(DeflateError::UnexpectedEnd));
    assert_eq!(vector.idx, 8);
    assert_eq!(vector.read_bytes(2), Ok(vec![0x0b, 0x00]));
    assert_eq!(vector.read_bytes(0), Ok(vec![]));
    assert_eq!(vector.read_bytes(1), Ok(vec![0x4c]));
    assert_eq!(vector.idx, 32);
}

#[test]
fn read_huffman_walks_most_significant_bit_first() {
    let mut tree = PrefixTree::from_lengths(&[2, 1, 3, 3]).unwrap();
    // The codes are 10, 0, 110 and 111; the bytes hold 110, 0, 10, 111.
    let mut vector = BitVector64::from_be_bytes(&[0b1101_0011, 0b0000_0001]);
    assert_eq!(vector.read_huffman(&mut tree), Ok(2));
    assert_eq!(vector.read_huffman(&mut tree), Ok(1));
    assert_eq!(vector.read_huffman(&mut tree), Ok(0));
    assert_eq!(vector.read_huffman(&mut tree), Ok(3));
    assert_eq!(vector.idx, 9);
    let mut short = BitVector64::from_be_bytes(&[0xff]);
    short.idx = 6;
    assert_eq!(short.read_huffman(&mut tree), Err(DeflateError::UnexpectedEnd));
    assert_eq!(short.idx, 6);
    let mut empty = PrefixTree::from_lengths(&[0, 0]).unwrap();
    assert_eq!(short.read_huffman(&mut empty), Err(DeflateError::CorruptStream));
    short.idx = 8;
    assert_eq!(short.read_huffman(&mut tree), Err(DeflateError::UnexpectedEnd));
    assert_eq!(short.read_huffman(&mut empty), Err(DeflateError::CorruptStream));
}
