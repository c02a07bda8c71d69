use gzip::bits::BitVector64;
use gzip::bitstream::{reverse_byte, BitError, BitIndex, BitStream};

#[test]
fn test_bitstream() {
    let mut stream = BitStream::new();

    let bits: [u8; 8] = [1, 0, 1, 0, 1, 0, 1, 0];

    for bit in bits {
        stream.push_bit(bit);
    }

    let partial_byte: u8 = 0b0000_1111;
    stream.push_partial(partial_byte, 4, 7).unwrap();
    stream.push_partial(partial_byte, 1, 4).unwrap();

    let concatenated: u16 = ((stream.bytes[0] as u16) << 8) | stream.bytes[1] as u16;
    let concatenated_u32 = concatenated as u32;

    let to_push: u16 = 0b11_0011_0011;
    stream.push(to_push as u32, 10);

    let last_ten = ((stream.bytes[stream.bytes.len() - 2] as u16) << 8)
        | stream.bytes[stream.bytes.len() - 1] as u16;

    let bit_idx = stream.len % 8;

    assert_eq!(concatenated_u32.bit_index(9), 1);
    assert_eq!(concatenated, 0b10101010_11110001);
    assert_eq!(last_ten, to_push << (8 - bit_idx))
}

#[test]
fn push_bit_fills_bytes_from_the_top() {
    let mut stream = BitStream::new();
    stream.push_bit(1);
    assert_eq!(stream.bytes, vec![0b1000_0000]);
    assert_eq!(stream.len, 1);
    stream.push_bit(0);
    stream.push_bit(7);
    assert_eq!(stream.bytes, vec![0b1010_0000]);
    assert_eq!(stream.len, 3);
}

#[test]
fn push_partial_refuses_bad_ranges() {
    let mut stream = BitStream::new();
    assert!(matches!(
        stream.push_partial(0xff, 5, 4),
        Err(BitError::InvalidPartialRange(5, 4))
    ));
    assert!(matches!(
        stream.push_partial(0xff, 3, 8),
        Err(BitError::InvalidPartialRange(3, 8))
    ));
    assert!(matches!(
        stream.push_partial(0xff, 8, 9),
        Err(BitError::InvalidPartialRange(8, 9))
    ));
    assert_eq!(stream.len, 0);
    assert!(stream.bytes.is_empty());
    stream.push_partial(0b0100_0000, 1, 1).unwrap();
    assert_eq!(stream.bytes, vec![0b1000_0000]);
}

#[test]
fn push_takes_low_bits_most_significant_first() {
    let mut stream = BitStream::new();
    stream.push(0b1_0110, 4);
    assert_eq!(stream.bytes, vec![0b0110_0000]);
    stream.push(0xffff_ffff, 0);
    assert_eq!(stream.len, 4);
    stream.push(1, 34);
    assert_eq!(stream.len, 38);
    assert_eq!(stream.bytes, vec![0b0110_0000, 0, 0, 0, 0b0000_0100]);
}

#[test]
fn next_hands_out_the_bits_in_order() {
    let mut stream = BitStream::new();
    stream.push(0b101, 3);
    assert_eq!(stream.next(), Some(1));
    assert_eq!(stream.next(), Some(0));
    assert_eq!(stream.next(), Some(1));
    assert_eq!(stream.next(), None);
    assert_eq!(stream.idx, 3);
}

#[test]
fn bit_index_reads_single_bits() {
    assert_eq!(0b100u32.bit_index(2), 1);
    assert_eq!(0b100u32.bit_index(1), 0);
    assert_eq!(0x8000_0000u32.bit_index(31), 1);
    assert_eq!(0xffff_ffffu32.bit_index(32), 0);
}

#[test]
fn reverse_byte_reverses() {
    assert_eq!(reverse_byte(0x01), 0x80);
    assert_eq!(reverse_byte(0x0f), 0xf0);
    assert_eq!(reverse_byte(0xa5), 0xa5);
    assert_eq!(reverse_byte(0x4b), 0xd2);
    for byte in 0..=255u8 {
        assert_eq!(reverse_byte(byte), byte.reverse_bits());
        assert_eq!(reverse_byte(reverse_byte(byte)), byte);
    }
}

#[test]
fn to_rfc_bytes_packs_whole_bytes() {
    let mut stream = BitStream::new();
    stream.push(0b1101_0010, 8);
    stream.push(0b1, 1);
    assert_eq!(stream.to_rfc_bytes(), vec![0b0100_1011]);
    assert_eq!(BitStream::new().to_rfc_bytes(), Vec::<u8>::new());
}

#[test]
fn rfc_bytes_read_back_as_the_stream() {
    let mut stream = BitStream::new();
    let pattern: [u8; 16] = [1, 1, 0, 1, 0, 0, 1, 0, 0, 0, 0, 1, 1, 1, 1, 0];
    for bit in pattern {
        stream.push_bit(bit);
    }
    let mut vector = BitVector64::from_be_bytes(&stream.to_rfc_bytes());
    for bit in pattern {
        assert_eq!(vector.next(), Some(bit));
    }
    assert_eq!(vector.next(), None);
}
