use gzip::inflate::DeflateError;
use gzip::prefix;
use gzip::prefix::{Code, Node, PrefixTree};

#[test]
fn prefix_generation() {
    // Create a bit_length array for the ASCII symbols ABCDEFGH,
    // with lengths 3, 3, 3, 3, 3, 2, 4, 4.
    let lengths = [3, 3, 3, 3, 3, 2, 4, 4];

    let _ = prefix::PrefixTree::from_lengths(&lengths);
}

fn decode(tree: &mut PrefixTree, code: u32, length: u8) -> Option<usize> {
    let mut found = None;
    let mut bits = Code::from(code, length);
    while let Some(bit) = bits.next() {
        found = tree.walk(bit);
    }
    found
}

#[test]
fn canonical_codes_of_the_example() {
    // The example of RFC 1951: F is 00, A to E are 010 to 110, G and H are
    // 1110 and 1111.
    let mut tree = PrefixTree::from_lengths(&[3, 3, 3, 3, 3, 2, 4, 4]).unwrap();
    assert_eq!(decode(&mut tree, 0b00, 2), Some(5));
    assert_eq!(decode(&mut tree, 0b010, 3), Some(0));
    assert_eq!(decode(&mut tree, 0b011, 3), Some(1));
    assert_eq!(decode(&mut tree, 0b100, 3), Some(2));
    assert_eq!(decode(&mut tree, 0b101, 3), Some(3));
    assert_eq!(decode(&mut tree, 0b110, 3), Some(4));
    assert_eq!(decode(&mut tree, 0b1110, 4), Some(6));
    assert_eq!(decode(&mut tree, 0b1111, 4), Some(7));
}

#[test]
fn walk_returns_to_the_root() {
    let mut tree = PrefixTree::new();
    tree.insert_code(Code::from(0b111, 3), 255);
    assert_eq!(tree.walk(1), None);
    assert_eq!(tree.walk(1), None);
    assert_eq!(tree.walk(1), Some(255));
    assert_eq!(tree.current, 0);
    assert!(!tree.has_branch(0));
    assert!(tree.has_branch(1));
    assert_eq!(tree.walk(0), None);
    assert_eq!(tree.current, 0);
}

#[test]
fn insert_code_creates_the_path() {
    let mut tree = PrefixTree::new();
    assert_eq!(tree.nodes.len(), 1);
    tree.insert_code(Code::from(0b011, 3), 7);
    assert_eq!(tree.nodes.len(), 4);
    tree.insert_code(Code::from(0b010, 3), 8);
    assert_eq!(tree.nodes.len(), 5);
    assert_eq!(decode(&mut tree, 0b011, 3), Some(7));
    assert_eq!(decode(&mut tree, 0b010, 3), Some(8));
    tree.insert_code(Code::from(0b011, 3), 9);
    assert_eq!(tree.nodes.len(), 5);
    assert_eq!(decode(&mut tree, 0b011, 3), Some(9));
    tree.walk(0);
    tree.reset();
    assert_eq!(tree.current, 0);
}

#[test]
fn no_codes_give_an_empty_tree() {
    let tree = PrefixTree::from_lengths(&[0, 0, 0]).unwrap();
    assert_eq!(tree.nodes.len(), 1);
    assert!(!tree.has_branch(0));
    assert!(!tree.has_branch(1));
    assert_eq!(PrefixTree::from_lengths(&[]).unwrap().nodes.len(), 1);
}

#[test]
fn a_single_code_is_all_zeros() {
    let mut tree = PrefixTree::from_lengths(&[0, 3, 0]).unwrap();
    assert_eq!(decode(&mut tree, 0b000, 3), Some(1));
    assert!(!tree.has_branch(1));
    let mut one = PrefixTree::from_lengths(&[1]).unwrap();
    assert_eq!(one.walk(0), Some(0));
}

#[test]
fn bad_code_lengths_are_refused() {
    assert!(matches!(PrefixTree::from_lengths(&[1, 1, 1]), Err(DeflateError::CorruptStream)));
    assert!(matches!(PrefixTree::from_lengths(&[2, 2, 2]), Err(DeflateError::CorruptStream)));
    assert!(matches!(PrefixTree::from_lengths(&[1, 2]), Err(DeflateError::CorruptStream)));
    assert!(matches!(PrefixTree::from_lengths(&[16]), Err(DeflateError::CorruptStream)));
    assert!(matches!(PrefixTree::from_lengths(&[1, 1, 200]), Err(DeflateError::CorruptStream)));
    assert!(PrefixTree::from_lengths(&[1, 2, 2]).is_ok());
    assert!(PrefixTree::from_lengths(&[15]).is_ok());
}

#[test]
fn fixed_code_lengths_build() {
    let mut tree = PrefixTree::from_lengths(&prefix::FIXED_CODE_LENGTHS).unwrap();
    assert_eq!(decode(&mut tree, 0b0011_0000, 8), Some(0));
    assert_eq!(decode(&mut tree, 0b1011_1111, 8), Some(143));
    assert_eq!(decode(&mut tree, 0b1_1001_0000, 9), Some(144));
    assert_eq!(decode(&mut tree, 0b1_1111_1111, 9), Some(255));
    assert_eq!(decode(&mut tree, 0b000_0000, 7), Some(256));
    assert_eq!(decode(&mut tree, 0b001_0111, 7), Some(279));
    assert_eq!(decode(&mut tree, 0b1100_0000, 8), Some(280));
    assert_eq!(decode(&mut tree, 0b1100_0111, 8), Some(287));
}

#[test]
fn code_collects_and_hands_out_bits() {
    let mut new = Code::new();
    let from = Code::from(0b1011, 4);
    new.push_bit(1);
    new.push_bit(0);
    new.push_bit(9);
    new.push_bit(1);
    assert_eq!(new.buffer, from.buffer);
    assert_eq!(new.length, from.length);
    let mut code = Code::from(0b10, 2);
    assert_eq!(code.bit_at(0), 1);
    assert_eq!(code.bit_at(1), 0);
    assert_eq!(code.next(), Some(1));
    assert_eq!(code.next(), Some(0));
    assert_eq!(code.next(), None);
    assert_eq!(code.index, 2);
}

#[test]
fn new_node_is_bare() {
    let node = Node::new();
    assert_eq!(node.value, None);
    assert_eq!(node.significance, 0);
    assert_eq!(node.code.length, 0);
    assert_eq!(node.left, None);
    assert_eq!(node.right, None);
}

#[test]
fn tables_of_lengths_and_distances() {
    assert_eq!(prefix::LENGTH_BASE[0], 3);
    assert_eq!(prefix::LENGTH_BASE[28], 258);
    assert_eq!(prefix::LENGTH_EXTRA_BITS[27], 5);
    assert_eq!(prefix::LENGTH_EXTRA_BITS[28], 0);
    assert_eq!(prefix::DISTANCE_BASE[29], 24577);
    assert_eq!(prefix::DISTANCE_EXTRA_BITS[29], 13);
    assert_eq!(prefix::LENGTH_CODES[28], 285);
    assert_eq!(prefix::DISTANCE_CODES[29], 29);
}

#[test]
fn nodes_are_ordered_by_significance() {
    let a = Node::new();
    let mut b = Node::new();
    b.significance = 2;
    assert!(a < b);
    assert!(b > a);
    assert!(a != b);
    b.significance = 0;
    b.code = Code::from(0, 3);
    assert!(a == b);
    assert!(a < b);
    assert_eq!(a.partial_cmp(&a), Some(std::cmp::Ordering::Equal));
}
