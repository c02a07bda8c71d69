//! Canonical prefix codes and the tree that decodes them.

use crate::canonical::{
    lemma_class_sum_fits, lemma_code_fits, lemma_code_tree_start, lemma_code_tree_step,
    lemma_count_take, lemma_first_code,
};
use crate::inflate::DeflateError;
use vstd::arithmetic::power2::{lemma2_to64, lemma_pow2_unfold, pow2};
use vstd::prelude::*;

verus! {

/// Code lengths of the fixed literal/length alphabet.
pub const FIXED_CODE_LENGTHS: [u8; 288] = [
    8, 8, 8, 8, 8, 8, 8, 8, 8, 8, 8, 8, 8, 8, 8, 8, 8, 8, 8, 8, 8, 8, 8, 8, 8, 8, 8, 8, 8, 8, 8, 8,
    8, 8, 8, 8, 8, 8, 8, 8, 8, 8, 8, 8, 8, 8, 8, 8, 8, 8, 8, 8, 8, 8, 8, 8, 8, 8, 8, 8, 8, 8, 8, 8,
    8, 8, 8, 8, 8, 8, 8, 8, 8, 8, 8, 8, 8, 8, 8, 8, 8, 8, 8, 8, 8, 8, 8, 8, 8, 8, 8, 8, 8, 8, 8, 8,
    8, 8, 8, 8, 8, 8, 8, 8, 8, 8, 8, 8, 8, 8, 8, 8, 8, 8, 8, 8, 8, 8, 8, 8, 8, 8, 8, 8, 8, 8, 8, 8,
    8, 8, 8, 8, 8, 8, 8, 8, 8, 8, 8, 8, 8, 8, 8, 8, 9, 9, 9, 9, 9, 9, 9, 9, 9, 9, 9, 9, 9, 9, 9, 9,
    9, 9, 9, 9, 9, 9, 9, 9, 9, 9, 9, 9, 9, 9, 9, 9, 9, 9, 9, 9, 9, 9, 9, 9, 9, 9, 9, 9, 9, 9, 9, 9,
    9, 9, 9, 9, 9, 9, 9, 9, 9, 9, 9, 9, 9, 9, 9, 9, 9, 9, 9, 9, 9, 9, 9, 9, 9, 9, 9, 9, 9, 9, 9, 9,
    9, 9, 9, 9, 9, 9, 9, 9, 9, 9, 9, 9, 9, 9, 9, 9, 9, 9, 9, 9, 9, 9, 9, 9, 9, 9, 9, 9, 9, 9, 9, 9,
    7, 7, 7, 7, 7, 7, 7, 7, 7, 7, 7, 7, 7, 7, 7, 7, 7, 7, 7, 7, 7, 7, 7, 7, 8, 8, 8, 8, 8, 8, 8, 8,
];

/// The literal/length symbols that stand for a match length.
pub const LENGTH_CODES: [usize; 29] = [
    257, 258, 259, 260, 261, 262, 263, 264, 265, 266, 267, 268, 269, 270, 271, 272, 273, 274, 275,
    276, 277, 278, 279, 280, 281, 282, 283, 284, 285,
];

/// The number of extra bits that follow each length symbol.
pub const LENGTH_EXTRA_BITS: [u8; 29] = [
    0, 0, 0, 0, 0, 0, 0, 0, 1, 1, 1, 1, 2, 2, 2, 2, 3, 3, 3, 3, 4, 4, 4, 4, 5, 5, 5, 5, 0,
];

/// The smallest match length of each length symbol.
pub const LENGTH_BASE: [u16; 29] = [
    3, 4, 5, 6, 7, 8, 9, 10, 11, 13, 15, 17, 19, 23, 27, 31, 35, 43, 51, 59, 67, 83, 99, 115, 131,
    163, 195, 227, 258,
];

/// The symbols of the distance alphabet.
pub const DISTANCE_CODES: [usize; 30] = [
    0, 1, 2, 3, 4, 5, 6, 7, 8, 9, 10, 11, 12, 13, 14, 15, 16, 17, 18, 19, 20, 21, 22, 23, 24, 25,
    26, 27, 28, 29,
];

/// The number of extra bits that follow each distance symbol.
pub const DISTANCE_EXTRA_BITS: [u8; 30] = [
    0, 0, 0, 0, 1, 1, 2, 2, 3, 3, 4, 4, 5, 5, 6, 6, 7, 7, 8, 8, 9, 9, 10, 10, 11, 11, 12, 12, 13,
    13,
];

/// The smallest distance of each distance symbol.
pub const DISTANCE_BASE: [u16; 30] = [
    1, 2, 3, 4, 5, 7, 9, 13, 17, 25, 33, 49, 65, 97, 129, 193, 257, 385, 513, 769, 1025, 1537,
    2049, 3073, 4097, 6145, 8193, 12289, 16385, 24577,
];

/// Bit `index` of `buffer`, counted from the least significant bit.
pub open spec fn code_bit(buffer: u32, index: u32) -> bool {
    (buffer >> index) & 1u32 == 1u32
}

/// A code of up to 32 bits: the `length` least significant bits of `buffer`,
/// read from the most significant of them downwards. `index` counts the bits
/// that `next` has handed out.
#[derive(Clone, Copy, Debug)]
pub struct Code {
    pub buffer: u32,
    pub length: u8,
    pub index: u8,
}

impl View for Code {
    type V = Seq<bool>;

    /// The bits of the code in the order in which they are read.
    open spec fn view(&self) -> Seq<bool> {
        Seq::new(self.length as nat, |k: int| code_bit(self.buffer, (self.length - 1 - k) as u32))
    }
}

proof fn lemma_shifted_code_bit(buffer: u32, bit: u32, j: u32)
    by (bit_vector)
    requires
        bit <= 1,
        j < 32,
    ensures
        code_bit((buffer << 1u32) | bit, j) == (if j == 0 {
            bit == 1
        } else {
            code_bit(buffer, (j - 1) as u32)
        }),
{
}

proof fn lemma_joined_code_bit(front: u32, back: u32, count: u32, j: u32)
    by (bit_vector)
    requires
        count < 32,
        back >> count == 0,
        j < 32,
    ensures
        code_bit((front << count) | back, j) == (if j < count {
            code_bit(back, j)
        } else {
            code_bit(front, (j - count) as u32)
        }),
{
}

proof fn lemma_code_bit_as_byte(buffer: u32, j: u32)
    by (bit_vector)
    requires
        j < 32,
    ensures
        (buffer >> j) & 1u32 == 0 || (buffer >> j) & 1u32 == 1,
{
}

impl Code {
    /// Creates an empty code.
    pub fn new() -> (c: Self)
        ensures
            c.buffer == 0,
            c.length == 0,
            c.index == 0,
            c@ == Seq::<bool>::empty(),
    {
        let c = Self { buffer: 0, length: 0, index: 0 };
        assert(c@ =~= Seq::<bool>::empty());
        c
    }

    /// Creates the code that the `length` least significant bits of `buffer` spell.
    pub fn from(buffer: u32, length: u8) -> (c: Self)
        ensures
            c.buffer == buffer,
            c.length == length,
            c.index == 0,
    {
        Self { buffer, length, index: 0 }
    }

    /// Appends the `length` least significant bits of `buffer` to the code.
    /// Bits of `buffer` above them are merged into the bits that the code
    /// had.
    pub fn push(&mut self, buffer: u32, length: u8)
        requires
            length < 32,
            old(self).length + length <= 255,
        ensures
            final(self).buffer == (old(self).buffer << length) | buffer,
            final(self).length == old(self).length + length,
            final(self).index == old(self).index,
            old(self).length + length <= 32 && buffer >> length == 0 ==> final(self)@ == old(self)@ + (Code {
                buffer,
                length,
                index: 0,
            })@,
    {
        let ghost before = *self;
        self.buffer = (self.buffer << length) | buffer;
        self.length += length;
        proof {
            if before.length + length <= 32 && buffer >> length == 0 {
                let added = Code { buffer, length, index: 0 };
                assert forall|k: int| 0 <= k < self.length implies #[trigger] self@[k] == (before@
                    + added@)[k] by {
                    lemma_joined_code_bit(
                        before.buffer,
                        buffer,
                        length as u32,
                        (self.length - 1 - k) as u32,
                    );
                }
                assert(self@ =~= before@ + added@);
            }
        }
    }

    /// Appends one bit to the code. Any value other than 0 counts as 1.
    pub fn push_bit(&mut self, bit: u8)
        requires
            old(self).length < 255,
        ensures
            final(self).buffer == (old(self).buffer << 1u32) | (if bit == 0 {
                0u32
            } else {
                1u32
            }),
            final(self).length == old(self).length + 1,
            final(self).index == old(self).index,
            old(self).length < 32 ==> final(self)@ == old(self)@.push(bit != 0),
    {
        let normalized_bit: u32 = if bit == 0 {
            0
        } else {
            1
        };
        let ghost before = *self;
        self.buffer = (self.buffer << 1u32) | normalized_bit;
        self.length += 1;
        proof {
            if before.length < 32 {
                assert forall|k: int| 0 <= k < self.length implies #[trigger] self@[k] == before@.push(
                    bit != 0,
                )[k] by {
                    lemma_shifted_code_bit(before.buffer, normalized_bit, (self.length - 1 - k) as u32);
                }
                assert(self@ =~= before@.push(bit != 0));
            }
        }
    }

    /// Hands out the next bit of the code, first bit first, as 0 or 1.
    pub fn next(&mut self) -> (r: Option<u8>)
        requires
            old(self).length <= 32,
        ensures
            final(self).buffer == old(self).buffer,
            final(self).length == old(self).length,
            old(self).index < old(self).length ==> r == Some(
                crate::bits::bit_value(old(self)@[old(self).index as int]) as u8,
            ) && final(self).index == old(self).index + 1,
            old(self).index >= old(self).length ==> r is None && final(self).index == old(self).index,
    {
        if self.index < self.length {
            self.index += 1;
            proof {
                lemma_code_bit_as_byte(self.buffer, (self.length - self.index) as u32);
            }
            Some(((self.buffer >> (self.length - self.index) as u32) & 1) as u8)
        } else {
            None
        }
    }

    /// Bit `at` of the code, first bit first, as 0 or 1.
    pub fn bit_at(&self, at: u8) -> (bit: u8)
        requires
            self.length <= 32,
            at < self.length,
        ensures
            bit <= 1,
            (bit == 1) == self@[at as int],
    {
        proof {
            lemma_code_bit_as_byte(self.buffer, (self.length - 1 - at) as u32);
        }
        ((self.buffer >> (self.length - 1 - at) as u32) & 1) as u8
    }
}

/// The number of symbols of `lengths` whose code length is `n`.
pub open spec fn length_count(lengths: Seq<u8>, n: int) -> nat
    decreases lengths.len(),
{
    if lengths.len() == 0 {
        0
    } else {
        length_count(lengths.drop_last(), n) + (if lengths.last() == n {
            1nat
        } else {
            0nat
        })
    }
}

/// The number of symbols of `lengths` that have a code: those of length other than 0.
pub open spec fn used_symbols(lengths: Seq<u8>) -> nat {
    (lengths.len() - length_count(lengths, 0)) as nat
}

/// The sum, over the symbols with a code of at most 15 bits, of 2 to the
/// power of 15 minus the code's length. A set of codes is complete when the
/// sum is 2 to the power of 15.
pub open spec fn kraft_sum(lengths: Seq<u8>) -> nat
    decreases lengths.len(),
{
    if lengths.len() == 0 {
        0
    } else {
        kraft_sum(lengths.drop_last()) + (if 1 <= lengths.last() <= 15 {
            pow2((15 - lengths.last()) as nat)
        } else {
            0nat
        })
    }
}

/// The code lengths that a prefix tree is built from: none above 15, and
/// either at most one symbol with a code or a complete set of codes.
pub open spec fn valid_code_lengths(lengths: Seq<u8>) -> bool {
    &&& forall|s: int| 0 <= s < lengths.len() ==> lengths[s] <= 15
    &&& (used_symbols(lengths) <= 1 || kraft_sum(lengths) == pow2(15))
}

/// The numerically smallest code of length `n`.
pub open spec fn first_code(lengths: Seq<u8>, n: nat) -> nat
    decreases n,
{
    if n == 0 {
        0
    } else {
        2 * (first_code(lengths, (n - 1) as nat) + (if n == 1 {
            0nat
        } else {
            length_count(lengths, n - 1)
        }))
    }
}

/// The canonical code of the symbol `sym` as a number: codes of one length
/// are consecutive in the order of the symbols.
pub open spec fn canonical_code(lengths: Seq<u8>, sym: int) -> nat {
    first_code(lengths, lengths[sym] as nat) + length_count(lengths.take(sym), lengths[sym] as int)
}

/// The canonical code of the symbol `sym` as the bits that spell it, the
/// most significant first.
pub open spec fn code_path(lengths: Seq<u8>, sym: int) -> Seq<bool> {
    Seq::new(
        lengths[sym] as nat,
        |k: int| code_bit(canonical_code(lengths, sym) as u32, (lengths[sym] - 1 - k) as u32),
    )
}

/// Whether `sym` is one of the first `upto` symbols and `path` spells its code.
pub open spec fn has_code(lengths: Seq<u8>, upto: int, sym: int, path: Seq<bool>) -> bool {
    0 <= sym < upto && sym < lengths.len() && lengths[sym] > 0 && code_path(lengths, sym) == path
}

/// Whether `sym` is one of the first `upto` symbols and `path` begins its code.
pub open spec fn on_code(lengths: Seq<u8>, upto: int, sym: int, path: Seq<bool>) -> bool {
    0 <= sym < upto && sym < lengths.len() && lengths[sym] > 0 && path.is_prefix_of(
        code_path(lengths, sym),
    )
}

/// The tree of the canonical codes of the first `upto` symbols of `lengths`:
/// its paths are the beginnings of their codes, and a path carries the
/// symbol whose code it spells.
pub open spec fn code_tree(lengths: Seq<u8>, upto: int) -> Map<Seq<bool>, Option<usize>> {
    Map::new(
        |p: Seq<bool>| p.len() == 0 || exists|s: int| on_code(lengths, upto, s, p),
        |p: Seq<bool>|
            if exists|s: int| has_code(lengths, upto, s, p) {
                Some((choose|s: int| has_code(lengths, upto, s, p)) as usize)
            } else {
                None
            },
    )
}

/// The tree of the canonical codes of all symbols of `lengths`.
pub open spec fn canonical_tree(lengths: Seq<u8>) -> Map<Seq<bool>, Option<usize>> {
    code_tree(lengths, lengths.len() as int)
}

impl Default for Code {
    fn default() -> (c: Self)
        ensures
            c.buffer == 0,
            c.length == 0,
            c.index == 0,
            c@ == Seq::<bool>::empty(),
    {
        Code::new()
    }
}

/// A node of a prefix tree.
///
/// `code` spells the path from the root to the node, `value` is the symbol
/// that the path decodes to, if any, and `left` and `right` are the places of
/// the children for the bits 0 and 1 in the tree's `nodes`.
#[derive(Clone, Copy, Debug)]
pub struct Node {
    pub value: Option<usize>,
    pub significance: u64,
    pub code: Code,
    pub left: Option<usize>,
    pub right: Option<usize>,
}

impl Node {
    /// Creates a node without symbol and children, at the empty path.
    pub fn new() -> (n: Self)
        ensures
            n.value is None,
            n.significance == 0,
            n.code@ == Seq::<bool>::empty(),
            n.code.length == 0,
            n.left is None,
            n.right is None,
    {
        Self { value: None, significance: 0, code: Code::new(), left: None, right: None }
    }

    /// The child that the bit `bit` leads to.
    pub open spec fn child(&self, bit: bool) -> Option<usize> {
        if bit {
            self.right
        } else {
            self.left
        }
    }
}

impl Default for Node {
    fn default() -> (n: Self)
        ensures
            n.value is None,
            n.significance == 0,
            n.code@ == Seq::<bool>::empty(),
            n.code.length == 0,
            n.left is None,
            n.right is None,
    {
        Node::new()
    }
}

/// A binary tree of codes, kept as a vector of nodes with the root first.
///
/// `current` is the place of the node that the walk has reached.
pub struct PrefixTree {
    pub nodes: Vec<Node>,
    pub current: usize,
}

/// The tree `tree` with every prefix of `path` added, each new one without a symbol.
pub open spec fn grown(tree: Map<Seq<bool>, Option<usize>>, path: Seq<bool>) -> Map<
    Seq<bool>,
    Option<usize>,
> {
    Map::new(
        |p: Seq<bool>| tree.dom().contains(p) || p.is_prefix_of(path),
        |p: Seq<bool>|
            if tree.dom().contains(p) {
                tree[p]
            } else {
                None
            },
    )
}

/// The tree `tree` after the code `path` was entered for the symbol `value`.
pub open spec fn inserted(tree: Map<Seq<bool>, Option<usize>>, path: Seq<bool>, value: usize) -> Map<
    Seq<bool>,
    Option<usize>,
> {
    grown(tree, path).insert(path, Some(value))
}

spec fn path(nodes: Seq<Node>, i: int) -> Seq<bool> {
    nodes[i].code@
}

spec fn at(nodes: Seq<Node>, i: int, p: Seq<bool>) -> bool {
    0 <= i < nodes.len() && path(nodes, i) == p
}

spec fn child_is(nodes: Seq<Node>, i: int, bit: bool, j: int) -> bool {
    nodes[i].child(bit) matches Some(c) && c == j
}

spec fn linked(nodes: Seq<Node>, i: int, bit: bool) -> bool {
    nodes[i].child(bit) matches Some(j) ==> i < j < nodes.len() && path(nodes, j as int) == path(
        nodes,
        i,
    ).push(bit)
}

spec fn has_parent(nodes: Seq<Node>, j: int) -> bool {
    exists|i: int, bit: bool| 0 <= i < j && #[trigger] child_is(nodes, i, bit, j)
}

spec fn wf_nodes(nodes: Seq<Node>) -> bool {
    &&& nodes.len() >= 1
    &&& path(nodes, 0).len() == 0
    &&& forall|i: int| 0 <= i < nodes.len() ==> (#[trigger] nodes[i]).code.length <= 32
    &&& forall|i: int, bit: bool| 0 <= i < nodes.len() ==> #[trigger] linked(nodes, i, bit)
    &&& forall|j: int| 1 <= j < nodes.len() ==> #[trigger] has_parent(nodes, j)
    &&& forall|i: int, j: int|
        0 <= i < j < nodes.len() ==> #[trigger] path(nodes, i) != #[trigger] path(nodes, j)
}

spec fn view_of(nodes: Seq<Node>) -> Map<Seq<bool>, Option<usize>> {
    Map::new(
        |p: Seq<bool>| exists|i: int| at(nodes, i, p),
        |p: Seq<bool>| nodes[choose|i: int| at(nodes, i, p)].value,
    )
}

proof fn lemma_view_at(nodes: Seq<Node>, i: int)
    requires
        wf_nodes(nodes),
        0 <= i < nodes.len(),
    ensures
        view_of(nodes).dom().contains(path(nodes, i)),
        view_of(nodes)[path(nodes, i)] == nodes[i].value,
{
    let p = path(nodes, i);
    assert(at(nodes, i, p));
    let c = choose|c: int| at(nodes, c, p);
    if c < i {
        assert(path(nodes, c) != path(nodes, i));
    } else if i < c {
        assert(path(nodes, i) != path(nodes, c));
    }
}

proof fn lemma_no_child_no_node(nodes: Seq<Node>, i: int, bit: bool)
    requires
        wf_nodes(nodes),
        0 <= i < nodes.len(),
        nodes[i].child(bit) is None,
    ensures
        !view_of(nodes).dom().contains(path(nodes, i).push(bit)),
{
    let p = path(nodes, i).push(bit);
    if view_of(nodes).dom().contains(p) {
        let j = choose|j: int| at(nodes, j, p);
        assert(at(nodes, j, p));
        assert(j != 0);
        assert(has_parent(nodes, j));
        let (k, b) = choose|k: int, b: bool| 0 <= k < j && #[trigger] child_is(nodes, k, b, j);
        assert(linked(nodes, k, b));
        assert(path(nodes, j) == path(nodes, k).push(b));
        assert(path(nodes, k).push(b).drop_last() =~= path(nodes, k));
        assert(path(nodes, i).push(bit).drop_last() =~= path(nodes, i));
        assert(path(nodes, k).push(b).last() == b);
        assert(path(nodes, i).push(bit).last() == bit);
        if k < i {
            assert(path(nodes, k) != path(nodes, i));
        } else if i < k {
            assert(path(nodes, i) != path(nodes, k));
        }
    }
}

spec fn with_child(node: Node, bit: bool, j: usize) -> Node {
    if bit {
        Node { right: Some(j), ..node }
    } else {
        Node { left: Some(j), ..node }
    }
}

proof fn lemma_add_child(nodes: Seq<Node>, cur: int, bit: bool, fresh: Node)
    requires
        wf_nodes(nodes),
        0 <= cur < nodes.len(),
        nodes.len() <= usize::MAX,
        nodes[cur].child(bit) is None,
        fresh.code@ == path(nodes, cur).push(bit),
        fresh.code.length <= 32,
        fresh.value is None,
        fresh.left is None,
        fresh.right is None,
    ensures
        ({
            let after = nodes.update(cur, with_child(nodes[cur], bit, nodes.len() as usize)).push(fresh);
            &&& wf_nodes(after)
            &&& view_of(after) == view_of(nodes).insert(path(nodes, cur).push(bit), None)
        }),
{
    let len = nodes.len() as int;
    let after = nodes.update(cur, with_child(nodes[cur], bit, nodes.len() as usize)).push(fresh);
    let fresh_path = path(nodes, cur).push(bit);
    lemma_no_child_no_node(nodes, cur, bit);
    assert forall|i: int| 0 <= i < len implies #[trigger] path(after, i) == path(nodes, i) by {}
    assert forall|i: int| 0 <= i < len implies path(nodes, i) != fresh_path by {
        assert(!at(nodes, i, fresh_path));
    }
    assert forall|i: int, b: bool| 0 <= i < after.len() implies #[trigger] linked(after, i, b) by {
        if i < len {
            assert(linked(nodes, i, b));
        }
    }
    assert forall|j: int| 1 <= j < after.len() implies #[trigger] has_parent(after, j) by {
        if j < len {
            assert(has_parent(nodes, j));
            let (i, b) = choose|i: int, b: bool| 0 <= i < j && #[trigger] child_is(nodes, i, b, j);
            assert(child_is(after, i, b, j));
        } else {
            assert(child_is(after, cur, bit, j));
        }
    }
    assert forall|i: int, j: int| 0 <= i < j < after.len() implies #[trigger] path(after, i)
        != #[trigger] path(after, j) by {
        if j < len {
            assert(path(nodes, i) != path(nodes, j));
        }
    }
    assert(wf_nodes(after));
    let expected = view_of(nodes).insert(fresh_path, None);
    assert forall|p: Seq<bool>| view_of(after).dom().contains(p) <==> expected.dom().contains(p) by {
        if view_of(after).dom().contains(p) {
            let i = choose|i: int| at(after, i, p);
            if i < len {
                assert(at(nodes, i, p));
            }
        }
        if expected.dom().contains(p) {
            if p == fresh_path {
                assert(at(after, len, p));
            } else {
                let i = choose|i: int| at(nodes, i, p);
                assert(at(after, i, p));
            }
        }
    }
    assert forall|p: Seq<bool>| view_of(after).dom().contains(p) implies #[trigger] view_of(after)[p]
        == expected[p] by {
        let i = choose|i: int| at(after, i, p);
        lemma_view_at(after, i);
        if i < len {
            lemma_view_at(nodes, i);
        }
    }
    assert(view_of(after) =~= expected);
}

proof fn lemma_set_value(nodes: Seq<Node>, cur: int, value: usize)
    requires
        wf_nodes(nodes),
        0 <= cur < nodes.len(),
    ensures
        ({
            let after = nodes.update(cur, Node { value: Some(value), ..nodes[cur] });
            &&& wf_nodes(after)
            &&& view_of(after) == view_of(nodes).insert(path(nodes, cur), Some(value))
        }),
{
    let after = nodes.update(cur, Node { value: Some(value), ..nodes[cur] });
    assert forall|i: int| 0 <= i < nodes.len() implies #[trigger] path(after, i) == path(nodes, i) by {}
    assert forall|i: int, b: bool| 0 <= i < after.len() implies #[trigger] linked(after, i, b) by {
        assert(linked(nodes, i, b));
    }
    assert forall|j: int| 1 <= j < after.len() implies #[trigger] has_parent(after, j) by {
        assert(has_parent(nodes, j));
        let (i, b) = choose|i: int, b: bool| 0 <= i < j && #[trigger] child_is(nodes, i, b, j);
        assert(child_is(after, i, b, j));
    }
    assert forall|i: int, j: int| 0 <= i < j < after.len() implies #[trigger] path(after, i)
        != #[trigger] path(after, j) by {
        assert(path(nodes, i) != path(nodes, j));
    }
    assert(wf_nodes(after));
    let expected = view_of(nodes).insert(path(nodes, cur), Some(value));
    assert forall|p: Seq<bool>| view_of(after).dom().contains(p) <==> expected.dom().contains(p) by {
        if view_of(after).dom().contains(p) {
            let i = choose|i: int| at(after, i, p);
            assert(at(nodes, i, p));
        }
        if expected.dom().contains(p) {
            if p == path(nodes, cur) {
                assert(at(after, cur, p));
            } else {
                let i = choose|i: int| at(nodes, i, p);
                assert(at(after, i, p));
            }
        }
    }
    assert forall|p: Seq<bool>| view_of(after).dom().contains(p) implies #[trigger] view_of(after)[p]
        == expected[p] by {
        let i = choose|i: int| at(after, i, p);
        lemma_view_at(after, i);
        lemma_view_at(nodes, i);
        if i != cur {
            assert(path(nodes, i) != path(nodes, cur)) by {
                if i < cur {
                    assert(path(nodes, i) != path(nodes, cur));
                } else {
                    assert(path(nodes, cur) != path(nodes, i));
                }
            }
        }
    }
    assert(view_of(after) =~= expected);
}

proof fn lemma_grown_step(tree: Map<Seq<bool>, Option<usize>>, path: Seq<bool>, bit: bool)
    ensures
        grown(tree, path.push(bit)) == (if grown(tree, path).dom().contains(path.push(bit)) {
            grown(tree, path)
        } else {
            grown(tree, path).insert(path.push(bit), None)
        }),
{
    let longer = path.push(bit);
    assert forall|q: Seq<bool>| q.is_prefix_of(longer) <==> (q.is_prefix_of(path) || q == longer) by {
        if q.is_prefix_of(longer) {
            if q.len() == longer.len() {
                assert(q =~= longer);
            } else {
                assert(q =~= path.subrange(0, q.len() as int));
            }
        }
        if q.is_prefix_of(path) {
            assert(q =~= longer.subrange(0, q.len() as int));
        }
        if q == longer {
            assert(q =~= longer.subrange(0, q.len() as int));
        }
    }
    if grown(tree, path).dom().contains(longer) {
        assert(grown(tree, longer) =~= grown(tree, path));
    } else {
        assert(grown(tree, longer) =~= grown(tree, path).insert(longer, None));
    }
}

/// Decodes one symbol: from the node at `path`, the bits from `pos` on are
/// followed down the tree until a node with a symbol is reached. The result
/// is the symbol and the position behind its last bit. A node without
/// children, as the root of a tree without codes is, and a bit for which
/// the tree has no node are `CorruptStream`; the input ending first is
/// `UnexpectedEnd`.
pub open spec fn walk_symbol(
    tree: Map<Seq<bool>, Option<usize>>,
    bits: Seq<bool>,
    pos: int,
    path: Seq<bool>,
) -> Result<(usize, int), DeflateError>
    decreases bits.len() - pos,
{
    if !tree.dom().contains(path.push(false)) && !tree.dom().contains(path.push(true)) {
        Err(DeflateError::CorruptStream)
    } else if pos < 0 || pos >= bits.len() {
        Err(DeflateError::UnexpectedEnd)
    } else {
        let next = path.push(bits[pos]);
        if !tree.dom().contains(next) {
            Err(DeflateError::CorruptStream)
        } else if let Some(symbol) = tree[next] {
            Ok((symbol, pos + 1))
        } else {
            walk_symbol(tree, bits, pos + 1, next)
        }
    }
}

/// Decodes one symbol from the root of the tree.
pub open spec fn decode_symbol(tree: Map<Seq<bool>, Option<usize>>, bits: Seq<bool>, pos: int) -> Result<
    (usize, int),
    DeflateError,
> {
    walk_symbol(tree, bits, pos, Seq::<bool>::empty())
}

/// A decoded symbol ends behind the position it began at, and within the input.
pub proof fn lemma_walk_advances(
    tree: Map<Seq<bool>, Option<usize>>,
    bits: Seq<bool>,
    pos: int,
    path: Seq<bool>,
)
    ensures
        walk_symbol(tree, bits, pos, path) matches Ok((_, end)) ==> pos < end <= bits.len(),
    decreases bits.len() - pos,
{
    if 0 <= pos < bits.len() {
        let next = path.push(bits[pos]);
        if tree.dom().contains(next) && tree[next] is None {
            lemma_walk_advances(tree, bits, pos + 1, next);
        }
    }
}

/// A vector of `n` zeros.
fn zeros(n: usize) -> (v: Vec<usize>)
    ensures
        v@.len() == n,
        forall|i: int| 0 <= i < n ==> v@[i] == 0,
{
    let mut v: Vec<usize> = Vec::new();
    let mut i: usize = 0;
    while i < n
        invariant
            i <= n,
            v@.len() == i,
            forall|k: int| 0 <= k < i ==> v@[k] == 0,
        decreases n - i,
    {
        v.push(0);
        i += 1;
    }
    v
}

/// Two to the power of `e`.
fn power_of_two(e: u8) -> (r: u32)
    requires
        e <= 15,
    ensures
        r == pow2(e as nat),
        r <= 32768,
{
    let mut r: u32 = 1;
    let mut k: u8 = 0;
    proof {
        lemma2_to64();
    }
    while k < e
        invariant
            k <= e <= 15,
            r == pow2(k as nat),
            r <= pow2(15),
            pow2(15) == 32768,
        decreases e - k,
    {
        proof {
            lemma_pow2_unfold((k + 1) as nat);
            if k + 1 < 15 {
                vstd::arithmetic::power2::lemma_pow2_strictly_increases((k + 1) as nat, 15);
            }
        }
        r = r * 2;
        k += 1;
    }
    r
}

impl PrefixTree {
    /// The nodes form a tree under the root, each at the path that its code
    /// spells, no two at the same path, and the walk stands on one of them.
    pub closed spec fn wf(&self) -> bool {
        &&& wf_nodes(self.nodes@)
        &&& self.current < self.nodes@.len()
    }

    /// The tree as a map from the paths of its nodes to their symbols.
    pub closed spec fn view(&self) -> Map<Seq<bool>, Option<usize>> {
        view_of(self.nodes@)
    }

    /// The path from the root to the node that the walk has reached.
    pub closed spec fn position(&self) -> Seq<bool> {
        path(self.nodes@, self.current as int)
    }

    /// Creates a tree that holds the root alone.
    pub fn new() -> (tree: Self)
        ensures
            tree.wf(),
            tree@ == Map::<Seq<bool>, Option<usize>>::empty().insert(Seq::<bool>::empty(), None),
            tree.position() == Seq::<bool>::empty(),
    {
        let mut nodes: Vec<Node> = Vec::new();
        nodes.push(Node::new());
        let tree = Self { nodes, current: 0 };
        proof {
            assert(path(tree.nodes@, 0) =~= Seq::<bool>::empty());
            assert(wf_nodes(tree.nodes@));
            lemma_view_at(tree.nodes@, 0);
            assert(tree@ =~= Map::<Seq<bool>, Option<usize>>::empty().insert(Seq::<bool>::empty(), None));
        }
        tree
    }

    /// Enters `code` for the symbol `value`: the nodes on the code's path that
    /// the tree lacks are created, the last of them takes the symbol, and the
    /// walk is back at the root.
    pub fn insert_code(&mut self, code: Code, value: usize)
        requires
            old(self).wf(),
            code.length <= 32,
        ensures
            final(self).wf(),
            final(self)@ == inserted(old(self)@, code@, value),
            final(self).position() == Seq::<bool>::empty(),
    {
        let mut cur: usize = 0;
        let mut k: u8 = 0;
        let mut cur_code = Code::new();
        proof {
            assert(path(self.nodes@, 0) =~= Seq::<bool>::empty());
            assert(code@.take(0) =~= Seq::<bool>::empty());
            assert(self@ =~= grown(self@, code@.take(0))) by {
                lemma_view_at(self.nodes@, 0);
                assert forall|q: Seq<bool>| q.is_prefix_of(Seq::<bool>::empty()) implies q
                    == Seq::<bool>::empty() by {
                    assert(q =~= Seq::<bool>::empty());
                }
            }
        }
        while k < code.length
            invariant
                code.length <= 32,
                k <= code.length,
                wf_nodes(self.nodes@),
                cur < self.nodes@.len(),
                cur_code.length == k,
                cur_code@ == code@.take(k as int),
                path(self.nodes@, cur as int) == code@.take(k as int),
                view_of(self.nodes@) == grown(old(self)@, code@.take(k as int)),
            decreases code.length - k,
        {
            let bit = code.bit_at(k);
            let node = self.nodes[cur];
            let child = if bit == 0 {
                node.left
            } else {
                node.right
            };
            let ghost before = self.nodes@;
            let ghost step = code@.take(k as int);
            cur_code.push_bit(bit);
            proof {
                assert(step.push(bit == 1) =~= code@.take(k + 1));
                lemma_grown_step(old(self)@, step, bit == 1);
                assert(linked(before, cur as int, bit == 1));
            }
            match child {
                Some(j) => {
                    proof {
                        lemma_view_at(before, j as int);
                    }
                    cur = j;
                },
                None => {
                    let j = self.nodes.len();
                    let mut fresh = Node::new();
                    fresh.code = cur_code;
                    let mut parent = node;
                    if bit == 0 {
                        parent.left = Some(j);
                    } else {
                        parent.right = Some(j);
                    }
                    self.nodes.set(cur, parent);
                    self.nodes.push(fresh);
                    proof {
                        lemma_no_child_no_node(before, cur as int, bit == 1);
                        lemma_add_child(before, cur as int, bit == 1, fresh);
                        assert(parent == with_child(node, bit == 1, j));
                    }
                    cur = j;
                },
            }
            k += 1;
        }
        let mut leaf = self.nodes[cur];
        leaf.value = Some(value);
        proof {
            lemma_set_value(self.nodes@, cur as int, value);
            assert(code@.take(code.length as int) =~= code@);
        }
        self.nodes.set(cur, leaf);
        self.current = 0;
        proof {
            assert(path(self.nodes@, 0).len() == 0);
            assert(path(self.nodes@, 0) =~= Seq::<bool>::empty());
        }
    }

    /// Builds the tree of the canonical codes that the code lengths give,
    /// `code_lengths[s]` being the length of the code of symbol `s` and 0
    /// standing for a symbol without a code. Lengths above 15, and sets of
    /// two or more codes that are not complete, are refused.
    pub fn from_lengths(code_lengths: &[u8]) -> (r: Result<Self, DeflateError>)
        ensures
            valid_code_lengths(code_lengths@) ==> r is Ok && r->Ok_0.wf() && r->Ok_0@ == canonical_tree(
                code_lengths@,
            ) && r->Ok_0.position() == Seq::<bool>::empty(),
            !valid_code_lengths(code_lengths@) ==> r is Err && r->Err_0 == DeflateError::CorruptStream,
    {
        let ghost lengths = code_lengths@;
        let n = code_lengths.len();
        let mut counts = zeros(16);
        let mut used: usize = 0;
        let mut sum: u32 = 0;
        let mut i: usize = 0;
        while i < n
            invariant
                i <= n,
                n == lengths.len(),
                lengths == code_lengths@,
                counts@.len() == 16,
                forall|k: int| 0 <= k < i ==> lengths[k] <= 15,
                forall|m: int| 0 <= m < 16 ==> counts@[m] == length_count(lengths.take(i as int), m),
                used == used_symbols(lengths.take(i as int)),
                used <= i,
                sum <= 32768 ==> sum == kraft_sum(lengths.take(i as int)),
                sum > 32768 ==> kraft_sum(lengths.take(i as int)) > 32768,
                sum <= 32768 + 16384,
            decreases n - i,
        {
            let len = code_lengths[i];
            if len > 15 {
                return Err(DeflateError::CorruptStream);
            }
            proof {
                assert(lengths.take(i + 1).drop_last() =~= lengths.take(i as int));
                assert forall|m: int| 0 <= m < 16 implies length_count(lengths.take(i + 1), m)
                    == length_count(lengths.take(i as int), m) + (if lengths[i as int] == m {
                    1nat
                } else {
                    0nat
                }) by {
                    lemma_count_take(lengths, i as int, m);
                }
                crate::canonical::lemma_count_bound(lengths.take(i + 1), len as int);
                lemma_count_take(lengths, i as int, 0);
                crate::canonical::lemma_count_bound(lengths.take(i as int), 0);
                if len > 0 {
                    crate::canonical::lemma_pow2_le_16384((15 - len) as nat);
                }
            }
            let seen = counts[len as usize];
            counts.set(len as usize, seen + 1);
            if len > 0 {
                used += 1;
                if sum <= 32768 {
                    sum += power_of_two(15 - len);
                }
            }
            i += 1;
        }
        proof {
            assert(lengths.take(n as int) =~= lengths);
            lemma2_to64();
        }
        if used > 1 && sum != 32768 {
            return Err(DeflateError::CorruptStream);
        }
        assert(valid_code_lengths(lengths));
        let mut next_code = zeros(16);
        let mut m: usize = 1;
        proof {
            assert(first_code(lengths, 0) == 0);
        }
        while m < 16
            invariant
                1 <= m <= 16,
                valid_code_lengths(lengths),
                counts@.len() == 16,
                next_code@.len() == 16,
                forall|k: int| 0 <= k < 16 ==> counts@[k] == length_count(lengths, k),
                forall|k: int| 0 <= k < m ==> next_code@[k] == first_code(lengths, k as nat),
            decreases 16 - m,
        {
            let below = if m == 1 {
                0
            } else {
                counts[m - 1]
            };
            proof {
                lemma_first_code(lengths, m as nat);
                lemma_class_sum_fits(lengths, (m - 1) as nat);
                crate::canonical::lemma_pow2_le_32768((m - 1) as nat);
                if m > 1 {
                    lemma_first_code(lengths, (m - 1) as nat);
                }
            }
            let code = 2 * (next_code[m - 1] + below);
            next_code.set(m, code);
            m += 1;
        }
        let mut tree = PrefixTree::new();
        let mut j: usize = 0;
        proof {
            lemma_code_tree_start(lengths);
            assert(lengths.take(0) =~= Seq::<u8>::empty());
        }
        while j < n
            invariant
                j <= n,
                n == lengths.len(),
                lengths == code_lengths@,
                valid_code_lengths(lengths),
                next_code@.len() == 16,
                forall|k: int|
                    1 <= k < 16 ==> next_code@[k] == first_code(lengths, k as nat) + length_count(
                        lengths.take(j as int),
                        k,
                    ),
                tree.wf(),
                tree@ == code_tree(lengths, j as int),
                tree.position() == Seq::<bool>::empty(),
            decreases n - j,
        {
            let len = code_lengths[j];
            proof {
                lemma_code_tree_step(lengths, j as int);
                assert forall|k: int| 1 <= k < 16 implies length_count(lengths.take(j + 1), k)
                    == length_count(lengths.take(j as int), k) + (if lengths[j as int] == k {
                    1nat
                } else {
                    0nat
                }) by {
                    lemma_count_take(lengths, j as int, k);
                }
            }
            if len != 0 {
                let code = next_code[len as usize];
                proof {
                    lemma_code_fits(lengths, j as int);
                }
                let entry = Code::from(code as u32, len);
                assert(entry@ =~= code_path(lengths, j as int));
                tree.insert_code(entry, j);
                next_code.set(len as usize, code + 1);
            }
            j += 1;
        }
        Ok(tree)
    }

    /// Puts the walk back at the root.
    pub fn reset(&mut self)
        requires
            old(self).wf(),
        ensures
            final(self).wf(),
            final(self)@ == old(self)@,
            final(self).nodes == old(self).nodes,
            final(self).position() == Seq::<bool>::empty(),
    {
        self.current = 0;
        proof {
            assert(path(self.nodes@, 0) =~= Seq::<bool>::empty());
        }
    }

    /// Whether the node that the walk has reached has a child for `direction`.
    pub fn has_branch(&self, direction: u8) -> (r: bool)
        requires
            self.wf(),
            direction < 2,
        ensures
            r == self@.dom().contains(self.position().push(direction == 1)),
    {
        let node = self.nodes[self.current];
        let child = if direction == 0 {
            node.left
        } else {
            node.right
        };
        proof {
            let bit = direction == 1;
            assert(linked(self.nodes@, self.current as int, bit));
            match child {
                Some(j) => {
                    lemma_view_at(self.nodes@, j as int);
                },
                None => {
                    lemma_no_child_no_node(self.nodes@, self.current as int, bit);
                },
            }
        }
        child.is_some()
    }

    /// Takes one step from the node that the walk has reached, to its child
    /// for `direction`. Where that child carries a symbol, the symbol is
    /// returned and the walk is back at the root. Where there is no such
    /// child, nothing is returned and the walk stays where it is.
    pub fn walk(&mut self, direction: u8) -> (r: Option<usize>)
        requires
            old(self).wf(),
            direction < 2,
        ensures
            final(self).wf(),
            final(self)@ == old(self)@,
            final(self).nodes == old(self).nodes,
            ({
                let next = old(self).position().push(direction == 1);
                if !old(self)@.dom().contains(next) {
                    r is None && final(self).position() == old(self).position()
                } else if old(self)@[next] is Some {
                    r == old(self)@[next] && final(self).position() == Seq::<bool>::empty()
                } else {
                    r is None && final(self).position() == next
                }
            }),
    {
        let node = self.nodes[self.current];
        let child = if direction == 0 {
            node.left
        } else {
            node.right
        };
        proof {
            let bit = direction == 1;
            assert(linked(self.nodes@, self.current as int, bit));
            match child {
                Some(j) => {
                    lemma_view_at(self.nodes@, j as int);
                },
                None => {
                    lemma_no_child_no_node(self.nodes@, self.current as int, bit);
                },
            }
            assert(path(self.nodes@, 0) =~= Seq::<bool>::empty());
        }
        match child {
            Some(j) => {
                let value = self.nodes[j].value;
                if value.is_some() {
                    self.current = 0;
                } else {
                    self.current = j;
                }
                value
            },
            None => None,
        }
    }
}

impl Default for PrefixTree {
    fn default() -> (tree: Self)
        ensures
            tree.wf(),
            tree@ == Map::<Seq<bool>, Option<usize>>::empty().insert(Seq::<bool>::empty(), None),
            tree.position() == Seq::<bool>::empty(),
    {
        PrefixTree::new()
    }
}

} // verus!
