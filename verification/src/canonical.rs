//! Facts about canonical code assignments.

use crate::inflate::DeflateError;
use crate::prefix::{
    canonical_code, canonical_tree, code_bit, code_path, code_tree, decode_symbol, first_code,
    has_code, inserted, kraft_sum, length_count, on_code, used_symbols, valid_code_lengths,
    walk_symbol,
};
use vstd::arithmetic::power2::{lemma2_to64, lemma_pow2_adds, lemma_pow2_pos, lemma_pow2_unfold, pow2};
use vstd::prelude::*;

verus! {

/// The sum, over the symbols with a code of at most `n` bits, of 2 to the
/// power of `n` minus the code's length.
pub open spec fn class_sum(lengths: Seq<u8>, n: nat) -> nat
    decreases n,
{
    if n == 0 {
        0
    } else {
        2 * class_sum(lengths, (n - 1) as nat) + length_count(lengths, n as int)
    }
}

/// One more symbol adds one to the count of its own length.
pub proof fn lemma_count_push(lengths: Seq<u8>, x: u8, n: int)
    ensures
        length_count(lengths.push(x), n) == length_count(lengths, n) + (if x == n {
            1nat
        } else {
            0nat
        }),
{
    assert(lengths.push(x).drop_last() =~= lengths);
}

/// Counting in a prefix that is one symbol longer.
pub proof fn lemma_count_take(lengths: Seq<u8>, k: int, n: int)
    requires
        0 <= k < lengths.len(),
    ensures
        length_count(lengths.take(k + 1), n) == length_count(lengths.take(k), n) + (if lengths[k] == n {
            1nat
        } else {
            0nat
        }),
{
    assert(lengths.take(k + 1).drop_last() =~= lengths.take(k));
}

/// A longer prefix holds at least as many symbols of each length.
pub proof fn lemma_count_take_mono(lengths: Seq<u8>, a: int, b: int, n: int)
    requires
        0 <= a <= b <= lengths.len(),
    ensures
        length_count(lengths.take(a), n) <= length_count(lengths.take(b), n),
    decreases b - a,
{
    if a < b {
        lemma_count_take_mono(lengths, a, b - 1, n);
        lemma_count_take(lengths, b - 1, n);
    }
}

/// No length occurs more often than there are symbols.
pub proof fn lemma_count_bound(lengths: Seq<u8>, n: int)
    ensures
        length_count(lengths, n) <= lengths.len(),
    decreases lengths.len(),
{
    if lengths.len() > 0 {
        lemma_count_bound(lengths.drop_last(), n);
    }
}

proof fn lemma_class_sum_empty(n: nat)
    ensures
        class_sum(Seq::<u8>::empty(), n) == 0,
    decreases n,
{
    if n > 0 {
        lemma_class_sum_empty((n - 1) as nat);
    }
}

proof fn lemma_class_sum_push(lengths: Seq<u8>, x: u8, n: nat)
    ensures
        class_sum(lengths.push(x), n) == class_sum(lengths, n) + (if 1 <= x <= n {
            pow2((n - x) as nat)
        } else {
            0nat
        }),
    decreases n,
{
    if n > 0 {
        lemma_class_sum_push(lengths, x, (n - 1) as nat);
        lemma_count_push(lengths, x, n as int);
        if x == n {
            lemma2_to64();
        } else if 1 <= x < n {
            lemma_pow2_unfold((n - x) as nat);
        }
    }
}

/// The sum over the symbols equals the sum over the lengths.
pub proof fn lemma_kraft_is_class_sum(lengths: Seq<u8>)
    ensures
        kraft_sum(lengths) == class_sum(lengths, 15),
    decreases lengths.len(),
{
    if lengths.len() == 0 {
        assert(lengths =~= Seq::<u8>::empty());
        lemma_class_sum_empty(15);
    } else {
        lemma_kraft_is_class_sum(lengths.drop_last());
        lemma_class_sum_push(lengths.drop_last(), lengths.last(), 15);
        assert(lengths.drop_last().push(lengths.last()) =~= lengths);
    }
}

proof fn lemma_class_sum_scale(lengths: Seq<u8>, n: nat, m: nat)
    requires
        n <= m,
    ensures
        class_sum(lengths, n) * pow2((m - n) as nat) <= class_sum(lengths, m),
    decreases m - n,
{
    if n == m {
        lemma2_to64();
    } else {
        lemma_class_sum_scale(lengths, n, (m - 1) as nat);
        lemma_pow2_unfold((m - n) as nat);
        let a = class_sum(lengths, n);
        let p = pow2((m - 1 - n) as nat);
        assert(a * (2 * p) == 2 * (a * p)) by (nonlinear_arith);
    }
}

/// The first code of a length is twice the sum over the shorter lengths.
pub proof fn lemma_first_code(lengths: Seq<u8>, n: nat)
    requires
        n >= 1,
    ensures
        first_code(lengths, n) == 2 * class_sum(lengths, (n - 1) as nat),
    decreases n,
{
    if n > 1 {
        lemma_first_code(lengths, (n - 1) as nat);
    } else {
        assert(first_code(lengths, 0) == 0);
        assert(class_sum(lengths, 0) == 0);
    }
}

/// Each symbol with a code adds at most 2 to the power of 14 to the sum.
proof fn lemma_kraft_used_bound(lengths: Seq<u8>)
    ensures
        kraft_sum(lengths) <= used_symbols(lengths) * 16384,
    decreases lengths.len(),
{
    lemma_count_bound(lengths, 0);
    if lengths.len() > 0 {
        let front = lengths.drop_last();
        lemma_kraft_used_bound(front);
        lemma_count_bound(front, 0);
        lemma2_to64();
        let x = lengths.last();
        if 1 <= x <= 15 {
            lemma_pow2_le_16384((15 - x) as nat);
        }
    }
}

/// Powers of two up to the fourteenth.
pub proof fn lemma_pow2_le_16384(e: nat)
    requires
        e <= 14,
    ensures
        pow2(e) <= 16384,
    decreases 14 - e,
{
    lemma2_to64();
    if e < 14 {
        lemma_pow2_le_16384(e + 1);
        lemma_pow2_unfold(e + 1);
    }
}

/// In a valid set of code lengths the codes of up to `n` bits fill at most
/// the room that `n` bits give.
pub proof fn lemma_class_sum_fits(lengths: Seq<u8>, n: nat)
    requires
        valid_code_lengths(lengths),
        n <= 15,
    ensures
        class_sum(lengths, n) <= pow2(n),
{
    lemma2_to64();
    lemma_kraft_is_class_sum(lengths);
    lemma_kraft_used_bound(lengths);
    lemma_class_sum_scale(lengths, n, 15);
    lemma_pow2_adds(n, (15 - n) as nat);
    lemma_pow2_pos((15 - n) as nat);
    let a = class_sum(lengths, n) as int;
    let b = pow2(n) as int;
    let p = pow2((15 - n) as nat) as int;
    assert(a * p <= b * p);
    assert(a <= b) by (nonlinear_arith)
        requires
            a * p <= b * p,
            p > 0,
    ;
}

/// In a valid set of code lengths every canonical code fits in its length.
pub proof fn lemma_code_fits(lengths: Seq<u8>, sym: int)
    requires
        valid_code_lengths(lengths),
        0 <= sym < lengths.len(),
        lengths[sym] > 0,
    ensures
        canonical_code(lengths, sym) < pow2(lengths[sym] as nat),
        canonical_code(lengths, sym) < 32768,
{
    let n = lengths[sym] as nat;
    lemma_first_code(lengths, n);
    lemma_class_sum_fits(lengths, n);
    lemma_count_take(lengths, sym, n as int);
    lemma_count_take_mono(lengths, sym + 1, lengths.len() as int, n as int);
    assert(lengths.take(lengths.len() as int) =~= lengths);
    lemma2_to64();
    lemma_pow2_le_32768(n);
}

/// Powers of two up to the fifteenth.
pub proof fn lemma_pow2_le_32768(e: nat)
    requires
        e <= 15,
    ensures
        pow2(e) <= 32768,
    decreases 15 - e,
{
    lemma2_to64();
    if e < 15 {
        lemma_pow2_le_32768(e + 1);
        lemma_pow2_unfold(e + 1);
    }
}

/// The powers of two from the first to the sixteenth.
pub proof fn lemma_pow2_values()
    ensures
        pow2(0) == 1,
        pow2(1) == 2,
        pow2(2) == 4,
        pow2(3) == 8,
        pow2(4) == 16,
        pow2(5) == 32,
        pow2(6) == 64,
        pow2(7) == 128,
        pow2(8) == 256,
        pow2(9) == 512,
        pow2(10) == 1024,
        pow2(11) == 2048,
        pow2(12) == 4096,
        pow2(13) == 8192,
        pow2(14) == 16384,
        pow2(15) == 32768,
        pow2(16) == 65536,
{
    lemma2_to64();
}

/// Powers of two up to the fifth.
pub proof fn lemma_pow2_le_32(e: nat)
    requires
        e <= 5,
    ensures
        pow2(e) <= 32,
    decreases 5 - e,
{
    lemma2_to64();
    if e < 5 {
        lemma_pow2_le_32(e + 1);
        lemma_pow2_unfold(e + 1);
    }
}

/// Powers of two up to the sixteenth.
pub proof fn lemma_pow2_le_65536(e: nat)
    requires
        e <= 16,
    ensures
        pow2(e) <= 65536,
    decreases 16 - e,
{
    lemma2_to64();
    if e < 16 {
        lemma_pow2_le_65536(e + 1);
        lemma_pow2_unfold(e + 1);
    }
}

proof fn lemma_shifted_bit(a: u32, k: u32)
    by (bit_vector)
    requires
        k < 31,
    ensures
        code_bit(a >> 1u32, k) == code_bit(a, (k + 1) as u32),
{
}

proof fn lemma_split_low_bit(a: u32)
    by (bit_vector)
    ensures
        a == 2 * (a >> 1u32) + (if code_bit(a, 0) {
            1u32
        } else {
            0u32
        }),
{
}

proof fn lemma_bits_determine(a: u32, b: u32, n: nat)
    requires
        n <= 32,
        a < pow2(n),
        b < pow2(n),
        forall|k: u32| k < n ==> #[trigger] code_bit(a, k) == code_bit(b, k),
    ensures
        a == b,
    decreases n,
{
    lemma2_to64();
    if n > 0 {
        let a1: u32 = a >> 1u32;
        let b1: u32 = b >> 1u32;
        lemma_split_low_bit(a);
        lemma_split_low_bit(b);
        lemma_pow2_unfold(n);
        assert forall|k: u32| k < n - 1 implies #[trigger] code_bit(a1, k) == code_bit(b1, k) by {
            lemma_shifted_bit(a, k);
            lemma_shifted_bit(b, k);
            assert(code_bit(a, (k + 1) as u32) == code_bit(b, (k + 1) as u32));
        }
        assert(code_bit(a, 0u32) == code_bit(b, 0u32));
        lemma_bits_determine(a1, b1, (n - 1) as nat);
    }
}

/// In a valid set of code lengths no two symbols have the same code.
pub proof fn lemma_codes_differ(lengths: Seq<u8>, s: int, t: int)
    requires
        valid_code_lengths(lengths),
        0 <= s < lengths.len(),
        0 <= t < lengths.len(),
        lengths[s] > 0,
        lengths[t] > 0,
        s != t,
    ensures
        code_path(lengths, s) != code_path(lengths, t),
{
    if lengths[s] == lengths[t] {
        let n = lengths[s] as nat;
        lemma_code_fits(lengths, s);
        lemma_code_fits(lengths, t);
        let lo = if s < t {
            s
        } else {
            t
        };
        let hi = if s < t {
            t
        } else {
            s
        };
        lemma_count_take(lengths, lo, n as int);
        lemma_count_take_mono(lengths, lo + 1, hi, n as int);
        assert(canonical_code(lengths, s) != canonical_code(lengths, t));
        let a = canonical_code(lengths, s) as u32;
        let b = canonical_code(lengths, t) as u32;
        if code_path(lengths, s) == code_path(lengths, t) {
            assert forall|k: u32| k < n implies #[trigger] code_bit(a, k) == code_bit(b, k) by {
                let j = n - 1 - k;
                assert(code_path(lengths, s)[j] == code_path(lengths, t)[j]);
            }
            lemma_bits_determine(a, b, n);
        }
    } else {
        assert(code_path(lengths, s).len() != code_path(lengths, t).len());
    }
}

/// The codes of one length are handed out in the order of the symbols: a
/// symbol has the code behind that of the symbol before it with the same
/// length.
pub proof fn lemma_codes_consecutive(lengths: Seq<u8>, s: int, t: int)
    requires
        0 <= s < t < lengths.len(),
        lengths[s] == lengths[t],
        forall|u: int| s < u < t ==> lengths[u] != lengths[s],
    ensures
        canonical_code(lengths, t) == canonical_code(lengths, s) + 1,
{
    let n = lengths[s] as int;
    lemma_count_take(lengths, s, n);
    lemma_count_in_gap(lengths, s + 1, t, n);
}

proof fn lemma_count_in_gap(lengths: Seq<u8>, a: int, b: int, n: int)
    requires
        0 <= a <= b <= lengths.len(),
        forall|u: int| a <= u < b ==> lengths[u] != n,
    ensures
        length_count(lengths.take(b), n) == length_count(lengths.take(a), n),
    decreases b - a,
{
    if a < b {
        lemma_count_in_gap(lengths, a, b - 1, n);
        lemma_count_take(lengths, b - 1, n);
    }
}

/// A shorter code is numerically smaller than a longer one when both are
/// aligned at their first bits: the longer code lies behind every
/// continuation of the shorter one.
pub proof fn lemma_shorter_code_smaller(lengths: Seq<u8>, s: int, t: int)
    requires
        valid_code_lengths(lengths),
        0 <= s < lengths.len(),
        0 <= t < lengths.len(),
        0 < lengths[s] < lengths[t],
    ensures
        (canonical_code(lengths, s) + 1) * pow2((lengths[t] - lengths[s]) as nat) <= canonical_code(
            lengths,
            t,
        ),
{
    let a = lengths[s] as nat;
    let b = lengths[t] as nat;
    lemma_first_code(lengths, a);
    lemma_first_code(lengths, b);
    lemma_class_sum_scale(lengths, a, (b - 1) as nat);
    lemma_count_take(lengths, s, a as int);
    lemma_count_take_mono(lengths, s + 1, lengths.len() as int, a as int);
    assert(lengths.take(lengths.len() as int) =~= lengths);
    lemma_pow2_unfold((b - a) as nat);
    let own = canonical_code(lengths, s) as int;
    let filled = class_sum(lengths, a) as int;
    let half = pow2((b - 1 - a) as nat) as int;
    let below = class_sum(lengths, (b - 1) as nat) as int;
    assert(own + 1 <= filled);
    assert(filled * half <= below);
    assert((own + 1) * (2 * half) <= 2 * below) by (nonlinear_arith)
        requires
            own + 1 <= filled,
            filled * half <= below,
            half >= 0,
    ;
}

proof fn lemma_bit_of_shifted(c: u32, n: u32, k: u32)
    by (bit_vector)
    requires
        n < 32,
        k < 32,
        k + n < 32,
    ensures
        code_bit(c >> n, k) == code_bit(c, (k + n) as u32),
{
}

/// In a valid set of code lengths no code is the beginning of another.
pub proof fn lemma_codes_prefix_free(lengths: Seq<u8>, s: int, t: int)
    requires
        valid_code_lengths(lengths),
        0 <= s < lengths.len(),
        0 <= t < lengths.len(),
        lengths[s] > 0,
        lengths[t] > 0,
        s != t,
    ensures
        !code_path(lengths, s).is_prefix_of(code_path(lengths, t)),
{
    let a = lengths[s] as nat;
    let b = lengths[t] as nat;
    let short = code_path(lengths, s);
    let long = code_path(lengths, t);
    if short.is_prefix_of(long) {
        if a == b {
            lemma_codes_differ(lengths, s, t);
            assert(short =~= long);
        } else {
            assert(a < b);
            let n = (b - a) as nat;
            lemma_code_fits(lengths, s);
            lemma_code_fits(lengths, t);
            lemma_shorter_code_smaller(lengths, s, t);
            let c = canonical_code(lengths, t) as u32;
            let own = canonical_code(lengths, s) as u32;
            let top = c >> (n as u32);
            vstd::bits::lemma_u32_shr_is_div(c, n as u32);
            lemma_pow2_adds(a, n);
            lemma_pow2_pos(n);
            lemma_pow2_pos(a);
            let step = pow2(n) as int;
            let room = pow2(a) as int;
            assert(top as int == (c as int) / step);
            assert((c as int) / step < room) by (nonlinear_arith)
                requires
                    0 <= c < room * step,
                    step > 0,
            ;
            assert forall|k: u32| k < a implies #[trigger] code_bit(top, k) == code_bit(own, k) by {
                lemma_bit_of_shifted(c, n as u32, k);
                let i = a - 1 - k;
                assert(short[i] == long[i]) by {
                    assert(short =~= long.subrange(0, short.len() as int));
                    assert(long.subrange(0, short.len() as int)[i] == long[i]);
                }
            }
            lemma_bits_determine(top, own, a);
            assert((c as int) < (own + 1) * step) by (nonlinear_arith)
                requires
                    (c as int) / step == own,
                    step > 0,
                    c >= 0,
            ;
        }
    }
}

proof fn lemma_walk_along_code(lengths: Seq<u8>, sym: int, bits: Seq<bool>, pos: int, k: int)
    requires
        valid_code_lengths(lengths),
        lengths.len() <= usize::MAX,
        0 <= sym < lengths.len(),
        lengths[sym] > 0,
        0 <= pos,
        pos + lengths[sym] <= bits.len(),
        bits.subrange(pos, pos + lengths[sym]) == code_path(lengths, sym),
        0 <= k < lengths[sym],
    ensures
        walk_symbol(canonical_tree(lengths), bits, pos + k, code_path(lengths, sym).take(k)) == Ok::<
            (usize, int),
            DeflateError,
        >((sym as usize, pos + lengths[sym])),
    decreases lengths[sym] - k,
{
    let tree = canonical_tree(lengths);
    let upto = lengths.len() as int;
    let own = code_path(lengths, sym);
    let next = own.take(k).push(bits[pos + k]);
    assert(bits[pos + k] == own[k]) by {
        assert(bits.subrange(pos, pos + lengths[sym])[k] == bits[pos + k]);
    }
    assert(next =~= own.take(k + 1));
    assert(next.is_prefix_of(own)) by {
        assert(next =~= own.subrange(0, next.len() as int));
    }
    assert(on_code(lengths, upto, sym, next));
    assert(tree.dom().contains(next));
    if k + 1 < lengths[sym] {
        if exists|u: int| has_code(lengths, upto, u, next) {
            let u = choose|u: int| has_code(lengths, upto, u, next);
            assert(u != sym);
            lemma_codes_prefix_free(lengths, u, sym);
        }
        assert(tree[next] is None);
        lemma_walk_along_code(lengths, sym, bits, pos, k + 1);
    } else {
        assert(own.take(k + 1) =~= own);
        assert(has_code(lengths, upto, sym, next));
        let u = choose|u: int| has_code(lengths, upto, u, next);
        if u != sym {
            lemma_codes_differ(lengths, u, sym);
        }
        assert(tree[next] == Some(sym as usize));
    }
}

/// Decoding finds the symbol whose code stands in the input: where the
/// bits at `pos` spell the canonical code of a symbol, that symbol is
/// decoded and the position behind its code is reached.
pub proof fn lemma_symbol_decodes(lengths: Seq<u8>, sym: int, bits: Seq<bool>, pos: int)
    requires
        valid_code_lengths(lengths),
        lengths.len() <= usize::MAX,
        0 <= sym < lengths.len(),
        lengths[sym] > 0,
        0 <= pos,
        pos + lengths[sym] <= bits.len(),
        bits.subrange(pos, pos + lengths[sym]) == code_path(lengths, sym),
    ensures
        decode_symbol(canonical_tree(lengths), bits, pos) == Ok::<(usize, int), DeflateError>(
            (sym as usize, pos + lengths[sym]),
        ),
{
    lemma_walk_along_code(lengths, sym, bits, pos, 0);
    assert(code_path(lengths, sym).take(0) =~= Seq::<bool>::empty());
}

/// The code lengths that no symbol without a code takes part in: symbols of
/// two different lengths are two symbols with a code.
proof fn lemma_counts_within_used(lengths: Seq<u8>, n: int, m: int)
    requires
        1 <= n,
        1 <= m,
        n != m,
    ensures
        length_count(lengths, n) + length_count(lengths, m) <= used_symbols(lengths),
        length_count(lengths, 0) <= lengths.len(),
    decreases lengths.len(),
{
    if lengths.len() > 0 {
        lemma_counts_within_used(lengths.drop_last(), n, m);
    }
}

proof fn lemma_first_code_without_shorter(lengths: Seq<u8>, n: nat)
    requires
        forall|m: int| 1 <= m < n ==> length_count(lengths, m) == 0,
    ensures
        first_code(lengths, n) == 0,
    decreases n,
{
    if n > 0 {
        lemma_first_code_without_shorter(lengths, (n - 1) as nat);
    }
}

/// Where exactly one symbol has a code, the code is zero: all its bits are 0.
pub proof fn lemma_single_code_is_zero(lengths: Seq<u8>, sym: int)
    requires
        0 <= sym < lengths.len(),
        lengths[sym] > 0,
        used_symbols(lengths) == 1,
    ensures
        canonical_code(lengths, sym) == 0,
        forall|k: int| 0 <= k < lengths[sym] ==> !#[trigger] code_path(lengths, sym)[k],
{
    let n = lengths[sym] as int;
    lemma_count_take(lengths, sym, n);
    lemma_count_take_mono(lengths, sym + 1, lengths.len() as int, n);
    assert(lengths.take(lengths.len() as int) =~= lengths);
    assert forall|m: int| 1 <= m < n implies length_count(lengths, m) == 0 by {
        lemma_counts_within_used(lengths, n, m);
    }
    lemma_counts_within_used(lengths, n, n + 1);
    lemma_first_code_without_shorter(lengths, n as nat);
    assert forall|k: int| 0 <= k < lengths[sym] implies !#[trigger] code_path(lengths, sym)[k] by {
        lemma_zero_has_no_bits((n - 1 - k) as u32);
    }
}

proof fn lemma_zero_has_no_bits(k: u32)
    by (bit_vector)
    ensures
        !code_bit(0u32, k),
{
}

/// `count` symbols of the code length `length`.
pub open spec fn run(length: u8, count: nat) -> Seq<u8> {
    Seq::new(count, |i: int| length)
}

/// What a run of equal code lengths adds to the sum and to the unused symbols.
pub proof fn lemma_append_run(lengths: Seq<u8>, length: u8, count: nat)
    ensures
        kraft_sum(lengths + run(length, count)) == kraft_sum(lengths) + count * (if 1 <= length <= 15 {
            pow2((15 - length) as nat)
        } else {
            0nat
        }),
        length_count(lengths + run(length, count), 0) == length_count(lengths, 0) + (if length == 0 {
            count
        } else {
            0nat
        }),
    decreases count,
{
    let term = if 1 <= length <= 15 {
        pow2((15 - length) as nat)
    } else {
        0nat
    };
    if count == 0 {
        assert(lengths + run(length, 0) =~= lengths);
        assert(0 * term == 0) by (nonlinear_arith);
    } else {
        let shorter = (count - 1) as nat;
        lemma_append_run(lengths, length, shorter);
        assert((lengths + run(length, count)).drop_last() =~= lengths + run(length, shorter));
        assert(count * term == shorter * term + term) by (nonlinear_arith)
            requires
                count == shorter + 1,
        ;
    }
}

/// The tree of no symbols holds the root alone.
pub proof fn lemma_code_tree_start(lengths: Seq<u8>)
    ensures
        code_tree(lengths, 0) == Map::<Seq<bool>, Option<usize>>::empty().insert(
            Seq::<bool>::empty(),
            None,
        ),
{
    let root_only = Map::<Seq<bool>, Option<usize>>::empty().insert(Seq::<bool>::empty(), None);
    assert forall|p: Seq<bool>| code_tree(lengths, 0).dom().contains(p) <==> root_only.dom().contains(
        p,
    ) by {
        if p.len() == 0 {
            assert(p =~= Seq::<bool>::empty());
        }
    }
    assert forall|p: Seq<bool>| code_tree(lengths, 0).dom().contains(p) implies #[trigger] code_tree(
        lengths,
        0,
    )[p] == root_only[p] by {
        assert(p =~= Seq::<bool>::empty()) by {
            if p.len() != 0 {
                let s = choose|s: int| on_code(lengths, 0, s, p);
                assert(on_code(lengths, 0, s, p));
            }
        }
        assert(!exists|s: int| has_code(lengths, 0, s, p));
    }
    assert(code_tree(lengths, 0) =~= root_only);
}

/// The tree of one more symbol is the tree before with that symbol's code entered.
pub proof fn lemma_code_tree_step(lengths: Seq<u8>, j: int)
    requires
        valid_code_lengths(lengths),
        0 <= j < lengths.len(),
        lengths.len() <= usize::MAX,
    ensures
        code_tree(lengths, j + 1) == (if lengths[j] > 0 {
            inserted(code_tree(lengths, j), code_path(lengths, j), j as usize)
        } else {
            code_tree(lengths, j)
        }),
{
    let next = j + 1;
    let before = code_tree(lengths, j);
    let after = code_tree(lengths, next);
    let expected = if lengths[j] > 0 {
        inserted(before, code_path(lengths, j), j as usize)
    } else {
        before
    };
    let own = code_path(lengths, j);
    assert forall|p: Seq<bool>| after.dom().contains(p) <==> expected.dom().contains(p) by {
        if after.dom().contains(p) && p.len() != 0 {
            let s = choose|s: int| on_code(lengths, next, s, p);
            if s < j {
                assert(on_code(lengths, j, s, p));
            }
        }
        if before.dom().contains(p) && p.len() != 0 {
            let s = choose|s: int| on_code(lengths, j, s, p);
            assert(on_code(lengths, next, s, p));
        }
        if lengths[j] > 0 && p.is_prefix_of(own) {
            assert(on_code(lengths, next, j, p));
        }
    }
    assert forall|p: Seq<bool>| after.dom().contains(p) implies #[trigger] after[p] == expected[p] by {
        if exists|s: int| has_code(lengths, next, s, p) {
            let s = choose|s: int| has_code(lengths, next, s, p);
            if s == j {
                assert(p == own);
            } else {
                assert(has_code(lengths, j, s, p));
                let t = choose|t: int| has_code(lengths, j, t, p);
                if s != t {
                    lemma_codes_differ(lengths, s, t);
                }
                if lengths[j] > 0 && p == own {
                    lemma_codes_differ(lengths, s, j);
                }
                assert(own.is_prefix_of(own)) by {
                    assert(own =~= own.subrange(0, own.len() as int));
                }
                assert(p.is_prefix_of(p)) by {
                    assert(p =~= p.subrange(0, p.len() as int));
                }
                assert(on_code(lengths, j, s, p));
            }
        } else {
            if lengths[j] > 0 && p == own {
                assert(has_code(lengths, next, j, p));
            }
            if exists|t: int| has_code(lengths, j, t, p) {
                let t = choose|t: int| has_code(lengths, j, t, p);
                assert(has_code(lengths, next, t, p));
            }
        }
    }
    assert(after =~= expected);
}

} // verus!
