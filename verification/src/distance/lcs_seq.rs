//! The bit-parallel engine for the length of the longest common subsequence.
//!
//! A row of the dynamic-programming table is kept as a bit set with one bit
//! per key of the first sequence. Sequences of at most 64 keys use one machine
//! word; longer ones use an arbitrary-width integer.

use crate::bits::{
    agree_below, binary_digits, bit, carry, covers, lemma_bit_add, lemma_bit_and,
    lemma_bit_low_mask, lemma_bit_mod_pow2, lemma_bit_or, lemma_bit_sub, lemma_bit_zero,
    lemma_bits_equal, lemma_count_agree, lemma_covers_le, lemma_digits_len, lemma_ones_extend,
    lemma_ones_zeros, lemma_or_fresh_bit, lemma_u64_and, lemma_u64_or, lemma_zero_digits_tail,
    nat_and, nat_or, ones_below, tail, zero_digits, zeros_below,
};
use crate::lcs::{
    block_lcs, lcs_len, lemma_block_lcs_bounds, lemma_block_lcs_is_lcs, lemma_position_mask_absent,
    lemma_position_mask_bits, lemma_prefix_contains, lemma_prefix_mask, lemma_table_of_matches,
    mask_of, position_mask, row_state, row_step, table_of,
};
use crate::distance::block::Block;
use crate::wide::{
    wide_add, wide_and, wide_binary_string, wide_from_u64, wide_or, wide_shl, wide_sub, wide_value,
};
use num_bigint::BigUint;
use std::collections::HashMap;
use vstd::arithmetic::div_mod::{lemma_mod_multiples_vanish, lemma_small_mod};
use vstd::arithmetic::power2::{
    lemma2_to64, lemma2_to64_rest, lemma_pow2_adds, lemma_pow2_pos, lemma_pow2_strictly_increases,
    lemma_pow2_unfold, pow2,
};
use vstd::bits::{lemma_u64_pow2_no_overflow, lemma_u64_shl_is_mul};
use vstd::prelude::*;

verus! {

/// `u64::count_ones`: the number of bits that are set in the word.
pub assume_specification[ u64::count_ones ](x: u64) -> (r: u32)
    ensures
        r == ones_below(x as nat, 64),
;

/// Formatting a `u64` with `{:b}`: its binary digits as ASCII bytes, most
/// significant first, without leading zeros; `"0"` for zero.
#[verifier::external_body]
fn binary_string(s: u64) -> (r: Vec<u8>)
    ensures
        r@ == binary_digits(s as nat),
{
    format!("{:b}", s).into_bytes()
}

/// The masks of a table of machine words, as numbers.
pub open spec fn narrow_table(block: Map<u64, u64>) -> Map<u64, nat> {
    Map::new(|key: u64| block.contains_key(key), |key: u64| block[key] as nat)
}

/// The masks of a table of arbitrary-width integers, as numbers.
pub open spec fn wide_table(block: Map<u64, BigUint>) -> Map<u64, nat> {
    Map::new(|key: u64| block.contains_key(key), |key: u64| wide_value(block[key]))
}

/// The mask `2^width - 1` as a machine word.
fn low_mask(width: usize) -> (mask: u64)
    requires
        width <= 64,
    ensures
        mask as nat == pow2(width as nat) - 1,
{
    proof {
        lemma2_to64();
        lemma2_to64_rest();
    }
    if width == 64 {
        u64::MAX
    } else {
        let shift: u64 = width as u64;
        proof {
            lemma_u64_pow2_no_overflow(width as nat);
            lemma_u64_shl_is_mul(1, shift);
        }
        (1u64 << shift).wrapping_sub(1)
    }
}

/// Counts the zero bits among the least significant `bit_length` bits of
/// `num`, for a `bit_length` from 1 to 64.
pub fn count_trailing_zeros_in_range(num: u64, bit_length: usize) -> (r: usize)
    requires
        0 < bit_length <= 64,
    ensures
        r == zeros_below(num as nat, bit_length as nat),
{
    let mask = low_mask(bit_length);
    let masked = num & mask;
    let ones = masked.count_ones();
    proof {
        let width = bit_length as nat;
        lemma_u64_and(num, mask);
        assert forall|i: nat| width <= i < 64 implies !bit(masked as nat, i) by {
            lemma_bit_and(num as nat, mask as nat, i);
            lemma_bit_low_mask(width, i);
        }
        lemma_ones_extend(masked as nat, width, 64);
        assert(agree_below(masked as nat, num as nat, width)) by {
            assert forall|i: nat| i < width implies bit(masked as nat, i) == bit(num as nat, i) by {
                lemma_bit_and(num as nat, mask as nat, i);
                lemma_bit_low_mask(width, i);
            }
        }
        lemma_count_agree(masked as nat, num as nat, width);
        lemma_ones_zeros(num as nat, width);
    }
    bit_length - ones as usize
}

/// Counts the ASCII zeros among the last `width` digits, or among all of them
/// where there are fewer.
fn count_zero_digits(digits: &Vec<u8>, width: usize) -> (r: usize)
    ensures
        r == zero_digits(tail(digits@, width as nat)),
        r <= width,
{
    let len = digits.len();
    let start = if width >= len {
        0
    } else {
        len - width
    };
    let mut count: usize = 0;
    let mut i = start;
    while i < len
        invariant
            start <= i <= len,
            len == digits.len(),
            count == zero_digits(digits@.subrange(start as int, i as int)),
            count <= i - start,
        decreases len - i,
    {
        proof {
            let next = digits@.subrange(start as int, i + 1);
            assert(next.drop_last() =~= digits@.subrange(start as int, i as int));
        }
        if digits[i] == 48 {
            count += 1;
        }
        i += 1;
    }
    proof {
        assert(tail(digits@, width as nat) =~= digits@.subrange(start as int, len as int));
    }
    count
}

/// Counts the zeros among the last `s1.len()` digits of the binary string of
/// `s`. Where the string is shorter than `s1`, all of its digits are looked at.
pub fn count_zeros_in_binary_string(s: u64, s1: &Vec<u64>) -> (r: usize)
    ensures
        r == zeros_below(
            s as nat,
            if s1.len() <= binary_digits(s as nat).len() {
                s1.len() as nat
            } else {
                binary_digits(s as nat).len()
            },
        ),
{
    let digits = binary_string(s);
    proof {
        lemma2_to64();
        lemma_digits_len(s as nat, 0);
        if s1.len() <= digits.len() {
            lemma_zero_digits_tail(s as nat, s1.len() as nat);
        } else {
            lemma_zero_digits_tail(s as nat, digits.len() as nat);
        }
    }
    count_zero_digits(&digits, s1.len())
}

/// Counts the zeros among the last `s1.len()` digits of the binary string of
/// an arbitrary-width integer that has at least that many digits.
fn count_zeros_in_wide_binary_string(s: &BigUint, s1: &Vec<u64>) -> (r: usize)
    requires
        wide_value(*s) + 1 >= pow2(s1.len() as nat),
    ensures
        r == zeros_below(wide_value(*s), s1.len() as nat),
{
    let digits = wide_binary_string(s);
    proof {
        lemma_digits_len(wide_value(*s), s1.len() as nat);
        lemma_zero_digits_tail(wide_value(*s), s1.len() as nat);
    }
    count_zero_digits(&digits, s1.len())
}

/// The carries of two sums agree as far as the summands agree.
proof fn lemma_carry_agree(a1: nat, b1: nat, a2: nat, b2: nat, width: nat, i: nat)
    requires
        agree_below(a1, a2, width),
        agree_below(b1, b2, width),
        i <= width,
    ensures
        carry(a1, b1, i) == carry(a2, b2, i),
    decreases i,
{
    if i > 0 {
        let j = (i - 1) as nat;
        lemma_carry_agree(a1, b1, a2, b2, width, j);
        assert(bit(a1, j) == bit(a2, j));
        assert(bit(b1, j) == bit(b2, j));
    }
}

/// The low bits of the next row depend on the low bits of the row alone.
proof fn lemma_row_step_agree(a: nat, b: nat, m: nat, width: nat)
    requires
        agree_below(a, b, width),
    ensures
        agree_below(row_step(a, m), row_step(b, m), width),
        row_step(a, m) >= a,
{
    let ua = nat_and(a, m);
    let ub = nat_and(b, m);
    assert(covers(a, ua)) by {
        assert forall|k: nat| bit(ua, k) implies bit(a, k) by {
            lemma_bit_and(a, m, k);
        }
    }
    assert(covers(b, ub)) by {
        assert forall|k: nat| bit(ub, k) implies bit(b, k) by {
            lemma_bit_and(b, m, k);
        }
    }
    assert(agree_below(ua, ub, width)) by {
        assert forall|k: nat| k < width implies bit(ua, k) == bit(ub, k) by {
            lemma_bit_and(a, m, k);
            lemma_bit_and(b, m, k);
        }
    }
    assert forall|i: nat| i < width implies bit(row_step(a, m), i) == bit(row_step(b, m), i) by {
        lemma_carry_agree(a, ua, b, ub, width, i);
        lemma_bit_add(a, ua, i);
        lemma_bit_add(b, ub, i);
        lemma_bit_sub(a, ua, i);
        lemma_bit_sub(b, ub, i);
        lemma_bit_or(a + ua, (a - ua) as nat, i);
        lemma_bit_or(b + ub, (b - ub) as nat, i);
    }
    assert(covers(row_step(a, m), a + ua)) by {
        assert forall|k: nat| bit(a + ua, k) implies bit(row_step(a, m), k) by {
            lemma_bit_or(a + ua, (a - ua) as nat, k);
        }
    }
    lemma_covers_le(row_step(a, m), a + ua);
}

/// A row never falls below its initial value of `width` one-bits.
proof fn lemma_row_state_floor(table: Map<u64, nat>, width: nat, s2: Seq<u64>)
    ensures
        row_state(table, width, s2) + 1 >= pow2(width),
    decreases s2.len(),
{
    lemma_pow2_pos(width);
    if s2.len() > 0 {
        let prev = row_state(table, width, s2.drop_last());
        lemma_row_state_floor(table, width, s2.drop_last());
        lemma_row_step_agree(prev, prev, mask_of(table, s2.last()), 0);
    }
}

/// One transition of the row on a machine word. The sum may wrap: only the
/// bits that leave the word are lost.
fn word_row_step(s: u64, m: u64) -> (r: u64)
    ensures
        agree_below(r as nat, row_step(s as nat, m as nat), 64),
{
    let u = s & m;
    proof {
        lemma_u64_and(s, m);
        assert(covers(s as nat, u as nat)) by {
            assert forall|k: nat| bit(u as nat, k) implies bit(s as nat, k) by {
                lemma_bit_and(s as nat, m as nat, k);
            }
        }
        lemma_covers_le(s as nat, u as nat);
    }
    let sum = s.wrapping_add(u);
    let diff = s - u;
    let r = sum | diff;
    proof {
        lemma2_to64();
        lemma2_to64_rest();
        lemma_u64_or(sum, diff);
        assert(sum as nat == (s + u) as nat % pow2(64));
        assert forall|i: nat| i < 64 implies bit(r as nat, i) == bit(
            row_step(s as nat, m as nat),
            i,
        ) by {
            lemma_bit_or(sum as nat, diff as nat, i);
            lemma_bit_or((s + u) as nat, diff as nat, i);
            lemma_bit_mod_pow2((s + u) as nat, 64, i);
        }
    }
    r
}

/// One transition of the row on an arbitrary-width integer.
fn wide_row_step(s: &BigUint, m: &BigUint) -> (r: BigUint)
    ensures
        wide_value(r) == row_step(wide_value(*s), wide_value(*m)),
{
    let u = wide_and(s, m);
    proof {
        let (sv, mv) = (wide_value(*s), wide_value(*m));
        assert(covers(sv, nat_and(sv, mv))) by {
            assert forall|k: nat| bit(nat_and(sv, mv), k) implies bit(sv, k) by {
                lemma_bit_and(sv, mv, k);
            }
        }
        lemma_covers_le(sv, nat_and(sv, mv));
    }
    let sum = wide_add(s, &u);
    let diff = wide_sub(s, &u);
    wide_or(&sum, &diff)
}

/// Builds the character-bitmask table of `s1` with machine words: bit `i` of
/// the mask of a key is set where the key stands at position `i`. Positions
/// from 64 on do not fit in a word and leave no bit.
pub fn build_block(s1: &Vec<u64>) -> (block: HashMap<u64, u64>)
    ensures
        forall|key: u64| block@.contains_key(key) <==> s1@.contains(key),
        forall|key: u64| #[trigger]
            block@.contains_key(key) ==> block@[key] as nat == position_mask(s1@, key) % pow2(64),
        s1.len() <= 64 ==> narrow_table(block@) == table_of(s1@),
{
    let mut block: HashMap<u64, u64> = HashMap::new();
    let mut i: usize = 0;
    while i < s1.len()
        invariant
            i <= s1.len(),
            forall|key: u64|
                block@.contains_key(key) <==> s1@.subrange(0, i as int).contains(key),
            forall|key: u64| #[trigger]
                block@.contains_key(key) ==> block@[key] as nat == position_mask(
                    s1@.subrange(0, i as int),
                    key,
                ) % pow2(64),
        decreases s1.len() - i,
    {
        let key = s1[i];
        let x: u64 = if i < 64 {
            1u64 << (i as u64)
        } else {
            0
        };
        let seen: u64 = match block.get(&key) {
            Some(mask) => *mask,
            None => 0,
        };
        let mask = seen | x;
        proof {
            let rest = position_mask(s1@.subrange(0, i as int), key);
            lemma_prefix_mask(s1@, i as int, key);
            if !block@.contains_key(key) {
                lemma_position_mask_absent(s1@.subrange(0, i as int), key);
            }
            lemma_pow2_pos(64);
            lemma_word_mask(seen, x, rest, i as nat);
            assert forall|other: u64|
                block@.insert(key, mask).contains_key(other) <==> s1@.subrange(
                    0,
                    i + 1,
                ).contains(other) by {
                lemma_prefix_contains(s1@, i as int, other);
            }
            assert forall|other: u64| other != key implies position_mask(
                s1@.subrange(0, i + 1),
                other,
            ) == position_mask(s1@.subrange(0, i as int), other) by {
                lemma_prefix_mask(s1@, i as int, other);
            }
        }
        block.insert(key, mask);
        i += 1;
    }
    proof {
        assert(s1@.subrange(0, i as int) =~= s1@);
        if s1.len() <= 64 {
            assert forall|key: u64| #[trigger]
                block@.contains_key(key) implies block@[key] as nat == position_mask(s1@, key) by {
                lemma_position_mask_bits(s1@, key, 0);
                if s1.len() < 64 {
                    lemma_pow2_strictly_increases(s1.len() as nat, 64);
                }
                lemma_small_mod(position_mask(s1@, key), pow2(64));
            }
            assert(narrow_table(block@) =~= table_of(s1@));
        }
    }
    block
}

/// A mask of machine width with the bit of position `i` set: the low 64 bits
/// of the mask of the number with that bit added.
proof fn lemma_word_mask(seen: u64, x: u64, rest: nat, i: nat)
    requires
        seen as nat == rest % pow2(64),
        rest < pow2(i),
        x == (if i < 64 {
            1u64 << (i as u64)
        } else {
            0
        }),
    ensures
        (seen | x) as nat == (rest + pow2(i)) % pow2(64),
{
    lemma2_to64();
    lemma2_to64_rest();
    lemma_u64_or(seen, x);
    if i < 64 {
        lemma_u64_pow2_no_overflow(i);
        lemma_u64_shl_is_mul(1, i as u64);
        if i < 63 {
            lemma_pow2_strictly_increases(i + 1, 64);
        }
        lemma_pow2_unfold(i + 1);
        lemma_pow2_strictly_increases(i, 64);
        lemma_small_mod(rest, pow2(64));
        lemma_or_fresh_bit(rest, i);
        lemma_small_mod(rest + pow2(i), pow2(64));
    } else {
        assert forall|k: nat| bit(nat_or(seen as nat, 0), k) == bit(seen as nat, k) by {
            lemma_bit_or(seen as nat, 0, k);
            lemma_bit_zero(k);
        }
        lemma_bits_equal(nat_or(seen as nat, 0), seen as nat);
        lemma_pow2_adds(64, (i - 64) as nat);
        lemma_mod_multiples_vanish(pow2((i - 64) as nat) as int, rest as int, pow2(64) as int);
        assert(pow2(64) * pow2((i - 64) as nat) + rest == rest + pow2(i));
    }
}

/// Builds the character-bitmask table of `s1` with arbitrary-width integers,
/// for a sequence of any length.
pub fn build_wide_block(s1: &Vec<u64>) -> (block: HashMap<u64, BigUint>)
    ensures
        wide_table(block@) == table_of(s1@),
{
    let mut block: HashMap<u64, BigUint> = HashMap::new();
    let zero = wide_from_u64(0);
    let mut x = wide_from_u64(1);
    let mut i: usize = 0;
    proof {
        lemma2_to64();
    }
    while i < s1.len()
        invariant
            i <= s1.len(),
            wide_value(zero) == 0,
            wide_value(x) == pow2(i as nat),
            forall|key: u64|
                block@.contains_key(key) <==> s1@.subrange(0, i as int).contains(key),
            forall|key: u64| #[trigger]
                block@.contains_key(key) ==> wide_value(block@[key]) == position_mask(
                    s1@.subrange(0, i as int),
                    key,
                ),
        decreases s1.len() - i,
    {
        let key = s1[i];
        let mask = match block.get(&key) {
            Some(seen) => wide_or(seen, &x),
            None => wide_or(&zero, &x),
        };
        proof {
            let rest = position_mask(s1@.subrange(0, i as int), key);
            lemma_prefix_mask(s1@, i as int, key);
            if !block@.contains_key(key) {
                lemma_position_mask_absent(s1@.subrange(0, i as int), key);
            }
            lemma_or_fresh_bit(rest, i as nat);
            assert forall|other: u64|
                block@.insert(key, mask).contains_key(other) <==> s1@.subrange(
                    0,
                    i + 1,
                ).contains(other) by {
                lemma_prefix_contains(s1@, i as int, other);
            }
            assert forall|other: u64| other != key implies position_mask(
                s1@.subrange(0, i + 1),
                other,
            ) == position_mask(s1@.subrange(0, i as int), other) by {
                lemma_prefix_mask(s1@, i as int, other);
            }
            lemma_pow2_unfold((i + 1) as nat);
            lemma2_to64();
        }
        block.insert(key, mask);
        x = wide_shl(&x, 1);
        i += 1;
    }
    proof {
        assert(s1@.subrange(0, i as int) =~= s1@);
        assert(wide_table(block@) =~= table_of(s1@));
    }
    block
}

/// The row recurrence with a table of machine words, for a first sequence of
/// at most 64 keys.
fn narrow_row(block: &HashMap<u64, u64>, width: usize, s2: &Vec<u64>) -> (r: usize)
    requires
        0 < width <= 64,
    ensures
        r == block_lcs(narrow_table(block@), width as nat, s2@),
{
    let ghost table = narrow_table(block@);
    let mut s: u64 = low_mask(width);
    let mut j: usize = 0;
    while j < s2.len()
        invariant
            j <= s2.len(),
            0 < width <= 64,
            table == narrow_table(block@),
            agree_below(
                s as nat,
                row_state(table, width as nat, s2@.subrange(0, j as int)),
                width as nat,
            ),
        decreases s2.len() - j,
    {
        let key = s2[j];
        let m: u64 = match block.get(&key) {
            Some(mask) => *mask,
            None => 0,
        };
        let next = word_row_step(s, m);
        proof {
            let fed = s2@.subrange(0, j as int);
            let fed_next = s2@.subrange(0, j + 1);
            assert(fed_next.drop_last() =~= fed);
            assert(fed_next.last() == key);
            assert(m as nat == mask_of(table, key));
            lemma_row_step_agree(
                s as nat,
                row_state(table, width as nat, fed),
                m as nat,
                width as nat,
            );
        }
        s = next;
        j += 1;
    }
    proof {
        assert(s2@.subrange(0, j as int) =~= s2@);
        lemma_count_agree(s as nat, row_state(table, width as nat, s2@), width as nat);
    }
    count_trailing_zeros_in_range(s, width)
}

/// The row of `width` one-bits as an arbitrary-width integer.
fn wide_ones(width: usize) -> (s: BigUint)
    ensures
        wide_value(s) == pow2(width as nat) - 1,
{
    let one = wide_from_u64(1);
    proof {
        lemma_pow2_pos(width as nat);
    }
    wide_sub(&wide_shl(&one, width), &one)
}

/// The length of the longest common subsequence of `s1` and `s2`.
///
/// The cutoff is a length that the caller hopes for. It is advisory: the
/// engine computes the full length and reports it whether or not it reaches
/// the cutoff; the distance and similarity layers above do the clamping.
pub fn similarity(s1: &Vec<u64>, s2: &Vec<u64>, score_cutoff: Option<usize>) -> (r: usize)
    ensures
        r == lcs_len(s1@, s2@),
{
    if s1.is_empty() {
        return 0;
    }
    proof {
        lemma_table_of_matches(s1@);
        lemma_block_lcs_is_lcs(table_of(s1@), s1@, s2@);
    }
    let block = Block::new(s1);
    block.similarity(s1, s2, score_cutoff)
}

/// As `similarity`, with a table built beforehand in place of one built from
/// `s1`: the row recurrence runs over the masks that `block` holds, on a row
/// of `s1.len()` bits. A first sequence of more than 64 keys gets a row of
/// arbitrary width; the masks of the table still end at bit 63. The cutoff
/// is advisory, as in `similarity`.
#[allow(unused_variables)]
pub fn block_similarity(
    block: &HashMap<u64, u64>,
    s1: &Vec<u64>,
    s2: &Vec<u64>,
    score_cutoff: Option<usize>,
) -> (r: usize)
    ensures
        r == block_lcs(narrow_table(block@), s1.len() as nat, s2@),
        r <= s1.len(),
        r <= s2.len(),
{
    proof {
        lemma_block_lcs_bounds(narrow_table(block@), s1.len() as nat, s2@);
    }
    if s1.is_empty() {
        return 0;
    }
    if s1.len() <= 64 {
        return narrow_row(block, s1.len(), s2);
    }
    let ghost table = narrow_table(block@);
    let width = s1.len();
    let mut s = wide_ones(width);
    let mut j: usize = 0;
    while j < s2.len()
        invariant
            j <= s2.len(),
            width == s1.len(),
            table == narrow_table(block@),
            wide_value(s) == row_state(table, width as nat, s2@.subrange(0, j as int)),
        decreases s2.len() - j,
    {
        let key = s2[j];
        let m = match block.get(&key) {
            Some(mask) => wide_from_u64(*mask),
            None => wide_from_u64(0),
        };
        proof {
            let fed_next = s2@.subrange(0, j + 1);
            assert(fed_next.drop_last() =~= s2@.subrange(0, j as int));
            assert(fed_next.last() == key);
            assert(wide_value(m) == mask_of(table, key));
        }
        s = wide_row_step(&s, &m);
        j += 1;
    }
    proof {
        assert(s2@.subrange(0, j as int) =~= s2@);
        lemma_row_state_floor(table, width as nat, s2@);
    }
    count_zeros_in_wide_binary_string(&s, s1)
}

/// As `block_similarity`, with a table of arbitrary-width masks, which can
/// hold the positions of a first sequence of any length.
#[allow(unused_variables)]
pub fn wide_block_similarity(
    block: &HashMap<u64, BigUint>,
    s1: &Vec<u64>,
    s2: &Vec<u64>,
    score_cutoff: Option<usize>,
) -> (r: usize)
    ensures
        r == block_lcs(wide_table(block@), s1.len() as nat, s2@),
        r <= s1.len(),
        r <= s2.len(),
{
    proof {
        lemma_block_lcs_bounds(wide_table(block@), s1.len() as nat, s2@);
    }
    if s1.is_empty() {
        return 0;
    }
    let ghost table = wide_table(block@);
    let width = s1.len();
    let zero = wide_from_u64(0);
    let mut s = wide_ones(width);
    let mut j: usize = 0;
    while j < s2.len()
        invariant
            j <= s2.len(),
            width == s1.len(),
            table == wide_table(block@),
            wide_value(zero) == 0,
            wide_value(s) == row_state(table, width as nat, s2@.subrange(0, j as int)),
        decreases s2.len() - j,
    {
        let key = s2[j];
        proof {
            let fed_next = s2@.subrange(0, j + 1);
            assert(fed_next.drop_last() =~= s2@.subrange(0, j as int));
            assert(fed_next.last() == key);
        }
        s = match block.get(&key) {
            Some(mask) => wide_row_step(&s, mask),
            None => wide_row_step(&s, &zero),
        };
        j += 1;
    }
    proof {
        assert(s2@.subrange(0, j as int) =~= s2@);
        lemma_row_state_floor(table, width as nat, s2@);
    }
    count_zeros_in_wide_binary_string(&s, s1)
}

} // verus!
