//! The longest common subsequence of two key sequences, as a mathematical
//! function, and the bit-parallel row recurrence that computes its length.

use crate::bits::{
    bit, carry, covers, lemma_bit_add, lemma_bit_and, lemma_bit_low_mask, lemma_bit_or,
    lemma_bit_pow2, lemma_bit_sub, lemma_bit_zero, lemma_ones_zeros, lemma_or_fresh_bit,
    lemma_zeros_none, majority, nat_and, nat_or, ones_below, zeros_below,
};
use vstd::arithmetic::power2::{lemma_pow2_pos, lemma_pow2_unfold, pow2};
use vstd::prelude::*;

verus! {

/// The length of the longest common subsequence of `a` and `b`, by the
/// recurrence of the dynamic-programming table. `lemma_lcs_is_longest` shows
/// that it is the greatest length of a sequence that is a subsequence of both.
pub open spec fn lcs_len(a: Seq<u64>, b: Seq<u64>) -> nat
    decreases a.len() + b.len(),
{
    if a.len() == 0 || b.len() == 0 {
        0
    } else if a.last() == b.last() {
        1 + lcs_len(a.drop_last(), b.drop_last())
    } else {
        let x = lcs_len(a.drop_last(), b);
        let y = lcs_len(a, b.drop_last());
        if x >= y {
            x
        } else {
            y
        }
    }
}

/// The bit mask of the positions at which `key` occurs in `s`.
pub open spec fn position_mask(s: Seq<u64>, key: u64) -> nat
    decreases s.len(),
{
    if s.len() == 0 {
        0
    } else {
        position_mask(s.drop_last(), key) + (if s.last() == key {
            pow2((s.len() - 1) as nat)
        } else {
            0nat
        })
    }
}

/// The character-bitmask table of `s`: each key that occurs, with its position mask.
pub open spec fn table_of(s: Seq<u64>) -> Map<u64, nat> {
    Map::new(|key: u64| s.contains(key), |key: u64| position_mask(s, key))
}

/// The mask that a table gives for a key: zero where the key is absent.
pub open spec fn mask_of(table: Map<u64, nat>, key: u64) -> nat {
    if table.contains_key(key) {
        table[key]
    } else {
        0
    }
}

/// One transition of the row: `(S + U) | (S - U)` with `U = S & M`.
pub open spec fn row_step(s: nat, m: nat) -> nat {
    let u = nat_and(s, m);
    nat_or(s + u, (s - u) as nat)
}

/// The row after the keys of `s2` have been fed in order, starting from
/// `width` one-bits.
pub open spec fn row_state(table: Map<u64, nat>, width: nat, s2: Seq<u64>) -> nat
    decreases s2.len(),
{
    if s2.len() == 0 {
        (pow2(width) - 1) as nat
    } else {
        row_step(row_state(table, width, s2.drop_last()), mask_of(table, s2.last()))
    }
}

/// What the row recurrence reports for a table: the zero bits among the
/// lowest `width` bits of the final row.
pub open spec fn block_lcs(table: Map<u64, nat>, width: nat, s2: Seq<u64>) -> nat {
    zeros_below(row_state(table, width, s2), width)
}

/// The longest common subsequence of the first `i` keys of `s1` with `t`.
pub open spec fn prefix_lcs(s1: Seq<u64>, t: Seq<u64>, i: nat) -> nat {
    lcs_len(s1.subrange(0, i as int), t)
}

/// Bit `i` of the row is set exactly where a longer prefix of `s1` gains nothing.
pub open spec fn encodes(s: nat, s1: Seq<u64>, t: Seq<u64>) -> bool {
    forall|i: nat| i < s1.len() ==> bit(s, i) == (prefix_lcs(s1, t, i + 1) == prefix_lcs(s1, t, i))
}

/// Below the length of `s1`, the mask has exactly the positions of `key`.
pub open spec fn mask_matches(m: nat, s1: Seq<u64>, key: u64) -> bool {
    forall|i: nat| i < s1.len() ==> bit(m, i) == (s1[i as int] == key)
}

/// The table gives every key a mask of its positions in `s1`.
pub open spec fn table_matches(table: Map<u64, nat>, s1: Seq<u64>) -> bool {
    forall|key: u64| mask_matches(#[trigger] mask_of(table, key), s1, key)
}

/// The longest common subsequence does not depend on the order of the arguments.
pub proof fn lemma_lcs_symmetric(a: Seq<u64>, b: Seq<u64>)
    ensures
        lcs_len(a, b) == lcs_len(b, a),
    decreases a.len() + b.len(),
{
    if a.len() > 0 && b.len() > 0 {
        lemma_lcs_symmetric(a.drop_last(), b.drop_last());
        lemma_lcs_symmetric(a.drop_last(), b);
        lemma_lcs_symmetric(a, b.drop_last());
    }
}

/// A sequence is its own longest common subsequence.
pub proof fn lemma_lcs_self(a: Seq<u64>)
    ensures
        lcs_len(a, a) == a.len(),
    decreases a.len(),
{
    if a.len() > 0 {
        lemma_lcs_self(a.drop_last());
    }
}

/// A common subsequence is no longer than either sequence.
pub proof fn lemma_lcs_bounds(a: Seq<u64>, b: Seq<u64>)
    ensures
        lcs_len(a, b) <= a.len(),
        lcs_len(a, b) <= b.len(),
    decreases a.len() + b.len(),
{
    if a.len() > 0 && b.len() > 0 {
        lemma_lcs_bounds(a.drop_last(), b.drop_last());
        lemma_lcs_bounds(a.drop_last(), b);
        lemma_lcs_bounds(a, b.drop_last());
    }
}

/// One more key at the end of the first sequence adds at most one to the length.
pub proof fn lemma_lcs_push(a: Seq<u64>, b: Seq<u64>, x: u64)
    ensures
        lcs_len(a, b) <= lcs_len(a.push(x), b) <= lcs_len(a, b) + 1,
    decreases a.len() + b.len(),
{
    let a2 = a.push(x);
    assert(a2.drop_last() =~= a);
    if b.len() > 0 {
        let y = b.last();
        let b1 = b.drop_last();
        assert(b1.push(y) =~= b);
        lemma_lcs_symmetric(a, b);
        lemma_lcs_symmetric(a, b1);
        lemma_lcs_push(b1, a, y);
        if x != y {
            lemma_lcs_push(a, b1, x);
        }
    }
}

/// One more key at the end of the second sequence adds at most one to the length.
pub proof fn lemma_lcs_push_right(a: Seq<u64>, b: Seq<u64>, y: u64)
    ensures
        lcs_len(a, b) <= lcs_len(a, b.push(y)) <= lcs_len(a, b) + 1,
{
    lemma_lcs_symmetric(a, b);
    lemma_lcs_symmetric(a, b.push(y));
    lemma_lcs_push(b, a, y);
}

/// Two sequences of one length whose common subsequence has that length are equal.
pub proof fn lemma_lcs_full(a: Seq<u64>, b: Seq<u64>)
    requires
        a.len() == b.len(),
        lcs_len(a, b) == a.len(),
    ensures
        a == b,
    decreases a.len(),
{
    if a.len() > 0 {
        if a.last() == b.last() {
            lemma_lcs_full(a.drop_last(), b.drop_last());
            assert(a =~= a.drop_last().push(a.last()));
            assert(b =~= b.drop_last().push(b.last()));
        } else {
            lemma_lcs_bounds(a.drop_last(), b);
            lemma_lcs_bounds(a, b.drop_last());
        }
    } else {
        assert(a =~= b);
    }
}

/// The recurrence of the dynamic-programming table, read at a prefix of `s1`.
proof fn lemma_prefix_step(s1: Seq<u64>, t: Seq<u64>, c: u64, i: nat)
    requires
        i < s1.len(),
    ensures
        prefix_lcs(s1, t.push(c), i + 1) == (if s1[i as int] == c {
            1 + prefix_lcs(s1, t, i)
        } else if prefix_lcs(s1, t.push(c), i) >= prefix_lcs(s1, t, i + 1) {
            prefix_lcs(s1, t.push(c), i)
        } else {
            prefix_lcs(s1, t, i + 1)
        }),
        prefix_lcs(s1, t, i) <= prefix_lcs(s1, t, i + 1) <= prefix_lcs(s1, t, i) + 1,
{
    let a = s1.subrange(0, (i + 1) as int);
    let b = t.push(c);
    assert(a.drop_last() =~= s1.subrange(0, i as int));
    assert(b.drop_last() =~= t);
    assert(a.last() == s1[i as int]);
    assert(b.last() == c);
    assert(s1.subrange(0, i as int).push(s1[i as int]) =~= a);
    lemma_lcs_push(s1.subrange(0, i as int), t, s1[i as int]);
}

/// The carry of `S + U` into position `i` is the gain that the new key
/// brings to the first `i` keys of `s1`.
proof fn lemma_carry_is_gain(s: nat, m: nat, s1: Seq<u64>, t: Seq<u64>, c: u64, i: nat)
    requires
        encodes(s, s1, t),
        mask_matches(m, s1, c),
        i <= s1.len(),
    ensures
        carry(s, nat_and(s, m), i) == (prefix_lcs(s1, t.push(c), i) == prefix_lcs(s1, t, i) + 1),
        prefix_lcs(s1, t, i) <= prefix_lcs(s1, t.push(c), i) <= prefix_lcs(s1, t, i) + 1,
    decreases i,
{
    let u = nat_and(s, m);
    lemma_lcs_push_right(s1.subrange(0, i as int), t, c);
    if i == 0 {
        assert(s1.subrange(0, 0).len() == 0);
    } else {
        let j = (i - 1) as nat;
        lemma_carry_is_gain(s, m, s1, t, c, j);
        lemma_prefix_step(s1, t, c, j);
        lemma_bit_and(s, m, j);
        assert(bit(s, j) == (prefix_lcs(s1, t, j + 1) == prefix_lcs(s1, t, j)));
        assert(bit(m, j) == (s1[j as int] == c));
        assert(carry(s, u, i) == majority(bit(s, j), bit(u, j), carry(s, u, j)));
    }
}

/// Feeding one key turns the row of `t` into the row of `t` with that key appended.
pub proof fn lemma_row_step_encodes(s: nat, m: nat, s1: Seq<u64>, t: Seq<u64>, c: u64)
    requires
        encodes(s, s1, t),
        mask_matches(m, s1, c),
    ensures
        encodes(row_step(s, m), s1, t.push(c)),
{
    let u = nat_and(s, m);
    let t2 = t.push(c);
    assert(covers(s, u)) by {
        assert forall|k: nat| bit(u, k) implies bit(s, k) by {
            lemma_bit_and(s, m, k);
        }
    }
    assert forall|i: nat| i < s1.len() implies bit(row_step(s, m), i) == (prefix_lcs(s1, t2, i + 1)
        == prefix_lcs(s1, t2, i)) by {
        lemma_bit_and(s, m, i);
        lemma_bit_add(s, u, i);
        lemma_bit_sub(s, u, i);
        lemma_bit_or(s + u, (s - u) as nat, i);
        lemma_carry_is_gain(s, m, s1, t, c, i);
        lemma_carry_is_gain(s, m, s1, t, c, i + 1);
        lemma_prefix_step(s1, t, c, i);
        assert(bit(s, i) == (prefix_lcs(s1, t, i + 1) == prefix_lcs(s1, t, i)));
        assert(bit(m, i) == (s1[i as int] == c));
    }
}

/// The row that a matching table produces encodes the dynamic-programming row.
pub proof fn lemma_row_state_encodes(table: Map<u64, nat>, s1: Seq<u64>, t: Seq<u64>)
    requires
        table_matches(table, s1),
    ensures
        encodes(row_state(table, s1.len(), t), s1, t),
    decreases t.len(),
{
    if t.len() == 0 {
        assert forall|i: nat| i < s1.len() implies bit(row_state(table, s1.len(), t), i) == (
        prefix_lcs(s1, t, i + 1) == prefix_lcs(s1, t, i)) by {
            lemma_bit_low_mask(s1.len(), i);
        }
    } else {
        let t1 = t.drop_last();
        let c = t.last();
        lemma_row_state_encodes(table, s1, t1);
        assert(mask_matches(mask_of(table, c), s1, c));
        lemma_row_step_encodes(row_state(table, s1.len(), t1), mask_of(table, c), s1, t1, c);
        assert(t1.push(c) =~= t);
    }
}

/// The clear bits below position `k` of an encoding row count the longest
/// common subsequence of the first `k` keys.
proof fn lemma_zeros_prefix(s: nat, s1: Seq<u64>, t: Seq<u64>, k: nat)
    requires
        encodes(s, s1, t),
        k <= s1.len(),
    ensures
        zeros_below(s, k) == prefix_lcs(s1, t, k),
    decreases k,
{
    if k == 0 {
        assert(s1.subrange(0, 0).len() == 0);
    } else {
        let j = (k - 1) as nat;
        lemma_zeros_prefix(s, s1, t, j);
        assert(bit(s, j) == (prefix_lcs(s1, t, j + 1) == prefix_lcs(s1, t, j)));
        assert(s1.subrange(0, j as int).push(s1[j as int]) =~= s1.subrange(0, k as int));
        lemma_lcs_push(s1.subrange(0, j as int), t, s1[j as int]);
    }
}

/// The position mask of a key has exactly the positions at which the key occurs.
pub proof fn lemma_position_mask_bits(s: Seq<u64>, key: u64, i: nat)
    ensures
        position_mask(s, key) < pow2(s.len()),
        bit(position_mask(s, key), i) == (i < s.len() && s[i as int] == key),
    decreases s.len(),
{
    lemma_pow2_pos(s.len());
    if s.len() == 0 {
        lemma_bit_zero(i);
    } else {
        let n = (s.len() - 1) as nat;
        let rest = position_mask(s.drop_last(), key);
        lemma_position_mask_bits(s.drop_last(), key, i);
        lemma_pow2_unfold(s.len());
        if s.last() == key {
            lemma_or_fresh_bit(rest, n);
            lemma_bit_or(rest, pow2(n), i);
            lemma_bit_pow2(n, i);
        }
    }
}

/// The table of `s1` gives every key its positions in `s1`.
pub proof fn lemma_table_of_matches(s1: Seq<u64>)
    ensures
        table_matches(table_of(s1), s1),
{
    assert forall|key: u64| mask_matches(#[trigger] mask_of(table_of(s1), key), s1, key) by {
        let mask = mask_of(table_of(s1), key);
        assert forall|i: nat| i < s1.len() implies bit(mask, i) == (s1[i as int] == key) by {
            lemma_position_mask_bits(s1, key, i);
            if s1[i as int] == key {
                assert(s1.contains(key));
            }
            if !s1.contains(key) {
                lemma_bit_zero(i);
            }
        }
    }
}

/// With a table that matches `s1`, the row recurrence yields the length of
/// the longest common subsequence of `s1` and `s2`.
pub proof fn lemma_block_lcs_is_lcs(table: Map<u64, nat>, s1: Seq<u64>, s2: Seq<u64>)
    requires
        table_matches(table, s1),
    ensures
        block_lcs(table, s1.len(), s2) == lcs_len(s1, s2),
{
    lemma_row_state_encodes(table, s1, s2);
    lemma_zeros_prefix(row_state(table, s1.len(), s2), s1, s2, s1.len());
    assert(s1.subrange(0, s1.len() as int) =~= s1);
}


/// A transition clears at most one more bit below any width: a set bit is
/// lost exactly where the sum carries out of the width.
pub proof fn lemma_row_step_ones(s: nat, m: nat, width: nat)
    ensures
        ones_below(row_step(s, m), width) + (if carry(s, nat_and(s, m), width) {
            1nat
        } else {
            0nat
        }) == ones_below(s, width),
    decreases width,
{
    let u = nat_and(s, m);
    if width > 0 {
        let j = (width - 1) as nat;
        lemma_row_step_ones(s, m, j);
        assert(covers(s, u)) by {
            assert forall|k: nat| bit(u, k) implies bit(s, k) by {
                lemma_bit_and(s, m, k);
            }
        }
        lemma_bit_and(s, m, j);
        lemma_bit_add(s, u, j);
        lemma_bit_sub(s, u, j);
        lemma_bit_or(s + u, (s - u) as nat, j);
        assert(carry(s, u, width) == majority(bit(s, j), bit(u, j), carry(s, u, j)));
    }
}

/// Whatever the table holds, the row recurrence reports no more than the
/// width of the row and no more than the number of keys fed.
pub proof fn lemma_block_lcs_bounds(table: Map<u64, nat>, width: nat, s2: Seq<u64>)
    ensures
        block_lcs(table, width, s2) <= width,
        block_lcs(table, width, s2) <= s2.len(),
    decreases s2.len(),
{
    let row = row_state(table, width, s2);
    lemma_ones_zeros(row, width);
    if s2.len() == 0 {
        assert forall|i: nat| i < width implies bit(row, i) by {
            lemma_bit_low_mask(width, i);
        }
        lemma_zeros_none(row, width);
    } else {
        let prev = row_state(table, width, s2.drop_last());
        lemma_block_lcs_bounds(table, width, s2.drop_last());
        lemma_row_step_ones(prev, mask_of(table, s2.last()), width);
        lemma_ones_zeros(prev, width);
    }
}


/// `c` is a subsequence of `a`: it is empty, or it is a subsequence of `a`
/// without its last key, or the two end in one key and the rest of `c` is a
/// subsequence of the rest of `a`.
pub open spec fn is_subsequence(c: Seq<u64>, a: Seq<u64>) -> bool
    decreases a.len(),
{
    c.len() == 0 || (a.len() > 0 && (is_subsequence(c, a.drop_last()) || (c.last() == a.last()
        && is_subsequence(c.drop_last(), a.drop_last()))))
}

/// `c` is a subsequence of both `a` and `b`.
pub open spec fn is_common_subsequence(c: Seq<u64>, a: Seq<u64>, b: Seq<u64>) -> bool {
    is_subsequence(c, a) && is_subsequence(c, b)
}

/// A common subsequence of `a` and `b` of the greatest length.
pub open spec fn longest_common_subsequence(a: Seq<u64>, b: Seq<u64>) -> Seq<u64>
    decreases a.len() + b.len(),
{
    if a.len() == 0 || b.len() == 0 {
        Seq::empty()
    } else if a.last() == b.last() {
        longest_common_subsequence(a.drop_last(), b.drop_last()).push(a.last())
    } else if lcs_len(a.drop_last(), b) >= lcs_len(a, b.drop_last()) {
        longest_common_subsequence(a.drop_last(), b)
    } else {
        longest_common_subsequence(a, b.drop_last())
    }
}

/// A subsequence stays one when its last key is dropped.
proof fn lemma_subsequence_drop_last(c: Seq<u64>, a: Seq<u64>)
    requires
        c.len() > 0,
        is_subsequence(c, a),
    ensures
        is_subsequence(c.drop_last(), a),
    decreases a.len(),
{
    if is_subsequence(c, a.drop_last()) {
        lemma_subsequence_drop_last(c, a.drop_last());
    }
}

/// A subsequence stays one when the sequence grows by a key.
proof fn lemma_subsequence_push(c: Seq<u64>, a: Seq<u64>, x: u64)
    requires
        is_subsequence(c, a),
    ensures
        is_subsequence(c, a.push(x)),
        is_subsequence(c.push(x), a.push(x)),
{
    assert(a.push(x).drop_last() =~= a);
    assert(c.push(x).drop_last() =~= c);
}

/// No common subsequence is longer than `lcs_len` says.
pub proof fn lemma_lcs_upper_bound(c: Seq<u64>, a: Seq<u64>, b: Seq<u64>)
    requires
        is_common_subsequence(c, a, b),
    ensures
        c.len() <= lcs_len(a, b),
    decreases a.len() + b.len(),
{
    if c.len() > 0 {
        let (a1, b1, c1) = (a.drop_last(), b.drop_last(), c.drop_last());
        if a.last() == b.last() {
            if is_subsequence(c, a1) && is_subsequence(c, b1) {
                lemma_lcs_upper_bound(c, a1, b1);
            } else {
                if is_subsequence(c, a1) {
                    lemma_subsequence_drop_last(c, a1);
                }
                if is_subsequence(c, b1) {
                    lemma_subsequence_drop_last(c, b1);
                }
                lemma_lcs_upper_bound(c1, a1, b1);
            }
        } else if is_subsequence(c, a1) {
            lemma_lcs_upper_bound(c, a1, b);
        } else {
            lemma_lcs_upper_bound(c, a, b1);
        }
    }
}

/// `lcs_len` is the length of a common subsequence.
pub proof fn lemma_lcs_attained(a: Seq<u64>, b: Seq<u64>)
    ensures
        is_common_subsequence(longest_common_subsequence(a, b), a, b),
        longest_common_subsequence(a, b).len() == lcs_len(a, b),
    decreases a.len() + b.len(),
{
    if a.len() > 0 && b.len() > 0 {
        let (a1, b1) = (a.drop_last(), b.drop_last());
        assert(a1.push(a.last()) =~= a);
        assert(b1.push(b.last()) =~= b);
        if a.last() == b.last() {
            lemma_lcs_attained(a1, b1);
            lemma_subsequence_push(longest_common_subsequence(a1, b1), a1, a.last());
            lemma_subsequence_push(longest_common_subsequence(a1, b1), b1, a.last());
        } else if lcs_len(a1, b) >= lcs_len(a, b1) {
            lemma_lcs_attained(a1, b);
            lemma_subsequence_push(longest_common_subsequence(a1, b), a1, a.last());
        } else {
            lemma_lcs_attained(a, b1);
            lemma_subsequence_push(longest_common_subsequence(a, b1), b1, b.last());
        }
    }
}

/// `lcs_len` is the greatest length of a common subsequence: one of that
/// length exists, and none is longer.
pub proof fn lemma_lcs_is_longest(a: Seq<u64>, b: Seq<u64>)
    ensures
        exists|c: Seq<u64>| is_common_subsequence(c, a, b) && c.len() == lcs_len(a, b),
        forall|c: Seq<u64>| is_common_subsequence(c, a, b) ==> c.len() <= lcs_len(a, b),
{
    lemma_lcs_attained(a, b);
    assert forall|c: Seq<u64>| is_common_subsequence(c, a, b) implies c.len() <= lcs_len(a, b) by {
        lemma_lcs_upper_bound(c, a, b);
    }
}


/// A key that does not occur in a sequence has the empty mask.
pub proof fn lemma_position_mask_absent(s: Seq<u64>, key: u64)
    requires
        !s.contains(key),
    ensures
        position_mask(s, key) == 0,
    decreases s.len(),
{
    if s.len() > 0 {
        assert(s[s.len() - 1] != key);
        assert forall|i: int| 0 <= i < s.drop_last().len() implies s.drop_last()[i] != key by {
            assert(s[i] != key);
        }
        lemma_position_mask_absent(s.drop_last(), key);
    }
}

/// The keys of the first `i + 1` entries are those of the first `i` and entry `i`.
pub proof fn lemma_prefix_contains(s: Seq<u64>, i: int, key: u64)
    requires
        0 <= i < s.len(),
    ensures
        s.subrange(0, i + 1).contains(key) <==> (s.subrange(0, i).contains(key) || s[i] == key),
{
    let (before, after) = (s.subrange(0, i), s.subrange(0, i + 1));
    if s[i] == key {
        assert(after[i] == key);
    }
    if before.contains(key) {
        let k = choose|k: int| 0 <= k < before.len() && before[k] == key;
        assert(after[k] == key);
    }
    if after.contains(key) {
        let k = choose|k: int| 0 <= k < after.len() && after[k] == key;
        if k < i {
            assert(before[k] == key);
        }
    }
}

/// The mask of a key over the first `i + 1` entries is its mask over the
/// first `i`, which lies below `2^i`, with bit `i` added where entry `i` is the key.
pub proof fn lemma_prefix_mask(s: Seq<u64>, i: int, key: u64)
    requires
        0 <= i < s.len(),
    ensures
        position_mask(s.subrange(0, i), key) < pow2(i as nat),
        position_mask(s.subrange(0, i + 1), key) == position_mask(s.subrange(0, i), key) + (if s[i]
            == key {
            pow2(i as nat)
        } else {
            0nat
        }),
{
    assert(s.subrange(0, i + 1).drop_last() =~= s.subrange(0, i));
    lemma_position_mask_bits(s.subrange(0, i), key, 0);
}


/// A subsequence stays one when the sequence grows at the front.
proof fn lemma_subsequence_of_suffix(c: Seq<u64>, x: Seq<u64>, y: Seq<u64>)
    requires
        is_subsequence(c, y),
    ensures
        is_subsequence(c, x + y),
    decreases y.len(),
{
    if c.len() > 0 {
        assert((x + y).drop_last() =~= x + y.drop_last());
        if is_subsequence(c, y.drop_last()) {
            lemma_subsequence_of_suffix(c, x, y.drop_last());
        } else {
            lemma_subsequence_of_suffix(c.drop_last(), x, y.drop_last());
        }
    }
}

/// A stretch of the second sequence has no longer a common subsequence with
/// the first than the whole of it has.
pub proof fn lemma_lcs_of_stretch(a: Seq<u64>, b: Seq<u64>, from: int, to: int)
    requires
        0 <= from <= to <= b.len(),
    ensures
        lcs_len(a, b.subrange(from, to)) <= lcs_len(a, b),
    decreases b.len() - to,
{
    if to < b.len() {
        lemma_lcs_of_stretch(a, b, from, to + 1);
        assert(b.subrange(from, to).push(b[to]) =~= b.subrange(from, to + 1));
        lemma_lcs_push_right(a, b.subrange(from, to), b[to]);
    } else {
        let stretch = b.subrange(from, to);
        let c = longest_common_subsequence(a, stretch);
        lemma_lcs_attained(a, stretch);
        lemma_subsequence_of_suffix(c, b.subrange(0, from), stretch);
        assert(b.subrange(0, from) + stretch =~= b);
        lemma_lcs_upper_bound(c, a, b);
    }
}

} // verus!
