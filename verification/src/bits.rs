//! Natural numbers read as bit sets: the bit at a position, bitwise `and` and
//! `or`, how addition and subtraction act on single bits, and counting bits
//! below a width. Machine words and arbitrary-width integers are both related
//! to this one model.

use vstd::arithmetic::div_mod::lemma_breakdown;
use vstd::arithmetic::power2::{
    lemma2_to64, lemma2_to64_rest, lemma_pow2_pos, lemma_pow2_unfold, pow2,
};
use vstd::prelude::*;

verus! {

/// Whether bit `i` of `n` is set, bit 0 being the least significant.
pub open spec fn bit(n: nat, i: nat) -> bool
    decreases i,
{
    if i == 0 {
        n % 2 == 1
    } else {
        bit(n / 2, (i - 1) as nat)
    }
}

/// Bitwise `and` of two natural numbers.
pub open spec fn nat_and(a: nat, b: nat) -> nat
    decreases a,
{
    if a == 0 {
        0
    } else {
        2 * nat_and(a / 2, b / 2) + (if a % 2 == 1 && b % 2 == 1 {
            1nat
        } else {
            0nat
        })
    }
}

/// Bitwise `or` of two natural numbers.
pub open spec fn nat_or(a: nat, b: nat) -> nat
    decreases a + b,
{
    if a == 0 && b == 0 {
        0
    } else {
        2 * nat_or(a / 2, b / 2) + (if a % 2 == 1 || b % 2 == 1 {
            1nat
        } else {
            0nat
        })
    }
}

/// Two numbers have the same bits at every position below `width`.
pub open spec fn agree_below(a: nat, b: nat, width: nat) -> bool {
    forall|i: nat| i < width ==> bit(a, i) == bit(b, i)
}

/// Every bit set in `b` is also set in `a`.
pub open spec fn covers(a: nat, b: nat) -> bool {
    forall|i: nat| bit(b, i) ==> bit(a, i)
}

/// The number of set bits of `n` at positions below `width`.
pub open spec fn ones_below(n: nat, width: nat) -> nat
    decreases width,
{
    if width == 0 {
        0
    } else {
        ones_below(n, (width - 1) as nat) + (if bit(n, (width - 1) as nat) {
            1nat
        } else {
            0nat
        })
    }
}

/// The number of clear bits of `n` at positions below `width`.
pub open spec fn zeros_below(n: nat, width: nat) -> nat
    decreases width,
{
    if width == 0 {
        0
    } else {
        zeros_below(n, (width - 1) as nat) + (if bit(n, (width - 1) as nat) {
            0nat
        } else {
            1nat
        })
    }
}

/// The ASCII digit of one bit.
pub open spec fn digit(set: bool) -> u8 {
    if set {
        49
    } else {
        48
    }
}

/// The digits of `n` in base two as ASCII bytes, most significant first and
/// without leading zeros; the single digit `0` for zero.
pub open spec fn binary_digits(n: nat) -> Seq<u8>
    decreases n,
{
    if n < 2 {
        seq![digit(n == 1)]
    } else {
        binary_digits(n / 2).push(digit(n % 2 == 1))
    }
}

/// The number of ASCII zeros in a string of digits.
pub open spec fn zero_digits(s: Seq<u8>) -> nat
    decreases s.len(),
{
    if s.len() == 0 {
        0
    } else {
        zero_digits(s.drop_last()) + (if s.last() == 48 {
            1nat
        } else {
            0nat
        })
    }
}

/// The last `width` entries of `s`, or all of `s` where it has fewer.
pub open spec fn tail(s: Seq<u8>, width: nat) -> Seq<u8> {
    if width >= s.len() {
        s
    } else {
        s.subrange(s.len() - width, s.len() as int)
    }
}

/// At least two of three.
pub open spec fn majority(x: bool, y: bool, z: bool) -> bool {
    (x && y) || (x && z) || (y && z)
}

/// The carry into position `i` when `a`, `b` and an incoming carry `c` are added.
pub open spec fn carry_in(a: nat, b: nat, c: bool, i: nat) -> bool
    decreases i,
{
    if i == 0 {
        c
    } else {
        let j = (i - 1) as nat;
        majority(bit(a, j), bit(b, j), carry_in(a, b, c, j))
    }
}

/// The carry into position `i` of the sum `a + b`.
pub open spec fn carry(a: nat, b: nat, i: nat) -> bool {
    carry_in(a, b, false, i)
}

/// Zero has no bit set.
pub proof fn lemma_bit_zero(i: nat)
    ensures
        !bit(0, i),
    decreases i,
{
    if i > 0 {
        lemma_bit_zero((i - 1) as nat);
    }
}

/// A bit of `a & b` is set exactly where it is set in both.
pub proof fn lemma_bit_and(a: nat, b: nat, i: nat)
    ensures
        bit(nat_and(a, b), i) == (bit(a, i) && bit(b, i)),
    decreases i,
{
    if a == 0 {
        lemma_bit_zero(i);
    } else if i > 0 {
        lemma_bit_and(a / 2, b / 2, (i - 1) as nat);
    }
}

/// A bit of `a | b` is set exactly where it is set in one of them.
pub proof fn lemma_bit_or(a: nat, b: nat, i: nat)
    ensures
        bit(nat_or(a, b), i) == (bit(a, i) || bit(b, i)),
    decreases i,
{
    if a == 0 && b == 0 {
        lemma_bit_zero(i);
    } else if i > 0 {
        lemma_bit_or(a / 2, b / 2, (i - 1) as nat);
    }
}

/// Numbers with the same bits are the same number.
pub proof fn lemma_bits_equal(a: nat, b: nat)
    requires
        forall|i: nat| bit(a, i) == bit(b, i),
    ensures
        a == b,
    decreases a + b,
{
    assert(bit(a, 0) == bit(b, 0));
    if a + b > 0 {
        let (a2, b2) = (a / 2, b / 2);
        assert forall|i: nat| bit(a2, i) == bit(b2, i) by {
            assert(bit(a, i + 1) == bit(b, i + 1));
        }
        lemma_bits_equal(a2, b2);
    }
}

/// The carry into position `i + 1` is the carry into position `i` of the
/// halves, with the carry out of the lowest bits coming in.
proof fn lemma_carry_shift(a: nat, b: nat, c: bool, i: nat)
    ensures
        carry_in(a, b, c, i + 1) == carry_in(
            a / 2,
            b / 2,
            majority(a % 2 == 1, b % 2 == 1, c),
            i,
        ),
    decreases i,
{
    let c2 = majority(a % 2 == 1, b % 2 == 1, c);
    if i == 0 {
        assert(carry_in(a, b, c, 0) == c);
        assert(carry_in(a, b, c, 1) == majority(bit(a, 0), bit(b, 0), carry_in(a, b, c, 0)));
    } else {
        let j = (i - 1) as nat;
        lemma_carry_shift(a, b, c, j);
        assert(bit(a, i) == bit(a / 2, j));
        assert(bit(b, i) == bit(b / 2, j));
        assert(carry_in(a, b, c, i + 1) == majority(bit(a, i), bit(b, i), carry_in(a, b, c, i)));
        assert(carry_in(a / 2, b / 2, c2, i) == majority(
            bit(a / 2, j),
            bit(b / 2, j),
            carry_in(a / 2, b / 2, c2, j),
        ));
    }
}

/// A bit of a sum with an incoming carry.
proof fn lemma_bit_add_in(a: nat, b: nat, c: bool, i: nat)
    ensures
        bit(
            a + b + (if c {
                1nat
            } else {
                0nat
            }),
            i,
        ) == (bit(a, i) != (bit(b, i) != carry_in(a, b, c, i))),
    decreases i,
{
    if i > 0 {
        let c2 = majority(a % 2 == 1, b % 2 == 1, c);
        let j = (i - 1) as nat;
        lemma_bit_add_in(a / 2, b / 2, c2, j);
        lemma_carry_shift(a, b, c, j);
    }
}

/// A bit of `a + b` is the exclusive or of the two bits and the carry.
pub proof fn lemma_bit_add(a: nat, b: nat, i: nat)
    ensures
        bit(a + b, i) == (bit(a, i) != (bit(b, i) != carry(a, b, i))),
{
    lemma_bit_add_in(a, b, false, i);
}

/// A number is at least any number whose bits it covers.
pub proof fn lemma_covers_le(a: nat, b: nat)
    requires
        covers(a, b),
    ensures
        b <= a,
    decreases b,
{
    assert(bit(b, 0) ==> bit(a, 0));
    if b > 0 {
        let (a2, b2) = (a / 2, b / 2);
        assert forall|i: nat| bit(b2, i) implies bit(a2, i) by {
            assert(bit(b, i + 1) ==> bit(a, i + 1));
        }
        lemma_covers_le(a2, b2);
    }
}

/// Subtracting a covered number clears exactly its bits.
pub proof fn lemma_bit_sub(a: nat, b: nat, i: nat)
    requires
        covers(a, b),
    ensures
        b <= a,
        bit((a - b) as nat, i) == (bit(a, i) && !bit(b, i)),
    decreases i,
{
    lemma_covers_le(a, b);
    assert(bit(b, 0) ==> bit(a, 0));
    let (a2, b2) = (a / 2, b / 2);
    assert forall|k: nat| bit(b2, k) implies bit(a2, k) by {
        assert(bit(b, k + 1) ==> bit(a, k + 1));
    }
    lemma_covers_le(a2, b2);
    if i > 0 {
        lemma_bit_sub(a2, b2, (i - 1) as nat);
    }
}

/// `2^k` has bit `k` set and no other.
pub proof fn lemma_bit_pow2(k: nat, i: nat)
    ensures
        bit(pow2(k), i) == (i == k),
    decreases i,
{
    lemma_pow2_pos(k);
    if k == 0 {
        lemma2_to64();
        if i > 0 {
            lemma_bit_zero((i - 1) as nat);
        }
    } else {
        lemma_pow2_unfold(k);
        if i > 0 {
            lemma_bit_pow2((k - 1) as nat, (i - 1) as nat);
        }
    }
}

/// `2^k - 1` has exactly the bits below `k` set.
pub proof fn lemma_bit_low_mask(k: nat, i: nat)
    ensures
        pow2(k) >= 1,
        bit((pow2(k) - 1) as nat, i) == (i < k),
    decreases i,
{
    lemma_pow2_pos(k);
    if k == 0 {
        lemma2_to64();
        lemma_bit_zero(i);
    } else {
        lemma_pow2_unfold(k);
        lemma_pow2_pos((k - 1) as nat);
        if i > 0 {
            lemma_bit_low_mask((k - 1) as nat, (i - 1) as nat);
        }
    }
}

/// A number below `2^k` has no bit set at position `k` or above.
pub proof fn lemma_bit_above(n: nat, k: nat, i: nat)
    requires
        n < pow2(k),
        i >= k,
    ensures
        !bit(n, i),
    decreases i,
{
    if k == 0 {
        lemma2_to64();
        lemma_bit_zero(i);
    } else {
        lemma_pow2_unfold(k);
        lemma_bit_above(n / 2, (k - 1) as nat, (i - 1) as nat);
    }
}

/// Reducing modulo `2^k` keeps the bits below `k` and clears the others.
pub proof fn lemma_bit_mod_pow2(n: nat, k: nat, i: nat)
    ensures
        pow2(k) > 0,
        bit(n % pow2(k), i) == (i < k && bit(n, i)),
    decreases i,
{
    lemma_pow2_pos(k);
    if k == 0 {
        lemma2_to64();
        lemma_bit_zero(i);
    } else {
        let p = pow2((k - 1) as nat);
        lemma_pow2_unfold(k);
        lemma_pow2_pos((k - 1) as nat);
        lemma_breakdown(n as int, 2, p as int);
        assert(n % pow2(k) == 2 * ((n / 2) % p) + n % 2);
        if i > 0 {
            lemma_bit_mod_pow2(n / 2, (k - 1) as nat, (i - 1) as nat);
        }
    }
}

/// Setting a bit that is clear adds its power of two.
pub proof fn lemma_or_fresh_bit(n: nat, k: nat)
    requires
        n < pow2(k),
    ensures
        nat_or(n, pow2(k)) == n + pow2(k),
    decreases k,
{
    lemma_pow2_pos(k);
    if k == 0 {
        lemma2_to64();
        reveal_with_fuel(nat_or, 2);
    } else {
        lemma_pow2_unfold(k);
        lemma_pow2_pos((k - 1) as nat);
        lemma_or_fresh_bit(n / 2, (k - 1) as nat);
    }
}

/// Numbers that agree below a width have as many set and as many clear bits there.
pub proof fn lemma_count_agree(a: nat, b: nat, width: nat)
    requires
        agree_below(a, b, width),
    ensures
        ones_below(a, width) == ones_below(b, width),
        zeros_below(a, width) == zeros_below(b, width),
    decreases width,
{
    if width > 0 {
        assert(bit(a, (width - 1) as nat) == bit(b, (width - 1) as nat));
        lemma_count_agree(a, b, (width - 1) as nat);
    }
}

/// Below any width, each position holds either a set or a clear bit.
pub proof fn lemma_ones_zeros(n: nat, width: nat)
    ensures
        ones_below(n, width) + zeros_below(n, width) == width,
    decreases width,
{
    if width > 0 {
        lemma_ones_zeros(n, (width - 1) as nat);
    }
}

/// Positions that hold no set bit add nothing to the count of set bits.
pub proof fn lemma_ones_extend(n: nat, low: nat, high: nat)
    requires
        low <= high,
        forall|i: nat| low <= i < high ==> !bit(n, i),
    ensures
        ones_below(n, high) == ones_below(n, low),
    decreases high,
{
    if low < high {
        lemma_ones_extend(n, low, (high - 1) as nat);
    }
}

/// Bit `i` of a machine word, read off by shifting and masking.
pub proof fn lemma_u64_bit(x: u64, i: u64)
    requires
        i < 64,
    ensures
        bit(x as nat, i as nat) == ((x >> i) & 1 == 1),
    decreases i,
{
    if i == 0 {
        assert(((x >> 0) & 1 == 1) == (x % 2 == 1)) by (bit_vector);
    } else {
        let h = x >> 1;
        let j = (i - 1) as u64;
        assert(x >> 1 == x / 2) by (bit_vector);
        lemma_u64_bit(h, j);
        assert((x >> 1) >> j == x >> i) by (bit_vector)
            requires
                j == i - 1,
                0 < i < 64,
        ;
    }
}

/// A machine word has no bit at position 64 or above.
pub proof fn lemma_u64_bit_high(x: u64, i: nat)
    requires
        i >= 64,
    ensures
        !bit(x as nat, i),
{
    lemma2_to64();
    lemma2_to64_rest();
    lemma_bit_above(x as nat, 64, i);
}

/// The word-level `&` is the bitwise `and` of the numbers.
pub proof fn lemma_u64_and(x: u64, y: u64)
    ensures
        (x & y) as nat == nat_and(x as nat, y as nat),
{
    let z = x & y;
    assert forall|i: nat| bit(z as nat, i) == bit(nat_and(x as nat, y as nat), i) by {
        lemma_bit_and(x as nat, y as nat, i);
        if i < 64 {
            let k = i as u64;
            lemma_u64_bit(x, k);
            lemma_u64_bit(y, k);
            lemma_u64_bit(z, k);
            assert((((x & y) >> k) & 1 == 1) == (((x >> k) & 1 == 1) && ((y >> k) & 1 == 1)))
                by (bit_vector);
        } else {
            lemma_u64_bit_high(x, i);
            lemma_u64_bit_high(y, i);
            lemma_u64_bit_high(z, i);
        }
    }
    lemma_bits_equal(z as nat, nat_and(x as nat, y as nat));
}

/// The word-level `|` is the bitwise `or` of the numbers.
pub proof fn lemma_u64_or(x: u64, y: u64)
    ensures
        (x | y) as nat == nat_or(x as nat, y as nat),
{
    let z = x | y;
    assert forall|i: nat| bit(z as nat, i) == bit(nat_or(x as nat, y as nat), i) by {
        lemma_bit_or(x as nat, y as nat, i);
        if i < 64 {
            let k = i as u64;
            lemma_u64_bit(x, k);
            lemma_u64_bit(y, k);
            lemma_u64_bit(z, k);
            assert((((x | y) >> k) & 1 == 1) == (((x >> k) & 1 == 1) || ((y >> k) & 1 == 1)))
                by (bit_vector);
        } else {
            lemma_u64_bit_high(x, i);
            lemma_u64_bit_high(y, i);
            lemma_u64_bit_high(z, i);
        }
    }
    lemma_bits_equal(z as nat, nat_or(x as nat, y as nat));
}


/// The digit that stands `i` places from the end of the binary digits is bit `i`.
pub proof fn lemma_digit_is_bit(n: nat, i: nat)
    requires
        i < binary_digits(n).len(),
    ensures
        binary_digits(n)[binary_digits(n).len() - 1 - i] == digit(bit(n, i)),
    decreases n,
{
    if n < 2 {
    } else if i > 0 {
        lemma_digit_is_bit(n / 2, (i - 1) as nat);
    }
}

/// A number of at least `2^w - 1` has at least `w` binary digits, and every
/// number has at least one.
pub proof fn lemma_digits_len(n: nat, w: nat)
    requires
        n + 1 >= pow2(w),
    ensures
        binary_digits(n).len() >= w,
        binary_digits(n).len() >= 1,
    decreases w,
{
    if w >= 2 {
        lemma_pow2_unfold(w);
        lemma_pow2_unfold((w - 1) as nat);
        lemma_pow2_pos((w - 2) as nat);
        lemma_digits_len(n / 2, (w - 1) as nat);
    }
}

/// A digit at the front counts as one at the end does.
proof fn lemma_zero_digits_front(x: u8, s: Seq<u8>)
    ensures
        zero_digits(seq![x] + s) == zero_digits(s) + (if x == 48 {
            1nat
        } else {
            0nat
        }),
    decreases s.len(),
{
    let t = seq![x] + s;
    if s.len() == 0 {
        assert(t.drop_last() =~= Seq::<u8>::empty());
        assert(zero_digits(t.drop_last()) == 0);
    } else {
        assert(t.drop_last() =~= seq![x] + s.drop_last());
        lemma_zero_digits_front(x, s.drop_last());
    }
}

/// The zeros among the last `w` binary digits are the clear bits below `w`.
pub proof fn lemma_zero_digits_tail(n: nat, w: nat)
    requires
        w <= binary_digits(n).len(),
    ensures
        zero_digits(tail(binary_digits(n), w)) == zeros_below(n, w),
    decreases w,
{
    let d = binary_digits(n);
    if w == 0 {
        assert(tail(d, 0) =~= Seq::<u8>::empty());
    } else {
        let v = (w - 1) as nat;
        lemma_zero_digits_tail(n, v);
        lemma_digit_is_bit(n, v);
        assert(tail(d, w) =~= seq![d[d.len() - w]] + tail(d, v));
        lemma_zero_digits_front(d[d.len() - w], tail(d, v));
    }
}


/// Where every bit below a width is set, none is clear.
pub proof fn lemma_zeros_none(n: nat, width: nat)
    requires
        forall|i: nat| i < width ==> bit(n, i),
    ensures
        zeros_below(n, width) == 0,
    decreases width,
{
    if width > 0 {
        lemma_zeros_none(n, (width - 1) as nat);
    }
}

} // verus!
