//! Arbitrary-width unsigned integers from `num_bigint`, used as bit sets that
//! are wider than a machine word. Each function here hands one operation of
//! `BigUint` to the verified code, with a contract over the number that the
//! value stands for; the contracts are taken on trust.

use crate::bits::{binary_digits, nat_and, nat_or};
use num_bigint::BigUint;
use vstd::arithmetic::power2::pow2;
use vstd::prelude::*;

verus! {

/// `num_bigint::BigUint`, which the verified code only carries around: all
/// that it knows of a value comes from the contracts below.
#[verifier::external_type_specification]
#[verifier::external_body]
pub struct ExBigUint(BigUint);

/// What a `BigUint` holds: its digits in base 2^32, least significant first,
/// as `BigUint::to_u32_digits` gives them.
pub uninterp spec fn wide_digits(b: BigUint) -> Seq<u32>;

/// The number that digits in base 2^32 stand for, least significant first.
pub open spec fn digits_value(digits: Seq<u32>) -> nat
    decreases digits.len(),
{
    if digits.len() == 0 {
        0
    } else {
        digits[0] as nat + 0x1_0000_0000 * digits_value(digits.drop_first())
    }
}

/// The natural number that a `BigUint` stands for.
pub open spec fn wide_value(b: BigUint) -> nat {
    digits_value(wide_digits(b))
}

/// `BigUint::from` on a `u64`: the result stands for the same number.
#[verifier::external_body]
pub(crate) fn wide_from_u64(x: u64) -> (r: BigUint)
    ensures
        digits_value(wide_digits(r)) == x as nat,
{
    BigUint::from(x)
}

/// `&BigUint << usize`: the number is multiplied by two to the power of the shift.
#[verifier::external_body]
pub(crate) fn wide_shl(a: &BigUint, shift: usize) -> (r: BigUint)
    ensures
        digits_value(wide_digits(r)) == digits_value(wide_digits(*a)) * pow2(shift as nat),
{
    a << shift
}

/// `&BigUint + &BigUint`: the result stands for the sum.
#[verifier::external_body]
pub(crate) fn wide_add(a: &BigUint, b: &BigUint) -> (r: BigUint)
    ensures
        digits_value(wide_digits(r)) == digits_value(wide_digits(*a)) + digits_value(
            wide_digits(*b),
        ),
{
    a + b
}

/// `&BigUint - &BigUint`: the result stands for the difference. The
/// subtraction panics where the second number is the larger one, so that case
/// is left out.
#[verifier::external_body]
pub(crate) fn wide_sub(a: &BigUint, b: &BigUint) -> (r: BigUint)
    requires
        digits_value(wide_digits(*b)) <= digits_value(wide_digits(*a)),
    ensures
        digits_value(wide_digits(r)) == digits_value(wide_digits(*a)) - digits_value(
            wide_digits(*b),
        ),
{
    a - b
}

/// `&BigUint & &BigUint`: the result has the bits that are set in both.
#[verifier::external_body]
pub(crate) fn wide_and(a: &BigUint, b: &BigUint) -> (r: BigUint)
    ensures
        digits_value(wide_digits(r)) == nat_and(
            digits_value(wide_digits(*a)),
            digits_value(wide_digits(*b)),
        ),
{
    a & b
}

/// `&BigUint | &BigUint`: the result has the bits that are set in either.
#[verifier::external_body]
pub(crate) fn wide_or(a: &BigUint, b: &BigUint) -> (r: BigUint)
    ensures
        digits_value(wide_digits(r)) == nat_or(
            digits_value(wide_digits(*a)),
            digits_value(wide_digits(*b)),
        ),
{
    a | b
}

/// `BigUint::to_str_radix` with radix 2: the binary digits of the number as
/// ASCII bytes, most significant first, without leading zeros; `"0"` for zero.
#[verifier::external_body]
pub(crate) fn wide_binary_string(a: &BigUint) -> (r: Vec<u8>)
    ensures
        r@ == binary_digits(digits_value(wide_digits(*a))),
{
    a.to_str_radix(2).into_bytes()
}

} // verus!
