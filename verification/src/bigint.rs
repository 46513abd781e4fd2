//! Natural numbers of any size, held by `num_bigint::BigUint`.
//!
//! Nothing here is proved: each function states what the arithmetic of
//! `num_bigint` computes, over the natural number that a `BigUint` holds.

use num_bigint::BigUint;
use num_traits::ToPrimitive;
use vstd::prelude::*;

verus! {

#[verifier::external_type_specification]
#[verifier::external_body]
pub struct ExBigUint(num_bigint::BigUint);

/// The natural number that a `BigUint` holds.
pub uninterp spec fn big_value(b: BigUint) -> nat;

/// `BigUint::from` on a word: the number `x`.
#[verifier::external_body]
pub(crate) fn big_from_word(x: u64) -> (r: BigUint)
    ensures
        big_value(r) == x,
{
    BigUint::from(x)
}

/// `Clone::clone` of a `BigUint`: the same number.
pub assume_specification[ <BigUint as Clone>::clone ](a: &BigUint) -> (r: BigUint)
    ensures
        big_value(r) == big_value(*a),
;

/// `Add::add` of two `BigUint`: their sum.
#[verifier::external_body]
pub(crate) fn big_add(a: &BigUint, b: &BigUint) -> (r: BigUint)
    ensures
        big_value(r) == big_value(*a) + big_value(*b),
{
    a + b
}

/// `Sub::sub` of two `BigUint`: their difference. It panics where the
/// second exceeds the first, which `requires` leaves out.
#[verifier::external_body]
pub(crate) fn big_sub(a: &BigUint, b: &BigUint) -> (r: BigUint)
    requires
        big_value(*a) >= big_value(*b),
    ensures
        big_value(r) == big_value(*a) - big_value(*b),
{
    a - b
}

/// `Mul::mul` of two `BigUint`: their product.
#[verifier::external_body]
pub(crate) fn big_mul(a: &BigUint, b: &BigUint) -> (r: BigUint)
    ensures
        big_value(r) == big_value(*a) * big_value(*b),
{
    a * b
}

/// `Div::div` of two `BigUint`: the quotient rounded down. It panics on a
/// zero divisor, which `requires` leaves out.
#[verifier::external_body]
pub(crate) fn big_div(a: &BigUint, b: &BigUint) -> (r: BigUint)
    requires
        big_value(*b) > 0,
    ensures
        big_value(r) == big_value(*a) / big_value(*b),
{
    a / b
}

/// `Rem::rem` of two `BigUint`: the remainder. It panics on a zero divisor,
/// which `requires` leaves out.
#[verifier::external_body]
pub(crate) fn big_rem(a: &BigUint, b: &BigUint) -> (r: BigUint)
    requires
        big_value(*b) > 0,
    ensures
        big_value(r) == big_value(*a) % big_value(*b),
{
    a % b
}

/// `PartialOrd::lt` of two `BigUint`: whether the first number is the smaller.
#[verifier::external_body]
pub(crate) fn big_less(a: &BigUint, b: &BigUint) -> (r: bool)
    ensures
        r == (big_value(*a) < big_value(*b)),
{
    a < b
}

/// `ToPrimitive::to_u64` of a `BigUint`: the number as a word, where it
/// fits in one.
#[verifier::external_body]
pub(crate) fn big_to_word(a: &BigUint) -> (r: Option<u64>)
    ensures
        r is Some <==> big_value(*a) <= u64::MAX,
        r matches Some(x) ==> x == big_value(*a),
{
    a.to_u64()
}

/// `BigUint::bits`: the fewest binary digits that express the number,
/// none for zero.
#[verifier::external_body]
pub(crate) fn big_bits(a: &BigUint) -> (r: u64)
    ensures
        r == crate::primes::bit_count(big_value(*a)),
{
    a.bits()
}

} // verus!
