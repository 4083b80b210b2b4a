//! Arbitrary-precision naturals: the boundary to `num_bigint`.
//!
//! Everything in this module is trusted rather than proved. Each function
//! performs exactly one operation of `num_bigint::BigUint` and states the
//! arithmetic meaning of that operation over [`value_of`].

use num_bigint::BigUint;
use num_bigint::ToBigUint;
use num_traits::One;
use num_traits::ToPrimitive;
use num_traits::Zero;
use vstd::prelude::*;

verus! {

#[verifier::external_type_specification]
#[verifier::external_body]
pub struct ExBigUint(num_bigint::BigUint);

/// The natural number that a `BigUint` stands for.
pub uninterp spec fn value_of(b: BigUint) -> nat;

/// `ToBigUint::to_biguint` on a `u32`: the big integer with the same value.
#[verifier::external_body]
pub(crate) fn from_u32(n: u32) -> (r: BigUint)
    ensures
        value_of(r) == n,
{
    n.to_biguint().unwrap()
}

/// `One::one` for `BigUint`: the number one.
#[verifier::external_body]
pub(crate) fn one() -> (r: BigUint)
    ensures
        value_of(r) == 1,
{
    BigUint::one()
}

/// `Zero::zero` for `BigUint`: the number zero.
#[verifier::external_body]
pub(crate) fn zero() -> (r: BigUint)
    ensures
        value_of(r) == 0,
{
    BigUint::zero()
}

/// `&BigUint * &BigUint`: the exact product.
#[verifier::external_body]
pub(crate) fn mul(a: &BigUint, b: &BigUint) -> (r: BigUint)
    ensures
        value_of(r) == value_of(*a) * value_of(*b),
{
    a * b
}

/// `&BigUint * u32`: the exact product with a machine integer.
#[verifier::external_body]
pub(crate) fn mul_u32(a: &BigUint, m: u32) -> (r: BigUint)
    ensures
        value_of(r) == value_of(*a) * m,
{
    a * m
}

/// `&BigUint + &BigUint`: the exact sum.
#[verifier::external_body]
pub(crate) fn add(a: &BigUint, b: &BigUint) -> (r: BigUint)
    ensures
        value_of(r) == value_of(*a) + value_of(*b),
{
    a + b
}

/// `&BigUint / &BigUint`: the quotient rounded down. The division panics on
/// a zero divisor, which the precondition excludes.
#[verifier::external_body]
pub(crate) fn div(a: &BigUint, b: &BigUint) -> (r: BigUint)
    requires
        value_of(*b) > 0,
    ensures
        value_of(r) == value_of(*a) / value_of(*b),
{
    a / b
}

/// `BigUint::pow`: the base raised to a machine-integer exponent, with the
/// zeroth power of every base, zero included, being one.
#[verifier::external_body]
pub(crate) fn pow(base: &BigUint, exponent: u32) -> (r: BigUint)
    ensures
        value_of(r) == vstd::arithmetic::power::pow(value_of(*base) as int, exponent as nat),
{
    base.pow(exponent)
}

/// `ToPrimitive::to_u64` for `BigUint`: the value itself where it fits in 64
/// bits, and nothing where it does not.
#[verifier::external_body]
pub(crate) fn to_u64(a: &BigUint) -> (r: Option<u64>)
    ensures
        r == if value_of(*a) <= u64::MAX { Some(value_of(*a) as u64) } else { None },
{
    a.to_u64()
}

} // verus!
