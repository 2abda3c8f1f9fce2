//! Arbitrary-precision integers.
//!
//! The numbers of this library are `num_bigint::BigInt` values. Verus cannot look
//! inside them, so this module names the mathematical integer that a `BigInt`
//! holds and states, for each operation the schemes use, what it does to that
//! integer. Nothing in this module is proved: each contract restates the
//! documented behaviour of the operation it wraps.

use num_bigint::BigInt;
use num_bigint::RandBigInt;
use vstd::arithmetic::power::pow;
use vstd::prelude::*;

verus! {

/// `num_bigint::BigInt`, declared as an opaque type.
#[verifier::external_type_specification]
#[verifier::external_body]
pub struct ExBigInt(num_bigint::BigInt);

/// The mathematical integer that a `BigInt` holds.
pub uninterp spec fn int_value(b: BigInt) -> int;

/// The integers held by a sequence of `BigInt`s, in order.
pub open spec fn int_values(v: Seq<BigInt>) -> Seq<int> {
    v.map_values(|b: BigInt| int_value(b))
}

/// Rust's truncating remainder on mathematical integers, for a positive divisor:
/// the result has the sign of the dividend.
pub open spec fn truncated_rem(a: int, m: int) -> int {
    if a >= 0 {
        a % m
    } else {
        -((-a) % m)
    }
}

/// `BigInt::from(u64)`: the `BigInt` that holds `x`.
#[verifier::external_body]
pub(crate) fn big_from_u64(x: u64) -> (r: BigInt)
    ensures
        int_value(r) == x,
{
    BigInt::from(x)
}

/// `BigInt::clone`: a second `BigInt` holding the same integer.
#[verifier::external_body]
pub(crate) fn big_clone(a: &BigInt) -> (r: BigInt)
    ensures
        int_value(r) == int_value(*a),
{
    a.clone()
}

/// `&BigInt + &BigInt`: the exact sum.
#[verifier::external_body]
pub(crate) fn big_add(a: &BigInt, b: &BigInt) -> (r: BigInt)
    ensures
        int_value(r) == int_value(*a) + int_value(*b),
{
    a + b
}

/// `&BigInt - &BigInt`: the exact difference.
#[verifier::external_body]
pub(crate) fn big_sub(a: &BigInt, b: &BigInt) -> (r: BigInt)
    ensures
        int_value(r) == int_value(*a) - int_value(*b),
{
    a - b
}

/// `&BigInt * &BigInt`: the exact product.
#[verifier::external_body]
pub(crate) fn big_mul(a: &BigInt, b: &BigInt) -> (r: BigInt)
    ensures
        int_value(r) == int_value(*a) * int_value(*b),
{
    a * b
}

/// `&BigInt % &BigInt`: the truncating remainder, which panics on a zero
/// divisor. Only positive divisors are admitted here.
#[verifier::external_body]
pub(crate) fn big_rem(a: &BigInt, m: &BigInt) -> (r: BigInt)
    requires
        int_value(*m) > 0,
    ensures
        int_value(r) == truncated_rem(int_value(*a), int_value(*m)),
{
    a % m
}

/// `BigInt::modpow`: `base` raised to `exponent`, reduced into `[0, modulus)`.
/// The call panics on a negative exponent or a zero modulus; for a positive
/// modulus the result is the floor remainder of the power.
#[verifier::external_body]
pub(crate) fn big_modpow(base: &BigInt, exponent: &BigInt, modulus: &BigInt) -> (r: BigInt)
    requires
        int_value(*exponent) >= 0,
        int_value(*modulus) > 0,
    ensures
        int_value(r) == pow(int_value(*base), int_value(*exponent) as nat) % int_value(*modulus),
{
    base.modpow(exponent, modulus)
}

/// `BigInt`'s `<`: the order of the integers held.
#[verifier::external_body]
pub(crate) fn big_lt(a: &BigInt, b: &BigInt) -> (r: bool)
    ensures
        r == (int_value(*a) < int_value(*b)),
{
    a < b
}

/// `BigInt`'s `==`: whether both hold the same integer.
#[verifier::external_body]
pub(crate) fn big_eq(a: &BigInt, b: &BigInt) -> (r: bool)
    ensures
        r == (int_value(*a) == int_value(*b)),
{
    a == b
}

/// `RandBigInt::gen_bigint_range` on `rand::thread_rng()`: a random integer in
/// `[low, high)`. The call panics unless `low < high`. Which integer comes back
/// is left open: two calls on the same bounds may differ.
#[verifier::external_body]
pub(crate) fn big_random_in_range(low: &BigInt, high: &BigInt) -> (r: BigInt)
    requires
        int_value(*low) < int_value(*high),
    ensures
        int_value(*low) <= int_value(r) < int_value(*high),
{
    rand::thread_rng().gen_bigint_range(low, high)
}

} // verus!
