//! The boundary to `num`'s arbitrary-precision unsigned integer.
//!
//! `BigUint` is opaque to the verifier. Everything the rest of the crate knows
//! about it is what the contracts in this file say: each function below makes
//! one call into `num` (the two random draws on `rand`'s thread generator),
//! and its contract is believed, not proved.
//!
//! Two things are outside what the contracts speak of: memory (a number of
//! `k` bits needs `k` bits of it), and the operating system's entropy source
//! that `rand::thread_rng()` is seeded from.

use num::bigint::BigUint;
use num::bigint::RandBigInt;
use num::integer::Integer;
use vstd::arithmetic::power2::pow2;
use vstd::prelude::*;

verus! {

#[verifier::external_type_specification]
#[verifier::external_body]
pub struct ExBigUint(BigUint);

/// The natural number that a `BigUint` stands for.
pub uninterp spec fn value(n: BigUint) -> nat;

/// `BigUint::from(u64)`: the big integer with the same value as `n`.
#[verifier::external_body]
pub(crate) fn big_from_u64(n: u64) -> (r: BigUint)
    ensures
        value(r) == n,
{
    BigUint::from(n)
}

/// `BigUint::clone`: a copy with the same value.
#[verifier::external_body]
pub(crate) fn big_clone(a: &BigUint) -> (r: BigUint)
    ensures
        value(r) == value(*a),
{
    a.clone()
}

/// `&BigUint + &BigUint`: exact addition.
#[verifier::external_body]
pub(crate) fn big_add(a: &BigUint, b: &BigUint) -> (r: BigUint)
    ensures
        value(r) == value(*a) + value(*b),
{
    a + b
}

/// `&BigUint - &BigUint`: exact subtraction. `num` panics when the result
/// would be negative, so the contract asks for `b <= a`.
#[verifier::external_body]
pub(crate) fn big_sub(a: &BigUint, b: &BigUint) -> (r: BigUint)
    requires
        value(*b) <= value(*a),
    ensures
        value(r) == value(*a) - value(*b),
{
    a - b
}

/// `&BigUint * &BigUint`: exact multiplication.
#[verifier::external_body]
pub(crate) fn big_mul(a: &BigUint, b: &BigUint) -> (r: BigUint)
    ensures
        value(r) == value(*a) * value(*b),
{
    a * b
}

/// `&BigUint / &BigUint`: floored division. `num` panics on a zero divisor.
#[verifier::external_body]
pub(crate) fn big_div(a: &BigUint, b: &BigUint) -> (r: BigUint)
    requires
        value(*b) > 0,
    ensures
        value(r) == value(*a) / value(*b),
{
    a / b
}

/// `&BigUint % &BigUint`: the remainder of floored division. `num` panics on
/// a zero divisor.
#[verifier::external_body]
pub(crate) fn big_rem(a: &BigUint, b: &BigUint) -> (r: BigUint)
    requires
        value(*b) > 0,
    ensures
        value(r) == value(*a) % value(*b),
{
    a % b
}

/// `&BigUint >> u64`: drops the `k` lowest bits.
#[verifier::external_body]
pub(crate) fn big_shr(a: &BigUint, k: u64) -> (r: BigUint)
    ensures
        value(r) == value(*a) / pow2(k as nat),
{
    a >> k
}

/// `&BigUint << usize`: appends `k` zero bits.
#[verifier::external_body]
pub(crate) fn big_shl(a: &BigUint, k: usize) -> (r: BigUint)
    ensures
        value(r) == value(*a) * pow2(k as nat),
{
    a << k
}

/// `Integer::is_even` on a `BigUint`.
#[verifier::external_body]
pub(crate) fn big_is_even(a: &BigUint) -> (r: bool)
    ensures
        r == (value(*a) % 2 == 0),
{
    a.is_even()
}

/// `Integer::is_odd` on a `BigUint`.
#[verifier::external_body]
pub(crate) fn big_is_odd(a: &BigUint) -> (r: bool)
    ensures
        r == (value(*a) % 2 == 1),
{
    a.is_odd()
}

/// `BigUint == BigUint`: `num` keeps its digits normalised, so two big
/// integers compare equal exactly when they stand for the same number.
#[verifier::external_body]
pub(crate) fn big_eq(a: &BigUint, b: &BigUint) -> (r: bool)
    ensures
        r == (value(*a) == value(*b)),
{
    a == b
}

/// `BigUint < BigUint`: the order of the numbers.
#[verifier::external_body]
pub(crate) fn big_lt(a: &BigUint, b: &BigUint) -> (r: bool)
    ensures
        r == (value(*a) < value(*b)),
{
    a < b
}

/// `RandBigInt::gen_biguint` on `rand::thread_rng()`: some number of at
/// most `bits` bits. Which one is left open. `num` takes the size as a
/// `u64` and panics when the digits cannot be counted in a `usize`; a size
/// that is a `usize` itself never gets there.
#[verifier::external_body]
pub(crate) fn random_bits(bits: usize) -> (r: BigUint)
    ensures
        value(r) < pow2(bits as nat),
{
    rand::thread_rng().gen_biguint(bits as u64)
}

/// `RandBigInt::gen_biguint_range` on `rand::thread_rng()`: some number in
/// `[low, high)`. Which one is left open. `num` panics on an empty range.
#[verifier::external_body]
pub(crate) fn random_in_range(low: &BigUint, high: &BigUint) -> (r: BigUint)
    requires
        value(*low) < value(*high),
    ensures
        value(*low) <= value(r) < value(*high),
{
    rand::thread_rng().gen_biguint_range(low, high)
}

} // verus!
