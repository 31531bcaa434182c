//! Powers and remainders.

use vstd::arithmetic::div_mod::{lemma_fundamental_div_mod, lemma_mul_mod_noop_general};
use vstd::arithmetic::mul::{lemma_mul_is_associative, lemma_mul_is_commutative};
use vstd::arithmetic::power::{
    lemma_pow1, lemma_pow_adds, lemma_pow_mod_noop, lemma_pow_multiplies, lemma_square_is_pow2,
    pow,
};
use vstd::prelude::*;

verus! {

/// `b` to the power `e`, reduced modulo `m`.
pub open spec fn pow_mod(b: nat, e: nat, m: nat) -> nat {
    (pow(b as int, e) % (m as int)) as nat
}

/// A power of a natural number is a natural number, and its remainder
/// modulo a positive `m` lies below `m`.
pub proof fn lemma_pow_mod_bound(b: nat, e: nat, m: nat)
    requires
        m > 0,
    ensures
        pow_mod(b, e, m) < m,
        pow_mod(b, e, m) == pow(b as int, e) % (m as int),
{
    lemma_fundamental_div_mod(pow(b as int, e), m as int);
}

/// Halving the exponent squares the base: `b^e = (b*b)^(e/2)`, times one
/// more `b` when `e` is odd.
pub proof fn lemma_pow_halve(b: int, e: nat)
    ensures
        pow(b, e) == pow(b * b, e / 2) * (if e % 2 == 1 { b } else { 1 }),
{
    let h: nat = e / 2;
    lemma_square_is_pow2(b);
    lemma_pow_multiplies(b, 2, h);
    assert(pow(b * b, h) == pow(b, 2 * h));
    if e % 2 == 1 {
        assert(e == 2 * h + 1);
        lemma_pow_adds(b, 2 * h, 1);
        lemma_pow1(b);
    } else {
        assert(e == 2 * h);
    }
}

/// One step of square-and-multiply keeps `acc * b^e` unchanged modulo `m`.
pub proof fn lemma_square_and_multiply_step(acc: int, b: int, e: nat, m: int)
    requires
        m > 0,
    ensures
        ({
            let acc2 = if e % 2 == 1 { ((acc % m) * (b % m)) % m } else { acc };
            let b2 = ((b % m) * (b % m)) % m;
            (acc2 * pow(b2, e / 2)) % m == (acc * pow(b, e)) % m
        }),
{
    let h: nat = e / 2;
    let b2 = ((b % m) * (b % m)) % m;
    let sq = pow(b * b, h);
    lemma_mul_mod_noop_general(b, b, m);
    assert(b2 == (b * b) % m);
    lemma_pow_mod_noop(b * b, h, m);
    assert(pow(b2, h) % m == sq % m);
    lemma_pow_halve(b, e);
    if e % 2 == 1 {
        let acc2 = ((acc % m) * (b % m)) % m;
        lemma_mul_mod_noop_general(acc, b, m);
        assert(acc2 == (acc * b) % m);
        lemma_mul_mod_noop_general(acc2, pow(b2, h), m);
        lemma_mul_mod_noop_general(acc * b, sq, m);
        assert((acc2 * pow(b2, h)) % m == ((acc * b) * sq) % m);
        assert((acc * b) * sq == acc * (sq * b)) by {
            lemma_mul_is_associative(acc, b, sq);
            lemma_mul_is_commutative(b, sq);
        }
    } else {
        lemma_mul_mod_noop_general(acc, pow(b2, h), m);
        lemma_mul_mod_noop_general(acc, sq, m);
        assert(sq * 1 == sq);
    }
}

/// Doubling the exponent squares the remainder.
pub proof fn lemma_pow_mod_double(b: nat, e: nat, m: nat)
    requires
        m > 0,
    ensures
        pow_mod(b, 2 * e, m) == (pow_mod(b, e, m) * pow_mod(b, e, m)) % m,
{
    let x = pow(b as int, e);
    lemma_pow_adds(b as int, e, e);
    assert(pow(b as int, 2 * e) == x * x);
    lemma_mul_mod_noop_general(x, x, m as int);
    lemma_pow_mod_bound(b, e, m);
    lemma_pow_mod_bound(b, 2 * e, m);
}

} // verus!
