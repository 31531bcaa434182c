//! Probable-prime generation over arbitrary-precision unsigned integers.
//!
//! The crate draws a random odd candidate of a requested bit length and
//! advances it until the Miller-Rabin test in [`prime`] accepts it.

use crate::bignum::{big_add, big_from_u64, big_is_even, big_lt, big_shl, random_bits, value};
use crate::prime::miller_rabin;
use crate::theory::primes::{is_prime, lemma_prime_above, lemma_prime_odd};
use crate::theory::strong::accepted;
use num::bigint::BigUint;
use vstd::arithmetic::power2::{lemma_pow2_pos, lemma_pow2_unfold, pow2};
use vstd::prelude::*;

pub mod bignum;
pub mod prime;
pub mod theory;

verus! {

/// Generates a probable prime of `bitsize` bits.
///
/// The first candidate is a random number with exactly `bitsize` bits, made
/// odd by adding 1 where needed. Candidates are tested with
/// [`miller_rabin`] and advanced by 2 until one is accepted. The search has
/// no cap on its steps, but it cannot run past a prime: the result is at
/// most the first odd prime from `2^bitsize` on.
pub fn gen_prime(bitsize: usize) -> (n: BigUint)
    requires
        bitsize >= 1,
    ensures
        value(n) % 2 == 1,
        value(n) >= 3,
        value(n) >= pow2((bitsize - 1) as nat),
        accepted(value(n)),
        forall|q: nat| is_prime(q) && q > 2 && q >= pow2(bitsize as nat) ==> value(n) <= q,
{
    let one = big_from_u64(1);
    let two = big_add(&one, &one);
    let top = big_shl(&one, bitsize - 1);
    let mut n = random_bits(bitsize);
    proof {
        lemma_pow2_unfold(bitsize as nat);
        lemma_pow2_pos((bitsize - 1) as nat);
    }
    if big_lt(&n, &top) {
        n = big_add(&n, &top);
    }
    if big_is_even(&n) {
        n = big_add(&n, &one);
    }
    let ghost mut bound: nat = 0;
    proof {
        bound = lemma_prime_above(value(n) + 2);
        lemma_prime_odd(bound);
    }
    loop
        invariant
            bitsize >= 1,
            value(two) == 2,
            value(n) % 2 == 1,
            value(n) >= pow2((bitsize - 1) as nat),
            forall|q: nat| is_prime(q) && q > 2 && q >= pow2(bitsize as nat) ==> value(n) <= q,
            is_prime(bound),
            bound % 2 == 1,
            value(n) <= bound,
        decreases bound - value(n),
    {
        if miller_rabin(&n, bitsize) {
            return n;
        }
        proof {
            assert forall|q: nat|
                is_prime(q) && q > 2 && q >= pow2(bitsize as nat) implies value(n) + 2 <= q by {
                lemma_prime_odd(q);
            }
        }
        n = big_add(&n, &two);
    }
}

} // verus!
