//! The strong probable-prime condition that one Miller-Rabin round decides.

use crate::theory::modular::{lemma_pow_mod_bound, lemma_pow_mod_double, pow_mod};
use vstd::arithmetic::mul::lemma_mul_is_associative;
use vstd::arithmetic::power2::{lemma_pow2_pos, lemma_pow2_unfold, pow2};
use vstd::prelude::*;

verus! {

/// How often 2 divides `n`; 0 for `n == 0`.
pub open spec fn twos(n: nat) -> nat
    decreases n,
{
    if n == 0 || n % 2 == 1 {
        0
    } else {
        1 + twos(n / 2)
    }
}

/// What is left of `n` once every factor 2 is taken out; 0 for `n == 0`.
pub open spec fn odd_part(n: nat) -> nat
    decreases n,
{
    if n == 0 || n % 2 == 1 {
        n
    } else {
        odd_part(n / 2)
    }
}

/// The `r`-th element of the chain `a^d, a^(2d), a^(4d), ...` modulo `n`.
pub open spec fn chain(n: nat, d: nat, a: nat, r: nat) -> nat {
    pow_mod(a, d * pow2(r), n)
}

/// The outcome of one round for base `a`, with `n - 1` split as `d * 2^s`:
/// the chain starts at 1, or starts at `n - 1`, or reaches `n - 1` at one of
/// its elements 1 to `s - 1`.
pub open spec fn round_passes(n: nat, s: nat, d: nat, a: nat) -> bool {
    ||| chain(n, d, a, 0) == 1
    ||| chain(n, d, a, 0) == n - 1
    ||| exists|r: nat| 1 <= r < s && #[trigger] chain(n, d, a, r) == n - 1
}

/// `n` is a strong probable prime to base `a`.
pub open spec fn strong_probable_prime(n: nat, a: nat) -> bool {
    round_passes(n, twos((n - 1) as nat), odd_part((n - 1) as nat), a)
}

/// The bases that the test draws from for a candidate `n`.
pub open spec fn is_base(n: nat, a: nat) -> bool {
    2 <= a < n - 1
}

/// Some base lets `n` pass a round.
pub open spec fn some_base_passes(n: nat) -> bool {
    exists|a: nat| is_base(n, a) && #[trigger] strong_probable_prime(n, a)
}

/// Some base proves `n` composite.
pub open spec fn some_base_fails(n: nat) -> bool {
    exists|a: nat| is_base(n, a) && !#[trigger] strong_probable_prime(n, a)
}

/// What a `true` of the Miller-Rabin test says of `n`: it is 2 or 3, or it
/// is at least 4 and some base lets it pass.
pub open spec fn accepted(n: nat) -> bool {
    n == 2 || n == 3 || (n >= 4 && some_base_passes(n))
}

/// Taking one factor 2 out of `d` and giving it to the power of two keeps
/// the product.
pub proof fn lemma_shift_factor(d: nat, s: nat)
    requires
        d % 2 == 0,
    ensures
        (d / 2) * pow2(s + 1) == d * pow2(s),
{
    lemma_pow2_unfold(s + 1);
    lemma_mul_is_associative((d / 2) as int, 2, pow2(s) as int);
}

/// For positive `n`, `odd_part(n)` is odd and `odd_part(n) * 2^twos(n) == n`.
pub proof fn lemma_decomposition(n: nat)
    requires
        n > 0,
    ensures
        odd_part(n) % 2 == 1,
        odd_part(n) * pow2(twos(n)) == n,
    decreases n,
{
    if n % 2 == 1 {
        assert(pow2(0) == 1) by {
            vstd::arithmetic::power2::lemma2_to64();
        }
        assert(twos(n) == 0 && odd_part(n) == n);
        assert(n * pow2(0) == n) by (nonlinear_arith)
            requires
                pow2(0) == 1,
        ;
    } else {
        lemma_decomposition(n / 2);
        let o = odd_part(n / 2);
        let h = pow2(twos(n / 2));
        assert(twos(n) == 1 + twos(n / 2));
        assert(odd_part(n) == o);
        lemma_pow2_unfold(twos(n));
        assert(pow2(twos(n)) == 2 * h);
        assert(o * (2 * h) == 2 * (o * h)) by (nonlinear_arith);
    }
}

/// A positive number splits into an odd number and a power of two in one
/// way only.
pub proof fn lemma_decomposition_unique(n: nat, s: nat, d: nat)
    requires
        n > 0,
        d % 2 == 1,
        d * pow2(s) == n,
    ensures
        s == twos(n),
        d == odd_part(n),
    decreases s,
{
    if s == 0 {
        assert(pow2(0) == 1) by {
            vstd::arithmetic::power2::lemma2_to64();
        }
        assert(d * pow2(0) == d) by (nonlinear_arith)
            requires
                pow2(0) == 1,
        ;
    } else {
        let h = pow2((s - 1) as nat);
        lemma_pow2_unfold(s);
        lemma_pow2_pos((s - 1) as nat);
        assert(d * (2 * h) == 2 * (d * h)) by (nonlinear_arith);
        assert(d * h > 0) by (nonlinear_arith)
            requires
                d > 0,
                h > 0,
        ;
        lemma_decomposition_unique(n / 2, (s - 1) as nat, d);
    }
}

/// Each element of the chain is the square of the one before it.
pub proof fn lemma_chain_step(n: nat, d: nat, a: nat, r: nat)
    requires
        n > 0,
    ensures
        chain(n, d, a, r + 1) == (chain(n, d, a, r) * chain(n, d, a, r)) % n,
        chain(n, d, a, r) < n,
{
    lemma_pow2_unfold(r + 1);
    assert(d * (2 * pow2(r)) == 2 * (d * pow2(r))) by (nonlinear_arith);
    lemma_pow_mod_double(a, d * pow2(r), n);
    lemma_pow_mod_bound(a, d * pow2(r), n);
}

/// Once the chain is at 1 it stays there.
pub proof fn lemma_chain_stays_one(n: nat, d: nat, a: nat, r: nat, k: nat)
    requires
        n > 0,
        chain(n, d, a, r) == 1,
        r <= k,
    ensures
        chain(n, d, a, k) == 1,
    decreases k - r,
{
    if r < k {
        lemma_chain_step(n, d, a, r);
        assert(n > 1);
        assert((1int * 1int) % (n as int) == 1) by {
            vstd::arithmetic::div_mod::lemma_small_mod(1, n);
        }
        lemma_chain_stays_one(n, d, a, r + 1, k);
    }
}

} // verus!
