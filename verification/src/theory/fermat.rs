//! Fermat's little theorem, the square roots of 1 modulo a prime, and from
//! the two: a prime passes every round of the Miller-Rabin test.

use crate::theory::binomial::{lemma_pow_unfold, lemma_prime_power_of_successor};
use crate::theory::modular::{lemma_pow_mod_bound, pow_mod};
use crate::theory::primes::{is_prime, lemma_euclid};
use crate::theory::strong::{
    chain, lemma_chain_step, lemma_decomposition, odd_part, round_passes, strong_probable_prime,
    twos,
};
use vstd::arithmetic::div_mod::{
    lemma_add_mod_noop, lemma_mod_equivalence, lemma_mod_is_zero, lemma_small_mod,
};
use vstd::arithmetic::power::{lemma0_pow, lemma_pow_positive, pow};
use vstd::prelude::*;

verus! {

/// Modulo a prime `p`, raising to the power `p` changes nothing.
pub proof fn lemma_fermat_power(p: nat, a: nat)
    requires
        is_prime(p),
    ensures
        pow(a as int, p) % (p as int) == a % p,
    decreases a,
{
    let m = p as int;
    if a == 0 {
        lemma0_pow(p);
    } else {
        let b = (a - 1) as int;
        lemma_prime_power_of_successor(p, b);
        lemma_fermat_power(p, (a - 1) as nat);
        lemma_add_mod_noop(pow(b, p), 1, m);
        lemma_add_mod_noop(b, 1, m);
    }
}

/// Fermat's little theorem: for a prime `p` and `a` not a multiple of `p`,
/// `a^(p-1)` is 1 modulo `p`.
pub proof fn lemma_fermat_little(p: nat, a: nat)
    requires
        is_prime(p),
        a % p != 0,
    ensures
        pow_mod(a, (p - 1) as nat, p) == 1,
{
    let m = p as int;
    let w = pow(a as int, (p - 1) as nat);
    assert(a > 0) by {
        lemma_small_mod(0, p);
    }
    lemma_pow_positive(a as int, (p - 1) as nat);
    lemma_pow_unfold(a as int, p);
    lemma_fermat_power(p, a);
    lemma_mod_equivalence(pow(a as int, p), a as int, m);
    let u = (w - 1) as nat;
    assert(a * u == pow(a as int, p) - a) by (nonlinear_arith)
        requires
            pow(a as int, p) == a * w,
            u == w - 1,
    ;
    lemma_euclid(p, a, u);
    lemma_mod_equivalence(w, 1, m);
    lemma_small_mod(1, p);
    lemma_pow_mod_bound(a, (p - 1) as nat, p);
}

/// Modulo a prime, 1 has the square roots 1 and -1 and no others.
pub proof fn lemma_square_roots_of_one(p: nat, x: nat)
    requires
        is_prime(p),
        x < p,
        (x * x) % p == 1,
    ensures
        x == 1 || x == p - 1,
{
    let m = p as int;
    if x == 0 {
        assert(x * x == 0) by (nonlinear_arith)
            requires
                x == 0,
        ;
        lemma_small_mod(0, p);
    } else {
        let u = (x - 1) as nat;
        let v = x + 1;
        assert(u * v == x * x - 1) by (nonlinear_arith)
            requires
                u == x - 1,
                v == x + 1,
        ;
        lemma_small_mod(1, p);
        lemma_mod_equivalence((x * x) as int, 1, m);
        lemma_euclid(p, u, v);
        if u % p == 0 {
            lemma_small_mod(u, p);
        } else {
            lemma_mod_is_zero(v, p);
        }
    }
}

/// If the chain for a prime `p` is at 1 after `k` squarings, it started at
/// 1 or went through `p - 1` on the way.
pub proof fn lemma_chain_reaches_one(p: nat, d: nat, a: nat, k: nat)
    requires
        is_prime(p),
        chain(p, d, a, k) == 1,
    ensures
        chain(p, d, a, 0) == 1 || exists|r: nat| r < k && #[trigger] chain(p, d, a, r) == p - 1,
    decreases k,
{
    if k > 0 {
        let j = (k - 1) as nat;
        lemma_chain_step(p, d, a, j);
        lemma_square_roots_of_one(p, chain(p, d, a, j));
        if chain(p, d, a, j) == 1 {
            lemma_chain_reaches_one(p, d, a, j);
        }
    }
}

/// A prime is a strong probable prime to every base that it does not
/// divide: no round of the test can reject a prime.
pub proof fn lemma_prime_passes(p: nat, a: nat)
    requires
        is_prime(p),
        a % p != 0,
    ensures
        strong_probable_prime(p, a),
{
    let n = (p - 1) as nat;
    let s = twos(n);
    let d = odd_part(n);
    lemma_decomposition(n);
    lemma_fermat_little(p, a);
    assert(chain(p, d, a, s) == 1);
    lemma_chain_reaches_one(p, d, a, s);
}

/// A base that `n` does not divide and that fails the round proves `n`
/// composite.
pub proof fn lemma_failed_round_proves_composite(n: nat, a: nat)
    requires
        n > 0,
        a % n != 0,
        !strong_probable_prime(n, a),
    ensures
        !is_prime(n),
{
    if is_prime(n) {
        lemma_prime_passes(n, a);
    }
}

} // verus!
