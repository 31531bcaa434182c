//! Binomial coefficients, the binomial theorem, and what a prime row of
//! Pascal's triangle looks like modulo that prime.

use crate::theory::primes::{is_prime, lemma_euclid_small, lemma_mod_zero_is_multiple, lemma_multiple_mod};
use vstd::arithmetic::div_mod::{lemma_add_mod_noop_right, lemma_mod_multiples_vanish, lemma_small_mod};
use vstd::arithmetic::power::{lemma_pow0, pow};
use vstd::prelude::*;

verus! {

/// The binomial coefficient "`n` choose `k`", by Pascal's rule.
pub open spec fn binom(n: nat, k: nat) -> nat
    decreases n,
{
    if k == 0 {
        1
    } else if n == 0 {
        0
    } else {
        binom((n - 1) as nat, (k - 1) as nat) + binom((n - 1) as nat, k)
    }
}

/// The first `j` terms of the expansion of `(a + 1)^n` in powers of `a`.
pub open spec fn binom_sum(n: nat, a: int, j: nat) -> int
    decreases j,
{
    if j == 0 {
        0
    } else {
        binom_sum(n, a, (j - 1) as nat) + binom(n, (j - 1) as nat) * pow(a, (j - 1) as nat)
    }
}

/// `b^e = b * b^(e-1)` for positive `e`.
pub proof fn lemma_pow_unfold(b: int, e: nat)
    requires
        e > 0,
    ensures
        pow(b, e) == b * pow(b, (e - 1) as nat),
{
    reveal(pow);
}

/// There is no way to choose more than `n` out of `n`.
pub proof fn lemma_binom_above(n: nat, k: nat)
    requires
        k > n,
    ensures
        binom(n, k) == 0,
    decreases n,
{
    if n > 0 {
        lemma_binom_above((n - 1) as nat, (k - 1) as nat);
        lemma_binom_above((n - 1) as nat, k);
    }
}

/// There is one way to choose all.
pub proof fn lemma_binom_all(n: nat)
    ensures
        binom(n, n) == 1,
    decreases n,
{
    if n > 0 {
        lemma_binom_all((n - 1) as nat);
        lemma_binom_above((n - 1) as nat, n);
    }
}

/// Pascal's rule, summed: the first `j` terms for `n + 1` are those for `n`
/// plus `a` times the first `j - 1` terms for `n`.
pub proof fn lemma_pascal_sum(n: nat, a: int, j: nat)
    requires
        j >= 1,
    ensures
        binom_sum(n + 1, a, j) == binom_sum(n, a, j) + a * binom_sum(n, a, (j - 1) as nat),
    decreases j,
{
    if j == 1 {
        lemma_pow0(a);
        assert(binom_sum(n + 1, a, 0) == 0);
        assert(binom_sum(n, a, 0) == 0);
        assert(binom_sum(n + 1, a, 1) == 1) by (nonlinear_arith)
            requires
                binom_sum(n + 1, a, 1) == 0 + binom(n + 1, 0) * pow(a, 0),
                binom(n + 1, 0) == 1,
                pow(a, 0) == 1,
        ;
        assert(binom_sum(n, a, 1) == 1) by (nonlinear_arith)
            requires
                binom_sum(n, a, 1) == 0 + binom(n, 0) * pow(a, 0),
                binom(n, 0) == 1,
                pow(a, 0) == 1,
        ;
        assert(a * 0 == 0);
    } else {
        let i = (j - 1) as nat;
        let h = (i - 1) as nat;
        lemma_pascal_sum(n, a, i);
        lemma_pow_unfold(a, i);
        let c1 = binom(n, h) as int;
        let c2 = binom(n, i) as int;
        let ai = pow(a, i);
        let ah = pow(a, h);
        let s1 = binom_sum(n, a, h);
        assert(binom(n + 1, i) == c1 + c2);
        assert(binom_sum(n + 1, a, j) == binom_sum(n + 1, a, i) + (c1 + c2) * ai);
        assert(binom_sum(n, a, j) == binom_sum(n, a, i) + c2 * ai);
        assert(binom_sum(n, a, i) == s1 + c1 * ah);
        assert((c1 + c2) * ai + a * s1 == c2 * ai + a * (s1 + c1 * ah)) by (nonlinear_arith)
            requires
                ai == a * ah,
        ;
    }
}

/// The binomial theorem for `(a + 1)^n`.
pub proof fn lemma_binomial_theorem(n: nat, a: int)
    ensures
        binom_sum(n, a, n + 1) == pow(a + 1, n),
    decreases n,
{
    if n == 0 {
        lemma_pow0(a);
        lemma_pow0(a + 1);
        assert(binom_sum(0, a, 0) == 0);
        assert(binom_sum(0, a, 1) == 1) by (nonlinear_arith)
            requires
                binom_sum(0, a, 1) == 0 + binom(0, 0) * pow(a, 0),
                binom(0, 0) == 1,
                pow(a, 0) == 1,
        ;
    } else {
        let m = (n - 1) as nat;
        lemma_binomial_theorem(m, a);
        lemma_pascal_sum(m, a, m + 2);
        lemma_binom_above(m, m + 1);
        let s = binom_sum(m, a, m + 1);
        assert(binom_sum(m, a, m + 2) == s + binom(m, m + 1) * pow(a, m + 1));
        assert(binom(m, m + 1) * pow(a, m + 1) == 0) by (nonlinear_arith)
            requires
                binom(m, m + 1) == 0,
        ;
        lemma_pow_unfold(a + 1, n);
        assert(s + a * s == (a + 1) * s) by (nonlinear_arith);
    }
}

/// The absorption identity: `k * C(n, k) = n * C(n - 1, k - 1)`.
pub proof fn lemma_absorption(n: nat, k: nat)
    requires
        n >= 1,
        k >= 1,
    ensures
        k * binom(n, k) == n * binom((n - 1) as nat, (k - 1) as nat),
    decreases n,
{
    let m = (n - 1) as nat;
    let x = binom(m, (k - 1) as nat);
    let y = binom(m, k);
    assert(binom(n, k) == x + y);
    if m == 0 {
        if k == 1 {
            assert(x == 1 && y == 0);
        } else {
            assert(x == 0 && y == 0);
        }
        assert(k * (x + y) == n * x) by (nonlinear_arith)
            requires
                n == 1,
                y == 0,
                k == 1 || x == 0,
        ;
    } else {
        lemma_absorption(m, k);
        let v = binom((m - 1) as nat, (k - 1) as nat);
        assert(k * y == m * v);
        if k == 1 {
            assert(x == 1 && v == 1);
            assert(k * (x + y) == n * x) by (nonlinear_arith)
                requires
                    k == 1,
                    x == 1,
                    v == 1,
                    k * y == m * v,
                    n == m + 1,
            ;
        } else {
            lemma_absorption(m, (k - 1) as nat);
            let u = binom((m - 1) as nat, (k - 2) as nat);
            assert(x == u + v);
            assert((k - 1) * x == m * u);
            assert(k * (x + y) == n * x) by (nonlinear_arith)
                requires
                    x == u + v,
                    k * y == m * v,
                    (k - 1) * x == m * u,
                    n == m + 1,
            ;
        }
    }
}

/// A prime divides every entry of its row of Pascal's triangle but the two
/// at the ends.
pub proof fn lemma_binom_prime_row(p: nat, k: nat)
    requires
        is_prime(p),
        0 < k < p,
    ensures
        binom(p, k) % p == 0,
{
    lemma_absorption(p, k);
    lemma_multiple_mod(binom((p - 1) as nat, (k - 1) as nat) as int, p as int);
    lemma_euclid_small(p, k, binom(p, k));
}

/// Modulo a prime `p`, the expansion of `(a + 1)^p` without its last term
/// is 1.
pub proof fn lemma_binom_sum_prime(p: nat, a: int, j: nat)
    requires
        is_prime(p),
        1 <= j <= p,
    ensures
        binom_sum(p, a, j) % (p as int) == 1,
    decreases j,
{
    if j == 1 {
        lemma_pow0(a);
        assert(binom_sum(p, a, 0) == 0);
        assert(binom_sum(p, a, 1) == 1) by (nonlinear_arith)
            requires
                binom_sum(p, a, 1) == 0 + binom(p, 0) * pow(a, 0),
                binom(p, 0) == 1,
                pow(a, 0) == 1,
        ;
        lemma_small_mod(1, p);
    } else {
        let i = (j - 1) as nat;
        lemma_binom_sum_prime(p, a, i);
        lemma_binom_prime_row(p, i);
        lemma_mod_zero_is_multiple(binom(p, i) as int, p as int);
        let c = (binom(p, i) / p) as int;
        let s = binom_sum(p, a, i);
        let x = pow(a, i);
        assert(binom_sum(p, a, j) == s + binom(p, i) * x);
        assert(binom(p, i) * x == p * (c * x)) by (nonlinear_arith)
            requires
                binom(p, i) == p * c,
        ;
        lemma_mod_multiples_vanish(c * x, s, p as int);
    }
}

/// Modulo a prime `p`, `(a + 1)^p` is `a^p + 1`.
pub proof fn lemma_prime_power_of_successor(p: nat, a: int)
    requires
        is_prime(p),
    ensures
        pow(a + 1, p) % (p as int) == (pow(a, p) + 1) % (p as int),
{
    lemma_binomial_theorem(p, a);
    lemma_binom_sum_prime(p, a, p);
    lemma_binom_all(p);
    let s = binom_sum(p, a, p);
    let x = pow(a, p);
    assert(binom_sum(p, a, p + 1) == s + binom(p, p) * x);
    assert(binom(p, p) * x == x) by (nonlinear_arith)
        requires
            binom(p, p) == 1,
    ;
    lemma_add_mod_noop_right(x, s, p as int);
}

} // verus!
