//! Divisibility and primes: Euclid's lemma, and that the primes never end.

use vstd::arithmetic::div_mod::{
    lemma_add_mod_noop, lemma_fundamental_div_mod, lemma_mod_bound, lemma_mod_is_zero,
    lemma_mod_multiples_basic, lemma_mod_self_0, lemma_mul_mod_noop_left, lemma_small_mod,
};
use vstd::prelude::*;

verus! {

/// `d` divides `n`.
pub open spec fn divides(d: nat, n: nat) -> bool {
    d != 0 && n % d == 0
}

/// `p` is a prime: at least 2, with no divisor but 1 and itself.
pub open spec fn is_prime(p: nat) -> bool {
    p >= 2 && forall|d: nat| #[trigger] divides(d, p) ==> d == 1 || d == p
}

/// The product of the numbers 1 to `n`.
pub open spec fn factorial(n: nat) -> nat
    decreases n,
{
    if n == 0 {
        1
    } else {
        n * factorial((n - 1) as nat)
    }
}

/// Any multiple of `m` leaves no remainder modulo `m`.
pub proof fn lemma_multiple_mod(k: int, m: int)
    requires
        m > 0,
    ensures
        (k * m) % m == 0,
        (m * k) % m == 0,
{
    lemma_mod_multiples_basic(k, m);
    assert(k * m == m * k) by (nonlinear_arith);
}

/// What leaves no remainder modulo `m` is `m` times its quotient.
pub proof fn lemma_mod_zero_is_multiple(x: int, m: int)
    requires
        m > 0,
        x % m == 0,
    ensures
        x == m * (x / m),
{
    lemma_fundamental_div_mod(x, m);
}

/// Divisibility is transitive.
pub proof fn lemma_divides_transitive(a: nat, b: nat, c: nat)
    requires
        divides(a, b),
        divides(b, c),
    ensures
        divides(a, c),
{
    let i = (b / a) as int;
    let j = (c / b) as int;
    lemma_mod_zero_is_multiple(b as int, a as int);
    lemma_mod_zero_is_multiple(c as int, b as int);
    assert(c == (j * i) * a) by (nonlinear_arith)
        requires
            b == a * i,
            c == b * j,
    ;
    lemma_multiple_mod(j * i, a as int);
}

/// Euclid's lemma for a factor below the prime: if `p` divides `a * b` and
/// `0 < a < p`, then `p` divides `b`.
pub proof fn lemma_euclid_small(p: nat, a: nat, b: nat)
    requires
        is_prime(p),
        0 < a < p,
        (a * b) % p == 0,
    ensures
        b % p == 0,
    decreases a,
{
    if a == 1 {
        assert(a * b == b) by (nonlinear_arith)
            requires
                a == 1,
        ;
    } else {
        assert(!divides(a, p));
        let r = p % a;
        let q = p / a;
        lemma_fundamental_div_mod(p as int, a as int);
        lemma_mod_bound(p as int, a as int);
        let k = (a * b) / p;
        lemma_mod_zero_is_multiple((a * b) as int, p as int);
        assert(r * b == (b - q * k) * p) by (nonlinear_arith)
            requires
                p == a * q + r,
                a * b == p * k,
        ;
        lemma_multiple_mod(b - q * k, p as int);
        lemma_euclid_small(p, r, b);
    }
}

/// Euclid's lemma: a prime that divides a product divides one of the
/// factors.
pub proof fn lemma_euclid(p: nat, a: nat, b: nat)
    requires
        is_prime(p),
        (a * b) % p == 0,
    ensures
        a % p == 0 || b % p == 0,
{
    let a0 = a % p;
    lemma_mod_bound(a as int, p as int);
    if a0 != 0 {
        lemma_mul_mod_noop_left(a as int, b as int, p as int);
        lemma_euclid_small(p, a0, b);
    }
}

/// Every number from 2 up has a prime divisor.
pub proof fn lemma_prime_divisor(n: nat) -> (q: nat)
    requires
        n >= 2,
    ensures
        is_prime(q),
        divides(q, n),
    decreases n,
{
    if is_prime(n) {
        lemma_mod_self_0(n as int);
        n
    } else {
        let d = choose|d: nat| #[trigger] divides(d, n) && d != 1 && d != n;
        assert(d <= n) by {
            lemma_mod_is_zero(n, d);
        }
        let q = lemma_prime_divisor(d);
        lemma_divides_transitive(q, d, n);
        q
    }
}

/// Every number from 1 to `n` divides `n!`.
pub proof fn lemma_factorial_divisible(n: nat, k: nat)
    requires
        1 <= k <= n,
    ensures
        factorial(n) % k == 0,
    decreases n,
{
    let f = factorial((n - 1) as nat);
    if k == n {
        lemma_multiple_mod(f as int, n as int);
        assert(n * f == f * n) by (nonlinear_arith);
    } else {
        lemma_factorial_divisible((n - 1) as nat, k);
        lemma_mod_zero_is_multiple(f as int, k as int);
        let j = (f / k) as int;
        assert(n * f == (n * j) * k) by (nonlinear_arith)
            requires
                f == k * j,
        ;
        lemma_multiple_mod(n * j, k as int);
    }
}

/// `n!` is at least 1.
pub proof fn lemma_factorial_positive(n: nat)
    ensures
        factorial(n) >= 1,
    decreases n,
{
    if n > 0 {
        lemma_factorial_positive((n - 1) as nat);
        assert(n * factorial((n - 1) as nat) >= 1) by (nonlinear_arith)
            requires
                n >= 1,
                factorial((n - 1) as nat) >= 1,
        ;
    }
}

/// Above every number there is a prime: a prime divisor of `n! + 1`
/// cannot be one of 1 to `n`.
pub proof fn lemma_prime_above(n: nat) -> (q: nat)
    ensures
        is_prime(q),
        q > n,
{
    let f = factorial(n);
    lemma_factorial_positive(n);
    let q = lemma_prime_divisor(f + 1);
    if q <= n {
        lemma_factorial_divisible(n, q);
        lemma_add_mod_noop(f as int, 1, q as int);
        lemma_small_mod(1, q);
        assert(false);
    }
    q
}

/// 2 and 3 are prime.
pub proof fn lemma_small_primes()
    ensures
        is_prime(2),
        is_prime(3),
{
    assert forall|d: nat| #[trigger] divides(d, 2) implies d == 1 || d == 2 by {
        lemma_mod_is_zero(2, d);
    }
    assert forall|d: nat| #[trigger] divides(d, 3) implies d == 1 || d == 3 by {
        lemma_mod_is_zero(3, d);
    }
}

/// A prime above 2 is odd.
pub proof fn lemma_prime_odd(p: nat)
    requires
        is_prime(p),
        p > 2,
    ensures
        p % 2 == 1,
{
    if p % 2 == 0 {
        assert(divides(2, p));
    }
}

} // verus!
