//! Modular exponentiation and the Miller-Rabin test.

use crate::bignum::{
    big_add, big_clone, big_div, big_eq, big_from_u64, big_is_even, big_is_odd, big_lt, big_mul,
    big_rem, big_shr, big_sub, random_in_range, value,
};
use crate::theory::fermat::lemma_failed_round_proves_composite;
use crate::theory::modular::{lemma_pow_mod_bound, lemma_square_and_multiply_step, pow_mod};
use crate::theory::primes::{is_prime, lemma_small_primes};
use crate::theory::strong::{
    accepted, chain, is_base, lemma_chain_stays_one, lemma_chain_step, lemma_decomposition_unique,
    lemma_shift_factor, odd_part, round_passes, some_base_fails, some_base_passes,
    strong_probable_prime, twos,
};
use num::bigint::BigUint;
use vstd::arithmetic::div_mod::{lemma_mul_mod_noop_general, lemma_small_mod};
use vstd::arithmetic::power::{lemma_pow0, pow};
use vstd::arithmetic::power2::{lemma2_to64, pow2};
use vstd::prelude::*;

verus! {

/// Computes `base` to the power `exp`, modulo `modulus`, by right-to-left
/// square-and-multiply. Every product is reduced before the next one, so no
/// intermediate value has more than twice the digits of `modulus`.
pub fn mod_exp(base: &BigUint, exp: &BigUint, modulus: &BigUint) -> (result: BigUint)
    requires
        value(*modulus) > 0,
    ensures
        value(result) == pow_mod(value(*base), value(*exp), value(*modulus)),
{
    let ghost m = value(*modulus) as int;
    let ghost goal = pow(value(*base) as int, value(*exp)) % m;
    let zero = big_from_u64(0);
    let one = big_from_u64(1);
    let mut b = big_clone(base);
    let mut e = big_clone(exp);
    let mut result = big_rem(&one, modulus);
    proof {
        lemma_mul_mod_noop_general(1, pow(value(*base) as int, value(*exp)), m);
    }
    while big_lt(&zero, &e)
        invariant
            value(zero) == 0,
            m == value(*modulus),
            m > 0,
            value(result) < m,
            (value(result) * pow(value(b) as int, value(e))) % m == goal,
        decreases value(e),
    {
        proof {
            lemma_square_and_multiply_step(value(result) as int, value(b) as int, value(e), m);
            lemma_small_mod(value(result), m as nat);
            lemma2_to64();
        }
        if big_is_odd(&e) {
            result = big_rem(&big_mul(&big_rem(&result, modulus), &big_rem(&b, modulus)), modulus);
        }
        e = big_shr(&e, 1);
        b = big_rem(&big_mul(&big_rem(&b, modulus), &big_rem(&b, modulus)), modulus);
    }
    proof {
        lemma_pow0(value(b) as int);
        lemma_small_mod(value(result), m as nat);
        lemma_pow_mod_bound(value(*base), value(*exp), value(*modulus));
    }
    result
}

/// Splits `p - 1` into `d * 2^s` with `d` odd, by halving while the running
/// value is even. Returns `(s, d)`.
pub fn write_n_minus_one(p: &BigUint) -> (sd: (BigUint, BigUint))
    requires
        value(*p) >= 2,
    ensures
        value(sd.1) % 2 == 1,
        value(sd.1) * pow2(value(sd.0)) == value(*p) - 1,
        value(sd.0) == twos((value(*p) - 1) as nat),
        value(sd.1) == odd_part((value(*p) - 1) as nat),
{
    let one = big_from_u64(1);
    let two = big_add(&one, &one);
    let mut d = big_sub(p, &one);
    let mut s = big_from_u64(0);
    proof {
        lemma2_to64();
        assert(value(d) * pow2(0) == value(d)) by (nonlinear_arith)
            requires
                pow2(0) == 1,
        ;
    }
    while big_is_even(&d)
        invariant
            value(one) == 1,
            value(two) == 2,
            value(d) > 0,
            value(d) * pow2(value(s)) == value(*p) - 1,
        decreases value(d),
    {
        proof {
            lemma_shift_factor(value(d), value(s));
        }
        d = big_div(&d, &two);
        s = big_add(&s, &one);
    }
    proof {
        lemma_decomposition_unique((value(*p) - 1) as nat, value(s), value(d));
    }
    (s, d)
}

/// The number of rounds that a candidate of `bits` bits is tested for: the
/// count beside the first threshold, from the largest down, that `bits`
/// reaches, and 27 below the smallest threshold.
pub open spec fn round_count(bits: nat) -> nat {
    if bits >= 1300 {
        2
    } else if bits >= 850 {
        3
    } else if bits >= 650 {
        4
    } else if bits >= 550 {
        5
    } else if bits >= 450 {
        6
    } else if bits >= 400 {
        7
    } else if bits >= 350 {
        8
    } else if bits >= 300 {
        9
    } else if bits >= 250 {
        12
    } else if bits >= 200 {
        15
    } else if bits >= 150 {
        18
    } else {
        27
    }
}

/// A longer candidate is never tested for more rounds than a shorter one,
/// and every candidate is tested for at least 2 and at most 27 rounds.
pub proof fn lemma_round_count_monotone(shorter: nat, longer: nat)
    requires
        shorter <= longer,
    ensures
        round_count(longer) <= round_count(shorter),
        2 <= round_count(longer),
        round_count(shorter) <= 27,
{
}

/// Looks the round count up in the threshold table, largest threshold first.
pub fn rounds_for(bitsize: usize) -> (t: usize)
    ensures
        t == round_count(bitsize as nat),
{
    let table: [(usize, usize); 11] = [
        (1300, 2),
        (850, 3),
        (650, 4),
        (550, 5),
        (450, 6),
        (400, 7),
        (350, 8),
        (300, 9),
        (250, 12),
        (200, 15),
        (150, 18),
    ];
    let mut i: usize = 0;
    while i < 11
        invariant
            i <= 11,
            table[0] == (1300usize, 2usize),
            table[1] == (850usize, 3usize),
            table[2] == (650usize, 4usize),
            table[3] == (550usize, 5usize),
            table[4] == (450usize, 6usize),
            table[5] == (400usize, 7usize),
            table[6] == (350usize, 8usize),
            table[7] == (300usize, 9usize),
            table[8] == (250usize, 12usize),
            table[9] == (200usize, 15usize),
            table[10] == (150usize, 18usize),
            forall|j: int| 0 <= j < i ==> bitsize < (#[trigger] table[j]).0,
        decreases 11 - i,
    {
        if bitsize >= table[i].0 {
            return table[i].1;
        }
        i += 1;
    }
    27
}

/// One round of the test for the base `a`, where `s` and `d` describe the
/// candidate `p` as `write_n_minus_one` returns them. `true` means that `a`
/// does not prove `p` composite.
pub fn witness_round(p: &BigUint, s: &BigUint, d: &BigUint, a: &BigUint) -> (passes: bool)
    requires
        value(*p) > 0,
    ensures
        passes == round_passes(value(*p), value(*s), value(*d), value(*a)),
{
    let ghost n = value(*p);
    let ghost dv = value(*d);
    let ghost av = value(*a);
    let one = big_from_u64(1);
    let top = big_sub(p, &one);
    let mut x = mod_exp(a, d, p);
    proof {
        lemma2_to64();
        assert(dv * pow2(0) == dv) by (nonlinear_arith)
            requires
                pow2(0) == 1,
        ;
    }
    if big_eq(&x, &one) || big_eq(&x, &top) {
        return true;
    }
    let mut i = big_from_u64(1);
    while big_lt(&i, s)
        invariant
            n == value(*p),
            dv == value(*d),
            av == value(*a),
            n > 0,
            value(one) == 1,
            value(top) == n - 1,
            value(i) >= 1,
            value(x) == chain(n, dv, av, (value(i) - 1) as nat),
            chain(n, dv, av, 0) != 1,
            forall|r: nat| r < value(i) ==> #[trigger] chain(n, dv, av, r) != n - 1,
        decreases value(*s) - value(i),
    {
        proof {
            lemma_chain_step(n, dv, av, (value(i) - 1) as nat);
        }
        let ghost before = value(x);
        x = big_rem(&big_mul(&x, &x), p);
        assert(value(x) == chain(n, dv, av, value(i)));
        if big_eq(&x, &one) {
            proof {
                if n == 2 {
                    assert(before != 0) by (nonlinear_arith)
                        requires
                            (before * before) % n == 1,
                            n == 2,
                    ;
                    assert(chain(n, dv, av, (value(i) - 1) as nat) == n - 1);
                }
                assert forall|r: nat| 1 <= r < value(*s) implies #[trigger] chain(n, dv, av, r) != n
                    - 1 by {
                    if r >= value(i) {
                        lemma_chain_stays_one(n, dv, av, value(i), r);
                    }
                }
            }
            return false;
        }
        if big_eq(&x, &top) {
            return true;
        }
        i = big_add(&i, &one);
    }
    false
}

/// The Miller-Rabin test of `p`, with the number of rounds that `bitsize`
/// asks for. Each round draws a base from `[2, p - 1)`.
///
/// `false` is final: some base proved `p` composite, so `p` is no prime.
/// `true` means that every base drawn let `p` pass; a prime always gets
/// `true`, a composite may. Below 4 there is no base to draw, and the answer
/// is exact: 2 and 3 are prime, 0 and 1 are not.
///
/// The bound on the chance of a wrong `true` holds for odd `p` only.
pub fn miller_rabin(p: &BigUint, bitsize: usize) -> (verdict: bool)
    ensures
        value(*p) < 4 ==> verdict == (value(*p) == 2 || value(*p) == 3),
        value(*p) >= 4 && verdict ==> some_base_passes(value(*p)),
        value(*p) >= 4 && !verdict ==> some_base_fails(value(*p)),
        verdict ==> accepted(value(*p)),
        is_prime(value(*p)) ==> verdict,
        !verdict ==> !is_prime(value(*p)),
{
    let one = big_from_u64(1);
    let two = big_from_u64(2);
    let three = big_from_u64(3);
    let four = big_from_u64(4);
    if big_lt(p, &four) {
        proof {
            lemma_small_primes();
        }
        return big_eq(p, &two) || big_eq(p, &three);
    }
    let (s, d) = write_n_minus_one(p);
    let top = big_sub(p, &one);
    let t = rounds_for(bitsize);
    let mut i: usize = 0;
    while i < t
        invariant
            i <= t,
            value(*p) >= 4,
            value(two) == 2,
            value(top) == value(*p) - 1,
            value(s) == twos((value(*p) - 1) as nat),
            value(d) == odd_part((value(*p) - 1) as nat),
            i > 0 ==> some_base_passes(value(*p)),
        decreases t - i,
    {
        let a = random_in_range(&two, &top);
        assert(is_base(value(*p), value(a)));
        if !witness_round(p, &s, &d, &a) {
            assert(!strong_probable_prime(value(*p), value(a)));
            proof {
                lemma_small_mod(value(a), value(*p));
                lemma_failed_round_proves_composite(value(*p), value(a));
            }
            return false;
        }
        assert(strong_probable_prime(value(*p), value(a)));
        i += 1;
    }
    true
}

} // verus!
