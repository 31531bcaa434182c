use num::bigint::BigUint;
use num::Integer;
use primegen::prime::{miller_rabin, rounds_for, witness_round, write_n_minus_one};
use std::str::FromStr;

fn big(n: u64) -> BigUint {
    BigUint::from(n)
}

fn is_prime_by_trial(n: u64) -> bool {
    if n < 2 {
        return false;
    }
    let mut d = 2;
    while d * d <= n {
        if n % d == 0 {
            return false;
        }
        d += 1;
    }
    true
}

#[test]
fn test_miller_rabin_composite() {
    let known_composite = FromStr::from_str("170141183460469231731687303715884105725").unwrap();
    assert_eq!(miller_rabin(&known_composite, 256), false);
}

#[test]
fn test_miller_rabin_prime() {
    let known_prime = FromStr::from_str("170141183460469231731687303715884105727").unwrap();
    assert_eq!(miller_rabin(&known_prime, 256), true);
}

#[test]
fn verdict_is_stable_on_known_values() {
    let known_prime: BigUint = FromStr::from_str("170141183460469231731687303715884105727").unwrap();
    let known_composite: BigUint =
        FromStr::from_str("170141183460469231731687303715884105725").unwrap();
    for _ in 0..5 {
        assert!(miller_rabin(&known_prime, 256));
        assert!(!miller_rabin(&known_composite, 256));
    }
}

#[test]
fn small_candidates_are_decided_exactly() {
    assert!(!miller_rabin(&big(0), 8));
    assert!(!miller_rabin(&big(1), 8));
    assert!(miller_rabin(&big(2), 8));
    assert!(miller_rabin(&big(3), 8));
}

#[test]
fn every_small_prime_is_accepted() {
    for n in 0..2000u64 {
        if is_prime_by_trial(n) {
            assert!(miller_rabin(&big(n), 16), "{} is prime", n);
        }
    }
}

#[test]
fn rejected_values_are_composite() {
    for n in 4..2000u64 {
        if !miller_rabin(&big(n), 16) {
            assert!(!is_prime_by_trial(n), "{} was rejected", n);
        }
    }
}

#[test]
fn even_candidates_do_not_fault() {
    for n in [4u64, 6, 8, 10, 100, 1024, 65536] {
        assert!(!miller_rabin(&big(n), 32), "{} is even", n);
    }
}

#[test]
fn round_count_at_each_threshold() {
    let table = [
        (1300usize, 2usize),
        (850, 3),
        (650, 4),
        (550, 5),
        (450, 6),
        (400, 7),
        (350, 8),
        (300, 9),
        (250, 12),
        (200, 15),
        (150, 18),
    ];
    let mut above = 2;
    for (threshold, count) in table {
        assert_eq!(rounds_for(threshold), count);
        assert_eq!(rounds_for(threshold + 1), count);
        assert_eq!(rounds_for(threshold - 1), if threshold == 150 { 27 } else { next(threshold) });
        assert!(count >= above);
        above = count;
    }
}

fn next(threshold: usize) -> usize {
    match threshold {
        1300 => 3,
        850 => 4,
        650 => 5,
        550 => 6,
        450 => 7,
        400 => 8,
        350 => 9,
        300 => 12,
        250 => 15,
        200 => 18,
        _ => 27,
    }
}

#[test]
fn round_count_below_the_table() {
    assert_eq!(rounds_for(149), 27);
    assert_eq!(rounds_for(100), 27);
    assert_eq!(rounds_for(99), 27);
    assert_eq!(rounds_for(1), 27);
    assert_eq!(rounds_for(0), 27);
}

#[test]
fn round_count_far_above_the_table() {
    assert_eq!(rounds_for(4096), 2);
    assert_eq!(rounds_for(usize::MAX), 2);
}

#[test]
fn decomposition_of_small_values() {
    // 13 - 1 = 12 = 3 * 2^2
    let (s, d) = write_n_minus_one(&big(13));
    assert_eq!(s, big(2));
    assert_eq!(d, big(3));
    // 17 - 1 = 16 = 1 * 2^4
    let (s, d) = write_n_minus_one(&big(17));
    assert_eq!(s, big(4));
    assert_eq!(d, big(1));
    // 2 - 1 = 1 = 1 * 2^0
    let (s, d) = write_n_minus_one(&big(2));
    assert_eq!(s, big(0));
    assert_eq!(d, big(1));
    // 10 - 1 = 9 = 9 * 2^0
    let (s, d) = write_n_minus_one(&big(10));
    assert_eq!(s, big(0));
    assert_eq!(d, big(9));
}

#[test]
fn decomposition_multiplies_back() {
    let mut n = 3u64;
    while n < 3000 {
        let (s, d) = write_n_minus_one(&big(n));
        assert!(d.is_odd());
        let s = u32::try_from(s).unwrap();
        assert_eq!(d * big(2).pow(s), big(n - 1));
        n += 2;
    }
}

#[test]
fn decomposition_of_mersenne_prime() {
    // 2^127 - 2 = 2 * (2^126 - 1)
    let p: BigUint = FromStr::from_str("170141183460469231731687303715884105727").unwrap();
    let (s, d) = write_n_minus_one(&p);
    assert_eq!(s, big(1));
    assert_eq!(d, FromStr::from_str("85070591730234615865843651857942052863").unwrap());
}

#[test]
fn witness_round_base_two_proves_nine_composite() {
    // 9 - 1 = 1 * 2^3; 2, 4, 7 is the chain: never 1 at the start, never 8.
    assert!(!witness_round(&big(9), &big(3), &big(1), &big(2)));
}

#[test]
fn witness_round_passes_at_chain_start() {
    // 13 - 1 = 3 * 2^2; 3^3 = 27 = 1 mod 13.
    assert!(witness_round(&big(13), &big(2), &big(3), &big(3)));
    // 5^3 = 125 = 8, 8^2 = 64 = 12 mod 13.
    assert!(witness_round(&big(13), &big(2), &big(3), &big(5)));
    // 13 - 1 itself: 12^3 = -1 mod 13.
    assert!(witness_round(&big(13), &big(2), &big(3), &big(12)));
}

#[test]
fn witness_round_strong_liar() {
    // 25 - 1 = 3 * 2^3; 7^3 = 343 = 18, 18^2 = 324 = 24 mod 25: 7 lets 25 pass.
    assert!(witness_round(&big(25), &big(3), &big(3), &big(7)));
    // 2^3 = 8, 8^2 = 14, 14^2 = 21 mod 25: 2 proves 25 composite.
    assert!(!witness_round(&big(25), &big(3), &big(3), &big(2)));
}

#[test]
fn witness_round_one_inside_the_chain_is_composite() {
    // 15 - 1 = 7 * 2^1 has no inner squaring; take 65 - 1 = 1 * 2^6 and base 8:
    // 8, 64 = -1 passes. Base 14: 14, 196 = 1 mod 65: 1 appears after a value
    // that is neither 1 nor 64, so 65 is composite.
    assert!(witness_round(&big(65), &big(6), &big(1), &big(8)));
    assert!(!witness_round(&big(65), &big(6), &big(1), &big(14)));
}

#[test]
fn witness_round_last_square_is_not_examined() {
    // 17 - 1 = 1 * 2^4 and base 3: 3, 9, 13, 16. With s = 4 the value 16 is
    // reached at element 3 and the round passes; told s = 3 the round stops
    // at 13 and fails.
    assert!(witness_round(&big(17), &big(4), &big(1), &big(3)));
    assert!(!witness_round(&big(17), &big(3), &big(1), &big(3)));
}

#[test]
fn witness_round_without_squarings() {
    // s = 0: only the start of the chain is looked at. 3^9 = 19683 = 3 mod 10.
    assert!(!witness_round(&big(10), &big(0), &big(9), &big(3)));
    // 9^9 = -1 mod 10.
    assert!(witness_round(&big(10), &big(0), &big(9), &big(9)));
}

#[test]
fn every_base_lets_a_prime_pass() {
    for p in [5u64, 7, 13, 17, 97, 257, 7919] {
        let (s, d) = write_n_minus_one(&big(p));
        for a in 1..p {
            assert!(witness_round(&big(p), &s, &d, &big(a)), "p = {}, a = {}", p, a);
        }
    }
}
