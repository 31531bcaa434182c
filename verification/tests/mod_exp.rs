use num::bigint::BigUint;
use primegen::prime::mod_exp;
use std::str::FromStr;

fn big(n: u64) -> BigUint {
    BigUint::from(n)
}

fn naive_pow_mod(a: u64, e: u64, m: u64) -> u64 {
    let mut acc: u64 = 1 % m;
    let mut i = 0;
    while i < e {
        acc = (acc * (a % m)) % m;
        i += 1;
    }
    acc
}

#[test]
fn test_mod_exp() {
    let five = BigUint::from(5u32);
    let ten = BigUint::from(10u32);
    let fifteen = BigUint::from(15u32);

    assert_eq!(mod_exp(&five, &ten, &fifteen), ten);
    assert_eq!(mod_exp(&ten, &five, &fifteen), ten);
}

#[test]
fn test_mod_exp_big() {
    let big_base: BigUint = FromStr::from_str("12345678901234567890123456789000").unwrap();
    let big_exp: BigUint = FromStr::from_str("12345678901234567890123456789000").unwrap();
    let big_mod: BigUint = FromStr::from_str("98765432109876543210987654321000").unwrap();
    let big_out: BigUint = FromStr::from_str("29647215002964721500296472150000").unwrap();
    assert_eq!(mod_exp(&big_base, &big_exp, &big_mod), big_out);
}

#[test]
fn mod_exp_agrees_with_repeated_multiplication() {
    for m in 1..20u64 {
        for a in 0..20u64 {
            for e in 0..12u64 {
                assert_eq!(
                    mod_exp(&big(a), &big(e), &big(m)),
                    big(naive_pow_mod(a, e, m)),
                    "a = {}, e = {}, m = {}",
                    a,
                    e,
                    m
                );
            }
        }
    }
}

#[test]
fn mod_exp_exponent_zero() {
    assert_eq!(mod_exp(&big(7), &big(0), &big(13)), big(1));
    assert_eq!(mod_exp(&big(0), &big(0), &big(13)), big(1));
}

#[test]
fn mod_exp_modulus_one_is_zero() {
    assert_eq!(mod_exp(&big(7), &big(0), &big(1)), big(0));
    assert_eq!(mod_exp(&big(7), &big(5), &big(1)), big(0));
}

#[test]
fn mod_exp_base_above_modulus() {
    // 100^3 = 1_000_000 = 142857 * 7 + 1
    assert_eq!(mod_exp(&big(100), &big(3), &big(7)), big(1));
    // 2^10 = 1024 = 1000 + 24
    assert_eq!(mod_exp(&big(2), &big(10), &big(1000)), big(24));
}

#[test]
fn mod_exp_fermat_on_mersenne_prime() {
    let p: BigUint = FromStr::from_str("170141183460469231731687303715884105727").unwrap();
    let e = &p - 1u32;
    assert_eq!(mod_exp(&big(3), &e, &p), big(1));
}
