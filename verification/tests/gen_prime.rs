use num::bigint::BigUint;
use num::Integer;
use primegen::gen_prime;
use primegen::prime::miller_rabin;

fn check_generated(bits: usize) {
    let n = gen_prime(bits);
    assert!(n.is_odd());
    assert!(miller_rabin(&n, bits));
    assert!(n.bits() >= bits as u64);
    assert!(n.bits() <= bits as u64 + 1);
}

#[test]
fn gen_prime_64() {
    check_generated(64);
}

#[test]
fn gen_prime_128() {
    check_generated(128);
}

#[test]
fn gen_prime_256() {
    check_generated(256);
}

#[test]
fn gen_prime_512() {
    check_generated(512);
}

#[test]
fn gen_prime_one_bit() {
    // The only one-bit candidate is 1; the search moves on to 3.
    assert_eq!(gen_prime(1), BigUint::from(3u32));
}

#[test]
fn gen_prime_two_bits() {
    // Two-bit candidates are 2 and 3; both lead to 3.
    for _ in 0..20 {
        assert_eq!(gen_prime(2), BigUint::from(3u32));
    }
}

#[test]
fn gen_prime_three_bits() {
    // Three-bit candidates are 4 to 7: the result is 5 or 7.
    for _ in 0..20 {
        let n = gen_prime(3);
        assert!(n == BigUint::from(5u32) || n == BigUint::from(7u32));
    }
}

#[test]
fn gen_prime_small_sizes_have_the_top_bit() {
    for bits in 4..40usize {
        let n = gen_prime(bits);
        assert!(n.is_odd());
        assert!(n >= (BigUint::from(1u32) << (bits - 1)));
    }
}

#[test]
fn gen_prime_draws_differ() {
    let a = gen_prime(128);
    let b = gen_prime(128);
    let c = gen_prime(128);
    assert!(a != b || b != c);
}
