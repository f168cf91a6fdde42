use ntt::num_theory::{add_mod, inv_mod, is_prime, mul_mod, pow_mod, prime_factors};

#[test]
fn is_prime_small_cases() {
    assert!(!is_prime(0));
    assert!(!is_prime(1));
    assert!(is_prime(2));
    assert!(is_prime(3));
    assert!(!is_prime(4));
    assert!(is_prime(13));
    assert!(!is_prime(25));
    assert!(is_prime(97));
    assert!(!is_prime(91));
}

#[test]
fn prime_factors_composite() {
    assert_eq!(prime_factors(12), vec![2, 2, 3]);
    assert_eq!(prime_factors(360), vec![2, 2, 2, 3, 3, 5]);
}

#[test]
fn prime_factors_prime() {
    assert_eq!(prime_factors(13), vec![13]);
    assert_eq!(prime_factors(2), vec![2]);
}

#[test]
fn prime_factors_one() {
    assert_eq!(prime_factors(1), Vec::<u64>::new());
}

#[test]
fn pow_mod_cases() {
    assert_eq!(pow_mod(3, 4, 5), 1);
    assert_eq!(pow_mod(2, 10, 1000), 24);
    assert_eq!(pow_mod(5, 0, 7), 1);
    assert_eq!(pow_mod(0, 5, 7), 0);
    assert_eq!(pow_mod(7, 1, 1), 0);
    // 64-bit inputs must not overflow the intermediates
    assert_eq!(
        pow_mod(0xffff_ffff_ffff_fffe, 2, 0xffff_ffff_ffff_ffff),
        1
    );
}

#[test]
fn inv_mod_finds_least_inverse() {
    // 3^1 = 3, and 3 * 5 = 15 = 2*7 + 1
    assert_eq!(inv_mod(3, 1, 7), Some(5));
    // 2^2 = 4, and 4 * 10 = 40 = 3*13 + 1
    assert_eq!(inv_mod(2, 2, 13), Some(10));
}

#[test]
fn inv_mod_none_when_not_coprime() {
    assert_eq!(inv_mod(0, 1, 7), None);
    assert_eq!(inv_mod(2, 1, 4), None);
}

#[test]
fn mul_add_mod_cases() {
    assert_eq!(mul_mod(7, 8, 13), 4);
    assert_eq!(add_mod(9, 9, 13), 5);
    assert_eq!(
        mul_mod(0xffff_ffff_ffff_ffff, 0xffff_ffff_ffff_ffff, 10),
        5
    );
}
