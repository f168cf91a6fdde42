use ntt::discovery::{find_generator, find_modulus, find_primitive_root};
use ntt::num_theory::{is_prime, pow_mod, prime_factors};
use ntt::transform::{i_ntt, ntt};
use ntt::NttError;

#[test]
fn error_messages() {
    assert_eq!(
        NttError::EmptyInput.describe(),
        "transform requested on an empty sequence"
    );
    assert_eq!(
        NttError::ModulusNotFound.describe(),
        "no valid transform modulus was found"
    );
    assert_eq!(
        NttError::NoGeneratorExists.describe(),
        "no generator exists below the modulus"
    );
    assert_eq!(
        NttError::NoInverseExists.describe(),
        "no modular inverse was found"
    );
}

#[test]
fn empty_input_fails() {
    assert_eq!(ntt(&vec![]), Err(NttError::EmptyInput));
    assert_eq!(i_ntt(&vec![]), Err(NttError::EmptyInput));
    assert_eq!(find_modulus(&vec![]), Err(NttError::EmptyInput));
}

#[test]
fn modulus_for_four_elements() {
    let input: Vec<u64> = vec![0, 3, 6, 9];
    let m = find_modulus(&input).unwrap();
    assert_eq!(m, 13);
    assert!(is_prime(m));
    assert!(m > 9);
    assert!(m > 4);
    assert_eq!((m - 1) % 4, 0);
}

#[test]
fn modulus_for_two_elements() {
    let input: Vec<u64> = vec![0, 3];
    let m = find_modulus(&input).unwrap();
    assert_eq!(m, 5);
    assert!(is_prime(m));
    assert!(m > 3);
    assert_eq!((m - 1) % 2, 0);
}

#[test]
fn generator_validity_for_thirteen() {
    let g = find_generator(13).unwrap();
    assert_eq!(g, 2);
    assert_eq!(pow_mod(g, 12, 13), 1);
    let mut factors = prime_factors(12);
    factors.dedup();
    assert_eq!(factors, vec![2, 3]);
    for f in factors {
        assert_ne!(pow_mod(g, 12 / f, 13), 1);
    }
}

#[test]
fn primitive_root_validity_for_thirteen() {
    let w = find_primitive_root(4, 13).unwrap();
    assert_eq!(w, 8);
    assert_eq!(pow_mod(w, 4, 13), 1);
    // no smaller positive power returns to 1: the root has order exactly 4
    assert_ne!(pow_mod(w, 1, 13), 1);
    assert_ne!(pow_mod(w, 2, 13), 1);
    assert_ne!(pow_mod(w, 3, 13), 1);
}

#[test]
fn forward_values_four_elements() {
    let input: Vec<u64> = vec![0, 3, 6, 9];
    let out = ntt(&input).unwrap();
    assert_eq!(out, vec![5, 11, 7, 3]);
    assert!(out.iter().all(|&v| v < 13));
}

#[test]
fn forward_values_two_elements() {
    let input: Vec<u64> = vec![0, 3];
    let out = ntt(&input).unwrap();
    assert_eq!(out, vec![3, 2]);
}

#[test]
fn round_trip_four_elements() {
    let input: Vec<u64> = vec![0, 3, 6, 9];
    let out = ntt(&input).unwrap();
    assert_ne!(out, input);
    let back = i_ntt(&out).unwrap();
    assert_eq!(back, input);
}

#[test]
fn round_trip_two_elements() {
    let input: Vec<u64> = vec![0, 3];
    let out = ntt(&input).unwrap();
    assert_ne!(out, input);
    let back = i_ntt(&out).unwrap();
    assert_eq!(back, input);
}

#[test]
fn round_trip_single_element() {
    let input: Vec<u64> = vec![5];
    let out = ntt(&input).unwrap();
    assert_eq!(out, vec![5]);
    let back = i_ntt(&out).unwrap();
    assert_eq!(back, input);
}

#[test]
fn round_trip_larger_input() {
    let input: Vec<u64> = (0..=30).step_by(3).collect();
    let out = ntt(&input).unwrap();
    assert_ne!(out, input);
    let back = i_ntt(&out).unwrap();
    assert_eq!(back, input);
}

#[test]
fn inverse_rediscovers_its_own_modulus() {
    // the inverse transform discovers a modulus from its own input;
    // a forward output whose values all fall below the original
    // modulus range leads it to a smaller prime, so the round trip
    // does not close for such inputs
    let input: Vec<u64> = vec![5, 5];
    let out = ntt(&input).unwrap();
    assert_eq!(out, vec![3, 0]);
    let back = i_ntt(&out).unwrap();
    assert_eq!(back, vec![4, 4]);
}
