use bls12_381::Scalar;
use ntt::field381::{i_ntt_381, ntt_381};

#[test]
fn fixed_field_mixes_equal_inputs() {
    let input = vec![Scalar::from(3), Scalar::from(3)];
    let output = ntt_381(&input);
    assert_ne!(input, output);
    // position 0 adds the inputs; position 1 weighs the second input
    // by a primitive square root of unity, which is -1 in the field
    assert_eq!(output, vec![Scalar::from(6), Scalar::zero()]);
}

#[test]
fn fixed_field_round_trip_pair() {
    let input = vec![Scalar::from(3), Scalar::from(3)];
    let back = i_ntt_381(&ntt_381(&input));
    assert_eq!(back, input);
}

#[test]
fn fixed_field_round_trip_distinct_values() {
    let input = vec![
        Scalar::from(1),
        Scalar::from(2),
        Scalar::from(3),
        Scalar::from(4),
    ];
    let output = ntt_381(&input);
    assert_ne!(input, output);
    let back = i_ntt_381(&output);
    assert_eq!(back, input);
}

#[test]
fn fixed_field_single_element_is_fixed() {
    let input = vec![Scalar::from(7)];
    let output = ntt_381(&input);
    assert_eq!(output, input);
    let back = i_ntt_381(&output);
    assert_eq!(back, input);
}

#[test]
fn fixed_field_round_trip_zeroes() {
    let input = vec![Scalar::zero(), Scalar::zero()];
    let output = ntt_381(&input);
    assert_eq!(output, input);
    let back = i_ntt_381(&output);
    assert_eq!(back, input);
}
