use ark_ff::PrimeField;
use ferveo_core::lagrange::prepare_combine_simple;
use ferveo_core::scalar::Scalar;
use ferveo_core::Error;

fn to_fr(s: &Scalar) -> ark_bls12_381::Fr {
    ark_bls12_381::Fr::from_repr(ark_ff::BigInteger256::new(s.limbs())).unwrap()
}

/// degree-2 polynomial 7 + 3x + 2x^2 over the scalar field
fn poly(x: u64) -> ark_bls12_381::Fr {
    let x = ark_bls12_381::Fr::from(x);
    ark_bls12_381::Fr::from(7u64) + ark_bls12_381::Fr::from(3u64) * x
        + ark_bls12_381::Fr::from(2u64) * x * x
}

#[test]
fn coefficients_reconstruct_value_at_origin() {
    // three distinct nonzero points reconstruct a degree-2 polynomial's
    // constant term exactly
    let points = vec![Scalar::from_u64(1), Scalar::from_u64(2), Scalar::from_u64(3)];
    let coeffs = prepare_combine_simple(&points).unwrap();
    assert_eq!(coeffs.len(), 3);
    let mut sum = ark_bls12_381::Fr::from(0u64);
    for (c, x) in coeffs.iter().zip([1u64, 2, 3]) {
        sum += to_fr(c) * poly(x);
    }
    assert_eq!(sum, ark_bls12_381::Fr::from(7u64));
}

#[test]
fn coefficients_match_known_values() {
    // for points 1 and 2: l_1 = 2/(2-1) = 2, l_2 = 1/(1-2) = -1
    let points = vec![Scalar::from_u64(1), Scalar::from_u64(2)];
    let coeffs = prepare_combine_simple(&points).unwrap();
    assert_eq!(to_fr(&coeffs[0]), ark_bls12_381::Fr::from(2u64));
    assert_eq!(to_fr(&coeffs[1]), -ark_bls12_381::Fr::from(1u64));
}

#[test]
fn single_point_coefficient_is_one() {
    let points = vec![Scalar::from_u64(5)];
    let coeffs = prepare_combine_simple(&points).unwrap();
    assert_eq!(to_fr(&coeffs[0]), ark_bls12_381::Fr::from(1u64));
}

#[test]
fn repeated_point_is_arithmetic_error() {
    let points = vec![Scalar::from_u64(4), Scalar::from_u64(9), Scalar::from_u64(4)];
    assert_eq!(prepare_combine_simple(&points), Err(Error::Arithmetic));
}

#[test]
fn zero_point_is_arithmetic_error() {
    let points = vec![Scalar::from_u64(0), Scalar::from_u64(9)];
    assert_eq!(prepare_combine_simple(&points), Err(Error::Arithmetic));
}
