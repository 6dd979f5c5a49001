use ark_ec::PairingEngine;
use ark_ff::{Field, One, PrimeField};
use ferveo_core::gt::{share_combine_simple, TargetElem};
use ferveo_core::lagrange::prepare_combine_simple;
use ferveo_core::scalar::Scalar;
use ferveo_core::Error;

type E = ark_bls12_381::Bls12_381;

fn gt_gen() -> ark_bls12_381::Fq12 {
    let g1 = <ark_bls12_381::G1Affine as ark_ec::AffineCurve>::prime_subgroup_generator();
    let g2 = <ark_bls12_381::G2Affine as ark_ec::AffineCurve>::prime_subgroup_generator();
    E::pairing(g1, g2)
}

fn gt_bytes(e: &ark_bls12_381::Fq12) -> Vec<u8> {
    let mut bytes: Vec<u8> = Vec::new();
    ark_serialize::CanonicalSerialize::serialize(e, &mut bytes).unwrap();
    bytes
}

/// degree-2 polynomial 11 + 5x + 4x^2 over the scalar field
fn poly(x: u64) -> ark_bls12_381::Fr {
    let x = ark_bls12_381::Fr::from(x);
    ark_bls12_381::Fr::from(11u64) + ark_bls12_381::Fr::from(5u64) * x
        + ark_bls12_381::Fr::from(4u64) * x * x
}

#[test]
fn threshold_subset_reconstructs_shared_secret() {
    // three decryption shares of a degree-2 sharing combine to the secret
    // g_T ^ p(0)
    let base = gt_gen();
    let xs = [1u64, 2, 3];
    let shares: Vec<TargetElem> = xs
        .iter()
        .map(|&x| TargetElem::from_bytes(gt_bytes(&base.pow(poly(x).into_repr()))))
        .collect();
    let points: Vec<Scalar> = xs.iter().map(|&x| Scalar::from_u64(x)).collect();
    let coeffs = prepare_combine_simple(&points).unwrap();
    let combined = share_combine_simple(&shares, &coeffs).unwrap();
    let expected = gt_bytes(&base.pow(poly(0).into_repr()));
    assert_eq!(combined.to_bytes(), expected);
}

#[test]
fn below_threshold_subset_gives_wrong_secret_without_crash() {
    // two shares of a degree-2 sharing combine cleanly but to the wrong
    // secret
    let base = gt_gen();
    let xs = [1u64, 2];
    let shares: Vec<TargetElem> = xs
        .iter()
        .map(|&x| TargetElem::from_bytes(gt_bytes(&base.pow(poly(x).into_repr()))))
        .collect();
    let points: Vec<Scalar> = xs.iter().map(|&x| Scalar::from_u64(x)).collect();
    let coeffs = prepare_combine_simple(&points).unwrap();
    let combined = share_combine_simple(&shares, &coeffs).unwrap();
    let expected = gt_bytes(&base.pow(poly(0).into_repr()));
    assert_ne!(combined.to_bytes(), expected);
}

#[test]
fn mismatched_lengths_fail_with_length_mismatch() {
    let base = gt_gen();
    let shares = vec![
        TargetElem::from_bytes(gt_bytes(&base)),
        TargetElem::from_bytes(gt_bytes(&base)),
    ];
    let coeffs = vec![Scalar::from_u64(1)];
    let r = share_combine_simple(&shares, &coeffs);
    assert!(matches!(r, Err(Error::LengthMismatch)));

    let r = share_combine_simple(&vec![], &coeffs);
    assert!(matches!(r, Err(Error::LengthMismatch)));
}

#[test]
fn undecodable_share_fails_verification() {
    let shares = vec![TargetElem::from_bytes(vec![1, 2, 3])];
    let coeffs = vec![Scalar::from_u64(1)];
    let r = share_combine_simple(&shares, &coeffs);
    assert!(matches!(r, Err(Error::VerificationError)));
}

#[test]
fn empty_combination_is_the_identity() {
    let combined = share_combine_simple(&vec![], &vec![]).unwrap();
    let expected = gt_bytes(&ark_bls12_381::Fq12::one());
    assert_eq!(combined.to_bytes(), expected);
    // the identity encodes as a one in the lowest coordinate, zeroes after
    assert_eq!(expected.len(), 576);
    assert_eq!(expected[0], 1);
    assert!(expected[1..].iter().all(|&b| b == 0));
}

#[test]
fn exponents_act_multiplicatively() {
    // (g^2)^3 == g^6: one share with coefficient 3
    let base = gt_gen();
    let g2 = base.pow([2u64]);
    let shares = vec![TargetElem::from_bytes(gt_bytes(&g2))];
    let coeffs = vec![Scalar::from_u64(3)];
    let combined = share_combine_simple(&shares, &coeffs).unwrap();
    assert_eq!(combined.to_bytes(), gt_bytes(&base.pow([6u64])));
}
