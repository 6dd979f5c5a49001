//! The whole protocol core in one flow: dealers deal, the session
//! aggregates and verifies, validators respond with pairing-based
//! decryption shares, and a threshold subset reconstructs the joint secret.

use ark_ec::{AffineCurve, PairingEngine, ProjectiveCurve};
use ark_ff::{Field, PrimeField};
use ferveo_core::gt::{share_combine_simple, TargetElem};
use ferveo_core::lagrange::prepare_combine_simple;
use ferveo_core::pvss::{aggregate, DkgSession, G1Elem, G2Elem, Transcript};
use ferveo_core::scalar::Scalar;

type E = ark_bls12_381::Bls12_381;

fn g1_elem(k: u64) -> G1Elem {
    let g = ark_bls12_381::G1Affine::prime_subgroup_generator();
    let p = g.mul(ark_bls12_381::Fr::from(k).into_repr()).into_affine();
    let mut bytes: Vec<u8> = Vec::new();
    ark_serialize::CanonicalSerialize::serialize(&p, &mut bytes).unwrap();
    G1Elem::from_bytes(bytes)
}

fn g2_elem(k: u64) -> G2Elem {
    let g = ark_bls12_381::G2Affine::prime_subgroup_generator();
    let p = g.mul(ark_bls12_381::Fr::from(k).into_repr()).into_affine();
    let mut bytes: Vec<u8> = Vec::new();
    ark_serialize::CanonicalSerialize::serialize(&p, &mut bytes).unwrap();
    G2Elem::from_bytes(bytes)
}

fn gt_bytes(e: &ark_bls12_381::Fq12) -> Vec<u8> {
    let mut bytes: Vec<u8> = Vec::new();
    ark_serialize::CanonicalSerialize::serialize(e, &mut bytes).unwrap();
    bytes
}

#[test]
fn full_dkg_flow_reconstructs_the_joint_secret() {
    // Four dealers each deal a degree-2 polynomial; dealer `d` uses
    // coefficients (d, d+1, d+2), so the joint polynomial over the four
    // dealers 1..=4 is p(x) = 10 + 14 x + 18 x^2 and the joint secret is
    // p(0) = 10.
    let transcripts: Vec<Transcript> = (1..=4u64)
        .map(|d| Transcript {
            coeffs: vec![g1_elem(d), g1_elem(d + 1), g1_elem(d + 2)],
            shares: (1..=4u64).map(|x| g2_elem(d + (d + 1) * x + (d + 2) * x * x)).collect(),
        })
        .collect();
    let session = DkgSession { threshold: 3, num_participants: 4, transcripts };

    let agg = aggregate(&session).unwrap();
    assert_eq!(agg.coeffs.len(), 3);
    assert_eq!(agg.shares.len(), 4);
    assert!(agg.verify_optimistic());
    assert!(agg.verify_full(&session));
    assert_eq!(agg.verify_aggregation(&session).unwrap(), 4);

    // The aggregate public key is the joint constant-term commitment.
    let key = session.final_key().unwrap();
    assert_eq!(key.to_bytes(), g1_elem(10).to_bytes());

    // Three validators (at evaluation points 1, 2, 3) each produce a
    // pairing-based decryption share g_T ^ p(x_i) of the joint polynomial.
    let p = |x: u64| 10 + 14 * x + 18 * x * x;
    let g1 = ark_bls12_381::G1Affine::prime_subgroup_generator();
    let g2 = ark_bls12_381::G2Affine::prime_subgroup_generator();
    let base = E::pairing(g1, g2);
    let xs = [1u64, 2, 3];
    let shares: Vec<TargetElem> = xs
        .iter()
        .map(|&x| TargetElem::from_bytes(gt_bytes(&base.pow([p(x)]))))
        .collect();

    // Lagrange coefficients over the responding set, then combination.
    let points: Vec<Scalar> = xs.iter().map(|&x| Scalar::from_u64(x)).collect();
    let coeffs = prepare_combine_simple(&points).unwrap();
    let secret = share_combine_simple(&shares, &coeffs).unwrap();
    assert_eq!(secret.to_bytes(), gt_bytes(&base.pow([10u64])));
}
