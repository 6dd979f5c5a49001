use ark_ec::{AffineCurve, ProjectiveCurve};
use ark_ff::PrimeField;
use ferveo_core::pvss::{aggregate, Aggregate, DkgSession, G1Elem, G2Elem, Transcript};
use ferveo_core::Error;

fn g1(k: u64) -> ark_bls12_381::G1Affine {
    let g = ark_bls12_381::G1Affine::prime_subgroup_generator();
    g.mul(ark_bls12_381::Fr::from(k).into_repr()).into_affine()
}

fn g2(k: u64) -> ark_bls12_381::G2Affine {
    let g = ark_bls12_381::G2Affine::prime_subgroup_generator();
    g.mul(ark_bls12_381::Fr::from(k).into_repr()).into_affine()
}

fn g1_elem(k: u64) -> G1Elem {
    let mut bytes: Vec<u8> = Vec::new();
    ark_serialize::CanonicalSerialize::serialize(&g1(k), &mut bytes).unwrap();
    G1Elem::from_bytes(bytes)
}

fn g2_elem(k: u64) -> G2Elem {
    let mut bytes: Vec<u8> = Vec::new();
    ark_serialize::CanonicalSerialize::serialize(&g2(k), &mut bytes).unwrap();
    G2Elem::from_bytes(bytes)
}

fn g1_elem_bytes(p: &ark_bls12_381::G1Affine) -> Vec<u8> {
    let mut bytes: Vec<u8> = Vec::new();
    ark_serialize::CanonicalSerialize::serialize(p, &mut bytes).unwrap();
    bytes
}

/// dealer `d` commits to the polynomial with small coefficient seeds and
/// hands one share piece to each of the four participants
fn transcript(d: u64) -> Transcript {
    Transcript {
        coeffs: vec![g1_elem(d + 1), g1_elem(d + 2), g1_elem(d + 3)],
        shares: vec![g2_elem(d + 1), g2_elem(d + 2), g2_elem(d + 3), g2_elem(d + 4)],
    }
}

fn session_with_one_malformed() -> DkgSession {
    let mut transcripts: Vec<Transcript> = (0..5).map(|d| transcript(10 * d)).collect();
    // dealer 2's transcript is malformed: too few coefficients
    transcripts[2].coeffs.pop();
    DkgSession { threshold: 3, num_participants: 4, transcripts }
}

#[test]
fn one_malformed_dealer_is_excluded_not_fatal() {
    // five dealers, one malformed: four are validated and aggregation goes on
    let session = session_with_one_malformed();
    let agg = aggregate(&session).unwrap();
    assert_eq!(agg.coeffs.len(), 3);
    assert_eq!(agg.shares.len(), 4);
    assert!(agg.verify_optimistic());
    assert!(agg.verify_full(&session));
    assert_eq!(agg.verify_aggregation(&session).unwrap(), 4);
}

#[test]
fn aggregate_is_the_elementwise_group_sum() {
    let session = session_with_one_malformed();
    let agg = aggregate(&session).unwrap();
    // valid dealers are 0, 1, 3, 4 with seeds 0, 10, 30, 40: the first
    // coefficient is g1^(1 + 11 + 31 + 41)
    let expected0 = g1(1 + 11 + 31 + 41);
    assert_eq!(agg.coeffs[0].to_bytes(), g1_elem_bytes(&expected0));
    let expected2 = g1(3 + 13 + 33 + 43);
    assert_eq!(agg.coeffs[2].to_bytes(), g1_elem_bytes(&expected2));
    // share material is summed the same way in the second source group
    let expected_share = g2(2 + 12 + 32 + 42);
    let mut share_bytes: Vec<u8> = Vec::new();
    ark_serialize::CanonicalSerialize::serialize(&expected_share, &mut share_bytes).unwrap();
    assert_eq!(agg.shares[1].to_bytes(), share_bytes);
}

#[test]
fn undecodable_share_material_excludes_the_dealer() {
    let mut session = session_with_one_malformed();
    session.transcripts[0].shares[3] = G2Elem::from_bytes(vec![9, 9]);
    let agg = aggregate(&session).unwrap();
    assert_eq!(agg.verify_aggregation(&session).unwrap(), 3);
}

#[test]
fn final_key_is_the_constant_term_commitment() {
    let session = session_with_one_malformed();
    let key = session.final_key().unwrap();
    assert_eq!(key.to_bytes(), g1_elem_bytes(&g1(1 + 11 + 31 + 41)));
}

#[test]
fn tampered_aggregate_fails_verification() {
    let session = session_with_one_malformed();
    let agg = aggregate(&session).unwrap();
    let mut coeffs: Vec<G1Elem> = agg.coeffs.iter().map(|c| c.duplicate()).collect();
    coeffs[1] = g1_elem(999);
    let shares: Vec<G2Elem> = agg.shares.iter().map(|s| s.duplicate()).collect();
    let tampered = Aggregate { coeffs, shares };
    assert!(tampered.verify_optimistic()); // a local check cannot see this
    assert!(!tampered.verify_full(&session));
    assert!(matches!(tampered.verify_aggregation(&session), Err(Error::VerificationError)));
}

#[test]
fn undecodable_dealer_bytes_are_excluded() {
    let mut session = session_with_one_malformed();
    // dealer 4's first coefficient is garbage bytes
    session.transcripts[4].coeffs[0] = G1Elem::from_bytes(vec![7, 7, 7]);
    let agg = aggregate(&session).unwrap();
    assert_eq!(agg.verify_aggregation(&session).unwrap(), 3);
    assert_eq!(agg.coeffs[0].to_bytes(), g1_elem_bytes(&g1(1 + 11 + 31)));
}

#[test]
fn no_valid_dealer_is_fatal() {
    let session = DkgSession { threshold: 3, num_participants: 4, transcripts: vec![] };
    assert!(matches!(aggregate(&session), Err(Error::VerificationError)));
    assert!(matches!(session.final_key(), Err(Error::VerificationError)));

    let mut session = session_with_one_malformed();
    session.transcripts.iter_mut().for_each(|t| {
        t.coeffs.pop();
    });
    assert!(matches!(aggregate(&session), Err(Error::VerificationError)));
}
