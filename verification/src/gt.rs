//! Target-group elements of the pairing, held by their canonical byte
//! encoding, and the combination of decryption shares into the shared
//! secret.
//!
//! Pairing-group arithmetic is done by the external curve library; each
//! operation is reached through one trusted wrapper. What multiplication and
//! exponentiation return cannot be written down in a few lines, so those
//! results are given names (`gt_mul_bytes`, `gt_pow_bytes`): functions of
//! the canonical encodings alone.

use vstd::prelude::*;

use crate::scalar::Scalar;
use crate::Error;

verus! {

/// Whether a byte string is the canonical encoding of a target-group
/// element, that is, whether the external library decodes it.
pub uninterp spec fn gt_wf(b: Seq<u8>) -> bool;

/// The canonical encoding of the product of the two elements encoded by the
/// arguments.
pub uninterp spec fn gt_mul_bytes(a: Seq<u8>, b: Seq<u8>) -> Seq<u8>;

/// The canonical encoding of the element encoded by `b`, raised to the
/// `e`-th power.
pub uninterp spec fn gt_pow_bytes(b: Seq<u8>, e: int) -> Seq<u8>;

/// The canonical encoding of the multiplicative identity of the target
/// group: a one in the lowest coordinate, zeroes everywhere else.
pub open spec fn gt_identity_bytes() -> Seq<u8> {
    Seq::new(576, |i: int| if i == 0 { 1u8 } else { 0u8 })
}

/// One target-group element, by its canonical byte encoding.
#[derive(Debug)]
pub struct TargetElem {
    bytes: Vec<u8>,
}

impl TargetElem {
    /// The byte encoding this element carries.
    pub closed spec fn repr(&self) -> Seq<u8> {
        self.bytes@
    }

    /// Wraps a byte encoding received from outside, unexamined; whether it
    /// is canonical is checked where the element is used.
    pub fn from_bytes(bytes: Vec<u8>) -> (r: TargetElem)
        ensures
            r.repr() == bytes@,
    {
        TargetElem { bytes }
    }

    /// A copy of the byte encoding.
    pub fn to_bytes(&self) -> (r: Vec<u8>)
        ensures
            r@ == self.repr(),
    {
        let mut out: Vec<u8> = Vec::new();
        let mut i: usize = 0;
        while i < self.bytes.len()
            invariant
                0 <= i <= self.bytes@.len(),
                out@ == self.bytes@.subrange(0, i as int),
            decreases self.bytes@.len() - i,
        {
            out.push(self.bytes[i]);
            proof {
                assert(self.bytes@.subrange(0, i as int).push(self.bytes@[i as int])
                    =~= self.bytes@.subrange(0, i + 1));
            }
            i += 1;
        }
        proof {
            assert(self.bytes@.subrange(0, self.bytes@.len() as int) =~= self.bytes@);
        }
        out
    }
}

/// Relies on `ark_bls12_381::Fq12`'s `CanonicalDeserialize`: it accepts
/// exactly the encodings it can decode, a fixed function of the bytes.
#[verifier::external_body]
fn gt_check(e: &TargetElem) -> (r: bool)
    ensures
        r == gt_wf(e.repr()),
{
    <ark_bls12_381::Fq12 as ark_serialize::CanonicalDeserialize>::deserialize(&e.bytes[..]).is_ok()
}

/// Relies on `ark_bls12_381::Fq12`'s `One` and `CanonicalSerialize`: the
/// identity encodes as a one in the lowest coordinate followed by zeroes
/// (each coordinate is written as 48 little-endian bytes), and what the
/// encoder emits decodes again.
#[verifier::external_body]
fn gt_one() -> (r: TargetElem)
    ensures
        r.repr() == gt_identity_bytes(),
        gt_wf(r.repr()),
{
    let one = <ark_bls12_381::Fq12 as ark_ff::One>::one();
    let mut bytes: Vec<u8> = Vec::new();
    ark_serialize::CanonicalSerialize::serialize(&one, &mut bytes).unwrap();
    TargetElem { bytes }
}

/// Relies on `ark_ff::Field::pow` on `ark_bls12_381::Fq12` with the
/// canonical codec: on decodable encodings the result depends on the
/// encoding and the exponent alone, and decodes again.
#[verifier::external_body]
fn gt_pow(base: &TargetElem, e: &Scalar) -> (r: TargetElem)
    requires
        gt_wf(base.repr()),
        e.wf(),
    ensures
        r.repr() == gt_pow_bytes(base.repr(), e.val()),
        gt_wf(r.repr()),
{
    let b = <ark_bls12_381::Fq12 as ark_serialize::CanonicalDeserialize>::deserialize(
        &base.bytes[..],
    )
    .unwrap();
    let p = ark_ff::Field::pow(&b, e.limbs());
    let mut bytes: Vec<u8> = Vec::new();
    ark_serialize::CanonicalSerialize::serialize(&p, &mut bytes).unwrap();
    TargetElem { bytes }
}

/// Relies on `ark_bls12_381::Fq12` multiplication with the canonical
/// codec: on decodable encodings the result depends on the two encodings
/// alone, and decodes again.
#[verifier::external_body]
fn gt_mul(a: &TargetElem, b: &TargetElem) -> (r: TargetElem)
    requires
        gt_wf(a.repr()),
        gt_wf(b.repr()),
    ensures
        r.repr() == gt_mul_bytes(a.repr(), b.repr()),
        gt_wf(r.repr()),
{
    let av = <ark_bls12_381::Fq12 as ark_serialize::CanonicalDeserialize>::deserialize(
        &a.bytes[..],
    )
    .unwrap();
    let bv = <ark_bls12_381::Fq12 as ark_serialize::CanonicalDeserialize>::deserialize(
        &b.bytes[..],
    )
    .unwrap();
    let m = av * bv;
    let mut bytes: Vec<u8> = Vec::new();
    ark_serialize::CanonicalSerialize::serialize(&m, &mut bytes).unwrap();
    TargetElem { bytes }
}

/// The byte encodings of a sequence of target-group elements.
pub open spec fn elem_reprs(s: Seq<TargetElem>) -> Seq<Seq<u8>> {
    s.map_values(|e: TargetElem| e.repr())
}

/// The encoding of the product over all `i` of `shares[i] ^ exps[i]`,
/// folded left to right from the identity.
pub open spec fn combined_bytes(shares: Seq<Seq<u8>>, exps: Seq<int>) -> Seq<u8>
    decreases shares.len(),
{
    if shares.len() == 0 {
        gt_identity_bytes()
    } else {
        gt_mul_bytes(
            combined_bytes(shares.drop_last(), exps.drop_last()),
            gt_pow_bytes(shares.last(), exps.last()),
        )
    }
}

/// Combines decryption shares into the shared secret: the product over all
/// `i` of `shares[i]` raised to `lagrange_coeffs[i]` in the target group.
///
/// Fails with `Error::LengthMismatch` exactly when the two sequences differ
/// in length — shares and coefficients must correspond positionally — and
/// with `Error::VerificationError` when a share is not a canonical
/// target-group encoding.
pub fn share_combine_simple(shares: &Vec<TargetElem>, lagrange_coeffs: &Vec<Scalar>) -> (r: Result<
    TargetElem,
    Error,
>)
    requires
        forall|i: int| 0 <= i < lagrange_coeffs@.len() ==> (#[trigger] lagrange_coeffs@[i]).wf(),
    ensures
        shares@.len() != lagrange_coeffs@.len() ==> r == Err::<TargetElem, Error>(
            Error::LengthMismatch,
        ),
        r is Ok <==> (shares@.len() == lagrange_coeffs@.len() && (forall|i: int|
            0 <= i < shares@.len() ==> gt_wf((#[trigger] shares@[i]).repr()))),
        r is Ok ==> r->Ok_0.repr() == combined_bytes(
            elem_reprs(shares@),
            crate::lagrange::scalar_vals(lagrange_coeffs@),
        ),

{
    if shares.len() != lagrange_coeffs.len() {
        return Err(Error::LengthMismatch);
    }
    let n = shares.len();

    let mut i: usize = 0;
    while i < n
        invariant
            n == shares@.len(),
            n == lagrange_coeffs@.len(),
            0 <= i <= n,
            forall|k: int| 0 <= k < i ==> gt_wf((#[trigger] shares@[k]).repr()),
        decreases n - i,
    {
        if !gt_check(&shares[i]) {
            return Err(Error::VerificationError);
        }
        i += 1;
    }

    let ghost reprs = elem_reprs(shares@);
    let ghost exps = crate::lagrange::scalar_vals(lagrange_coeffs@);

    let mut acc = gt_one();
    proof {
        assert(combined_bytes(reprs.subrange(0, 0), exps.subrange(0, 0)) == gt_identity_bytes());
    }
    let mut i: usize = 0;
    while i < n
        invariant
            n == shares@.len(),
            n == lagrange_coeffs@.len(),
            reprs == elem_reprs(shares@),
            exps == crate::lagrange::scalar_vals(lagrange_coeffs@),
            forall|k: int| 0 <= k < n ==> gt_wf((#[trigger] shares@[k]).repr()),
            forall|k: int| 0 <= k < n ==> (#[trigger] lagrange_coeffs@[k]).wf(),
            0 <= i <= n,
            gt_wf(acc.repr()),
            acc.repr() == combined_bytes(reprs.subrange(0, i as int), exps.subrange(0, i as int)),
        decreases n - i,
    {
        let ss = gt_pow(&shares[i], &lagrange_coeffs[i]);
        acc = gt_mul(&acc, &ss);
        proof {
            let pre = reprs.subrange(0, i as int);
            let pree = exps.subrange(0, i as int);
            let post = reprs.subrange(0, i + 1);
            let poste = exps.subrange(0, i + 1);
            assert(post.drop_last() =~= pre);
            assert(poste.drop_last() =~= pree);
            assert(post.last() == shares@[i as int].repr());
            assert(poste.last() == lagrange_coeffs@[i as int].val());
        }
        i += 1;
    }
    proof {
        assert(reprs.subrange(0, n as int) =~= reprs);
        assert(exps.subrange(0, n as int) =~= exps);
    }
    Ok(acc)
}

} // verus!
