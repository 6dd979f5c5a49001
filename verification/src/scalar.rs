//! Scalar-field elements of the pairing curve, held as four 64-bit limbs in
//! canonical (fully reduced, little-endian) form.
//!
//! The arithmetic itself is done by the external curve library; each
//! operation is reached through one trusted wrapper whose contract states the
//! result as integer arithmetic modulo the field order.

use vstd::arithmetic::div_mod::{
    lemma_div_multiples_vanish, lemma_mod_multiples_vanish, lemma_small_mod,
};
use vstd::prelude::*;

verus! {

/// The order of the scalar field (a prime of 255 bits).
pub open spec fn fr_order() -> int {
    0x73eda753299d7d483339d80809a1d80553bda402fffe5bfeffffffff00000001int
}

/// One scalar-field element, as the canonical little-endian limbs of its
/// integer representative in `[0, fr_order())`.
#[derive(Clone, Copy, Debug, PartialEq, Eq, Structural)]
pub struct Scalar {
    l0: u64,
    l1: u64,
    l2: u64,
    l3: u64,
}

impl Scalar {
    /// The integer this element represents.
    pub closed spec fn val(&self) -> int {
        self.l0 + 0x10000000000000000int * self.l1 + 0x100000000000000000000000000000000int * self.l2
            + 0x1000000000000000000000000000000000000000000000000int * self.l3
    }

    /// Canonical form: the representative is fully reduced.
    pub open spec fn wf(&self) -> bool {
        0 <= self.val() < fr_order()
    }

    /// The scalar representing `v`.
    pub fn from_u64(v: u64) -> (r: Scalar)
        ensures
            r.val() == v,
            r.wf(),
    {
        Scalar { l0: v, l1: 0, l2: 0, l3: 0 }
    }

    /// The four canonical little-endian limbs.
    pub fn limbs(&self) -> (r: [u64; 4])
        ensures
            r@.len() == 4,
            self.val() == r@[0] + 0x10000000000000000int * r@[1]
                + 0x100000000000000000000000000000000int * r@[2]
                + 0x1000000000000000000000000000000000000000000000000int * r@[3],
    {
        let r = [self.l0, self.l1, self.l2, self.l3];
        proof {
            assert(r@[0] == self.l0 && r@[1] == self.l1 && r@[2] == self.l2 && r@[3] == self.l3);
        }
        r
    }

    /// Whether two elements represent the same field value.
    pub fn scalar_eq(&self, other: &Scalar) -> (r: bool)
        ensures
            r <==> self.val() == other.val(),
    {
        proof {
            if self.val() == other.val() {
                lemma_val_unique(*self, *other);
            }
        }
        self.l0 == other.l0 && self.l1 == other.l1 && self.l2 == other.l2 && self.l3 == other.l3
    }

    /// Whether this element is the additive identity.
    pub fn is_zero(&self) -> (r: bool)
        ensures
            r <==> self.val() == 0,
    {
        self.l0 == 0 && self.l1 == 0 && self.l2 == 0 && self.l3 == 0
    }
}

/// A limb splits off uniquely: if `l + B * h == m + B * g` with both low
/// parts in `[0, B)`, the low and high parts agree.
proof fn lemma_limb_unique(l: int, h: int, m: int, g: int)
    requires
        0 <= l < 0x10000000000000000int,
        0 <= m < 0x10000000000000000int,
        l + 0x10000000000000000int * h == m + 0x10000000000000000int * g,
    ensures
        l == m,
        h == g,
{
    let b = 0x10000000000000000int;
    let x = l + b * h;
    lemma_mod_multiples_vanish(h, l, b);
    lemma_mod_multiples_vanish(g, m, b);
    lemma_small_mod(l as nat, b as nat);
    lemma_small_mod(m as nat, b as nat);
    assert(l == x % b && m == x % b);
    lemma_div_multiples_vanish(h, b);
    lemma_div_multiples_vanish(g, b);
    assert((b * h) / b == h && (b * g) / b == g);
}

/// Canonical limbs are unique for a given field value.
proof fn lemma_val_unique(a: Scalar, b: Scalar)
    requires
        a.val() == b.val(),
    ensures
        a.l0 == b.l0 && a.l1 == b.l1 && a.l2 == b.l2 && a.l3 == b.l3,
{
    let p = 0x10000000000000000int;
    let ha = a.l1 + 0x10000000000000000int * (a.l2 + 0x10000000000000000int * a.l3);
    let hb = b.l1 + 0x10000000000000000int * (b.l2 + 0x10000000000000000int * b.l3);
    assert(a.val() == a.l0 + 0x10000000000000000int * ha);
    assert(b.val() == b.l0 + 0x10000000000000000int * hb);
    lemma_limb_unique(a.l0 as int, ha, b.l0 as int, hb);
    lemma_limb_unique(a.l1 as int, a.l2 + p * a.l3, b.l1 as int, b.l2 + p * b.l3);
    lemma_limb_unique(a.l2 as int, a.l3 as int, b.l2 as int, b.l3 as int);
}

/// Relies on `ark_bls12_381::Fr` subtraction, with
/// `PrimeField::from_repr` / `into_repr` converting between canonical limbs
/// and field elements: the result is the difference modulo the field order,
/// again in canonical form.
#[verifier::external_body]
pub(crate) fn fr_sub(a: &Scalar, b: &Scalar) -> (r: Scalar)
    requires
        a.wf(),
        b.wf(),
    ensures
        r.wf(),
        r.val() == (a.val() - b.val()) % fr_order(),
{
    let av = <ark_bls12_381::Fr as ark_ff::PrimeField>::from_repr(ark_ff::BigInteger256::new(
        [a.l0, a.l1, a.l2, a.l3],
    ))
    .unwrap();
    let bv = <ark_bls12_381::Fr as ark_ff::PrimeField>::from_repr(ark_ff::BigInteger256::new(
        [b.l0, b.l1, b.l2, b.l3],
    ))
    .unwrap();
    let l = ark_ff::PrimeField::into_repr(&(av - bv)).0;
    Scalar { l0: l[0], l1: l[1], l2: l[2], l3: l[3] }
}

/// Relies on `ark_bls12_381::Fr` multiplication, with
/// `PrimeField::from_repr` / `into_repr` converting between canonical limbs
/// and field elements: the result is the product modulo the field order,
/// again in canonical form.
#[verifier::external_body]
pub(crate) fn fr_mul(a: &Scalar, b: &Scalar) -> (r: Scalar)
    requires
        a.wf(),
        b.wf(),
    ensures
        r.wf(),
        r.val() == (a.val() * b.val()) % fr_order(),
{
    let av = <ark_bls12_381::Fr as ark_ff::PrimeField>::from_repr(ark_ff::BigInteger256::new(
        [a.l0, a.l1, a.l2, a.l3],
    ))
    .unwrap();
    let bv = <ark_bls12_381::Fr as ark_ff::PrimeField>::from_repr(ark_ff::BigInteger256::new(
        [b.l0, b.l1, b.l2, b.l3],
    ))
    .unwrap();
    let l = ark_ff::PrimeField::into_repr(&(av * bv)).0;
    Scalar { l0: l[0], l1: l[1], l2: l[2], l3: l[3] }
}

/// Relies on `ark_bls12_381::Fr` division (multiplication by the inverse),
/// which panics only on a zero divisor, with `PrimeField::from_repr` /
/// `into_repr` converting between canonical limbs and field elements: the
/// result is the field element whose product with `b` gives back `a`.
#[verifier::external_body]
pub(crate) fn fr_div(a: &Scalar, b: &Scalar) -> (r: Scalar)
    requires
        a.wf(),
        b.wf(),
        b.val() != 0,
    ensures
        r.wf(),
        (r.val() * b.val()) % fr_order() == a.val(),
{
    let av = <ark_bls12_381::Fr as ark_ff::PrimeField>::from_repr(ark_ff::BigInteger256::new(
        [a.l0, a.l1, a.l2, a.l3],
    ))
    .unwrap();
    let bv = <ark_bls12_381::Fr as ark_ff::PrimeField>::from_repr(ark_ff::BigInteger256::new(
        [b.l0, b.l1, b.l2, b.l3],
    ))
    .unwrap();
    let l = ark_ff::PrimeField::into_repr(&(av / bv)).0;
    Scalar { l0: l[0], l1: l[1], l2: l[2], l3: l[3] }
}

} // verus!
