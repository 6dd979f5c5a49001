//! Aggregation and verification of per-dealer verifiable-secret-sharing
//! transcripts.
//!
//! Each dealer contributes a transcript: polynomial-commitment coefficients
//! in the first source group and one piece of share material per participant
//! in the second source group. Transcripts that fail individual validation
//! are excluded but do not abort aggregation; the aggregate of the valid
//! ones is the elementwise group sum. Group arithmetic is done by the
//! external curve library behind trusted wrappers; the sums it returns are
//! named (`g1_sum_bytes`, `g2_sum_bytes`): functions of the canonical
//! encodings alone.

use vstd::prelude::*;

use crate::Error;

verus! {

/// Whether a byte string is an encoding of a first-source-group element
/// that the external library decodes (on the curve and in the subgroup).
pub uninterp spec fn g1_wf(b: Seq<u8>) -> bool;

/// The canonical encoding of the group sum of the two first-source-group
/// elements encoded by the arguments.
pub uninterp spec fn g1_sum_bytes(a: Seq<u8>, b: Seq<u8>) -> Seq<u8>;

/// Whether a byte string is an encoding of a second-source-group element
/// that the external library decodes.
pub uninterp spec fn g2_wf(b: Seq<u8>) -> bool;

/// The canonical encoding of the group sum of the two second-source-group
/// elements encoded by the arguments.
pub uninterp spec fn g2_sum_bytes(a: Seq<u8>, b: Seq<u8>) -> Seq<u8>;

/// A first-source-group element, by its byte encoding.
#[derive(Debug)]
pub struct G1Elem {
    bytes: Vec<u8>,
}

/// A second-source-group element, by its byte encoding.
#[derive(Debug)]
pub struct G2Elem {
    bytes: Vec<u8>,
}

impl G1Elem {
    /// The byte encoding this element carries.
    pub closed spec fn repr(&self) -> Seq<u8> {
        self.bytes@
    }

    /// Wraps a byte encoding received from outside, unexamined; validity is
    /// checked where the element is used.
    pub fn from_bytes(bytes: Vec<u8>) -> (r: G1Elem)
        ensures
            r.repr() == bytes@,
    {
        G1Elem { bytes }
    }

    /// A copy of the byte encoding.
    pub fn to_bytes(&self) -> (r: Vec<u8>)
        ensures
            r@ == self.repr(),
    {
        copy_bytes(&self.bytes)
    }

    /// A copy of the element.
    pub fn duplicate(&self) -> (r: G1Elem)
        ensures
            r.repr() == self.repr(),
    {
        G1Elem { bytes: copy_bytes(&self.bytes) }
    }

    /// Whether two elements carry the same encoding.
    pub fn same_repr(&self, other: &G1Elem) -> (r: bool)
        ensures
            r <==> self.repr() == other.repr(),
    {
        bytes_eq(&self.bytes, &other.bytes)
    }
}

impl G2Elem {
    /// The byte encoding this element carries.
    pub closed spec fn repr(&self) -> Seq<u8> {
        self.bytes@
    }

    /// Wraps a byte encoding received from outside, unexamined; validity is
    /// checked where the element is used.
    pub fn from_bytes(bytes: Vec<u8>) -> (r: G2Elem)
        ensures
            r.repr() == bytes@,
    {
        G2Elem { bytes }
    }

    /// A copy of the byte encoding.
    pub fn to_bytes(&self) -> (r: Vec<u8>)
        ensures
            r@ == self.repr(),
    {
        copy_bytes(&self.bytes)
    }

    /// A copy of the element.
    pub fn duplicate(&self) -> (r: G2Elem)
        ensures
            r.repr() == self.repr(),
    {
        G2Elem { bytes: copy_bytes(&self.bytes) }
    }

    /// Whether two elements carry the same encoding.
    pub fn same_repr(&self, other: &G2Elem) -> (r: bool)
        ensures
            r <==> self.repr() == other.repr(),
    {
        bytes_eq(&self.bytes, &other.bytes)
    }
}

fn copy_bytes(v: &Vec<u8>) -> (r: Vec<u8>)
    ensures
        r@ == v@,
{
    let mut out: Vec<u8> = Vec::new();
    let mut i: usize = 0;
    while i < v.len()
        invariant
            0 <= i <= v@.len(),
            out@ == v@.subrange(0, i as int),
        decreases v@.len() - i,
    {
        out.push(v[i]);
        proof {
            assert(v@.subrange(0, i as int).push(v@[i as int]) =~= v@.subrange(0, i + 1));
        }
        i += 1;
    }
    proof {
        assert(v@.subrange(0, v@.len() as int) =~= v@);
    }
    out
}

fn bytes_eq(a: &Vec<u8>, b: &Vec<u8>) -> (r: bool)
    ensures
        r <==> a@ == b@,
{
    if a.len() != b.len() {
        return false;
    }
    let mut i: usize = 0;
    while i < a.len()
        invariant
            a@.len() == b@.len(),
            0 <= i <= a@.len(),
            forall|k: int| 0 <= k < i ==> a@[k] == b@[k],
        decreases a@.len() - i,
    {
        if a[i] != b[i] {
            return false;
        }
        i += 1;
    }
    proof {
        assert(a@ =~= b@);
    }
    true
}

/// Relies on `ark_bls12_381::G1Affine`'s `CanonicalDeserialize`, which
/// accepts exactly encodings of points on the curve and in the prime
/// subgroup, a fixed function of the bytes.
#[verifier::external_body]
fn g1_check(e: &G1Elem) -> (r: bool)
    ensures
        r == g1_wf(e.repr()),
{
    <ark_bls12_381::G1Affine as ark_serialize::CanonicalDeserialize>::deserialize(&e.bytes[..])
        .is_ok()
}

/// Relies on `ark_bls12_381::G1Projective` addition with the affine
/// conversions and the canonical codec: on decodable encodings the result
/// depends on the two encodings alone, and decodes again.
#[verifier::external_body]
fn g1_add(a: &G1Elem, b: &G1Elem) -> (r: G1Elem)
    requires
        g1_wf(a.repr()),
        g1_wf(b.repr()),
    ensures
        r.repr() == g1_sum_bytes(a.repr(), b.repr()),
        g1_wf(r.repr()),
{
    let av = <ark_bls12_381::G1Affine as ark_serialize::CanonicalDeserialize>::deserialize(
        &a.bytes[..],
    )
    .unwrap();
    let bv = <ark_bls12_381::G1Affine as ark_serialize::CanonicalDeserialize>::deserialize(
        &b.bytes[..],
    )
    .unwrap();
    let s = ark_ec::AffineCurve::into_projective(&av) + ark_ec::AffineCurve::into_projective(&bv);
    let sa = ark_ec::ProjectiveCurve::into_affine(&s);
    let mut bytes: Vec<u8> = Vec::new();
    ark_serialize::CanonicalSerialize::serialize(&sa, &mut bytes).unwrap();
    G1Elem { bytes }
}

/// Relies on `ark_bls12_381::G2Affine`'s `CanonicalDeserialize`, which
/// accepts exactly encodings of points on the curve and in the prime
/// subgroup, a fixed function of the bytes.
#[verifier::external_body]
fn g2_check(e: &G2Elem) -> (r: bool)
    ensures
        r == g2_wf(e.repr()),
{
    <ark_bls12_381::G2Affine as ark_serialize::CanonicalDeserialize>::deserialize(&e.bytes[..])
        .is_ok()
}

/// Relies on `ark_bls12_381::G2Projective` addition with the affine
/// conversions and the canonical codec: on decodable encodings the result
/// depends on the two encodings alone, and decodes again.
#[verifier::external_body]
fn g2_add(a: &G2Elem, b: &G2Elem) -> (r: G2Elem)
    requires
        g2_wf(a.repr()),
        g2_wf(b.repr()),
    ensures
        r.repr() == g2_sum_bytes(a.repr(), b.repr()),
        g2_wf(r.repr()),
{
    let av = <ark_bls12_381::G2Affine as ark_serialize::CanonicalDeserialize>::deserialize(
        &a.bytes[..],
    )
    .unwrap();
    let bv = <ark_bls12_381::G2Affine as ark_serialize::CanonicalDeserialize>::deserialize(
        &b.bytes[..],
    )
    .unwrap();
    let s = ark_ec::AffineCurve::into_projective(&av) + ark_ec::AffineCurve::into_projective(&bv);
    let sa = ark_ec::ProjectiveCurve::into_affine(&s);
    let mut bytes: Vec<u8> = Vec::new();
    ark_serialize::CanonicalSerialize::serialize(&sa, &mut bytes).unwrap();
    G2Elem { bytes }
}

/// One dealer's verifiable-secret-sharing transcript: polynomial-commitment
/// coefficients and one piece of share material per participant.
pub struct Transcript {
    pub coeffs: Vec<G1Elem>,
    pub shares: Vec<G2Elem>,
}

/// One DKG epoch's recorded state: the reconstruction threshold (the number
/// of polynomial coefficients, degree plus one), the number of
/// participants, and the per-dealer transcripts recorded so far.
pub struct DkgSession {
    pub threshold: u32,
    pub num_participants: usize,
    pub transcripts: Vec<Transcript>,
}

/// The aggregate of the valid dealers' transcripts.
pub struct Aggregate {
    pub coeffs: Vec<G1Elem>,
    pub shares: Vec<G2Elem>,
}

/// The byte encodings of a sequence of first-source-group elements.
pub open spec fn coeff_reprs(cs: Seq<G1Elem>) -> Seq<Seq<u8>> {
    cs.map_values(|e: G1Elem| e.repr())
}

/// The byte encodings of a sequence of second-source-group elements.
pub open spec fn share_reprs(ss: Seq<G2Elem>) -> Seq<Seq<u8>> {
    ss.map_values(|e: G2Elem| e.repr())
}

/// Individual validity of one dealer's transcript: the right number of
/// coefficients and of share pieces, every element decodable.
pub open spec fn transcript_valid(t: Transcript, threshold: u32, participants: int) -> bool {
    &&& t.coeffs@.len() == threshold
    &&& t.shares@.len() == participants
    &&& forall|i: int| 0 <= i < t.coeffs@.len() ==> g1_wf((#[trigger] t.coeffs@[i]).repr())
    &&& forall|i: int| 0 <= i < t.shares@.len() ==> g2_wf((#[trigger] t.shares@[i]).repr())
}

/// How many of the transcripts are individually valid.
pub open spec fn valid_count(ts: Seq<Transcript>, threshold: u32, participants: int) -> int
    decreases ts.len(),
{
    if ts.len() == 0 {
        0
    } else {
        (if transcript_valid(ts[0], threshold, participants) {
            1int
        } else {
            0int
        }) + valid_count(ts.drop_first(), threshold, participants)
    }
}

/// Position of the first valid transcript, or the length if there is none.
pub open spec fn first_valid(ts: Seq<Transcript>, threshold: u32, participants: int) -> int
    decreases ts.len(),
{
    if ts.len() == 0 {
        0
    } else if transcript_valid(ts[0], threshold, participants) {
        0
    } else {
        1 + first_valid(ts.drop_first(), threshold, participants)
    }
}

/// The coefficient encodings after folding the valid transcripts of `ts`
/// into the running elementwise sum `acc`.
pub open spec fn fold_coeffs(
    acc: Seq<Seq<u8>>,
    ts: Seq<Transcript>,
    threshold: u32,
    participants: int,
) -> Seq<Seq<u8>>
    decreases ts.len(),
{
    if ts.len() == 0 {
        acc
    } else {
        let acc2 = if transcript_valid(ts[0], threshold, participants) {
            Seq::new(acc.len(), |i: int| g1_sum_bytes(acc[i], ts[0].coeffs@[i].repr()))
        } else {
            acc
        };
        fold_coeffs(acc2, ts.drop_first(), threshold, participants)
    }
}

/// The share encodings after folding the valid transcripts of `ts` into the
/// running elementwise sum `acc`.
pub open spec fn fold_shares(
    acc: Seq<Seq<u8>>,
    ts: Seq<Transcript>,
    threshold: u32,
    participants: int,
) -> Seq<Seq<u8>>
    decreases ts.len(),
{
    if ts.len() == 0 {
        acc
    } else {
        let acc2 = if transcript_valid(ts[0], threshold, participants) {
            Seq::new(acc.len(), |i: int| g2_sum_bytes(acc[i], ts[0].shares@[i].repr()))
        } else {
            acc
        };
        fold_shares(acc2, ts.drop_first(), threshold, participants)
    }
}

/// The coefficient encodings of the aggregate of a session's valid
/// transcripts: the first valid transcript's coefficients, with every later
/// valid transcript folded in elementwise.
pub open spec fn agg_coeff_reprs(ts: Seq<Transcript>, threshold: u32, participants: int) -> Seq<
    Seq<u8>,
> {
    let f = first_valid(ts, threshold, participants);
    fold_coeffs(coeff_reprs(ts[f].coeffs@), ts.skip(f + 1), threshold, participants)
}

/// The share encodings of the aggregate of a session's valid transcripts.
pub open spec fn agg_share_reprs(ts: Seq<Transcript>, threshold: u32, participants: int) -> Seq<
    Seq<u8>,
> {
    let f = first_valid(ts, threshold, participants);
    fold_shares(share_reprs(ts[f].shares@), ts.skip(f + 1), threshold, participants)
}

/// Everything a correct aggregate for the session's transcripts satisfies.
pub open spec fn aggregate_matches(
    a: Aggregate,
    ts: Seq<Transcript>,
    threshold: u32,
    participants: int,
) -> bool {
    &&& valid_count(ts, threshold, participants) > 0
    &&& coeff_reprs(a.coeffs@) == agg_coeff_reprs(ts, threshold, participants)
    &&& share_reprs(a.shares@) == agg_share_reprs(ts, threshold, participants)
}

proof fn lemma_valid_count_bounds(ts: Seq<Transcript>, threshold: u32, participants: int)
    ensures
        0 <= valid_count(ts, threshold, participants) <= ts.len(),
    decreases ts.len(),
{
    if ts.len() > 0 {
        lemma_valid_count_bounds(ts.drop_first(), threshold, participants);
    }
}

proof fn lemma_count_split(ts: Seq<Transcript>, threshold: u32, participants: int, i: int)
    requires
        0 <= i < ts.len(),
    ensures
        valid_count(ts.skip(i), threshold, participants) == (
        if transcript_valid(ts[i], threshold, participants) {
            1int
        } else {
            0int
        }) + valid_count(ts.skip(i + 1), threshold, participants),
{
    let s = ts.skip(i);
    assert(s.len() > 0);
    assert(s[0] == ts[i]);
    assert(s.drop_first() =~= ts.skip(i + 1));
}

proof fn lemma_first_valid_at(ts: Seq<Transcript>, threshold: u32, participants: int, i: int)
    requires
        0 <= i <= ts.len(),
        forall|k: int| 0 <= k < i ==> !transcript_valid(ts[k], threshold, participants),
        i < ts.len() ==> transcript_valid(ts[i], threshold, participants),
    ensures
        first_valid(ts, threshold, participants) == i,
    decreases i,
{
    if i == 0 {
        if ts.len() > 0 {
        }
    } else {
        assert(!transcript_valid(ts[0], threshold, participants));
        lemma_first_valid_at(ts.drop_first(), threshold, participants, i - 1);
    }
}

proof fn lemma_no_valid_count_zero(ts: Seq<Transcript>, threshold: u32, participants: int)
    requires
        forall|k: int| 0 <= k < ts.len() ==> !transcript_valid(ts[k], threshold, participants),
    ensures
        valid_count(ts, threshold, participants) == 0,
    decreases ts.len(),
{
    if ts.len() > 0 {
        lemma_no_valid_count_zero(ts.drop_first(), threshold, participants);
    }
}

proof fn lemma_valid_at_count_pos(ts: Seq<Transcript>, threshold: u32, participants: int, i: int)
    requires
        0 <= i < ts.len(),
        transcript_valid(ts[i], threshold, participants),
    ensures
        valid_count(ts, threshold, participants) > 0,
    decreases i,
{
    lemma_valid_count_bounds(ts.drop_first(), threshold, participants);
    if i > 0 {
        lemma_valid_at_count_pos(ts.drop_first(), threshold, participants, i - 1);
    }
}

/// Checks one dealer's transcript individually.
fn is_valid_transcript(t: &Transcript, threshold: u32, num_participants: usize) -> (r: bool)
    ensures
        r == transcript_valid(*t, threshold, num_participants as int),
{
    if t.coeffs.len() != threshold as usize || t.shares.len() != num_participants {
        return false;
    }
    let mut i: usize = 0;
    while i < t.coeffs.len()
        invariant
            0 <= i <= t.coeffs@.len(),
            forall|k: int| 0 <= k < i ==> g1_wf((#[trigger] t.coeffs@[k]).repr()),
        decreases t.coeffs@.len() - i,
    {
        if !g1_check(&t.coeffs[i]) {
            return false;
        }
        i += 1;
    }
    let mut i: usize = 0;
    while i < t.shares.len()
        invariant
            0 <= i <= t.shares@.len(),
            forall|k: int| 0 <= k < i ==> g2_wf((#[trigger] t.shares@[k]).repr()),
        decreases t.shares@.len() - i,
    {
        if !g2_check(&t.shares[i]) {
            return false;
        }
        i += 1;
    }
    true
}

/// Combines the recorded per-dealer transcripts into one aggregate:
/// elementwise group sums of the valid transcripts' coefficients and share
/// material. Transcripts that fail individual validation are excluded, not
/// fatal. Fails with `Error::VerificationError` exactly when no transcript
/// is valid.
pub fn aggregate(session: &DkgSession) -> (r: Result<Aggregate, Error>)
    ensures
        r is Ok <==> valid_count(
            session.transcripts@,
            session.threshold,
            session.num_participants as int,
        ) > 0,
        r is Err ==> r->Err_0 == Error::VerificationError,
        r is Ok ==> aggregate_matches(
            r->Ok_0,
            session.transcripts@,
            session.threshold,
            session.num_participants as int,
        ),
        r is Ok ==> r->Ok_0.coeffs@.len() == session.threshold
            && r->Ok_0.shares@.len() == session.num_participants,
{
    let ts = &session.transcripts;
    let threshold = session.threshold;
    let np = session.num_participants;
    let n = ts.len();
    let ghost tss = session.transcripts@;

    // Find the first individually valid transcript.
    let mut f: usize = 0;
    let mut found = false;
    while f < n && !found
        invariant
            n == tss.len(),
            ts@ == tss,
            0 <= f <= n,
            !found ==> forall|k: int|
                0 <= k < f ==> !transcript_valid(tss[k], threshold, np as int),
            found ==> f < n && transcript_valid(tss[f as int], threshold, np as int)
                && forall|k: int| 0 <= k < f ==> !transcript_valid(tss[k], threshold, np as int),
        decreases n - f + (if found { 0int } else { 1int }),
    {
        if is_valid_transcript(&ts[f], threshold, np) {
            found = true;
        } else {
            f += 1;
        }
    }
    if !found {
        proof {
            lemma_no_valid_count_zero(tss, threshold, np as int);
        }
        return Err(Error::VerificationError);
    }
    proof {
        lemma_valid_at_count_pos(tss, threshold, np as int, f as int);
        lemma_first_valid_at(tss, threshold, np as int, f as int);
    }

    // Start from a copy of it.
    let base = &ts[f];
    let mut acc_c: Vec<G1Elem> = Vec::new();
    let mut i: usize = 0;
    while i < base.coeffs.len()
        invariant
            0 <= i <= base.coeffs@.len(),
            acc_c@.len() == i,
            forall|k: int|
                0 <= k < i ==> (#[trigger] acc_c@[k]).repr() == base.coeffs@[k].repr(),
        decreases base.coeffs@.len() - i,
    {
        acc_c.push(base.coeffs[i].duplicate());
        i += 1;
    }
    let mut acc_s: Vec<G2Elem> = Vec::new();
    let mut i: usize = 0;
    while i < base.shares.len()
        invariant
            0 <= i <= base.shares@.len(),
            acc_s@.len() == i,
            forall|k: int|
                0 <= k < i ==> (#[trigger] acc_s@[k]).repr() == base.shares@[k].repr(),
        decreases base.shares@.len() - i,
    {
        acc_s.push(base.shares[i].duplicate());
        i += 1;
    }
    proof {
        assert(coeff_reprs(acc_c@) =~= coeff_reprs(tss[f as int].coeffs@));
        assert(share_reprs(acc_s@) =~= share_reprs(tss[f as int].shares@));
    }

    // Fold every later valid transcript in, elementwise.
    let ghost goal_c = agg_coeff_reprs(tss, threshold, np as int);
    let ghost goal_s = agg_share_reprs(tss, threshold, np as int);
    let mut j: usize = f + 1;
    while j < n
        invariant
            n == tss.len(),
            ts@ == tss,
            f < n,
            transcript_valid(tss[f as int], threshold, np as int),
            f < j <= n,
            acc_c@.len() == threshold,
            acc_s@.len() == np,
            forall|k: int| 0 <= k < acc_c@.len() ==> g1_wf((#[trigger] acc_c@[k]).repr()),
            forall|k: int| 0 <= k < acc_s@.len() ==> g2_wf((#[trigger] acc_s@[k]).repr()),
            goal_c == fold_coeffs(coeff_reprs(acc_c@), tss.skip(j as int), threshold, np as int),
            goal_s == fold_shares(share_reprs(acc_s@), tss.skip(j as int), threshold, np as int),
        decreases n - j,
    {
        let ghost pre_c = coeff_reprs(acc_c@);
        let ghost pre_s = share_reprs(acc_s@);
        proof {
            assert(tss.skip(j as int).len() > 0);
            assert(tss.skip(j as int)[0] == tss[j as int]);
            assert(tss.skip(j as int).drop_first() =~= tss.skip(j as int + 1));
        }
        if is_valid_transcript(&ts[j], threshold, np) {
            let t = &ts[j];
            let mut new_c: Vec<G1Elem> = Vec::new();
            let mut k: usize = 0;
            while k < acc_c.len()
                invariant
                    acc_c@.len() == threshold,
                    t.coeffs@.len() == threshold,
                    forall|m: int| 0 <= m < acc_c@.len() ==> g1_wf((#[trigger] acc_c@[m]).repr()),
                    forall|m: int|
                        0 <= m < t.coeffs@.len() ==> g1_wf((#[trigger] t.coeffs@[m]).repr()),
                    0 <= k <= acc_c@.len(),
                    new_c@.len() == k,
                    forall|m: int|
                        0 <= m < k ==> (#[trigger] new_c@[m]).repr() == g1_sum_bytes(
                            acc_c@[m].repr(),
                            t.coeffs@[m].repr(),
                        ) && g1_wf(new_c@[m].repr()),
                decreases acc_c@.len() - k,
            {
                new_c.push(g1_add(&acc_c[k], &t.coeffs[k]));
                k += 1;
            }
            let mut new_s: Vec<G2Elem> = Vec::new();
            let mut k: usize = 0;
            while k < acc_s.len()
                invariant
                    acc_s@.len() == np,
                    t.shares@.len() == np,
                    forall|m: int| 0 <= m < acc_s@.len() ==> g2_wf((#[trigger] acc_s@[m]).repr()),
                    forall|m: int|
                        0 <= m < t.shares@.len() ==> g2_wf((#[trigger] t.shares@[m]).repr()),
                    0 <= k <= acc_s@.len(),
                    new_s@.len() == k,
                    forall|m: int|
                        0 <= m < k ==> (#[trigger] new_s@[m]).repr() == g2_sum_bytes(
                            acc_s@[m].repr(),
                            t.shares@[m].repr(),
                        ) && g2_wf(new_s@[m].repr()),
                decreases acc_s@.len() - k,
            {
                new_s.push(g2_add(&acc_s[k], &t.shares[k]));
                k += 1;
            }
            acc_c = new_c;
            acc_s = new_s;
            proof {
                assert(coeff_reprs(acc_c@) =~= Seq::new(
                    pre_c.len(),
                    |i: int| g1_sum_bytes(pre_c[i], tss[j as int].coeffs@[i].repr()),
                ));
                assert(share_reprs(acc_s@) =~= Seq::new(
                    pre_s.len(),
                    |i: int| g2_sum_bytes(pre_s[i], tss[j as int].shares@[i].repr()),
                ));
            }
        }
        j += 1;
    }
    proof {
        assert(tss.skip(n as int) =~= Seq::<Transcript>::empty());
        assert(fold_coeffs(coeff_reprs(acc_c@), tss.skip(n as int), threshold, np as int)
            == coeff_reprs(acc_c@));
        assert(fold_shares(share_reprs(acc_s@), tss.skip(n as int), threshold, np as int)
            == share_reprs(acc_s@));
    }
    Ok(Aggregate { coeffs: acc_c, shares: acc_s })
}

impl Aggregate {
    /// A cheap, purely local consistency check: the aggregate carries at
    /// least one commitment coefficient and every element decodes. A correct
    /// aggregate passes it, but it cannot detect all dealer misbehavior.
    pub fn verify_optimistic(&self) -> (r: bool)
        ensures
            r <==> (self.coeffs@.len() > 0 && (forall|i: int|
                0 <= i < self.coeffs@.len() ==> g1_wf((#[trigger] self.coeffs@[i]).repr())) && (
            forall|i: int|
                0 <= i < self.shares@.len() ==> g2_wf((#[trigger] self.shares@[i]).repr()))),
    {
        if self.coeffs.len() == 0 {
            return false;
        }
        let mut i: usize = 0;
        while i < self.coeffs.len()
            invariant
                0 <= i <= self.coeffs@.len(),
                forall|k: int| 0 <= k < i ==> g1_wf((#[trigger] self.coeffs@[k]).repr()),
            decreases self.coeffs@.len() - i,
        {
            if !g1_check(&self.coeffs[i]) {
                return false;
            }
            i += 1;
        }
        let mut i: usize = 0;
        while i < self.shares.len()
            invariant
                self.coeffs@.len() > 0,
                forall|k: int|
                    0 <= k < self.coeffs@.len() ==> g1_wf((#[trigger] self.coeffs@[k]).repr()),
                0 <= i <= self.shares@.len(),
                forall|k: int| 0 <= k < i ==> g2_wf((#[trigger] self.shares@[k]).repr()),
            decreases self.shares@.len() - i,
        {
            if !g2_check(&self.shares[i]) {
                return false;
            }
            i += 1;
        }
        true
    }

    /// The strong check: reconciles this aggregate against the session's
    /// recorded transcripts by recomputing the aggregation of the valid ones
    /// and comparing elementwise. Passes exactly when some transcript is
    /// valid and this aggregate equals their aggregation.
    pub fn verify_full(&self, session: &DkgSession) -> (r: bool)
        ensures
            r <==> aggregate_matches(
                *self,
                session.transcripts@,
                session.threshold,
                session.num_participants as int,
            ),
    {
        let recomputed = aggregate(session);
        match recomputed {
            Err(_) => false,
            Ok(other) => {
                if self.coeffs.len() != other.coeffs.len()
                    || self.shares.len() != other.shares.len() {
                    proof {
                        if aggregate_matches(
                            *self,
                            session.transcripts@,
                            session.threshold,
                            session.num_participants as int,
                        ) {
                            assert(coeff_reprs(self.coeffs@).len() == coeff_reprs(
                                other.coeffs@,
                            ).len());
                            assert(share_reprs(self.shares@).len() == share_reprs(
                                other.shares@,
                            ).len());
                        }
                    }
                    return false;
                }
                let mut i: usize = 0;
                while i < self.coeffs.len()
                    invariant
                        aggregate_matches(
                            other,
                            session.transcripts@,
                            session.threshold,
                            session.num_participants as int,
                        ),
                        self.coeffs@.len() == other.coeffs@.len(),
                        0 <= i <= self.coeffs@.len(),
                        forall|k: int|
                            0 <= k < i ==> (#[trigger] self.coeffs@[k]).repr()
                                == other.coeffs@[k].repr(),
                    decreases self.coeffs@.len() - i,
                {
                    if !self.coeffs[i].same_repr(&other.coeffs[i]) {
                        proof {
                            lemma_reprs_differ_c(*self, other, session, i as int);
                        }
                        return false;
                    }
                    i += 1;
                }
                let mut i: usize = 0;
                while i < self.shares.len()
                    invariant
                        aggregate_matches(
                            other,
                            session.transcripts@,
                            session.threshold,
                            session.num_participants as int,
                        ),
                        self.shares@.len() == other.shares@.len(),
                        forall|k: int|
                            0 <= k < self.coeffs@.len() ==> (#[trigger] self.coeffs@[k]).repr()
                                == other.coeffs@[k].repr(),
                        self.coeffs@.len() == other.coeffs@.len(),
                        0 <= i <= self.shares@.len(),
                        forall|k: int|
                            0 <= k < i ==> (#[trigger] self.shares@[k]).repr()
                                == other.shares@[k].repr(),
                    decreases self.shares@.len() - i,
                {
                    if !self.shares[i].same_repr(&other.shares[i]) {
                        proof {
                            lemma_reprs_differ_s(*self, other, session, i as int);
                        }
                        return false;
                    }
                    i += 1;
                }
                proof {
                    assert(coeff_reprs(self.coeffs@) =~= coeff_reprs(other.coeffs@));
                    assert(share_reprs(self.shares@) =~= share_reprs(other.shares@));
                }
                true
            },
        }
    }

    /// Validates each recorded dealer transcript individually and returns
    /// how many were accepted; a failing transcript is excluded from the
    /// count, not fatal. Fails with `Error::VerificationError` exactly when
    /// this aggregate does not match the aggregation of the valid
    /// transcripts (in particular when none is valid).
    pub fn verify_aggregation(&self, session: &DkgSession) -> (r: Result<usize, Error>)
        ensures
            r is Ok <==> aggregate_matches(
                *self,
                session.transcripts@,
                session.threshold,
                session.num_participants as int,
            ),
            r is Ok ==> r->Ok_0 == valid_count(
                session.transcripts@,
                session.threshold,
                session.num_participants as int,
            ),
            r is Err ==> r->Err_0 == Error::VerificationError,
    {
        if !self.verify_full(session) {
            return Err(Error::VerificationError);
        }
        let ts = &session.transcripts;
        let n = ts.len();
        let ghost tss = session.transcripts@;
        let threshold = session.threshold;
        let np = session.num_participants;
        let mut count: usize = 0;
        let mut i: usize = 0;
        proof {
            assert(tss.skip(0) =~= tss);
        }
        while i < n
            invariant
                n == tss.len(),
                ts@ == tss,
                0 <= i <= n,
                count <= i,
                count + valid_count(tss.skip(i as int), threshold, np as int) == valid_count(
                    tss,
                    threshold,
                    np as int,
                ),
            decreases n - i,
        {
            proof {
                lemma_count_split(tss, threshold, np as int, i as int);
            }
            if is_valid_transcript(&ts[i], threshold, np) {
                count += 1;
            }
            i += 1;
        }
        proof {
            assert(tss.skip(n as int) =~= Seq::<Transcript>::empty());
        }
        Ok(count)
    }
}

proof fn lemma_reprs_differ_c(a: Aggregate, b: Aggregate, session: &DkgSession, i: int)
    requires
        aggregate_matches(
            b,
            session.transcripts@,
            session.threshold,
            session.num_participants as int,
        ),
        0 <= i < a.coeffs@.len(),
        0 <= i < b.coeffs@.len(),
        a.coeffs@[i].repr() != b.coeffs@[i].repr(),
    ensures
        !aggregate_matches(
            a,
            session.transcripts@,
            session.threshold,
            session.num_participants as int,
        ),
{
    assert(coeff_reprs(a.coeffs@)[i] == a.coeffs@[i].repr());
    assert(coeff_reprs(b.coeffs@)[i] == b.coeffs@[i].repr());
}

proof fn lemma_reprs_differ_s(a: Aggregate, b: Aggregate, session: &DkgSession, i: int)
    requires
        aggregate_matches(
            b,
            session.transcripts@,
            session.threshold,
            session.num_participants as int,
        ),
        0 <= i < a.shares@.len(),
        0 <= i < b.shares@.len(),
        a.shares@[i].repr() != b.shares@[i].repr(),
    ensures
        !aggregate_matches(
            a,
            session.transcripts@,
            session.threshold,
            session.num_participants as int,
        ),
{
    assert(share_reprs(a.shares@)[i] == a.shares@[i].repr());
    assert(share_reprs(b.shares@)[i] == b.shares@[i].repr());
}

impl DkgSession {
    /// The DKG's aggregate public key: the constant-term commitment of the
    /// aggregated polynomial. Fails with `Error::VerificationError` exactly
    /// when no recorded transcript is valid or the threshold is zero.
    pub fn final_key(&self) -> (r: Result<G1Elem, Error>)
        ensures
            r is Ok <==> (valid_count(
                self.transcripts@,
                self.threshold,
                self.num_participants as int,
            ) > 0 && self.threshold > 0),
            r is Ok ==> r->Ok_0.repr() == agg_coeff_reprs(
                self.transcripts@,
                self.threshold,
                self.num_participants as int,
            )[0],
            r is Err ==> r->Err_0 == Error::VerificationError,
    {
        if self.threshold == 0 {
            return Err(Error::VerificationError);
        }
        match aggregate(self) {
            Err(e) => Err(e),
            Ok(a) => {
                proof {
                    assert(coeff_reprs(a.coeffs@)[0] == a.coeffs@[0].repr());
                }
                Ok(a.coeffs[0].duplicate())
            },
        }
    }
}

} // verus!
