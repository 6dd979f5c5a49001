//! Stake-weighted partitioning of the secret-sharing domain.
//!
//! Announcements are sorted by stake (descending, stable), every validator
//! receives a provisional weight of `floor(total_weight * stake / total_stake)`,
//! the rounding shortfall is given, one unit each, to the highest-stake
//! validators, and finally each participant is assigned a contiguous half-open
//! range of share indices of length equal to its weight.

use vstd::arithmetic::div_mod::{
    lemma_div_is_ordered, lemma_div_multiples_vanish, lemma_div_pos_is_pos,
};
use vstd::arithmetic::mul::{lemma_mul_inequality, lemma_mul_upper_bound};
use vstd::prelude::*;

use crate::Error;

verus! {

/// Scheme-wide parameters: the secret-sharing domain has exactly
/// `total_weight` distinct evaluation points, one per unit of weight.
pub struct Params {
    pub total_weight: u32,
}

/// A half-open interval `[start, end)` of share indices.
#[derive(Clone, Copy, Debug, PartialEq, Eq, Structural)]
pub struct ShareRange {
    pub start: usize,
    pub end: usize,
}

/// One validator's announcement: a stake lookup plus a constructor for the
/// participant record that the partitioner hands back.
pub trait Announcement: Sized {
    type Participant;

    /// The declared stake, as seen by specifications.
    spec fn stake_spec(&self) -> u64;

    /// The participant record built from this announcement, as seen by
    /// specifications.
    spec fn participant_spec(&self, weight: u32, share_range: ShareRange) -> Self::Participant;

    fn stake(&self) -> (r: u64)
        ensures
            r == self.stake_spec(),
    ;

    fn participant(&self, weight: u32, share_range: ShareRange) -> (r: Self::Participant)
        ensures
            r == self.participant_spec(weight, share_range),
    ;
}

/// A plain announcement: a validator identity together with its stake.
#[derive(Clone, Copy, Debug, PartialEq, Eq, Structural)]
pub struct Validator {
    pub id: u64,
    pub stake: u64,
}

/// The participant record produced for a `Validator` announcement.
#[derive(Clone, Copy, Debug, PartialEq, Eq, Structural)]
pub struct Participant {
    pub id: u64,
    pub weight: u32,
    pub share_range: ShareRange,
}

impl Announcement for Validator {
    type Participant = Participant;

    open spec fn stake_spec(&self) -> u64 {
        self.stake
    }

    open spec fn participant_spec(&self, weight: u32, share_range: ShareRange) -> Participant {
        Participant { id: self.id, weight, share_range }
    }

    fn stake(&self) -> u64 {
        self.stake
    }

    fn participant(&self, weight: u32, share_range: ShareRange) -> Participant {
        Participant { id: self.id, weight, share_range }
    }
}

/// `x` inserted into the (descending) sorted sequence `s`, in front of the
/// first element whose stake does not exceed `x`'s. Placing `x` before
/// equal-stake elements that came later in the input keeps the sort stable.
pub open spec fn insert_desc<A: Announcement>(x: A, s: Seq<A>) -> Seq<A>
    decreases s.len(),
{
    if s.len() == 0 {
        seq![x]
    } else if x.stake_spec() >= s[0].stake_spec() {
        seq![x] + s
    } else {
        seq![s[0]] + insert_desc(x, s.drop_first())
    }
}

/// Stable insertion sort by stake, descending; ties keep input order.
pub open spec fn sort_desc<A: Announcement>(s: Seq<A>) -> Seq<A>
    decreases s.len(),
{
    if s.len() == 0 {
        Seq::empty()
    } else {
        insert_desc(s[0], sort_desc(s.drop_first()))
    }
}

/// The combined stake of a sequence of announcements.
pub open spec fn total_stake<A: Announcement>(s: Seq<A>) -> int
    decreases s.len(),
{
    if s.len() == 0 {
        0
    } else {
        s[0].stake_spec() + total_stake(s.drop_first())
    }
}

/// Provisional weight of the announcement at position `j`: its stake share of
/// `total_weight`, rounded down. When the combined stake is zero every
/// provisional weight is zero.
pub open spec fn floor_at<A: Announcement>(s: Seq<A>, total_weight: u32, j: int) -> int {
    let stake_sum = total_stake(s);
    if stake_sum == 0 {
        0
    } else {
        (total_weight * s[j].stake_spec()) / stake_sum
    }
}

/// Sum of the first `j` provisional weights.
pub open spec fn floor_sum<A: Announcement>(s: Seq<A>, total_weight: u32, j: int) -> int
    decreases j,
{
    if j <= 0 {
        0
    } else {
        floor_sum(s, total_weight, j - 1) + floor_at(s, total_weight, j - 1)
    }
}

/// The rounding shortfall: what is left of `total_weight` after all
/// provisional weights are handed out.
pub open spec fn rounding_shortfall<A: Announcement>(s: Seq<A>, total_weight: u32) -> int {
    total_weight - floor_sum(s, total_weight, s.len() as int)
}

/// Partitioning fails exactly when the rounding shortfall is negative (the
/// provisional weights overshoot `total_weight`) or exceeds the number of
/// participants (there are too few validators to absorb the remainder).
pub open spec fn partition_fails<A: Announcement>(s: Seq<A>, total_weight: u32) -> bool {
    rounding_shortfall(s, total_weight) < 0 || rounding_shortfall(s, total_weight) > s.len()
}

/// Final weight of the announcement at position `j` of the sorted sequence:
/// the provisional weight, plus one if `j` is among the first
/// `rounding_shortfall` positions.
pub open spec fn weight_at<A: Announcement>(s: Seq<A>, total_weight: u32, j: int) -> int {
    floor_at(s, total_weight, j) + if j < rounding_shortfall(s, total_weight) {
        1int
    } else {
        0int
    }
}

/// First share index of the participant at position `j`: the sum of all
/// earlier participants' weights.
pub open spec fn offset_at<A: Announcement>(s: Seq<A>, total_weight: u32, j: int) -> int
    decreases j,
{
    if j <= 0 {
        0
    } else {
        offset_at(s, total_weight, j - 1) + weight_at(s, total_weight, j - 1)
    }
}

/// Everything `partition_domain` promises of a successful result `r` built
/// from the announcements `orig`.
pub open spec fn partition_post<A: Announcement>(
    orig: Seq<A>,
    total_weight: u32,
    r: Seq<A::Participant>,
) -> bool {
    let s = sort_desc(orig);
    &&& r.len() == s.len()
    &&& forall|j: int|
        0 <= j < s.len() ==> r[j] == s[j].participant_spec(
            weight_at(s, total_weight, j) as u32,
            (ShareRange {
                start: offset_at(s, total_weight, j) as usize,
                end: (offset_at(s, total_weight, j) + weight_at(s, total_weight, j)) as usize,
            }),
        )
}

proof fn lemma_insert_desc_len<A: Announcement>(x: A, s: Seq<A>)
    ensures
        insert_desc(x, s).len() == s.len() + 1,
    decreases s.len(),
{
    if s.len() > 0 && !(x.stake_spec() >= s[0].stake_spec()) {
        lemma_insert_desc_len(x, s.drop_first());
    }
}

proof fn lemma_sort_desc_len<A: Announcement>(s: Seq<A>)
    ensures
        sort_desc(s).len() == s.len(),
    decreases s.len(),
{
    if s.len() > 0 {
        lemma_sort_desc_len(s.drop_first());
        lemma_insert_desc_len(s[0], sort_desc(s.drop_first()));
    }
}

proof fn lemma_total_stake_nonneg<A: Announcement>(s: Seq<A>)
    ensures
        total_stake(s) >= 0,
    decreases s.len(),
{
    if s.len() > 0 {
        lemma_total_stake_nonneg(s.drop_first());
    }
}

proof fn lemma_total_stake_push<A: Announcement>(s: Seq<A>, x: A)
    ensures
        total_stake(s.push(x)) == total_stake(s) + x.stake_spec(),
    decreases s.len(),
{
    assert(s.push(x)[0] == if s.len() == 0 {
        x
    } else {
        s[0]
    });
    if s.len() == 0 {
        assert(s.push(x).drop_first() =~= Seq::<A>::empty());
        assert(total_stake(Seq::<A>::empty()) == 0);
        assert(total_stake(s.push(x)) == x.stake_spec() + total_stake(s.push(x).drop_first()));
    } else {
        assert(s.push(x).drop_first() =~= s.drop_first().push(x));
        lemma_total_stake_push(s.drop_first(), x);
        assert(total_stake(s.push(x)) == s[0].stake_spec() + total_stake(s.push(x).drop_first()));
        assert(total_stake(s) == s[0].stake_spec() + total_stake(s.drop_first()));
    }
}

proof fn lemma_stake_le_total<A: Announcement>(s: Seq<A>, j: int)
    requires
        0 <= j < s.len(),
    ensures
        s[j].stake_spec() <= total_stake(s),
    decreases s.len(),
{
    lemma_total_stake_nonneg(s.drop_first());
    if j == 0 {
    } else {
        lemma_stake_le_total(s.drop_first(), j - 1);
    }
}

proof fn lemma_floor_at_bounds<A: Announcement>(s: Seq<A>, total_weight: u32, j: int)
    requires
        0 <= j < s.len(),
    ensures
        0 <= floor_at(s, total_weight, j) <= total_weight,
{
    let stake_sum = total_stake(s);
    lemma_total_stake_nonneg(s);
    if stake_sum != 0 {
        let num = total_weight * s[j].stake_spec();
        lemma_mul_upper_bound(0, total_weight as int, 0, s[j].stake_spec() as int);
        lemma_div_pos_is_pos(num, stake_sum);
        lemma_stake_le_total(s, j);
        lemma_mul_inequality(s[j].stake_spec() as int, stake_sum, total_weight as int);
        lemma_div_is_ordered(num, total_weight * stake_sum, stake_sum);
        lemma_div_multiples_vanish(total_weight as int, stake_sum);
    }
}

proof fn lemma_floor_sum_monotone<A: Announcement>(s: Seq<A>, total_weight: u32, i: int, j: int)
    requires
        0 <= i <= j <= s.len(),
    ensures
        floor_sum(s, total_weight, i) <= floor_sum(s, total_weight, j),
    decreases j,
{
    if i < j {
        lemma_floor_at_bounds(s, total_weight, j - 1);
        lemma_floor_sum_monotone(s, total_weight, i, j - 1);
    }
}

proof fn lemma_weight_at_bounds<A: Announcement>(s: Seq<A>, total_weight: u32, j: int)
    requires
        0 <= j < s.len(),
        !partition_fails(s, total_weight),
    ensures
        0 <= weight_at(s, total_weight, j),
        weight_at(s, total_weight, j) <= total_weight,
{
    let n = s.len() as int;
    lemma_floor_at_bounds(s, total_weight, j);
    if j < rounding_shortfall(s, total_weight) {
        // A bonus unit is only handed out while the provisional weights fall
        // short of `total_weight`; then no single provisional weight can
        // already equal `total_weight`.
        lemma_floor_sum_monotone(s, total_weight, 0, j);
        lemma_floor_sum_monotone(s, total_weight, j + 1, n);
        assert(floor_sum(s, total_weight, j + 1)
            == floor_sum(s, total_weight, j) + floor_at(s, total_weight, j));
        assert(floor_at(s, total_weight, j) <= floor_sum(s, total_weight, n)) by {
            lemma_floor_sum_monotone(s, total_weight, 0, j);
        }
    }
}

proof fn lemma_offset_closed<A: Announcement>(s: Seq<A>, total_weight: u32, j: int)
    requires
        0 <= j <= s.len(),
        !partition_fails(s, total_weight),
    ensures
        offset_at(s, total_weight, j) == floor_sum(s, total_weight, j) + (
        if j <= rounding_shortfall(s, total_weight) {
            j
        } else {
            rounding_shortfall(s, total_weight)
        }),
    decreases j,
{
    if j > 0 {
        lemma_offset_closed(s, total_weight, j - 1);
    }
}

proof fn lemma_offset_bounds<A: Announcement>(s: Seq<A>, total_weight: u32, j: int)
    requires
        0 <= j <= s.len(),
        !partition_fails(s, total_weight),
    ensures
        0 <= offset_at(s, total_weight, j) <= total_weight,
        j == s.len() ==> offset_at(s, total_weight, j) == total_weight,
{
    let n = s.len() as int;
    let sf = rounding_shortfall(s, total_weight);
    lemma_offset_closed(s, total_weight, j);
    lemma_floor_sum_monotone(s, total_weight, 0, j);
    lemma_floor_sum_monotone(s, total_weight, j, n);
}

/// Law: in every successful weight-assignment run the weights are
/// non-negative, the share ranges are contiguous — each starts where the
/// previous one ends, the first starts at zero — and together they cover
/// exactly `[0, total_weight)`: the weights sum to `total_weight`.
pub proof fn lemma_partition_covers_domain<A: Announcement>(s: Seq<A>, total_weight: u32)
    requires
        !partition_fails(s, total_weight),
    ensures
        offset_at(s, total_weight, 0) == 0,
        offset_at(s, total_weight, s.len() as int) == total_weight,
        forall|j: int|
            0 <= j < s.len() ==> 0 <= #[trigger] weight_at(s, total_weight, j) <= total_weight,
        forall|j: int|
            0 <= j < s.len() ==> #[trigger] offset_at(s, total_weight, j + 1) == offset_at(
                s,
                total_weight,
                j,
            ) + weight_at(s, total_weight, j),
{
    lemma_offset_bounds(s, total_weight, s.len() as int);
    assert forall|j: int| 0 <= j < s.len() implies 0 <= #[trigger] weight_at(s, total_weight, j)
        <= total_weight by {
        lemma_weight_at_bounds(s, total_weight, j);
    }
}

/// Law: partitioning is deterministic. Two participant sequences that both
/// satisfy the partitioning contract for the same announcement sequence and
/// the same `total_weight` are identical.
pub proof fn lemma_partition_deterministic<A: Announcement>(
    orig: Seq<A>,
    total_weight: u32,
    r1: Seq<A::Participant>,
    r2: Seq<A::Participant>,
)
    requires
        partition_post(orig, total_weight, r1),
        partition_post(orig, total_weight, r2),
    ensures
        r1 == r2,
{
    assert(r1 =~= r2);
}

proof fn lemma_floor_sum_le_prefix<A: Announcement>(s: Seq<A>, total_weight: u32, j: int)
    requires
        total_stake(s) > 0,
        0 <= j <= s.len(),
    ensures
        total_stake(s) * floor_sum(s, total_weight, j) <= total_weight * total_stake(
            s.subrange(0, j),
        ),
    decreases j,
{
    let stake_sum = total_stake(s);
    let w = total_weight as int;
    if j == 0 {
    } else {
        lemma_floor_sum_le_prefix(s, total_weight, j - 1);
        let st = s[j - 1].stake_spec() as int;
        let q = floor_at(s, total_weight, j - 1);
        assert(stake_sum * q <= w * st) by {
            vstd::arithmetic::div_mod::lemma_fundamental_div_mod(w * st, stake_sum);
            vstd::arithmetic::div_mod::lemma_mod_bound(w * st, stake_sum);
        }
        lemma_total_stake_push(s.subrange(0, j - 1), s[j - 1]);
        assert(s.subrange(0, j - 1).push(s[j - 1]) =~= s.subrange(0, j));
        vstd::arithmetic::mul::lemma_mul_is_distributive_add(
            stake_sum,
            floor_sum(s, total_weight, j - 1),
            q,
        );
        vstd::arithmetic::mul::lemma_mul_is_distributive_add(
            w,
            total_stake(s.subrange(0, j - 1)),
            st,
        );
    }
}

proof fn lemma_floor_sum_ge_prefix<A: Announcement>(s: Seq<A>, total_weight: u32, j: int)
    requires
        total_stake(s) > 0,
        0 <= j <= s.len(),
    ensures
        total_stake(s) * floor_sum(s, total_weight, j) >= total_weight * total_stake(
            s.subrange(0, j),
        ) - j * total_stake(s) + j,
    decreases j,
{
    let stake_sum = total_stake(s);
    let w = total_weight as int;
    if j == 0 {
    } else {
        lemma_floor_sum_ge_prefix(s, total_weight, j - 1);
        let st = s[j - 1].stake_spec() as int;
        let q = floor_at(s, total_weight, j - 1);
        assert(stake_sum * q >= w * st - stake_sum + 1) by {
            vstd::arithmetic::div_mod::lemma_fundamental_div_mod(w * st, stake_sum);
            vstd::arithmetic::div_mod::lemma_mod_bound(w * st, stake_sum);
        }
        lemma_total_stake_push(s.subrange(0, j - 1), s[j - 1]);
        assert(s.subrange(0, j - 1).push(s[j - 1]) =~= s.subrange(0, j));
        vstd::arithmetic::mul::lemma_mul_is_distributive_add(
            stake_sum,
            floor_sum(s, total_weight, j - 1),
            q,
        );
        vstd::arithmetic::mul::lemma_mul_is_distributive_add(
            w,
            total_stake(s.subrange(0, j - 1)),
            st,
        );
        vstd::arithmetic::mul::lemma_mul_is_distributive_add_other_way(stake_sum, j - 1, 1);
    }
}

/// Law (boundary soundness of the rounding shortfall): whenever any
/// announcement carries positive stake, the shortfall lies between zero and
/// the number of announcements less one — the provisional weights never
/// overshoot `total_weight`, and the highest-stake announcements can always
/// absorb the remainder. The two `Error::Arithmetic` guards of
/// `partition_domain` can fire only when the combined stake is zero.
pub proof fn lemma_positive_stake_never_fails<A: Announcement>(s: Seq<A>, total_weight: u32)
    requires
        total_stake(s) > 0,
    ensures
        0 <= rounding_shortfall(s, total_weight),
        rounding_shortfall(s, total_weight) < s.len(),
        !partition_fails(s, total_weight),
{
    let stake_sum = total_stake(s);
    let w = total_weight as int;
    let n = s.len() as int;
    assert(n >= 1);
    assert(s.subrange(0, n) =~= s);
    let fs = floor_sum(s, total_weight, n);
    lemma_floor_sum_le_prefix(s, total_weight, n);
    lemma_floor_sum_ge_prefix(s, total_weight, n);
    assert(fs <= w) by (nonlinear_arith)
        requires
            stake_sum * fs <= w * stake_sum,
            stake_sum > 0,
    ;
    assert(fs > w - n) by (nonlinear_arith)
        requires
            stake_sum * fs >= w * stake_sum - n * stake_sum + n,
            stake_sum > 0,
            n >= 1,
    ;
}

/// Law (the proportional part of stake monotonicity): with the other
/// validators' combined stake held fixed, raising a validator's own stake
/// never lowers its provisional weight
/// `floor(total_weight * stake / total_stake)`. The one extra unit handed
/// out for the rounding shortfall depends on the sorted position as well and
/// is not covered by this statement.
pub proof fn lemma_provisional_weight_monotone(
    total_weight: u32,
    stake1: u64,
    stake2: u64,
    others: int,
)
    requires
        others >= 0,
        stake1 <= stake2,
        others + stake1 > 0,
    ensures
        (total_weight * stake1) / (others + stake1) <= (total_weight * stake2) / (others
            + stake2),
{
    let w = total_weight as int;
    let s1 = stake1 as int;
    let s2 = stake2 as int;
    let b1 = others + s1;
    let b2 = others + s2;
    let q1 = (w * s1) / b1;
    lemma_mul_upper_bound(0, w, 0, s1);
    lemma_div_pos_is_pos(w * s1, b1);
    assert(w * s1 * b2 <= w * s2 * b1) by (nonlinear_arith)
        requires
            0 <= w,
            0 <= s1 <= s2,
            b1 == others + s1,
            b2 == others + s2,
            others >= 0,
    ;
    assert(b1 * q1 <= w * s1) by {
        vstd::arithmetic::div_mod::lemma_fundamental_div_mod(w * s1, b1);
        vstd::arithmetic::div_mod::lemma_mod_bound(w * s1, b1);
    }
    assert(q1 * b2 <= w * s2) by (nonlinear_arith)
        requires
            b1 * q1 <= w * s1,
            w * s1 * b2 <= w * s2 * b1,
            b1 > 0,
            b2 > 0,
            q1 >= 0,
    ;
    lemma_div_is_ordered(q1 * b2, w * s2, b2);
    lemma_div_multiples_vanish(q1, b2);
}

proof fn lemma_insert_desc_split<A: Announcement>(x: A, s: Seq<A>, j: int)
    requires
        0 <= j <= s.len(),
        forall|k: int| 0 <= k < j ==> (#[trigger] s[k]).stake_spec() > x.stake_spec(),
        j < s.len() ==> x.stake_spec() >= s[j].stake_spec(),
    ensures
        insert_desc(x, s) == s.insert(j, x),
    decreases j,
{
    if j == 0 {
        if s.len() == 0 {
            assert(insert_desc(x, s) =~= s.insert(0, x));
        } else {
            assert(seq![x] + s =~= s.insert(0, x));
        }
    } else {
        assert(s[0].stake_spec() > x.stake_spec());
        lemma_insert_desc_split(x, s.drop_first(), j - 1);
        assert(seq![s[0]] + s.drop_first().insert(j - 1, x) =~= s.insert(j, x));
    }
}

fn insert_sorted<A: Announcement>(x: A, v: Vec<A>) -> (r: Vec<A>)
    ensures
        r@ == insert_desc(x, v@),
{
    let mut v = v;
    let x_stake = x.stake();
    let mut j: usize = 0;
    while j < v.len() && v[j].stake() > x_stake
        invariant
            j <= v@.len(),
            x_stake == x.stake_spec(),
            forall|k: int| 0 <= k < j ==> (#[trigger] v@[k]).stake_spec() > x.stake_spec(),
        decreases v@.len() - j,
    {
        j += 1;
    }
    let ghost s0 = v@;
    let ghost jj: int = j as int;
    v.insert(j, x);
    proof {
        lemma_insert_desc_split(x, s0, jj);
    }
    v
}

/// Converts a set of stake-bearing announcements into a weight-proportional,
/// gap-free partition of the share-index domain `[0, total_weight)`.
///
/// The announcements are sorted by stake, descending and stable, and left in
/// that order. Each then receives `floor(total_weight * stake / total_stake)`
/// weight; the rounding shortfall is added, one unit each, to the
/// highest-stake announcements; and contiguous share ranges are handed out in
/// sorted order. Fails with `Error::Arithmetic` exactly when the shortfall
/// would be negative or would exceed the number of announcements.
pub fn partition_domain<A: Announcement>(
    params: &Params,
    announce_messages: &mut Vec<A>,
) -> (r: Result<Vec<A::Participant>, Error>)
    ensures
        final(announce_messages)@ == sort_desc(old(announce_messages)@),
        r is Ok <==> !partition_fails(
            sort_desc(old(announce_messages)@),
            params.total_weight,
        ),
        r is Ok ==> partition_post(old(announce_messages)@, params.total_weight, r->Ok_0@),
        r is Err ==> r->Err_0 == Error::Arithmetic,
{
    let ghost orig = announce_messages@;
    let total_weight = params.total_weight;

    // Sort announcements from greatest to least stake, stably.
    let mut sorted_v: Vec<A> = Vec::new();
    while announce_messages.len() > 0
        invariant
            announce_messages@.len() <= orig.len(),
            announce_messages@ == orig.subrange(0, announce_messages@.len() as int),
            sorted_v@ == sort_desc(orig.subrange(announce_messages@.len() as int, orig.len() as int)),
        decreases announce_messages@.len(),
    {
        let ghost k: int = announce_messages@.len() as int;
        let x = announce_messages.pop().unwrap();
        sorted_v = insert_sorted(x, sorted_v);
        proof {
            let tail = orig.subrange(k - 1, orig.len() as int);
            assert(tail.drop_first() =~= orig.subrange(k, orig.len() as int));
            assert(announce_messages@ =~= orig.subrange(0, k - 1));
        }
    }
    proof {
        assert(orig.subrange(0, orig.len() as int) =~= orig);
    }
    *announce_messages = sorted_v;

    let ghost sorted = sort_desc(orig);
    proof {
        lemma_sort_desc_len(orig);
    }
    let n = announce_messages.len();

    // Combined stake.
    let mut total: u128 = 0;
    let mut i: usize = 0;
    while i < n
        invariant
            n == sorted.len(),
            announce_messages@ == sorted,
            0 <= i <= n,
            total == total_stake(sorted.subrange(0, i as int)),
            total <= (i as int) * 0xffff_ffff_ffff_ffffu64,
        decreases n - i,
    {
        let st = announce_messages[i].stake();
        proof {
            lemma_total_stake_push(sorted.subrange(0, i as int), sorted[i as int]);
            assert(sorted.subrange(0, i as int).push(sorted[i as int]) =~= sorted.subrange(
                0,
                i as int + 1,
            ));
            assert(((i + 1) as int) * 0xffff_ffff_ffff_ffffu64 == (i as int)
                * 0xffff_ffff_ffff_ffffu64 + 0xffff_ffff_ffff_ffffu64);
            lemma_mul_inequality(
                (i + 1) as int,
                n as int,
                0xffff_ffff_ffff_ffffu64 as int,
            );
            lemma_mul_inequality(
                n as int,
                0xffff_ffff_ffff_ffffu64 as int,
                0xffff_ffff_ffff_ffffu64 as int,
            );
        }
        total = total + (st as u128);
        i += 1;
    }
    proof {
        assert(sorted.subrange(0, n as int) =~= sorted);
        lemma_total_stake_nonneg(sorted);
    }

    // Provisional weights, rounded down.
    let mut floors: Vec<u32> = Vec::new();
    let mut fsum: u128 = 0;
    let mut i: usize = 0;
    while i < n
        invariant
            n == sorted.len(),
            announce_messages@ == sorted,
            total == total_stake(sorted),
            0 <= i <= n,
            floors@.len() == i,
            forall|k: int| 0 <= k < i ==> floors@[k] == floor_at(sorted, total_weight, k),
            fsum == floor_sum(sorted, total_weight, i as int),
            fsum <= (i as int) * (total_weight as int),
        decreases n - i,
    {
        let st = announce_messages[i].stake();
        proof {
            lemma_floor_at_bounds(sorted, total_weight, i as int);
            lemma_mul_upper_bound(
                total_weight as int,
                0xffff_ffffu32 as int,
                st as int,
                0xffff_ffff_ffff_ffffu64 as int,
            );
            vstd::arithmetic::mul::lemma_mul_is_distributive_add_other_way(
                total_weight as int,
                i as int,
                1,
            );
            assert(((i + 1) as int) * (total_weight as int) == (i as int) * (total_weight as int)
                + total_weight as int);
            lemma_mul_inequality((i + 1) as int, n as int, total_weight as int);
            lemma_mul_upper_bound(
                n as int,
                0xffff_ffff_ffff_ffffu64 as int,
                total_weight as int,
                0xffff_ffffu32 as int,
            );
        }
        let fw: u32 = if total == 0 {
            0
        } else {
            (((total_weight as u128) * (st as u128)) / total) as u32
        };
        floors.push(fw);
        fsum = fsum + (fw as u128);
        i += 1;
    }

    // The rounding shortfall. Guard both boundary cases explicitly: a
    // negative shortfall and one larger than the number of announcements
    // (with positive total stake neither can occur, see
    // `lemma_positive_stake_never_fails`).
    if fsum > total_weight as u128 {
        return Err(Error::Arithmetic);
    }
    let adjust: u32 = total_weight - (fsum as u32);
    if adjust as usize > n {
        return Err(Error::Arithmetic);
    }
    let adjust_usize = adjust as usize;
    assert(adjust as int == rounding_shortfall(sorted, total_weight));
    assert(!partition_fails(sorted, total_weight));

    // Hand out contiguous share ranges in sorted order.
    let mut participants: Vec<A::Participant> = Vec::new();
    let mut offset: usize = 0;
    let mut i: usize = 0;
    while i < n
        invariant
            n == sorted.len(),
            announce_messages@ == sorted,
            !partition_fails(sorted, total_weight),
            adjust_usize as int == rounding_shortfall(sorted, total_weight),
            floors@.len() == n,
            forall|k: int| 0 <= k < n ==> floors@[k] == floor_at(sorted, total_weight, k),
            0 <= i <= n,
            participants@.len() == i,
            offset == offset_at(sorted, total_weight, i as int),
            forall|j: int|
                0 <= j < i ==> participants@[j] == sorted[j].participant_spec(
                    weight_at(sorted, total_weight, j) as u32,
                    (ShareRange {
                        start: offset_at(sorted, total_weight, j) as usize,
                        end: (offset_at(sorted, total_weight, j) + weight_at(
                            sorted,
                            total_weight,
                            j,
                        )) as usize,
                    }),
                ),
        decreases n - i,
    {
        proof {
            lemma_weight_at_bounds(sorted, total_weight, i as int);
            lemma_offset_bounds(sorted, total_weight, i as int);
            lemma_offset_bounds(sorted, total_weight, i as int + 1);
        }
        let bonus: u32 = if i < adjust_usize {
            1
        } else {
            0
        };
        let w: u32 = floors[i] + bonus;
        let end: usize = offset + (w as usize);
        let p = announce_messages[i].participant(w, ShareRange { start: offset, end });
        participants.push(p);
        offset = end;
        i += 1;
    }
    Ok(participants)
}

} // verus!
