//! Lagrange coefficients for interpolation at the origin.
//!
//! For evaluation points `x_0, ..., x_{n-1}` the coefficient at `x_j` is the
//! product over all other points `x_m` of `x_m / (x_m - x_j)`; multiplying a
//! polynomial's values at the points by these coefficients and summing
//! reconstructs its value at zero.

use vstd::arithmetic::div_mod::{lemma_mul_mod_noop_general, lemma_small_mod};
use vstd::arithmetic::mul::lemma_mul_is_commutative;
use vstd::prelude::*;

use crate::scalar::{fr_div, fr_mul, fr_sub, fr_order, Scalar};
use crate::Error;

verus! {

/// The field values of a sequence of scalars.
pub open spec fn scalar_vals(s: Seq<Scalar>) -> Seq<int> {
    s.map_values(|x: Scalar| x.val())
}

/// Partial numerator of the `j`-th coefficient: the product, modulo the
/// field order, of the points before position `k`, the `j`-th excluded.
pub open spec fn lag_num(vals: Seq<int>, j: int, k: int) -> int
    decreases k,
{
    if k <= 0 {
        1
    } else if k - 1 == j {
        lag_num(vals, j, k - 1)
    } else {
        (lag_num(vals, j, k - 1) * vals[k - 1]) % fr_order()
    }
}

/// Partial denominator of the `j`-th coefficient: the product, modulo the
/// field order, of the differences `x_m - x_j` for positions `m` before `k`,
/// the `j`-th excluded.
pub open spec fn lag_den(vals: Seq<int>, j: int, k: int) -> int
    decreases k,
{
    if k <= 0 {
        1
    } else if k - 1 == j {
        lag_den(vals, j, k - 1)
    } else {
        (lag_den(vals, j, k - 1) * ((vals[k - 1] - vals[j]) % fr_order())) % fr_order()
    }
}

/// `c` is the `j`-th Lagrange coefficient for interpolation at the origin
/// over the points `vals`: the defining equation
/// `c * prod(x_m - x_j) == prod(x_m)` holds modulo the field order.
pub open spec fn is_lagrange_coeff(vals: Seq<int>, j: int, c: int) -> bool {
    &&& 0 <= c < fr_order()
    &&& (c * lag_den(vals, j, vals.len() as int)) % fr_order() == lag_num(
        vals,
        j,
        vals.len() as int,
    )
}

proof fn lemma_num_den_bounds(vals: Seq<int>, j: int, k: int)
    requires
        k <= vals.len(),
    ensures
        0 <= lag_num(vals, j, k) < fr_order(),
        0 <= lag_den(vals, j, k) < fr_order(),
    decreases k,
{
    if k <= 0 {
    } else {
        lemma_num_den_bounds(vals, j, k - 1);
    }
}

/// A nonzero difference of two canonical representatives stays nonzero
/// modulo the field order.
proof fn lemma_diff_mod_nonzero(a: int, b: int, m: int)
    requires
        0 <= a < m,
        0 <= b < m,
        a != b,
    ensures
        (a - b) % m != 0,
{
    if a > b {
        lemma_small_mod((a - b) as nat, m as nat);
    } else {
        vstd::arithmetic::div_mod::lemma_mod_add_multiples_vanish(a - b, m);
        lemma_small_mod((a - b + m) as nat, m as nat);
    }
}

/// Computes the Lagrange coefficients, at the origin, of the given distinct
/// nonzero evaluation points, in the order given.
///
/// Fails with `Error::Arithmetic` exactly when two points coincide (the
/// defining product would divide by zero) or a point is zero. On success
/// every returned coefficient satisfies its defining equation
/// `is_lagrange_coeff`.
pub fn prepare_combine_simple(shares_x: &Vec<Scalar>) -> (r: Result<Vec<Scalar>, Error>)
    requires
        forall|i: int| 0 <= i < shares_x@.len() ==> (#[trigger] shares_x@[i]).wf(),
    ensures
        r is Ok <==> ((forall|i: int, j: int|
            0 <= i < j < shares_x@.len() ==> (#[trigger] shares_x@[i]).val() != (
            #[trigger] shares_x@[j]).val()) && (forall|i: int|
            0 <= i < shares_x@.len() ==> (#[trigger] shares_x@[i]).val() != 0)),
        r is Err ==> r->Err_0 == Error::Arithmetic,
        r is Ok ==> {
            let c = r->Ok_0@;
            &&& c.len() == shares_x@.len()
            &&& forall|j: int|
                0 <= j < c.len() ==> is_lagrange_coeff(
                    scalar_vals(shares_x@),
                    j,
                    (#[trigger] c[j]).val(),
                )
        },
{
    let n = shares_x.len();
    let ghost vals = scalar_vals(shares_x@);

    // Reject a zero point or a repeated point.
    let mut j: usize = 0;
    while j < n
        invariant
            n == shares_x@.len(),
            forall|i: int| 0 <= i < n ==> (#[trigger] shares_x@[i]).wf(),
            0 <= j <= n,
            forall|i: int| 0 <= i < j ==> (#[trigger] shares_x@[i]).val() != 0,
            forall|a: int, b: int|
                0 <= a < j && a < b < n ==> (#[trigger] shares_x@[a]).val() != (
                #[trigger] shares_x@[b]).val(),
        decreases n - j,
    {
        if shares_x[j].is_zero() {
            return Err(Error::Arithmetic);
        }
        let mut m: usize = j + 1;
        while m < n
            invariant
                n == shares_x@.len(),
                0 <= j < m <= n,
                forall|b: int|
                    j < b < m ==> (#[trigger] shares_x@[b]).val() != shares_x@[j as int].val(),
            decreases n - m,
        {
            if shares_x[j].scalar_eq(&shares_x[m]) {
                return Err(Error::Arithmetic);
            }
            m += 1;
        }
        j += 1;
    }

    // The optimized product formula: for interpolation at the origin the
    // numerator of each factor is just the other point itself.
    let mut coeffs: Vec<Scalar> = Vec::new();
    let mut j: usize = 0;
    while j < n
        invariant
            n == shares_x@.len(),
            vals == scalar_vals(shares_x@),
            forall|i: int| 0 <= i < n ==> (#[trigger] shares_x@[i]).wf(),
            forall|i: int| 0 <= i < n ==> (#[trigger] shares_x@[i]).val() != 0,
            forall|a: int, b: int|
                0 <= a < b < n ==> (#[trigger] shares_x@[a]).val() != (
                #[trigger] shares_x@[b]).val(),
            0 <= j <= n,
            coeffs@.len() == j,
            forall|i: int|
                0 <= i < j ==> is_lagrange_coeff(vals, i, (#[trigger] coeffs@[i]).val()),
        decreases n - j,
    {
        let mut prod = Scalar::from_u64(1);
        let mut m: usize = 0;
        while m < n
            invariant
                n == shares_x@.len(),
                vals == scalar_vals(shares_x@),
                forall|i: int| 0 <= i < n ==> (#[trigger] shares_x@[i]).wf(),
                forall|i: int| 0 <= i < n ==> (#[trigger] shares_x@[i]).val() != 0,
                forall|a: int, b: int|
                    0 <= a < b < n ==> (#[trigger] shares_x@[a]).val() != (
                    #[trigger] shares_x@[b]).val(),
                0 <= j < n,
                0 <= m <= n,
                prod.wf(),
                (prod.val() * lag_den(vals, j as int, m as int)) % fr_order() == lag_num(
                    vals,
                    j as int,
                    m as int,
                ),
            decreases n - m,
        {
            if m != j {
                proof {
                    lemma_num_den_bounds(vals, j as int, m as int);
                    assert(shares_x@[m as int].wf());
                    assert(shares_x@[j as int].wf());
                    if m < j {
                        assert(shares_x@[m as int].val() != shares_x@[j as int].val());
                    } else {
                        assert(shares_x@[j as int].val() != shares_x@[m as int].val());
                    }
                    lemma_diff_mod_nonzero(
                        shares_x@[m as int].val(),
                        shares_x@[j as int].val(),
                        fr_order(),
                    );
                }
                let d = fr_sub(&shares_x[m], &shares_x[j]);
                let t = fr_div(&shares_x[m], &d);
                let next = fr_mul(&prod, &t);
                proof {
                    lemma_step(
                        vals,
                        j as int,
                        m as int,
                        prod.val(),
                        t.val(),
                        d.val(),
                        next.val(),
                    );
                }
                prod = next;
            }
            m += 1;
        }
        proof {
            lemma_num_den_bounds(vals, j as int, n as int);
            assert(vals.len() == n as int);
            assert(is_lagrange_coeff(vals, j as int, prod.val()));
        }
        coeffs.push(prod);
        j += 1;
    }
    Ok(coeffs)
}

/// One step of the product: folding the factor `x_m / (x_m - x_j)` into the
/// running product preserves the defining equation.
proof fn lemma_step(vals: Seq<int>, j: int, m: int, p: int, t: int, d: int, np: int)
    requires
        0 <= m < vals.len(),
        m != j,
        0 <= vals[m] < fr_order(),
        d == (vals[m] - vals[j]) % fr_order(),
        (t * d) % fr_order() == vals[m],
        np == (p * t) % fr_order(),
        (p * lag_den(vals, j, m)) % fr_order() == lag_num(vals, j, m),
    ensures
        (np * lag_den(vals, j, m + 1)) % fr_order() == lag_num(vals, j, m + 1),
{
    let r = fr_order();
    let den = lag_den(vals, j, m);
    let num = lag_num(vals, j, m);
    lemma_num_den_bounds(vals, j, m);
    assert(lag_den(vals, j, m + 1) == (den * d) % r);
    assert(lag_num(vals, j, m + 1) == (num * vals[m]) % r);

    // (np * ((den * d) % r)) % r == (p * t * den * d) % r
    lemma_mul_mod_noop_general(p * t, den * d, r);
    assert((np * ((den * d) % r)) % r == ((p * t) * (den * d)) % r);

    // rearrange: (p * t) * (den * d) == (t * d) * (p * den)
    assert((p * t) * (den * d) == (t * d) * (p * den)) by (nonlinear_arith);

    // drop the inner mods on both factors
    lemma_mul_mod_noop_general(t * d, p * den, r);
    assert(((t * d) * (p * den)) % r == ((vals[m] % r) * ((p * den) % r)) % r) by {
        lemma_small_mod(vals[m] as nat, r as nat);
    }
    lemma_small_mod(vals[m] as nat, r as nat);
    lemma_mul_mod_noop_general(vals[m], num, r);
    lemma_mul_is_commutative(vals[m], num);
    assert((np * lag_den(vals, j, m + 1)) % r == (vals[m] * num) % r);
}

} // verus!
