//! The (k, n) threshold secret-sharing protocol.
//!
//! A secret is hidden as the constant term of a polynomial of degree k - 1
//! whose other coefficients are drawn uniformly at random; the polynomial is
//! evaluated at x = 1..n to issue n shares, and any k shares with distinct
//! x-coordinates recover the polynomial, and so the secret, by Lagrange
//! interpolation. Zero is never an evaluation point: a share at x = 0 would
//! hold the secret itself.

use vstd::prelude::*;
use crate::ShamirError;
use crate::field::FieldElement;
use crate::field::fe_random;
use crate::poly::Polynomial;
use crate::poly::vals;
use crate::poly::wf_seq;
use crate::poly::eval_poly;
use crate::poly::coef_at;
use crate::poly::lemma_vals_index;
use crate::interp::has_dup;
use crate::interp::denom_of;
use crate::interp::lagrange;

verus! {

/// A polynomial of exactly `k` coefficients whose constant term is the
/// secret; the `k - 1` upper coefficients are drawn uniformly at random,
/// and nothing about them is promised beyond reduction modulo the field's
/// order.
pub fn construct_polynomial(secret: FieldElement, k: u32) -> (r: Polynomial)
    requires
        k >= 1,
        secret.wf(),
    ensures
        r@.len() == k,
        r@[0] == secret@,
        r.wf(),
{
    let mut coef: Vec<FieldElement> = Vec::new();
    coef.push(secret);
    let mut i: u32 = 1;
    while i < k
        invariant
            1 <= i <= k,
            coef@.len() == i,
            coef@[0]@ == secret@,
            forall|t: int| 0 <= t < i ==> (#[trigger] coef@[t]).wf(),
        decreases k - i,
    {
        coef.push(fe_random());
        i += 1;
    }
    let r = Polynomial { coef };
    proof {
        assert forall|t: int| 0 <= t < r@.len() implies r@[t] < crate::field::p() by {
            lemma_vals_index(r.coef@, t);
        }
        lemma_vals_index(r.coef@, 0);
    }
    r
}

/// Splits the secret into `n_shares` shares with threshold `k`: the x-values
/// are 1..n in order, and the y-values are the evaluations, at those points,
/// of one polynomial of `k` coefficients whose constant term is the secret.
pub fn share_secret_points(secret: FieldElement, n_shares: u32, k: u32) -> (r: (
    Vec<FieldElement>,
    Vec<FieldElement>,
))
    requires
        k >= 1,
        n_shares >= k,
        secret.wf(),
    ensures
        r.0@.len() == n_shares,
        r.1@.len() == n_shares,
        forall|i: int| 0 <= i < n_shares ==> vals(r.0@)[i] == i + 1,
        wf_seq(vals(r.0@)),
        wf_seq(vals(r.1@)),
        exists|c: Seq<nat>|
            c.len() == k && wf_seq(c) && c[0] == secret@ && (forall|i: int|
                0 <= i < n_shares ==> vals(r.1@)[i] == eval_poly(c, (i + 1) as nat)),
{
    let poly = construct_polynomial(secret, k);
    let mut xs: Vec<FieldElement> = Vec::new();
    let mut ys: Vec<FieldElement> = Vec::new();
    let mut i: u32 = 0;
    while i < n_shares
        invariant
            i <= n_shares,
            poly@.len() == k,
            poly@[0] == secret@,
            poly.wf(),
            xs@.len() == i,
            ys@.len() == i,
            forall|t: int| 0 <= t < i ==> (#[trigger] xs@[t])@ == t + 1,
            forall|t: int| 0 <= t < i ==> (#[trigger] xs@[t]).wf(),
            forall|t: int|
                0 <= t < i ==> (#[trigger] ys@[t])@ == eval_poly(poly@, (t + 1) as nat),
            forall|t: int| 0 <= t < i ==> (#[trigger] ys@[t]).wf(),
        decreases n_shares - i,
    {
        let x = FieldElement::from_u64((i as u64) + 1);
        let y = poly.evaluate(&x);
        xs.push(x);
        ys.push(y);
        i += 1;
    }
    proof {
        assert forall|t: int| 0 <= t < n_shares implies vals(xs@)[t] == t + 1 by {
            lemma_vals_index(xs@, t);
        }
        assert forall|t: int| 0 <= t < vals(xs@).len() implies vals(xs@)[t]
            < crate::field::p() by {
            lemma_vals_index(xs@, t);
        }
        assert forall|t: int| 0 <= t < vals(ys@).len() implies vals(ys@)[t]
            < crate::field::p() by {
            lemma_vals_index(ys@, t);
        }
        assert forall|t: int| 0 <= t < n_shares implies vals(ys@)[t] == eval_poly(
            poly@,
            (t + 1) as nat,
        ) by {
            lemma_vals_index(ys@, t);
        }
        assert(poly@.len() == k && wf_seq(poly@) && poly@[0] == secret@ && (forall|t: int|
            0 <= t < n_shares ==> vals(ys@)[t] == eval_poly(poly@, (t + 1) as nat)));
    }
    (xs, ys)
}

/// Recovers the secret from shares: the constant term of the polynomial
/// interpolated through the given points. The caller is responsible for
/// supplying at least the threshold's worth of shares; fewer shares with
/// distinct x-values still interpolate to a well-defined polynomial, whose
/// constant term is then unrelated to the original secret — that silence is
/// the scheme's hiding property, not a failure this operation can detect.
pub fn reconstruct(xs: &Vec<FieldElement>, ys: &Vec<FieldElement>) -> (r: Result<
    FieldElement,
    ShamirError,
>)
    requires
        xs@.len() == ys@.len(),
        wf_seq(vals(xs@)),
        wf_seq(vals(ys@)),
        xs@.len() < usize::MAX,
    ensures
        has_dup(vals(xs@)) ==> (r matches Err(e) && e == ShamirError::DuplicateEvaluationPoint),
        !has_dup(vals(xs@)) && (exists|i: int|
            0 <= i < xs@.len() && denom_of(vals(xs@), i) == 0) ==> (r matches Err(e) && e
            == ShamirError::SingularInterpolation),
        !has_dup(vals(xs@)) && (forall|i: int|
            0 <= i < xs@.len() ==> denom_of(vals(xs@), i) != 0) ==> (r matches Ok(s) && s@
            == coef_at(lagrange(vals(xs@), vals(ys@)), 0) && s.wf()),
{
    match Polynomial::interpolate(xs, ys) {
        Err(e) => Err(e),
        Ok(q) => {
            if q.coef.len() >= 1 {
                proof {
                    lemma_vals_index(q.coef@, 0);
                }
                Ok(q.coef[0])
            } else {
                Ok(FieldElement::zero())
            }
        },
    }
}

} // verus!
