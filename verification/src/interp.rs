//! Lagrange interpolation.
//!
//! Given x-coordinates that are pairwise distinct and matching y-values, the
//! interpolator builds, for each point, the basis polynomial that is one at
//! that point's x and zero at every other x of the set, and sums the basis
//! polynomials scaled by the y-values. Repeated x-coordinates are rejected
//! up front; a basis denominator that evaluates to the field's zero is
//! rejected defensively, though with distinct canonical x-values over a
//! prime field it cannot arise.

use vstd::prelude::*;
use crate::ShamirError;
use crate::field::FieldElement;
use crate::field::p;
use crate::field::neg_mod;
use crate::field::inv_of;
use crate::field::fe_neg;
use crate::field::fe_inverse;
use crate::field::lemma_view_injective;
use crate::poly::Polynomial;
use crate::poly::vals;
use crate::poly::lemma_vals_index;
use crate::poly::poly_views;
use crate::poly::wf_seq;
use crate::poly::eval_poly;
use crate::poly::scale_poly;
use crate::poly::add_polys;
use crate::poly::prod_polys;
use crate::poly::prod_len;
use crate::evals::lemma_eval_scale;
use crate::evals::lemma_eval_add;
use crate::evals::lemma_eval_zero_poly;
use crate::evals::lemma_eval_numer_at_other;
use vstd::arithmetic::div_mod::lemma_small_mod;

verus! {

/// Some value occurs twice in `s`.
pub open spec fn has_dup(s: Seq<nat>) -> bool {
    exists|i: int, j: int| 0 <= i < j < s.len() && s[i] == s[j]
}

/// The linear polynomial `(-v, 1)`: constant term the additive inverse of
/// `v`, leading coefficient one.
pub open spec fn lin_poly(v: nat) -> Seq<nat> {
    seq![neg_mod(v), 1nat]
}

/// The factors of a basis numerator: one linear polynomial `(-v, 1)` for
/// each member `v` of the interpolating set other than `x`, in order.
pub open spec fn factor_seq(x: nat, xs: Seq<nat>) -> Seq<Seq<nat>>
    decreases xs.len(),
{
    if xs.len() == 0 {
        seq![]
    } else if xs.last() == x {
        factor_seq(x, xs.drop_last())
    } else {
        factor_seq(x, xs.drop_last()).push(lin_poly(xs.last()))
    }
}

/// The numerator of the basis polynomial for `x` over the interpolating set
/// `xs`: the product of `(-v, 1)` over the members `v` of `xs` other than `x`.
pub open spec fn numer(x: nat, xs: Seq<nat>) -> Seq<nat> {
    prod_polys(factor_seq(x, xs))
}

/// The basis denominator for index `i`: the numerator for `xs[i]` evaluated
/// at `xs[i]` itself.
pub open spec fn denom_of(xs: Seq<nat>, i: int) -> nat {
    eval_poly(numer(xs[i], xs), xs[i])
}

/// The basis polynomial for `x`: its numerator scaled by the inverse of the
/// numerator's value at `x`.
pub open spec fn basis_spec(x: nat, xs: Seq<nat>) -> Seq<nat> {
    scale_poly(numer(x, xs), inv_of(eval_poly(numer(x, xs), x)))
}

/// The first `i` terms of the Lagrange sum: each point's basis polynomial
/// scaled by its y-value, summed from the zero polynomial.
pub open spec fn lag_partial(xs: Seq<nat>, ys: Seq<nat>, i: int) -> Seq<nat>
    decreases i,
{
    if i <= 0 {
        seq![0nat]
    } else {
        add_polys(lag_partial(xs, ys, i - 1), scale_poly(basis_spec(xs[i - 1], xs), ys[i - 1]))
    }
}

/// The interpolating polynomial of the point set: the full Lagrange sum.
pub open spec fn lagrange(xs: Seq<nat>, ys: Seq<nat>) -> Seq<nat> {
    lag_partial(xs, ys, xs.len() as int)
}

/// Whether two elements of the vector hold the same field value.
pub fn has_duplicate(xs: &Vec<FieldElement>) -> (r: bool)
    ensures
        r == has_dup(vals(xs@)),
{
    let n = xs.len();
    let mut i: usize = 0;
    while i < n
        invariant
            i <= n,
            n == xs@.len(),
            forall|a: int, b: int|
                0 <= a < i && a < b < xs@.len() ==> vals(xs@)[a] != vals(xs@)[b],
        decreases n - i,
    {
        let mut j: usize = i + 1;
        while j < n
            invariant
                i < n,
                i < j,
                j <= n,
                n == xs@.len(),
                forall|b: int| i < b < j ==> vals(xs@)[i as int] != vals(xs@)[b],
        decreases n - j,
        {
            if xs[i] == xs[j] {
                proof {
                    lemma_vals_index(xs@, i as int);
                    lemma_vals_index(xs@, j as int);
                    assert(vals(xs@)[i as int] == vals(xs@)[j as int]);
                }
                return true;
            }
            proof {
                if vals(xs@)[i as int] == vals(xs@)[j as int] {
                    lemma_vals_index(xs@, i as int);
                    lemma_vals_index(xs@, j as int);
                    lemma_view_injective(xs@[i as int], xs@[j as int]);
                }
            }
            j += 1;
        }
        i += 1;
    }
    false
}

impl Polynomial {
    /// The Lagrange basis polynomial for `x` over the interpolating set
    /// `xs`: the product of `(-v, 1)` over the members `v` of `xs` other
    /// than `x`, scaled by the inverse of that product's value at `x`. The
    /// denominator evaluating to the field's zero is rejected defensively;
    /// it would mean the set held a repeated point.
    pub fn basis(x: &FieldElement, xs: &Vec<FieldElement>) -> (r: Result<
        Polynomial,
        ShamirError,
    >)
        requires
            x.wf(),
            wf_seq(vals(xs@)),
            xs@.len() < usize::MAX,
        ensures
            eval_poly(numer(x@, vals(xs@)), x@) == 0 ==> (r matches Err(e) && e
                == ShamirError::SingularInterpolation),
            eval_poly(numer(x@, vals(xs@)), x@) != 0 ==> (r matches Ok(q) && q@ == basis_spec(
                x@,
                vals(xs@),
            ) && q.wf() && eval_poly(q@, x@) == 1 && (forall|t: int|
                0 <= t < xs@.len() && vals(xs@)[t] != x@ ==> eval_poly(
                    q@,
                    #[trigger] vals(xs@)[t],
                ) == 0)),
    {
        let n = xs.len();
        let mut factors: Vec<Polynomial> = Vec::new();
        let mut j: usize = 0;
        while j < n
            invariant
                j <= n,
                n == xs@.len(),
                x.wf(),
                wf_seq(vals(xs@)),
                poly_views(factors@) == factor_seq(x@, vals(xs@).subrange(0, j as int)),
                forall|t: int|
                    0 <= t < factors@.len() ==> (#[trigger] factors@[t]).wf() && factors@[t]@.len()
                        == 2,
                prod_len(poly_views(factors@)) == factors@.len() + 1,
                factors@.len() <= j,
            decreases n - j,
        {
            proof {
                lemma_vals_index(xs@, j as int);
                let sj = vals(xs@).subrange(0, j + 1);
                assert(sj.drop_last() =~= vals(xs@).subrange(0, j as int));
                assert(sj.last() == vals(xs@)[j as int]);
            }
            let xj = xs[j];
            if xj != *x {
                proof {
                    if xj@ == x@ {
                        lemma_view_injective(xj, *x);
                    }
                }
                let neg = fe_neg(&xj);
                let lin = Polynomial::new(vec![neg, FieldElement::one()]);
                proof {
                    assert(lin@ =~= lin_poly(xj@));
                    let pv = poly_views(factors@);
                    assert(poly_views(factors@.push(lin)).drop_last() =~= pv);
                    assert(poly_views(factors@.push(lin)).last() == lin@);
                }
                factors.push(lin);
            } else {
                proof {
                    assert(xj@ == x@);
                }
            }
            j += 1;
        }
        proof {
            assert(vals(xs@).subrange(0, n as int) =~= vals(xs@));
        }
        let numerator = Polynomial::product_of(&factors);
        let d = numerator.evaluate(x);
        match fe_inverse(&d) {
            None => Err(ShamirError::SingularInterpolation),
            Some(inv) => {
                let b = numerator.scalar_mul(&inv);
                proof {
                    let xsv = vals(xs@);
                    let nv = numerator@;
                    let m = p() as int;
                    lemma_eval_scale(nv, inv@, x@);
                    assert(eval_poly(nv, x@) * inv@ == inv@ * eval_poly(nv, x@))
                        by (nonlinear_arith);
                    assert(eval_poly(b@, x@) == 1);
                    assert forall|t: int|
                        0 <= t < xs@.len() && #[trigger] xsv[t] != x@ implies eval_poly(
                        b@,
                        xsv[t],
                    ) == 0 by {
                        lemma_eval_numer_at_other(x@, xsv, t);
                        lemma_eval_scale(nv, inv@, xsv[t]);
                        assert(eval_poly(nv, xsv[t]) * inv@ == 0) by (nonlinear_arith)
                            requires
                                eval_poly(nv, xsv[t]) == 0,
                        ;
                        assert((0int) % m == 0);
                    }
                }
                Ok(b)
            },
        }
    }

    /// The unique minimal-degree polynomial through the given points, by
    /// Lagrange interpolation: the sum over the points of the basis
    /// polynomial for that point's x, scaled by its y. Repeated
    /// x-coordinates are rejected as `DuplicateEvaluationPoint`; a zero
    /// basis denominator, only possible for a repeated point, as
    /// `SingularInterpolation`.
    pub fn interpolate(xs: &Vec<FieldElement>, ys: &Vec<FieldElement>) -> (r: Result<
        Polynomial,
        ShamirError,
    >)
        requires
            xs@.len() == ys@.len(),
            wf_seq(vals(xs@)),
            wf_seq(vals(ys@)),
            xs@.len() < usize::MAX,
        ensures
            has_dup(vals(xs@)) ==> (r matches Err(e) && e
                == ShamirError::DuplicateEvaluationPoint),
            !has_dup(vals(xs@)) && (exists|i: int|
                0 <= i < xs@.len() && denom_of(vals(xs@), i) == 0) ==> (r matches Err(e) && e
                == ShamirError::SingularInterpolation),
            !has_dup(vals(xs@)) && (forall|i: int|
                0 <= i < xs@.len() ==> denom_of(vals(xs@), i) != 0) ==> (r matches Ok(q) && q@
                == lagrange(vals(xs@), vals(ys@)) && q.wf() && (forall|t: int|
                0 <= t < xs@.len() ==> eval_poly(q@, #[trigger] vals(xs@)[t]) == vals(ys@)[t])),
    {
        if has_duplicate(xs) {
            return Err(ShamirError::DuplicateEvaluationPoint);
        }
        let n = xs.len();
        let mut acc = Polynomial::zero();
        proof {
            assert forall|t: int| 0 <= t < xs@.len() implies eval_poly(
                acc@,
                #[trigger] vals(xs@)[t],
            ) == 0 by {
                lemma_eval_zero_poly(vals(xs@)[t]);
            }
        }
        let mut i: usize = 0;
        while i < n
            invariant
                i <= n,
                n == xs@.len(),
                xs@.len() == ys@.len(),
                wf_seq(vals(xs@)),
                wf_seq(vals(ys@)),
                xs@.len() < usize::MAX,
                !has_dup(vals(xs@)),
                acc@ == lag_partial(vals(xs@), vals(ys@), i as int),
                acc.wf(),
                forall|t: int| 0 <= t < i ==> denom_of(vals(xs@), t) != 0,
                forall|t: int|
                    0 <= t < i ==> eval_poly(acc@, #[trigger] vals(xs@)[t]) == vals(ys@)[t],
                forall|t: int|
                    i <= t < xs@.len() ==> eval_poly(acc@, #[trigger] vals(xs@)[t]) == 0,
            decreases n - i,
        {
            proof {
                lemma_vals_index(xs@, i as int);
                lemma_vals_index(ys@, i as int);
            }
            let xi = xs[i];
            let b = match Polynomial::basis(&xi, xs) {
                Ok(b) => b,
                Err(_) => {
                    proof {
                        assert(denom_of(vals(xs@), i as int) == 0);
                    }
                    return Err(ShamirError::SingularInterpolation);
                },
            };
            let yi = ys[i];
            let term = b.scalar_mul(&yi);
            let acc2 = acc.add(&term);
            proof {
                let xsv = vals(xs@);
                let ysv = vals(ys@);
                let m = p() as int;
                assert forall|t: int| 0 <= t < xs@.len() implies eval_poly(
                    acc2@,
                    #[trigger] xsv[t],
                ) == (if t < i + 1 {
                    ysv[t] as int
                } else {
                    0int
                }) by {
                    lemma_eval_add(acc@, term@, xsv[t]);
                    lemma_eval_scale(b@, yi@, xsv[t]);
                    if t == i {
                        assert(eval_poly(b@, xsv[t]) == 1);
                        assert(1nat * yi@ == yi@) by (nonlinear_arith);
                        lemma_small_mod(yi@, p());
                        assert(eval_poly(term@, xsv[t]) == yi@);
                        lemma_small_mod(ysv[t], p());
                    } else {
                        if xsv[t] == xsv[i as int] {
                            assert(0 <= t < xsv.len() && 0 <= i < xsv.len() && t != i);
                            assert(has_dup(xsv));
                            assert(false);
                        }
                        assert(eval_poly(b@, xsv[t]) == 0);
                        assert(eval_poly(b@, xsv[t]) * yi@ == 0) by (nonlinear_arith)
                            requires
                                eval_poly(b@, xsv[t]) == 0,
                        ;
                        assert((0int) % m == 0);
                        assert(eval_poly(term@, xsv[t]) == 0);
                        if t < i {
                            lemma_small_mod(ysv[t], p());
                        }
                    }
                }
            }
            acc = acc2;
            i += 1;
        }
        Ok(acc)
    }
}

} // verus!
