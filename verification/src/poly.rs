//! Univariate polynomials over the field.
//!
//! A polynomial is an ordered coefficient vector: index `i` holds the
//! coefficient of `x^i`, index 0 the constant term. The view of a polynomial
//! is the sequence of its coefficients' values, and every contract is stated
//! over that sequence with plain modular arithmetic. Arithmetic never
//! mutates its operands; each operation returns a new polynomial. The empty
//! coefficient vector is allowed and evaluates to zero.

use vstd::prelude::*;
use vstd::arithmetic::div_mod::lemma_add_mod_noop;
use vstd::arithmetic::div_mod::lemma_small_mod;
use crate::field::p;
use crate::field::FieldElement;
use crate::field::fe_add;
use crate::field::fe_mul;

verus! {

/// The values of a coefficient vector.
pub open spec fn vals(v: Seq<FieldElement>) -> Seq<nat> {
    v.map_values(|f: FieldElement| f@)
}

/// Reading the values of a coefficient vector is reading each coefficient.
pub proof fn lemma_vals_index(v: Seq<FieldElement>, i: int)
    requires
        0 <= i < v.len(),
    ensures
        vals(v)[i] == v[i]@,
{
}

/// Every coefficient of `s` is reduced modulo the field's order.
pub open spec fn wf_seq(s: Seq<nat>) -> bool {
    forall|i: int| 0 <= i < s.len() ==> s[i] < p()
}

/// Coefficient `k` of `s`, taking absent positions as zero.
pub open spec fn coef_at(s: Seq<nat>, k: int) -> nat {
    if 0 <= k < s.len() {
        s[k]
    } else {
        0
    }
}

/// Coefficient-wise modular sum over the longer length.
pub open spec fn add_polys(a: Seq<nat>, b: Seq<nat>) -> Seq<nat> {
    Seq::new(
        if a.len() >= b.len() {
            a.len()
        } else {
            b.len()
        },
        |k: int| (coef_at(a, k) + coef_at(b, k)) % p(),
    )
}

/// Every coefficient multiplied by `s` modulo the field's order.
pub open spec fn scale_poly(a: Seq<nat>, s: nat) -> Seq<nat> {
    Seq::new(a.len(), |k: int| (a[k] * s) % p())
}

/// The value of the polynomial `c` at `x`: the constant term plus `x` times
/// the value of the rest, reduced modulo the field's order at each step.
/// The empty polynomial evaluates to zero.
pub open spec fn eval_poly(c: Seq<nat>, x: nat) -> nat
    decreases c.len(),
{
    if c.len() == 0 {
        0
    } else {
        (c[0] + x * eval_poly(c.subrange(1, c.len() as int), x)) % p()
    }
}

/// Summand `j` of the convolution giving coefficient `k` of a product.
pub open spec fn conv_term(a: Seq<nat>, b: Seq<nat>, k: int, j: int) -> int {
    if 0 <= j < a.len() && 0 <= k - j < b.len() {
        (a[j] * b[k - j]) as int
    } else {
        0
    }
}

/// The first `i` summands of the convolution for coefficient `k`.
pub open spec fn conv_partial(a: Seq<nat>, b: Seq<nat>, k: int, i: int) -> int
    decreases i,
{
    if i <= 0 {
        0
    } else {
        conv_partial(a, b, k, i - 1) + conv_term(a, b, k, i - 1)
    }
}

/// Coefficient `k` of the product of `a` and `b`:
/// the sum over `i + i' == k` of `a[i] * b[i']`, modulo the field's order.
pub open spec fn conv_coef(a: Seq<nat>, b: Seq<nat>, k: int) -> nat {
    (conv_partial(a, b, k, a.len() as int) % (p() as int)) as nat
}

/// The full convolution of `a` and `b`, of length `a.len() + b.len() - 1`.
pub open spec fn mul_polys(a: Seq<nat>, b: Seq<nat>) -> Seq<nat> {
    if a.len() + b.len() >= 1 {
        Seq::new((a.len() + b.len() - 1) as nat, |k: int| conv_coef(a, b, k))
    } else {
        Seq::empty()
    }
}

/// An ordered sequence of field coefficients, constant term first.
pub struct Polynomial {
    pub coef: Vec<FieldElement>,
}

impl View for Polynomial {
    type V = Seq<nat>;

    open spec fn view(&self) -> Seq<nat> {
        vals(self.coef@)
    }
}

impl Polynomial {
    /// Every stored coefficient is reduced modulo the field's order.
    pub open spec fn wf(self) -> bool {
        wf_seq(self@)
    }

    /// Wraps an explicit coefficient list, constant term first.
    pub fn new(coef: Vec<FieldElement>) -> (r: Polynomial)
        ensures
            r@ == vals(coef@),
    {
        Polynomial { coef }
    }

    /// The zero polynomial `[0]`, the identity of polynomial sums.
    pub fn zero() -> (r: Polynomial)
        ensures
            r@ =~= seq![0nat],
            r.wf(),
    {
        let r = Polynomial { coef: vec![FieldElement::zero()] };
        proof {
            assert(r@ =~= seq![0nat]);
        }
        r
    }

    /// The one polynomial `[1]`, the identity of polynomial products.
    pub fn one() -> (r: Polynomial)
        ensures
            r@ =~= seq![1nat],
            r.wf(),
    {
        let r = Polynomial { coef: vec![FieldElement::one()] };
        proof {
            assert(r@ =~= seq![1nat]);
        }
        r
    }

    /// The degree as stored: one less than the coefficient count. Trailing
    /// zero coefficients are not stripped, so this is the stored degree,
    /// not necessarily the mathematical one.
    pub fn degree(&self) -> (r: usize)
        requires
            self@.len() >= 1,
        ensures
            r == self@.len() - 1,
    {
        self.coef.len() - 1
    }

    /// Coefficient-wise sum over the longer length; the shorter operand is
    /// padded with zeros, so the longer operand's upper coefficients carry
    /// over unchanged.
    pub fn add(&self, other: &Polynomial) -> (r: Polynomial)
        requires
            self.wf(),
            other.wf(),
        ensures
            r@ == add_polys(self@, other@),
            r@.len() == if self@.len() >= other@.len() { self@.len() } else { other@.len() },
            forall|k: int| other@.len() <= k < self@.len() ==> r@[k] == self@[k],
            forall|k: int| self@.len() <= k < other@.len() ==> r@[k] == other@[k],
            r.wf(),
    {
        let la = self.coef.len();
        let lb = other.coef.len();
        let n = if la >= lb { la } else { lb };
        let mut out: Vec<FieldElement> = Vec::new();
        let mut k: usize = 0;
        while k < n
            invariant
                k <= n,
                la == self@.len(),
                lb == other@.len(),
                n == if la >= lb { la } else { lb },
                self.wf(),
                other.wf(),
                out@.len() == k,
                forall|j: int| 0 <= j < k ==> out@[j]@ == (coef_at(self@, j) + coef_at(
                    other@,
                    j,
                )) % p(),
            decreases n - k,
        {
            let a = if k < la { self.coef[k] } else { FieldElement::zero() };
            let b = if k < lb { other.coef[k] } else { FieldElement::zero() };
            proof {
                if k < la {
                    lemma_vals_index(self.coef@, k as int);
                }
                if k < lb {
                    lemma_vals_index(other.coef@, k as int);
                }
                assert(a@ == coef_at(self@, k as int));
                assert(b@ == coef_at(other@, k as int));
            }
            out.push(fe_add(&a, &b));
            k += 1;
        }
        let r = Polynomial { coef: out };
        proof {
            assert forall|j: int| 0 <= j < out@.len() implies r@[j] == (coef_at(self@, j)
                + coef_at(other@, j)) % p() by {
                lemma_vals_index(out@, j);
            }
            assert(r@ =~= add_polys(self@, other@));
            assert forall|j: int| other@.len() <= j < self@.len() implies r@[j] == self@[j] by {
                lemma_small_mod(self@[j], p());
            }
            assert forall|j: int| self@.len() <= j < other@.len() implies r@[j] == other@[j] by {
                lemma_small_mod(other@[j], p());
            }
        }
        r
    }

    /// Every coefficient multiplied by the scalar `s`, modulo the field's
    /// order; the length is unchanged.
    pub fn scalar_mul(&self, s: &FieldElement) -> (r: Polynomial)
        requires
            self.wf(),
            s.wf(),
        ensures
            r@ == scale_poly(self@, s@),
            r@.len() == self@.len(),
            r.wf(),
    {
        let mut out: Vec<FieldElement> = Vec::new();
        let mut k: usize = 0;
        let n = self.coef.len();
        while k < n
            invariant
                k <= n,
                n == self@.len(),
                self.wf(),
                s.wf(),
                out@.len() == k,
                forall|j: int| 0 <= j < k ==> out@[j]@ == (self@[j] * s@) % p(),
            decreases n - k,
        {
            proof {
                lemma_vals_index(self.coef@, k as int);
            }
            out.push(fe_mul(&self.coef[k], s));
            k += 1;
        }
        let r = Polynomial { coef: out };
        proof {
            assert forall|j: int| 0 <= j < out@.len() implies r@[j] == (self@[j] * s@) % p() by {
                lemma_vals_index(out@, j);
            }
            assert(r@ =~= scale_poly(self@, s@));
        }
        r
    }

    /// The value of the polynomial at `x`, by Horner's rule from the highest
    /// stored coefficient down; the empty polynomial evaluates to zero.
    pub fn evaluate(&self, x: &FieldElement) -> (r: FieldElement)
        requires
            self.wf(),
            x.wf(),
        ensures
            r@ == eval_poly(self@, x@),
            r.wf(),
    {
        let n = self.coef.len();
        if n == 0 {
            return FieldElement::zero();
        }
        let mut acc = self.coef[n - 1];
        proof {
            lemma_vals_index(self.coef@, n - 1);
            let s1 = self@.subrange(n - 1, n as int);
            assert(s1.subrange(1, s1.len() as int) =~= Seq::<nat>::empty());
            assert(eval_poly(Seq::<nat>::empty(), x@) == 0);
            assert(eval_poly(s1, x@) == (s1[0] + x@ * 0) % p());
            lemma_small_mod(self@[n - 1], p());
            assert(acc@ == eval_poly(s1, x@));
        }
        let mut i: usize = n - 1;
        while i > 0
            invariant
                i < n,
                n == self@.len(),
                self.wf(),
                x.wf(),
                acc@ == eval_poly(self@.subrange(i as int, n as int), x@),
                acc.wf(),
            decreases i,
        {
            i -= 1;
            proof {
                lemma_vals_index(self.coef@, i as int);
            }
            let m = fe_mul(&acc, x);
            let next = fe_add(&self.coef[i], &m);
            proof {
                let tail = self@.subrange(i + 1, n as int);
                let whole = self@.subrange(i as int, n as int);
                assert(whole[0] == self@[i as int]);
                assert(whole.subrange(1, whole.len() as int) =~= tail);
                lemma_small_mod(self@[i as int], p());
                lemma_add_mod_noop(self@[i as int] as int, (x@ * acc@) as int, p() as int);
                assert(next@ == (self@[i as int] + x@ * eval_poly(tail, x@)) % p());
                assert(next@ == eval_poly(whole, x@));
            }
            acc = next;
        }
        proof {
            assert(self@.subrange(0, n as int) =~= self@);
        }
        acc
    }
}

/// The views of a sequence of polynomials.
pub open spec fn poly_views(v: Seq<Polynomial>) -> Seq<Seq<nat>> {
    v.map_values(|q: Polynomial| q@)
}

/// The sum of a sequence of polynomials, folded left from the zero
/// polynomial `[0]` by `add_polys`.
pub open spec fn sum_polys(s: Seq<Seq<nat>>) -> Seq<nat>
    decreases s.len(),
{
    if s.len() == 0 {
        seq![0nat]
    } else {
        add_polys(sum_polys(s.drop_last()), s.last())
    }
}

/// The product of a sequence of polynomials, folded left from the one
/// polynomial `[1]` by `mul_polys`.
pub open spec fn prod_polys(s: Seq<Seq<nat>>) -> Seq<nat>
    decreases s.len(),
{
    if s.len() == 0 {
        seq![1nat]
    } else {
        mul_polys(prod_polys(s.drop_last()), s.last())
    }
}

/// The length of the product of polynomials with the given coefficient
/// sequences: one more than the sum of their stored degrees.
pub open spec fn prod_len(s: Seq<Seq<nat>>) -> int
    decreases s.len(),
{
    if s.len() == 0 {
        1
    } else {
        prod_len(s.drop_last()) + s.last().len() - 1
    }
}

/// Over nonempty factors the product's length grows with each factor taken
/// in, so every prefix product is no longer than the whole.
pub proof fn lemma_prod_len_mono(s: Seq<Seq<nat>>, j: int)
    requires
        0 <= j <= s.len(),
        forall|i: int| 0 <= i < s.len() ==> #[trigger] s[i].len() >= 1,
    ensures
        prod_len(s.subrange(0, j)) <= prod_len(s),
    decreases s.len() - j,
{
    if j == s.len() {
        assert(s.subrange(0, j) =~= s);
    } else {
        lemma_prod_len_mono(s, j + 1);
        let sj = s.subrange(0, j + 1);
        assert(sj.drop_last() =~= s.subrange(0, j));
        assert(prod_len(s.subrange(0, j)) <= prod_len(sj));
    }
}

impl Polynomial {
    /// The full convolution of the two coefficient vectors: coefficient `k`
    /// of the result is the sum over `i + j == k` of `self[i] * other[j]`
    /// modulo the field's order, and the result's length is the sum of the
    /// operands' lengths less one.
    pub fn mul(&self, other: &Polynomial) -> (r: Polynomial)
        requires
            self.wf(),
            other.wf(),
            self@.len() >= 1,
            other@.len() >= 1,
            self@.len() + other@.len() - 1 <= usize::MAX,
        ensures
            r@ == mul_polys(self@, other@),
            r@.len() == self@.len() + other@.len() - 1,
            r.wf(),
    {
        let la = self.coef.len();
        let lb = other.coef.len();
        let rlen = la - 1 + lb;
        let mut out: Vec<FieldElement> = Vec::new();
        let mut k: usize = 0;
        while k < rlen
            invariant
                k <= rlen,
                la == self@.len(),
                lb == other@.len(),
                1 <= la,
                1 <= lb,
                rlen == la + lb - 1,
                self.wf(),
                other.wf(),
                out@.len() == k,
                forall|j: int| 0 <= j < k ==> out@[j]@ == conv_coef(self@, other@, j),
            decreases rlen - k,
        {
            let mut acc = FieldElement::zero();
            let mut j: usize = 0;
            while j < la
                invariant
                    j <= la,
                    k < rlen,
                    la == self@.len(),
                    lb == other@.len(),
                    rlen == la + lb - 1,
                    self.wf(),
                    other.wf(),
                    acc@ == conv_partial(self@, other@, k as int, j as int) % (p() as int),
                decreases la - j,
            {
                if j <= k && k - j < lb {
                    proof {
                        lemma_vals_index(self.coef@, j as int);
                        lemma_vals_index(other.coef@, k - j);
                    }
                    let t = fe_mul(&self.coef[j], &other.coef[k - j]);
                    let acc2 = fe_add(&acc, &t);
                    proof {
                        let ca = conv_partial(self@, other@, k as int, j as int);
                        let ct = conv_term(self@, other@, k as int, j as int);
                        assert(ct == self@[j as int] * other@[k - j]);
                        lemma_add_mod_noop(ca, ct, p() as int);
                        assert(acc2@ == (ca + ct) % (p() as int));
                        assert(conv_partial(self@, other@, k as int, j + 1) == ca + ct);
                    }
                    acc = acc2;
                } else {
                    proof {
                        assert(conv_term(self@, other@, k as int, j as int) == 0);
                    }
                }
                j += 1;
            }
            out.push(acc);
            k += 1;
        }
        let r = Polynomial { coef: out };
        proof {
            assert forall|j: int| 0 <= j < out@.len() implies r@[j] == conv_coef(
                self@,
                other@,
                j,
            ) by {
                lemma_vals_index(out@, j);
            }
            assert(r@ =~= mul_polys(self@, other@));
        }
        r
    }

    /// The sum of the given polynomials, folded left from the zero
    /// polynomial `[0]` by `add`; the fold order does not change the result,
    /// since coefficient-wise modular addition is associative and
    /// commutative.
    pub fn sum_of(polys: &Vec<Polynomial>) -> (r: Polynomial)
        requires
            forall|i: int| 0 <= i < polys@.len() ==> (#[trigger] polys@[i]).wf(),
        ensures
            r@ == sum_polys(poly_views(polys@)),
            r.wf(),
    {
        let mut result = Polynomial::zero();
        let mut i: usize = 0;
        while i < polys.len()
            invariant
                i <= polys@.len(),
                forall|t: int| 0 <= t < polys@.len() ==> (#[trigger] polys@[t]).wf(),
                result@ == sum_polys(poly_views(polys@).subrange(0, i as int)),
                result.wf(),
            decreases polys@.len() - i,
        {
            proof {
                let pv = poly_views(polys@);
                assert(pv.subrange(0, i + 1).drop_last() =~= pv.subrange(0, i as int));
                assert(pv.subrange(0, i + 1).last() == polys@[i as int]@);
            }
            result = result.add(&polys[i]);
            i += 1;
        }
        proof {
            assert(poly_views(polys@).subrange(0, polys@.len() as int) =~= poly_views(polys@));
        }
        result
    }

    /// The product of the given nonempty polynomials, folded left from the
    /// one polynomial `[1]` by `mul`; the fold order does not change the
    /// result, since the field's arithmetic is associative and commutative.
    pub fn product_of(polys: &Vec<Polynomial>) -> (r: Polynomial)
        requires
            forall|i: int|
                0 <= i < polys@.len() ==> (#[trigger] polys@[i]).wf() && polys@[i]@.len() >= 1,
            prod_len(poly_views(polys@)) <= usize::MAX,
        ensures
            r@ == prod_polys(poly_views(polys@)),
            r@.len() == prod_len(poly_views(polys@)),
            r.wf(),
    {
        let mut result = Polynomial::one();
        let mut i: usize = 0;
        proof {
            assert forall|t: int|
                0 <= t < poly_views(polys@).len() implies #[trigger] poly_views(polys@)[t].len()
                >= 1 by {
                assert(poly_views(polys@)[t] == polys@[t]@);
            }
        }
        while i < polys.len()
            invariant
                i <= polys@.len(),
                forall|t: int|
                    0 <= t < polys@.len() ==> (#[trigger] polys@[t]).wf() && polys@[t]@.len() >= 1,
                forall|t: int|
                    0 <= t < poly_views(polys@).len() ==> #[trigger] poly_views(polys@)[t].len()
                        >= 1,
                prod_len(poly_views(polys@)) <= usize::MAX,
                result@ == prod_polys(poly_views(polys@).subrange(0, i as int)),
                result@.len() == prod_len(poly_views(polys@).subrange(0, i as int)),
                result@.len() >= 1,
                result.wf(),
            decreases polys@.len() - i,
        {
            proof {
                let pv = poly_views(polys@);
                assert(pv.subrange(0, i + 1).drop_last() =~= pv.subrange(0, i as int));
                assert(pv.subrange(0, i + 1).last() == polys@[i as int]@);
                lemma_prod_len_mono(pv, i + 1);
            }
            result = result.mul(&polys[i]);
            i += 1;
        }
        proof {
            assert(poly_views(polys@).subrange(0, polys@.len() as int) =~= poly_views(polys@));
        }
        result
    }
}

} // verus!
