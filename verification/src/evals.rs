//! Laws of polynomial evaluation.
//!
//! Evaluation respects the polynomial arithmetic: the value of a sum is the
//! sum of the values, of a scaled polynomial the scaled value, of a product
//! the product of the values, all modulo the field's order. These laws carry
//! the interpolator's contract: each Lagrange basis polynomial is one at its
//! own point and zero at the others, so the interpolating polynomial passes
//! through every given point.

use vstd::prelude::*;
use vstd::arithmetic::div_mod::lemma_add_mod_noop;
use vstd::arithmetic::div_mod::lemma_add_mod_noop_right;
use vstd::arithmetic::div_mod::lemma_mul_mod_noop_left;
use vstd::arithmetic::div_mod::lemma_mul_mod_noop_right;
use vstd::arithmetic::div_mod::lemma_small_mod;
use vstd::arithmetic::div_mod::lemma_mod_self_0;
use crate::field::p;
use crate::poly::coef_at;
use crate::poly::eval_poly;
use crate::poly::scale_poly;
use crate::poly::add_polys;
use crate::poly::mul_polys;
use crate::poly::conv_term;
use crate::poly::conv_partial;
use crate::poly::conv_coef;
use crate::poly::prod_polys;
use crate::poly::wf_seq;
use crate::interp::lin_poly;
use crate::interp::factor_seq;
use crate::interp::numer;

verus! {

/// The coefficients above the constant term; the empty polynomial is its
/// own tail.
pub open spec fn tail_of(s: Seq<nat>) -> Seq<nat> {
    if s.len() == 0 {
        s
    } else {
        s.subrange(1, s.len() as int)
    }
}

/// Evaluation reads the constant term and recurses on the tail; the empty
/// polynomial obeys the same shape, both sides being zero.
pub proof fn lemma_eval_head_tail(c: Seq<nat>, x: nat)
    ensures
        eval_poly(c, x) == (coef_at(c, 0) + x * eval_poly(tail_of(c), x)) % p(),
{
    if c.len() == 0 {
        assert(tail_of(c) == c);
        assert(eval_poly(c, x) == 0);
        assert(x * eval_poly(tail_of(c), x) == 0) by (nonlinear_arith)
            requires
                eval_poly(tail_of(c), x) == 0,
        ;
        assert((0nat + 0nat) % p() == 0nat);
    }
}

/// The value of a scaled polynomial is the scaled value.
pub proof fn lemma_eval_scale(a: Seq<nat>, s: nat, x: nat)
    ensures
        eval_poly(scale_poly(a, s), x) == (eval_poly(a, x) * s) % p(),
    decreases a.len(),
{
    let m = p() as int;
    if a.len() == 0 {
        assert(scale_poly(a, s) =~= Seq::<nat>::empty());
        assert(eval_poly(a, x) == 0);
        assert((eval_poly(a, x) * s) == 0) by (nonlinear_arith)
            requires
                eval_poly(a, x) == 0,
        ;
    } else {
        let at = tail_of(a);
        lemma_eval_scale(at, s, x);
        let ea: int = eval_poly(at, x) as int;
        let a0: int = a[0] as int;
        let xi: int = x as int;
        let si: int = s as int;
        assert(tail_of(scale_poly(a, s)) =~= scale_poly(at, s));
        lemma_eval_head_tail(scale_poly(a, s), x);
        assert(coef_at(scale_poly(a, s), 0) == (a0 * si) % m);
        // left side: ((a0*s) % p + x * ((ea*s) % p)) % p
        assert(eval_poly(scale_poly(a, s), x) == ((a0 * si) % m + xi * ((ea * si) % m)) % m);
        lemma_mul_mod_noop_right(xi, ea * si, m);
        lemma_add_mod_noop_right((a0 * si) % m, xi * (ea * si), m);
        lemma_add_mod_noop_right((a0 * si) % m, (xi * (ea * si)) % m, m);
        assert(((a0 * si) % m + xi * ((ea * si) % m)) % m == ((a0 * si) % m + xi * (ea * si))
            % m) by {
            assert((xi * ((ea * si) % m)) % m == (xi * (ea * si)) % m);
            lemma_add_mod_noop_right((a0 * si) % m, xi * ((ea * si) % m), m);
        }
        lemma_add_mod_noop((a0 * si), xi * (ea * si), m);
        assert(((a0 * si) % m + (xi * (ea * si)) % m) % m == (a0 * si + xi * (ea * si)) % m);
        // right side: ((a0 + x*ea) % p * s) % p
        assert(eval_poly(a, x) == (a0 + xi * ea) % m);
        lemma_mul_mod_noop_left(a0 + xi * ea, si, m);
        assert((eval_poly(a, x) * s) % p() == ((a0 + xi * ea) * si) % m);
        assert((a0 + xi * ea) * si == a0 * si + xi * (ea * si)) by (nonlinear_arith);
    }
}

/// The tail of a sum is the sum of the tails.
proof fn lemma_add_polys_tail(a: Seq<nat>, b: Seq<nat>)
    requires
        a.len() + b.len() >= 1,
    ensures
        tail_of(add_polys(a, b)) =~= add_polys(tail_of(a), tail_of(b)),
{
    assert forall|k: int| 0 <= k < tail_of(add_polys(a, b)).len() implies tail_of(add_polys(a, b))[
        k
    ] == add_polys(tail_of(a), tail_of(b))[k] by {
        assert(coef_at(tail_of(a), k) == coef_at(a, k + 1));
        assert(coef_at(tail_of(b), k) == coef_at(b, k + 1));
    }
}

/// Rearranging one evaluation step of a sum: modular reduction commutes
/// with adding the constant terms and the scaled tail values.
proof fn lemma_mod_add_shape(a0: int, b0: int, ea: int, eb: int, xi: int, m: int)
    requires
        m > 0,
    ensures
        ((a0 + b0) % m + xi * ((ea + eb) % m)) % m == ((a0 + xi * ea) % m + (b0 + xi * eb) % m)
            % m,
{
    lemma_mul_mod_noop_right(xi, ea + eb, m);
    lemma_add_mod_noop_right((a0 + b0) % m, xi * ((ea + eb) % m), m);
    lemma_add_mod_noop_right((a0 + b0) % m, xi * (ea + eb), m);
    assert(((a0 + b0) % m + xi * ((ea + eb) % m)) % m == ((a0 + b0) % m + xi * (ea + eb)) % m);
    lemma_add_mod_noop(a0 + b0, xi * (ea + eb), m);
    assert(((a0 + b0) % m + xi * (ea + eb)) % m == (a0 + b0 + xi * (ea + eb)) % m);
    lemma_add_mod_noop(a0 + xi * ea, b0 + xi * eb, m);
    assert(xi * (ea + eb) == xi * ea + xi * eb) by (nonlinear_arith);
}

/// The value of a sum of polynomials is the sum of the values.
pub proof fn lemma_eval_add(a: Seq<nat>, b: Seq<nat>, x: nat)
    ensures
        eval_poly(add_polys(a, b), x) == (eval_poly(a, x) + eval_poly(b, x)) % p(),
    decreases a.len() + b.len(),
{
    let m = p() as int;
    if a.len() == 0 && b.len() == 0 {
        assert(add_polys(a, b) =~= Seq::<nat>::empty());
    } else {
        let at = tail_of(a);
        let bt = tail_of(b);
        lemma_eval_add(at, bt, x);
        lemma_add_polys_tail(a, b);
        let ea: int = eval_poly(at, x) as int;
        let eb: int = eval_poly(bt, x) as int;
        let a0: int = coef_at(a, 0) as int;
        let b0: int = coef_at(b, 0) as int;
        let xi: int = x as int;
        lemma_eval_head_tail(add_polys(a, b), x);
        lemma_eval_head_tail(a, x);
        lemma_eval_head_tail(b, x);
        assert(coef_at(add_polys(a, b), 0) == (a0 + b0) % m);
        assert(eval_poly(add_polys(a, b), x) == ((a0 + b0) % m + xi * ((ea + eb) % m)) % m);
        lemma_mod_add_shape(a0, b0, ea, eb, xi, m);
        assert(eval_poly(a, x) == (a0 + xi * ea) % m);
        assert(eval_poly(b, x) == (b0 + xi * eb) % m);
    }
}

/// `s` with a zero constant term pushed in front: the polynomial `x * s`.
pub open spec fn shift_poly(s: Seq<nat>) -> Seq<nat> {
    seq![0nat] + s
}

/// A convolution with a negative target coefficient has no summands.
proof fn lemma_conv_neg_k(a: Seq<nat>, b: Seq<nat>, k: int, i: int)
    requires
        k < 0,
    ensures
        conv_partial(a, b, k, i) == 0,
    decreases i,
{
    if i > 0 {
        lemma_conv_neg_k(a, b, k, i - 1);
        assert(conv_term(a, b, k, i - 1) == 0);
    }
}

/// Splitting off the first summand of a convolution: the rest is the
/// convolution of the tail against the next lower coefficient.
proof fn lemma_conv_shift(a: Seq<nat>, b: Seq<nat>, k: int, i: int)
    requires
        a.len() >= 1,
        1 <= i,
    ensures
        conv_partial(a, b, k, i) == conv_term(a, b, k, 0) + conv_partial(
            tail_of(a),
            b,
            k - 1,
            i - 1,
        ),
    decreases i,
{
    let at = tail_of(a);
    assert(conv_partial(a, b, k, i) == conv_partial(a, b, k, i - 1) + conv_term(a, b, k, i - 1));
    if i == 1 {
        assert(conv_partial(a, b, k, 0) == 0);
        assert(conv_partial(at, b, k - 1, 0) == 0);
    } else {
        lemma_conv_shift(a, b, k, i - 1);
        assert(conv_term(a, b, k, i - 1) == conv_term(at, b, k - 1, i - 2)) by {
            if 0 <= i - 1 < a.len() && 0 <= k - (i - 1) < b.len() {
                assert(at[i - 2] == a[i - 1]);
            }
        }
        assert(conv_partial(at, b, k - 1, i - 1) == conv_partial(at, b, k - 1, i - 2)
            + conv_term(at, b, k - 1, i - 2));
    }
}

/// A product splits at the head of its left factor: the right factor scaled
/// by the head coefficient, plus the shifted product with the tail.
proof fn lemma_mul_decomp(a: Seq<nat>, b: Seq<nat>)
    requires
        a.len() >= 1,
        b.len() >= 1,
    ensures
        mul_polys(a, b) =~= add_polys(scale_poly(b, a[0]), shift_poly(mul_polys(tail_of(a), b))),
{
    let m = p() as int;
    let at = tail_of(a);
    let la = a.len() as int;
    let lb = b.len() as int;
    let rhs = add_polys(scale_poly(b, a[0]), shift_poly(mul_polys(at, b)));
    assert(mul_polys(a, b).len() == la + lb - 1);
    assert(shift_poly(mul_polys(at, b)).len() == la + lb - 1 || (la == 1 && shift_poly(
        mul_polys(at, b),
    ).len() == lb));
    assert(rhs.len() == la + lb - 1);
    assert forall|k: int| 0 <= k < la + lb - 1 implies mul_polys(a, b)[k] == rhs[k] by {
        lemma_conv_shift(a, b, k, la);
        let t0 = conv_term(a, b, k, 0);
        let cp = conv_partial(at, b, k - 1, la - 1);
        assert(conv_partial(a, b, k, la) == t0 + cp);
        if k == 0 {
            lemma_conv_neg_k(at, b, k - 1, la - 1);
            assert(coef_at(shift_poly(mul_polys(at, b)), 0) == 0);
            assert(rhs[k] == (coef_at(scale_poly(b, a[0]), 0) + 0) % p());
            assert(coef_at(scale_poly(b, a[0]), 0) == (b[0] * a[0]) % p());
            lemma_add_mod_noop(t0, 0, m);
            assert(((t0 % m) + (0int % m)) % m == t0 % m);
        } else {
            assert(coef_at(shift_poly(mul_polys(at, b)), k) == conv_coef(at, b, k - 1)) by {
                assert(shift_poly(mul_polys(at, b))[k] == mul_polys(at, b)[k - 1]);
            }
            assert(coef_at(scale_poly(b, a[0]), k) == (t0 % m)) by {
                if 0 <= k < lb {
                    assert(scale_poly(b, a[0])[k] == (b[k] * a[0]) % p());
                    assert(b[k] * a[0] == a[0] * b[k]) by (nonlinear_arith);
                    assert(t0 == a[0] * b[k]);
                } else {
                    assert(t0 == 0);
                }
            }
            lemma_add_mod_noop(t0, cp, m);
            assert(rhs[k] == ((t0 % m) + (cp % m)) % m);
            assert(mul_polys(a, b)[k] == (t0 + cp) % m);
        }
    }
}

/// Shifting multiplies the value by `x`.
proof fn lemma_eval_shift(s: Seq<nat>, x: nat)
    ensures
        eval_poly(shift_poly(s), x) == (x * eval_poly(s, x)) % p(),
{
    assert(shift_poly(s).len() >= 1);
    assert(tail_of(shift_poly(s)) =~= s);
    lemma_eval_head_tail(shift_poly(s), x);
    assert(coef_at(shift_poly(s), 0) == 0);
}

/// Rearranging one evaluation step of a product.
proof fn lemma_mod_mul_shape(a0: int, ea: int, eb: int, xi: int, m: int)
    requires
        m > 0,
    ensures
        ((eb * a0) % m + (xi * ((ea * eb) % m)) % m) % m == (((a0 + xi * ea) % m) * eb) % m,
{
    lemma_mul_mod_noop_right(xi, ea * eb, m);
    assert((xi * ((ea * eb) % m)) % m == (xi * (ea * eb)) % m);
    lemma_add_mod_noop(eb * a0, xi * (ea * eb), m);
    assert(((eb * a0) % m + (xi * (ea * eb)) % m) % m == (eb * a0 + xi * (ea * eb)) % m);
    lemma_mul_mod_noop_left(a0 + xi * ea, eb, m);
    assert((((a0 + xi * ea) % m) * eb) % m == ((a0 + xi * ea) * eb) % m);
    assert(eb * a0 + xi * (ea * eb) == (a0 + xi * ea) * eb) by (nonlinear_arith);
}

/// The value of a product of polynomials is the product of the values.
pub proof fn lemma_eval_mul(a: Seq<nat>, b: Seq<nat>, x: nat)
    requires
        a.len() >= 1,
        b.len() >= 1,
    ensures
        eval_poly(mul_polys(a, b), x) == (eval_poly(a, x) * eval_poly(b, x)) % p(),
    decreases a.len(),
{
    let m = p() as int;
    let at = tail_of(a);
    let a0: int = a[0] as int;
    let xi: int = x as int;
    let eb: int = eval_poly(b, x) as int;
    lemma_eval_head_tail(a, x);
    let ea: int = eval_poly(at, x) as int;
    if a.len() == 1 {
        assert(mul_polys(a, b) =~= scale_poly(b, a[0])) by {
            assert forall|k: int| 0 <= k < b.len() implies mul_polys(a, b)[k] == scale_poly(
                b,
                a[0],
            )[k] by {
                lemma_conv_shift(a, b, k, 1);
                assert(conv_partial(at, b, k - 1, 0) == 0);
                assert(conv_partial(a, b, k, 1) == conv_term(a, b, k, 0));
                assert(scale_poly(b, a[0])[k] == (b[k] * a[0]) % p());
                assert(b[k] * a[0] == a[0] * b[k]) by (nonlinear_arith);
                assert(conv_term(a, b, k, 0) == (a[0] * b[k]) as int);
            }
        }
        lemma_eval_scale(b, a[0], x);
        assert(eval_poly(at, x) == 0);
        assert(xi * ea == 0) by (nonlinear_arith)
            requires
                ea == 0,
        ;
        assert(eval_poly(a, x) == a0 % m);
        lemma_mul_mod_noop_left(a0, eb, m);
        assert((eval_poly(a, x) * eb) % m == (a0 * eb) % m);
        assert(eb * a0 == a0 * eb) by (nonlinear_arith);
    } else {
        lemma_mul_decomp(a, b);
        lemma_eval_mul(at, b, x);
        lemma_eval_add(scale_poly(b, a[0]), shift_poly(mul_polys(at, b)), x);
        lemma_eval_scale(b, a[0], x);
        lemma_eval_shift(mul_polys(at, b), x);
        assert(eval_poly(mul_polys(a, b), x) == ((eb * a0) % m + (xi * ((ea * eb) % m)) % m)
            % m) by {
            lemma_add_mod_noop(eb * a0, xi * ((ea * eb) % m), m);
        }
        lemma_mod_mul_shape(a0, ea, eb, xi, m);
        assert(eval_poly(a, x) == (a0 + xi * ea) % m);
    }
}

/// The zero polynomial vanishes everywhere.
pub proof fn lemma_eval_zero_poly(x: nat)
    ensures
        eval_poly(seq![0nat], x) == 0,
{
    lemma_eval_head_tail(seq![0nat], x);
    assert(tail_of(seq![0nat]) =~= Seq::<nat>::empty());
    assert(eval_poly(Seq::<nat>::empty(), x) == 0);
    assert(x * eval_poly(tail_of(seq![0nat]), x) == 0) by (nonlinear_arith)
        requires
            eval_poly(tail_of(seq![0nat]), x) == 0,
    ;
    assert((0nat + 0nat) % p() == 0nat);
}

/// A linear factor's value: its constant term plus the point.
pub proof fn lemma_eval_lin(v: nat, x: nat)
    ensures
        eval_poly(lin_poly(v), x) == (lin_poly(v)[0] + x) % p(),
{
    let l = lin_poly(v);
    lemma_eval_head_tail(l, x);
    assert(tail_of(l) =~= seq![1nat]);
    assert(eval_poly(seq![1nat], x) == 1) by {
        lemma_eval_head_tail(seq![1nat], x);
        assert(tail_of(seq![1nat]) =~= Seq::<nat>::empty());
        assert(eval_poly(Seq::<nat>::empty(), x) == 0);
        assert(x * eval_poly(tail_of(seq![1nat]), x) == 0) by (nonlinear_arith)
            requires
                eval_poly(tail_of(seq![1nat]), x) == 0,
        ;
        lemma_small_mod(1nat, p());
    }
    assert(x * 1nat == x) by (nonlinear_arith);
}

/// A linear factor vanishes at its own root.
pub proof fn lemma_eval_lin_at_root(v: nat)
    requires
        v < p(),
    ensures
        eval_poly(lin_poly(v), v) == 0,
{
    lemma_eval_lin(v, v);
    let m = p() as int;
    lemma_add_mod_noop(m - v, v as int, m);
    lemma_small_mod(v, p());
    lemma_mod_self_0(m);
    assert(((m - v) % m + v) % m == 0);
}

/// A product of nonempty polynomials is nonempty.
proof fn lemma_prod_polys_len(fs: Seq<Seq<nat>>)
    requires
        forall|t: int| 0 <= t < fs.len() ==> (#[trigger] fs[t]).len() >= 1,
    ensures
        prod_polys(fs).len() >= 1,
    decreases fs.len(),
{
    if fs.len() > 0 {
        assert forall|t: int| 0 <= t < fs.drop_last().len() implies (#[trigger] fs.drop_last()[
            t
        ]).len() >= 1 by {
            assert(fs.drop_last()[t] == fs[t]);
        }
        lemma_prod_polys_len(fs.drop_last());
        assert(fs.last().len() >= 1);
    }
}

/// A product vanishes wherever one of its factors does.
proof fn lemma_eval_prod_zero(fs: Seq<Seq<nat>>, x: nat, u: int)
    requires
        forall|t: int| 0 <= t < fs.len() ==> (#[trigger] fs[t]).len() >= 1,
        0 <= u < fs.len(),
        eval_poly(fs[u], x) == 0,
    ensures
        eval_poly(prod_polys(fs), x) == 0,
    decreases fs.len(),
{
    let m = p() as int;
    let fd = fs.drop_last();
    let last = fs.last();
    assert forall|t: int| 0 <= t < fd.len() implies (#[trigger] fd[t]).len() >= 1 by {
        assert(fd[t] == fs[t]);
    }
    lemma_prod_polys_len(fd);
    let ep: int = eval_poly(prod_polys(fd), x) as int;
    let el: int = eval_poly(last, x) as int;
    lemma_eval_mul(prod_polys(fd), last, x);
    if u == fs.len() - 1 {
        assert(el == 0);
        assert(ep * el == 0) by (nonlinear_arith)
            requires
                el == 0,
        ;
    } else {
        assert(fd[u] == fs[u]);
        lemma_eval_prod_zero(fd, x, u);
        assert(ep == 0);
        assert(ep * el == 0) by (nonlinear_arith)
            requires
                ep == 0,
        ;
    }
    assert((0int) % m == 0);
}

/// Every factor of a basis numerator is a linear polynomial.
proof fn lemma_factor_seq_shape(x: nat, xs: Seq<nat>)
    ensures
        forall|u: int|
            0 <= u < factor_seq(x, xs).len() ==> (#[trigger] factor_seq(x, xs)[u]).len() == 2,
    decreases xs.len(),
{
    if xs.len() > 0 {
        lemma_factor_seq_shape(x, xs.drop_last());
        let fd = factor_seq(x, xs.drop_last());
        assert forall|u: int| 0 <= u < factor_seq(x, xs).len() implies (#[trigger] factor_seq(
            x,
            xs,
        )[u]).len() == 2 by {
            if xs.last() != x && u == factor_seq(x, xs).len() - 1 {
                assert(factor_seq(x, xs)[u] == lin_poly(xs.last()));
            } else {
                assert(factor_seq(x, xs)[u] == fd[u]);
            }
        }
    }
}

/// The numerator for `x` keeps a linear factor for every other member of
/// the interpolating set.
proof fn lemma_factor_contains(x: nat, xs: Seq<nat>, t: int)
    requires
        0 <= t < xs.len(),
        xs[t] != x,
    ensures
        exists|u: int|
            0 <= u < factor_seq(x, xs).len() && factor_seq(x, xs)[u] == lin_poly(xs[t]),
    decreases xs.len(),
{
    let fs = factor_seq(x, xs);
    if t == xs.len() - 1 {
        assert(xs.last() == xs[t]);
        assert(fs[fs.len() - 1] == lin_poly(xs[t]));
    } else {
        let xd = xs.drop_last();
        assert(xd[t] == xs[t]);
        lemma_factor_contains(x, xd, t);
        let u = choose|u: int|
            0 <= u < factor_seq(x, xd).len() && factor_seq(x, xd)[u] == lin_poly(xd[t]);
        assert(fs[u] == lin_poly(xs[t]));
    }
}

/// The basis numerator for `x` vanishes at every other member of the
/// interpolating set.
pub proof fn lemma_eval_numer_at_other(x: nat, xs: Seq<nat>, t: int)
    requires
        wf_seq(xs),
        0 <= t < xs.len(),
        xs[t] != x,
    ensures
        eval_poly(numer(x, xs), xs[t]) == 0,
{
    lemma_factor_contains(x, xs, t);
    let u = choose|u: int|
        0 <= u < factor_seq(x, xs).len() && factor_seq(x, xs)[u] == lin_poly(xs[t]);
    lemma_factor_seq_shape(x, xs);
    lemma_eval_lin_at_root(xs[t]);
    lemma_eval_prod_zero(factor_seq(x, xs), xs[t], u);
}


/// Coefficient-wise modular addition is commutative, so a sum of
/// polynomials may combine its operands in either order.
pub proof fn lemma_add_polys_comm(a: Seq<nat>, b: Seq<nat>)
    ensures
        add_polys(a, b) =~= add_polys(b, a),
{
}

/// Coefficient-wise modular addition is associative, so a sum of
/// polynomials may be grouped in any way.
pub proof fn lemma_add_polys_assoc(a: Seq<nat>, b: Seq<nat>, c: Seq<nat>)
    ensures
        add_polys(add_polys(a, b), c) =~= add_polys(a, add_polys(b, c)),
{
    let m = p() as int;
    assert forall|k: int|
        0 <= k < add_polys(add_polys(a, b), c).len() implies add_polys(add_polys(a, b), c)[k]
        == add_polys(a, add_polys(b, c))[k] by {
        let x = coef_at(a, k) as int;
        let y = coef_at(b, k) as int;
        let z = coef_at(c, k) as int;
        assert(coef_at(add_polys(a, b), k) == ((x + y) % m) as nat);
        assert(coef_at(add_polys(b, c), k) == ((y + z) % m) as nat);
        lemma_add_mod_noop_right(z, x + y, m);
        assert((z + (x + y) % m) % m == (z + (x + y)) % m);
        lemma_add_mod_noop_right(x, y + z, m);
        assert((x + (y + z) % m) % m == (x + (y + z)) % m);
    }
}

} // verus!
