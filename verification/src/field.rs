//! The prime field underlying the secret-sharing scheme.
//!
//! An element is held in canonical form as four 64-bit limbs, least
//! significant first; its mathematical value is the limbs read in base 2^64,
//! and a well-formed element's value lies in `[0, p())`. The modular
//! arithmetic itself is done by the `ark-bn254` prime-field type behind
//! trusted wrappers; everything stated about an element's value is in terms
//! of plain modular arithmetic over `nat`.

use vstd::prelude::*;
use ark_ff::Field;
use ark_ff::PrimeField;
use ark_ff::UniformRand;
use crate::ShamirError;

verus! {

/// The field's order: the BN254 base-field prime.
pub open spec fn p() -> nat {
    21888242871839275222246405745257275088696311157297823662689037894645226208583nat
}

/// Base in which the limbs are read.
pub open spec fn b64() -> nat {
    0x1_0000_0000_0000_0000nat
}

/// An element of the field, as four little-endian limbs in canonical form.
#[derive(Clone, Copy, PartialEq, Eq, Structural, Debug)]
pub struct FieldElement {
    pub l0: u64,
    pub l1: u64,
    pub l2: u64,
    pub l3: u64,
}

impl View for FieldElement {
    type V = nat;

    open spec fn view(&self) -> nat {
        self.l0 as nat
            + b64() * (self.l1 as nat
                + b64() * (self.l2 as nat + b64() * (self.l3 as nat)))
    }
}

/// `(p() - v) % p()`, the additive inverse of `v` modulo `p()`.
pub open spec fn neg_mod(v: nat) -> nat {
    (((p() as int) - (v as int)) % (p() as int)) as nat
}

/// What `ark_ff`'s multiplicative inverse returns on a nonzero canonical
/// value: a fixed function of that value alone.
pub uninterp spec fn inv_of(a: nat) -> nat;

impl FieldElement {
    /// A well-formed element's value is reduced modulo the field's order.
    pub open spec fn wf(self) -> bool {
        self@ < p()
    }

    /// Embeds a machine integer into the field; every `u64` is below `p()`.
    pub fn from_u64(x: u64) -> (r: FieldElement)
        ensures
            r@ == x,
            r.wf(),
    {
        FieldElement { l0: x, l1: 0, l2: 0, l3: 0 }
    }

    /// The field's additive identity.
    pub fn zero() -> (r: FieldElement)
        ensures
            r@ == 0,
            r.wf(),
    {
        FieldElement::from_u64(0)
    }

    /// The field's multiplicative identity.
    pub fn one() -> (r: FieldElement)
        ensures
            r@ == 1,
            r.wf(),
    {
        FieldElement::from_u64(1)
    }

    /// The limbs of the element, least significant first.
    pub fn limbs(&self) -> (r: (u64, u64, u64, u64))
        ensures
            r.0 == self.l0 && r.1 == self.l1 && r.2 == self.l2 && r.3 == self.l3,
    {
        (self.l0, self.l1, self.l2, self.l3)
    }

    /// The multiplicative inverse, defined exactly on the nonzero elements.
    pub fn inverse(&self) -> (r: Result<FieldElement, ShamirError>)
        requires
            self.wf(),
        ensures
            self@ == 0 ==> (r matches Err(e) && e == ShamirError::NotInvertible),
            self@ != 0 ==> (r matches Ok(v) && v@ == inv_of(self@) && v.wf() && (v@ * self@)
                % p() == 1),
    {
        match fe_inverse(self) {
            Some(v) => Ok(v),
            None => Err(ShamirError::NotInvertible),
        }
    }
}

/// The field's order, as four little-endian limbs: the limbs read in base
/// 2^64 give exactly `p()`.
pub fn modulus_limbs() -> (r: (u64, u64, u64, u64))
    ensures
        r.0 as nat + b64() * (r.1 as nat + b64() * (r.2 as nat + b64() * (r.3 as nat))) == p(),
{
    (0x3c208c16d87cfd47, 0x97816a916871ca8d, 0xb85045b68181585d, 0x30644e72e131a029)
}

/// Relies on `ark_bn254::Fq` addition: the sum of two canonical values,
/// reduced modulo the field's order, returned in canonical form by
/// `PrimeField::into_bigint`.
#[verifier::external_body]
pub(crate) fn fe_add(a: &FieldElement, b: &FieldElement) -> (r: FieldElement)
    requires
        a.wf(),
        b.wf(),
    ensures
        r@ == (a@ + b@) % p(),
{
    let fa = ark_bn254::Fq::from_bigint(ark_ff::BigInt::new([a.l0, a.l1, a.l2, a.l3])).unwrap();
    let fb = ark_bn254::Fq::from_bigint(ark_ff::BigInt::new([b.l0, b.l1, b.l2, b.l3])).unwrap();
    let s = (fa + fb).into_bigint().0;
    FieldElement { l0: s[0], l1: s[1], l2: s[2], l3: s[3] }
}

/// Relies on `ark_bn254::Fq` multiplication: the product of two canonical
/// values, reduced modulo the field's order, in canonical form.
#[verifier::external_body]
pub(crate) fn fe_mul(a: &FieldElement, b: &FieldElement) -> (r: FieldElement)
    requires
        a.wf(),
        b.wf(),
    ensures
        r@ == (a@ * b@) % p(),
{
    let fa = ark_bn254::Fq::from_bigint(ark_ff::BigInt::new([a.l0, a.l1, a.l2, a.l3])).unwrap();
    let fb = ark_bn254::Fq::from_bigint(ark_ff::BigInt::new([b.l0, b.l1, b.l2, b.l3])).unwrap();
    let s = (fa * fb).into_bigint().0;
    FieldElement { l0: s[0], l1: s[1], l2: s[2], l3: s[3] }
}

/// Relies on `ark_bn254::Fq` negation: the additive inverse modulo the
/// field's order, in canonical form.
#[verifier::external_body]
pub(crate) fn fe_neg(a: &FieldElement) -> (r: FieldElement)
    requires
        a.wf(),
    ensures
        r@ == neg_mod(a@),
{
    let fa = ark_bn254::Fq::from_bigint(ark_ff::BigInt::new([a.l0, a.l1, a.l2, a.l3])).unwrap();
    let s = (-fa).into_bigint().0;
    FieldElement { l0: s[0], l1: s[1], l2: s[2], l3: s[3] }
}

/// Relies on `ark_ff::Field::inverse`: `None` exactly on zero, otherwise a
/// canonical multiplicative inverse, a fixed function of the input alone.
#[verifier::external_body]
pub(crate) fn fe_inverse(a: &FieldElement) -> (r: Option<FieldElement>)
    requires
        a.wf(),
    ensures
        (r is Some) <==> a@ != 0,
        r matches Some(v) ==> v@ == inv_of(a@) && v@ < p() && (v@ * a@) % p() == 1,
{
    let fa = ark_bn254::Fq::from_bigint(ark_ff::BigInt::new([a.l0, a.l1, a.l2, a.l3])).unwrap();
    match fa.inverse() {
        None => None,
        Some(v) => {
            let s = v.into_bigint().0;
            Some(FieldElement { l0: s[0], l1: s[1], l2: s[2], l3: s[3] })
        },
    }
}

/// Relies on `ark_ff::UniformRand` with `rand::thread_rng`: a field element
/// drawn uniformly at random; nothing is promised beyond canonical form.
#[verifier::external_body]
pub(crate) fn fe_random() -> (r: FieldElement)
    ensures
        r.wf(),
{
    let f = ark_bn254::Fq::rand(&mut rand::thread_rng());
    let s = f.into_bigint().0;
    FieldElement { l0: s[0], l1: s[1], l2: s[2], l3: s[3] }
}

/// Two elements with the same value have the same limbs: reading limbs in
/// base 2^64 is injective.
pub proof fn lemma_view_injective(a: FieldElement, b: FieldElement)
    requires
        a@ == b@,
    ensures
        a == b,
{
    let va: int = a.l1 as int + b64() * (a.l2 as nat + b64() * (a.l3 as nat));
    let vb: int = b.l1 as int + b64() * (b.l2 as nat + b64() * (b.l3 as nat));
    lemma_digit_split(a.l0 as int, va, b.l0 as int, vb);
    let wa: int = a.l2 as int + b64() * (a.l3 as nat);
    let wb: int = b.l2 as int + b64() * (b.l3 as nat);
    lemma_digit_split(a.l1 as int, wa, b.l1 as int, wb);
    lemma_digit_split(a.l2 as int, a.l3 as int, b.l2 as int, b.l3 as int);
}

/// If `d + 2^64 * h == d' + 2^64 * h'` with both digits below 2^64, the
/// digits and the high parts agree.
proof fn lemma_digit_split(d1: int, h1: int, d2: int, h2: int)
    requires
        0 <= d1 < b64(),
        0 <= d2 < b64(),
        0 <= h1,
        0 <= h2,
        d1 + b64() * h1 == d2 + b64() * h2,
    ensures
        d1 == d2,
        h1 == h2,
{
    let m = b64() as int;
    vstd::arithmetic::div_mod::lemma_mod_multiples_vanish(h1, d1, m);
    vstd::arithmetic::div_mod::lemma_mod_multiples_vanish(h2, d2, m);
    vstd::arithmetic::div_mod::lemma_small_mod(d1 as nat, b64());
    vstd::arithmetic::div_mod::lemma_small_mod(d2 as nat, b64());
    assert((m * h1 + d1) % m == d1);
    assert((m * h2 + d2) % m == d2);
    assert(h1 == h2) by (nonlinear_arith)
        requires
            m > 0,
            d1 == d2,
            d1 + m * h1 == d2 + m * h2,
    ;
}

} // verus!
