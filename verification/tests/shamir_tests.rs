use shamir::ShamirError;
use shamir::field::FieldElement;
use shamir::poly::Polynomial;
use shamir::shamir::construct_polynomial;
use shamir::shamir::reconstruct;
use shamir::shamir::share_secret_points;

fn fe(x: u64) -> FieldElement {
    FieldElement::from_u64(x)
}

fn below_modulus(e: &FieldElement) -> bool {
    let (l0, l1, l2, l3) = e.limbs();
    let (p0, p1, p2, p3) = shamir::field::modulus_limbs();
    if l3 != p3 {
        return l3 < p3;
    }
    if l2 != p2 {
        return l2 < p2;
    }
    if l1 != p1 {
        return l1 < p1;
    }
    l0 < p0
}

#[test]
fn test_secret_sharing_and_recovery() {
    let secret = fe(42);
    let k = 3; // threshold
    let n = 5; // number of shares

    let (xs, ys) = share_secret_points(secret, n, k);

    // Take any k shares and recover the secret
    let recovered_poly = Polynomial::interpolate(
        &xs[0..k as usize].to_vec(),
        &ys[0..k as usize].to_vec(),
    )
    .unwrap();

    // The constant term should be our secret
    assert_eq!(recovered_poly.coef[0], secret);
}

#[test]
fn prime_field_shamir_test_secret_sharing_and_recovery() {
    let (xs, ys) = share_secret_points(fe(8), 10, 3);
    let x_interpol_set = xs[0..3].to_vec();
    let y_interpol_set = ys[0..3].to_vec();

    let ans = Polynomial::interpolate(&x_interpol_set, &y_interpol_set).unwrap();

    assert_eq!(ans.evaluate(&fe(0)), fe(8));
}

#[test]
fn test_interpolate() {
    let ans = Polynomial::interpolate(&vec![fe(2), fe(4)], &vec![fe(4), fe(8)]).unwrap();
    assert_eq!(ans.coef, vec![fe(0), fe(2)]);
}

#[test]
fn test_random_coefficient_generation() {
    let p = construct_polynomial(fe(5), 2);
    assert!(below_modulus(&p.coef[1]));
}

#[test]
fn split_uses_one_indexed_points() {
    let (xs, ys) = share_secret_points(fe(9), 4, 2);
    assert_eq!(xs, vec![fe(1), fe(2), fe(3), fe(4)]);
    assert_eq!(ys.len(), 4);
}

#[test]
fn split_draws_fresh_coefficients_each_time() {
    // Two splits of the same secret must (with overwhelming probability)
    // draw different non-constant coefficients and different shares.
    let p1 = construct_polynomial(fe(7), 3);
    let p2 = construct_polynomial(fe(7), 3);
    assert_eq!(p1.coef[0], fe(7));
    assert_eq!(p2.coef[0], fe(7));
    assert!(p1.coef[1] != p2.coef[1] || p1.coef[2] != p2.coef[2]);

    let (_, ys1) = share_secret_points(fe(7), 5, 3);
    let (_, ys2) = share_secret_points(fe(7), 5, 3);
    assert_ne!(ys1, ys2);
}

#[test]
fn duplicate_evaluation_points_are_rejected() {
    let r = Polynomial::interpolate(&vec![fe(3), fe(3)], &vec![fe(1), fe(2)]);
    assert!(matches!(r, Err(ShamirError::DuplicateEvaluationPoint)));
}

#[test]
fn reconstruct_rejects_duplicates() {
    let r = reconstruct(&vec![fe(3), fe(3)], &vec![fe(1), fe(2)]);
    assert!(matches!(r, Err(ShamirError::DuplicateEvaluationPoint)));
}

#[test]
fn inverse_of_zero_is_not_invertible() {
    let r = FieldElement::zero().inverse();
    assert!(matches!(r, Err(ShamirError::NotInvertible)));
}

#[test]
fn inverse_multiplies_back_to_one() {
    let inv = fe(2).inverse().unwrap();
    // 2 * inverse(2) = 1, checked through scalar multiplication
    let doubled = Polynomial::new(vec![fe(2)]).scalar_mul(&inv);
    assert_eq!(doubled.coef, vec![fe(1)]);
}

#[test]
fn end_to_end_any_three_of_five_shares() {
    let secret = fe(42);
    let (xs, ys) = share_secret_points(secret, 5, 3);
    assert_eq!(xs, vec![fe(1), fe(2), fe(3), fe(4), fe(5)]);

    // shares at x = 1, 3, 5
    let sub_xs = vec![xs[0], xs[2], xs[4]];
    let sub_ys = vec![ys[0], ys[2], ys[4]];
    assert_eq!(reconstruct(&sub_xs, &sub_ys).unwrap(), secret);

    // all five shares are consistent, so they reconstruct exactly too
    assert_eq!(reconstruct(&xs, &ys).unwrap(), secret);

    // two shares are below the threshold: the result is well defined but,
    // in general, unrelated to the secret
    let under_xs = vec![xs[0], xs[1]];
    let under_ys = vec![ys[0], ys[1]];
    assert_ne!(reconstruct(&under_xs, &under_ys).unwrap(), secret);
}

#[test]
fn arithmetic_wraps_at_the_field_order() {
    let (p0, p1, p2, p3) = shamir::field::modulus_limbs();
    // the largest field element, p - 1 (the low limb of p is odd)
    let pm1 = FieldElement { l0: p0 - 1, l1: p1, l2: p2, l3: p3 };

    // (p - 1) + 2 = 1
    let s = Polynomial::new(vec![pm1]).add(&Polynomial::new(vec![fe(2)]));
    assert_eq!(s.coef, vec![fe(1)]);

    // (p - 1) * (p - 1) = 1
    let sq = Polynomial::new(vec![pm1]).scalar_mul(&pm1);
    assert_eq!(sq.coef, vec![fe(1)]);

    // p - 1 is its own multiplicative inverse
    assert_eq!(pm1.inverse().unwrap(), pm1);
}

#[test]
fn reconstruct_is_order_insensitive() {
    let secret = fe(1234567);
    let (xs, ys) = share_secret_points(secret, 5, 3);
    let sub_xs = vec![xs[4], xs[1], xs[2]];
    let sub_ys = vec![ys[4], ys[1], ys[2]];
    assert_eq!(reconstruct(&sub_xs, &sub_ys).unwrap(), secret);
}
