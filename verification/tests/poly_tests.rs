use shamir::field::FieldElement;
use shamir::poly::Polynomial;

fn fe(x: u64) -> FieldElement {
    FieldElement::from_u64(x)
}

fn poly(coef: &[u64]) -> Polynomial {
    let mut v: Vec<FieldElement> = Vec::new();
    for &c in coef {
        v.push(fe(c));
    }
    Polynomial::new(v)
}

#[test]
fn test_polynomial_evaluation() {
    // constant term 1, coefficient of x 2, coefficient of x^2 3
    let p = poly(&[1, 2, 3]);
    // For x = 2, should compute 1 + 2(2) + 3(2^2) = 1 + 4 + 12 = 17
    assert_eq!(p.evaluate(&fe(2)), fe(17));
}

#[test]
fn test_polynomial_addition() {
    let poly1 = poly(&[1, 2]);
    let poly2 = poly(&[3, 4]);
    let result = poly1.add(&poly2);
    assert_eq!(result.coef, vec![fe(4), fe(6)]);
}

#[test]
fn test_polynomial_multiplication() {
    let poly1 = poly(&[1, 2]); // 1 + 2x
    let poly2 = poly(&[3, 4]); // 3 + 4x
    let result = poly1.mul(&poly2);
    assert_eq!(result.coef, vec![fe(3), fe(10), fe(8)]);
}

#[test]
fn test_polynomial_scalar_multiplication() {
    let p = poly(&[2, 3]);
    let result = p.scalar_mul(&fe(2));
    assert_eq!(result.coef, vec![fe(4), fe(6)]);
}

#[test]
fn test_degree() {
    assert_eq!(poly(&[1, 2, 3]).degree(), 2);
}

#[test]
fn test_evaluate() {
    // f(2) = 1 + 2(2) + 3(2^2) = 1 + 4 + 12 = 17
    assert_eq!(poly(&[1, 2, 3]).evaluate(&fe(2)), fe(17));
}

#[test]
fn test_addition() {
    // poly_1 = 1 + 2x + 3x^2; poly_2 = 3 + 4x + 5x^11
    let poly_1 = poly(&[1, 2, 3]);
    let poly_2 = poly(&[3, 4, 0, 0, 0, 0, 0, 0, 0, 0, 0, 5]);
    let result = poly_1.add(&poly_2);
    assert_eq!(
        result.coef,
        vec![fe(4), fe(6), fe(3), fe(0), fe(0), fe(0), fe(0), fe(0), fe(0), fe(0), fe(0), fe(5)]
    );
}

#[test]
fn test_mul() {
    // (5 + 2x^2) * (6 + 2x)
    let poly_1 = poly(&[5, 0, 2]);
    let poly_2 = poly(&[6, 2]);
    let result = poly_1.mul(&poly_2);
    assert_eq!(result.coef, vec![fe(30), fe(10), fe(12), fe(4)]);
}

#[test]
fn empty_polynomial_evaluates_to_zero() {
    let p = Polynomial::new(Vec::new());
    assert_eq!(p.evaluate(&fe(7)), fe(0));
}

#[test]
fn addition_is_padded_with_zeros() {
    let longer = poly(&[1, 2, 3, 4]);
    let shorter = poly(&[5]);
    let result = shorter.add(&longer);
    assert_eq!(result.coef, vec![fe(6), fe(2), fe(3), fe(4)]);
}

#[test]
fn sum_of_polynomials_folds_from_zero() {
    let parts = vec![poly(&[1, 2]), poly(&[3]), poly(&[0, 0, 4])];
    let total = Polynomial::sum_of(&parts);
    assert_eq!(total.coef, vec![fe(4), fe(2), fe(4)]);
}

#[test]
fn product_of_polynomials_folds_from_one() {
    // (1 + x)(2 + x) = 2 + 3x + x^2
    let parts = vec![poly(&[1, 1]), poly(&[2, 1])];
    let total = Polynomial::product_of(&parts);
    assert_eq!(total.coef, vec![fe(2), fe(3), fe(1)]);
}
