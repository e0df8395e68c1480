use tropical_algebra::error::AlgebraError;
use tropical_algebra::tropical_automorphism::TropicalAutomorphism;
use tropical_algebra::tropical_int::TropicalInt;
use tropical_algebra::tropical_polynomial::{Degree, TropicalPolynomial};
use tropical_algebra::tropical_rational::TropicalRational;

fn poly2(terms: Vec<([Degree; 2], i64)>) -> TropicalPolynomial<2> {
    TropicalPolynomial::from(
        terms
            .into_iter()
            .map(|(e, c)| (e, TropicalInt::from(c)))
            .collect::<Vec<_>>(),
    )
}

fn poly3(terms: Vec<([Degree; 3], i64)>) -> TropicalPolynomial<3> {
    TropicalPolynomial::from(
        terms
            .into_iter()
            .map(|(e, c)| (e, TropicalInt::from(c)))
            .collect::<Vec<_>>(),
    )
}

#[test]
fn add_term_keeps_the_larger_offer_in_either_order() {
    let mut p: TropicalPolynomial<2> = TropicalPolynomial::new();
    p.add_term([2, 3], TropicalInt::from(5));
    p.add_term([2, 3], TropicalInt::from(4));
    assert_eq!(p.get_term(&[2, 3]), Some(&TropicalInt::from(5)));

    let mut q: TropicalPolynomial<2> = TropicalPolynomial::new();
    q.add_term([2, 3], TropicalInt::from(4));
    q.add_term([2, 3], TropicalInt::from(5));
    assert_eq!(q.get_term(&[2, 3]), Some(&TropicalInt::from(5)));
    assert_eq!(p, q);

    q.add_term([2, 3], TropicalInt::from(5));
    q.add_term([1, 1], TropicalInt::AdditiveIdentity);
    assert_eq!(q, poly2(vec![([2, 3], 5)]));
    assert_eq!(q.get_term(&[1, 1]), None);
}

#[test]
fn multiplying_by_additive_identity_gives_no_terms() {
    let p = poly3(vec![([1, 0, 2], 5), ([0, 3, 1], -2)]);
    assert_eq!(p.clone() * TropicalPolynomial::additive_identity(), TropicalPolynomial::new());
    assert_eq!(
        TropicalPolynomial::constant(TropicalInt::AdditiveIdentity) * p,
        TropicalPolynomial::new()
    );
}

#[test]
fn sum_takes_the_maximum_and_keeps_negative_coefficients() {
    let a = poly2(vec![([1, 0], -3), ([0, 1], 2)]);
    let b = poly2(vec![([0, 1], 7), ([2, 2], -8)]);
    assert_eq!(a + b, poly2(vec![([1, 0], -3), ([0, 1], 7), ([2, 2], -8)]));
}

#[test]
fn evaluation_scenarios() {
    let point = || [TropicalInt::from(4), TropicalInt::from(2), TropicalInt::from(1)];
    let m = TropicalPolynomial::<3>::monomial([1, 2, 3], TropicalInt::from(5));
    assert_eq!(m.evaluate(point()), TropicalInt::from(16));
    let s = m + TropicalPolynomial::monomial([0, 5, 17], TropicalInt::from(2));
    assert_eq!(s.evaluate(point()), TropicalInt::from(29));
    assert_eq!(
        TropicalPolynomial::<3>::new().evaluate(point()),
        TropicalInt::AdditiveIdentity
    );
    let at_identity = [TropicalInt::from(4), TropicalInt::AdditiveIdentity, TropicalInt::from(1)];
    assert_eq!(
        TropicalPolynomial::<3>::monomial([1, 0, 3], TropicalInt::from(5)).evaluate(at_identity),
        TropicalInt::AdditiveIdentity
    );
    let negative = TropicalPolynomial::<3>::monomial([-1, 2, 0], TropicalInt::from(1));
    assert_eq!(negative.evaluate(point()), TropicalInt::from(1));
}

#[test]
fn zeroth_power_is_the_multiplicative_identity() {
    let one: TropicalPolynomial<2> = TropicalPolynomial::constant(TropicalInt::from(0));
    assert_eq!(TropicalPolynomial::<2>::additive_identity().pow(0), one);
    assert_eq!(poly2(vec![([1, 2], 3), ([4, 0], -1)]).pow(0), one);
    assert_eq!(poly2(vec![([1, 2], 3)]).pow(-2), one);
    assert_eq!(TropicalPolynomial::<2>::additive_identity().pow(3), TropicalPolynomial::new());
    assert_eq!(poly2(vec![([1, 2], 3)]).pow(3), poly2(vec![([3, 6], 9)]));
}

#[test]
fn variable_and_constant_constructors() {
    assert_eq!(TropicalPolynomial::<3>::variable(1), poly3(vec![([0, 1, 0], 0)]));
    assert_eq!(TropicalPolynomial::<3>::variable(7), poly3(vec![([0, 0, 0], 0)]));
    assert_eq!(TropicalPolynomial::<3>::multiplicative_identity(), poly3(vec![([0, 0, 0], 0)]));
    let mut exps = poly3(vec![([1, 0, 0], 1), ([0, 2, 0], 2), ([1, 0, 0], 3)]).exponents();
    exps.sort();
    assert_eq!(exps, vec![[0, 2, 0], [1, 0, 0]]);
}

#[test]
fn monomial_automorphism_applied_to_a_monomial() {
    let a = TropicalAutomorphism::monomial([[1, 2], [2, 1]], [TropicalInt::from(1), TropicalInt::from(2)]);
    let u = TropicalPolynomial::monomial([1, 3], TropicalInt::from(2));
    assert_eq!(a.apply(&u), TropicalPolynomial::monomial([7, 5], TropicalInt::from(9)));
}

#[test]
fn composing_with_identity_keeps_what_apply_does() {
    let a: TropicalAutomorphism<3> = TropicalAutomorphism::elementary_triangular(0, poly3(vec![([0, 1, 1], 4), ([0, 3, 2], 5)]))
        .compose(TropicalAutomorphism::monomial(
            [[1, 2, 4], [1, 3, 9], [1, 5, 25]],
            [TropicalInt::from(1), TropicalInt::from(2), TropicalInt::from(3)],
        ));
    let p = poly3(vec![([1, 2, 0], 4), ([0, 1, 1], -2), ([0, 0, 0], 3)]);
    let composed = a.compose(TropicalAutomorphism::identity());
    assert_eq!(composed.apply(&p), a.apply(&p));
    assert_eq!(composed, a);
}

#[test]
fn identity_applied_changes_nothing() {
    let p = poly3(vec![([1, 2, 0], 4), ([0, 1, 1], -2), ([0, 0, 0], 3)]);
    assert_eq!(TropicalAutomorphism::identity().apply(&p), p);
}

#[test]
fn apply_is_additive_on_a_small_key() {
    let triangular: TropicalAutomorphism<3> = TropicalAutomorphism::elementary_triangular(
        0,
        poly3(vec![([0, 9, 7], 4), ([0, 2, 5], 5)]),
    )
    .compose(TropicalAutomorphism::elementary_triangular(1, poly3(vec![([0, 0, 3], 4), ([0, 0, 4], 5)])))
    .compose(TropicalAutomorphism::elementary_triangular(2, TropicalPolynomial::constant(TropicalInt::from(5))));
    let key = TropicalAutomorphism::monomial(
        [[2, 1, 3], [6, 5, 1], [1, 4, 2]],
        [TropicalInt::from(-5), TropicalInt::from(-9), TropicalInt::from(7)],
    )
    .compose(triangular);

    let u = TropicalPolynomial::monomial([1, 2, 3], TropicalInt::from(4));
    let v = TropicalPolynomial::monomial([0, 5, 7], TropicalInt::from(2));
    let upv = u.clone() + v.clone();
    assert_eq!(key.apply(&u) + key.apply(&v), key.apply(&upv));

    let w = poly3(vec![([1, 2, 3], 1), ([0, 0, 1], 6)]);
    let upw = u.clone() + w.clone();
    assert_eq!(key.apply(&u) + key.apply(&w), key.apply(&upw));
}

#[test]
fn evaluating_an_image_differs_from_evaluating_the_source() {
    let a = TropicalAutomorphism::monomial([[1, 2], [2, 1]], [TropicalInt::from(1), TropicalInt::from(2)]);
    let p = poly2(vec![([1, 0], 0), ([0, 1], 0)]);
    let point = || [TropicalInt::from(1), TropicalInt::from(0)];
    assert_eq!(p.evaluate(point()), TropicalInt::from(1));
    assert_eq!(a.apply(&p).evaluate(point()), TropicalInt::from(4));

    // Negative exponents: a negative power is the identity, so the image of
    // the polynomial differs from the polynomial at the image of the point.
    let inverse = TropicalAutomorphism::inverse_monomial([[2, 1], [1, 1]], [TropicalInt::from(0), TropicalInt::from(0)]);
    let q = poly2(vec![([-1, 0], 0)]);
    let s = || [TropicalInt::from(3), TropicalInt::from(5)];
    let moved = [
        inverse.mapping(0).numerator().evaluate(s()),
        inverse.mapping(1).numerator().evaluate(s()),
    ];
    assert_eq!(moved, [TropicalInt::from(-2), TropicalInt::from(7)]);
    assert_eq!(q.evaluate(moved), TropicalInt::from(2));
    assert_eq!(inverse.apply(&q).evaluate(s()), TropicalInt::from(0));
}

#[test]
fn scalar_automorphism_dilates_each_variable() {
    let a: TropicalAutomorphism<2> = TropicalAutomorphism::scalar(TropicalInt::from(3));
    assert_eq!(
        a,
        TropicalAutomorphism::new([
            TropicalRational::polynomial(poly2(vec![([1, 0], 3)])),
            TropicalRational::polynomial(poly2(vec![([0, 1], 3)])),
        ])
    );
    let b: TropicalAutomorphism<2> = TropicalAutomorphism::scalar(TropicalInt::AdditiveIdentity);
    assert_eq!(b.mapping(0).numerator(), &TropicalPolynomial::new());
}

#[test]
fn inverse_monomial_of_unit_determinants() {
    let a = TropicalAutomorphism::inverse_monomial([[2, 1], [1, 1]], [TropicalInt::from(3), TropicalInt::from(-4)]);
    assert_eq!(
        a,
        TropicalAutomorphism::new([
            TropicalRational::polynomial(poly2(vec![([1, -1], -3)])),
            TropicalRational::polynomial(poly2(vec![([-1, 2], 4)])),
        ])
    );
    let b = TropicalAutomorphism::inverse_monomial([[1, 2], [1, 1]], [TropicalInt::from(1), TropicalInt::AdditiveIdentity]);
    assert_eq!(
        b,
        TropicalAutomorphism::new([
            TropicalRational::polynomial(poly2(vec![([-1, 2], -1)])),
            TropicalRational::polynomial(TropicalPolynomial::new()),
        ])
    );
}

#[test]
fn inverse_elementary_triangular_divides_the_pivot() {
    let row = poly3(vec![([0, 2, 3], 4)]);
    let a = TropicalAutomorphism::inverse_elementary_triangular(0, row.clone());
    assert_eq!(a.mapping(0), &TropicalRational::new(TropicalPolynomial::variable(0), row));
    assert_eq!(a.mapping(1), &TropicalRational::polynomial(TropicalPolynomial::variable(1)));
}

#[test]
fn rational_operations_are_formal() {
    let x = TropicalRational::polynomial(poly2(vec![([1, 0], 0)]));
    let y = TropicalRational::polynomial(poly2(vec![([0, 1], 2)]));
    let one = poly2(vec![([0, 0], 0)]);
    assert_eq!(
        x.clone() + y.clone(),
        TropicalRational::new(poly2(vec![([1, 0], 0), ([0, 1], 2)]), one.clone())
    );
    assert_eq!(
        x.clone() / y.clone(),
        TropicalRational::new(poly2(vec![([1, 0], 0)]), poly2(vec![([0, 1], 2)]))
    );
    let q = x.clone() / y.clone();
    let back = q.clone() * (y.clone() / x.clone());
    assert_eq!(back, TropicalRational::new(poly2(vec![([1, 1], 2)]), poly2(vec![([1, 1], 2)])));
    assert_eq!(back.simplify(), back);
    assert_eq!(q.pow(2), TropicalRational::new(poly2(vec![([2, 0], 0)]), poly2(vec![([0, 2], 4)])));
}

#[test]
fn division_by_additive_identity_is_refused() {
    assert_eq!(
        TropicalInt::from(3).checked_div(&TropicalInt::AdditiveIdentity),
        Err(AlgebraError::DivisionByAdditiveIdentity)
    );
    assert_eq!(TropicalInt::from(3).checked_div(&TropicalInt::from(10)), Ok(TropicalInt::from(-7)));
}

#[test]
fn monomial_with_non_positive_degree_is_refused() {
    let c = || [TropicalInt::from(1), TropicalInt::from(2)];
    assert_eq!(
        TropicalAutomorphism::try_monomial([[1, 0], [2, 1]], c()),
        Err(AlgebraError::NonPositiveMonomialDegree)
    );
    assert_eq!(
        TropicalAutomorphism::try_monomial([[1, 2], [2, 1]], c()),
        Ok(TropicalAutomorphism::monomial([[1, 2], [2, 1]], c()))
    );
}

#[test]
fn triangular_rows_that_depend_on_the_pivot_are_refused() {
    assert_eq!(
        TropicalAutomorphism::try_elementary_triangular(1, poly3(vec![([0, 1, 2], 3)])),
        Err(AlgebraError::PivotVariableDependency)
    );
    assert_eq!(
        TropicalAutomorphism::try_elementary_triangular(1, poly3(vec![([1, 0, 2], 3)])),
        Err(AlgebraError::PivotVariableDependency)
    );
    assert_eq!(
        TropicalAutomorphism::try_inverse_elementary_triangular(3, poly3(vec![([0, 0, 0], 3)])),
        Err(AlgebraError::PivotOutOfRange)
    );
    assert_eq!(
        TropicalAutomorphism::try_elementary_triangular(1, poly3(vec![([0, 0, 2], 3)])),
        Ok(TropicalAutomorphism::elementary_triangular(1, poly3(vec![([0, 0, 2], 3)])))
    );
    let t = TropicalAutomorphism::elementary_triangular(1, poly3(vec![([0, 0, 2], 3)]));
    assert_eq!(t.mapping(1).numerator(), &poly3(vec![([0, 1, 2], 3)]));
}

#[test]
fn inverse_monomial_refuses_other_determinants() {
    let c = || [TropicalInt::from(1), TropicalInt::from(2)];
    assert_eq!(
        TropicalAutomorphism::try_inverse_monomial([[2, 4], [1, 2]], c()),
        Err(AlgebraError::NonInvertibleDegreeMatrix)
    );
    assert_eq!(
        TropicalAutomorphism::try_inverse_monomial([[1, 2], [2, 1]], c()),
        Err(AlgebraError::NonUnitDeterminant)
    );
    assert_eq!(
        TropicalAutomorphism::try_inverse_monomial([[i64::MIN, 1], [-1, 0]], c()),
        Err(AlgebraError::DegreeOverflow)
    );
    assert_eq!(
        TropicalAutomorphism::try_inverse_monomial([[2, 1], [1, 1]], c()),
        Ok(TropicalAutomorphism::inverse_monomial([[2, 1], [1, 1]], c()))
    );
}

#[test]
fn identity_law_needs_non_negative_exponents() {
    // A numerator with a negative exponent: the identity raises the variable
    // to a negative power, which gives the multiplicative identity.
    let a = TropicalAutomorphism::inverse_monomial([[2, 1], [1, 1]], [TropicalInt::from(0), TropicalInt::from(0)]);
    let p = poly2(vec![([1, 0], 0)]);
    assert_eq!(a.apply(&p), poly2(vec![([1, -1], 0)]));
    assert_eq!(a.compose(TropicalAutomorphism::identity()).apply(&p), poly2(vec![([1, 0], 0)]));
}

#[test]
fn text_of_scalars() {
    assert_eq!(TropicalInt::from(-7).to_text(), "-7");
    assert_eq!(TropicalInt::from(120).to_text(), "120");
    assert_eq!(TropicalInt::AdditiveIdentity.to_text(), "-∞");
}

#[test]
fn text_of_polynomials_lists_the_greatest_exponents_first() {
    let p = poly3(vec![([0, 1, 1], 3), ([1, 0, 2], 5)]);
    assert_eq!(p.to_text(), "5x^1y^0z^2 + 3x^0y^1z^1");
    let q = TropicalPolynomial::<4>::monomial([1, -2, 0, 3], TropicalInt::from(-1));
    assert_eq!(q.to_text(), "-1x0^1x1^-2x2^0x3^3");
    assert_eq!(TropicalPolynomial::<2>::new().to_text(), "");
}

#[test]
fn text_of_fractions_and_automorphisms() {
    let r = TropicalRational::new(poly2(vec![([1, 0], 5)]), poly2(vec![([0, 1], 3)]));
    assert_eq!(r.to_text(), "(5x^1y^0) / (3x^0y^1)");
    let a: TropicalAutomorphism<2> = TropicalAutomorphism::identity();
    assert_eq!(a.to_text(), "((0x^1y^0) / (0x^0y^0), (0x^0y^1) / (0x^0y^0))");
}

#[test]
fn add_assign_takes_the_tropical_sum() {
    let mut p = poly2(vec![([1, 0], 2), ([0, 1], -4)]);
    p += poly2(vec![([1, 0], 1), ([0, 1], 6), ([3, 3], 0)]);
    assert_eq!(p, poly2(vec![([1, 0], 2), ([0, 1], 6), ([3, 3], 0)]));
}

#[test]
fn compound_operators() {
    let mut a = TropicalInt::from(4);
    a += TropicalInt::from(9);
    assert_eq!(a, TropicalInt::from(9));
    a *= TropicalInt::from(-3);
    assert_eq!(a, TropicalInt::from(6));
    a /= TropicalInt::from(10);
    assert_eq!(a, TropicalInt::from(-4));

    let mut p = poly2(vec![([1, 0], 1), ([0, 1], 2)]);
    p *= poly2(vec![([1, 1], 3)]);
    assert_eq!(p, poly2(vec![([2, 1], 4), ([1, 2], 5)]));

    let x = TropicalRational::polynomial(poly2(vec![([1, 0], 0)]));
    let y = TropicalRational::polynomial(poly2(vec![([0, 1], 2)]));
    let mut r = x.clone();
    r *= y.clone();
    assert_eq!(r, TropicalRational::new(poly2(vec![([1, 1], 2)]), poly2(vec![([0, 0], 0)])));
    let mut q = x;
    q /= y;
    assert_eq!(q, TropicalRational::new(poly2(vec![([1, 0], 0)]), poly2(vec![([0, 1], 2)])));
}

#[test]
fn construction_does_not_depend_on_order() {
    let a = poly2(vec![([2, 3], 4), ([1, 1], -2), ([2, 3], 5), ([1, 1], -7)]);
    let b = poly2(vec![([1, 1], -7), ([2, 3], 5), ([1, 1], -2), ([2, 3], 4)]);
    assert_eq!(a, b);
    assert_eq!(a, poly2(vec![([2, 3], 5), ([1, 1], -2)]));
}

#[test]
fn polynomial_semiring_laws_on_examples() {
    let p = poly2(vec![([1, 0], 2), ([0, 2], -1)]);
    let q = poly2(vec![([1, 1], 0), ([0, 0], 3)]);
    let r = poly2(vec![([2, 0], -4), ([0, 1], 1)]);
    assert_eq!(p.clone() * q.clone(), q.clone() * p.clone());
    assert_eq!((p.clone() * q.clone()) * r.clone(), p.clone() * (q.clone() * r.clone()));
    assert_eq!(p.clone() * (q.clone() + r.clone()), p.clone() * q.clone() + p.clone() * r.clone());
    assert_eq!(p.clone() + p.clone(), p);
    assert_eq!(p.clone() + TropicalPolynomial::new(), p);
}

#[test]
fn checked_operations_report_exponent_overflow() {
    let big = TropicalPolynomial::<2>::monomial([i64::MAX, 0], TropicalInt::from(0));
    let x = TropicalPolynomial::<2>::variable(0);
    assert!(big.checked_times(&x).is_none());
    assert_eq!(x.checked_times(&x), Some(poly2(vec![([2, 0], 0)])));
    assert!(big.checked_pow(2).is_none());
    assert_eq!(big.checked_pow(1), Some(big.clone()));
    assert_eq!(big.checked_pow(0), Some(TropicalPolynomial::multiplicative_identity()));

    let steep = TropicalAutomorphism::monomial([[i64::MAX, 1], [1, 1]], [TropicalInt::from(0), TropicalInt::from(0)]);
    assert!(steep.checked_apply(&poly2(vec![([2, 0], 0)])).is_none());
    assert_eq!(
        steep.checked_apply(&poly2(vec![([1, 0], 3)])),
        Some(poly2(vec![([i64::MAX, 1], 3)]))
    );
    let square = TropicalAutomorphism::new([
        TropicalRational::polynomial(poly2(vec![([2, 0], 0)])),
        TropicalRational::polynomial(poly2(vec![([0, 1], 0)])),
    ]);
    assert!(square.checked_compose(steep.clone()).is_none());
    assert_eq!(
        square.checked_compose(TropicalAutomorphism::identity()),
        Some(square.clone())
    );
}

#[test]
fn text_of_extreme_exponents() {
    let p = TropicalPolynomial::<2>::monomial([i64::MIN, i64::MAX], TropicalInt::from(0));
    assert_eq!(p.to_text(), "0x^-9223372036854775808y^9223372036854775807");
    let q = TropicalPolynomial::<5>::monomial([0, 10, -3, 7, 100], TropicalInt::from(12));
    assert_eq!(q.to_text(), "12x0^0x1^10x2^-3x3^7x4^100");
}
