use num_bigint::BigInt;
use tropical_algebra::tropical_int::TropicalInt;
use tropical_algebra::tropical_polynomial::{Degree, TropicalPolynomial};

#[test]
fn test_sum_disjoint_polys() {
    let first_terms: Vec<([Degree; 3], TropicalInt)> = vec![
        ([1, 0, 2], TropicalInt::from(5)),
        ([0, 1, 1], TropicalInt::from(3)),
    ];
    let first = TropicalPolynomial::from(first_terms.clone());

    let second_terms: Vec<([Degree; 3], TropicalInt)> = vec![
        ([1, 1, 0], TropicalInt::from(2)),
        ([0, 0, 1], TropicalInt::from(4)),
    ];
    let second = TropicalPolynomial::from(second_terms.clone());

    let mut combined: TropicalPolynomial<3> = TropicalPolynomial::from(first_terms);
    for (exponents, coefficient) in second_terms {
        combined.add_term(exponents, coefficient);
    }

    assert_eq!(first + second, combined);
}

#[test]
fn test_sum_non_disjoint_polys() {
    let a = TropicalPolynomial::from(vec![([1, 1, 1], TropicalInt::from(5))]);

    let b = TropicalPolynomial::from(vec![([1, 1, 1], TropicalInt::from(7))]);

    assert_eq!(a + b.clone(), b);
}

#[test]
fn test_poly_mul_2() {
    let test_table: Vec<[TropicalPolynomial<2>; 3]> = vec![[
        TropicalPolynomial::monomial([2, 0], TropicalInt::from(0)),
        TropicalPolynomial::constant(TropicalInt::AdditiveIdentity),
        TropicalPolynomial::new(),
    ]];

    for [a, b, c] in test_table {
        assert_eq!(a * b, c);
    }
}

#[test]
fn test_poly_mul_3() {
    let test_table: Vec<[TropicalPolynomial<3>; 3]> = vec![
        [
            TropicalPolynomial::from(vec![([1, 1, 0], TropicalInt::from(5))]),
            TropicalPolynomial::from(vec![([1, 0, 1], TropicalInt::from(7))]),
            TropicalPolynomial::from(vec![([2, 1, 1], TropicalInt::from(12))]),
        ],
        [
            TropicalPolynomial::from(vec![([1, 1, 0], TropicalInt::from(5))]),
            TropicalPolynomial::from(vec![
                ([1, 0, 1], TropicalInt::from(7)),
                ([4, 2, 1], TropicalInt::from(7)),
            ]),
            TropicalPolynomial::from(vec![
                ([2, 1, 1], TropicalInt::from(12)),
                ([5, 3, 1], TropicalInt::from(12)),
            ]),
        ],
        [
            TropicalPolynomial::from(vec![
                ([1, 1, 0], TropicalInt::from(5)),
                ([0, 6, 2], TropicalInt::from(-3)),
            ]),
            TropicalPolynomial::from(vec![
                ([1, 0, 1], TropicalInt::from(7)),
                ([4, 2, 1], TropicalInt::from(7)),
            ]),
            TropicalPolynomial::from(vec![
                ([2, 1, 1], TropicalInt::from(12)),
                ([5, 3, 1], TropicalInt::from(12)),
                ([1, 6, 3], TropicalInt::from(4)),
                ([4, 8, 3], TropicalInt::from(4)),
            ]),
        ],
    ];

    for [a, b, c] in test_table {
        assert_eq!(a * b, c);
    }
}

// A power is repeated multiplication, so the cross terms of a sum are kept.
#[test]
fn test_poly_pow() {
    let test_table: Vec<(TropicalPolynomial<3>, Degree, TropicalPolynomial<3>)> = vec![
        (
            TropicalPolynomial::multiplicative_identity(),
            3,
            TropicalPolynomial::multiplicative_identity(),
        ),
        (
            TropicalPolynomial::variable(0),
            4,
            TropicalPolynomial::from(vec![([4, 0, 0], TropicalInt::from(0))]),
        ),
        (
            TropicalPolynomial::variable(0) + TropicalPolynomial::variable(1),
            4,
            TropicalPolynomial::from(vec![
                ([4, 0, 0], TropicalInt::from(0)),
                ([3, 1, 0], TropicalInt::from(0)),
                ([2, 2, 0], TropicalInt::from(0)),
                ([1, 3, 0], TropicalInt::from(0)),
                ([0, 4, 0], TropicalInt::from(0)),
            ]),
        ),
        (
            TropicalPolynomial::from(vec![
                ([4, 0, 3], TropicalInt::from(5)),
                ([0, 4, 1], TropicalInt::from(7)),
            ]),
            2,
            TropicalPolynomial::from(vec![
                ([8, 0, 6], TropicalInt::from(10)),
                ([4, 4, 4], TropicalInt::from(12)),
                ([0, 8, 2], TropicalInt::from(14)),
            ]),
        ),
    ];

    for (a, power, b) in test_table {
        assert_eq!(a.pow(power), b);
    }
}

#[test]
fn test_evaluate() {
    let test_table: Vec<(TropicalPolynomial<3>, [TropicalInt; 3], TropicalInt)> = vec![
        (
            TropicalPolynomial::monomial([1, 2, 3], TropicalInt::from(5)),
            [
                TropicalInt::from(4),
                TropicalInt::from(2),
                TropicalInt::from(1),
            ],
            TropicalInt::from(16),
        ),
        (
            TropicalPolynomial::from(vec![
                ([1, 2, 3], TropicalInt::from(5)),
                ([0, 5, 17], TropicalInt::from(2)),
            ]),
            [
                TropicalInt::from(4),
                TropicalInt::from(2),
                TropicalInt::from(1),
            ],
            TropicalInt::from(29),
        ),
    ];

    for (poly, vars, result) in test_table {
        assert_eq!(poly.evaluate(vars), result);
    }
}

#[test]
fn test_simplify_dominated_terms() {
    let test_table: Vec<(TropicalPolynomial<2>, TropicalPolynomial<2>)> = vec![
        (
            TropicalPolynomial::from(vec![
                ([2, 3], TropicalInt::Integer(BigInt::from(5))),
                ([2, 3], TropicalInt::Integer(BigInt::from(4))),
            ]),
            TropicalPolynomial::from(vec![([2, 3], TropicalInt::Integer(BigInt::from(5)))]),
        ),
        (
            TropicalPolynomial::from(vec![
                ([2, 2], TropicalInt::Integer(BigInt::from(6))),
                ([3, 2], TropicalInt::Integer(BigInt::from(7))),
                ([2, 3], TropicalInt::Integer(BigInt::from(4))),
                ([2, 3], TropicalInt::Integer(BigInt::from(5))),
            ]),
            TropicalPolynomial::from(vec![
                ([2, 2], TropicalInt::Integer(BigInt::from(6))),
                ([3, 2], TropicalInt::Integer(BigInt::from(7))),
                ([2, 3], TropicalInt::Integer(BigInt::from(5))),
            ]),
        ),
    ];

    for (p, q) in test_table {
        println!("p = {} | q = {}", p.to_text(), q.to_text());
        assert_eq!(p, q);
    }
}
