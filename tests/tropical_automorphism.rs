use tropical_algebra::tropical_automorphism::TropicalAutomorphism;
use tropical_algebra::tropical_int::TropicalInt;
use tropical_algebra::tropical_polynomial::TropicalPolynomial;
use tropical_algebra::tropical_rational::TropicalRational;

#[test]
fn test_apply_2() {
    let test_table: Vec<(
        TropicalAutomorphism<2>,
        TropicalPolynomial<2>,
        TropicalPolynomial<2>,
    )> = vec![
        (
            /*
                a(x, y) = (x³y^4, xy²) | a: T² -> T²
                u(x, y) = x² + y² | u: T² ->
                (u o a) = x^6y^8 + x^2y^4
            */
            TropicalAutomorphism::new([
                TropicalRational::polynomial(TropicalPolynomial::monomial(
                    [3, 4],
                    TropicalInt::zero(),
                )),
                TropicalRational::polynomial(TropicalPolynomial::monomial(
                    [1, 2],
                    TropicalInt::zero(),
                )),
            ]),
            TropicalPolynomial::from(vec![
                ([2, 0], TropicalInt::zero()),
                ([0, 2], TropicalInt::zero()),
            ]),
            TropicalPolynomial::from(vec![
                ([2, 4], TropicalInt::zero()),
                ([6, 8], TropicalInt::zero()),
            ]),
        ),
        (
            /*
                a(x, y) = (x³y^4, xy²) | a: T² -> T²
                u(x, y) = 1 + xy | u: T² -> T
                (u o a) = 1 + x^4y^6
            */
            TropicalAutomorphism::new([
                TropicalRational::polynomial(TropicalPolynomial::monomial(
                    [3, 4],
                    TropicalInt::zero(),
                )),
                TropicalRational::polynomial(TropicalPolynomial::monomial(
                    [1, 2],
                    TropicalInt::zero(),
                )),
            ]),
            TropicalPolynomial::from(vec![
                ([0, 0], TropicalInt::from(1)),
                ([1, 1], TropicalInt::from(1)),
            ]),
            TropicalPolynomial::from(vec![
                ([0, 0], TropicalInt::from(1)),
                ([4, 6], TropicalInt::from(1)),
            ]),
        ),
        (
            /*
              a(x, y) = (1xy², 2x²y)
              u(x, y) = 2xy³
              (u o a) = 2(1xy²)(2x²y)³ = 9x^7y^5
            */
            TropicalAutomorphism::monomial(
                [[1, 2], [2, 1]],
                [TropicalInt::from(1), TropicalInt::from(2)],
            ),
            TropicalPolynomial::monomial([1, 3], TropicalInt::from(2)),
            TropicalPolynomial::monomial([7, 5], TropicalInt::from(9)),
        ),
    ];

    for (alfa, u, v) in test_table {
        assert_eq!(alfa.apply(&u), v);
    }
}

#[test]
fn test_apply_3() {
    let test_table: Vec<(
        TropicalAutomorphism<3>,
        TropicalPolynomial<3>,
        TropicalPolynomial<3>,
    )> = vec![
        (
            TropicalAutomorphism::scalar(TropicalInt::from(2)),
            TropicalPolynomial::monomial([1, 2, 3], TropicalInt::from(6)),
            TropicalPolynomial::monomial([1, 2, 3], TropicalInt::from(18)),
        ),
        /*
           alfa = {
               x -> 1xy²z^4
               y -> 2xy³z^9
               z -> 3xy^5z^25
           }
           u = 6xy²z³

           alfa(u) = 6(1xy²z^4)(2xy³z^9)²(3xy^5z^25)³
                   = (6.1.4.9)(x.x².x³)(y².y^6.y^15)(z^4.z^18.z^75)
                   = 20x^6.y^23.z^97
        */
        (
            TropicalAutomorphism::monomial(
                [[1, 2, 4], [1, 3, 9], [1, 5, 25]],
                [
                    TropicalInt::from(1),
                    TropicalInt::from(2),
                    TropicalInt::from(3),
                ],
            ),
            TropicalPolynomial::monomial([1, 2, 3], TropicalInt::from(6)),
            TropicalPolynomial::monomial([6, 23, 97], TropicalInt::from(20)),
        ),
        (
            TropicalAutomorphism::monomial(
                [[1, 2, 4], [1, 3, 9], [1, 5, 25]],
                [
                    TropicalInt::from(1),
                    TropicalInt::from(2),
                    TropicalInt::from(3),
                ],
            ),
            TropicalPolynomial::monomial([1, 2, 3], TropicalInt::from(6)),
            TropicalPolynomial::monomial([6, 23, 97], TropicalInt::from(20)),
        ),
    ];

    for (alfa, u, v) in test_table {
        assert_eq!(alfa.apply(&u), v);
    }
}

#[test]
fn test_compose_2() {
    let test_table: Vec<[TropicalAutomorphism<2>; 3]> = vec![
        [
            /*
               a = { x -> 1xy² | y -> y }
               b = { x -> x | y -> y }
               a o b = a
            */
            TropicalAutomorphism::elementary_triangular(
                0,
                TropicalPolynomial::monomial([0, 3], TropicalInt::from(2)),
            ),
            TropicalAutomorphism::elementary_triangular(
                1,
                TropicalPolynomial::constant(TropicalInt::from(0)),
            ),
            TropicalAutomorphism::new([
                TropicalRational::polynomial(TropicalPolynomial::monomial(
                    [1, 3],
                    TropicalInt::from(2),
                )),
                TropicalRational::polynomial(TropicalPolynomial::variable(1)),
            ]),
        ],
        [
            /*
                a(x, y) = (1xy², 2x²y)
                b(x, y) = (2xy³, y)
                (a o b) = (
                    1(2xy³)y² = 3xy^5,
                    2(2xy³)²y = 6x²y^7
                )
            */
            TropicalAutomorphism::monomial(
                [[1, 2], [2, 1]],
                [TropicalInt::from(1), TropicalInt::from(2)],
            ),
            TropicalAutomorphism::elementary_triangular(
                0,
                TropicalPolynomial::monomial([0, 3], TropicalInt::from(2)),
            ),
            TropicalAutomorphism::new([
                TropicalRational::polynomial(TropicalPolynomial::monomial(
                    [1, 5],
                    TropicalInt::from(3),
                )),
                TropicalRational::polynomial(TropicalPolynomial::monomial(
                    [2, 7],
                    TropicalInt::from(6),
                )),
            ]),
        ],
        [
            /*
                a = (2xy³, y)
                b = (1xy², 2x²y)
                a o b = (
                    2(1xy²)(2x²y)³ = 9x^7y^5,
                    2x²y
                )
            */
            TropicalAutomorphism::elementary_triangular(
                0,
                TropicalPolynomial::monomial([0, 3], TropicalInt::from(2)),
            ),
            TropicalAutomorphism::monomial(
                [[1, 2], [2, 1]],
                [TropicalInt::from(1), TropicalInt::from(2)],
            ),
            TropicalAutomorphism::new([
                TropicalRational::polynomial(TropicalPolynomial::monomial(
                    [7, 5],
                    TropicalInt::from(9),
                )),
                TropicalRational::polynomial(TropicalPolynomial::monomial(
                    [2, 1],
                    TropicalInt::from(2),
                )),
            ]),
        ],
    ];

    for [alfa, beta, gamma] in test_table {
        assert_eq!(alfa.compose(beta), gamma);
    }
}

#[test]
fn test_compose_3() {
    let test_table: Vec<[TropicalAutomorphism<3>; 3]> = vec![
        [
            /*
                a(x, y, z) = (5xy³z² + 4xyz, y, z)
                b(x, y, z) = (x, 3yz², z),
                (a o b) = (
                    5x(3yz²)³z² + 4x(3yz²)z = 14xy³z^8 + 7xyz³,
                    3yz²,
                    z
                )
            */
            TropicalAutomorphism::elementary_triangular(
                0,
                TropicalPolynomial::from(vec![
                    ([0, 1, 1], TropicalInt::from(4)),
                    ([0, 3, 2], TropicalInt::from(5)),
                ]),
            ),
            TropicalAutomorphism::elementary_triangular(
                1,
                TropicalPolynomial::monomial([0, 0, 2], TropicalInt::from(3)),
            ),
            TropicalAutomorphism::new([
                TropicalRational::polynomial(TropicalPolynomial::from(vec![
                    ([1, 1, 3], TropicalInt::from(7)),
                    ([1, 3, 8], TropicalInt::from(14)),
                ])),
                TropicalRational::polynomial(TropicalPolynomial::monomial(
                    [0, 1, 2],
                    TropicalInt::from(3),
                )),
                TropicalRational::polynomial(TropicalPolynomial::variable(2)),
            ]),
        ],
        [
            TropicalAutomorphism::new([
                TropicalRational::polynomial(TropicalPolynomial::from(vec![
                    ([1, 1, 3], TropicalInt::from(7)),
                    ([1, 3, 8], TropicalInt::from(14)),
                ])),
                TropicalRational::polynomial(TropicalPolynomial::monomial(
                    [0, 1, 2],
                    TropicalInt::from(3),
                )),
                TropicalRational::polynomial(TropicalPolynomial::variable(2)),
            ]),
            TropicalAutomorphism::monomial(
                [[1, 2, 4], [1, 3, 9], [1, 5, 25]],
                [
                    TropicalInt::from(1),
                    TropicalInt::from(2),
                    TropicalInt::from(3),
                ],
            ),
            TropicalAutomorphism::new([
                TropicalRational::polynomial(TropicalPolynomial::from(vec![
                    ([12, 51, 231], TropicalInt::from(45)),
                    ([5, 20, 88], TropicalInt::from(19)),
                ])),
                TropicalRational::polynomial(TropicalPolynomial::monomial(
                    [3, 13, 59],
                    TropicalInt::from(11),
                )),
                TropicalRational::polynomial(TropicalPolynomial::monomial(
                    [1, 5, 25],
                    TropicalInt::from(3),
                )),
            ]),
        ],
    ];

    for [alfa, beta, gamma] in test_table {
        assert_eq!(alfa.compose(beta), gamma);
    }
}

#[test]
fn test_compose_triangulars() {
    let triangular: TropicalAutomorphism<3> = TropicalAutomorphism::elementary_triangular(
        0,
        TropicalPolynomial::from(vec![
            ([0, 1, 1], TropicalInt::from(4)),
            ([0, 3, 2], TropicalInt::from(5)),
        ]),
    )
    .compose(TropicalAutomorphism::elementary_triangular(
        1,
        TropicalPolynomial::monomial([0, 0, 2], TropicalInt::from(3)),
    ))
    .compose(TropicalAutomorphism::elementary_triangular(
        2,
        TropicalPolynomial::constant(TropicalInt::from(5)),
    ));

    for variable in 0..3 {
        let row = triangular.mapping(variable);
        assert!(row.numerator().exponents().iter().all(|multi_degree| {
            multi_degree.iter().take(variable).all(|d| *d == 0) && multi_degree[variable] == 1
        }))
    }
}
