use tropical_algebra::tropical_int::TropicalInt;
use tropical_algebra::tropical_polynomial::TropicalPolynomial;
use tropical_algebra::tropical_rational::TropicalRational;

#[test]
fn test_tropical_rationals() {
    let first: TropicalPolynomial<2> = TropicalPolynomial::from(vec![
        ([1, 0], TropicalInt::from(5)),
        ([0, 1], TropicalInt::from(3)),
    ]);

    let second: TropicalPolynomial<2> = TropicalPolynomial::from(vec![
        ([1, 1], TropicalInt::from(2)),
        ([0, 0], TropicalInt::from(4)),
    ]);

    let r1 = TropicalRational::new(first.clone(), second.clone());
    let r2 = TropicalRational::new(second, first);

    println!("r1 = {}", r1.to_text());
    println!("r2 = {}", r2.to_text());
    println!("r1 + r2 = {}", (r1.clone() + r2.clone()).to_text());
    println!("r1 * r2 = {}", (r1.clone() * r2.clone()).to_text());
    println!("r1 / r2 = {}", (r1 / r2).to_text());
}
