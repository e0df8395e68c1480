use num_bigint::BigInt;
use tropical_algebra::tropical_int::TropicalInt;

#[test]
fn test_tropical_plus() {
    let test_table: Vec<[TropicalInt; 3]> = vec![
        [
            TropicalInt::from(3),
            TropicalInt::from(5),
            TropicalInt::from(5),
        ],
        [
            TropicalInt::from(-1),
            TropicalInt::from(-2),
            TropicalInt::from(-1),
        ],
    ];

    for [a, b, c] in test_table {
        assert_eq!(a + b, c);
    }
}

#[test]
fn additive_identity_is_neutral_for_plus() {
    assert_eq!(TropicalInt::AdditiveIdentity + TropicalInt::from(-7), TropicalInt::from(-7));
    assert_eq!(TropicalInt::from(4) + TropicalInt::AdditiveIdentity, TropicalInt::from(4));
    assert_eq!(
        TropicalInt::AdditiveIdentity + TropicalInt::AdditiveIdentity,
        TropicalInt::AdditiveIdentity
    );
}

#[test]
fn times_is_ordinary_sum_and_identity_absorbs() {
    assert_eq!(TropicalInt::from(3) * TropicalInt::from(-5), TropicalInt::from(-2));
    assert_eq!(TropicalInt::from(3) * TropicalInt::AdditiveIdentity, TropicalInt::AdditiveIdentity);
    assert_eq!(TropicalInt::AdditiveIdentity * TropicalInt::from(3), TropicalInt::AdditiveIdentity);
}

#[test]
fn division_is_ordinary_difference() {
    assert_eq!(TropicalInt::from(3) / TropicalInt::from(5), TropicalInt::from(-2));
    assert_eq!(TropicalInt::AdditiveIdentity / TropicalInt::from(5), TropicalInt::AdditiveIdentity);
}

#[test]
fn pow_scales_and_keeps_additive_identity() {
    assert_eq!(TropicalInt::from(7).pow(3), TropicalInt::from(21));
    assert_eq!(TropicalInt::from(7).pow(-1), TropicalInt::from(-7));
    assert_eq!(TropicalInt::from(7).pow(0), TropicalInt::zero());
    assert_eq!(TropicalInt::AdditiveIdentity.pow(0), TropicalInt::AdditiveIdentity);
    assert_eq!(TropicalInt::AdditiveIdentity.pow(5), TropicalInt::AdditiveIdentity);
}

#[test]
fn big_integers_stay_exact() {
    let big = TropicalInt::new(BigInt::from(i64::MAX));
    let doubled = big.clone() * big.clone();
    assert_eq!(doubled, TropicalInt::new(BigInt::from(i64::MAX) * 2));
    assert_eq!(big.pow(4), TropicalInt::new(BigInt::from(i64::MAX) * 4));
    assert_eq!(TropicalInt::multiplicative_identity(), TropicalInt::from(0));
}

#[test]
fn equality_tells_variants_apart() {
    assert_ne!(TropicalInt::AdditiveIdentity, TropicalInt::from(0));
    assert_ne!(TropicalInt::from(1), TropicalInt::from(2));
    assert!(TropicalInt::AdditiveIdentity.is_additive_identity());
}

#[test]
fn order_puts_additive_identity_below_every_integer() {
    assert!(TropicalInt::from(3) < TropicalInt::from(5));
    assert!(TropicalInt::from(-5) < TropicalInt::from(-3));
    assert!(TropicalInt::AdditiveIdentity < TropicalInt::from(-1000));
    assert!(TropicalInt::from(7) > TropicalInt::AdditiveIdentity);
    assert_eq!(
        TropicalInt::from(2).cmp(&TropicalInt::from(2)),
        std::cmp::Ordering::Equal
    );
    assert_eq!(
        TropicalInt::from(9).compare(&TropicalInt::from(2)),
        std::cmp::Ordering::Greater
    );
    let mut values = vec![TropicalInt::from(4), TropicalInt::AdditiveIdentity, TropicalInt::from(-2)];
    values.sort();
    assert_eq!(values, vec![TropicalInt::AdditiveIdentity, TropicalInt::from(-2), TropicalInt::from(4)]);
}
