//! Arbitrary-precision integers, borrowed from `num_bigint`.
use crate::text::decimal;
use num_bigint::BigInt;
use vstd::prelude::*;

verus! {

/// `num_bigint::BigInt`, opaque here: what it denotes is `big_value`.
#[verifier::external_type_specification]
#[verifier::external_body]
pub struct ExBigInt(BigInt);

/// The mathematical integer that a `BigInt` denotes.
pub uninterp spec fn big_value(b: BigInt) -> int;

/// Relies on `BigInt::from(i64)`: the conversion is exact.
#[verifier::external_body]
pub(crate) fn big_from_i64(v: i64) -> (r: BigInt)
    ensures
        big_value(r) == v as int,
{
    BigInt::from(v)
}

/// Relies on `Clone for BigInt`: the copy denotes the same integer.
#[verifier::external_body]
pub(crate) fn big_clone(a: &BigInt) -> (r: BigInt)
    ensures
        big_value(r) == big_value(*a),
{
    a.clone()
}

/// Relies on `Add for &BigInt`: exact addition.
#[verifier::external_body]
pub(crate) fn big_add(a: &BigInt, b: &BigInt) -> (r: BigInt)
    ensures
        big_value(r) == big_value(*a) + big_value(*b),
{
    a + b
}

/// Relies on `Sub for &BigInt`: exact subtraction.
#[verifier::external_body]
pub(crate) fn big_sub(a: &BigInt, b: &BigInt) -> (r: BigInt)
    ensures
        big_value(r) == big_value(*a) - big_value(*b),
{
    a - b
}

/// Relies on `Mul for &BigInt`: exact multiplication.
#[verifier::external_body]
pub(crate) fn big_mul(a: &BigInt, b: &BigInt) -> (r: BigInt)
    ensures
        big_value(r) == big_value(*a) * big_value(*b),
{
    a * b
}

/// Relies on `PartialEq for BigInt`: equal exactly when the integers are.
#[verifier::external_body]
pub(crate) fn big_eq(a: &BigInt, b: &BigInt) -> (r: bool)
    ensures
        r == (big_value(*a) == big_value(*b)),
{
    a == b
}

/// Relies on `Display for BigInt` (through `ToString`): the decimal numeral,
/// with a leading `-` when negative.
#[verifier::external_body]
pub(crate) fn big_text(a: &BigInt) -> (r: String)
    ensures
        r@ == decimal(big_value(*a)),
{
    a.to_string()
}

/// Relies on `Ord::cmp` for `BigInt`: the order of the integers.
#[verifier::external_body]
pub(crate) fn big_cmp(a: &BigInt, b: &BigInt) -> (r: core::cmp::Ordering)
    ensures
        r == if big_value(*a) < big_value(*b) {
            core::cmp::Ordering::Less
        } else if big_value(*a) == big_value(*b) {
            core::cmp::Ordering::Equal
        } else {
            core::cmp::Ordering::Greater
        },
{
    a.cmp(b)
}

/// Relies on `Ord::max` on `BigInt`: the larger of the two integers.
#[verifier::external_body]
pub(crate) fn big_max(a: BigInt, b: BigInt) -> (r: BigInt)
    ensures
        big_value(r) == if big_value(a) >= big_value(b) { big_value(a) } else { big_value(b) },
{
    a.max(b)
}

} // verus!
