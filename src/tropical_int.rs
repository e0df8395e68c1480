//! Scalars of the tropical semiring: an exact integer or the additive identity.
use crate::big::{
    big_add, big_clone, big_cmp, big_eq, big_from_i64, big_max, big_mul, big_sub, big_text, big_value,
};
use crate::error::AlgebraError;
use crate::text::decimal;
use num_bigint::BigInt;
use vstd::prelude::*;

verus! {

/// Tropical sum of two scalars: the maximum, `None` (minus infinity) being neutral.
pub open spec fn tmax(a: Option<int>, b: Option<int>) -> Option<int> {
    match (a, b) {
        (Some(x), Some(y)) => Some(if x >= y { x } else { y }),
        (None, _) => b,
        (_, None) => a,
    }
}

/// Tropical product of two scalars: the ordinary sum, `None` absorbing.
pub open spec fn ttimes(a: Option<int>, b: Option<int>) -> Option<int> {
    match (a, b) {
        (Some(x), Some(y)) => Some(x + y),
        _ => None,
    }
}

/// Tropical power: the integer scaled by `k`; minus infinity stays as it is.
pub open spec fn tpow(a: Option<int>, k: int) -> Option<int> {
    match a {
        Some(x) => Some(x * k),
        None => None,
    }
}

/// The text of a scalar: its decimal numeral, or `-∞`.
pub open spec fn scalar_text(a: Option<int>) -> Seq<char> {
    match a {
        Some(v) => decimal(v),
        None => "-∞"@,
    }
}

/// The total order of scalars: minus infinity below every integer.
pub open spec fn tcmp(a: Option<int>, b: Option<int>) -> core::cmp::Ordering {
    match (a, b) {
        (Some(x), Some(y)) => if x < y {
            core::cmp::Ordering::Less
        } else if x == y {
            core::cmp::Ordering::Equal
        } else {
            core::cmp::Ordering::Greater
        },
        (None, None) => core::cmp::Ordering::Equal,
        (None, Some(_)) => core::cmp::Ordering::Less,
        (Some(_), None) => core::cmp::Ordering::Greater,
    }
}

/// The semiring laws of the scalars: the tropical sum is commutative,
/// associative and idempotent with minus infinity neutral; the product is
/// commutative and associative, zero neutral, minus infinity absorbing, and
/// distributes over the sum; dividing by an integer undoes multiplying by it.
pub proof fn lemma_scalar_laws(a: Option<int>, b: Option<int>, c: Option<int>)
    ensures
        tmax(a, b) == tmax(b, a),
        tmax(tmax(a, b), c) == tmax(a, tmax(b, c)),
        tmax(a, a) == a,
        tmax(a, None) == a,
        ttimes(a, b) == ttimes(b, a),
        ttimes(ttimes(a, b), c) == ttimes(a, ttimes(b, c)),
        ttimes(a, Some(0int)) == a,
        ttimes(a, None) is None,
        ttimes(a, tmax(b, c)) == tmax(ttimes(a, b), ttimes(a, c)),
        b is Some ==> match ttimes(a, b) {
            Some(x) => Some(x - b->0),
            None => None::<int>,
        } == a,
{
}

/// An element of the max-plus semiring.
#[derive(Debug, Ord)]
pub enum TropicalInt {
    /// The additive identity, minus infinity.
    AdditiveIdentity,
    /// An exact integer.
    Integer(BigInt),
}

impl View for TropicalInt {
    type V = Option<int>;

    /// `None` stands for minus infinity.
    open spec fn view(&self) -> Option<int> {
        match self {
            TropicalInt::AdditiveIdentity => None,
            TropicalInt::Integer(b) => Some(big_value(*b)),
        }
    }
}

impl Clone for TropicalInt {
    fn clone(&self) -> (r: Self)
        ensures
            r@ == self@,
    {
        match self {
            TropicalInt::AdditiveIdentity => TropicalInt::AdditiveIdentity,
            TropicalInt::Integer(b) => TropicalInt::Integer(big_clone(b)),
        }
    }
}

impl TropicalInt {
    /// The scalar of an integer.
    pub fn new(value: BigInt) -> (r: Self)
        ensures
            r@ == Some(big_value(value)),
    {
        TropicalInt::Integer(value)
    }

    /// The scalar of a machine integer.
    pub fn from_i64(value: i64) -> (r: Self)
        ensures
            r@ == Some(value as int),
    {
        TropicalInt::Integer(big_from_i64(value))
    }

    /// The integer zero (not the additive identity).
    pub fn zero() -> (r: Self)
        ensures
            r@ == Some(0int),
    {
        Self::from_i64(0)
    }

    /// The integer zero, neutral for tropical multiplication.
    pub fn multiplicative_identity() -> (r: Self)
        ensures
            r@ == Some(0int),
    {
        Self::zero()
    }

    pub fn is_additive_identity(&self) -> (r: bool)
        ensures
            r == (self@ is None),
    {
        match self {
            TropicalInt::AdditiveIdentity => true,
            TropicalInt::Integer(_) => false,
        }
    }

    /// Scales the integer by `power`; the additive identity is left as it is,
    /// whatever the power, zero included.
    pub fn pow(&self, power: i64) -> (r: Self)
        ensures
            r@ == tpow(self@, power as int),
    {
        match self {
            TropicalInt::Integer(b) => TropicalInt::Integer(big_mul(b, &big_from_i64(power))),
            TropicalInt::AdditiveIdentity => TropicalInt::AdditiveIdentity,
        }
    }

    /// Tropical addition: the maximum.
    pub fn plus(&self, rhs: &Self) -> (r: Self)
        ensures
            r@ == tmax(self@, rhs@),
    {
        match (self, rhs) {
            (TropicalInt::Integer(a), TropicalInt::Integer(b)) => TropicalInt::Integer(
                big_max(big_clone(a), big_clone(b)),
            ),
            (TropicalInt::AdditiveIdentity, _) => rhs.clone(),
            (_, TropicalInt::AdditiveIdentity) => self.clone(),
        }
    }

    /// Tropical multiplication: the ordinary sum, the additive identity absorbing.
    pub fn times(&self, rhs: &Self) -> (r: Self)
        ensures
            r@ == ttimes(self@, rhs@),
    {
        match (self, rhs) {
            (TropicalInt::Integer(a), TropicalInt::Integer(b)) => TropicalInt::Integer(big_add(a, b)),
            _ => TropicalInt::AdditiveIdentity,
        }
    }

    /// Tropical division: the ordinary difference. Dividing the additive
    /// identity by an integer leaves it unchanged.
    pub fn divide(&self, rhs: &Self) -> (r: Self)
        requires
            rhs@ is Some,
        ensures
            r@ == match self@ {
                Some(x) => Some(x - rhs@->0),
                None => None::<int>,
            },
    {
        match (self, rhs) {
            (TropicalInt::Integer(a), TropicalInt::Integer(b)) => TropicalInt::Integer(big_sub(a, b)),
            _ => TropicalInt::AdditiveIdentity,
        }
    }

    /// The decimal numeral of the integer, or `-∞` for the additive identity.
    pub fn to_text(&self) -> (r: String)
        ensures
            r@ == scalar_text(self@),
    {
        match self {
            TropicalInt::Integer(b) => big_text(b),
            TropicalInt::AdditiveIdentity => String::from_str("-∞"),
        }
    }

    /// Compares two scalars; the additive identity is the unique minimum.
    pub fn compare(&self, rhs: &Self) -> (r: core::cmp::Ordering)
        ensures
            r == tcmp(self@, rhs@),
    {
        match (self, rhs) {
            (TropicalInt::Integer(a), TropicalInt::Integer(b)) => big_cmp(a, b),
            (TropicalInt::AdditiveIdentity, TropicalInt::AdditiveIdentity) => core::cmp::Ordering::Equal,
            (TropicalInt::AdditiveIdentity, _) => core::cmp::Ordering::Less,
            (_, TropicalInt::AdditiveIdentity) => core::cmp::Ordering::Greater,
        }
    }

    /// Tropical division, refusing the additive identity as divisor.
    pub fn checked_div(&self, rhs: &Self) -> (r: Result<Self, AlgebraError>)
        ensures
            rhs@ is None ==> r == Err::<Self, AlgebraError>(AlgebraError::DivisionByAdditiveIdentity),
            rhs@ is Some ==> r is Ok && r->Ok_0@ == match self@ {
                Some(x) => Some(x - rhs@->0),
                None => None::<int>,
            },
    {
        if rhs.is_additive_identity() {
            Err(AlgebraError::DivisionByAdditiveIdentity)
        } else {
            Ok(self.divide(rhs))
        }
    }

    /// Equality of the scalars.
    pub fn equals(&self, rhs: &Self) -> (r: bool)
        ensures
            r == (self@ == rhs@),
    {
        match (self, rhs) {
            (TropicalInt::Integer(a), TropicalInt::Integer(b)) => big_eq(a, b),
            (TropicalInt::AdditiveIdentity, TropicalInt::AdditiveIdentity) => true,
            _ => false,
        }
    }
}

impl PartialEq for TropicalInt {
    fn eq(&self, rhs: &Self) -> (r: bool) {
        self.equals(rhs)
    }
}

impl vstd::std_specs::cmp::PartialEqSpecImpl for TropicalInt {
    open spec fn obeys_eq_spec() -> bool {
        true
    }

    open spec fn eq_spec(&self, rhs: &Self) -> bool {
        self@ == rhs@
    }
}

impl Eq for TropicalInt {}

impl PartialOrd for TropicalInt {
    fn partial_cmp(&self, rhs: &Self) -> (r: Option<core::cmp::Ordering>) {
        Some(self.compare(rhs))
    }
}

impl vstd::std_specs::cmp::PartialOrdSpecImpl for TropicalInt {
    open spec fn obeys_partial_cmp_spec() -> bool {
        true
    }

    open spec fn partial_cmp_spec(&self, rhs: &Self) -> Option<core::cmp::Ordering> {
        Some(tcmp(self@, rhs@))
    }
}

// The operators forward to `plus` and `times`, which carry the contracts: the
// result is a value up to the representation of its integer, so the operator
// traits' structural specification is not claimed.
impl vstd::std_specs::ops::AddSpecImpl for TropicalInt {
    open spec fn obeys_add_spec() -> bool {
        false
    }

    open spec fn add_req(self, rhs: Self) -> bool {
        true
    }

    open spec fn add_spec(self, rhs: Self) -> Self {
        vstd::pervasive::arbitrary()
    }
}

impl vstd::std_specs::ops::MulSpecImpl for TropicalInt {
    open spec fn obeys_mul_spec() -> bool {
        false
    }

    open spec fn mul_req(self, rhs: Self) -> bool {
        true
    }

    open spec fn mul_spec(self, rhs: Self) -> Self {
        vstd::pervasive::arbitrary()
    }
}

impl vstd::std_specs::ops::DivSpecImpl for TropicalInt {
    open spec fn obeys_div_spec() -> bool {
        false
    }

    open spec fn div_req(self, rhs: Self) -> bool {
        rhs@ is Some
    }

    open spec fn div_spec(self, rhs: Self) -> Self {
        vstd::pervasive::arbitrary()
    }
}

impl core::ops::Add for TropicalInt {
    type Output = Self;

    fn add(self, rhs: Self) -> (r: Self)
        ensures
            r@ == tmax(self@, rhs@),
    {
        self.plus(&rhs)
    }
}

impl core::ops::AddAssign for TropicalInt {
    fn add_assign(&mut self, rhs: Self)
        ensures
            final(self)@ == tmax(old(self)@, rhs@),
    {
        *self = self.plus(&rhs);
    }
}

impl core::ops::Mul for TropicalInt {
    type Output = Self;

    fn mul(self, rhs: Self) -> (r: Self)
        ensures
            r@ == ttimes(self@, rhs@),
    {
        self.times(&rhs)
    }
}

impl core::ops::MulAssign for TropicalInt {
    fn mul_assign(&mut self, rhs: Self)
        ensures
            final(self)@ == ttimes(old(self)@, rhs@),
    {
        *self = self.times(&rhs);
    }
}

impl core::ops::Div for TropicalInt {
    type Output = Self;

    fn div(self, rhs: Self) -> (r: Self)
        ensures
            r@ == match self@ {
                Some(x) => Some(x - rhs@->0),
                None => None::<int>,
            },
    {
        self.divide(&rhs)
    }
}

impl core::ops::DivAssign for TropicalInt {
    fn div_assign(&mut self, rhs: Self)
        requires
            rhs@ is Some,
        ensures
            final(self)@ == match old(self)@ {
                Some(x) => Some(x - rhs@->0),
                None => None::<int>,
            },
    {
        *self = self.divide(&rhs);
    }
}

impl vstd::std_specs::convert::FromSpecImpl<i64> for TropicalInt {
    open spec fn obeys_from_spec() -> bool {
        false
    }

    open spec fn from_spec(value: i64) -> Self {
        vstd::pervasive::arbitrary()
    }
}

impl From<i64> for TropicalInt {
    fn from(value: i64) -> (r: Self)
        ensures
            r@ == Some(value as int),
    {
        Self::from_i64(value)
    }
}

} // verus!
