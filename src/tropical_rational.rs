//! Formal fractions of tropical polynomials, never reduced.
use crate::poly_model::{has_dim, keys_fit, mul_fits, one, poly_add, poly_mul, poly_pow, pow_fits, TermMap};
use crate::tropical_polynomial::{is_poly_text, Degree, TropicalPolynomial};
use vstd::prelude::*;

verus! {

/// The numerators of a list of fractions.
pub open spec fn numerators<const N: usize>(s: Seq<TropicalRational<N>>) -> Seq<TermMap> {
    Seq::new(s.len(), |i: int| s[i]@.0)
}

/// `t` writes the fraction `r` as `(numerator) / (denominator)`.
pub open spec fn is_rational_text(r: (TermMap, TermMap), n: nat, t: Seq<char>) -> bool {
    exists|a: Seq<char>, b: Seq<char>|
        is_poly_text(r.0, n, a) && is_poly_text(r.1, n, b) && t == "("@ + a + ") / ("@ + b + ")"@
}

/// A numerator and a denominator; equality is that of the pair.
#[derive(Debug)]
pub struct TropicalRational<const N: usize> {
    numerator: TropicalPolynomial<N>,
    denominator: TropicalPolynomial<N>,
}

impl<const N: usize> View for TropicalRational<N> {
    type V = (TermMap, TermMap);

    closed spec fn view(&self) -> (TermMap, TermMap) {
        (self.numerator@, self.denominator@)
    }
}

impl<const N: usize> Clone for TropicalRational<N> {
    fn clone(&self) -> (r: Self)
        ensures
            r@ == self@,
    {
        TropicalRational { numerator: self.numerator.clone(), denominator: self.denominator.clone() }
    }
}

impl<const N: usize> TropicalRational<N> {
    pub fn new(numerator: TropicalPolynomial<N>, denominator: TropicalPolynomial<N>) -> (r: Self)
        ensures
            r@ == (numerator@, denominator@),
    {
        TropicalRational { numerator, denominator }
    }

    /// The fraction `numerator / 1`, the denominator being the multiplicative identity.
    pub fn polynomial(numerator: TropicalPolynomial<N>) -> (r: Self)
        ensures
            r@ == (numerator@, one(N as nat)),
    {
        Self::new(numerator, TropicalPolynomial::multiplicative_identity())
    }

    /// Both parts are finite maps whose exponent vectors have length `N`.
    pub proof fn lemma_view(&self)
        ensures
            self@.0.dom().finite(),
            has_dim(self@.0, N as nat),
            keys_fit(self@.0),
            self@.1.dom().finite(),
            has_dim(self@.1, N as nat),
            keys_fit(self@.1),
    {
        self.numerator.lemma_view();
        self.denominator.lemma_view();
    }

    pub fn numerator(&self) -> (r: &TropicalPolynomial<N>)
        ensures
            r@ == self@.0,
    {
        &self.numerator
    }

    pub fn denominator(&self) -> (r: &TropicalPolynomial<N>)
        ensures
            r@ == self@.1,
    {
        &self.denominator
    }

    /// Numerator and denominator each raised to `exponent`.
    pub fn pow(&self, exponent: Degree) -> (r: Self)
        requires
            pow_fits(self@.0, N as nat, exponent as int),
            pow_fits(self@.1, N as nat, exponent as int),
        ensures
            r@ == (poly_pow(self@.0, N as nat, exponent as int), poly_pow(
                self@.1,
                N as nat,
                exponent as int,
            )),
    {
        TropicalRational::new(self.numerator.pow(exponent), self.denominator.pow(exponent))
    }

    /// Reduction to lowest terms is not available: the fraction is returned as it is.
    pub fn simplify(&self) -> (r: Self)
        ensures
            r@ == self@,
    {
        self.clone()
    }

    /// `(a/b) + (c/d) = (a*d + c*b) / (b*d)`.
    pub fn plus(&self, rhs: &Self) -> (r: Self)
        requires
            mul_fits(self@.0, rhs@.1),
            mul_fits(rhs@.0, self@.1),
            mul_fits(self@.1, rhs@.1),
        ensures
            r@ == (poly_add(poly_mul(self@.0, rhs@.1), poly_mul(rhs@.0, self@.1)), poly_mul(
                self@.1,
                rhs@.1,
            )),
    {
        let numerator = self.numerator.times(&rhs.denominator).plus(&rhs.numerator.times(&self.denominator));
        let denominator = self.denominator.times(&rhs.denominator);
        TropicalRational::new(numerator, denominator).simplify()
    }

    /// `(a/b) * (c/d) = (a*c) / (b*d)`.
    pub fn times(&self, rhs: &Self) -> (r: Self)
        requires
            mul_fits(self@.0, rhs@.0),
            mul_fits(self@.1, rhs@.1),
        ensures
            r@ == (poly_mul(self@.0, rhs@.0), poly_mul(self@.1, rhs@.1)),
    {
        let numerator = self.numerator.times(&rhs.numerator);
        let denominator = self.denominator.times(&rhs.denominator);
        TropicalRational::new(numerator, denominator).simplify()
    }

    /// `(a/b) / (c/d) = (a*d) / (b*c)`.
    pub fn divided_by(&self, rhs: &Self) -> (r: Self)
        requires
            mul_fits(self@.0, rhs@.1),
            mul_fits(self@.1, rhs@.0),
        ensures
            r@ == (poly_mul(self@.0, rhs@.1), poly_mul(self@.1, rhs@.0)),
    {
        TropicalRational::new(self.numerator.times(&rhs.denominator), self.denominator.times(&rhs.numerator))
    }

    /// The fraction as `(numerator) / (denominator)`.
    pub fn to_text(&self) -> (r: String)
        ensures
            is_rational_text(self@, N as nat, r@),
    {
        let a = self.numerator.to_text();
        let b = self.denominator.to_text();
        let mut out = String::from_str("(");
        out.append(a.as_str());
        out.append(") / (");
        out.append(b.as_str());
        out.append(")");
        proof {
            assert(out@ =~= "("@ + a@ + ") / ("@ + b@ + ")"@);
        }
        out
    }

    /// Equality of the pairs, not of the fractions they stand for.
    pub fn equals(&self, other: &Self) -> (r: bool)
        ensures
            r == (self@ == other@),
    {
        self.numerator.equals(&other.numerator) && self.denominator.equals(&other.denominator)
    }
}

impl<const N: usize> PartialEq for TropicalRational<N> {
    fn eq(&self, other: &Self) -> (r: bool) {
        self.equals(other)
    }
}

impl<const N: usize> vstd::std_specs::cmp::PartialEqSpecImpl for TropicalRational<N> {
    open spec fn obeys_eq_spec() -> bool {
        true
    }

    open spec fn eq_spec(&self, other: &Self) -> bool {
        self@ == other@
    }
}

impl<const N: usize> Eq for TropicalRational<N> {}

// The operators forward to `plus`, `times` and `divided_by`, which carry the
// contracts; the operator traits' structural specification is not claimed.
impl<const N: usize> vstd::std_specs::ops::AddSpecImpl for TropicalRational<N> {
    open spec fn obeys_add_spec() -> bool {
        false
    }

    open spec fn add_req(self, rhs: Self) -> bool {
        &&& mul_fits(self@.0, rhs@.1)
        &&& mul_fits(rhs@.0, self@.1)
        &&& mul_fits(self@.1, rhs@.1)
    }

    open spec fn add_spec(self, rhs: Self) -> Self {
        vstd::pervasive::arbitrary()
    }
}

impl<const N: usize> vstd::std_specs::ops::MulSpecImpl for TropicalRational<N> {
    open spec fn obeys_mul_spec() -> bool {
        false
    }

    open spec fn mul_req(self, rhs: Self) -> bool {
        mul_fits(self@.0, rhs@.0) && mul_fits(self@.1, rhs@.1)
    }

    open spec fn mul_spec(self, rhs: Self) -> Self {
        vstd::pervasive::arbitrary()
    }
}

impl<const N: usize> vstd::std_specs::ops::DivSpecImpl for TropicalRational<N> {
    open spec fn obeys_div_spec() -> bool {
        false
    }

    open spec fn div_req(self, rhs: Self) -> bool {
        mul_fits(self@.0, rhs@.1) && mul_fits(self@.1, rhs@.0)
    }

    open spec fn div_spec(self, rhs: Self) -> Self {
        vstd::pervasive::arbitrary()
    }
}

impl<const N: usize> core::ops::Add for TropicalRational<N> {
    type Output = Self;

    fn add(self, rhs: Self) -> (r: Self)
        ensures
            r@ == (poly_add(poly_mul(self@.0, rhs@.1), poly_mul(rhs@.0, self@.1)), poly_mul(
                self@.1,
                rhs@.1,
            )),
    {
        self.plus(&rhs)
    }
}

impl<const N: usize> core::ops::Mul for TropicalRational<N> {
    type Output = Self;

    fn mul(self, rhs: Self) -> (r: Self)
        ensures
            r@ == (poly_mul(self@.0, rhs@.0), poly_mul(self@.1, rhs@.1)),
    {
        self.times(&rhs)
    }
}

impl<const N: usize> core::ops::Div for TropicalRational<N> {
    type Output = Self;

    fn div(self, rhs: Self) -> (r: Self)
        ensures
            r@ == (poly_mul(self@.0, rhs@.1), poly_mul(self@.1, rhs@.0)),
    {
        self.divided_by(&rhs)
    }
}

impl<const N: usize> core::ops::MulAssign for TropicalRational<N> {
    fn mul_assign(&mut self, rhs: Self)
        requires
            mul_fits(old(self)@.0, rhs@.0),
            mul_fits(old(self)@.1, rhs@.1),
        ensures
            final(self)@ == (poly_mul(old(self)@.0, rhs@.0), poly_mul(old(self)@.1, rhs@.1)),
    {
        *self = self.times(&rhs);
    }
}

impl<const N: usize> core::ops::DivAssign for TropicalRational<N> {
    fn div_assign(&mut self, rhs: Self)
        requires
            mul_fits(old(self)@.0, rhs@.1),
            mul_fits(old(self)@.1, rhs@.0),
        ensures
            final(self)@ == (poly_mul(old(self)@.0, rhs@.1), poly_mul(old(self)@.1, rhs@.0)),
    {
        *self = self.divided_by(&rhs);
    }
}

} // verus!
