//! Why a construction was refused.
use vstd::prelude::*;

verus! {

/// An input that an operation does not accept.
#[derive(Debug, Clone, Copy, PartialEq, Eq, Structural)]
pub enum AlgebraError {
    /// A scalar divided by the additive identity.
    DivisionByAdditiveIdentity,
    /// A monomial automorphism given a degree that is not positive.
    NonPositiveMonomialDegree,
    /// An elementary triangular row that depends on the pivot variable or one before it.
    PivotVariableDependency,
    /// A pivot that is not the index of a variable.
    PivotOutOfRange,
    /// A degree matrix of determinant zero.
    NonInvertibleDegreeMatrix,
    /// A degree matrix whose determinant is neither 1 nor -1.
    NonUnitDeterminant,
    /// An inverse degree that does not fit in a `Degree`.
    DegreeOverflow,
}

} // verus!
