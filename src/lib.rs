//! Exact algebra over the tropical (max-plus) semiring: scalars, sparse
//! multivariate polynomials, formal rational maps and polynomial automorphisms.
pub mod big;
pub mod error;
pub mod poly_model;
pub mod text;
pub mod tropical_int;
pub mod tropical_polynomial;
pub mod tropical_rational;
pub mod tropical_automorphism;
