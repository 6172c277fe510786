//! Algebraic core of a sumcheck-based proving system: a dense multilinear
//! polynomial engine (variable binding and full-point evaluation) and a
//! variable-base multi-scalar-multiplication engine, both generic over a
//! field / group capability contract.
use vstd::prelude::*;

pub mod field;
pub mod group;
pub mod msm;
pub mod poly;
pub mod toolchain;

verus! {

/// Typed failures surfaced by the algebraic core. Every checked precondition
/// violation is reported to the immediate caller; none is retried or swallowed.
#[derive(Clone, Copy, Debug, PartialEq, Eq, Structural)]
pub enum AlgebraError {
    /// A polynomial was constructed with an empty or non-power-of-two table.
    InvalidShape,
    /// Variable binding was attempted on a polynomial with zero variables.
    NoVariablesRemaining,
    /// An evaluation point's length differs from the current variable count.
    DimensionMismatch,
    /// The bases and scalars of a multi-scalar multiplication differ in length.
    LengthMismatch,
    /// Field inversion was attempted on the additive identity.
    NotInvertible,
}

} // verus!
