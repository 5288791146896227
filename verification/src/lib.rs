//! Arithmetic in a finite field of prime order, and the group law of points
//! on a Weierstrass elliptic curve defined over that field.
//!
//! Two value types make up the whole surface: [`field_element::FieldElement`],
//! one residue modulo a prime, and [`point::Point`], a point on a curve
//! `y^2 = x^3 + a*x + b` whose coordinates are field elements (or the
//! distinguished point at infinity). Every operation is a pure, total
//! computation that reports failure through a structured [`EccError`] value.

pub mod fermat;
pub mod field_element;
pub mod point;
pub mod render;

use vstd::prelude::*;

verus! {

/// The ways an operation of this library can fail.
///
/// Every fallible operation returns one of these kinds instead of panicking;
/// callers decide whether to retry with other inputs or abort.
#[derive(Debug, Clone, Copy, PartialEq, Eq, Structural)]
pub enum EccError {
    /// The operands belong to different prime fields.
    FieldMismatch,
    /// A residue could not be placed into `[0, prime)` (for example a modulus
    /// below two, or a residue at or above the modulus).
    OutOfRange,
    /// Division by the additive identity of the field.
    DivisionByZero,
    /// The supplied coordinates fail the curve equation.
    NotOnCurve,
    /// Two points being combined lie on different curves.
    CurveMismatch,
    /// An addition configuration outside the group law's case analysis.
    /// It is returned only for operands that break the point invariant, so
    /// for validly constructed points it is provably unreachable.
    DegenerateCase,
}

} // verus!
