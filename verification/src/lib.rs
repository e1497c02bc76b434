//! Natural Evolution Strategies: a black-box optimizer that samples a
//! population around a mean vector, scores each candidate through a
//! caller-supplied objective, and moves the search distribution (mean and
//! per-dimension scale) along a utility-weighted natural-gradient step.
//!
//! Scalars are carried as fixed-point integers counted in `fixed::SCALE`
//! units, so every arithmetic step has an exact integer meaning and overflow
//! is detected rather than folded into the search state.

use vstd::prelude::*;

pub mod evaluator;
pub mod fixed;
pub mod nes;
pub mod objective;
pub mod utils;

verus! {

/// How a generation or a construction can fail.
///
/// `ConfigurationError` covers invalid dimensions, an empty population, a
/// negative scale, or a noise source that hands back the wrong shape.
/// `InvalidFitnessError` is a non-finite fitness reported by the objective.
/// `ObjectiveEvaluationError` is an objective that could not evaluate a
/// candidate at all. `OverflowError` is update arithmetic that left the
/// representable scalar range; the search state is left untouched.
#[derive(Clone, Copy, Debug, PartialEq, Eq, Structural)]
pub enum NesError {
    ConfigurationError,
    InvalidFitnessError,
    ObjectiveEvaluationError,
    OverflowError,
}

} // verus!
