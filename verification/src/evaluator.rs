//! A plain evaluation capability for callers that only want to score
//! candidate vectors, without the contract the optimizer itself needs.

use vstd::prelude::*;
use crate::objective::Evaluation;

verus! {

/// A map from a candidate vector to a fitness outcome. Unlike
/// `objective::Objective` it promises nothing about the outcome, so any
/// scorer can implement it.
pub trait Function {
    /// Evaluates one candidate.
    fn call(&self, x: &Vec<i64>) -> Evaluation;
}

} // verus!
