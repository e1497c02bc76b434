//! The objective capability: a map from a candidate vector to a fitness
//! outcome, evaluated once per population member each generation.

use vstd::prelude::*;
use crate::fixed::{ck, fits_i64, fx_add, fx_mul, fx_mul_spec};

verus! {

/// Outcome of evaluating one candidate, in fixed-point units.
#[derive(Clone, Copy, Debug, PartialEq, Eq, Structural)]
pub enum Evaluation {
    /// A finite fitness value, counted in `fixed::SCALE` units.
    Value(i64),
    /// The objective produced a value outside the finite scalar range.
    NonFinite,
    /// The objective could not evaluate the candidate at all.
    Failed,
}

/// What the optimizer requires of an objective: a pure map from candidate to
/// outcome, described exactly by a specification function so that the
/// fitness the optimizer reports can be pinned to it. Evaluating must not
/// touch shared mutable state; population members are scored independently.
pub trait Objective {
    /// The outcome this objective assigns to a candidate.
    spec fn fitness_of(&self, x: Seq<i64>) -> Evaluation;

    /// Evaluates one candidate.
    fn call(&self, x: &Vec<i64>) -> (r: Evaluation)
        ensures
            r == self.fitness_of(x@),
    ;
}

/// Running sum of the squared components of a candidate, each squared in
/// fixed-point arithmetic, with overflow reported as absence.
pub open spec fn quad_partial(x: Seq<i64>, k: int) -> Option<int>
    decreases k,
{
    if k <= 0 {
        Some(0)
    } else {
        match quad_partial(x, k - 1) {
            Option::None => Option::None,
            Option::Some(s) => {
                let t = fx_mul_spec(x[k - 1] as int, x[k - 1] as int);
                if !fits_i64(t) {
                    Option::None
                } else if !fits_i64(s + t) {
                    Option::None
                } else {
                    Option::Some(s + t)
                }
            },
        }
    }
}

/// Once the running sum has overflowed it stays overflowed.
proof fn lemma_quad_none(x: Seq<i64>, k: int, k2: int)
    requires
        quad_partial(x, k) == Option::<int>::None,
        k <= k2,
    ensures
        quad_partial(x, k2) == Option::<int>::None,
    decreases k2 - k,
{
    if k2 > k {
        lemma_quad_none(x, k, k2 - 1);
    }
}

/// The outcome the quadratic objective owes a candidate: its squared
/// Euclidean norm, or a non-finite report when the sum leaves the range.
pub open spec fn quad_fitness(x: Seq<i64>) -> Evaluation {
    match quad_partial(x, x.len() as int) {
        Option::Some(v) => Evaluation::Value(v as i64),
        Option::None => Evaluation::NonFinite,
    }
}

/// Example objective: the squared Euclidean norm of the candidate, the dot
/// product of the candidate with itself.
pub struct Quadratic {}

impl Quadratic {
    /// A fresh quadratic objective.
    pub fn new() -> (r: Quadratic) {
        Quadratic {  }
    }
}

impl Objective for Quadratic {
    open spec fn fitness_of(&self, x: Seq<i64>) -> Evaluation {
        quad_fitness(x)
    }

    fn call(&self, x: &Vec<i64>) -> (r: Evaluation) {
        let mut acc: i64 = 0;
        let mut i: usize = 0;
        while i < x.len()
            invariant
                i <= x@.len(),
                quad_partial(x@, i as int) == Some(acc as int),
            decreases x@.len() - i,
        {
            let sq: Option<i64> = fx_mul(x[i], x[i]);
            match sq {
                Option::None => {
                    proof {
                        assert(quad_partial(x@, i + 1) == Option::<int>::None);
                        lemma_quad_none(x@, i + 1, x@.len() as int);
                    }
                    return Evaluation::NonFinite;
                },
                Option::Some(t) => {
                    match fx_add(acc, t) {
                        Option::None => {
                            proof {
                                assert(quad_partial(x@, i + 1) == Option::<int>::None);
                                lemma_quad_none(x@, i + 1, x@.len() as int);
                            }
                            return Evaluation::NonFinite;
                        },
                        Option::Some(s) => {
                            acc = s;
                        },
                    }
                },
            }
            i = i + 1;
        }
        Evaluation::Value(acc)
    }
}

/// An objective that reports the same outcome for every candidate; with a
/// finite value it is the constant objective, and with a non-finite or
/// failed outcome it exercises the optimizer's error paths.
pub struct Constant {
    /// The outcome reported for every candidate.
    pub outcome: Evaluation,
}

impl Constant {
    /// The objective that reports the finite fitness `value` everywhere.
    pub fn new(value: i64) -> (r: Constant)
        ensures
            r.outcome == Evaluation::Value(value),
    {
        Constant { outcome: Evaluation::Value(value) }
    }

    /// The objective that reports `outcome` everywhere, whatever it is.
    pub fn with_outcome(outcome: Evaluation) -> (r: Constant)
        ensures
            r.outcome == outcome,
    {
        Constant { outcome }
    }
}

impl Objective for Constant {
    open spec fn fitness_of(&self, x: Seq<i64>) -> Evaluation {
        self.outcome
    }

    fn call(&self, x: &Vec<i64>) -> (r: Evaluation) {
        self.outcome
    }
}

/// Under a constant objective every reported fitness equals its constant:
/// the raw-mode fitness vector of a generation is uniform.
pub proof fn lemma_constant_fitness(c: Constant, v: i64, cands: Seq<Seq<i64>>, f: Seq<i64>)
    requires
        c.outcome == Evaluation::Value(v),
        f.len() == cands.len(),
        forall|k: int|
            0 <= k < f.len() ==> c.fitness_of(#[trigger] cands[k]) == Evaluation::Value(f[k]),
    ensures
        forall|k: int| 0 <= k < f.len() ==> #[trigger] f[k] == v,
{
    assert forall|k: int| 0 <= k < f.len() implies #[trigger] f[k] == v by {
        assert(c.fitness_of(cands[k]) == Evaluation::Value(f[k]));
    }
}

} // verus!
