//! The evaluation boundary: the optimizer's one external collaborator.

use vstd::prelude::*;

verus! {

/// What one evaluation returns: an objective vector to minimize, an
/// aggregate constraint violation, an opaque status code and auxiliary
/// diagnostic outputs. All real values are fixed point.
pub struct Evaluation {
    pub objectives: Vec<i64>,
    pub violation: i64,
    pub status: i32,
    pub outputs: Vec<i64>,
}

/// The injected evaluation capability. The optimizer promises nothing of
/// what an implementation returns; every result is sanitized at the
/// boundary (objective count fixed, magnitudes clamped, violation made
/// nonnegative) before it enters the population, so the optimizer's own
/// guarantees hold whatever an implementation does.
pub trait Evaluator {
    /// Maps a decision vector (within the configured bounds) to its
    /// evaluation.
    fn evaluate(&mut self, x: &Vec<i64>) -> Evaluation;
}

} // verus!
