//! The result types shared by the solvers.

use vstd::prelude::*;

verus! {

/// Contains a solution.
pub struct Solution<T> {
    /// The solved puzzle.
    pub puzzle: T,
    /// The number of iterations used to solve the puzzle.
    pub iterations: u64,
    /// The strategy that found the solution, when several raced.
    pub strategy: Option<usize>,
}

/// How a search ended.
///
/// A search that fails does so for one of two reasons that callers may want
/// to tell apart: the search space was exhausted, so no solution exists under
/// the given strategy, or the iteration budget ran out first.
pub enum SolveStatus<T> {
    /// A solution was found.
    Solved(Solution<T>),
    /// Every branch was tried without success; the state has been wound back
    /// to the original puzzle.
    Exhausted,
    /// The iteration budget was spent before the search could finish.
    OutOfIterations,
}

} // verus!
