//! Single-strategy depth-first search with an explicit undo log.

use vstd::prelude::*;

use crate::puzzle::{MoveKind, Puzzle, difference_rep, undo_pairs};
use crate::settings::SolveSettings;
use crate::solution::{Solution, SolveStatus};
use crate::step::{backtrack_step, place_guess, run_solve_simple, search_inv};

verus! {

/// Solves puzzles using back tracking.
pub struct BackTrackSolver<T: Puzzle> {
    /// Stores the original state.
    pub original: T,
    /// Stores the state.
    pub state: T,
    /// Stores the previous values of a position before making a choice,
    /// marked by how the move came to be.
    pub prevs: Vec<(T::Pos, T::Val, MoveKind)>,
    /// Stores the choices for the states.
    pub choice: Vec<(T::Pos, Vec<T::Val>)>,
    /// Stores solve settings.
    pub settings: SolveSettings,
}

impl<T: Puzzle> BackTrackSolver<T> {
    /// The solver's internal consistency: winding the undo log back from the
    /// current state restores the original contents.
    pub open spec fn wf(self) -> bool {
        search_inv(self.state, self.prevs@, self.choice@, self.original.rep())
    }

    /// Creates a new solver.
    pub fn new(puzzle: T, settings: SolveSettings) -> (r: BackTrackSolver<T>)
        ensures
            r.wf(),
            r.original.rep() == puzzle.rep(),
            r.state.rep() == puzzle.rep(),
            r.prevs@.len() == 0,
            r.choice@.len() == 0,
            r.settings == settings,
    {
        let original = puzzle.duplicate();
        let r = BackTrackSolver {
            original,
            state: puzzle,
            prevs: Vec::new(),
            choice: Vec::new(),
            settings,
        };
        proof {
            assert(undo_pairs(r.prevs@) =~= Seq::<(T::Pos, T::Val)>::empty());
        }
        r
    }

    /// Runs the depth-first search and reports explicitly how it ended:
    /// solved, exhausted, or out of iterations.
    ///
    /// On `Exhausted`, every guess and forced deduction has been undone, so
    /// the state equals the original contents again and both stacks are
    /// empty. On `Solved`, the state holds the solved contents and the
    /// returned solution holds a copy (or, in difference mode, the changes
    /// relative to the original).
    #[verifier::loop_isolation(false)]
    pub fn search<F, G>(&mut self, f: F, g: G) -> (r: SolveStatus<T>) where
        F: Fn(&T) -> Option<T::Pos>,
        G: Fn(&T, T::Pos) -> Vec<T::Val>,

        requires
            old(self).wf(),
            forall|s: &T| #[trigger] call_requires(f, (s,)),
            forall|s: &T, p: T::Pos|
                s.rep().dom().contains(p) ==> #[trigger] call_requires(g, (s, p)),
            forall|s: &T, p: Option<T::Pos>| #[trigger]
                call_ensures(f, (s,), p) ==> (p matches Some(q) ==> s.rep().dom().contains(q)),
        ensures
            final(self).original == old(self).original,
            final(self).settings == old(self).settings,
            match r {
                SolveStatus::Solved(sol) => {
                    &&& T::solved_rep(final(self).state.rep())
                    &&& final(self).state.rep().dom() == old(self).original.rep().dom()
                    &&& sol.puzzle.rep() == if old(self).settings.difference {
                        difference_rep(
                            final(self).state.rep(),
                            old(self).original.rep(),
                            T::empty_val(),
                        )
                    } else {
                        final(self).state.rep()
                    }
                    &&& sol.strategy is None
                    &&& 1 <= sol.iterations
                    &&& (old(self).settings.max_iterations matches Some(m) ==> sol.iterations
                        <= m)
                    &&& final(self).prevs@.len() == 0
                    &&& final(self).choice@.len() == 0
                },
                SolveStatus::Exhausted => {
                    &&& final(self).wf()
                    &&& final(self).state.rep() == old(self).original.rep()
                    &&& final(self).prevs@.len() == 0
                    &&& final(self).choice@.len() == 0
                },
                SolveStatus::OutOfIterations => final(self).wf(),
            },
            old(self).settings.max_iterations == Some(0u64) ==> r is OutOfIterations,
            T::solved_rep(old(self).state.rep()) && !old(self).settings.solve_simple
                && (old(self).settings.max_iterations matches Some(m) ==> m >= 1) ==> r
                is Solved,
    {
        let ghost orig = self.original.rep();
        let max: u64 = match self.settings.max_iterations {
            Some(m) => m,
            None => u64::MAX,
        };
        let mut iterations: u64 = 0;
        loop
            invariant
                self.wf(),
                self.original == old(self).original,
                self.settings == old(self).settings,
                iterations <= max,
                T::solved_rep(old(self).state.rep()) && !old(self).settings.solve_simple
                    ==> self.state == old(self).state && iterations == 0,
            decreases max - iterations,
        {
            if self.settings.solve_simple {
                run_solve_simple(&mut self.state, &mut self.prevs, &self.choice, Ghost(orig));
            }
            if self.settings.debug {
                self.state.print();
            }
            if iterations >= max {
                return SolveStatus::OutOfIterations;
            }
            iterations = iterations + 1;
            if self.state.is_solved() {
                let mut out = self.state.duplicate();
                if self.settings.difference {
                    out.remove(&self.original);
                }
                self.prevs = Vec::new();
                self.choice = Vec::new();
                return SolveStatus::Solved(
                    Solution { puzzle: out, iterations, strategy: None },
                );
            }
            let empty = f(&self.state);
            let mut placed = false;
            match empty {
                Some(x) => {
                    let mut possible = g(&self.state, x);
                    if possible.len() > 0 {
                        let v = possible.pop().unwrap();
                        place_guess(
                            &mut self.state,
                            &mut self.prevs,
                            &mut self.choice,
                            x,
                            v,
                            possible,
                            Ghost(orig),
                        );
                        placed = true;
                    }
                },
                None => {},
            }
            if !placed {
                let stepped = backtrack_step(
                    &mut self.state,
                    &mut self.prevs,
                    &mut self.choice,
                    Ghost(orig),
                );
                if stepped.is_none() {
                    return SolveStatus::Exhausted;
                }
            }
        }
    }

    /// Solves the puzzle, using a closure to look for the best position to
    /// set a value next, and a closure for picking candidates in preferred
    /// order.
    ///
    /// The second closure returns candidate values at a given position. The
    /// last value in the list has the highest priority, because the solver
    /// pops the values in turn.
    ///
    /// Exhaustion of the search space and running out of iterations are both
    /// reported as `None`; call [`BackTrackSolver::search`] to tell the two
    /// apart.
    pub fn solve<F, G>(self, f: F, g: G) -> (r: Option<Solution<T>>) where
        F: Fn(&T) -> Option<T::Pos>,
        G: Fn(&T, T::Pos) -> Vec<T::Val>,

        requires
            self.wf(),
            forall|s: &T| #[trigger] call_requires(f, (s,)),
            forall|s: &T, p: T::Pos|
                s.rep().dom().contains(p) ==> #[trigger] call_requires(g, (s, p)),
            forall|s: &T, p: Option<T::Pos>| #[trigger]
                call_ensures(f, (s,), p) ==> (p matches Some(q) ==> s.rep().dom().contains(q)),
        ensures
            r matches Some(sol) ==> {
                &&& sol.strategy is None
                &&& 1 <= sol.iterations
                &&& (self.settings.max_iterations matches Some(m) ==> sol.iterations <= m)
                &&& exists|full: Map<T::Pos, T::Val>|
                    {
                        &&& #[trigger] T::solved_rep(full)
                        &&& full.dom() == self.original.rep().dom()
                        &&& sol.puzzle.rep() == if self.settings.difference {
                            difference_rep(full, self.original.rep(), T::empty_val())
                        } else {
                            full
                        }
                    }
            },
            self.settings.max_iterations == Some(0u64) ==> r is None,
            T::solved_rep(self.state.rep()) && !self.settings.solve_simple
                && (self.settings.max_iterations matches Some(m) ==> m >= 1) ==> r is Some,
    {
        let mut s = self;
        let r = s.search(f, g);
        match r {
            SolveStatus::Solved(sol) => {
                proof {
                    let full = s.state.rep();
                    assert(T::solved_rep(full) && full.dom() == s.original.rep().dom());
                }
                Some(sol)
            },
            SolveStatus::Exhausted => None,
            SolveStatus::OutOfIterations => None,
        }
    }
}

} // verus!
