//! Several independent searches over the same puzzle, advanced in
//! round-robin lockstep until the first one succeeds.

use vstd::prelude::*;

use crate::puzzle::{MoveKind, Puzzle, difference_rep};
use crate::settings::SolveSettings;
use crate::solution::{Solution, SolveStatus};
use crate::step::{backtrack_step, place_guess, run_solve_simple, search_inv};

verus! {

/// How advancing one strategy by one step ended.
enum StepOutcome {
    /// The strategy placed a guess or backtracked and can be stepped again.
    Advanced,
    /// The strategy's state is solved.
    Solved,
    /// The strategy exhausted its search space; its state is wound back.
    Exhausted,
}

/// Advances one strategy's search by a single step: run the forced
/// deductions, check for a solution, then place a guess or backtrack.
#[verifier::loop_isolation(false)]
fn advance_strategy<T, F, G>(
    state: &mut T,
    prevs: &mut Vec<(T::Pos, T::Val, MoveKind)>,
    choice: &mut Vec<(T::Pos, Vec<T::Val>)>,
    f: F,
    g: G,
    solve_simple_on: bool,
    debug_on: bool,
    Ghost(orig): Ghost<Map<T::Pos, T::Val>>,
) -> (r: StepOutcome) where
    T: Puzzle,
    F: Fn(&T) -> Option<T::Pos>,
    G: Fn(&T, T::Pos) -> Vec<T::Val>,

    requires
        search_inv(*old(state), old(prevs)@, old(choice)@, orig),
        forall|s: &T| #[trigger] call_requires(f, (s,)),
        forall|s: &T, p: T::Pos|
            s.rep().dom().contains(p) ==> #[trigger] call_requires(g, (s, p)),
        forall|s: &T, p: Option<T::Pos>| #[trigger]
            call_ensures(f, (s,), p) ==> (p matches Some(q) ==> s.rep().dom().contains(q)),
    ensures
        search_inv(*final(state), final(prevs)@, final(choice)@, orig),
        r matches StepOutcome::Solved ==> T::solved_rep(final(state).rep()),
        r matches StepOutcome::Exhausted ==> final(state).rep() == orig && final(prevs)@.len()
            == 0 && final(choice)@.len() == 0,
        T::solved_rep(old(state).rep()) && !solve_simple_on ==> r is Solved,
{
    if solve_simple_on {
        run_solve_simple(state, prevs, choice, Ghost(orig));
    }
    if debug_on {
        state.print();
    }
    if state.is_solved() {
        return StepOutcome::Solved;
    }
    let empty = f(&*state);
    let mut placed = false;
    match empty {
        Some(x) => {
            let mut possible = g(&*state, x);
            if possible.len() > 0 {
                let v = possible.pop().unwrap();
                place_guess(state, prevs, choice, x, v, possible, Ghost(orig));
                placed = true;
            }
        },
        None => {},
    }
    if !placed {
        let stepped = backtrack_step(state, prevs, choice, Ghost(orig));
        if stepped.is_none() {
            return StepOutcome::Exhausted;
        }
    }
    StepOutcome::Advanced
}

/// Solves a puzzle using multiple strategies at the same time.
/// Each strategy is advanced one step by turn until a solution is found.
pub struct MultiBackTrackSolver<T: Puzzle> {
    /// Stores the states, one per strategy.
    pub states: Vec<T>,
    /// Stores previous values before making choices, with marks.
    pub prevs: Vec<Vec<(T::Pos, T::Val, MoveKind)>>,
    /// Stores the choices for the states.
    pub choice: Vec<Vec<(T::Pos, Vec<T::Val>)>>,
    /// Stores solve settings.
    pub settings: SolveSettings,
}

impl<T: Puzzle> MultiBackTrackSolver<T> {
    /// Every one of the first `n` per-strategy searches has been wound back:
    /// its state holds the original contents `orig` again and its undo log
    /// and choice stack are empty.
    pub open spec fn strategies_reset(self, orig: Map<T::Pos, T::Val>, n: int) -> bool {
        forall|i: int|
            0 <= i && i < n ==> ((#[trigger] self.states@[i]).rep() == orig
                && self.prevs@[i]@.len() == 0 && self.choice@[i]@.len() == 0)
    }

    /// When every strategy is marked done and each done strategy is wound
    /// back, the whole solver is wound back.
    proof fn lemma_reset_from_done(self, done: Seq<bool>, orig: Map<T::Pos, T::Val>, n: int)
        requires
            forall|k: int| 0 <= k && k < n ==> #[trigger] done[k],
            forall|k: int|
                0 <= k && k < n && #[trigger] done[k] ==> self.states@[k].rep() == orig
                    && self.prevs@[k]@.len() == 0 && self.choice@[k]@.len() == 0,
        ensures
            self.strategies_reset(orig, n),
    {
        assert forall|i: int|
            0 <= i && i < n implies ((#[trigger] self.states@[i]).rep() == orig
            && self.prevs@[i]@.len() == 0 && self.choice@[i]@.len() == 0) by {
            assert(done[i]);
        }
    }

    /// Creates a new solver.
    pub fn new(settings: SolveSettings) -> (r: MultiBackTrackSolver<T>)
        ensures
            r.states@.len() == 0,
            r.prevs@.len() == 0,
            r.choice@.len() == 0,
            r.settings == settings,
    {
        MultiBackTrackSolver {
            states: Vec::new(),
            prevs: Vec::new(),
            choice: Vec::new(),
            settings,
        }
    }

    /// Runs all strategies in round-robin lockstep and reports explicitly
    /// how the race ended.
    ///
    /// On `Solved`, the solution records which strategy won and holds that
    /// strategy's solved state (or, in difference mode, its changes relative
    /// to the original). On `Exhausted`, every strategy ran out of branches,
    /// and every per-strategy state has been wound back to the original
    /// puzzle.
    #[verifier::loop_isolation(false)]
    #[verifier::rlimit(60)]
    pub fn search<F, G>(&mut self, puzzle: T, strategies: &Vec<(F, G)>) -> (r: SolveStatus<
        T,
    >) where
        F: Copy + Fn(&T) -> Option<T::Pos>,
        G: Copy + Fn(&T, T::Pos) -> Vec<T::Val>,

        requires
            forall|k: int, s: &T|
                0 <= k < strategies@.len() ==> #[trigger] call_requires(
                    strategies@[k].0,
                    (s,),
                ),
            forall|k: int, s: &T, p: T::Pos|
                0 <= k < strategies@.len() && s.rep().dom().contains(p)
                    ==> #[trigger] call_requires(strategies@[k].1, (s, p)),
            forall|k: int, s: &T, p: Option<T::Pos>|
                0 <= k < strategies@.len() && #[trigger] call_ensures(
                    strategies@[k].0,
                    (s,),
                    p,
                ) ==> (p matches Some(q) ==> s.rep().dom().contains(q)),
        ensures
            final(self).settings == old(self).settings,
            final(self).states@.len() == strategies@.len(),
            final(self).prevs@.len() == strategies@.len(),
            final(self).choice@.len() == strategies@.len(),
            r matches SolveStatus::Solved(sol) ==> {
                &&& sol.strategy matches Some(w)
                &&& match sol.strategy {
                    Some(w) => {
                        &&& 0 <= w < strategies@.len()
                        &&& T::solved_rep(final(self).states@[w as int].rep())
                        &&& final(self).states@[w as int].rep().dom() == puzzle.rep().dom()
                        &&& sol.puzzle.rep() == if old(self).settings.difference {
                            difference_rep(
                                final(self).states@[w as int].rep(),
                                puzzle.rep(),
                                T::empty_val(),
                            )
                        } else {
                            final(self).states@[w as int].rep()
                        }
                    },
                    None => false,
                }
                &&& 1 <= sol.iterations
                &&& (old(self).settings.max_iterations matches Some(m) ==> sol.iterations
                    <= m)
            },
            r matches SolveStatus::Exhausted ==> final(self).strategies_reset(
                puzzle.rep(),
                strategies@.len() as int,
            ),
            r matches SolveStatus::OutOfIterations ==> forall|i: int|
                0 <= i < strategies@.len() ==> search_inv(
                    #[trigger] final(self).states@[i],
                    final(self).prevs@[i]@,
                    final(self).choice@[i]@,
                    puzzle.rep(),
                ),
            old(self).settings.max_iterations == Some(0u64) ==> r is OutOfIterations,
            T::solved_rep(puzzle.rep()) && !old(self).settings.solve_simple
                && strategies@.len() > 0 && (old(self).settings.max_iterations matches Some(m)
                ==> m >= 1) ==> r is Solved,
    {
        let ghost orig = puzzle.rep();
        let n = strategies.len();
        let origin = puzzle;
        self.states = Vec::new();
        self.prevs = Vec::new();
        self.choice = Vec::new();
        let mut done: Vec<bool> = Vec::new();
        let mut j: usize = 0;
        while j < n
            invariant
                j <= n,
                self.settings == old(self).settings,
                self.states@.len() == j,
                self.prevs@.len() == j,
                self.choice@.len() == j,
                done@.len() == j,
                forall|i: int|
                    0 <= i < j ==> {
                        &&& (#[trigger] self.states@[i]).rep() == orig
                        &&& self.prevs@[i]@.len() == 0
                        &&& self.choice@[i]@.len() == 0
                        &&& !done@[i]
                    },
            decreases n - j,
        {
            self.states.push(origin.duplicate());
            self.prevs.push(Vec::new());
            self.choice.push(Vec::new());
            done.push(false);
            j = j + 1;
        }
        let max: u64 = match self.settings.max_iterations {
            Some(m) => m,
            None => u64::MAX,
        };
        let mut iterations: u64 = 0;
        loop
            invariant
                self.states@.len() == n,
                self.prevs@.len() == n,
                self.choice@.len() == n,
                done@.len() == n,
                self.settings == old(self).settings,
                T::solved_rep(orig) && !old(self).settings.solve_simple ==> iterations == 0
                    && forall|k: int|
                    0 <= k < n ==> (#[trigger] self.states@[k]).rep() == orig && !done@[k],
                forall|i: int|
                    0 <= i < n ==> search_inv(
                        #[trigger] self.states@[i],
                        self.prevs@[i]@,
                        self.choice@[i]@,
                        orig,
                    ),
                forall|i: int|
                    0 <= i < n && #[trigger] done@[i] ==> self.states@[i].rep() == orig
                        && self.prevs@[i]@.len() == 0 && self.choice@[i]@.len() == 0,
                iterations <= max,
            decreases max - iterations,
        {
            if iterations >= max {
                return SolveStatus::OutOfIterations;
            }
            iterations = iterations + 1;
            let mut i: usize = 0;
            while i < n
                invariant
                    i <= n,
                    self.settings == old(self).settings,
                    T::solved_rep(orig) && !old(self).settings.solve_simple ==> i == 0
                        && forall|k: int|
                        0 <= k < n ==> (#[trigger] self.states@[k]).rep() == orig && !done@[
                            k
                        ],
                    self.states@.len() == n,
                    self.prevs@.len() == n,
                    self.choice@.len() == n,
                    done@.len() == n,
                    forall|k: int|
                        0 <= k < n ==> search_inv(
                            #[trigger] self.states@[k],
                            self.prevs@[k]@,
                            self.choice@[k]@,
                            orig,
                        ),
                    forall|k: int|
                        0 <= k < n && #[trigger] done@[k] ==> self.states@[k].rep() == orig
                            && self.prevs@[k]@.len() == 0 && self.choice@[k]@.len() == 0,
                decreases n - i,
            {
                if !done[i] {
                    let fg = strategies[i];
                    let outcome = advance_strategy(
                        &mut self.states[i],
                        &mut self.prevs[i],
                        &mut self.choice[i],
                        fg.0,
                        fg.1,
                        self.settings.solve_simple,
                        self.settings.debug,
                        Ghost(orig),
                    );
                    match outcome {
                        StepOutcome::Advanced => {},
                        StepOutcome::Solved => {
                            let mut out = self.states[i].duplicate();
                            if self.settings.difference {
                                out.remove(&origin);
                            }
                            return SolveStatus::Solved(
                                Solution { puzzle: out, iterations, strategy: Some(i) },
                            );
                        },
                        StepOutcome::Exhausted => {
                            done.set(i, true);
                        },
                    }
                }
                i = i + 1;
            }
            let mut all = true;
            let mut k: usize = 0;
            while k < n
                invariant
                    k <= n,
                    all ==> forall|m: int| 0 <= m < k ==> #[trigger] done@[m],
                    !all ==> exists|m: int| 0 <= m < k && !(#[trigger] done@[m]),
                decreases n - k,
            {
                if !done[k] {
                    all = false;
                }
                k = k + 1;
            }
            if all {
                proof {
                    self.lemma_reset_from_done(done@, orig, n as int);
                }
                return SolveStatus::Exhausted;
            }
        }
    }

    /// Solves a puzzle, advancing every supplied `(position, candidates)`
    /// strategy pair one step by turn until the first one succeeds.
    ///
    /// The second closure of each pair returns candidate values at a given
    /// position. The last value in the list has the highest priority,
    /// because the solver pops the values in turn.
    ///
    /// Exhaustion of every strategy and running out of iterations are both
    /// reported as `None`; call [`MultiBackTrackSolver::search`] to tell the
    /// two apart.
    pub fn solve<F, G>(self, puzzle: T, strategies: &Vec<(F, G)>) -> (r: Option<Solution<
        T,
    >>) where
        F: Copy + Fn(&T) -> Option<T::Pos>,
        G: Copy + Fn(&T, T::Pos) -> Vec<T::Val>,

        requires
            forall|k: int, s: &T|
                0 <= k < strategies@.len() ==> #[trigger] call_requires(
                    strategies@[k].0,
                    (s,),
                ),
            forall|k: int, s: &T, p: T::Pos|
                0 <= k < strategies@.len() && s.rep().dom().contains(p)
                    ==> #[trigger] call_requires(strategies@[k].1, (s, p)),
            forall|k: int, s: &T, p: Option<T::Pos>|
                0 <= k < strategies@.len() && #[trigger] call_ensures(
                    strategies@[k].0,
                    (s,),
                    p,
                ) ==> (p matches Some(q) ==> s.rep().dom().contains(q)),
        ensures
            r matches Some(sol) ==> {
                &&& sol.strategy matches Some(w) && 0 <= w < strategies@.len()
                &&& 1 <= sol.iterations
                &&& (self.settings.max_iterations matches Some(m) ==> sol.iterations <= m)
                &&& exists|full: Map<T::Pos, T::Val>|
                    {
                        &&& #[trigger] T::solved_rep(full)
                        &&& full.dom() == puzzle.rep().dom()
                        &&& sol.puzzle.rep() == if self.settings.difference {
                            difference_rep(full, puzzle.rep(), T::empty_val())
                        } else {
                            full
                        }
                    }
            },
            self.settings.max_iterations == Some(0u64) ==> r is None,
            T::solved_rep(puzzle.rep()) && !self.settings.solve_simple && strategies@.len()
                > 0 && (self.settings.max_iterations matches Some(m) ==> m >= 1) ==> r
                is Some,
    {
        let ghost orig = puzzle.rep();
        let mut s = self;
        let r = s.search(puzzle, strategies);
        match r {
            SolveStatus::Solved(sol) => {
                proof {
                    match sol.strategy {
                        Some(w) => {
                            let full = s.states@[w as int].rep();
                            assert(T::solved_rep(full) && full.dom() == orig.dom());
                        },
                        None => {},
                    }
                }
                Some(sol)
            },
            SolveStatus::Exhausted => None,
            SolveStatus::OutOfIterations => None,
        }
    }
}

} // verus!
