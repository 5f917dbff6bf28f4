//! Configuration for the backtracking solvers.

use vstd::prelude::*;

verus! {

/// Stores settings for a solver run.
///
/// Default settings:
///
/// - solve_simple: `true`
/// - debug: `false`
/// - difference: `false`
/// - sleep_ms: `None`
/// - max_iterations: `None`
/// - print_millions: `false`
pub struct SolveSettings {
    /// Whether to solve simple steps between guesses.
    pub solve_simple: bool,
    /// Whether diagnostic output was requested.
    pub debug: bool,
    /// Whether to report the difference from the original puzzle on success.
    pub difference: bool,
    /// The number of milliseconds to pause before each diagnostic step, if any.
    pub sleep_ms: Option<u64>,
    /// The maximum number of iterations before giving up, if any.
    pub max_iterations: Option<u64>,
    /// Whether a periodic progress heartbeat was requested.
    pub print_millions: bool,
}

impl SolveSettings {
    /// Creates new solve settings with the default values.
    pub fn new() -> (r: SolveSettings)
        ensures
            r.solve_simple == true,
            r.debug == false,
            r.difference == false,
            r.sleep_ms is None,
            r.max_iterations is None,
            r.print_millions == false,
    {
        SolveSettings {
            solve_simple: true,
            debug: false,
            difference: false,
            sleep_ms: None,
            max_iterations: None,
            print_millions: false,
        }
    }

    /// Sets whether to solve simple moves between each step.
    pub fn set_solve_simple(&mut self, val: bool)
        ensures
            *final(self) == (SolveSettings { solve_simple: val, ..*old(self) }),
    {
        self.solve_simple = val;
    }

    /// Whether to solve simple moves between each step.
    pub fn solve_simple(self, val: bool) -> (r: Self)
        ensures
            r == (SolveSettings { solve_simple: val, ..self }),
    {
        let mut s = self;
        s.set_solve_simple(val);
        s
    }

    /// Sets whether to trace decisions for debugging.
    pub fn set_debug(&mut self, val: bool)
        ensures
            *final(self) == (SolveSettings { debug: val, ..*old(self) }),
    {
        self.debug = val;
    }

    /// Whether to trace decisions for debugging.
    pub fn debug(self, val: bool) -> (r: Self)
        ensures
            r == (SolveSettings { debug: val, ..self }),
    {
        let mut s = self;
        s.set_debug(val);
        s
    }

    /// Sets whether to return the difference from the initial puzzle.
    pub fn set_difference(&mut self, val: bool)
        ensures
            *final(self) == (SolveSettings { difference: val, ..*old(self) }),
    {
        self.difference = val;
    }

    /// Whether to return the difference from the initial puzzle.
    pub fn difference(self, val: bool) -> (r: Self)
        ensures
            r == (SolveSettings { difference: val, ..self }),
    {
        let mut s = self;
        s.set_difference(val);
        s
    }

    /// Sets how many milliseconds to pause between each step, if any.
    pub fn set_maybe_sleep_ms(&mut self, val: Option<u64>)
        ensures
            *final(self) == (SolveSettings { sleep_ms: val, ..*old(self) }),
    {
        self.sleep_ms = val;
    }

    /// Sets how many milliseconds to pause between each step, if any.
    pub fn maybe_sleep_ms(self, val: Option<u64>) -> (r: Self)
        ensures
            r == (SolveSettings { sleep_ms: val, ..self }),
    {
        let mut s = self;
        s.set_maybe_sleep_ms(val);
        s
    }

    /// Sets how many milliseconds to pause between each step.
    pub fn set_sleep_ms(&mut self, val: u64)
        ensures
            *final(self) == (SolveSettings { sleep_ms: Some(val), ..*old(self) }),
    {
        self.sleep_ms = Some(val);
    }

    /// How many milliseconds to pause between each step.
    pub fn sleep_ms(self, val: u64) -> (r: Self)
        ensures
            r == (SolveSettings { sleep_ms: Some(val), ..self }),
    {
        let mut s = self;
        s.set_sleep_ms(val);
        s
    }

    /// Sets the maximum number of iterations before giving up, if any.
    pub fn set_maybe_max_iterations(&mut self, val: Option<u64>)
        ensures
            *final(self) == (SolveSettings { max_iterations: val, ..*old(self) }),
    {
        self.max_iterations = val;
    }

    /// The maximum number of iterations before giving up, if any.
    pub fn maybe_max_iterations(self, val: Option<u64>) -> (r: Self)
        ensures
            r == (SolveSettings { max_iterations: val, ..self }),
    {
        let mut s = self;
        s.set_maybe_max_iterations(val);
        s
    }

    /// Sets the maximum number of iterations before giving up.
    pub fn set_max_iterations(&mut self, val: u64)
        ensures
            *final(self) == (SolveSettings { max_iterations: Some(val), ..*old(self) }),
    {
        self.max_iterations = Some(val);
    }

    /// The maximum number of iterations before giving up.
    pub fn max_iterations(self, val: u64) -> (r: Self)
        ensures
            r == (SolveSettings { max_iterations: Some(val), ..self }),
    {
        let mut s = self;
        s.set_max_iterations(val);
        s
    }

    /// Sets whether a progress heartbeat every million iterations was requested.
    pub fn set_print_millions(&mut self, val: bool)
        ensures
            *final(self) == (SolveSettings { print_millions: val, ..*old(self) }),
    {
        self.print_millions = val;
    }

    /// Whether a progress heartbeat every million iterations was requested.
    pub fn print_millions(self, val: bool) -> (r: Self)
        ensures
            r == (SolveSettings { print_millions: val, ..self }),
    {
        let mut s = self;
        s.set_print_millions(val);
        s
    }
}

} // verus!
