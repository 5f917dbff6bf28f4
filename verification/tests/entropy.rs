//! Tests of the weight-learning entropy solver.

use quickbacktrack::{
    EntropyBackTrackSolver, EntropySolveSettings, NQueens, SolveSettings, legal_columns,
    NOISE_ONE,
};

fn queens_start_choice(n: u8) -> Vec<(usize, Vec<u8>)> {
    (0..n as usize).map(|row| (row, (1..=n).collect())).collect()
}

fn board_is_valid_placement(board: &[u8], n: u8) -> bool {
    if board.len() != n as usize {
        return false;
    }
    for i in 0..board.len() {
        if board[i] == 0 || board[i] > n {
            return false;
        }
        for j in 0..i {
            let d = (i - j) as u8;
            let cd = if board[i] >= board[j] { board[i] - board[j] } else { board[j] - board[i] };
            if board[i] == board[j] || cd == d {
                return false;
            }
        }
    }
    true
}

fn candidates(s: &NQueens, p: usize) -> Vec<u8> {
    let n = s.board.len() as u8;
    legal_columns(s, p, n)
}

#[test]
fn entropy_of_fresh_weights() {
    let puzzle = NQueens { board: vec![0, 0] };
    let solver = EntropyBackTrackSolver::new(
        puzzle,
        queens_start_choice(2),
        EntropySolveSettings::new(),
        SolveSettings::new(),
    );
    // Two candidates with weight 1 each: entropy is one full bit, scaled.
    assert_eq!(solver.entropy(0), 65536);
}

#[test]
fn entropy_of_a_single_candidate_is_zero() {
    let puzzle = NQueens { board: vec![0] };
    let solver = EntropyBackTrackSolver::new(
        puzzle,
        vec![(0, vec![1u8])],
        EntropySolveSettings::new(),
        SolveSettings::new(),
    );
    assert_eq!(solver.entropy(0), 0);
}

#[test]
fn observe_increments_exactly_one_weight() {
    let puzzle = NQueens { board: vec![0, 0, 0] };
    let mut solver = EntropyBackTrackSolver::new(
        puzzle,
        queens_start_choice(3),
        EntropySolveSettings::new(),
        SolveSettings::new(),
    );
    solver.observe(1, 2);
    assert_eq!(solver.weights[0], vec![1, 1, 1]);
    assert_eq!(solver.weights[1], vec![1, 2, 1]);
    assert_eq!(solver.weights[2], vec![1, 1, 1]);
    // An unknown value changes nothing.
    solver.observe(1, 9);
    assert_eq!(solver.weights[1], vec![1, 2, 1]);
}

#[test]
fn failed_attempts_reset_the_state_and_grow_weights() {
    // 3-queens has no solution: every attempt exhausts, and each one must
    // leave the state equal to the original puzzle again.
    let puzzle = NQueens { board: vec![0, 0, 0] };
    let mut solver = EntropyBackTrackSolver::new(
        puzzle,
        queens_start_choice(3),
        EntropySolveSettings::new().attempts(3),
        SolveSettings::new().max_iterations(10_000),
    );
    let (attempts, solution) = solver.solve(candidates);
    assert!(solution.is_none());
    assert_eq!(attempts, 3);
    assert_eq!(solver.state.board, vec![0, 0, 0]);
    assert!(solver.prevs.is_empty());
    assert!(solver.choice.is_empty());
    // Weights never decrease, and the failed guesses left traces.
    let mut grew = false;
    for row in &solver.weights {
        for &w in row {
            assert!(w >= 1);
            if w > 1 {
                grew = true;
            }
        }
    }
    assert!(grew);
}

#[test]
fn solves_four_queens() {
    let puzzle = NQueens { board: vec![0, 0, 0, 0] };
    let mut solver = EntropyBackTrackSolver::new(
        puzzle,
        queens_start_choice(4),
        EntropySolveSettings::new().attempts(5),
        SolveSettings::new().max_iterations(100_000),
    );
    let (_, solution) = solver.solve(candidates);
    let sol = solution.expect("4-queens has a solution");
    assert!(board_is_valid_placement(&sol.puzzle.board, 4));
}

#[test]
fn full_noise_still_finds_a_valid_solution() {
    // With the noise at its maximum every candidate list is shuffled, so
    // this exercises the shuffling path; the result must still be valid.
    let puzzle = NQueens { board: vec![0, 0, 0, 0, 0] };
    let mut solver = EntropyBackTrackSolver::new(
        puzzle,
        queens_start_choice(5),
        EntropySolveSettings::new().attempts(10).noise(NOISE_ONE).seed(7),
        SolveSettings::new().max_iterations(100_000),
    );
    let (_, solution) = solver.solve(candidates);
    let sol = solution.expect("5-queens has a solution");
    assert!(board_is_valid_placement(&sol.puzzle.board, 5));
}

#[test]
fn zero_budget_returns_no_solution() {
    let puzzle = NQueens { board: vec![0, 0, 0, 0] };
    let mut solver = EntropyBackTrackSolver::new(
        puzzle,
        queens_start_choice(4),
        EntropySolveSettings::new().attempts(4),
        SolveSettings::new().max_iterations(0),
    );
    let (_, solution) = solver.solve(candidates);
    assert!(solution.is_none());
}

#[test]
fn final_attempt_runs_with_its_own_budget_and_settings_are_restored() {
    let puzzle = NQueens { board: vec![0, 0, 0, 0] };
    let mut solver = EntropyBackTrackSolver::new(
        puzzle,
        queens_start_choice(4),
        EntropySolveSettings::new().attempts(2).noise(NOISE_ONE).final_attempt(Some(Some(
            100_000,
        ))),
        SolveSettings::new().max_iterations(0),
    );
    let (_, solution) = solver.solve(candidates);
    let sol = solution.expect("the final attempt solves 4-queens");
    assert!(board_is_valid_placement(&sol.puzzle.board, 4));
    // The overridden settings were put back.
    assert_eq!(solver.settings.max_iterations, Some(0));
    assert_eq!(solver.entropy_settings.noise, NOISE_ONE);
}

#[test]
fn without_max_iterations_no_learning_attempts_run() {
    // The attempt loop only runs while an iteration budget is set.
    let puzzle = NQueens { board: vec![0, 0, 0, 0] };
    let mut solver = EntropyBackTrackSolver::new(
        puzzle,
        queens_start_choice(4),
        EntropySolveSettings::new().attempts(5),
        SolveSettings::new(),
    );
    let (attempts, solution) = solver.solve(candidates);
    assert_eq!(attempts, 0);
    assert!(solution.is_none());
}

#[test]
fn shuffling_really_permutes_the_candidates() {
    // A single row with two legal columns: without noise the weight
    // ordering keeps the candidate order, so the last column wins. With
    // full noise the candidates are shuffled, so across seeds both
    // outcomes must appear; a shuffle that handed the list back unchanged
    // would always pick the same column.
    let mut seen = std::collections::BTreeSet::new();
    for seed in 0..20u64 {
        let puzzle = NQueens { board: vec![0] };
        let mut solver = EntropyBackTrackSolver::new(
            puzzle,
            vec![(0usize, vec![1u8, 2])],
            EntropySolveSettings::new().noise(NOISE_ONE).seed(seed),
            SolveSettings::new().max_iterations(10),
        );
        let (_, solution) = solver.solve(|_s: &NQueens, _p: usize| vec![1u8, 2]);
        seen.insert(solution.expect("one cell fills at once").puzzle.board[0]);
    }
    assert!(seen.contains(&1));
    assert!(seen.contains(&2));
}

#[test]
fn zero_budget_leaves_the_weights_untouched() {
    let puzzle = NQueens { board: vec![0, 0, 0] };
    let mut solver = EntropyBackTrackSolver::new(
        puzzle,
        queens_start_choice(3),
        EntropySolveSettings::new().attempts(2),
        SolveSettings::new().max_iterations(0),
    );
    let (_, solution) = solver.solve(candidates);
    assert!(solution.is_none());
    for row in &solver.weights {
        for &w in row {
            assert_eq!(w, 1);
        }
    }
}

#[test]
fn same_seed_gives_the_same_search() {
    let run = || {
        let puzzle = NQueens { board: vec![0, 0, 0, 0, 0, 0] };
        let mut solver = EntropyBackTrackSolver::new(
            puzzle,
            queens_start_choice(6),
            EntropySolveSettings::new().attempts(8).noise(NOISE_ONE / 2).seed(42),
            SolveSettings::new().max_iterations(100_000),
        );
        let (attempts, solution) = solver.solve(candidates);
        (attempts, solution.map(|s| s.puzzle.board))
    };
    assert_eq!(run(), run());
}
