//! End-to-end tests of the single-strategy backtracking solver.

use quickbacktrack::{
    BackTrackSolver, ChainPuzzle, NQueens, SolveSettings, SolveStatus, legal_columns,
    solve_queens,
};

fn queens_attack(ci: u8, i: usize, cj: u8, j: usize) -> bool {
    let d = if i >= j { i - j } else { j - i };
    let cd = if ci >= cj { ci - cj } else { cj - ci };
    ci == cj || cd as usize == d
}

fn board_is_valid_placement(board: &[u8], n: u8) -> bool {
    if board.len() != n as usize {
        return false;
    }
    for i in 0..board.len() {
        if board[i] == 0 || board[i] > n {
            return false;
        }
        for j in 0..i {
            if queens_attack(board[i], i, board[j], j) {
                return false;
            }
        }
    }
    true
}

/// Exhaustive search for any valid n-queens placement, for small n.
fn brute_force_queens(n: u8) -> Option<Vec<u8>> {
    let size = n as usize;
    let mut board = vec![0u8; size];
    loop {
        if board_is_valid_placement(&board, n) {
            return Some(board);
        }
        // Advance the board like an odometer over values 0..n (0 excluded
        // from validity, so effectively 1..=n).
        let mut row = 0;
        loop {
            if row == size {
                return None;
            }
            if board[row] < n {
                board[row] += 1;
                break;
            }
            board[row] = 0;
            row += 1;
        }
    }
}

#[test]
fn four_queens_end_to_end() {
    let sol = solve_queens(4, SolveSettings::new()).expect("4-queens has a solution");
    let board = sol.puzzle.board;
    assert_eq!(board.len(), 4);
    assert!(board_is_valid_placement(&board, 4));
    assert!(sol.iterations >= 1);
    assert!(sol.strategy.is_none());
}

#[test]
fn matches_brute_force_on_small_boards() {
    for n in 1..=6u8 {
        let brute = brute_force_queens(n);
        let solved = solve_queens(n, SolveSettings::new());
        assert_eq!(
            brute.is_some(),
            solved.is_some(),
            "solver and brute force disagree for n = {}",
            n
        );
        if let Some(sol) = solved {
            assert!(board_is_valid_placement(&sol.puzzle.board, n));
        }
    }
}

#[test]
fn exhaustion_restores_the_original_state() {
    // 3-queens has no solution: the search must exhaust and wind back.
    let puzzle = NQueens { board: vec![0, 0, 0] };
    let mut solver = BackTrackSolver::new(puzzle, SolveSettings::new());
    let status = solver.search(
        |s: &NQueens| s.board.iter().position(|&c| c == 0),
        |s: &NQueens, p: usize| legal_columns(s, p, 3),
    );
    assert!(matches!(status, SolveStatus::Exhausted));
    assert_eq!(solver.state.board, vec![0, 0, 0]);
    assert!(solver.prevs.is_empty());
    assert!(solver.choice.is_empty());
}

#[test]
fn exhaustion_restores_a_partially_filled_start() {
    // Row 0 pinned to column 1 leaves no way to finish on a 3-board.
    let puzzle = NQueens { board: vec![1, 0, 0] };
    let mut solver = BackTrackSolver::new(puzzle, SolveSettings::new());
    let status = solver.search(
        |s: &NQueens| s.board.iter().position(|&c| c == 0),
        |s: &NQueens, p: usize| legal_columns(s, p, 3),
    );
    assert!(matches!(status, SolveStatus::Exhausted));
    assert_eq!(solver.state.board, vec![1, 0, 0]);
}

#[test]
fn zero_iteration_budget_returns_no_solution() {
    let settings = SolveSettings::new().max_iterations(0);
    assert!(solve_queens(4, settings).is_none());
}

#[test]
fn budget_cutoff_reported_as_out_of_iterations() {
    let puzzle = NQueens { board: vec![0; 6] };
    let mut solver = BackTrackSolver::new(puzzle, SolveSettings::new().max_iterations(2));
    let status = solver.search(
        |s: &NQueens| s.board.iter().position(|&c| c == 0),
        |s: &NQueens, p: usize| legal_columns(s, p, 6),
    );
    assert!(matches!(status, SolveStatus::OutOfIterations));
}

#[test]
fn difference_mode_reports_only_changes() {
    // The chain fills every empty cell from its left neighbour; the one
    // cell that was already set comes back empty in difference mode.
    let puzzle = ChainPuzzle { board: vec![2, 0, 0], scan: vec![0, 1, 2] };
    let solver = BackTrackSolver::new(puzzle, SolveSettings::new().difference(true));
    let sol = solver
        .solve(
            |s: &ChainPuzzle| s.board.iter().position(|&c| c == 0),
            |_s: &ChainPuzzle, _p: usize| Vec::new(),
        )
        .expect("the chain fills itself by deduction");
    assert_eq!(sol.puzzle.board, vec![0, 2, 2]);
}

#[test]
fn without_difference_mode_the_full_state_returns() {
    let puzzle = ChainPuzzle { board: vec![2, 0, 0], scan: vec![0, 1, 2] };
    let solver = BackTrackSolver::new(puzzle, SolveSettings::new());
    let sol = solver
        .solve(
            |s: &ChainPuzzle| s.board.iter().position(|&c| c == 0),
            |_s: &ChainPuzzle, _p: usize| Vec::new(),
        )
        .expect("the chain fills itself by deduction");
    assert_eq!(sol.puzzle.board, vec![2, 2, 2]);
}

#[test]
fn an_already_solved_puzzle_succeeds_in_one_iteration() {
    let puzzle = ChainPuzzle { board: vec![9u8, 9], scan: vec![] };
    let solver = BackTrackSolver::new(puzzle, SolveSettings::new().solve_simple(false));
    let sol = solver
        .solve(
            |s: &ChainPuzzle| s.board.iter().position(|&c| c == 0),
            |_s: &ChainPuzzle, _p: usize| Vec::new(),
        )
        .expect("a solved input must be reported solved");
    assert_eq!(sol.iterations, 1);
    assert_eq!(sol.puzzle.board, vec![9, 9]);
}

#[test]
fn candidates_are_tried_from_the_end() {
    // One empty row, two candidate columns: the last one wins first.
    let puzzle = NQueens { board: vec![0] };
    let solver = BackTrackSolver::new(puzzle, SolveSettings::new());
    let sol = solver
        .solve(
            |s: &NQueens| s.board.iter().position(|&c| c == 0),
            |_s: &NQueens, _p: usize| vec![2u8, 1u8],
        )
        .expect("a single cell is filled at once");
    assert_eq!(sol.puzzle.board, vec![1]);
}
