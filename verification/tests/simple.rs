//! Tests of forced deductions, settings, and the multi-strategy racer.

use quickbacktrack::{
    ChainPuzzle, MultiBackTrackSolver, NQueens, Puzzle, SolveSettings, SolveStatus,
    legal_columns,
};

#[test]
fn solve_simple_reaches_the_same_fixed_point_in_any_scan_order() {
    let board = vec![3u8, 0, 0, 7, 0, 0];
    let scans: Vec<Vec<usize>> = vec![
        vec![0, 1, 2, 3, 4, 5],
        vec![5, 4, 3, 2, 1, 0],
        vec![2, 4, 1, 5, 0, 3],
        vec![1, 1, 5, 5, 3, 2, 4, 0],
    ];
    let mut results = Vec::new();
    for scan in scans {
        let mut p = ChainPuzzle { board: board.clone(), scan };
        p.solve_simple();
        results.push(p.board);
    }
    for r in &results {
        assert_eq!(*r, vec![3, 3, 3, 7, 7, 7]);
    }
}

#[test]
fn solve_simple_log_undoes_to_the_original() {
    let mut p = ChainPuzzle { board: vec![5u8, 0, 0, 0], scan: vec![1, 2, 3] };
    let log = p.solve_simple();
    assert_eq!(p.board, vec![5, 5, 5, 5]);
    for &(pos, prev) in log.iter().rev() {
        p.set(pos, prev);
    }
    assert_eq!(p.board, vec![5, 0, 0, 0]);
}

#[test]
fn solve_simple_on_a_puzzle_without_deductions_is_a_no_op() {
    let mut p = NQueens { board: vec![0, 2, 0] };
    let log = p.solve_simple();
    assert!(log.is_empty());
    assert_eq!(p.board, vec![0, 2, 0]);
}

#[test]
fn settings_defaults() {
    let s = SolveSettings::new();
    assert!(s.solve_simple);
    assert!(!s.debug);
    assert!(!s.difference);
    assert_eq!(s.sleep_ms, None);
    assert_eq!(s.max_iterations, None);
    assert!(!s.print_millions);
}

#[test]
fn settings_builders_chain() {
    let s = SolveSettings::new()
        .solve_simple(false)
        .debug(true)
        .difference(true)
        .sleep_ms(12)
        .max_iterations(99)
        .print_millions(true);
    assert!(!s.solve_simple);
    assert!(s.debug);
    assert!(s.difference);
    assert_eq!(s.sleep_ms, Some(12));
    assert_eq!(s.max_iterations, Some(99));
    assert!(s.print_millions);
}

#[test]
fn settings_maybe_setters() {
    let mut s = SolveSettings::new().maybe_sleep_ms(Some(5)).maybe_max_iterations(Some(7));
    assert_eq!(s.sleep_ms, Some(5));
    assert_eq!(s.max_iterations, Some(7));
    s.set_maybe_sleep_ms(None);
    s.set_maybe_max_iterations(None);
    assert_eq!(s.sleep_ms, None);
    assert_eq!(s.max_iterations, None);
    s.set_sleep_ms(3);
    s.set_max_iterations(4);
    assert_eq!(s.sleep_ms, Some(3));
    assert_eq!(s.max_iterations, Some(4));
}

fn first_empty(s: &NQueens) -> Option<usize> {
    s.board.iter().position(|&c| c == 0)
}

fn last_empty(s: &NQueens) -> Option<usize> {
    s.board.iter().rposition(|&c| c == 0)
}

fn columns6(s: &NQueens, p: usize) -> Vec<u8> {
    legal_columns(s, p, 6)
}

fn columns3(s: &NQueens, p: usize) -> Vec<u8> {
    legal_columns(s, p, 3)
}

#[test]
fn multi_solver_finds_a_solution_and_names_the_winner() {
    let puzzle = NQueens { board: vec![0; 6] };
    let solver = MultiBackTrackSolver::new(SolveSettings::new());
    let strategies: Vec<(fn(&NQueens) -> Option<usize>, fn(&NQueens, usize) -> Vec<u8>)> =
        vec![(first_empty, columns6), (last_empty, columns6)];
    let sol = solver.solve(puzzle, &strategies).expect("6-queens has a solution");
    let w = sol.strategy.expect("the winning strategy is recorded");
    assert!(w < 2);
    let board = sol.puzzle.board;
    assert_eq!(board.len(), 6);
    for i in 0..6 {
        assert!(board[i] >= 1 && board[i] <= 6);
        for j in 0..i {
            let d = (i - j) as u8;
            let cd = if board[i] >= board[j] { board[i] - board[j] } else { board[j] - board[i] };
            assert!(board[i] != board[j] && cd != d);
        }
    }
}

#[test]
fn multi_solver_fails_only_when_every_strategy_is_exhausted() {
    let puzzle = NQueens { board: vec![0, 0, 0] };
    let solver = MultiBackTrackSolver::new(SolveSettings::new());
    let strategies: Vec<(fn(&NQueens) -> Option<usize>, fn(&NQueens, usize) -> Vec<u8>)> =
        vec![(first_empty, columns3), (last_empty, columns3)];
    assert!(solver.solve(puzzle, &strategies).is_none());
}

#[test]
fn multi_solver_respects_the_shared_budget() {
    let puzzle = NQueens { board: vec![0; 6] };
    let solver = MultiBackTrackSolver::new(SolveSettings::new().max_iterations(0));
    let strategies: Vec<(fn(&NQueens) -> Option<usize>, fn(&NQueens, usize) -> Vec<u8>)> =
        vec![(first_empty, columns6)];
    assert!(solver.solve(puzzle, &strategies).is_none());
}

#[test]
fn multi_search_reports_exhaustion_and_resets_every_strategy() {
    let puzzle = NQueens { board: vec![0, 0, 0] };
    let mut solver = MultiBackTrackSolver::new(SolveSettings::new());
    let strategies: Vec<(fn(&NQueens) -> Option<usize>, fn(&NQueens, usize) -> Vec<u8>)> =
        vec![(first_empty, columns3), (last_empty, columns3)];
    let status = solver.search(puzzle, &strategies);
    assert!(matches!(status, SolveStatus::Exhausted));
    assert_eq!(solver.states.len(), 2);
    for st in &solver.states {
        assert_eq!(st.board, vec![0, 0, 0]);
    }
    for p in &solver.prevs {
        assert!(p.is_empty());
    }
    for c in &solver.choice {
        assert!(c.is_empty());
    }
}

#[test]
fn difference_is_empty_where_the_original_was_filled() {
    let mut solved = ChainPuzzle { board: vec![4u8, 4, 4, 4], scan: vec![] };
    let original = ChainPuzzle { board: vec![4u8, 0, 4, 0], scan: vec![] };
    solved.remove(&original);
    assert_eq!(solved.board, vec![0, 4, 0, 4]);
}
