//! Two small verified puzzles that exercise the engine: an n-queens board
//! and a value-propagation chain with forced deductions.

use vstd::prelude::*;

use crate::puzzle::{Puzzle, lemma_unwound_push, unwound};
use crate::settings::SolveSettings;
use crate::solution::Solution;
use crate::solver::BackTrackSolver;

verus! {

/// An n-queens board: one entry per row, where 0 marks an empty row and a
/// value `v` in `1..=n` puts a queen in column `v - 1` of that row.
pub struct NQueens {
    /// The column choice of each row.
    pub board: Vec<u8>,
}

/// Whether the queens of two distinct rows stand in peace: different
/// columns, and not on a shared diagonal.
pub open spec fn queens_ok(m: Map<usize, u8>, i: usize, j: usize) -> bool {
    &&& m[i] != m[j]
    &&& (m[i] as int - m[j] as int) != (j as int - i as int)
    &&& (m[j] as int - m[i] as int) != (j as int - i as int)
}

impl Puzzle for NQueens {
    type Pos = usize;

    type Val = u8;

    open spec fn rep(&self) -> Map<usize, u8> {
        Map::new(|i: usize| i < self.board@.len(), |i: usize| self.board@[i as int])
    }

    open spec fn solved_rep(m: Map<usize, u8>) -> bool {
        &&& forall|i: usize| m.dom().contains(i) ==> m[i] != 0
        &&& forall|i: usize, j: usize|
            m.dom().contains(i) && m.dom().contains(j) && i < j ==> #[trigger] queens_ok(
                m,
                i,
                j,
            )
    }

    open spec fn empty_val() -> u8 {
        0
    }

    fn empty_value() -> (r: u8) {
        0
    }

    #[verifier::loop_isolation(false)]
    fn duplicate(&self) -> (r: Self) {
        let n = self.board.len();
        let mut board: Vec<u8> = Vec::new();
        let mut i: usize = 0;
        while i < n
            invariant
                i <= n,
                board@ == self.board@.take(i as int),
            decreases n - i,
        {
            board.push(self.board[i]);
            proof {
                assert(board@ =~= self.board@.take(i as int + 1));
            }
            i = i + 1;
        }
        proof {
            assert(self.board@.take(n as int) =~= self.board@);
        }
        let r = NQueens { board };
        proof {
            assert(r.rep() =~= self.rep());
        }
        r
    }

    fn set(&mut self, pos: usize, val: u8) {
        self.board.set(pos, val);
        proof {
            assert(self.rep() =~= old(self).rep().insert(pos, val));
        }
    }

    fn get(&self, pos: usize) -> (r: u8) {
        self.board[pos]
    }

    #[verifier::loop_isolation(false)]
    fn is_solved(&self) -> (r: bool) {
        let n = self.board.len();
        let mut i: usize = 0;
        while i < n
            invariant
                i <= n,
                forall|a: usize| a < i ==> self.board@[a as int] != 0,
                forall|a: usize, b: usize|
                    b < i && a < b ==> #[trigger] queens_ok(self.rep(), a, b),
            decreases n - i,
        {
            if self.board[i] == 0 {
                proof {
                    assert(self.rep().dom().contains(i) && self.rep()[i] == 0);
                }
                return false;
            }
            let ci = self.board[i];
            let mut j: usize = 0;
            while j < i
                invariant
                    j <= i,
                    forall|a: usize| a < j ==> #[trigger] queens_ok(self.rep(), a, i),
                decreases i - j,
            {
                let cj = self.board[j];
                let d = i - j;
                let cd: u8 = if ci >= cj {
                    ci - cj
                } else {
                    cj - ci
                };
                if cj == ci || cd as usize == d {
                    proof {
                        assert(!queens_ok(self.rep(), j, i));
                        assert(self.rep().dom().contains(j) && self.rep().dom().contains(i));
                    }
                    return false;
                }
                j = j + 1;
            }
            i = i + 1;
        }
        true
    }

    fn eq_pos(a: usize, b: usize) -> (r: bool) {
        a == b
    }

    fn eq_val(a: u8, b: u8) -> (r: bool) {
        a == b
    }

    #[verifier::loop_isolation(false)]
    fn remove(&mut self, other: &Self) {
        let n = self.board.len();
        let mut i: usize = 0;
        while i < n
            invariant
                i <= n,
                self.board@.len() == n,
                forall|a: int|
                    i <= a < n ==> #[trigger] self.board@[a] == old(self).board@[a],
                forall|a: int|
                    0 <= a < i ==> #[trigger] self.board@[a] == (if a
                        < other.board@.len() && other.board@[a] != 0 {
                        0u8
                    } else {
                        old(self).board@[a]
                    }),
            decreases n - i,
        {
            if i < other.board.len() {
                if other.board[i] != 0 {
                    self.board.set(i, 0);
                }
            }
            i = i + 1;
        }
        proof {
            assert(self.rep() =~= crate::puzzle::difference_rep(
                old(self).rep(),
                other.rep(),
                0u8,
            ));
        }
    }
}

/// The first empty row of an n-queens board, if any: it holds 0 and every
/// earlier row is filled. `None` means no row is empty.
#[verifier::loop_isolation(false)]
pub fn first_empty_row(s: &NQueens) -> (r: Option<usize>)
    ensures
        r matches Some(p) ==> s.rep().dom().contains(p) && p < s.board@.len() && s.board@[
            p as int
        ] == 0 && (forall|q: int| 0 <= q < p ==> s.board@[q] != 0),
        r is None ==> forall|q: int| 0 <= q < s.board@.len() ==> s.board@[q] != 0,
{
    let n = s.board.len();
    let mut i: usize = 0;
    while i < n
        invariant
            i <= n,
            forall|q: int| 0 <= q < i ==> s.board@[q] != 0,
        decreases n - i,
    {
        if s.board[i] == 0 {
            return Some(i);
        }
        i = i + 1;
    }
    None
}

/// Whether a queen value `c` placed at `row` clashes with the queen value
/// `ci` standing at row `i`: the same column, or a shared diagonal.
pub open spec fn column_conflicts(ci: u8, c: u8, i: int, row: int) -> bool {
    let d = if i >= row {
        i - row
    } else {
        row - i
    };
    let cd = if ci >= c {
        ci - c
    } else {
        c - ci
    };
    ci == c || cd == d
}

/// The columns that can take a queen in the given row without conflicting
/// with any queen already placed, encoded as the values `1..=n`: every
/// returned value lies in that range and clashes with no filled row other
/// than `row` itself.
#[verifier::loop_isolation(false)]
pub fn legal_columns(s: &NQueens, row: usize, n: u8) -> (r: Vec<u8>)
    ensures
        forall|k: int| 0 <= k < r@.len() ==> 1 <= (#[trigger] r@[k]) && r@[k] <= n,
        forall|k: int, i: int|
            0 <= k < r@.len() && 0 <= i < s.board@.len() && i != row as int && (
            #[trigger] s.board@[i]) != 0 ==> !column_conflicts(
                s.board@[i],
                #[trigger] r@[k],
                i,
                row as int,
            ),
{
    let len = s.board.len();
    let mut r: Vec<u8> = Vec::new();
    let mut c: u8 = 1;
    while c as u64 <= n as u64
        invariant
            1 <= c as u64 <= n as u64 + 1,
            forall|k: int| 0 <= k < r@.len() ==> 1 <= (#[trigger] r@[k]) && r@[k] <= n,
            forall|k: int, i: int|
                0 <= k < r@.len() && 0 <= i < s.board@.len() && i != row as int && (
                #[trigger] s.board@[i]) != 0 ==> !column_conflicts(
                    s.board@[i],
                    #[trigger] r@[k],
                    i,
                    row as int,
                ),
        decreases n as u64 + 1 - c as u64,
    {
        let mut ok = true;
        let mut i: usize = 0;
        while i < len
            invariant
                i <= len,
                ok ==> forall|i2: int|
                    0 <= i2 < i && i2 != row as int && (#[trigger] s.board@[i2]) != 0
                        ==> !column_conflicts(s.board@[i2], c, i2, row as int),
            decreases len - i,
        {
            if i != row {
                let ci = s.board[i];
                if ci != 0 {
                    let cd: u8 = if ci >= c {
                        ci - c
                    } else {
                        c - ci
                    };
                    let d = if i >= row {
                        i - row
                    } else {
                        row - i
                    };
                    if ci == c || cd as usize == d {
                        ok = false;
                    }
                }
            }
            i = i + 1;
        }
        if ok {
            r.push(c);
        }
        if c as u64 == n as u64 {
            return r;
        }
        c = c + 1;
    }
    r
}

/// Solves an n-queens puzzle from an empty board, with first-empty-row
/// position selection and legal-column candidate enumeration. On success
/// without difference mode, the returned board is a full, conflict-free
/// placement.
pub fn solve_queens(n: u8, settings: SolveSettings) -> (r: Option<Solution<NQueens>>)
    ensures
        r matches Some(sol) ==> {
            &&& sol.strategy is None
            &&& 1 <= sol.iterations
            &&& (!settings.difference ==> NQueens::solved_rep(sol.puzzle.rep()))
            &&& forall|p: usize|
                sol.puzzle.rep().dom().contains(p) <==> (p as int) < n as int
        },
{
    let mut board: Vec<u8> = Vec::new();
    let mut i: u8 = 0;
    while (i as u64) < (n as u64)
        invariant
            i as u64 <= n as u64,
            board@.len() == i as int,
        decreases n as u64 - i as u64,
    {
        board.push(0);
        i = i + 1;
    }
    let puzzle = NQueens { board };
    let solver = BackTrackSolver::new(puzzle, settings);
    let f = |s: &NQueens| -> (r: Option<usize>)
        ensures
            r matches Some(p) ==> s.rep().dom().contains(p),
        { first_empty_row(s) };
    let g = |s: &NQueens, p: usize| -> Vec<u8> { legal_columns(s, p, n) };
    solver.solve(f, g)
}

/// A propagation chain: a row of cells where 0 marks an empty cell, solved
/// when every cell holds a value. Its only deduction copies the value of a
/// filled cell into an empty right neighbour, so a single seeded cell can
/// fill everything to its right. The order in which cells are examined is
/// configurable, and never changes the reached fixed point.
pub struct ChainPuzzle {
    /// The cells.
    pub board: Vec<u8>,
    /// The order in which the deduction pass examines cell indices.
    pub scan: Vec<usize>,
}

impl Puzzle for ChainPuzzle {
    type Pos = usize;

    type Val = u8;

    open spec fn rep(&self) -> Map<usize, u8> {
        Map::new(|i: usize| i < self.board@.len(), |i: usize| self.board@[i as int])
    }

    open spec fn solved_rep(m: Map<usize, u8>) -> bool {
        forall|i: usize| m.dom().contains(i) ==> m[i] != 0
    }

    open spec fn empty_val() -> u8 {
        0
    }

    fn empty_value() -> (r: u8) {
        0
    }

    #[verifier::loop_isolation(false)]
    fn duplicate(&self) -> (r: Self) {
        let n = self.board.len();
        let mut board: Vec<u8> = Vec::new();
        let mut i: usize = 0;
        while i < n
            invariant
                i <= n,
                board@ == self.board@.take(i as int),
            decreases n - i,
        {
            board.push(self.board[i]);
            proof {
                assert(board@ =~= self.board@.take(i as int + 1));
            }
            i = i + 1;
        }
        proof {
            assert(self.board@.take(n as int) =~= self.board@);
        }
        let m = self.scan.len();
        let mut scan: Vec<usize> = Vec::new();
        let mut j: usize = 0;
        while j < m
            invariant
                j <= m,
            decreases m - j,
        {
            scan.push(self.scan[j]);
            j = j + 1;
        }
        let r = ChainPuzzle { board, scan };
        proof {
            assert(r.rep() =~= self.rep());
        }
        r
    }

    fn set(&mut self, pos: usize, val: u8) {
        self.board.set(pos, val);
        proof {
            assert(self.rep() =~= old(self).rep().insert(pos, val));
        }
    }

    fn get(&self, pos: usize) -> (r: u8) {
        self.board[pos]
    }

    #[verifier::loop_isolation(false)]
    fn is_solved(&self) -> (r: bool) {
        let n = self.board.len();
        let mut i: usize = 0;
        while i < n
            invariant
                i <= n,
                forall|a: usize| a < i ==> self.board@[a as int] != 0,
            decreases n - i,
        {
            if self.board[i] == 0 {
                proof {
                    assert(self.rep().dom().contains(i) && self.rep()[i] == 0);
                }
                return false;
            }
            i = i + 1;
        }
        true
    }

    fn eq_pos(a: usize, b: usize) -> (r: bool) {
        a == b
    }

    fn eq_val(a: u8, b: u8) -> (r: bool) {
        a == b
    }

    #[verifier::loop_isolation(false)]
    fn remove(&mut self, other: &Self) {
        let n = self.board.len();
        let mut i: usize = 0;
        while i < n
            invariant
                i <= n,
                self.board@.len() == n,
                self.scan == old(self).scan,
                forall|a: int|
                    i <= a < n ==> #[trigger] self.board@[a] == old(self).board@[a],
                forall|a: int|
                    0 <= a < i ==> #[trigger] self.board@[a] == (if a
                        < other.board@.len() && other.board@[a] != 0 {
                        0u8
                    } else {
                        old(self).board@[a]
                    }),
            decreases n - i,
        {
            if i < other.board.len() {
                if other.board[i] != 0 {
                    self.board.set(i, 0);
                }
            }
            i = i + 1;
        }
        proof {
            assert(self.rep() =~= crate::puzzle::difference_rep(
                old(self).rep(),
                other.rep(),
                0u8,
            ));
        }
    }

    fn solve_simple(&mut self) -> (log: Vec<(usize, u8)>) {
        self.propagate()
    }
}

/// The index of the cell that seeds cell `i` of a chain: the nearest index
/// at or before `i` whose starting cell is non-empty, or -1 when there is
/// none.
pub open spec fn chain_source(b: Seq<u8>, i: int) -> int
    decreases i + 1,
{
    if i < 0 {
        -1
    } else if b[i] != 0 {
        i
    } else {
        chain_source(b, i - 1)
    }
}

/// The value cell `i` holds at the chain's fixed point: the value of its
/// seeding cell, or 0 when no cell at or before `i` is seeded.
pub open spec fn chain_fix(b: Seq<u8>, i: int) -> u8 {
    if chain_source(b, i) >= 0 {
        b[chain_source(b, i)]
    } else {
        0u8
    }
}

/// The seeding index lies at or before the cell and names a non-empty
/// starting cell.
pub proof fn lemma_chain_source(b: Seq<u8>, i: int)
    requires
        i >= -1,
    ensures
        -1 <= chain_source(b, i),
        chain_source(b, i) <= i,
        chain_source(b, i) >= 0 ==> b[chain_source(b, i)] != 0,
    decreases i + 1,
{
    if i >= 0 && b[i] == 0 {
        lemma_chain_source(b, i - 1);
    }
}

impl ChainPuzzle {
    /// Runs the chain's deductions to their fixed point, logging one undo
    /// entry per assignment.
    ///
    /// The fixed point is confluent: whenever the scan order covers every
    /// cell, the resulting cells are exactly [`chain_fix`] of the starting
    /// cells — a function of the starting cells alone — so any two scan
    /// orders that cover the cells reach the same state. On a board already
    /// at its fixed point the pass makes no assignment: the log is empty
    /// and the cells are unchanged.
    #[verifier::loop_isolation(false)]
    pub fn propagate(&mut self) -> (log: Vec<(usize, u8)>)
        ensures
            final(self).rep().dom() == old(self).rep().dom(),
            forall|t: int|
                0 <= t < log@.len() ==> old(self).rep().dom().contains(
                    (#[trigger] log@[t]).0,
                ),
            forall|t: int| 0 <= t < log@.len() ==> (#[trigger] log@[t]).1 == 0,
            unwound(final(self).rep(), log@) == old(self).rep(),
            final(self).scan == old(self).scan,
            final(self).board@.len() == old(self).board@.len(),
            (forall|i: int|
                0 <= i < old(self).board@.len() ==> (#[trigger] old(self).board@[i])
                    == chain_fix(old(self).board@, i)) ==> log@.len() == 0
                && final(self).board@ == old(self).board@,
            (forall|idx: int|
                1 <= idx < old(self).board@.len() ==> #[trigger] old(self).scan@.contains(
                    idx as usize,
                )) ==> forall|i: int|
                0 <= i < old(self).board@.len() ==> final(self).board@[i] == chain_fix(
                    old(self).board@,
                    i,
                ),
    {
        let ghost b0 = self.board@;
        let ghost cover = forall|idx: int|
            1 <= idx < b0.len() ==> #[trigger] old(self).scan@.contains(idx as usize);
        let ghost fixed = forall|i: int|
            0 <= i < b0.len() ==> (#[trigger] b0[i]) == chain_fix(b0, i);
        let mut log: Vec<(usize, u8)> = Vec::new();
        let n = self.board.len();
        proof {
            assert forall|i: int|
                0 <= i < n && chain_source(b0, i) >= 0 && i - chain_source(b0, i)
                    <= 0 implies self.board@[i] != 0 by {
                lemma_chain_source(b0, i);
            }
        }
        let mut pass: usize = 0;
        while pass < n
            invariant
                self.board@.len() == n,
                self.scan == old(self).scan,
                unwound(self.rep(), log@) == old(self).rep(),
                forall|t: int| 0 <= t < log@.len() ==> (#[trigger] log@[t]).0 < n,
                forall|t: int| 0 <= t < log@.len() ==> (#[trigger] log@[t]).1 == 0,
                fixed ==> log@.len() == 0 && self.board@ == b0,
                forall|i: int|
                    0 <= i < n ==> (#[trigger] self.board@[i] == b0[i] || (b0[i] == 0
                        && self.board@[i] == chain_fix(b0, i) && chain_fix(b0, i) != 0)),
                cover ==> forall|i: int|
                    0 <= i < n && chain_source(b0, i) >= 0 && i - chain_source(b0, i)
                        <= pass ==> (#[trigger] self.board@[i]) != 0,
            decreases n - pass,
        {
            let m = self.scan.len();
            let mut t: usize = 0;
            while t < m
                invariant
                    t <= m,
                    self.board@.len() == n,
                    self.scan == old(self).scan,
                    unwound(self.rep(), log@) == old(self).rep(),
                    forall|u: int| 0 <= u < log@.len() ==> (#[trigger] log@[u]).0 < n,
                    forall|u: int| 0 <= u < log@.len() ==> (#[trigger] log@[u]).1 == 0,
                    fixed ==> log@.len() == 0 && self.board@ == b0,
                    forall|i: int|
                        0 <= i < n ==> (#[trigger] self.board@[i] == b0[i] || (b0[i] == 0
                            && self.board@[i] == chain_fix(b0, i) && chain_fix(b0, i)
                            != 0)),
                    cover ==> forall|i: int|
                        0 <= i < n && chain_source(b0, i) >= 0 && i - chain_source(b0, i)
                            <= pass ==> (#[trigger] self.board@[i]) != 0,
                    cover ==> forall|u: int|
                        (0 <= u && u < t && 1 <= ((#[trigger] self.scan@[u]) as int)
                            && ((self.scan@[u] as int) < n) && chain_source(
                            b0,
                            self.scan@[u] as int,
                        ) >= 0 && (self.scan@[u] as int) - chain_source(
                            b0,
                            self.scan@[u] as int,
                        ) <= pass + 1) ==> self.board@[self.scan@[u] as int] != 0,
                decreases m - t,
            {
                let idx = self.scan[t];
                if idx > 0 && idx < n {
                    if self.board[idx] == 0 && self.board[idx - 1] != 0 {
                        let v = self.board[idx - 1];
                        let ghost repc = self.rep();
                        proof {
                            if fixed {
                                assert(b0[idx as int] == chain_fix(b0, idx as int));
                                assert(b0[idx - 1] == chain_fix(b0, idx - 1));
                                assert(chain_source(b0, idx as int) == chain_source(
                                    b0,
                                    idx - 1,
                                ));
                                assert(false);
                            }
                            lemma_unwound_push(repc, log@, idx, v);
                            lemma_chain_source(b0, idx - 1);
                            assert(b0[idx as int] == 0);
                            assert(v == chain_fix(b0, idx - 1));
                            assert(chain_source(b0, idx as int) == chain_source(
                                b0,
                                idx - 1,
                            ));
                        }
                        log.push((idx, self.board[idx]));
                        self.board.set(idx, v);
                        proof {
                            assert(self.rep() =~= repc.insert(idx, v));
                        }
                    }
                }
                proof {
                    if cover {
                        let ii = idx as int;
                        if 1 <= ii < n && chain_source(b0, ii) >= 0 && ii - chain_source(
                            b0,
                            ii,
                        ) <= pass + 1 {
                            if self.board@[ii] == 0 {
                                assert(b0[ii] == 0);
                                assert(chain_source(b0, ii - 1) == chain_source(b0, ii));
                                assert(ii - 1 - chain_source(b0, ii - 1) <= pass);
                                assert(self.board@[ii - 1] != 0);
                                assert(false);
                            }
                        }
                    }
                }
                t = t + 1;
            }
            proof {
                if cover {
                    assert forall|i: int|
                        0 <= i < n && chain_source(b0, i) >= 0 && i - chain_source(b0, i)
                            <= pass + 1 implies (#[trigger] self.board@[i]) != 0 by {
                        if i - chain_source(b0, i) > pass {
                            lemma_chain_source(b0, i);
                            assert(1 <= i);
                            assert(self.scan@.contains(i as usize));
                            let u = choose|u: int|
                                0 <= u < self.scan@.len() && self.scan@[u] == i as usize;
                            assert(self.scan@[u] as int == i);
                        }
                    }
                }
            }
            pass = pass + 1;
        }
        proof {
            assert(self.rep().dom() =~= old(self).rep().dom());
            if cover {
                assert forall|i: int| 0 <= i < n implies self.board@[i] == chain_fix(
                    b0,
                    i,
                ) by {
                    lemma_chain_source(b0, i);
                    if chain_source(b0, i) >= 0 {
                        assert(self.board@[i] != 0);
                    } else {
                        assert(b0[i] == 0);
                    }
                }
            }
        }
        log
    }
}

} // verus!
