//! The capability contract a concrete puzzle type must satisfy, and the
//! mathematical model of reversible mutation through an undo log.

use vstd::prelude::*;

verus! {

/// Marks how an undo-log entry came to be.
#[derive(Clone, Copy, PartialEq, Eq, Structural, Debug)]
pub enum MoveKind {
    /// The entry records a forced deduction made outside of branching.
    Simple,
    /// The entry marks a search branch point.
    Guess,
}

/// The state that a sequence of undo entries winds back to: each entry
/// `(position, previous value)` is applied in reverse insertion order.
pub open spec fn unwound<P, V>(rep: Map<P, V>, log: Seq<(P, V)>) -> Map<P, V>
    decreases log.len(),
{
    if log.len() == 0 {
        rep
    } else {
        unwound(rep.insert(log.last().0, log.last().1), log.drop_last())
    }
}

/// Winding back a concatenated log first undoes the later entries, then the
/// earlier ones.
pub proof fn lemma_unwound_concat<P, V>(rep: Map<P, V>, a: Seq<(P, V)>, b: Seq<(P, V)>)
    ensures
        unwound(rep, a + b) == unwound(unwound(rep, b), a),
    decreases b.len(),
{
    if b.len() == 0 {
        assert(a + b =~= a);
    } else {
        assert((a + b).last() == b.last());
        assert((a + b).drop_last() =~= a + b.drop_last());
        lemma_unwound_concat(rep.insert(b.last().0, b.last().1), a, b.drop_last());
    }
}

/// Recording the previous value of a position before overwriting it keeps the
/// wound-back state unchanged.
pub proof fn lemma_unwound_push<P, V>(rep: Map<P, V>, log: Seq<(P, V)>, p: P, v: V)
    requires
        rep.dom().contains(p),
    ensures
        unwound(rep.insert(p, v), log.push((p, rep[p]))) == unwound(rep, log),
{
    let log2 = log.push((p, rep[p]));
    assert(log2.last() == (p, rep[p]));
    assert(log2.drop_last() =~= log);
    assert(rep.insert(p, v).insert(p, rep[p]) =~= rep);
}

/// The undo entries of a log of moves, with the marks dropped.
pub open spec fn undo_pairs<P, V>(log: Seq<(P, V, MoveKind)>) -> Seq<(P, V)> {
    log.map_values(|e: (P, V, MoveKind)| (e.0, e.1))
}

/// Undo entries for a run of forced deductions, all marked [`MoveKind::Simple`].
pub open spec fn simple_entries<P, V>(log: Seq<(P, V)>) -> Seq<(P, V, MoveKind)> {
    log.map_values(|e: (P, V)| (e.0, e.1, MoveKind::Simple))
}

/// The difference of solved contents `full` against original contents `orig`:
/// every position where `orig` already held a non-empty value is emptied, and
/// every other position keeps its value from `full`.
pub open spec fn difference_rep<P, V>(full: Map<P, V>, orig: Map<P, V>, empty: V) -> Map<P, V> {
    Map::new(
        |p: P| full.dom().contains(p),
        |p: P|
            if orig.dom().contains(p) && orig[p] != empty {
                empty
            } else {
                full[p]
            },
    )
}

/// Implemented by puzzles.
///
/// A puzzle stores the state of the problem, and can be modified by inserting
/// a value at a position within the puzzle. The solver does not understand
/// the internal structure of the puzzle, but is still able to find a solution
/// (if any exists).
///
/// The contents of a puzzle are modelled by [`Puzzle::rep`], a map from
/// position to value over a fixed domain of positions: `set` may not add or
/// drop positions, only overwrite values, so that recording the previous
/// value of a position is enough to undo the write.
///
/// The initial state does not have to be empty, and you can get the
/// difference at the end by setting `SolveSettings::difference(true)`.
pub trait Puzzle: Sized {
    /// The type of position.
    type Pos: Copy;

    /// The type of values stored in the puzzle.
    type Val: Copy;

    /// The mathematical contents of the puzzle: which value stands at each
    /// position of its fixed domain.
    spec fn rep(&self) -> Map<Self::Pos, Self::Val>;

    /// Whether given contents count as solved.
    spec fn solved_rep(m: Map<Self::Pos, Self::Val>) -> bool;

    /// The sentinel value that marks a position as unassigned.
    spec fn empty_val() -> Self::Val;

    /// Returns the sentinel value that marks a position as unassigned.
    fn empty_value() -> (r: Self::Val)
        ensures
            r == Self::empty_val(),
    ;

    /// Returns a deep copy of the puzzle.
    fn duplicate(&self) -> (r: Self)
        ensures
            r.rep() == self.rep(),
    ;

    /// Sets a value at a position.
    fn set(&mut self, pos: Self::Pos, val: Self::Val)
        requires
            old(self).rep().dom().contains(pos),
        ensures
            final(self).rep() == old(self).rep().insert(pos, val),
    ;

    /// Gets the value at a position.
    fn get(&self, pos: Self::Pos) -> (r: Self::Val)
        requires
            self.rep().dom().contains(pos),
        ensures
            r == self.rep()[pos],
    ;

    /// Whether the puzzle is solved.
    fn is_solved(&self) -> (r: bool)
        ensures
            r == Self::solved_rep(self.rep()),
    ;

    /// Decides equality of two positions.
    fn eq_pos(a: Self::Pos, b: Self::Pos) -> (r: bool)
        ensures
            r == (a == b),
    ;

    /// Decides equality of two values.
    fn eq_val(a: Self::Val, b: Self::Val) -> (r: bool)
        ensures
            r == (a == b),
    ;

    /// Empties every position where `other` holds a non-empty value, to show
    /// the changes of `self` relative to `other`.
    fn remove(&mut self, other: &Self)
        ensures
            final(self).rep() == difference_rep(
                old(self).rep(),
                other.rep(),
                Self::empty_val(),
            ),
    ;

    /// Solve simple stuff faster. This will reduce the number of steps in a
    /// solution. If you do not know how to solve this, leave the default.
    ///
    /// Performs forced deductions until no further one applies, and returns
    /// one `(position, previous value)` entry per assignment made, in the
    /// order the assignments were made, so that the caller can undo them.
    /// Deductions only assign to previously empty positions, so every
    /// recorded previous value is the empty sentinel.
    fn solve_simple(&mut self) -> (log: Vec<(Self::Pos, Self::Val)>)
        ensures
            final(self).rep().dom() == old(self).rep().dom(),
            forall|i: int|
                0 <= i < log@.len() ==> old(self).rep().dom().contains(
                    (#[trigger] log@[i]).0,
                ),
            forall|i: int| 0 <= i < log@.len() ==> (#[trigger] log@[i]).1 == Self::empty_val(),
            unwound(final(self).rep(), log@) == old(self).rep(),
    {
        Vec::new()
    }

    /// Prints the puzzle to standard output, as a diagnostic aid.
    /// The default does nothing.
    fn print(&self) {
    }
}

} // verus!
