//! The stepping machinery shared by the solvers: reversible mutation of one
//! puzzle state through an undo log and a choice stack.

use vstd::prelude::*;

use crate::puzzle::{
    MoveKind, Puzzle, lemma_unwound_concat, lemma_unwound_push, simple_entries, undo_pairs,
    unwound,
};

verus! {

/// The invariant tying one search's mutable state to the original contents
/// `orig`: the domain of positions never changes, winding the undo log back
/// restores `orig` exactly, and every logged or stacked position lies in the
/// domain.
pub open spec fn search_inv<T: Puzzle>(
    state: T,
    prevs: Seq<(T::Pos, T::Val, MoveKind)>,
    choice: Seq<(T::Pos, Vec<T::Val>)>,
    orig: Map<T::Pos, T::Val>,
) -> bool {
    &&& state.rep().dom() == orig.dom()
    &&& unwound(state.rep(), undo_pairs(prevs)) == orig
    &&& forall|i: int| 0 <= i < prevs.len() ==> orig.dom().contains((#[trigger] prevs[i]).0)
    &&& forall|i: int| 0 <= i < choice.len() ==> orig.dom().contains((#[trigger] choice[i]).0)
}

/// Runs the puzzle's forced deductions and appends their undo entries to the
/// log as simple moves.
#[verifier::loop_isolation(false)]
pub(crate) fn run_solve_simple<T: Puzzle>(
    state: &mut T,
    prevs: &mut Vec<(T::Pos, T::Val, MoveKind)>,
    choice: &Vec<(T::Pos, Vec<T::Val>)>,
    Ghost(orig): Ghost<Map<T::Pos, T::Val>>,
)
    requires
        search_inv(*old(state), old(prevs)@, choice@, orig),
    ensures
        search_inv(*final(state), final(prevs)@, choice@, orig),
{
    let ghost rep0 = state.rep();
    let ghost prevs0 = prevs@;
    let log = state.solve_simple();
    let mut k: usize = 0;
    while k < log.len()
        invariant
            k <= log.len(),
            prevs@ == prevs0 + simple_entries(log@.take(k as int)),
        decreases log.len() - k,
    {
        let e = log[k];
        prevs.push((e.0, e.1, MoveKind::Simple));
        proof {
            assert(prevs0 + simple_entries(log@.take(k as int)) + seq![
                (e.0, e.1, MoveKind::Simple),
            ] =~= prevs0 + simple_entries(log@.take(k + 1 as int)));
        }
        k = k + 1;
    }
    proof {
        assert(log@.take(log@.len() as int) =~= log@);
        assert(undo_pairs(prevs@) =~= undo_pairs(prevs0) + log@);
        lemma_unwound_concat(state.rep(), undo_pairs(prevs0), log@);
    }
}

/// Pops undo entries, restoring each recorded previous value, until a guess
/// entry (inclusive) has been undone or the log runs out. Returns whether any
/// entry was undone.
#[verifier::loop_isolation(false)]
pub(crate) fn undo_to_guess<T: Puzzle>(
    state: &mut T,
    prevs: &mut Vec<(T::Pos, T::Val, MoveKind)>,
    Ghost(orig): Ghost<Map<T::Pos, T::Val>>,
) -> (popped: bool)
    requires
        old(state).rep().dom() == orig.dom(),
        unwound(old(state).rep(), undo_pairs(old(prevs)@)) == orig,
        forall|i: int|
            0 <= i < old(prevs)@.len() ==> orig.dom().contains((#[trigger] old(prevs)@[i]).0),
    ensures
        final(state).rep().dom() == orig.dom(),
        unwound(final(state).rep(), undo_pairs(final(prevs)@)) == orig,
        forall|i: int|
            0 <= i < final(prevs)@.len() ==> orig.dom().contains((#[trigger] final(prevs)@[i]).0),
        popped == (old(prevs)@.len() > 0),
        final(prevs)@.len() <= old(prevs)@.len(),
{
    let mut popped = false;
    loop
        invariant
            state.rep().dom() == orig.dom(),
            unwound(state.rep(), undo_pairs(prevs@)) == orig,
            forall|i: int|
                0 <= i < prevs@.len() ==> orig.dom().contains((#[trigger] prevs@[i]).0),
            prevs@.len() <= old(prevs)@.len(),
            popped == (prevs@.len() < old(prevs)@.len()),
        decreases prevs@.len(),
    {
        let ghost pp = prevs@;
        match prevs.pop() {
            None => {
                return popped;
            },
            Some(e) => {
                proof {
                    assert(prevs@.push(e) =~= pp);
                    assert(undo_pairs(pp).drop_last() =~= undo_pairs(prevs@));
                    assert(undo_pairs(pp).last() == (e.0, e.1));
                    assert(pp[pp.len() - 1] == e);
                }
                state.set(e.0, e.1);
                popped = true;
                if matches!(e.2, MoveKind::Guess) {
                    return true;
                }
            },
        }
    }
}

/// Logs a guess at `pos`, applies `val` there, and pushes the remaining
/// candidates as a new choice frame.
pub(crate) fn place_guess<T: Puzzle>(
    state: &mut T,
    prevs: &mut Vec<(T::Pos, T::Val, MoveKind)>,
    choice: &mut Vec<(T::Pos, Vec<T::Val>)>,
    pos: T::Pos,
    val: T::Val,
    rest: Vec<T::Val>,
    Ghost(orig): Ghost<Map<T::Pos, T::Val>>,
)
    requires
        search_inv(*old(state), old(prevs)@, old(choice)@, orig),
        orig.dom().contains(pos),
    ensures
        search_inv(*final(state), final(prevs)@, final(choice)@, orig),
{
    let prevval = state.get(pos);
    proof {
        lemma_unwound_push(state.rep(), undo_pairs(prevs@), pos, val);
        assert(undo_pairs(prevs@.push((pos, prevval, MoveKind::Guess))) =~= undo_pairs(
            prevs@,
        ).push((pos, prevval)));
    }
    prevs.push((pos, prevval, MoveKind::Guess));
    state.set(pos, val);
    proof {
        assert(state.rep().dom() =~= orig.dom());
    }
    choice.push((pos, rest));
}

/// Backtracks after a dead end: pops choice frames until one still holds an
/// untried candidate, undoes the log back through the corresponding guess,
/// and applies that candidate as a replacement guess, returning it. Returns
/// `None` when the search is exhausted; the state has then been wound back
/// to `orig` and both stacks are empty.
#[verifier::loop_isolation(false)]
pub(crate) fn backtrack_step<T: Puzzle>(
    state: &mut T,
    prevs: &mut Vec<(T::Pos, T::Val, MoveKind)>,
    choice: &mut Vec<(T::Pos, Vec<T::Val>)>,
    Ghost(orig): Ghost<Map<T::Pos, T::Val>>,
) -> (r: Option<(T::Pos, T::Val)>)
    requires
        search_inv(*old(state), old(prevs)@, old(choice)@, orig),
    ensures
        search_inv(*final(state), final(prevs)@, final(choice)@, orig),
        r is None ==> final(state).rep() == orig && final(prevs)@.len() == 0
            && final(choice)@.len() == 0,
        r matches Some(pv) ==> orig.dom().contains(pv.0),
{
    loop
        invariant
            search_inv(*state, prevs@, choice@, orig),
        decreases choice@.len(),
    {
        if choice.len() == 0 {
            // Exhausted: undo any forced deductions that came before the
            // first guess, so the state winds back to the original.
            while prevs.len() > 0
                invariant
                    state.rep().dom() == orig.dom(),
                    unwound(state.rep(), undo_pairs(prevs@)) == orig,
                    forall|i: int|
                        0 <= i < prevs@.len() ==> orig.dom().contains(
                            (#[trigger] prevs@[i]).0,
                        ),
                decreases prevs@.len(),
            {
                let ghost pp = prevs@;
                let e = prevs.pop().unwrap();
                proof {
                    assert(prevs@.push(e) =~= pp);
                    assert(undo_pairs(pp).drop_last() =~= undo_pairs(prevs@));
                    assert(undo_pairs(pp).last() == (e.0, e.1));
                    assert(pp[pp.len() - 1] == e);
                }
                state.set(e.0, e.1);
            }
            *choice = Vec::new();
            return None;
        }
        let ghost pc = choice@;
        let frame = match choice.pop() {
            Some(fr) => fr,
            None => {
                proof {
                    assert(false);
                }
                return None;
            },
        };
        proof {
            assert(pc[pc.len() - 1] == frame);
            assert(orig.dom().contains(frame.0));
        }
        let pos = frame.0;
        let mut rest = frame.1;
        match rest.pop() {
            Some(new_val) => {
                // Try the next untried candidate at this branch point.
                undo_to_guess(state, prevs, Ghost(orig));
                place_guess(state, prevs, choice, pos, new_val, rest, Ghost(orig));
                return Some((pos, new_val));
            },
            None => {
                // This frame is spent: undo through its guess and keep
                // popping older frames.
                let undone = undo_to_guess(state, prevs, Ghost(orig));
                if !undone {
                    *choice = Vec::new();
                    return None;
                }
            },
        }
    }
}

} // verus!
