//! Weight-learning backtracking: branch order chosen by minimum entropy
//! over learned weights, carried forward across repeated attempts.

use vstd::prelude::*;

use crate::puzzle::{MoveKind, Puzzle, difference_rep, undo_pairs};
use crate::rng::{next_u32, rng_from_seed, shuffle_values};
use crate::score::entropy_score;
use crate::score::entropy_score_exec;
use crate::settings::SolveSettings;
use crate::solution::{Solution, SolveStatus};
use crate::step::{backtrack_step, place_guess, run_solve_simple, search_inv};

verus! {

/// The noise value that means certain shuffling: noise is measured as a
/// fraction of this constant, so 0 never shuffles and `NOISE_ONE` always
/// shuffles.
pub const NOISE_ONE: u64 = 0x1_0000_0000;

/// Stores settings for the entropy solver.
///
/// Default settings:
///
/// - attempts: `1`
/// - noise: `0`
/// - final_attempt: `None`
/// - seed: `0`
pub struct EntropySolveSettings {
    /// The number of solve attempts.
    pub attempts: u64,
    /// How often to shuffle candidates instead of ordering them by learned
    /// weight, as a fraction of [`NOISE_ONE`]: 0 always converges,
    /// `NOISE_ONE` always samples randomly.
    pub noise: u64,
    /// Make one final attempt with this maximum-iterations setting.
    pub final_attempt: Option<Option<u64>>,
    /// The seed of the random generator, so searches are reproducible.
    pub seed: u64,
}

impl EntropySolveSettings {
    /// Creates new entropy settings with the default values.
    pub fn new() -> (r: EntropySolveSettings)
        ensures
            r.attempts == 1,
            r.noise == 0,
            r.final_attempt is None,
            r.seed == 0,
    {
        EntropySolveSettings { attempts: 1, noise: 0, final_attempt: None, seed: 0 }
    }

    /// Sets the number of attempts.
    pub fn set_attempts(&mut self, val: u64)
        ensures
            *final(self) == (EntropySolveSettings { attempts: val, ..*old(self) }),
    {
        self.attempts = val;
    }

    /// The number of attempts.
    pub fn attempts(self, val: u64) -> (r: Self)
        ensures
            r == (EntropySolveSettings { attempts: val, ..self }),
    {
        let mut s = self;
        s.set_attempts(val);
        s
    }

    /// Sets the noise (0 = converge, [`NOISE_ONE`] = random sampling).
    pub fn set_noise(&mut self, val: u64)
        ensures
            *final(self) == (EntropySolveSettings { noise: val, ..*old(self) }),
    {
        self.noise = val;
    }

    /// The noise (0 = converge, [`NOISE_ONE`] = random sampling).
    pub fn noise(self, val: u64) -> (r: Self)
        ensures
            r == (EntropySolveSettings { noise: val, ..self }),
    {
        let mut s = self;
        s.set_noise(val);
        s
    }

    /// Sets one final attempt with a maximum-iterations setting.
    pub fn set_final_attempt(&mut self, val: Option<Option<u64>>)
        ensures
            *final(self) == (EntropySolveSettings { final_attempt: val, ..*old(self) }),
    {
        self.final_attempt = val;
    }

    /// The final attempt with a maximum-iterations setting.
    pub fn final_attempt(self, val: Option<Option<u64>>) -> (r: Self)
        ensures
            r == (EntropySolveSettings { final_attempt: val, ..self }),
    {
        let mut s = self;
        s.set_final_attempt(val);
        s
    }

    /// Sets the seed of the random generator.
    pub fn set_seed(&mut self, val: u64)
        ensures
            *final(self) == (EntropySolveSettings { seed: val, ..*old(self) }),
    {
        self.seed = val;
    }

    /// The seed of the random generator.
    pub fn seed(self, val: u64) -> (r: Self)
        ensures
            r == (EntropySolveSettings { seed: val, ..self }),
    {
        let mut s = self;
        s.set_seed(val);
        s
    }
}

/// The learned weight of a candidate value: the accumulator at the first
/// index of `vals` holding the value, or 0 when the value does not occur.
pub open spec fn lookup_weight<V>(vals: Seq<V>, ws: Seq<u64>, v: V) -> u64
    decreases vals.len(),
{
    if vals.len() == 0 || ws.len() == 0 {
        0u64
    } else if vals.first() == v {
        ws.first()
    } else {
        lookup_weight(vals.drop_first(), ws.drop_first(), v)
    }
}

/// Weight tables `a` and `b` have the same shape and every accumulator in
/// `b` is at least its counterpart in `a`.
pub open spec fn weights_monotone_from(a: Seq<Vec<u64>>, b: Seq<Vec<u64>>) -> bool {
    &&& b.len() == a.len()
    &&& forall|i: int| 0 <= i < a.len() ==> (#[trigger] b[i])@.len() == a[i]@.len()
    &&& forall|i: int, j: int|
        0 <= i < a.len() && 0 <= j < a[i]@.len() ==> a[i]@[j] <= #[trigger] b[i]@[j]
}

/// The first index at which a value occurs in a sequence, or -1 when it
/// does not occur.
pub open spec fn first_index<V>(s: Seq<V>, v: V) -> int
    decreases s.len(),
{
    if s.len() == 0 {
        -1
    } else if s.first() == v {
        0
    } else {
        let r = first_index(s.drop_first(), v);
        if r == -1 {
            -1
        } else {
            r + 1
        }
    }
}

/// The first occurrence index is in range, names the value, and nothing
/// before it does.
pub proof fn lemma_first_index<V>(s: Seq<V>, v: V)
    ensures
        -1 <= first_index(s, v) < s.len(),
        first_index(s, v) >= 0 ==> s[first_index(s, v)] == v,
        first_index(s, v) >= 0 ==> forall|k: int| 0 <= k < first_index(s, v) ==> s[k] != v,
        first_index(s, v) == -1 ==> forall|k: int| 0 <= k < s.len() ==> s[k] != v,
    decreases s.len(),
{
    if s.len() > 0 && s.first() != v {
        let t = s.drop_first();
        lemma_first_index(t, v);
        if first_index(t, v) >= 0 {
            assert forall|k: int| 0 <= k < first_index(s, v) implies s[k] != v by {
                if k > 0 {
                    assert(t[k - 1] == s[k]);
                    assert(t[k - 1] != v);
                }
            }
        } else {
            assert forall|k: int| 0 <= k < s.len() implies s[k] != v by {
                if k > 0 {
                    assert(t[k - 1] == s[k]);
                    assert(t[k - 1] != v);
                }
            }
        }
    }
}

/// The first start-choice row that names this position among whose
/// candidate values this value occurs, or -1 when there is none.
pub open spec fn observe_row<P, V>(sc: Seq<(P, Vec<V>)>, pos: P, val: V) -> int
    decreases sc.len(),
{
    if sc.len() == 0 {
        -1
    } else if sc.first().0 == pos && sc.first().1@.contains(val) {
        0
    } else {
        let r = observe_row(sc.drop_first(), pos, val);
        if r == -1 {
            -1
        } else {
            r + 1
        }
    }
}

/// The first matching row is in range, matches, and nothing before it
/// matches.
pub proof fn lemma_observe_row<P, V>(sc: Seq<(P, Vec<V>)>, pos: P, val: V)
    ensures
        -1 <= observe_row(sc, pos, val) < sc.len(),
        observe_row(sc, pos, val) >= 0 ==> sc[observe_row(sc, pos, val)].0 == pos && sc[
            observe_row(sc, pos, val)
        ].1@.contains(val),
        observe_row(sc, pos, val) >= 0 ==> forall|k: int|
            0 <= k < observe_row(sc, pos, val) ==> !((#[trigger] sc[k]).0 == pos && sc[
                k
            ].1@.contains(val)),
        observe_row(sc, pos, val) == -1 ==> forall|k: int|
            0 <= k < sc.len() ==> !((#[trigger] sc[k]).0 == pos && sc[k].1@.contains(val)),
    decreases sc.len(),
{
    if sc.len() > 0 && !(sc.first().0 == pos && sc.first().1@.contains(val)) {
        let t = sc.drop_first();
        lemma_observe_row(t, pos, val);
        if observe_row(t, pos, val) >= 0 {
            assert forall|k: int|
                0 <= k < observe_row(sc, pos, val) implies !((#[trigger] sc[k]).0 == pos
                && sc[k].1@.contains(val)) by {
                if k > 0 {
                    assert(t[k - 1] == sc[k]);
                    assert(!(t[k - 1].0 == pos && t[k - 1].1@.contains(val)));
                }
            }
        } else {
            assert forall|k: int|
                0 <= k < sc.len() implies !((#[trigger] sc[k]).0 == pos && sc[
                k
            ].1@.contains(val)) by {
                if k > 0 {
                    assert(t[k - 1] == sc[k]);
                    assert(!(t[k - 1].0 == pos && t[k - 1].1@.contains(val)));
                }
            }
        }
    }
}

/// Whether a start-choice position plays no part in branch selection, as
/// observed during one selection pass: it is already resolved (holds a
/// non-empty value), or the candidate closure was seen to return no
/// candidate for it.
pub open spec fn choice_inactive<T: Puzzle, G: Fn(&T, T::Pos) -> Vec<T::Val>>(
    state: T,
    pos: T::Pos,
    g: G,
) -> bool {
    ||| state.rep()[pos] != T::empty_val()
    ||| exists|cands: Vec<T::Val>|
        #[trigger] call_ensures(g, (&state, pos), cands) && cands@.len() == 0
}

/// Solves puzzles using minimum entropy search.
///
/// This solver learns from repeatedly attempting to solve the puzzle.
///
/// The search works by attempting normal backtrack solving, but increasing
/// weights of choices each time they are made. When choosing where to
/// branch, it minimizes the entropy of the learned weights, so at later
/// attempts the algorithm tries historically successful choices first.
///
/// When `EntropySolveSettings::noise` is non-zero, the candidates will
/// occasionally be shuffled instead.
pub struct EntropyBackTrackSolver<T: Puzzle> {
    /// Stores the original state.
    pub original: T,
    /// Stores the state.
    pub state: T,
    /// Stores the previous values of a position before making a choice,
    /// marked by how the move came to be.
    pub prevs: Vec<(T::Pos, T::Val, MoveKind)>,
    /// Stores the choices for the states.
    pub choice: Vec<(T::Pos, Vec<T::Val>)>,
    /// The initial choices: every position of interest with its initial
    /// candidate values, captured once before solving begins.
    pub start_choice: Vec<(T::Pos, Vec<T::Val>)>,
    /// Stores weights of choices: one accumulator per candidate value of
    /// each entry of `start_choice`.
    pub weights: Vec<Vec<u64>>,
    /// Stores solve settings.
    pub settings: SolveSettings,
    /// Stores entropy solve settings.
    pub entropy_settings: EntropySolveSettings,
    /// The random generator driving noise decisions and shuffles.
    pub rng: rand::rngs::StdRng,
}

impl<T: Puzzle> EntropyBackTrackSolver<T> {
    /// The solver's internal consistency: winding the undo log back restores
    /// the original contents, the weight table has one row per start choice
    /// with one accumulator per candidate, and every start-choice position
    /// lies in the puzzle's domain.
    pub open spec fn wf(self) -> bool {
        &&& search_inv(self.state, self.prevs@, self.choice@, self.original.rep())
        &&& self.weights@.len() == self.start_choice@.len()
        &&& forall|i: int|
            0 <= i < self.start_choice@.len() ==> (#[trigger] self.weights@[i])@.len()
                == self.start_choice@[i].1@.len()
        &&& forall|i: int|
            0 <= i < self.start_choice@.len() ==> self.original.rep().dom().contains(
                (#[trigger] self.start_choice@[i]).0,
            )
    }

    /// Creates a new solver, with every weight accumulator starting at 1.
    #[verifier::loop_isolation(false)]
    pub fn new(
        puzzle: T,
        start_choice: Vec<(T::Pos, Vec<T::Val>)>,
        entropy_settings: EntropySolveSettings,
        settings: SolveSettings,
    ) -> (r: EntropyBackTrackSolver<T>)
        requires
            forall|i: int|
                0 <= i < start_choice@.len() ==> puzzle.rep().dom().contains(
                    (#[trigger] start_choice@[i]).0,
                ),
        ensures
            r.wf(),
            r.original.rep() == puzzle.rep(),
            r.state.rep() == puzzle.rep(),
            r.prevs@.len() == 0,
            r.choice@.len() == 0,
            r.start_choice == start_choice,
            r.settings == settings,
            r.entropy_settings == entropy_settings,
            forall|i: int, j: int|
                0 <= i < r.weights@.len() && 0 <= j < r.weights@[i]@.len()
                    ==> #[trigger] r.weights@[i]@[j] == 1,
    {
        let n = start_choice.len();
        let mut weights: Vec<Vec<u64>> = Vec::new();
        let mut i: usize = 0;
        while i < n
            invariant
                i <= n,
                weights@.len() == i,
                forall|k: int|
                    0 <= k < i ==> (#[trigger] weights@[k])@.len() == start_choice@[
                        k
                    ].1@.len(),
                forall|k: int, j: int|
                    0 <= k < i && 0 <= j < weights@[k]@.len() ==> #[trigger] weights@[k]@[j]
                        == 1,
            decreases n - i,
        {
            let m = start_choice[i].1.len();
            let mut row: Vec<u64> = Vec::new();
            let mut j: usize = 0;
            while j < m
                invariant
                    j <= m,
                    row@.len() == j,
                    forall|t: int| 0 <= t < j ==> #[trigger] row@[t] == 1,
                decreases m - j,
            {
                row.push(1);
                j = j + 1;
            }
            weights.push(row);
            i = i + 1;
        }
        let rng = rng_from_seed(entropy_settings.seed);
        let r = EntropyBackTrackSolver {
            original: puzzle.duplicate(),
            state: puzzle,
            prevs: Vec::new(),
            choice: Vec::new(),
            start_choice,
            weights,
            settings,
            entropy_settings,
            rng,
        };
        proof {
            assert(undo_pairs(r.prevs@) =~= Seq::<(T::Pos, T::Val)>::empty());
        }
        r
    }

    /// Calculates the fixed-point entropy of the weights of one start
    /// choice. A low value means the weights concentrate on few candidates.
    pub fn entropy(&self, i: usize) -> (r: u64)
        requires
            i < self.weights@.len(),
        ensures
            r as int == entropy_score(self.weights@[i as int]@),
    {
        entropy_score_exec(&self.weights[i])
    }

    /// Finds the start choice with the least entropy among those whose
    /// position is not yet resolved and still admits at least one candidate
    /// value, together with its position. The first one encountered wins
    /// ties.
    ///
    /// Which positions count as admitting a candidate is decided by what
    /// `g` returns at the moment it is asked, so the contract speaks of the
    /// observed calls: `None` means every position was seen to be inactive,
    /// and a selected position has minimal entropy among those not seen to
    /// be inactive, with strictly smaller entropy than every earlier one.
    #[verifier::loop_isolation(false)]
    pub fn min_entropy<G>(&self, g: G) -> (r: Option<(usize, T::Pos)>) where
        G: Copy + Fn(&T, T::Pos) -> Vec<T::Val>,

        requires
            self.wf(),
            forall|s: &T, p: T::Pos|
                s.rep().dom().contains(p) ==> #[trigger] call_requires(g, (s, p)),
        ensures
            r matches Some(ip) ==> ({
                let sel = ip.0 as int;
                &&& sel < self.start_choice@.len()
                &&& ip.1 == self.start_choice@[sel].0
                &&& self.state.rep()[self.start_choice@[sel].0] == T::empty_val()
                &&& exists|cands: Vec<T::Val>|
                    #[trigger] call_ensures(g, (&self.state, self.start_choice@[sel].0), cands)
                        && cands@.len() > 0
                &&& forall|k: int|
                    0 <= k < self.start_choice@.len() && k != sel ==> (choice_inactive(
                        self.state,
                        (#[trigger] self.start_choice@[k]).0,
                        g,
                    ) || entropy_score(self.weights@[sel]@) <= entropy_score(
                        self.weights@[k]@,
                    ))
                &&& forall|k: int|
                    0 <= k < sel ==> (choice_inactive(
                        self.state,
                        (#[trigger] self.start_choice@[k]).0,
                        g,
                    ) || entropy_score(self.weights@[sel]@) < entropy_score(
                        self.weights@[k]@,
                    ))
            }),
            r is None ==> forall|k: int|
                0 <= k < self.start_choice@.len() ==> choice_inactive(
                    self.state,
                    (#[trigger] self.start_choice@[k]).0,
                    g,
                ),
    {
        let n = self.weights.len();
        let mut min: Option<(usize, u64)> = None;
        let mut i: usize = 0;
        while i < n
            invariant
                i <= n,
                min is None ==> forall|k: int|
                    0 <= k < i ==> choice_inactive(
                        self.state,
                        (#[trigger] self.start_choice@[k]).0,
                        g,
                    ),
                min matches Some(m) ==> ({
                    let sel = m.0 as int;
                    &&& sel < i
                    &&& self.state.rep()[self.start_choice@[sel].0] == T::empty_val()
                    &&& exists|cands: Vec<T::Val>|
                        #[trigger] call_ensures(
                            g,
                            (&self.state, self.start_choice@[sel].0),
                            cands,
                        ) && cands@.len() > 0
                    &&& m.1 as int == entropy_score(self.weights@[sel]@)
                    &&& forall|k: int|
                        0 <= k < i && k != sel ==> (choice_inactive(
                            self.state,
                            (#[trigger] self.start_choice@[k]).0,
                            g,
                        ) || entropy_score(self.weights@[sel]@) <= entropy_score(
                            self.weights@[k]@,
                        ))
                    &&& forall|k: int|
                        0 <= k < sel ==> (choice_inactive(
                            self.state,
                            (#[trigger] self.start_choice@[k]).0,
                            g,
                        ) || entropy_score(self.weights@[sel]@) < entropy_score(
                            self.weights@[k]@,
                        ))
                }),
            decreases n - i,
        {
            let pos = self.start_choice[i].0;
            let resolved = !T::eq_val(self.state.get(pos), T::empty_value());
            let cands = g(&self.state, pos);
            if !resolved && cands.len() > 0 {
                let e = entropy_score_exec(&self.weights[i]);
                let better = match min {
                    None => true,
                    Some(m) => m.1 > e,
                };
                if better {
                    min = Some((i, e));
                }
            } else {
                proof {
                    assert(choice_inactive(self.state, self.start_choice@[i as int].0, g)) by {
                        if !resolved {
                            assert(call_ensures(g, (&self.state, pos), cands)
                                && cands@.len() == 0);
                        }
                    }
                }
            }
            i = i + 1;
        }
        match min {
            None => None,
            Some(m) => Some((m.0, self.start_choice[m.0].0)),
        }
    }

    /// Increases the weight of an observed choice: the accumulator at the
    /// first matching start-choice row and candidate index grows by one
    /// (saturating at `u64::MAX`); every other accumulator, and every other
    /// field of the solver, is unchanged. When no row names the position
    /// with this value among its candidates, nothing changes.
    #[verifier::loop_isolation(false)]
    pub fn observe(&mut self, pos: T::Pos, new_val: T::Val)
        requires
            old(self).wf(),
        ensures
            final(self).wf(),
            final(self).original == old(self).original,
            final(self).state == old(self).state,
            final(self).prevs == old(self).prevs,
            final(self).choice == old(self).choice,
            final(self).start_choice == old(self).start_choice,
            final(self).settings == old(self).settings,
            final(self).entropy_settings == old(self).entropy_settings,
            final(self).rng == old(self).rng,
            weights_monotone_from(old(self).weights@, final(self).weights@),
            observe_row(old(self).start_choice@, pos, new_val) == -1 ==> final(self).weights
                == old(self).weights,
            observe_row(old(self).start_choice@, pos, new_val) >= 0 ==> ({
                let row = observe_row(old(self).start_choice@, pos, new_val);
                let j = first_index(old(self).start_choice@[row].1@, new_val);
                let w0 = old(self).weights@[row]@[j];
                let w1 = if w0 < u64::MAX {
                    (w0 + 1) as u64
                } else {
                    w0
                };
                &&& final(self).weights@.len() == old(self).weights@.len()
                &&& forall|a: int|
                    0 <= a < old(self).weights@.len() && a != row
                        ==> (#[trigger] final(self).weights@[a]) == old(self).weights@[a]
                &&& final(self).weights@[row]@ == old(self).weights@[row]@.update(j, w1)
            }),
    {
        let ghost sc = self.start_choice@;
        proof {
            lemma_observe_row(sc, pos, new_val);
        }
        let n = self.start_choice.len();
        let mut i: usize = 0;
        while i < n
            invariant
                i <= n,
                *self == *old(self),
                forall|k: int|
                    0 <= k < i ==> !((#[trigger] sc[k]).0 == pos && sc[k].1@.contains(
                        new_val,
                    )),
            decreases n - i,
        {
            if T::eq_pos(self.start_choice[i].0, pos) {
                let m = self.start_choice[i].1.len();
                let ghost cs = sc[i as int].1@;
                proof {
                    lemma_first_index(cs, new_val);
                }
                let mut j: usize = 0;
                while j < m
                    invariant
                        j <= m,
                        *self == *old(self),
                        forall|t: int| 0 <= t < j ==> cs[t] != new_val,
                    decreases m - j,
                {
                    if T::eq_val(self.start_choice[i].1[j], new_val) {
                        proof {
                            assert(cs.contains(new_val));
                            assert(observe_row(sc, pos, new_val) == i as int);
                            assert(first_index(cs, new_val) == j as int) by {
                                if first_index(cs, new_val) < j as int {
                                    assert(cs[first_index(cs, new_val)] == new_val);
                                }
                            }
                        }
                        let v = self.weights[i][j];
                        let nv = if v < u64::MAX {
                            v + 1
                        } else {
                            v
                        };
                        let ghost wpre = self.weights@;
                        self.weights[i].set(j, nv);
                        proof {
                            assert(self.weights@ =~= wpre.update(
                                i as int,
                                self.weights@[i as int],
                            ));
                        }
                        return ;
                    }
                    j = j + 1;
                }
                proof {
                    assert(!cs.contains(new_val)) by {
                        if cs.contains(new_val) {
                            let t = choose|t: int| 0 <= t < cs.len() && cs[t] == new_val;
                            assert(cs[t] != new_val);
                        }
                    }
                }
            }
            i = i + 1;
        }
        proof {
            assert(observe_row(sc, pos, new_val) == -1) by {
                if observe_row(sc, pos, new_val) >= 0 {
                    let r = observe_row(sc, pos, new_val);
                    assert(!(sc[r].0 == pos && sc[r].1@.contains(new_val)));
                }
            }
        }
    }

    /// Looks up the learned weight of a candidate value at one start
    /// choice: the accumulator at the first matching candidate index, or
    /// `None` when the value does not occur among the candidates there.
    #[verifier::loop_isolation(false)]
    fn weight_of_val(&self, ind: usize, v: T::Val) -> (r: Option<u64>)
        requires
            self.wf(),
            ind < self.start_choice@.len(),
        ensures
            r matches Some(w) ==> w == lookup_weight(
                self.start_choice@[ind as int].1@,
                self.weights@[ind as int]@,
                v,
            ),
    {
        let ghost fullv = self.start_choice@[ind as int].1@;
        let ghost fullw = self.weights@[ind as int]@;
        let m = self.start_choice[ind].1.len();
        proof {
            assert(fullv.skip(0) =~= fullv);
            assert(fullw.skip(0) =~= fullw);
        }
        let mut j: usize = 0;
        while j < m
            invariant
                j <= m,
                lookup_weight(fullv.skip(j as int), fullw.skip(j as int), v) == lookup_weight(
                    fullv,
                    fullw,
                    v,
                ),
            decreases m - j,
        {
            if T::eq_val(self.start_choice[ind].1[j], v) {
                proof {
                    assert(fullv.skip(j as int).first() == fullv[j as int]);
                    assert(fullw.skip(j as int).first() == fullw[j as int]);
                }
                return Some(self.weights[ind][j]);
            }
            proof {
                assert(fullv.skip(j as int).first() == fullv[j as int]);
                assert(fullv.skip(j as int).drop_first() =~= fullv.skip(j as int + 1));
                assert(fullw.skip(j as int).drop_first() =~= fullw.skip(j as int + 1));
            }
            j = j + 1;
        }
        None
    }

    /// Orders candidate values ascending by their learned weight, so that,
    /// following the last-is-highest-priority convention, the currently
    /// heaviest value is tried first. Values that do not occur among the
    /// start choice's candidates are dropped.
    #[verifier::loop_isolation(false)]
    fn sort_by_weight(&self, ind: usize, possible: &Vec<T::Val>) -> (r: Vec<T::Val>)
        requires
            self.wf(),
            ind < self.start_choice@.len(),
        ensures
            r@.len() <= possible@.len(),
            forall|k: int| 0 <= k < r@.len() ==> possible@.contains(#[trigger] r@[k]),
            forall|a: int, b: int|
                0 <= a && a < b && b < r@.len() ==> lookup_weight(
                    self.start_choice@[ind as int].1@,
                    self.weights@[ind as int]@,
                    #[trigger] r@[a],
                ) <= lookup_weight(
                    self.start_choice@[ind as int].1@,
                    self.weights@[ind as int]@,
                    #[trigger] r@[b],
                ),
    {
        let ghost fullv = self.start_choice@[ind as int].1@;
        let ghost fullw = self.weights@[ind as int]@;
        let mut sorted: Vec<(T::Val, u64)> = Vec::new();
        let n = possible.len();
        let mut j: usize = 0;
        while j < n
            invariant
                j <= n,
                sorted@.len() <= j,
                forall|k: int|
                    0 <= k < sorted@.len() ==> possible@.contains(
                        (#[trigger] sorted@[k]).0,
                    ),
                forall|k: int|
                    0 <= k < sorted@.len() ==> (#[trigger] sorted@[k]).1 == lookup_weight(
                        fullv,
                        fullw,
                        sorted@[k].0,
                    ),
                forall|a: int, b: int|
                    0 <= a && a < b && b < sorted@.len() ==> (#[trigger] sorted@[a]).1 <= (
                    #[trigger] sorted@[b]).1,
            decreases n - j,
        {
            let v = possible[j];
            match self.weight_of_val(ind, v) {
                None => {},
                Some(w) => {
                    let ghost spre = sorted@;
                    let mut q: usize = 0;
                    while q < sorted.len() && sorted[q].1 <= w
                        invariant
                            q <= sorted@.len(),
                            sorted@ == spre,
                            forall|t: int| 0 <= t < q ==> (#[trigger] sorted@[t]).1 <= w,
                        decreases sorted@.len() - q,
                    {
                        q = q + 1;
                    }
                    sorted.insert(q, (v, w));
                    proof {
                        assert forall|a: int, b: int|
                            0 <= a && a < b && b < sorted@.len() implies (
                        #[trigger] sorted@[a]).1 <= (#[trigger] sorted@[b]).1 by {
                            if b < q {
                            } else if a < q && b == q {
                                assert(sorted@[a] == spre[a]);
                            } else if a < q && b > q {
                                assert(sorted@[b] == spre[b - 1]);
                            } else if a == q {
                                assert(sorted@[b] == spre[b - 1]);
                                assert(spre[q as int].1 > w);
                                if b - 1 > q {
                                    assert(spre[q as int].1 <= spre[b - 1].1);
                                }
                            } else {
                                assert(sorted@[a] == spre[a - 1]);
                                assert(sorted@[b] == spre[b - 1]);
                            }
                        }
                    }
                },
            }
            j = j + 1;
        }
        let mut r: Vec<T::Val> = Vec::new();
        let mut k: usize = 0;
        while k < sorted.len()
            invariant
                k <= sorted@.len(),
                r@.len() == k,
                forall|t: int| 0 <= t < k ==> #[trigger] r@[t] == sorted@[t].0,
            decreases sorted@.len() - k,
        {
            r.push(sorted[k].0);
            k = k + 1;
        }
        proof {
            assert forall|a: int, b: int|
                0 <= a && a < b && b < r@.len() implies lookup_weight(
                fullv,
                fullw,
                #[trigger] r@[a],
            ) <= lookup_weight(fullv, fullw, #[trigger] r@[b]) by {
                assert(sorted@[a].1 <= sorted@[b].1);
            }
        }
        r
    }

    /// Runs a single entropy-guided attempt and reports explicitly how it
    /// ended.
    ///
    /// On `Exhausted`, every guess and forced deduction has been undone, so
    /// the state equals the original contents again and both stacks are
    /// empty; the learned weights, which only ever grow, are all that an
    /// attempt leaves behind.
    #[verifier::loop_isolation(false)]
    pub fn attempt_status<G>(&mut self, g: G) -> (r: SolveStatus<T>) where
        G: Copy + Fn(&T, T::Pos) -> Vec<T::Val>,

        requires
            old(self).wf(),
            forall|s: &T, p: T::Pos|
                s.rep().dom().contains(p) ==> #[trigger] call_requires(g, (s, p)),
        ensures
            final(self).original == old(self).original,
            final(self).settings == old(self).settings,
            final(self).entropy_settings == old(self).entropy_settings,
            final(self).start_choice == old(self).start_choice,
            weights_monotone_from(old(self).weights@, final(self).weights@),
            r matches SolveStatus::Solved(sol) ==> {
                &&& T::solved_rep(final(self).state.rep())
                &&& final(self).state.rep().dom() == old(self).original.rep().dom()
                &&& sol.puzzle.rep() == if old(self).settings.difference {
                    difference_rep(
                        final(self).state.rep(),
                        old(self).original.rep(),
                        T::empty_val(),
                    )
                } else {
                    final(self).state.rep()
                }
                &&& sol.strategy is None
                &&& 1 <= sol.iterations
                &&& (old(self).settings.max_iterations matches Some(m) ==> sol.iterations
                    <= m)
                &&& final(self).prevs@.len() == 0
                &&& final(self).choice@.len() == 0
            },
            r matches SolveStatus::Exhausted ==> {
                &&& final(self).wf()
                &&& final(self).state.rep() == old(self).original.rep()
                &&& final(self).prevs@.len() == 0
                &&& final(self).choice@.len() == 0
            },
            r matches SolveStatus::OutOfIterations ==> final(self).wf(),
            old(self).settings.max_iterations == Some(0u64) ==> r is OutOfIterations
                && final(self).weights == old(self).weights,
            T::solved_rep(old(self).state.rep()) && !old(self).settings.solve_simple
                && (old(self).settings.max_iterations matches Some(m) ==> m >= 1) ==> r
                is Solved,
    {
        let ghost orig = self.original.rep();
        let max: u64 = match self.settings.max_iterations {
            Some(m) => m,
            None => u64::MAX,
        };
        let mut iterations: u64 = 0;
        loop
            invariant
                self.wf(),
                self.original == old(self).original,
                self.settings == old(self).settings,
                self.entropy_settings == old(self).entropy_settings,
                self.start_choice == old(self).start_choice,
                weights_monotone_from(old(self).weights@, self.weights@),
                iterations <= max,
                old(self).settings.max_iterations == Some(0u64) ==> self.weights == old(self).weights,
                T::solved_rep(old(self).state.rep()) && !old(self).settings.solve_simple
                    ==> self.state == old(self).state && iterations == 0,
            decreases max - iterations,
        {
            if self.settings.solve_simple {
                run_solve_simple(&mut self.state, &mut self.prevs, &self.choice, Ghost(orig));
            }
            if self.settings.debug {
                self.state.print();
            }
            if iterations >= max {
                return SolveStatus::OutOfIterations;
            }
            iterations = iterations + 1;
            if self.state.is_solved() {
                let mut out = self.state.duplicate();
                if self.settings.difference {
                    out.remove(&self.original);
                }
                self.prevs = Vec::new();
                self.choice = Vec::new();
                return SolveStatus::Solved(
                    Solution { puzzle: out, iterations, strategy: None },
                );
            }
            let empty = self.min_entropy(g);
            let mut placed = false;
            match empty {
                Some(ix) => {
                    let ind = ix.0;
                    let x = ix.1;
                    let mut possible = g(&self.state, x);
                    let draw = next_u32(&mut self.rng);
                    if (draw as u64) < self.entropy_settings.noise {
                        shuffle_values(&mut self.rng, &mut possible);
                    } else {
                        possible = self.sort_by_weight(ind, &possible);
                    }
                    if possible.len() > 0 {
                        let v = possible.pop().unwrap();
                        place_guess(
                            &mut self.state,
                            &mut self.prevs,
                            &mut self.choice,
                            x,
                            v,
                            possible,
                            Ghost(orig),
                        );
                        self.observe(x, v);
                        placed = true;
                    }
                },
                None => {},
            }
            if !placed {
                let stepped = backtrack_step(
                    &mut self.state,
                    &mut self.prevs,
                    &mut self.choice,
                    Ghost(orig),
                );
                match stepped {
                    None => {
                        return SolveStatus::Exhausted;
                    },
                    Some(pv) => {
                        self.observe(pv.0, pv.1);
                    },
                }
            }
        }
    }

    /// Solves the puzzle once, using a closure for picking candidates in
    /// preferred order.
    ///
    /// This can be called repeated times, limited by
    /// `SolveSettings::max_iterations`, to reuse weights from previous
    /// attempts. Exhaustion of the search space and running out of
    /// iterations are both reported as `None`; call
    /// [`EntropyBackTrackSolver::attempt_status`] to tell the two apart.
    pub fn solve_single_attempt<G>(&mut self, g: G) -> (r: Option<Solution<T>>) where
        G: Copy + Fn(&T, T::Pos) -> Vec<T::Val>,

        requires
            old(self).wf(),
            forall|s: &T, p: T::Pos|
                s.rep().dom().contains(p) ==> #[trigger] call_requires(g, (s, p)),
        ensures
            final(self).original == old(self).original,
            final(self).settings == old(self).settings,
            final(self).entropy_settings == old(self).entropy_settings,
            final(self).start_choice == old(self).start_choice,
            weights_monotone_from(old(self).weights@, final(self).weights@),
            r is None ==> final(self).wf(),
            r matches Some(sol) ==> {
                &&& T::solved_rep(final(self).state.rep())
                &&& final(self).state.rep().dom() == old(self).original.rep().dom()
                &&& sol.puzzle.rep() == if old(self).settings.difference {
                    difference_rep(
                        final(self).state.rep(),
                        old(self).original.rep(),
                        T::empty_val(),
                    )
                } else {
                    final(self).state.rep()
                }
                &&& sol.strategy is None
                &&& 1 <= sol.iterations
                &&& (old(self).settings.max_iterations matches Some(m) ==> sol.iterations
                    <= m)
            },
            old(self).settings.max_iterations == Some(0u64) ==> r is None
                && final(self).weights == old(self).weights,
            T::solved_rep(old(self).state.rep()) && !old(self).settings.solve_simple
                && (old(self).settings.max_iterations matches Some(m) ==> m >= 1) ==> r
                is Some,
    {
        match self.attempt_status(g) {
            SolveStatus::Solved(sol) => Some(sol),
            SolveStatus::Exhausted => None,
            SolveStatus::OutOfIterations => None,
        }
    }

    /// Attempts to solve the puzzle repeatedly, using
    /// `SolveSettings::max_iterations` as the per-attempt budget.
    ///
    /// The solver learns by reusing weights from previous attempts: they
    /// only ever grow. Returns the number of attempts taken together with
    /// the solution, if any. When all attempts fail and a final attempt is
    /// configured, one more attempt runs with the noise forced to zero and
    /// the configured iteration budget; the settings are restored
    /// afterwards regardless of the outcome.
    #[verifier::loop_isolation(false)]
    pub fn solve<G>(&mut self, g: G) -> (r: (u64, Option<Solution<T>>)) where
        G: Copy + Fn(&T, T::Pos) -> Vec<T::Val>,

        requires
            old(self).wf(),
            forall|s: &T, p: T::Pos|
                s.rep().dom().contains(p) ==> #[trigger] call_requires(g, (s, p)),
        ensures
            final(self).original == old(self).original,
            final(self).settings == old(self).settings,
            final(self).entropy_settings == old(self).entropy_settings,
            final(self).start_choice == old(self).start_choice,
            weights_monotone_from(old(self).weights@, final(self).weights@),
            r.0 <= old(self).entropy_settings.attempts,
            r.1 is None ==> final(self).wf(),
            r.1 matches Some(sol) ==> {
                &&& sol.strategy is None
                &&& 1 <= sol.iterations
                &&& exists|full: Map<T::Pos, T::Val>|
                    {
                        &&& #[trigger] T::solved_rep(full)
                        &&& full.dom() == old(self).original.rep().dom()
                        &&& sol.puzzle.rep() == if old(self).settings.difference {
                            difference_rep(full, old(self).original.rep(), T::empty_val())
                        } else {
                            full
                        }
                    }
            },
            old(self).settings.max_iterations == Some(0u64) && old(
                self,
            ).entropy_settings.final_attempt is None ==> r.1 is None,
            old(self).settings.max_iterations is None ==> r.0 == 0,
            T::solved_rep(old(self).state.rep()) && !old(self).settings.solve_simple
                && (old(self).settings.max_iterations matches Some(m) && m >= 1)
                && old(self).entropy_settings.attempts >= 1 ==> r.1 is Some,
    {
        let ghost w0 = self.weights@;
        let mut solution: Option<Solution<T>> = None;
        let mut i: u64 = 0;
        if self.settings.max_iterations.is_some() {
            let attempts = self.entropy_settings.attempts;
            while i < attempts
                invariant
                    i <= attempts,
                    self.original == old(self).original,
                    self.settings == old(self).settings,
                    self.entropy_settings == old(self).entropy_settings,
                    self.start_choice == old(self).start_choice,
                    weights_monotone_from(w0, self.weights@),
                    solution is None ==> self.wf(),
                    old(self).settings.max_iterations == Some(0u64) ==> solution is None,
                    T::solved_rep(old(self).state.rep()) && !old(self).settings.solve_simple
                        && (old(self).settings.max_iterations matches Some(m) ==> m >= 1)
                        && solution is None ==> i == 0 && self.state == old(self).state,
                    solution matches Some(sol) ==> {
                        &&& sol.strategy is None
                        &&& 1 <= sol.iterations
                        &&& exists|full: Map<T::Pos, T::Val>|
                            {
                                &&& #[trigger] T::solved_rep(full)
                                &&& full.dom() == old(self).original.rep().dom()
                                &&& sol.puzzle.rep() == if old(
                                    self,
                                ).settings.difference {
                                    difference_rep(
                                        full,
                                        old(self).original.rep(),
                                        T::empty_val(),
                                    )
                                } else {
                                    full
                                }
                            }
                    },
                decreases attempts - i,
            {
                if solution.is_none() {
                    let ghost wpre = self.weights@;
                    solution = self.solve_single_attempt(g);
                    proof {
                        lemma_weights_monotone_trans(w0, wpre, self.weights@);
                        if solution is Some {
                            let full = self.state.rep();
                            assert(T::solved_rep(full) && full.dom() == old(
                                self,
                            ).original.rep().dom());
                        }
                    }
                } else {
                    break ;
                }
                i = i + 1;
            }
        }
        if solution.is_none() {
            if let Some(new_max_iter) = self.entropy_settings.final_attempt {
                let max_iter = self.settings.max_iterations;
                let noise = self.entropy_settings.noise;
                self.entropy_settings.noise = 0;
                self.settings.max_iterations = new_max_iter;
                let ghost wpre = self.weights@;
                solution = self.solve_single_attempt(g);
                proof {
                    lemma_weights_monotone_trans(w0, wpre, self.weights@);
                    if solution is Some {
                        let full = self.state.rep();
                        assert(T::solved_rep(full) && full.dom() == old(
                            self,
                        ).original.rep().dom());
                    }
                }
                // Reset old settings.
                self.settings.max_iterations = max_iter;
                self.entropy_settings.noise = noise;
            }
        }
        (i, solution)
    }
}

/// Pointwise order of weight tables is transitive.
proof fn lemma_weights_monotone_trans(a: Seq<Vec<u64>>, b: Seq<Vec<u64>>, c: Seq<Vec<u64>>)
    requires
        weights_monotone_from(a, b),
        weights_monotone_from(b, c),
    ensures
        weights_monotone_from(a, c),
{
    assert forall|i: int, j: int|
        0 <= i < a.len() && 0 <= j < a[i]@.len() implies a[i]@[j] <= #[trigger] c[i]@[j] by {
        assert(a[i]@[j] <= b[i]@[j]);
        assert(b[i]@[j] <= c[i]@[j]);
    }
}

} // verus!
