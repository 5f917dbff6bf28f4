//! A generic constraint-satisfaction backtracking engine.
//!
//! Given a mutable puzzle state and externally supplied strategy functions
//! (which empty slot to fill next, and which candidate values to try there,
//! in priority order), the solvers explore assignments depth-first, undoing
//! choices on failure, until the state satisfies its solved predicate or the
//! search space (or an iteration budget) is exhausted.
//!
//! Three solver variants share the same reversible stepping machinery:
//! [`BackTrackSolver`] runs a single strategy, [`MultiBackTrackSolver`]
//! races several strategies in round-robin lockstep, and
//! [`EntropyBackTrackSolver`] picks branch points by minimum entropy over
//! weights learned across repeated attempts. [`combine`] merges several
//! candidate-priority lists into one.

mod boards;
mod combine;
mod entropy;
mod multi;
mod puzzle;
mod rng;
mod score;
mod settings;
mod solution;
mod solver;
mod step;

pub use boards::ChainPuzzle;
pub use boards::NQueens;
pub use boards::chain_fix;
pub use boards::chain_source;
pub use boards::first_empty_row;
pub use boards::legal_columns;
pub use boards::lemma_chain_source;
pub use boards::column_conflicts;
pub use boards::queens_ok;
pub use boards::solve_queens;
pub use combine::appears;
pub use combine::clipped_score;
pub use combine::combine;
pub use combine::combine_post;
pub use combine::combine_score;
pub use combine::lawful_order;
pub use combine::lemma_combine_order_invariant;
pub use combine::lemma_lawful_order_u64;
pub use combine::lemma_combine_score_permutation;
pub use combine::list_views;
pub use combine::rank_before;
pub use combine::score_in_list;
pub use entropy::EntropyBackTrackSolver;
pub use entropy::EntropySolveSettings;
pub use entropy::NOISE_ONE;
pub use entropy::choice_inactive;
pub use entropy::first_index;
pub use entropy::lemma_first_index;
pub use entropy::lemma_observe_row;
pub use entropy::lookup_weight;
pub use entropy::observe_row;
pub use entropy::weights_monotone_from;
pub use multi::MultiBackTrackSolver;
pub use puzzle::MoveKind;
pub use puzzle::Puzzle;
pub use puzzle::difference_rep;
pub use puzzle::lemma_unwound_concat;
pub use puzzle::lemma_unwound_push;
pub use puzzle::simple_entries;
pub use puzzle::undo_pairs;
pub use puzzle::unwound;
pub use score::LOG_SCALE;
pub use score::entropy_score;
pub use score::entropy_score_exec;
pub use score::floor_log2;
pub use score::log2_scaled;
pub use score::pow2;
pub use score::weight_sum;
pub use score::weighted_log_sum;
pub use settings::SolveSettings;
pub use solution::Solution;
pub use solution::SolveStatus;
pub use solver::BackTrackSolver;
pub use step::search_inv;
