//! Permutations of the finite set `{0, ..., n-1}`, in two dual forms:
//! a direct mapping table and a decomposition into disjoint cycles,
//! with verified conversions between the two, composition, inversion,
//! canonical normalization, and cycle-type extraction.

mod decomposition;
mod laws;
mod model;
mod sampling;
mod starts_buf;
mod table;

pub use decomposition::Cycle;
pub use decomposition::CycleDecomposition;
pub use decomposition::CycleIter;
pub use decomposition::CycleType;
pub use decomposition::OwnedCycle;
pub use laws::iterate;
pub use laws::lemma_action_composition;
pub use laws::lemma_compose_identity;
pub use laws::lemma_compose_inverse;
pub use laws::lemma_conversion_round_trip;
pub use laws::lemma_identity_decomposition;
pub use laws::lemma_invert_involutive;
pub use laws::lemma_iterate_additive;
pub use laws::lemma_iterate_in_run;
pub use laws::lemma_normalized_unique;
pub use laws::lemma_rotation_single_cycle;
pub use laws::lemma_run_element_is_iterate;
pub use laws::lemma_run_wraps;
pub use model::application;
pub use model::composition;
pub use model::count_runs_with_length;
pub use model::has_source;
pub use model::identity_permutation;
pub use model::in_run;
pub use model::is_inverse_of;
pub use model::is_normalized;
pub use model::is_permutation;
pub use model::leading_decreasing;
pub use model::leading_increasing;
pub use model::lemma_position_in_some_run;
pub use model::lemma_represented_table_unique;
pub use model::lemma_represents_implies_permutation;
pub use model::lemma_run_length_sum;
pub use model::lemma_runs_disjoint;
pub use model::lemma_starts_increasing;
pub use model::lemma_successor_in_run;
pub use model::links_ok;
pub use model::max_first;
pub use model::min_first;
pub use model::represents;
pub use model::rotation_permutation;
pub use model::run_end;
pub use model::run_length;
pub use model::run_length_sum;
pub use model::successor_position;
pub use model::weighted_count_sum;
pub use model::wf_decomposition;
pub use model::wf_starts;
pub use table::Action;
pub use table::PermError;
pub use table::Table;
