//! A set of `u32` values stored as a sorted list of disjoint, non-adjacent
//! closed intervals.

mod model;
mod set;
mod iter;
mod driver;
mod laws;
mod text;

pub use model::{
    count, expand, in_ranges, lemma_canonical_unique, lemma_count_is_len, lemma_expand, members,
    run, span, well_formed,
};
pub use set::RBSet;
pub use iter::RBSetIter;
pub use text::{decimal, digit_char, entries_text, entry_text};
pub use laws::{lemma_canonical_shape, lemma_iteration_complete, lemma_ranges_are_runs};
pub use driver::{consecutive_slices, model_after, model_step, replay, values, Action};
