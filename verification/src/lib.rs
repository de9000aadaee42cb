//! Edit distance between two sequences, the edit script that turns the one
//! into the other, and the replay of such a script.

use vstd::prelude::*;

pub mod distance;
pub mod edit;
pub mod laws;
pub mod model;
pub mod pipeline;
pub mod round_trip;
pub mod util;

pub use distance::{levenshtein_memoization, levenshtein_naive, levenshtein_tabulation};
pub use edit::{apply_edits, generate_edits, Edit, LevenshteinError};
use distance::is_filled;
use model::{edit_distance, eq_is_equality, has_counting_border, has_shape, is_distance_matrix};
use util::DistanceMatrix;

verus! {

/// Computes the edit distance of `source` and `target` and returns it
/// together with their distance matrix.
pub fn distance<T: Eq>(source: &[T], target: &[T]) -> (result: (usize, DistanceMatrix))
    requires
        source@.len() < usize::MAX,
        target@.len() < usize::MAX,
    ensures
        has_shape(result.1.deep_view(), source@.len() + 1, target@.len() + 1),
        has_counting_border(result.1.deep_view()),
        is_filled(result.1.deep_view()),
        result.0 == result.1.deep_view()[source@.len() as int][target@.len() as int],
        eq_is_equality::<T>() ==> is_distance_matrix(result.1.deep_view(), source@, target@),
        eq_is_equality::<T>() ==> result.0 == edit_distance(source@, target@),
{
    levenshtein_memoization(source, target)
}

} // verus!
