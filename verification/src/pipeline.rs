//! What holds of the functions of this crate taken together, whatever values
//! they return within their contracts.

use vstd::prelude::*;
use crate::distance::{levenshtein_memoization, levenshtein_naive, levenshtein_tabulation};
use crate::distance;
use crate::edit::{apply_edits, generate_edits, Edit, LevenshteinError};
use crate::laws::{lemma_distance_symmetric, lemma_distance_to_self};
use crate::model::{clone_is_copy, edit_distance, eq_is_equality, is_distance_matrix, max2};
use crate::round_trip::lemma_backtrack_of_distance_matrix;
use crate::util::DistanceMatrix;

verus! {

/// The three ways to compute the distance agree: on the same two sequences
/// plain recursion, the table filled from the top and the remembering
/// recursion return the same number.
pub proof fn lemma_three_ways_agree<T: PartialEq>(
    source: &[T],
    target: &[T],
    naive: usize,
    tabulation: (usize, DistanceMatrix),
    memoization: (usize, DistanceMatrix),
)
    requires
        eq_is_equality::<T>(),
        source@.len() < usize::MAX,
        target@.len() < usize::MAX,
        call_ensures(levenshtein_naive::<T>, (source, target), naive),
        call_ensures(levenshtein_tabulation::<T>, (source, target), tabulation),
        call_ensures(levenshtein_memoization::<T>, (source, target), memoization),
    ensures
        naive == tabulation.0,
        naive == memoization.0,
        tabulation.0 == memoization.0,
        tabulation.1.deep_view() == memoization.1.deep_view(),
{
    let t = tabulation.1.deep_view();
    let m = memoization.1.deep_view();
    assert forall|i: int| 0 <= i < t.len() implies #[trigger] t[i] == m[i] by {
        assert forall|j: int| 0 <= j < t[i].len() implies t[i][j] == m[i][j] by {
            assert(t[i][j] == edit_distance(source@.take(i), target@.take(j)));
            assert(m[i][j] == edit_distance(source@.take(i), target@.take(j)));
        }
        assert(t[i] =~= m[i]);
    }
    assert(t =~= m);
}

/// A sequence is at distance zero from itself, whichever way the distance is
/// computed.
pub proof fn lemma_same_input_gives_zero<T: PartialEq>(
    source: &[T],
    naive: usize,
    tabulation: (usize, DistanceMatrix),
    memoization: (usize, DistanceMatrix),
)
    requires
        eq_is_equality::<T>(),
        source@.len() < usize::MAX,
        call_ensures(levenshtein_naive::<T>, (source, source), naive),
        call_ensures(levenshtein_tabulation::<T>, (source, source), tabulation),
        call_ensures(levenshtein_memoization::<T>, (source, source), memoization),
    ensures
        naive == 0,
        tabulation.0 == 0,
        memoization.0 == 0,
{
    lemma_distance_to_self(source@);
}

/// The distance is at most the sum of the two lengths, whichever way it is
/// computed and whatever `==` does on the elements.
pub proof fn lemma_at_most_both_lengths<T: PartialEq>(
    source: &[T],
    target: &[T],
    naive: usize,
    tabulation: (usize, DistanceMatrix),
    memoization: (usize, DistanceMatrix),
)
    requires
        source@.len() < usize::MAX,
        target@.len() < usize::MAX,
        call_ensures(levenshtein_naive::<T>, (source, target), naive),
        call_ensures(levenshtein_tabulation::<T>, (source, target), tabulation),
        call_ensures(levenshtein_memoization::<T>, (source, target), memoization),
    ensures
        naive <= source@.len() + target@.len(),
        tabulation.0 <= source@.len() + target@.len(),
        memoization.0 <= source@.len() + target@.len(),
{
    let t = tabulation.1.deep_view();
    let m = memoization.1.deep_view();
    let rows = source@.len() as int;
    let cols = target@.len() as int;
    assert(t[rows].len() == cols + 1);
    assert(m[rows].len() == cols + 1);
    assert(t[rows][cols] <= max2(rows as nat, cols as nat));
    assert(m[rows][cols] <= max2(rows as nat, cols as nat));
}

/// The distance does not depend on the direction: computing it from `target`
/// to `source` returns what computing it from `source` to `target` returns.
pub proof fn lemma_either_direction<T: PartialEq>(
    source: &[T],
    target: &[T],
    forth: (usize, DistanceMatrix),
    back: (usize, DistanceMatrix),
)
    requires
        eq_is_equality::<T>(),
        source@.len() < usize::MAX,
        target@.len() < usize::MAX,
        call_ensures(levenshtein_tabulation::<T>, (source, target), forth),
        call_ensures(levenshtein_tabulation::<T>, (target, source), back),
    ensures
        forth.0 == back.0,
{
    lemma_distance_symmetric(source@, target@);
}

/// Of any distance matrix of `source` and `target`, however it was come by:
/// generating the edits from it does not fail and returns as many edits as
/// the distance says; and where cloning copies, those edits, handed on as the
/// slice `script`, may be applied to `source`, and what comes out is `target`.
pub proof fn lemma_script_of_distance_matrix<T: Clone + PartialEq>(
    source: &[T],
    target: &[T],
    matrix: &DistanceMatrix,
    generated: Result<Vec<Edit<T>>, LevenshteinError>,
    script: &[Edit<T>],
    applied: Vec<T>,
)
    requires
        is_distance_matrix(matrix.deep_view(), source@, target@),
        call_ensures(generate_edits::<T>, (source, target, matrix), generated),
    ensures
        generated matches Ok(edits) && {
            &&& edits@.len() == edit_distance(source@, target@)
            &&& clone_is_copy::<T>() && script@ == edits@ ==> {
                &&& call_requires(apply_edits::<T>, (source, script))
                &&& call_ensures(apply_edits::<T>, (source, script), applied) ==> applied@
                    == target@
            }
        },
{
    assert(source@.len() == source.len() <= usize::MAX);
    lemma_backtrack_of_distance_matrix(
        source@,
        target@,
        matrix.deep_view(),
        source@.len(),
        target@.len(),
    );
    assert(source@.take(source@.len() as int) =~= source@);
    assert(target@.take(target@.len() as int) =~= target@);
}

/// The script is as long as the distance: generating the edits from the
/// matrix that was computed for `source` and `target` does not fail, and
/// returns as many edits as the distance that was computed with it.
pub proof fn lemma_script_as_long_as_distance<T: Clone + PartialEq>(
    source: &[T],
    target: &[T],
    computed: (usize, DistanceMatrix),
    generated: Result<Vec<Edit<T>>, LevenshteinError>,
)
    requires
        eq_is_equality::<T>(),
        source@.len() < usize::MAX,
        target@.len() < usize::MAX,
        call_ensures(levenshtein_tabulation::<T>, (source, target), computed)
            || call_ensures(levenshtein_memoization::<T>, (source, target), computed),
        call_ensures(generate_edits::<T>, (source, target, &computed.1), generated),
    ensures
        generated matches Ok(edits) && edits@.len() == computed.0,
{
    lemma_script_of_distance_matrix(
        source,
        target,
        &computed.1,
        generated,
        arbitrary(),
        arbitrary(),
    );
}

/// Computing the matrix for `source` and `target`, generating the edits from
/// it and applying them to `source` gives `target`: the generation does not
/// fail, its edits, handed on as the slice `script`, may be applied, and what
/// comes out is `target`.
pub proof fn lemma_round_trip<T: Clone + PartialEq>(
    source: &[T],
    target: &[T],
    computed: (usize, DistanceMatrix),
    generated: Result<Vec<Edit<T>>, LevenshteinError>,
    script: &[Edit<T>],
    applied: Vec<T>,
)
    requires
        eq_is_equality::<T>(),
        clone_is_copy::<T>(),
        source@.len() < usize::MAX,
        target@.len() < usize::MAX,
        call_ensures(levenshtein_tabulation::<T>, (source, target), computed)
            || call_ensures(levenshtein_memoization::<T>, (source, target), computed),
        call_ensures(generate_edits::<T>, (source, target, &computed.1), generated),
    ensures
        generated matches Ok(edits) && (script@ == edits@ ==> {
            &&& call_requires(apply_edits::<T>, (source, script))
            &&& call_ensures(apply_edits::<T>, (source, script), applied) ==> applied@ == target@
        }),
{
    lemma_script_of_distance_matrix(source, target, &computed.1, generated, script, applied);
}

/// The same of the matrix that `distance` computes: the edits generated from
/// it are as many as the distance, and applied to `source` they give
/// `target`.
pub proof fn lemma_round_trip_by_default<T: Clone + Eq>(
    source: &[T],
    target: &[T],
    computed: (usize, DistanceMatrix),
    generated: Result<Vec<Edit<T>>, LevenshteinError>,
    script: &[Edit<T>],
    applied: Vec<T>,
)
    requires
        eq_is_equality::<T>(),
        clone_is_copy::<T>(),
        source@.len() < usize::MAX,
        target@.len() < usize::MAX,
        call_ensures(distance::<T>, (source, target), computed),
        call_ensures(generate_edits::<T>, (source, target, &computed.1), generated),
    ensures
        generated matches Ok(edits) && edits@.len() == computed.0 && (script@ == edits@ ==> {
            &&& call_requires(apply_edits::<T>, (source, script))
            &&& call_ensures(apply_edits::<T>, (source, script), applied) ==> applied@ == target@
        }),
{
    lemma_script_of_distance_matrix(source, target, &computed.1, generated, script, applied);
}

} // verus!
