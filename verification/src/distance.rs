//! Three ways to compute the edit distance: plain recursion, a table filled
//! from the top, and recursion that remembers what it has computed.

use vstd::prelude::*;
use crate::laws::{lemma_prefix_border, lemma_prefix_step, lemma_prefix_step_charged};
use crate::model::{
    edit_distance, eq_is_equality, has_counting_border, has_shape, is_distance_matrix, max2,
};
use crate::util::{
    get_distance_table, lemma_table_cell_written, lemma_table_cells, up_to_last, DistanceMatrix,
};

verus! {

/// No cell of `m` exceeds the larger of its two indices.
pub open spec fn is_filled(m: Seq<Seq<usize>>) -> bool {
    forall|i: int, j: int|
        0 <= i < m.len() && 0 <= j < m[i].len() ==> #[trigger] m[i][j] <= max2(i as nat, j as nat)
}

/// Returns the edit distance of `source` and `target`, computed by plain
/// recursion on the last elements.
///
/// The running time is exponential in the length of the input: this is the
/// definition made executable, to hold the other two against.
pub fn levenshtein_naive<T: PartialEq>(source: &[T], target: &[T]) -> (distance: usize)
    ensures
        distance <= max2(source@.len(), target@.len()),
        eq_is_equality::<T>() ==> distance == edit_distance(source@, target@),
    decreases source@.len() + target@.len(),
{
    let m: usize = source.len();
    let n: usize = target.len();
    // base case
    if m == 0 || n == 0 {
        return m.max(n);
    }
    if source[m - 1] == target[n - 1] {
        // The item being looked at is the same, so it wouldn't contribute to the distance
        return levenshtein_naive(up_to_last(source), up_to_last(target));
    }
    // The items being looked at are different, so we must consider all possibilities

    let delete: usize = levenshtein_naive(up_to_last(source), target);
    let insert: usize = levenshtein_naive(source, up_to_last(target));
    let substitute: usize = levenshtein_naive(up_to_last(source), up_to_last(target));

    1 + insert.min(delete).min(substitute)
}

/// Returns the edit distance of `source` and `target` together with their
/// distance matrix, filled row by row from the top, each cell from the three
/// cells before it.
pub fn levenshtein_tabulation<T: PartialEq>(source: &[T], target: &[T]) -> (result: (
    usize,
    DistanceMatrix,
))
    requires
        source@.len() < usize::MAX,
        target@.len() < usize::MAX,
    ensures
        has_shape(result.1.deep_view(), source@.len() + 1, target@.len() + 1),
        has_counting_border(result.1.deep_view()),
        is_filled(result.1.deep_view()),
        result.0 == result.1.deep_view()[source@.len() as int][target@.len() as int],
        eq_is_equality::<T>() ==> is_distance_matrix(result.1.deep_view(), source@, target@),
        eq_is_equality::<T>() ==> result.0 == edit_distance(source@, target@),
{
    let m: usize = source.len();
    let n: usize = target.len();

    // table of distances
    let mut distances = get_distance_table(m, n);
    proof {
        lemma_table_cells(&distances);
        assert forall|c: int| 0 <= c <= n implies edit_distance(source@.take(0), target@.take(c))
            == c by {
            lemma_prefix_border(source@, target@, 0, c);
        }
    }

    let mut i: usize = 1;
    while i <= m
        invariant
            m == source@.len(),
            n == target@.len(),
            m < usize::MAX,
            n < usize::MAX,
            1 <= i <= m + 1,
            has_shape(distances.deep_view(), m as nat + 1, n as nat + 1),
            has_counting_border(distances.deep_view()),
            forall|r: int, c: int|
                0 <= r < i && 0 <= c <= n ==> #[trigger] distances.deep_view()[r][c] <= max2(
                    r as nat,
                    c as nat,
                ),
            eq_is_equality::<T>() ==> forall|r: int, c: int|
                0 <= r < i && 0 <= c <= n ==> #[trigger] distances.deep_view()[r][c]
                    == edit_distance(source@.take(r), target@.take(c)),
        decreases m + 1 - i,
    {
        proof {
            lemma_prefix_border(source@, target@, i as int, 0);
        }
        let mut j: usize = 1;
        while j <= n
            invariant
                m == source@.len(),
                n == target@.len(),
                m < usize::MAX,
                n < usize::MAX,
                1 <= i <= m,
                1 <= j <= n + 1,
                has_shape(distances.deep_view(), m as nat + 1, n as nat + 1),
                has_counting_border(distances.deep_view()),
                forall|r: int, c: int|
                    0 <= r < i && 0 <= c <= n ==> #[trigger] distances.deep_view()[r][c] <= max2(
                        r as nat,
                        c as nat,
                    ),
                forall|c: int|
                    0 <= c < j ==> #[trigger] distances.deep_view()[i as int][c] <= max2(
                        i as nat,
                        c as nat,
                    ),
                eq_is_equality::<T>() ==> forall|r: int, c: int|
                    0 <= r < i && 0 <= c <= n ==> #[trigger] distances.deep_view()[r][c]
                        == edit_distance(source@.take(r), target@.take(c)),
                eq_is_equality::<T>() ==> forall|c: int|
                    0 <= c < j ==> #[trigger] distances.deep_view()[i as int][c] == edit_distance(
                        source@.take(i as int),
                        target@.take(c),
                    ),
            decreases n + 1 - j,
        {
            let ghost known = distances.deep_view();
            let ghost unwritten = distances;
            proof {
                lemma_table_cells(&distances);
                assert(known[i as int].len() == n + 1);
                assert(known[i - 1].len() == n + 1);
                assert(known[i - 1][j - 1] <= max2((i - 1) as nat, (j - 1) as nat));
                assert(known[i - 1][j as int] <= max2((i - 1) as nat, j as nat));
                assert(known[i as int][j - 1] <= max2(i as nat, (j - 1) as nat));
                if eq_is_equality::<T>() {
                    lemma_prefix_step(source@, target@, i as int, j as int);
                }
            }
            let value: usize = if source[i - 1] == target[j - 1] {
                // The item being looked at is the same, so the distance won't increase
                distances[i - 1][j - 1]
            } else {
                let delete: usize = distances[i - 1][j] + 1;
                let insert: usize = distances[i][j - 1] + 1;
                let substitute: usize = distances[i - 1][j - 1] + 1;

                delete.min(insert).min(substitute)
            };
            distances[i][j] = value;
            proof {
                let now = distances.deep_view();
                lemma_table_cell_written(&unwritten, &distances, i as int, j as int, value);
                assert(now == known.update(i as int, known[i as int].update(j as int, value)));
                assert forall|r: int| 0 <= r <= m implies (#[trigger] now[r]).len() == n + 1 by {
                    assert(known[r].len() == n + 1);
                }
                assert forall|r: int, c: int| 0 <= r <= m && 0 <= c <= n implies now[r][c] == if r
                    == i && c == j {
                    value
                } else {
                    known[r][c]
                } by {}
            }
            j = j + 1;
        }
        i = i + 1;
    }
    proof {
        lemma_table_cells(&distances);
        assert(source@.take(m as int) =~= source@);
        assert(target@.take(n as int) =~= target@);
        assert(distances.deep_view()[m as int].len() == n + 1);
    }
    (distances[m][n], distances)
}

/// What holds of the table while the remembering recursion runs on it. A cell
/// is known when it no longer holds `usize::MAX`. The border is known from
/// the start; with a cell all cells above and to the left of it are known; a
/// known cell is at most the larger of its indices, and is the distance of
/// the two prefixes where `==` decides equality.
spec fn memo_ok<T: PartialEq>(m: Seq<Seq<usize>>, a: Seq<T>, b: Seq<T>) -> bool {
    &&& has_shape(m, a.len() + 1, b.len() + 1)
    &&& has_counting_border(m)
    &&& forall|i: int, j: int|
        0 <= i <= a.len() && 0 <= j <= b.len() && #[trigger] m[i][j] != usize::MAX ==> m[i][j]
            <= max2(i as nat, j as nat)
    &&& eq_is_equality::<T>() ==> forall|i: int, j: int|
        0 <= i <= a.len() && 0 <= j <= b.len() && #[trigger] m[i][j] != usize::MAX ==> m[i][j]
            == edit_distance(a.take(i), b.take(j))
    &&& forall|i: int, j: int, p: int, q: int|
        0 <= p <= i <= a.len() && 0 <= q <= j <= b.len() && #[trigger] m[i][j] != usize::MAX
            ==> #[trigger] m[p][q] != usize::MAX
}

/// Returns the distance of `source` and `target`, which are prefixes of `a`
/// and `b`, from the table if it is known there, and computes it and notes it
/// in the table if not.
fn levenshtein_memoization_helper<T: PartialEq>(
    source: &[T],
    target: &[T],
    distances: &mut DistanceMatrix,
    Ghost(a): Ghost<Seq<T>>,
    Ghost(b): Ghost<Seq<T>>,
) -> (distance: usize)
    requires
        source@.len() <= a.len() < usize::MAX,
        target@.len() <= b.len() < usize::MAX,
        source@ == a.take(source@.len() as int),
        target@ == b.take(target@.len() as int),
        memo_ok(old(distances).deep_view(), a, b),
    ensures
        memo_ok(final(distances).deep_view(), a, b),
        distance == final(distances).deep_view()[source@.len() as int][target@.len() as int],
        distance != usize::MAX,
        forall|i: int, j: int|
            0 <= i <= a.len() && 0 <= j <= b.len() && #[trigger] old(distances).deep_view()[i][j]
                != usize::MAX ==> final(distances).deep_view()[i][j] == old(
                distances,
            ).deep_view()[i][j],
    decreases source@.len() + target@.len(),
{
    let i: usize = source.len();
    let j: usize = target.len();
    proof {
        lemma_table_cells(distances);
        assert(distances.deep_view()[i as int].len() == b.len() + 1);
    }

    // check the cache first
    if distances[i][j] < usize::MAX {
        return distances[i][j];
    }
    // base case

    if i == 0 || j == 0 {
        return i.max(j);
    }
    // couldn't find the value, time to recursively calculate it

    let k: usize = if source[i - 1] == target[j - 1] {
        0
    } else {
        1
    };
    proof {
        assert(a.take(i as int).drop_last() =~= a.take(i - 1));
        assert(b.take(j as int).drop_last() =~= b.take(j - 1));
    }
    let delete: usize = levenshtein_memoization_helper(
        up_to_last(source),
        target,
        distances,
        Ghost(a),
        Ghost(b),
    ) + 1;
    let insert: usize = levenshtein_memoization_helper(
        source,
        up_to_last(target),
        distances,
        Ghost(a),
        Ghost(b),
    ) + 1;
    let substitute: usize = levenshtein_memoization_helper(
        up_to_last(source),
        up_to_last(target),
        distances,
        Ghost(a),
        Ghost(b),
    ) + k;

    let distance: usize = delete.min(insert).min(substitute);
    let ghost known = distances.deep_view();
    let ghost unwritten = *distances;
    proof {
        lemma_table_cells(distances);
        assert(known[i as int].len() == b.len() + 1);
    }

    // update the cache
    distances[i][j] = distance;

    proof {
        let now = distances.deep_view();
        lemma_table_cell_written(&unwritten, distances, i as int, j as int, distance);
        assert forall|r: int, c: int| 0 <= r <= a.len() && 0 <= c <= b.len() implies now[r][c]
            == if r == i && c == j {
            distance
        } else {
            known[r][c]
        } by {}
        if eq_is_equality::<T>() {
            lemma_prefix_step_charged(a, b, i as int, j as int);
            assert(a[i - 1] == source@[i - 1]);
            assert(b[j - 1] == target@[j - 1]);
        }
        assert forall|r: int, c: int, p: int, q: int|
            0 <= p <= r <= a.len() && 0 <= q <= c <= b.len() && #[trigger] now[r][c]
                != usize::MAX implies #[trigger] now[p][q] != usize::MAX by {
            if r == i && c == j {
                if p < i {
                    assert(known[i - 1][j as int] != usize::MAX);
                    assert(known[p][q] != usize::MAX);
                } else if q < j {
                    assert(known[i as int][j - 1] != usize::MAX);
                    assert(known[p][q] != usize::MAX);
                }
            } else {
                assert(known[r][c] != usize::MAX);
                assert(known[p][q] != usize::MAX);
            }
        }
        assert forall|r: int| 0 <= r <= a.len() implies (#[trigger] now[r]).len() == b.len()
            + 1 by {
            assert(known[r].len() == b.len() + 1);
        }
    }
    distance
}

/// Returns the edit distance of `source` and `target` together with their
/// distance matrix, computed by recursion from the last cell, with the matrix
/// as the memory of what is already known.
pub fn levenshtein_memoization<T: PartialEq>(source: &[T], target: &[T]) -> (result: (
    usize,
    DistanceMatrix,
))
    requires
        source@.len() < usize::MAX,
        target@.len() < usize::MAX,
    ensures
        has_shape(result.1.deep_view(), source@.len() + 1, target@.len() + 1),
        has_counting_border(result.1.deep_view()),
        is_filled(result.1.deep_view()),
        result.0 == result.1.deep_view()[source@.len() as int][target@.len() as int],
        eq_is_equality::<T>() ==> is_distance_matrix(result.1.deep_view(), source@, target@),
        eq_is_equality::<T>() ==> result.0 == edit_distance(source@, target@),
{
    let mut distances = get_distance_table(source.len(), target.len());
    proof {
        assert(source@.take(source@.len() as int) =~= source@);
        assert(target@.take(target@.len() as int) =~= target@);
        if eq_is_equality::<T>() {
            // The border is all that is known so far, and it holds the
            // distances from and to the empty prefix.
            assert forall|i: int, j: int|
                0 <= i <= source@.len() && 0 <= j <= target@.len()
                    && #[trigger] distances.deep_view()[i][j]
                    != usize::MAX implies distances.deep_view()[i][j] == edit_distance(
                source@.take(i),
                target@.take(j),
            ) by {}
        }
    }
    let distance = levenshtein_memoization_helper(
        source,
        target,
        &mut distances,
        Ghost(source@),
        Ghost(target@),
    );
    (distance, distances)
}

} // verus!
