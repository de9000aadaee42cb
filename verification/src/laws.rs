//! What holds of the edit distance, proved from its definition.

use vstd::prelude::*;
use crate::model::{
    common_prefix_len, common_suffix_len, edit_distance, has_counting_border, is_distance_matrix,
    max2, min3, without_common_affix,
};

verus! {

/// The distance of two sequences is at most the length of the longer one, and
/// so at most the sum of their lengths: deleting all of one and inserting all
/// of the other is always possible.
pub proof fn lemma_distance_bounded<T>(a: Seq<T>, b: Seq<T>)
    ensures
        edit_distance(a, b) <= max2(a.len(), b.len()),
        edit_distance(a, b) <= a.len() + b.len(),
    decreases a.len() + b.len(),
{
    if a.len() > 0 && b.len() > 0 {
        lemma_distance_bounded(a.drop_last(), b.drop_last());
    }
}

/// The distance of two sequences is at least the difference of their lengths.
pub proof fn lemma_distance_at_least_length_gap<T>(a: Seq<T>, b: Seq<T>)
    ensures
        edit_distance(a, b) >= a.len() - b.len(),
        edit_distance(a, b) >= b.len() - a.len(),
    decreases a.len() + b.len(),
{
    if a.len() > 0 && b.len() > 0 {
        lemma_distance_at_least_length_gap(a.drop_last(), b.drop_last());
        lemma_distance_at_least_length_gap(a.drop_last(), b);
        lemma_distance_at_least_length_gap(a, b.drop_last());
    }
}

/// A sequence is at distance zero from itself.
pub proof fn lemma_distance_to_self<T>(a: Seq<T>)
    ensures
        edit_distance(a, a) == 0,
    decreases a.len(),
{
    if a.len() > 0 {
        lemma_distance_to_self(a.drop_last());
    }
}

/// The distance from `a` to `b` is the distance from `b` to `a`.
pub proof fn lemma_distance_symmetric<T>(a: Seq<T>, b: Seq<T>)
    ensures
        edit_distance(a, b) == edit_distance(b, a),
    decreases a.len() + b.len(),
{
    if a.len() > 0 && b.len() > 0 {
        lemma_distance_symmetric(a.drop_last(), b.drop_last());
        lemma_distance_symmetric(a.drop_last(), b);
        lemma_distance_symmetric(a, b.drop_last());
    }
}

/// Dropping the last element of either sequence changes the distance by at
/// most one.
pub proof fn lemma_distance_of_neighbours<T>(a: Seq<T>, b: Seq<T>)
    ensures
        a.len() > 0 ==> edit_distance(a.drop_last(), b) <= edit_distance(a, b) + 1,
        a.len() > 0 ==> edit_distance(a, b) <= edit_distance(a.drop_last(), b) + 1,
        b.len() > 0 ==> edit_distance(a, b.drop_last()) <= edit_distance(a, b) + 1,
        b.len() > 0 ==> edit_distance(a, b) <= edit_distance(a, b.drop_last()) + 1,
    decreases a.len() + b.len(),
{
    if a.len() > 0 && b.len() > 0 {
        lemma_distance_of_neighbours(a.drop_last(), b);
        lemma_distance_of_neighbours(a, b.drop_last());
    }
}

/// The distance of an empty prefix and a prefix of `j` elements is `j`, and
/// the other way round.
pub proof fn lemma_prefix_border<T>(a: Seq<T>, b: Seq<T>, i: int, j: int)
    requires
        0 <= i <= a.len(),
        0 <= j <= b.len(),
    ensures
        edit_distance(a.take(0), b.take(j)) == j,
        edit_distance(a.take(i), b.take(0)) == i,
{
}

/// The recurrence between the distances of neighbouring prefixes: where the
/// prefixes end in the same element they are as far apart as without it, and
/// otherwise one further than the nearest of the three pairs before them.
pub proof fn lemma_prefix_step<T>(a: Seq<T>, b: Seq<T>, i: int, j: int)
    requires
        1 <= i <= a.len(),
        1 <= j <= b.len(),
    ensures
        edit_distance(a.take(i), b.take(j)) == if a[i - 1] == b[j - 1] {
            edit_distance(a.take(i - 1), b.take(j - 1))
        } else {
            1 + min3(
                edit_distance(a.take(i - 1), b.take(j)),
                edit_distance(a.take(i), b.take(j - 1)),
                edit_distance(a.take(i - 1), b.take(j - 1)),
            )
        },
{
    assert(a.take(i).drop_last() =~= a.take(i - 1));
    assert(b.take(j).drop_last() =~= b.take(j - 1));
}

/// The same recurrence in the form that charges every step: one for a
/// deletion, one for an insertion, and for the diagonal step one unless the
/// prefixes end in the same element.
pub proof fn lemma_prefix_step_charged<T>(a: Seq<T>, b: Seq<T>, i: int, j: int)
    requires
        1 <= i <= a.len(),
        1 <= j <= b.len(),
    ensures
        edit_distance(a.take(i), b.take(j)) == min3(
            edit_distance(a.take(i - 1), b.take(j)) + 1,
            edit_distance(a.take(i), b.take(j - 1)) + 1,
            edit_distance(a.take(i - 1), b.take(j - 1)) + if a[i - 1] == b[j - 1] {
                0nat
            } else {
                1nat
            },
        ),
{
    lemma_prefix_step(a, b, i, j);
    assert(a.take(i).drop_last() =~= a.take(i - 1));
    assert(b.take(j).drop_last() =~= b.take(j - 1));
    lemma_distance_of_neighbours(a.take(i - 1), b.take(j));
    lemma_distance_of_neighbours(a.take(i), b.take(j - 1));
}

/// A distance matrix has a counting border, and its last cell holds the
/// distance of the two sequences.
pub proof fn lemma_distance_matrix_corners<T>(m: Seq<Seq<usize>>, a: Seq<T>, b: Seq<T>)
    requires
        is_distance_matrix(m, a, b),
    ensures
        has_counting_border(m),
        m[a.len() as int][b.len() as int] == edit_distance(a, b),
{
    assert(a.take(a.len() as int) =~= a);
    assert(b.take(b.len() as int) =~= b);
    assert forall|j: int| 0 <= j < m[0].len() implies #[trigger] m[0][j] == j by {
        lemma_prefix_border(a, b, 0, j);
    }
    assert forall|i: int| 0 <= i < m.len() implies (#[trigger] m[i])[0] == i by {
        lemma_prefix_border(a, b, i, 0);
    }
}

/// Two sequences that begin with the same element are as far apart as they
/// are without it.
pub proof fn lemma_distance_common_first<T>(a: Seq<T>, b: Seq<T>)
    requires
        a.len() > 0,
        b.len() > 0,
        a.first() == b.first(),
    ensures
        edit_distance(a, b) == edit_distance(a.drop_first(), b.drop_first()),
    decreases a.len() + b.len(),
{
    let short_a = a.drop_last();
    let short_b = b.drop_last();
    if a.len() == 1 && b.len() == 1 {
        assert(edit_distance(short_a, short_b) == 0);
    } else if a.len() == 1 {
        lemma_distance_common_first(a, short_b);
        assert(short_b.drop_first() =~= b.drop_first().drop_last());
        assert(edit_distance(a.drop_first(), short_b.drop_first()) == b.len() - 2);
        assert(edit_distance(short_a, short_b) == b.len() - 1);
        assert(edit_distance(short_a, b) == b.len());
        assert(edit_distance(a.drop_first(), b.drop_first()) == b.len() - 1);
    } else if b.len() == 1 {
        lemma_distance_common_first(short_a, b);
        assert(short_a.drop_first() =~= a.drop_first().drop_last());
        assert(edit_distance(short_a.drop_first(), b.drop_first()) == a.len() - 2);
        assert(edit_distance(short_a, short_b) == a.len() - 1);
        assert(edit_distance(a, short_b) == a.len());
        assert(edit_distance(a.drop_first(), b.drop_first()) == a.len() - 1);
    } else {
        lemma_distance_common_first(short_a, short_b);
        lemma_distance_common_first(short_a, b);
        lemma_distance_common_first(a, short_b);
        assert(short_a.drop_first() =~= a.drop_first().drop_last());
        assert(short_b.drop_first() =~= b.drop_first().drop_last());
    }
}

/// Cutting the longest common prefix from two sequences leaves their distance
/// as it was.
pub proof fn lemma_distance_without_common_prefix<T>(a: Seq<T>, b: Seq<T>)
    ensures
        common_prefix_len(a, b) <= a.len(),
        common_prefix_len(a, b) <= b.len(),
        edit_distance(
            a.skip(common_prefix_len(a, b) as int),
            b.skip(common_prefix_len(a, b) as int),
        ) == edit_distance(a, b),
    decreases a.len(),
{
    let prefix = common_prefix_len(a, b);
    if prefix > 0 {
        lemma_distance_without_common_prefix(a.drop_first(), b.drop_first());
        lemma_distance_common_first(a, b);
        assert(a.drop_first().skip(prefix - 1) =~= a.skip(prefix as int));
        assert(b.drop_first().skip(prefix - 1) =~= b.skip(prefix as int));
    } else {
        assert(a.skip(0) =~= a);
        assert(b.skip(0) =~= b);
    }
}

/// Cutting the longest common suffix from two sequences leaves their distance
/// as it was.
pub proof fn lemma_distance_without_common_suffix<T>(a: Seq<T>, b: Seq<T>)
    ensures
        common_suffix_len(a, b) <= a.len(),
        common_suffix_len(a, b) <= b.len(),
        edit_distance(
            a.take(a.len() - common_suffix_len(a, b)),
            b.take(b.len() - common_suffix_len(a, b)),
        ) == edit_distance(a, b),
    decreases a.len(),
{
    let suffix = common_suffix_len(a, b);
    if suffix > 0 {
        lemma_distance_without_common_suffix(a.drop_last(), b.drop_last());
        assert(a.drop_last().take(a.len() - suffix) =~= a.take(a.len() - suffix));
        assert(b.drop_last().take(b.len() - suffix) =~= b.take(b.len() - suffix));
    } else {
        assert(a.take(a.len() as int) =~= a);
        assert(b.take(b.len() as int) =~= b);
    }
}

/// Cutting the common prefix and the common suffix from two sequences leaves
/// their distance as it was: what is cut costs nothing.
pub proof fn lemma_distance_without_common_affix<T>(a: Seq<T>, b: Seq<T>)
    ensures
        edit_distance(without_common_affix(a, b).0, without_common_affix(a, b).1)
            == edit_distance(a, b),
{
    let prefix = common_prefix_len(a, b);
    let rest_a = a.skip(prefix as int);
    let rest_b = b.skip(prefix as int);
    let suffix = common_suffix_len(rest_a, rest_b);
    lemma_distance_without_common_prefix(a, b);
    lemma_distance_without_common_suffix(rest_a, rest_b);
    assert(rest_a.take(rest_a.len() - suffix) =~= a.subrange(prefix as int, a.len() - suffix));
    assert(rest_b.take(rest_b.len() - suffix) =~= b.subrange(prefix as int, b.len() - suffix));
}

} // verus!
