//! The mathematical model that the contracts of this crate speak of: the edit
//! distance of two sequences, what it means for a table to hold the distances
//! of all prefixes, and two conditions on the element type.

use vstd::prelude::*;
use vstd::std_specs::cmp::PartialEqSpec;

verus! {

/// `==` on `T` decides whether two values are the same value.
///
/// The integer types, `bool` and `char` meet this by definition; Verus proves
/// it for them without help.
pub open spec fn eq_is_equality<T: PartialEq>() -> bool {
    &&& T::obeys_eq_spec()
    &&& forall|x: T, y: T| #[trigger] x.eq_spec(&y) <==> x == y
}

/// Every clone of a `T` is the value that it was cloned from.
pub open spec fn clone_is_copy<T: Clone>() -> bool {
    forall|x: T, y: T| #[trigger] cloned(x, y) ==> x == y
}

/// The smallest of three natural numbers.
pub open spec fn min3(x: nat, y: nat, z: nat) -> nat {
    if x <= y {
        if x <= z {
            x
        } else {
            z
        }
    } else if y <= z {
        y
    } else {
        z
    }
}

/// The larger of two natural numbers.
pub open spec fn max2(x: nat, y: nat) -> nat {
    if x <= y {
        y
    } else {
        x
    }
}

/// The edit distance of `a` and `b`: the number of unit-cost insertions,
/// deletions and substitutions that the cheapest way from `a` to `b` takes.
///
/// One empty sequence is as far from the other as the other is long. Two
/// sequences that end in the same element are as far apart as they are
/// without it. Otherwise one edit is spent on the last position: the last
/// element of `a` is deleted, the last element of `b` is inserted, or the one
/// is replaced by the other.
pub open spec fn edit_distance<T>(a: Seq<T>, b: Seq<T>) -> nat
    decreases a.len() + b.len(),
{
    if a.len() == 0 {
        b.len()
    } else if b.len() == 0 {
        a.len()
    } else if a.last() == b.last() {
        edit_distance(a.drop_last(), b.drop_last())
    } else {
        1 + min3(
            edit_distance(a.drop_last(), b),
            edit_distance(a, b.drop_last()),
            edit_distance(a.drop_last(), b.drop_last()),
        )
    }
}

/// `m` is a dense grid of `rows` rows with `cols` cells each.
pub open spec fn has_shape(m: Seq<Seq<usize>>, rows: nat, cols: nat) -> bool {
    &&& m.len() == rows
    &&& forall|i: int| 0 <= i < rows ==> (#[trigger] m[i]).len() == cols
}

/// `m` is the distance matrix of `a` and `b`: cell `(i, j)` holds the edit
/// distance of the first `i` elements of `a` and the first `j` elements of `b`.
pub open spec fn is_distance_matrix<T>(m: Seq<Seq<usize>>, a: Seq<T>, b: Seq<T>) -> bool {
    &&& has_shape(m, a.len() + 1, b.len() + 1)
    &&& forall|i: int, j: int|
        0 <= i <= a.len() && 0 <= j <= b.len() ==> #[trigger] m[i][j] == edit_distance(
            a.take(i),
            b.take(j),
        )
}

/// The first row of `m` counts up from zero, and so does its first column.
pub open spec fn has_counting_border(m: Seq<Seq<usize>>) -> bool {
    &&& forall|j: int| 0 <= j < m[0].len() ==> #[trigger] m[0][j] == j
    &&& forall|i: int| 0 <= i < m.len() ==> (#[trigger] m[i])[0] == i
}

/// `m` is a table of `rows + 1` by `cols + 1` cells in which only the border
/// is filled in: the first row and the first column count up from zero, and
/// every other cell holds `usize::MAX`, which marks it as not yet computed.
pub open spec fn is_blank_table(m: Seq<Seq<usize>>, rows: nat, cols: nat) -> bool {
    &&& has_shape(m, rows + 1, cols + 1)
    &&& forall|i: int, j: int|
        0 <= i <= rows && 0 <= j <= cols ==> #[trigger] m[i][j] == if i == 0 {
            j
        } else if j == 0 {
            i
        } else {
            usize::MAX as int
        }
}

/// The number of leading positions at which `a` and `b` hold the same
/// element, counted up to the first position at which they differ or one of
/// them ends.
pub open spec fn common_prefix_len<T>(a: Seq<T>, b: Seq<T>) -> nat
    decreases a.len(),
{
    if a.len() > 0 && b.len() > 0 && a.first() == b.first() {
        1 + common_prefix_len(a.drop_first(), b.drop_first())
    } else {
        0
    }
}

/// The number of trailing positions at which `a` and `b` hold the same
/// element, counted from the end up to the first position at which they
/// differ or one of them is used up.
pub open spec fn common_suffix_len<T>(a: Seq<T>, b: Seq<T>) -> nat
    decreases a.len(),
{
    if a.len() > 0 && b.len() > 0 && a.last() == b.last() {
        1 + common_suffix_len(a.drop_last(), b.drop_last())
    } else {
        0
    }
}

/// `a` and `b` without their longest common prefix and, of what is then left,
/// without the longest common suffix.
pub open spec fn without_common_affix<T>(a: Seq<T>, b: Seq<T>) -> (Seq<T>, Seq<T>) {
    let prefix = common_prefix_len(a, b);
    let suffix = common_suffix_len(a.skip(prefix as int), b.skip(prefix as int));
    (a.subrange(prefix as int, a.len() - suffix), b.subrange(prefix as int, b.len() - suffix))
}

} // verus!
