//! The distance table and small helpers on slices.

use vstd::prelude::*;
use vstd::slice::slice_subrange;
use crate::model::{
    common_prefix_len, common_suffix_len, eq_is_equality, is_blank_table, without_common_affix,
};

verus! {

/// A dense table of distances: one row for each prefix of the source, one
/// column for each prefix of the target.
pub type DistanceMatrix = Vec<Vec<usize>>;

/// The table as a sequence of rows of numbers is the table read cell by cell.
pub proof fn lemma_table_cells(table: &DistanceMatrix)
    ensures
        table.deep_view().len() == table@.len(),
        forall|i: int| 0 <= i < table@.len() ==> #[trigger] table.deep_view()[i] == table@[i]@,
{
    assert forall|i: int| 0 <= i < table@.len() implies #[trigger] table.deep_view()[i]
        == table@[i]@ by {
        assert(table.deep_view()[i] =~= table@[i]@);
    }
}

/// Writing one cell of a table changes that cell and no other.
pub proof fn lemma_table_cell_written(
    before: &DistanceMatrix,
    after: &DistanceMatrix,
    i: int,
    j: int,
    value: usize,
)
    requires
        0 <= i < before@.len(),
        0 <= j < before@[i]@.len(),
        after@.len() == before@.len(),
        after@[i]@ == before@[i]@.update(j, value),
        forall|k: int| 0 <= k < before@.len() && k != i ==> after@[k] == before@[k],
    ensures
        after.deep_view() == before.deep_view().update(
            i,
            before.deep_view()[i].update(j, value),
        ),
{
    lemma_table_cells(before);
    lemma_table_cells(after);
    assert forall|k: int| 0 <= k < before@.len() implies #[trigger] after.deep_view()[k]
        == before.deep_view().update(i, before.deep_view()[i].update(j, value))[k] by {
        if k != i {
            assert(after.deep_view()[k] == after@[k]@);
            assert(before.deep_view()[k] == before@[k]@);
        }
    }
    assert(after.deep_view() =~= before.deep_view().update(
        i,
        before.deep_view()[i].update(j, value),
    ));
}

/// Returns `slice` without its last element; an empty slice stays empty.
pub fn up_to_last<T>(slice: &[T]) -> (rest: &[T])
    ensures
        rest@ == if slice@.len() == 0 {
            slice@
        } else {
            slice@.drop_last()
        },
{
    let len: usize = slice.len();
    if len == 0 {
        slice
    } else {
        slice_subrange(slice, 0, len - 1)
    }
}

/// Returns a table of `m + 1` rows and `n + 1` columns whose first row is
/// `0, 1, .., n`, whose first column is `0, 1, .., m`, and whose other cells
/// all hold `usize::MAX`.
pub fn get_distance_table(m: usize, n: usize) -> (distances: DistanceMatrix)
    requires
        m < usize::MAX,
        n < usize::MAX,
    ensures
        is_blank_table(distances.deep_view(), m as nat, n as nat),
{
    let mut distances: DistanceMatrix = Vec::with_capacity(m + 1);
    let mut first: Vec<usize> = Vec::with_capacity(n + 1);
    let mut j: usize = 0;
    while j <= n
        invariant
            n < usize::MAX,
            j <= n + 1,
            first@.len() == j,
            forall|k: int| 0 <= k < j ==> #[trigger] first@[k] == k,
        decreases n + 1 - j,
    {
        first.push(j);
        j = j + 1;
    }
    distances.push(first);
    let mut i: usize = 1;
    while i <= m
        invariant
            m < usize::MAX,
            n < usize::MAX,
            1 <= i <= m + 1,
            distances@.len() == i,
            forall|r: int| 0 <= r < i ==> (#[trigger] distances@[r])@.len() == n + 1,
            forall|r: int, c: int|
                0 <= r < i && 0 <= c <= n ==> #[trigger] distances@[r]@[c] == if r == 0 {
                    c
                } else if c == 0 {
                    r
                } else {
                    usize::MAX as int
                },
        decreases m + 1 - i,
    {
        let mut row: Vec<usize> = vec![usize::MAX; n + 1];
        row[0] = i;
        distances.push(row);
        i = i + 1;
    }
    distances
}

/// Cuts from both slices the longest prefix that they share and then, from
/// what is left, the longest suffix that they share.
pub fn remove_common_affix<T: PartialEq>(s1: &mut &[T], s2: &mut &[T])
    ensures
        final(s1)@.len() <= old(s1)@.len(),
        final(s2)@.len() <= old(s2)@.len(),
        old(s1)@.len() - final(s1)@.len() == old(s2)@.len() - final(s2)@.len(),
        eq_is_equality::<T>() ==> (final(s1)@, final(s2)@) == without_common_affix(
            old(s1)@,
            old(s2)@,
        ),
{
    let a: &[T] = *s1;
    let b: &[T] = *s2;
    let mut prefix_len: usize = 0;
    proof {
        assert(a@.skip(0) =~= a@);
        assert(b@.skip(0) =~= b@);
    }
    while prefix_len < a.len() && prefix_len < b.len() && a[prefix_len] == b[prefix_len]
        invariant
            prefix_len <= a@.len(),
            prefix_len <= b@.len(),
            eq_is_equality::<T>() ==> common_prefix_len(a@, b@) == prefix_len + common_prefix_len(
                a@.skip(prefix_len as int),
                b@.skip(prefix_len as int),
            ),
        decreases a@.len() - prefix_len,
    {
        proof {
            assert(a@.skip(prefix_len as int).drop_first() =~= a@.skip(prefix_len + 1));
            assert(b@.skip(prefix_len as int).drop_first() =~= b@.skip(prefix_len + 1));
        }
        prefix_len = prefix_len + 1;
    }
    let ghost rest_a = a@.skip(prefix_len as int);
    let ghost rest_b = b@.skip(prefix_len as int);
    proof {
        assert(rest_a.take(rest_a.len() as int) =~= rest_a);
        assert(rest_b.take(rest_b.len() as int) =~= rest_b);
    }
    let mut suffix_len: usize = 0;
    while suffix_len < a.len() - prefix_len && suffix_len < b.len() - prefix_len && a[a.len() - 1
        - suffix_len] == b[b.len() - 1 - suffix_len]
        invariant
            prefix_len <= a@.len(),
            prefix_len <= b@.len(),
            rest_a == a@.skip(prefix_len as int),
            rest_b == b@.skip(prefix_len as int),
            suffix_len <= a@.len() - prefix_len,
            suffix_len <= b@.len() - prefix_len,
            eq_is_equality::<T>() ==> common_suffix_len(rest_a, rest_b) == suffix_len
                + common_suffix_len(
                rest_a.take(rest_a.len() - suffix_len),
                rest_b.take(rest_b.len() - suffix_len),
            ),
        decreases a@.len() - prefix_len - suffix_len,
    {
        proof {
            assert(rest_a.take(rest_a.len() - suffix_len).drop_last() =~= rest_a.take(
                rest_a.len() - suffix_len - 1,
            ));
            assert(rest_b.take(rest_b.len() - suffix_len).drop_last() =~= rest_b.take(
                rest_b.len() - suffix_len - 1,
            ));
        }
        suffix_len = suffix_len + 1;
    }
    *s1 = slice_subrange(a, prefix_len, a.len() - suffix_len);
    *s2 = slice_subrange(b, prefix_len, b.len() - suffix_len);
}

} // verus!
