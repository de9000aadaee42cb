//! Edit scripts: how one is read off a distance matrix, and how one is
//! replayed on the sequence it was made for.

use vstd::prelude::*;
use crate::model::{clone_is_copy, has_shape};
use crate::util::DistanceMatrix;

verus! {

/// What can go wrong when a distance matrix is turned into an edit script.
#[derive(Debug)]
pub enum LevenshteinError {
    /// The matrix has the wrong dimensions for the two sequences, or one of
    /// its cells does not follow from the neighbours it was computed from.
    InvalidDistanceMatrixError,
}

impl LevenshteinError {
    /// The message that describes this error.
    pub fn to_string(&self) -> (message: String)
        ensures
            message@ == "Invalid matrix error"@,
    {
        match self {
            LevenshteinError::InvalidDistanceMatrixError => "Invalid matrix error".to_owned(),
        }
    }
}

/// One step of an edit script. Positions count the elements of the source
/// from one; an insertion at position `p` goes behind the first `p` elements
/// of the source.
#[derive(Clone, PartialEq)]
pub enum Edit<T: PartialEq> {
    /// Remove the element at the position.
    Delete(usize),
    /// Put the value behind the position.
    Insert(usize, T),
    /// Replace the element at the position by the value.
    Substitute(usize, T),
}

/// The cell diagonally before `(i, j)`, where there is one.
pub open spec fn substitute_candidate(m: Seq<Seq<usize>>, i: nat, j: nat) -> Option<usize> {
    if i > 0 && j > 0 {
        Some(m[i - 1][j - 1])
    } else {
        None
    }
}

/// The cell above `(i, j)`, where there is one.
pub open spec fn delete_candidate(m: Seq<Seq<usize>>, i: nat, j: nat) -> Option<usize> {
    if i > 0 {
        Some(m[i - 1][j as int])
    } else {
        None
    }
}

/// The cell to the left of `(i, j)`, where there is one.
pub open spec fn insert_candidate(m: Seq<Seq<usize>>, i: nat, j: nat) -> Option<usize> {
    if j > 0 {
        Some(m[i as int][j - 1])
    } else {
        None
    }
}

/// The smaller of two candidates; one that is absent does not count.
pub open spec fn least(x: Option<usize>, y: Option<usize>) -> Option<usize> {
    match (x, y) {
        (Some(a), Some(b)) => Some(
            if a <= b {
                a
            } else {
                b
            },
        ),
        (Some(a), None) => Some(a),
        (None, _) => y,
    }
}

/// `edit` followed by the script `rest`, if there is one.
pub open spec fn then_edit<T: PartialEq>(edit: Edit<T>, rest: Option<Seq<Edit<T>>>) -> Option<
    Seq<Edit<T>>,
> {
    match rest {
        Some(script) => Some(seq![edit] + script),
        None => None,
    }
}

/// The script that the walk from cell `(i, j)` of `m` back to cell `(0, 0)`
/// gives, or `None` where the walk meets a cell that does not follow from its
/// neighbours.
///
/// At each cell the smallest neighbour before it decides. If it equals the
/// cell, the walk goes back diagonally and nothing is emitted; this needs a
/// diagonal neighbour. If it is one less, an edit is emitted: an insertion if
/// the left neighbour is that small, else a deletion if the upper one is,
/// else a substitution. Anything else ends the walk.
pub open spec fn backtrack<T: PartialEq>(target: Seq<T>, m: Seq<Seq<usize>>, i: nat, j: nat)
    -> Option<Seq<Edit<T>>>
    decreases i + j,
{
    if i == 0 && j == 0 {
        Some(Seq::empty())
    } else {
        let current = m[i as int][j as int];
        let insert = insert_candidate(m, i, j);
        let delete = delete_candidate(m, i, j);
        let substitute = substitute_candidate(m, i, j);
        let best = least(least(insert, delete), substitute);
        if best == Some(current) {
            if i > 0 && j > 0 {
                backtrack(target, m, (i - 1) as nat, (j - 1) as nat)
            } else {
                None
            }
        } else if current > 0 && best == Some((current - 1) as usize) {
            if j > 0 && best == insert {
                then_edit(
                    Edit::Insert(i as usize, target[j - 1]),
                    backtrack(target, m, i, (j - 1) as nat),
                )
            } else if i > 0 && best == delete {
                then_edit(Edit::Delete(i as usize), backtrack(target, m, (i - 1) as nat, j))
            } else if i > 0 && j > 0 {
                then_edit(
                    Edit::Substitute(i as usize, target[j - 1]),
                    backtrack(target, m, (i - 1) as nat, (j - 1) as nat),
                )
            } else {
                None
            }
        } else {
            None
        }
    }
}

/// `edit` stays within a source of `len` elements.
pub open spec fn edit_in_range<T: PartialEq>(edit: Edit<T>, len: nat) -> bool {
    match edit {
        Edit::Delete(position) => 1 <= position <= len,
        Edit::Insert(position, _) => position <= len,
        Edit::Substitute(position, _) => 1 <= position <= len,
    }
}

/// Every edit of `script` stays within a source of `len` elements.
pub open spec fn script_in_range<T: PartialEq>(script: Seq<Edit<T>>, len: nat) -> bool {
    forall|k: int| 0 <= k < script.len() ==> edit_in_range(#[trigger] script[k], len)
}

/// `edit` is `model` with its value, if it has one, cloned.
pub open spec fn edit_mirrors<T: Clone + PartialEq>(model: Edit<T>, edit: Edit<T>) -> bool {
    match (model, edit) {
        (Edit::Delete(p), Edit::Delete(q)) => p == q,
        (Edit::Insert(p, v), Edit::Insert(q, w)) => p == q && cloned(v, w),
        (Edit::Substitute(p, v), Edit::Substitute(q, w)) => p == q && cloned(v, w),
        _ => false,
    }
}

/// `script` is `model`, edit by edit, with the values cloned.
pub open spec fn script_mirrors<T: Clone + PartialEq>(
    model: Seq<Edit<T>>,
    script: Seq<Edit<T>>,
) -> bool {
    &&& script.len() == model.len()
    &&& forall|k: int| 0 <= k < model.len() ==> edit_mirrors(model[k], #[trigger] script[k])
}

/// `prefix` followed by the script `rest`, if there is one.
spec fn then_all<T: PartialEq>(prefix: Seq<Edit<T>>, rest: Option<Seq<Edit<T>>>) -> Option<
    Seq<Edit<T>>,
> {
    match rest {
        Some(script) => Some(prefix + script),
        None => None,
    }
}

proof fn lemma_then_all_step<T: PartialEq>(
    prefix: Seq<Edit<T>>,
    edit: Edit<T>,
    rest: Option<Seq<Edit<T>>>,
)
    ensures
        then_all(prefix, then_edit(edit, rest)) == then_all(prefix.push(edit), rest),
{
    if let Some(script) = rest {
        assert(prefix + (seq![edit] + script) =~= prefix.push(edit) + script);
    }
}

/// Whether every row of `distances` has `cols` cells.
fn rows_have_len(distances: &DistanceMatrix, cols: usize) -> (all: bool)
    ensures
        all == has_shape(distances.deep_view(), distances@.len(), cols as nat),
{
    let mut r: usize = 0;
    while r < distances.len()
        invariant
            r <= distances@.len(),
            forall|k: int| 0 <= k < r ==> (#[trigger] distances@[k])@.len() == cols,
        decreases distances@.len() - r,
    {
        if distances[r].len() != cols {
            assert(distances.deep_view()[r as int].len() != cols);
            return false;
        }
        r = r + 1;
    }
    true
}

/// The smaller of two candidates; one that is absent does not count.
fn least_of(x: Option<usize>, y: Option<usize>) -> (smaller: Option<usize>)
    ensures
        smaller == least(x, y),
{
    match (x, y) {
        (Some(a), Some(b)) => Some(a.min(b)),
        (Some(a), None) => Some(a),
        (None, _) => y,
    }
}

/// Reads the edit script that turns `source` into `target` off their distance
/// matrix, walking from the last cell back to the first. The edits come out
/// in the order of the walk, those near the end of the source first.
///
/// Fails if `distances` does not have one row more than `source` has elements
/// and one column more than `target` has, or if the walk meets a cell that
/// does not follow from its neighbours.
pub fn generate_edits<T: Clone + PartialEq>(
    source: &[T],
    target: &[T],
    distances: &DistanceMatrix,
) -> (result: Result<Vec<Edit<T>>, LevenshteinError>)
    ensures
        match result {
            Ok(edits) => {
                &&& has_shape(distances.deep_view(), source@.len() + 1, target@.len() + 1)
                &&& backtrack(target@, distances.deep_view(), source@.len(), target@.len())
                    matches Some(script)
                &&& script_mirrors(script, edits@)
                &&& script_in_range(edits@, source@.len())
                &&& clone_is_copy::<T>() ==> edits@ == script
            },
            Err(_) => {
                ||| !has_shape(distances.deep_view(), source@.len() + 1, target@.len() + 1)
                ||| backtrack(target@, distances.deep_view(), source@.len(), target@.len())
                    is None
            },
        },
{
    let mut source_idx: usize = source.len();
    let mut target_idx: usize = target.len();
    let ghost m = distances.deep_view();

    if distances.len() == 0 || distances.len() - 1 != source_idx {
        return Err(LevenshteinError::InvalidDistanceMatrixError);
    }
    if target_idx == usize::MAX {
        assert(m[0].len() == distances@[0].len() <= usize::MAX);
        return Err(LevenshteinError::InvalidDistanceMatrixError);
    }
    if !rows_have_len(distances, target_idx + 1) {
        return Err(LevenshteinError::InvalidDistanceMatrixError);
    }
    let mut edits: Vec<Edit<T>> = Vec::new();
    let ghost mut walked: Seq<Edit<T>> = Seq::empty();

    // When both indices are 0, the whole of source and target is accounted for.
    while source_idx != 0 || target_idx != 0
        invariant
            m == distances.deep_view(),
            source_idx <= source@.len(),
            target_idx <= target@.len(),
            has_shape(m, source@.len() + 1, target@.len() + 1),
            backtrack(target@, m, source@.len(), target@.len()) == then_all(
                walked,
                backtrack(target@, m, source_idx as nat, target_idx as nat),
            ),
            script_mirrors(walked, edits@),
            script_in_range(edits@, source@.len()),
        decreases source_idx + target_idx,
    {
        let current_item: usize = distances[source_idx][target_idx];

        // The options: substitute, delete and insert, each only where the
        // cell it comes from exists.
        let substitute: Option<usize> = if source_idx > 0 && target_idx > 0 {
            Some(distances[source_idx - 1][target_idx - 1])
        } else {
            None
        };
        let delete: Option<usize> = if source_idx > 0 {
            Some(distances[source_idx - 1][target_idx])
        } else {
            None
        };
        let insert: Option<usize> = if target_idx > 0 {
            Some(distances[source_idx][target_idx - 1])
        } else {
            None
        };
        let best: usize = match least_of(least_of(insert, delete), substitute) {
            Some(value) => value,
            // One of the two indices is not 0, so there is a candidate.
            None => { return Err(LevenshteinError::InvalidDistanceMatrixError); },
        };
        assert(insert == insert_candidate(m, source_idx as nat, target_idx as nat));
        assert(delete == delete_candidate(m, source_idx as nat, target_idx as nat));
        assert(substitute == substitute_candidate(m, source_idx as nat, target_idx as nat));

        if best == current_item {
            if source_idx == 0 || target_idx == 0 {
                return Err(LevenshteinError::InvalidDistanceMatrixError);
            }
            source_idx = source_idx - 1;
            target_idx = target_idx - 1;
        } else if current_item > 0 && best == current_item - 1 {
            if target_idx > 0 && insert == Some(best) {
                // Positions in edits count from one, slices from zero: the
                // element that goes in is target[target_idx - 1].
                let value = target[target_idx - 1].clone();
                proof {
                    let model = Edit::Insert(source_idx, target@[target_idx - 1]);
                    lemma_then_all_step(
                        walked,
                        model,
                        backtrack(target@, m, source_idx as nat, (target_idx - 1) as nat),
                    );
                    walked = walked.push(model);
                }
                edits.push(Edit::Insert(source_idx, value));
                target_idx = target_idx - 1;
            } else if source_idx > 0 && delete == Some(best) {
                proof {
                    let model = Edit::Delete(source_idx);
                    lemma_then_all_step(
                        walked,
                        model,
                        backtrack(target@, m, (source_idx - 1) as nat, target_idx as nat),
                    );
                    walked = walked.push(model);
                }
                edits.push(Edit::Delete(source_idx));
                source_idx = source_idx - 1;
            } else if source_idx > 0 && target_idx > 0 {
                let value = target[target_idx - 1].clone();
                proof {
                    let model = Edit::Substitute(source_idx, target@[target_idx - 1]);
                    lemma_then_all_step(
                        walked,
                        model,
                        backtrack(target@, m, (source_idx - 1) as nat, (target_idx - 1) as nat),
                    );
                    walked = walked.push(model);
                }
                edits.push(Edit::Substitute(source_idx, value));
                source_idx = source_idx - 1;
                target_idx = target_idx - 1;
            } else {
                return Err(LevenshteinError::InvalidDistanceMatrixError);
            }
        } else {
            return Err(LevenshteinError::InvalidDistanceMatrixError);
        }
    }
    proof {
        assert(walked + Seq::<Edit<T>>::empty() =~= walked);
        if clone_is_copy::<T>() {
            assert(edits@ =~= walked);
        }
    }
    Ok(edits)
}

/// The slots of the source after `edit` has marked them: a deletion empties
/// the slot at its position, a substitution overwrites it, and an insertion
/// leaves the slots as they are.
pub open spec fn mark<T: PartialEq>(slots: Seq<Option<T>>, edit: Edit<T>) -> Seq<Option<T>> {
    match edit {
        Edit::Delete(position) => if 1 <= position <= slots.len() {
            slots.update(position - 1, None)
        } else {
            slots
        },
        Edit::Substitute(position, value) => if 1 <= position <= slots.len() {
            slots.update(position - 1, Some(value))
        } else {
            slots
        },
        Edit::Insert(_, _) => slots,
    }
}

/// One slot for each element of `source`, marked by the deletions and
/// substitutions of `script`, the last edit of the script first.
pub open spec fn marked<T: PartialEq>(source: Seq<T>, script: Seq<Edit<T>>) -> Seq<Option<T>>
    decreases script.len(),
{
    if script.len() == 0 {
        source.map_values(|item: T| Some(item))
    } else {
        mark(marked(source, script.drop_first()), script.first())
    }
}

/// The slots after `edit` has been placed: an insertion puts a new slot with
/// its value behind the first `position` slots; other edits place nothing.
pub open spec fn place<T: PartialEq>(slots: Seq<Option<T>>, edit: Edit<T>) -> Seq<Option<T>> {
    match edit {
        Edit::Insert(position, value) => if position <= slots.len() {
            slots.insert(position as int, Some(value))
        } else {
            slots
        },
        _ => slots,
    }
}

/// The slots after the insertions of `script` have been placed, the first
/// edit of the script first.
pub open spec fn placed<T: PartialEq>(slots: Seq<Option<T>>, script: Seq<Edit<T>>) -> Seq<
    Option<T>,
>
    decreases script.len(),
{
    if script.len() == 0 {
        slots
    } else {
        placed(place(slots, script.first()), script.drop_first())
    }
}

/// The values of the slots that are not empty, in order.
pub open spec fn compact<T>(slots: Seq<Option<T>>) -> Seq<T>
    decreases slots.len(),
{
    if slots.len() == 0 {
        Seq::empty()
    } else {
        match slots.last() {
            Some(value) => compact(slots.drop_last()).push(value),
            None => compact(slots.drop_last()),
        }
    }
}

/// What replaying `script` on `source` gives. The deletions and substitutions
/// mark the slots of the source, which moves no slot; then the insertions are
/// placed in the order of the script, which for a script that runs from the
/// end of the source to its start moves no position that is still to come;
/// what is left in the slots is the result.
pub open spec fn patched<T: PartialEq>(source: Seq<T>, script: Seq<Edit<T>>) -> Seq<T> {
    compact(placed(marked(source, script), script))
}

/// The slots after `script` has marked them and placed its insertions.
spec fn patched_slots<T: PartialEq>(source: Seq<T>, script: Seq<Edit<T>>) -> Seq<Option<T>> {
    placed(marked(source, script), script)
}

/// The insertions of `script`, the last one first.
spec fn pending<T: PartialEq>(script: Seq<Edit<T>>) -> Seq<Edit<T>>
    decreases script.len(),
{
    if script.len() == 0 {
        Seq::empty()
    } else if script.first() is Insert {
        pending(script.drop_first()).push(script.first())
    } else {
        pending(script.drop_first())
    }
}

/// The slots after the edits of `waiting` have been placed, the last one
/// first.
spec fn placed_from_back<T: PartialEq>(slots: Seq<Option<T>>, waiting: Seq<Edit<T>>) -> Seq<
    Option<T>,
>
    decreases waiting.len(),
{
    if waiting.len() == 0 {
        slots
    } else {
        placed_from_back(place(slots, waiting.last()), waiting.drop_last())
    }
}

/// Placing the insertions of a script in its order is placing its pending
/// insertions from the back.
proof fn lemma_placed_from_pending<T: PartialEq>(slots: Seq<Option<T>>, script: Seq<Edit<T>>)
    ensures
        placed(slots, script) == placed_from_back(slots, pending(script)),
    decreases script.len(),
{
    if script.len() > 0 {
        let first = script.first();
        let waiting = pending(script.drop_first());
        lemma_placed_from_pending(place(slots, first), script.drop_first());
        if first is Insert {
            assert(waiting.push(first).drop_last() =~= waiting);
        }
    }
}

/// The pending insertions of a script stay within the source if the script
/// does.
proof fn lemma_pending_in_range<T: PartialEq>(script: Seq<Edit<T>>, len: nat)
    requires
        script_in_range(script, len),
    ensures
        script_in_range(pending(script), len),
    decreases script.len(),
{
    if script.len() > 0 {
        let rest = script.drop_first();
        assert forall|k: int| 0 <= k < rest.len() implies edit_in_range(#[trigger] rest[k], len) by {
            assert(rest[k] == script[k + 1]);
        }
        lemma_pending_in_range(rest, len);
        assert(edit_in_range(script[0], len));
    }
}

/// The slots hold one entry for each element of the source, whatever the
/// script.
pub proof fn lemma_marked_len<T: PartialEq>(source: Seq<T>, script: Seq<Edit<T>>)
    ensures
        marked(source, script).len() == source.len(),
    decreases script.len(),
{
    if script.len() > 0 {
        lemma_marked_len(source, script.drop_first());
    }
}

/// `copy` is `item` after at most two clones, one of the other.
pub open spec fn cloned_twice<T: Clone>(item: T, copy: T) -> bool {
    exists|between: T| cloned(item, between) && cloned(between, copy)
}

/// `copy` is `item` after at most three clones, one of the other.
pub open spec fn cloned_thrice<T: Clone>(item: T, copy: T) -> bool {
    exists|between: T| cloned_twice(item, between) && cloned(between, copy)
}

/// `slots` is `model`, slot by slot: empty where the model is empty, and
/// where it is not, its value after one clone.
spec fn slots_cloned<T: Clone>(model: Seq<Option<T>>, slots: Seq<Option<T>>) -> bool {
    &&& slots.len() == model.len()
    &&& forall|k: int|
        0 <= k < model.len() ==> match (model[k], #[trigger] slots[k]) {
            (None, None) => true,
            (Some(item), Some(copy)) => cloned(item, copy),
            _ => false,
        }
}

/// `slots` is `model`, slot by slot: empty where the model is empty, and
/// where it is not, its value after at most two clones.
spec fn slots_cloned_twice<T: Clone>(model: Seq<Option<T>>, slots: Seq<Option<T>>) -> bool {
    &&& slots.len() == model.len()
    &&& forall|k: int|
        0 <= k < model.len() ==> match (model[k], #[trigger] slots[k]) {
            (None, None) => true,
            (Some(item), Some(copy)) => cloned_twice(item, copy),
            _ => false,
        }
}

/// `items` is `model`, item by item, after at most three clones.
spec fn items_cloned_thrice<T: Clone>(model: Seq<T>, items: Seq<T>) -> bool {
    &&& items.len() == model.len()
    &&& forall|k: int| 0 <= k < model.len() ==> cloned_thrice(model[k], #[trigger] items[k])
}

/// Replays `edits` on `source` and returns what comes out.
///
/// The edits are taken to be in the order in which `generate_edits` emits
/// them, from the end of the source to its start. Deletions and substitutions
/// are carried out first, on a buffer in which a deleted element leaves an
/// empty slot, so that no position moves. The insertions wait, and are then
/// carried out from the highest position down, so that none of them moves a
/// position that is still to be used.
///
/// Every element of the result is a clone: of an element of the source, or of
/// the value of an edit. Where cloning copies, the result is `patched` of the
/// source and the edits itself.
pub fn apply_edits<T: Clone + PartialEq>(source: &[T], edits: &[Edit<T>]) -> (target: Vec<T>)
    requires
        script_in_range(edits@, source@.len()),
    ensures
        target@.len() == patched(source@, edits@).len(),
        forall|k: int|
            0 <= k < target@.len() ==> cloned_thrice(
                patched(source@, edits@)[k],
                #[trigger] target@[k],
            ),
        clone_is_copy::<T>() ==> target@ == patched(source@, edits@),
{
    // Convert each item of source into Some(item)
    let mut target_constructor: Vec<Option<T>> = Vec::with_capacity(source.len());
    let mut k: usize = 0;
    while k < source.len()
        invariant
            k <= source@.len(),
            slots_cloned(
                source@.take(k as int).map_values(|item: T| Some(item)),
                target_constructor@,
            ),
        decreases source@.len() - k,
    {
        let item = source[k].clone();
        assert(cloned(source@[k as int], item));
        target_constructor.push(Some(item));
        k = k + 1;
    }
    proof {
        assert(source@.take(source@.len() as int) =~= source@);
        assert(edits@.skip(edits@.len() as int) =~= Seq::<Edit<T>>::empty());
    }

    let mut inserts: Vec<Edit<T>> = Vec::with_capacity(source.len());

    // The edits are walked from the last to the first, so that the buffer is
    // marked from the start of the source towards its end.
    let mut k: usize = edits.len();
    while k > 0
        invariant
            k <= edits@.len(),
            script_in_range(edits@, source@.len()),
            slots_cloned(marked(source@, edits@.skip(k as int)), target_constructor@),
            script_mirrors(pending(edits@.skip(k as int)), inserts@),
        decreases k,
    {
        k = k - 1;
        proof {
            assert(edits@.skip(k as int).drop_first() =~= edits@.skip(k + 1));
            assert(edits@.skip(k as int).first() == edits@[k as int]);
            assert(edit_in_range(edits@[k as int], source@.len()));
            lemma_marked_len(source@, edits@.skip(k + 1));
        }
        match &edits[k] {
            Edit::Substitute(idx, val) => {
                let value = val.clone();
                assert(cloned(*val, value));
                target_constructor[*idx - 1] = Some(value);
            },
            Edit::Delete(idx) => {
                target_constructor[*idx - 1] = None;
            },
            Edit::Insert(idx, val) => {
                let value = val.clone();
                assert(cloned(*val, value));
                inserts.push(Edit::Insert(*idx, value));
            },
        }
    }

    let ghost waiting = pending(edits@);
    let ghost mut model = marked(source@, edits@);
    proof {
        assert(edits@.skip(0) =~= edits@);
        assert(waiting.take(waiting.len() as int) =~= waiting);
        lemma_placed_from_pending(model, edits@);
        lemma_marked_len(source@, edits@);
        lemma_pending_in_range(edits@, source@.len());
        assert forall|q: int| 0 <= q < model.len() implies match (
            model[q],
            #[trigger] target_constructor@[q],
        ) {
            (None, None) => true,
            (Some(item), Some(copy)) => cloned_twice(item, copy),
            _ => false,
        } by {
            if let (Some(item), Some(copy)) = (model[q], target_constructor@[q]) {
                assert(cloned(item, item) && cloned(item, copy));
            }
        }
    }

    // The insertions that waited are placed from the back: those at the
    // highest positions first.
    let mut p: usize = inserts.len();
    while p > 0
        invariant
            p <= inserts@.len(),
            script_mirrors(waiting, inserts@),
            script_in_range(waiting, source@.len()),
            model.len() >= source@.len(),
            slots_cloned_twice(model, target_constructor@),
            placed_from_back(model, waiting.take(p as int)) == patched_slots(source@, edits@),
        decreases p,
    {
        p = p - 1;
        proof {
            assert(waiting.take(p + 1).drop_last() =~= waiting.take(p as int));
            assert(waiting.take(p + 1).last() == waiting[p as int]);
            assert(edit_in_range(waiting[p as int], source@.len()));
            assert(edit_mirrors(waiting[p as int], inserts@[p as int]));
        }
        let ghost slots_before = target_constructor@;
        let ghost model_before = model;
        if let Edit::Insert(idx, val) = &inserts[p] {
            let value = val.clone();
            assert(cloned(*val, value));
            target_constructor.insert(*idx, Some(value));
        }
        proof {
            model = place(model, waiting[p as int]);
            if let Edit::Insert(position, item) = waiting[p as int] {
                let at = position as int;
                assert forall|q: int| 0 <= q < model.len() implies match (
                    model[q],
                    #[trigger] target_constructor@[q],
                ) {
                    (None, None) => true,
                    (Some(item), Some(copy)) => cloned_twice(item, copy),
                    _ => false,
                } by {
                    if q < at {
                        assert(model[q] == model_before[q]);
                        assert(target_constructor@[q] == slots_before[q]);
                    } else if q > at {
                        assert(model[q] == model_before[q - 1]);
                        assert(target_constructor@[q] == slots_before[q - 1]);
                    }
                }
            }
        }
    }

    let mut target: Vec<T> = Vec::new();
    let mut k: usize = 0;
    while k < target_constructor.len()
        invariant
            k <= target_constructor@.len(),
            slots_cloned_twice(model, target_constructor@),
            items_cloned_thrice(compact(model.take(k as int)), target@),
        decreases target_constructor@.len() - k,
    {
        proof {
            assert(model.take(k + 1).drop_last() =~= model.take(k as int));
            assert(model.take(k + 1).last() == model[k as int]);
        }
        match &target_constructor[k] {
            Some(val) => {
                let value = val.clone();
                assert(cloned(*val, value));
                target.push(value);
            },
            None => (),
        }
        k = k + 1;
    }
    proof {
        assert(model.take(model.len() as int) =~= model);
        if clone_is_copy::<T>() {
            assert(target@ =~= patched(source@, edits@));
        }
    }
    target
}

} // verus!
