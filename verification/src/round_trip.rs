//! Why replaying the script of a distance matrix gives the target, and why
//! that script is as long as the distance.

use vstd::prelude::*;
use crate::edit::{
    backtrack, compact, delete_candidate, edit_in_range, insert_candidate, least,
    lemma_marked_len, mark, marked, patched, place, placed, script_in_range,
    substitute_candidate, Edit,
};
use crate::laws::{lemma_distance_of_neighbours, lemma_prefix_border, lemma_prefix_step};
use crate::model::{edit_distance, is_distance_matrix};

verus! {

/// What is left of two runs of slots, one behind the other, is what is left
/// of the first followed by what is left of the second.
pub proof fn lemma_compact_concat<T>(front: Seq<Option<T>>, back: Seq<Option<T>>)
    ensures
        compact(front + back) == compact(front) + compact(back),
    decreases back.len(),
{
    if back.len() == 0 {
        assert(front + back =~= front);
        assert(compact(front) + compact(back) =~= compact(front));
    } else {
        lemma_compact_concat(front, back.drop_last());
        assert((front + back).drop_last() =~= front + back.drop_last());
        assert((front + back).last() == back.last());
        match back.last() {
            Some(value) => {
                assert((compact(front) + compact(back.drop_last())).push(value) =~= compact(front)
                    + compact(back.drop_last()).push(value));
            },
            None => {},
        }
    }
}

/// A script that stays within a source stays within every longer one.
pub proof fn lemma_script_in_wider_range<T: PartialEq>(
    script: Seq<Edit<T>>,
    len: nat,
    wider: nat,
)
    requires
        script_in_range(script, len),
        len <= wider,
    ensures
        script_in_range(script, wider),
{
    assert forall|k: int| 0 <= k < script.len() implies edit_in_range(
        #[trigger] script[k],
        wider,
    ) by {
        assert(edit_in_range(script[k], len));
    }
}

/// A script that stays within a source still does with one more edit in
/// front that stays within it.
proof fn lemma_script_in_range_with<T: PartialEq>(edit: Edit<T>, script: Seq<Edit<T>>, len: nat)
    requires
        edit_in_range(edit, len),
        script_in_range(script, len),
    ensures
        script_in_range(seq![edit] + script, len),
        (seq![edit] + script).first() == edit,
        (seq![edit] + script).drop_first() == script,
{
    let whole = seq![edit] + script;
    assert(whole.drop_first() =~= script);
    assert forall|k: int| 0 <= k < whole.len() implies edit_in_range(#[trigger] whole[k], len) by {
        if k > 0 {
            assert(whole[k] == script[k - 1]);
        }
    }
}

/// Marking the slots of a source with one more element at its end, by a
/// script that stays within the source without it, leaves the slot of that
/// element as it is.
proof fn lemma_marked_with_one_more<T: PartialEq>(
    source: Seq<T>,
    item: T,
    script: Seq<Edit<T>>,
)
    requires
        script_in_range(script, source.len()),
    ensures
        marked(source.push(item), script) == marked(source, script) + seq![Some(item)],
    decreases script.len(),
{
    if script.len() == 0 {
        assert(source.push(item).map_values(|item: T| Some(item)) =~= source.map_values(
            |item: T| Some(item),
        ) + seq![Some(item)]);
    } else {
        let rest = script.drop_first();
        assert forall|k: int| 0 <= k < rest.len() implies edit_in_range(
            #[trigger] rest[k],
            source.len(),
        ) by {
            assert(rest[k] == script[k + 1]);
        }
        lemma_marked_with_one_more(source, item, rest);
        lemma_marked_len(source, rest);
        let inner = marked(source, rest);
        assert(edit_in_range(script[0], source.len()));
        assert(mark(inner + seq![Some(item)], script.first()) =~= mark(inner, script.first())
            + seq![Some(item)]);
    }
}

/// Placing the insertions of a script that stays within the first slots
/// leaves the slots behind them as they are.
proof fn lemma_placed_keeps_tail<T: PartialEq>(
    slots: Seq<Option<T>>,
    tail: Seq<Option<T>>,
    script: Seq<Edit<T>>,
)
    requires
        script_in_range(script, slots.len()),
    ensures
        placed(slots + tail, script) == placed(slots, script) + tail,
    decreases script.len(),
{
    if script.len() > 0 {
        let first = script.first();
        let rest = script.drop_first();
        let next = place(slots, first);
        assert(edit_in_range(script[0], slots.len()));
        assert(place(slots + tail, first) =~= next + tail);
        assert forall|k: int| 0 <= k < rest.len() implies edit_in_range(
            #[trigger] rest[k],
            next.len(),
        ) by {
            assert(rest[k] == script[k + 1]);
            assert(edit_in_range(script[k + 1], slots.len()));
        }
        lemma_placed_keeps_tail(next, tail, rest);
    }
}

/// What is left of a single slot.
proof fn lemma_compact_one<T>(slot: Option<T>)
    ensures
        compact(seq![slot]) == match slot {
            Some(value) => seq![value],
            None => Seq::empty(),
        },
{
    assert(seq![slot].drop_last() =~= Seq::<Option<T>>::empty());
    assert(compact(seq![slot].drop_last()) =~= Seq::<T>::empty());
    match slot {
        Some(value) => {
            assert(Seq::<T>::empty().push(value) =~= seq![value]);
        },
        None => {},
    }
}

/// A script that stays within a source leaves an element behind the source
/// where it is.
pub proof fn lemma_replay_kept<T: PartialEq>(source: Seq<T>, item: T, script: Seq<Edit<T>>)
    requires
        script_in_range(script, source.len()),
    ensures
        patched(source.push(item), script) == patched(source, script).push(item),
{
    let slots = marked(source, script);
    lemma_marked_with_one_more(source, item, script);
    lemma_marked_len(source, script);
    lemma_placed_keeps_tail(slots, seq![Some(item)], script);
    lemma_compact_concat(placed(slots, script), seq![Some(item)]);
    lemma_compact_one(Some(item));
    assert(patched(source, script) + seq![item] =~= patched(source, script).push(item));
}

/// A deletion of the last element of the source, in front of a script that
/// stays within the rest of the source, takes that element away and changes
/// nothing else.
pub proof fn lemma_replay_deleted<T: PartialEq>(source: Seq<T>, item: T, script: Seq<Edit<T>>)
    requires
        script_in_range(script, source.len()),
        source.len() < usize::MAX,
    ensures
        patched(source.push(item), seq![Edit::Delete((source.len() + 1) as usize)] + script)
            == patched(source, script),
{
    let edit = Edit::<T>::Delete((source.len() + 1) as usize);
    let whole = seq![edit] + script;
    let slots = marked(source, script);
    assert(whole.drop_first() =~= script);
    lemma_marked_with_one_more(source, item, script);
    lemma_marked_len(source, script);
    assert(mark(slots + seq![Some(item)], edit) =~= slots + seq![None]);
    lemma_placed_keeps_tail(slots, seq![None], script);
    lemma_compact_concat(placed(slots, script), seq![None]);
    lemma_compact_one(None::<T>);
    assert(patched(source, script) + Seq::<T>::empty() =~= patched(source, script));
}

/// A substitution of the last element of the source, in front of a script
/// that stays within the rest of the source, puts its value in that element's
/// place and changes nothing else.
pub proof fn lemma_replay_substituted<T: PartialEq>(
    source: Seq<T>,
    item: T,
    value: T,
    script: Seq<Edit<T>>,
)
    requires
        script_in_range(script, source.len()),
        source.len() < usize::MAX,
    ensures
        patched(
            source.push(item),
            seq![Edit::Substitute((source.len() + 1) as usize, value)] + script,
        ) == patched(source, script).push(value),
{
    let edit = Edit::Substitute((source.len() + 1) as usize, value);
    let whole = seq![edit] + script;
    let slots = marked(source, script);
    assert(whole.drop_first() =~= script);
    lemma_marked_with_one_more(source, item, script);
    lemma_marked_len(source, script);
    assert(mark(slots + seq![Some(item)], edit) =~= slots + seq![Some(value)]);
    lemma_placed_keeps_tail(slots, seq![Some(value)], script);
    lemma_compact_concat(placed(slots, script), seq![Some(value)]);
    lemma_compact_one(Some(value));
    assert(patched(source, script) + seq![value] =~= patched(source, script).push(value));
}

/// An insertion behind the whole source, in front of a script that stays
/// within the source, puts its value at the end and changes nothing else.
pub proof fn lemma_replay_inserted<T: PartialEq>(source: Seq<T>, value: T, script: Seq<Edit<T>>)
    requires
        script_in_range(script, source.len()),
        source.len() <= usize::MAX,
    ensures
        patched(source, seq![Edit::Insert(source.len() as usize, value)] + script) == patched(
            source,
            script,
        ).push(value),
{
    let edit = Edit::Insert(source.len() as usize, value);
    let whole = seq![edit] + script;
    let slots = marked(source, script);
    assert(whole.drop_first() =~= script);
    lemma_marked_len(source, script);
    assert(place(slots, edit) =~= slots + seq![Some(value)]);
    lemma_placed_keeps_tail(slots, seq![Some(value)], script);
    lemma_compact_concat(placed(slots, script), seq![Some(value)]);
    lemma_compact_one(Some(value));
    assert(patched(source, script) + seq![value] =~= patched(source, script).push(value));
}

/// The walk back through the distance matrix of `a` and `b` from cell
/// `(i, j)` never fails. The script it gives has one edit for each unit of
/// the distance between the first `i` elements of `a` and the first `j`
/// elements of `b`, stays within those `i` elements, and replayed on them
/// gives those `j` elements.
pub proof fn lemma_backtrack_of_distance_matrix<T: PartialEq>(
    a: Seq<T>,
    b: Seq<T>,
    m: Seq<Seq<usize>>,
    i: nat,
    j: nat,
)
    requires
        is_distance_matrix(m, a, b),
        i <= a.len() <= usize::MAX,
        j <= b.len(),
    ensures
        backtrack(b, m, i, j) matches Some(script) && {
            &&& script.len() == edit_distance(a.take(i as int), b.take(j as int))
            &&& script_in_range(script, i)
            &&& patched(a.take(i as int), script) == b.take(j as int)
        },
    decreases i + j,
{
    let from = a.take(i as int);
    let to = b.take(j as int);
    if i == 0 && j == 0 {
        assert(from =~= Seq::<T>::empty());
        assert(to =~= Seq::<T>::empty());
        assert(marked(from, Seq::<Edit<T>>::empty()) =~= Seq::<Option<T>>::empty());
        assert(patched(from, Seq::<Edit<T>>::empty()) =~= to);
    } else {
        let current = m[i as int][j as int];
        let insert = insert_candidate(m, i, j);
        let delete = delete_candidate(m, i, j);
        let substitute = substitute_candidate(m, i, j);
        let best = least(least(insert, delete), substitute);
        assert(current == edit_distance(from, to));
        if j > 0 {
            lemma_backtrack_of_distance_matrix(a, b, m, i, (j - 1) as nat);
            assert(to.drop_last() =~= b.take(j - 1));
            assert(b.take(j - 1).push(b[j - 1]) =~= to);
            assert(m[i as int][j - 1] == edit_distance(from, b.take(j - 1)));
        }
        if i > 0 {
            lemma_backtrack_of_distance_matrix(a, b, m, (i - 1) as nat, j);
            assert(from.drop_last() =~= a.take(i - 1));
            assert(a.take(i - 1).push(a[i - 1]) =~= from);
            assert(m[i - 1][j as int] == edit_distance(a.take(i - 1), to));
        }
        if i > 0 && j > 0 {
            lemma_backtrack_of_distance_matrix(a, b, m, (i - 1) as nat, (j - 1) as nat);
            assert(m[i - 1][j - 1] == edit_distance(a.take(i - 1), b.take(j - 1)));
            lemma_prefix_step(a, b, i as int, j as int);
        }
        lemma_prefix_border(a, b, i as int, j as int);
        lemma_distance_of_neighbours(from, to);
        if best == Some(current) {
            assert(i > 0 && j > 0);
            assert(a[i - 1] == b[j - 1]);
            let rest = backtrack(b, m, (i - 1) as nat, (j - 1) as nat).unwrap();
            lemma_replay_kept(a.take(i - 1), a[i - 1], rest);
            lemma_script_in_wider_range(rest, (i - 1) as nat, i);
        } else {
            assert(current > 0 && best == Some((current - 1) as usize));
            if j > 0 && best == insert {
                let rest = backtrack(b, m, i, (j - 1) as nat).unwrap();
                let edit = Edit::Insert(i as usize, b[j - 1]);
                lemma_replay_inserted(from, b[j - 1], rest);
                lemma_script_in_range_with(edit, rest, i);
            } else if i > 0 && best == delete {
                let rest = backtrack(b, m, (i - 1) as nat, j).unwrap();
                let edit = Edit::<T>::Delete(i as usize);
                lemma_replay_deleted(a.take(i - 1), a[i - 1], rest);
                lemma_script_in_wider_range(rest, (i - 1) as nat, i);
                lemma_script_in_range_with(edit, rest, i);
            } else {
                assert(i > 0 && j > 0);
                let rest = backtrack(b, m, (i - 1) as nat, (j - 1) as nat).unwrap();
                let edit = Edit::Substitute(i as usize, b[j - 1]);
                lemma_replay_substituted(a.take(i - 1), a[i - 1], b[j - 1], rest);
                lemma_script_in_wider_range(rest, (i - 1) as nat, i);
                lemma_script_in_range_with(edit, rest, i);
            }
        }
    }
}

} // verus!
