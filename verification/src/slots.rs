//! The slot sequence: what a tree holds, as a mathematical sequence of
//! optional values indexed by position, and what a write does to it.

use vstd::prelude::*;
use crate::index::{
    in_subtree,
    is_ancestor,
    lemma_ancestor_is_smaller,
    lemma_ancestor_transitive,
    parent_position,
};

verus! {

/// The slot at `position` exists and holds a value.
pub open spec fn occupied<N>(slots: Seq<Option<N>>, position: int) -> bool {
    0 <= position < slots.len() && slots[position].is_some()
}

/// The structural invariant of a slot sequence: the root slot exists, and a
/// slot other than the root holds a value only if its parent does.
pub open spec fn slots_wf<N>(slots: Seq<Option<N>>, k: int) -> bool {
    &&& slots.len() >= 1
    &&& forall|i: int|
        0 < i < slots.len() && (#[trigger] slots[i]).is_some() ==> k > 0 && occupied(
            slots,
            parent_position(k, i),
        )
}

/// Number of slots that hold a value.
pub open spec fn count_occupied<N>(slots: Seq<Option<N>>) -> nat
    decreases slots.len(),
{
    if slots.len() == 0 {
        0
    } else {
        count_occupied(slots.drop_last()) + if slots.last().is_some() {
            1nat
        } else {
            0nat
        }
    }
}

/// The positions in `[lo, hi)` that satisfy `keep`, in increasing order.
pub open spec fn select(lo: int, hi: int, keep: spec_fn(int) -> bool) -> Seq<int>
    decreases hi - lo,
{
    if lo >= hi {
        Seq::empty()
    } else if keep(lo) {
        seq![lo] + select(lo + 1, hi, keep)
    } else {
        select(lo + 1, hi, keep)
    }
}

/// The slot sequence after `value` is written at `position`: the sequence is
/// extended with empty slots as far as `position` if it was shorter, the slot
/// takes `value`, and where `value` is absent every slot below `position`
/// becomes empty too.
pub open spec fn written<N>(slots: Seq<Option<N>>, k: int, position: int, value: Option<N>) -> Seq<
    Option<N>,
> {
    Seq::new(
        if position < slots.len() {
            slots.len()
        } else {
            (position + 1) as nat
        },
        |j: int|
            if j == position {
                value
            } else if j < slots.len() && !(value.is_none() && is_ancestor(k, position, j)) {
                slots[j]
            } else {
                None
            },
    )
}

/// The number of occupied slots in the subtree rooted at `position`.
pub open spec fn subtree_count<N>(slots: Seq<Option<N>>, k: int, position: int) -> nat {
    select(0, slots.len() as int, |j: int| occupied(slots, j) && in_subtree(k, position, j)).len()
}

/// The number of occupied slots after `value` is written at `position`: one
/// more where a value fills an empty slot, the same where a value replaces a
/// value, and less by the occupied slots of the subtree where absence is
/// written.
pub open spec fn written_len<N>(slots: Seq<Option<N>>, k: int, position: int, value: Option<N>) -> int {
    if value.is_some() {
        if occupied(slots, position) {
            count_occupied(slots) as int
        } else {
            count_occupied(slots) as int + 1
        }
    } else {
        count_occupied(slots) - subtree_count(slots, k, position)
    }
}

/// No more slots are occupied than there are slots.
pub proof fn lemma_count_bounded<N>(slots: Seq<Option<N>>)
    ensures
        count_occupied(slots) <= slots.len(),
    decreases slots.len(),
{
    if slots.len() > 0 {
        lemma_count_bounded(slots.drop_last());
    }
}

/// A sequence with an occupied slot has a positive count.
pub proof fn lemma_count_positive<N>(slots: Seq<Option<N>>, position: int)
    requires
        occupied(slots, position),
    ensures
        count_occupied(slots) >= 1,
    decreases slots.len(),
{
    if position < slots.len() - 1 {
        lemma_count_positive(slots.drop_last(), position);
    }
}

/// A sequence without occupied slots has count zero.
pub proof fn lemma_count_zero<N>(slots: Seq<Option<N>>)
    requires
        forall|i: int| 0 <= i < slots.len() ==> (#[trigger] slots[i]).is_none(),
    ensures
        count_occupied(slots) == 0,
    decreases slots.len(),
{
    if slots.len() > 0 {
        lemma_count_zero(slots.drop_last());
    }
}

/// Appending a slot adds one to the count exactly if the slot holds a value.
pub proof fn lemma_count_push<N>(slots: Seq<Option<N>>, value: Option<N>)
    ensures
        count_occupied(slots.push(value)) == count_occupied(slots) + if value.is_some() {
            1nat
        } else {
            0nat
        },
{
    assert(slots.push(value).drop_last() =~= slots);
}

/// Overwriting one slot changes the count by what the slot held and what it
/// now holds.
pub proof fn lemma_count_update<N>(slots: Seq<Option<N>>, position: int, value: Option<N>)
    requires
        0 <= position < slots.len(),
    ensures
        count_occupied(slots.update(position, value)) + (if slots[position].is_some() {
            1nat
        } else {
            0nat
        }) == count_occupied(slots) + (if value.is_some() {
            1nat
        } else {
            0nat
        }),
    decreases slots.len(),
{
    let after = slots.update(position, value);
    if position == slots.len() - 1 {
        assert(after.drop_last() =~= slots.drop_last());
    } else {
        assert(after.drop_last() =~= slots.drop_last().update(position, value));
        lemma_count_update(slots.drop_last(), position, value);
    }
}

/// `select` lists exactly the positions of its range that satisfy the
/// predicate, each once, in strictly increasing order.
pub proof fn lemma_select_sorted(lo: int, hi: int, keep: spec_fn(int) -> bool)
    ensures
        forall|x: int|
            0 <= x < select(lo, hi, keep).len() ==> lo <= (#[trigger] select(lo, hi, keep)[x]) < hi
                && keep(select(lo, hi, keep)[x]),
        forall|x: int, y: int|
            0 <= x < y < select(lo, hi, keep).len() ==> (#[trigger] select(lo, hi, keep)[x]) < (
            #[trigger] select(lo, hi, keep)[y]),
        forall|j: int| lo <= j < hi && #[trigger] keep(j) ==> select(lo, hi, keep).contains(j),
        select(lo, hi, keep).len() <= if lo < hi {
            hi - lo
        } else {
            0
        },
    decreases hi - lo,
{
    let s = select(lo, hi, keep);
    if lo < hi {
        let rest = select(lo + 1, hi, keep);
        lemma_select_sorted(lo + 1, hi, keep);
        if keep(lo) {
            assert(s[0] == lo);
            assert forall|j: int| lo <= j < hi && #[trigger] keep(j) implies s.contains(j) by {
                if j == lo {
                    assert(s[0] == j);
                } else {
                    let x = choose|x: int| 0 <= x < rest.len() && rest[x] == j;
                    assert(s[x + 1] == j);
                }
            }
            assert forall|x: int, y: int| 0 <= x < y < s.len() implies (#[trigger] s[x]) < (
            #[trigger] s[y]) by {
                assert(s[y] == rest[y - 1]);
                if x > 0 {
                    assert(s[x] == rest[x - 1]);
                }
            }
            assert forall|x: int| 0 <= x < s.len() implies lo <= (#[trigger] s[x]) < hi && keep(
                s[x],
            ) by {
                if x > 0 {
                    assert(s[x] == rest[x - 1]);
                }
            }
        }
    }
}

/// Positions at the start of the range that fail the predicate can be left
/// out of the range.
pub proof fn lemma_select_skip(lo: int, mid: int, hi: int, keep: spec_fn(int) -> bool)
    requires
        lo <= mid,
        forall|j: int| lo <= j < mid && j < hi ==> !#[trigger] keep(j),
    ensures
        select(lo, hi, keep) == select(mid, hi, keep),
    decreases mid - lo,
{
    if lo < mid {
        if lo < hi {
            lemma_select_skip(lo + 1, mid, hi, keep);
        } else {
            assert(select(mid, hi, keep) =~= Seq::empty());
        }
    }
}

/// Two predicates that agree on the range select the same positions.
pub proof fn lemma_select_agree(
    lo: int,
    hi: int,
    keep: spec_fn(int) -> bool,
    other: spec_fn(int) -> bool,
)
    requires
        forall|j: int| lo <= j < hi ==> #[trigger] keep(j) == #[trigger] other(j),
    ensures
        select(lo, hi, keep) == select(lo, hi, other),
    decreases hi - lo,
{
    if lo < hi {
        lemma_select_agree(lo + 1, hi, keep, other);
    }
}

/// Removing the smallest selected position from the predicate removes the
/// first element of the selection.
pub proof fn lemma_select_drop_first(
    lo: int,
    hi: int,
    keep: spec_fn(int) -> bool,
    other: spec_fn(int) -> bool,
    first: int,
)
    requires
        lo <= first < hi,
        keep(first),
        forall|j: int| lo <= j < first ==> !#[trigger] keep(j),
        forall|j: int| lo <= j < hi ==> #[trigger] other(j) == (keep(j) && j != first),
    ensures
        select(lo, hi, keep).len() > 0,
        select(lo, hi, keep)[0] == first,
        select(lo, hi, other) == select(lo, hi, keep).skip(1),
{
    lemma_select_skip(lo, first, hi, keep);
    lemma_select_skip(lo, first + 1, hi, other);
    lemma_select_agree(first + 1, hi, keep, other);
    let rest = select(first + 1, hi, keep);
    assert(select(first, hi, keep) == seq![first] + rest);
    assert((seq![first] + rest).skip(1) =~= rest);
}

/// A write keeps the structural invariant, provided that a value is only
/// written at the root or below an occupied parent.
pub proof fn lemma_written_wf<N>(slots: Seq<Option<N>>, k: int, position: int, value: Option<N>)
    requires
        slots_wf(slots, k),
        0 <= position,
        value.is_some() ==> position == 0 || (k > 0 && occupied(
            slots,
            parent_position(k, position),
        )),
    ensures
        slots_wf(written(slots, k, position, value), k),
{
    let after = written(slots, k, position, value);
    assert forall|i: int| 0 < i < after.len() && (#[trigger] after[i]).is_some() implies k > 0
        && occupied(after, parent_position(k, i)) by {
        if i == position {
            let p = parent_position(k, i);
            assert(slots[p].is_some());
            if is_ancestor(k, position, p) {
                lemma_ancestor_is_smaller(k, position, p);
            }
        } else {
            assert(slots[i].is_some());
            let p = parent_position(k, i);
            assert(occupied(slots, p));
            if p != position && value.is_none() && is_ancestor(k, position, p) {
                lemma_ancestor_is_smaller(k, position, p);
                assert(is_ancestor(k, position, i));
            }
            if p == position {
                assert(p < i);
                assert(is_ancestor(k, position, i));
            }
        }
    }
}

/// In a well-formed slot sequence every ancestor of an occupied position is
/// occupied.
pub proof fn lemma_ancestors_occupied<N>(
    slots: Seq<Option<N>>,
    k: int,
    ancestor: int,
    position: int,
)
    requires
        slots_wf(slots, k),
        occupied(slots, position),
        is_ancestor(k, ancestor, position),
    ensures
        occupied(slots, ancestor),
    decreases position,
{
    let parent = parent_position(k, position);
    assert(slots[position].is_some());
    if parent != ancestor {
        lemma_ancestors_occupied(slots, k, ancestor, parent);
    }
}

/// A selection over a range is the selection over its lower part followed by
/// the selection over its upper part.
pub proof fn lemma_select_split(lo: int, mid: int, hi: int, keep: spec_fn(int) -> bool)
    requires
        lo <= mid <= hi,
    ensures
        select(lo, hi, keep) == select(lo, mid, keep) + select(mid, hi, keep),
    decreases mid - lo,
{
    if lo < mid {
        lemma_select_split(lo + 1, mid, hi, keep);
        let upper = select(mid, hi, keep);
        let lower = select(lo + 1, mid, keep);
        if keep(lo) {
            assert(seq![lo] + (lower + upper) =~= (seq![lo] + lower) + upper);
        }
    } else {
        assert(select(lo, mid, keep) + select(mid, hi, keep) =~= select(mid, hi, keep));
    }
}

/// A predicate and its refinement by a second predicate: the positions that
/// satisfy the first are those that satisfy both and those that satisfy the
/// first alone.
pub proof fn lemma_select_partition(
    lo: int,
    hi: int,
    keep: spec_fn(int) -> bool,
    inside: spec_fn(int) -> bool,
    outside: spec_fn(int) -> bool,
    part: spec_fn(int) -> bool,
)
    requires
        forall|j: int| lo <= j < hi ==> #[trigger] inside(j) == (keep(j) && part(j)),
        forall|j: int| lo <= j < hi ==> #[trigger] outside(j) == (keep(j) && !part(j)),
    ensures
        select(lo, hi, keep).len() == select(lo, hi, inside).len() + select(lo, hi, outside).len(),
    decreases hi - lo,
{
    if lo < hi {
        lemma_select_partition(lo + 1, hi, keep, inside, outside, part);
        assert(inside(lo) == (keep(lo) && part(lo)));
        assert(outside(lo) == (keep(lo) && !part(lo)));
    }
}

/// The count of a slot sequence is the number of its occupied positions.
pub proof fn lemma_count_is_selection<N>(slots: Seq<Option<N>>)
    ensures
        count_occupied(slots) == select(0, slots.len() as int, |j: int| occupied(slots, j)).len(),
    decreases slots.len(),
{
    let keep = |j: int| occupied(slots, j);
    if slots.len() > 0 {
        let shorter = slots.drop_last();
        let last = slots.len() - 1;
        let keep_shorter = |j: int| occupied(shorter, j);
        lemma_count_is_selection(shorter);
        lemma_select_split(0, last, slots.len() as int, keep);
        assert forall|j: int| 0 <= j < last implies #[trigger] keep(j) == #[trigger] keep_shorter(
            j,
        ) by {}
        lemma_select_agree(0, last, keep, keep_shorter);
        assert(select(last + 1, slots.len() as int, keep) =~= Seq::<int>::empty());
        if keep(last) {
            assert(select(last, slots.len() as int, keep) =~= seq![last]);
        } else {
            assert(select(last, slots.len() as int, keep) =~= Seq::<int>::empty());
        }
    }
}

/// Writing a value over an empty slot adds one to the count; over an
/// occupied slot it leaves the count as it is.
pub proof fn lemma_written_value_count<N>(slots: Seq<Option<N>>, k: int, position: int, value: N)
    requires
        0 <= position,
    ensures
        count_occupied(written(slots, k, position, Some(value))) == count_occupied(slots) + if occupied(
            slots,
            position,
        ) {
            0nat
        } else {
            1nat
        },
{
    let after = written(slots, k, position, Some(value));
    let keep = |j: int| occupied(slots, j);
    let keep_after = |j: int| occupied(after, j);
    let len = slots.len() as int;
    let bound = after.len() as int;
    lemma_count_is_selection(slots);
    lemma_count_is_selection(after);
    lemma_select_split(0, position, bound, keep_after);
    lemma_select_split(position, position + 1, bound, keep_after);
    assert(select(position + 1, position + 1, keep_after) =~= Seq::<int>::empty());
    assert(select(position, position + 1, keep_after) =~= seq![position]);
    assert forall|j: int| 0 <= j < position implies #[trigger] keep(j) == #[trigger] keep_after(
        j,
    ) by {}
    lemma_select_agree(0, position, keep, keep_after);
    assert forall|j: int| position + 1 <= j < bound implies #[trigger] keep(j)
        == #[trigger] keep_after(j) by {}
    lemma_select_agree(position + 1, bound, keep, keep_after);
    if position < len {
        lemma_select_split(0, position, len, keep);
        lemma_select_split(position, position + 1, len, keep);
        assert(select(position + 1, position + 1, keep) =~= Seq::<int>::empty());
        if keep(position) {
            assert(select(position, position + 1, keep) =~= seq![position]);
        } else {
            assert(select(position, position + 1, keep) =~= Seq::<int>::empty());
        }
    } else {
        lemma_select_split(0, len, position, keep);
        lemma_select_skip(len, position, position, keep);
        assert(select(position, position, keep) =~= Seq::<int>::empty());
        assert(select(position + 1, bound, keep) =~= Seq::<int>::empty());
    }
}

/// Writing absence takes off the count exactly the number of occupied slots
/// in the subtree of the written position: the slot itself, if it was
/// occupied, and every occupied slot below it.
pub proof fn lemma_written_absence_count<N>(slots: Seq<Option<N>>, k: int, position: int)
    requires
        0 <= position,
    ensures
        count_occupied(written(slots, k, position, None)) + subtree_count(slots, k, position)
            == count_occupied(slots),
{
    let after = written(slots, k, position, None);
    let keep = |j: int| occupied(slots, j);
    let keep_after = |j: int| occupied(after, j);
    let inside = |j: int| occupied(slots, j) && in_subtree(k, position, j);
    let part = |j: int| in_subtree(k, position, j);
    let len = slots.len() as int;
    let bound = after.len() as int;
    lemma_count_is_selection(slots);
    lemma_count_is_selection(after);
    lemma_select_split(0, len, bound, keep_after);
    lemma_select_skip(len, bound, bound, keep_after);
    assert(select(bound, bound, keep_after) =~= Seq::<int>::empty());
    assert(select(0, len, keep_after) + Seq::<int>::empty() =~= select(0, len, keep_after));
    assert forall|j: int| 0 <= j < len implies #[trigger] keep_after(j) == (keep(j) && !part(
        j,
    )) by {}
    lemma_select_partition(0, len, keep, inside, keep_after, part);
}

/// What a write leaves alone and what it empties: outside the subtree of
/// the written position every slot keeps what it held, so that ancestors and
/// siblings are not affected; and where absence is written every slot of the
/// subtree is empty afterwards.
pub proof fn lemma_written_frame<N>(slots: Seq<Option<N>>, k: int, position: int, value: Option<N>)
    requires
        0 <= position,
    ensures
        written(slots, k, position, value).len() >= slots.len(),
        forall|j: int|
            0 <= j < slots.len() && !in_subtree(k, position, j) ==> #[trigger] written(
                slots,
                k,
                position,
                value,
            )[j] == slots[j],
        forall|j: int|
            slots.len() <= j < written(slots, k, position, value).len() && j != position ==> (
            #[trigger] written(slots, k, position, value)[j]).is_none(),
        written(slots, k, position, value)[position] == value,
        value.is_none() ==> forall|j: int|
            in_subtree(k, position, j) ==> !#[trigger] occupied(
                written(slots, k, position, value),
                j,
            ),
        value.is_some() ==> forall|j: int|
            0 <= j < slots.len() && j != position ==> #[trigger] written(
                slots,
                k,
                position,
                value,
            )[j] == slots[j],
{
}

/// The number of occupied slots strictly below `position`.
pub open spec fn descendant_count<N>(slots: Seq<Option<N>>, k: int, position: int) -> nat {
    select(0, slots.len() as int, |j: int| occupied(slots, j) && is_ancestor(k, position, j)).len()
}

/// The occupied slots of a subtree are its root, if occupied, and the
/// occupied slots below the root: writing absence over an occupied node takes
/// one plus the number of its occupied descendants off the count.
pub proof fn lemma_subtree_count<N>(slots: Seq<Option<N>>, k: int, position: int)
    ensures
        subtree_count(slots, k, position) == descendant_count(slots, k, position) + if occupied(
            slots,
            position,
        ) {
            1nat
        } else {
            0nat
        },
{
    let whole = |j: int| occupied(slots, j) && in_subtree(k, position, j);
    let below = |j: int| occupied(slots, j) && is_ancestor(k, position, j);
    let top = |j: int| occupied(slots, j) && j == position;
    let part = |j: int| j == position;
    let len = slots.len() as int;
    assert forall|j: int| 0 <= j < len implies #[trigger] top(j) == (whole(j) && part(j)) by {}
    assert forall|j: int| 0 <= j < len implies #[trigger] below(j) == (whole(j) && !part(j)) by {
        if is_ancestor(k, position, j) {
            lemma_ancestor_is_smaller(k, position, j);
        }
    }
    lemma_select_partition(0, len, whole, top, below, part);
    if occupied(slots, position) {
        lemma_select_skip(0, position, len, top);
        lemma_select_skip(position + 1, len, len, top);
        assert(select(len, len, top) =~= Seq::<int>::empty());
        assert(select(position, len, top) =~= seq![position]);
    } else {
        lemma_select_skip(0, len, len, top);
        assert(select(len, len, top) =~= Seq::<int>::empty());
    }
}

/// Setting the root of an empty tree gives a tree that holds one value, at
/// the root; setting the root of any tree leaves the given value at the root.
pub proof fn lemma_root_value<N>(slots: Seq<Option<N>>, k: int, value: N)
    requires
        slots.len() >= 1,
    ensures
        written(slots, k, 0, Some(value))[0] == Some(value),
        written(seq![None::<N>], k, 0, Some(value)) == seq![Some(value)],
        written_len(seq![None::<N>], k, 0, Some(value)) == 1,
{
    assert(written(seq![None::<N>], k, 0, Some(value)) =~= seq![Some(value)]);
    lemma_count_zero(seq![None::<N>]);
}

/// What the slot sequence holds at `position`: nothing beyond its end.
pub open spec fn slot_at<N>(slots: Seq<Option<N>>, position: int) -> Option<N> {
    if 0 <= position < slots.len() {
        slots[position]
    } else {
        None
    }
}

/// The two slot sequences hold the same at every position outside the
/// subtree rooted at `root`.
pub open spec fn same_outside<N>(
    before: Seq<Option<N>>,
    after: Seq<Option<N>>,
    k: int,
    root: int,
) -> bool {
    forall|j: int| 0 <= j && !in_subtree(k, root, j) ==> #[trigger] slot_at(after, j) == slot_at(before, j)
}

/// What is the same outside a subtree is the same outside every subtree
/// that holds it.
pub proof fn lemma_same_outside_wider<N>(
    before: Seq<Option<N>>,
    after: Seq<Option<N>>,
    k: int,
    inner: int,
    outer: int,
)
    requires
        same_outside(before, after, k, inner),
        in_subtree(k, outer, inner),
    ensures
        same_outside(before, after, k, outer),
{
    assert forall|j: int| 0 <= j && !in_subtree(k, outer, j) implies #[trigger] slot_at(after, j)
        == slot_at(before, j) by {
        if in_subtree(k, inner, j) {
            lemma_ancestor_transitive(k, outer, inner, j);
        }
    }
}

/// A write changes nothing outside the subtree of the written position.
pub proof fn lemma_written_same_outside<N>(
    slots: Seq<Option<N>>,
    k: int,
    position: int,
    value: Option<N>,
)
    requires
        0 <= position,
    ensures
        same_outside(slots, written(slots, k, position, value), k, position),
{
}

/// Replacing the value of an occupied slot by another value keeps the
/// structural invariant and the count.
pub proof fn lemma_value_change<N>(slots: Seq<Option<N>>, k: int, position: int, value: N)
    requires
        slots_wf(slots, k),
        occupied(slots, position),
    ensures
        slots_wf(slots.update(position, Some(value)), k),
        count_occupied(slots.update(position, Some(value))) == count_occupied(slots),
        slots.update(position, Some(value)) == written(slots, k, position, Some(value)),
{
    let after = slots.update(position, Some(value));
    lemma_count_update(slots, position, Some(value));
    assert forall|i: int| 0 < i < after.len() && (#[trigger] after[i]).is_some() implies k > 0
        && occupied(after, parent_position(k, i)) by {
        assert(slots[i].is_some());
    }
    assert(after =~= written(slots, k, position, Some(value)));
}

} // verus!
