//! Position arithmetic of the flat layout.
//!
//! A tree with branching factor `k` keeps its root at position 0 and child
//! `slot` of the node at position `parent` at `parent * k + slot + 1`. All of
//! the parent/child structure of the tree is derived from these formulas; no
//! link is ever stored.

use vstd::prelude::*;
use vstd::arithmetic::div_mod::{
    lemma_div_is_ordered,
    lemma_fundamental_div_mod,
    lemma_fundamental_div_mod_converse,
};

verus! {

/// Position of child `slot` of the node at `parent`.
pub open spec fn child_position(k: int, parent: int, slot: int) -> int {
    parent * k + slot + 1
}

/// Position of the parent of the node at `position` (meaningful for
/// `position > 0` and `k > 0`).
pub open spec fn parent_position(k: int, position: int) -> int {
    (position - 1) / k
}

/// The child slot that `position` occupies under its parent (meaningful for
/// `position > 0` and `k > 0`).
pub open spec fn child_slot(k: int, position: int) -> int {
    (position - 1) % k
}

/// `ancestor` lies strictly above `position`: it is the parent of `position`,
/// or the parent of its parent, and so on.
pub open spec fn is_ancestor(k: int, ancestor: int, position: int) -> bool
    decreases position,
{
    if position <= 0 || k <= 0 {
        false
    } else {
        let parent = parent_position(k, position);
        parent < position && (parent == ancestor || is_ancestor(k, ancestor, parent))
    }
}

/// `position` is `root` itself or lies below it.
pub open spec fn in_subtree(k: int, root: int, position: int) -> bool {
    position == root || is_ancestor(k, root, position)
}

/// Number of edges between `position` and the root.
pub open spec fn depth(k: int, position: int) -> nat
    decreases position,
{
    if position <= 0 || k <= 0 {
        0
    } else {
        let parent = parent_position(k, position);
        if parent < position {
            1 + depth(k, parent)
        } else {
            0
        }
    }
}

/// The child of `ancestor` through which the path down to `position` runs
/// (meaningful where `ancestor` is a strict ancestor of `position`).
pub open spec fn branch_toward(k: int, ancestor: int, position: int) -> int
    decreases position,
{
    if position <= 0 || k <= 0 {
        position
    } else {
        let parent = parent_position(k, position);
        if parent == ancestor || parent >= position {
            position
        } else {
            branch_toward(k, ancestor, parent)
        }
    }
}

/// The parent of a position lies in `[0, position)`.
pub proof fn lemma_parent_bounds(k: int, position: int)
    requires
        k > 0,
        position > 0,
    ensures
        0 <= parent_position(k, position) < position,
        0 <= child_slot(k, position) < k,
        child_position(k, parent_position(k, position), child_slot(k, position)) == position,
{
    let x = position - 1;
    lemma_fundamental_div_mod(x, k);
    assert(0 <= x % k < k) by (nonlinear_arith)
        requires
            k > 0,
    ;
    assert(x / k >= 0) by (nonlinear_arith)
        requires
            x >= 0,
            k > 0,
    ;
    assert(x / k <= x) by (nonlinear_arith)
        requires
            x >= 0,
            k > 0,
            x == k * (x / k) + x % k,
            x % k >= 0,
            x / k >= 0,
    ;
    assert(k * (x / k) == (x / k) * k) by (nonlinear_arith);
}

/// Going down to a child and back up recovers both the parent and the slot.
pub proof fn lemma_child_then_parent(k: int, parent: int, slot: int)
    requires
        0 <= parent,
        0 <= slot < k,
    ensures
        child_position(k, parent, slot) > parent,
        parent_position(k, child_position(k, parent, slot)) == parent,
        child_slot(k, child_position(k, parent, slot)) == slot,
{
    let x = parent * k + slot;
    lemma_fundamental_div_mod_converse(x, k, parent, slot);
    assert(parent * k >= parent) by (nonlinear_arith)
        requires
            parent >= 0,
            k >= 1,
    ;
}

/// Going up to the parent and back down through the recorded slot recovers
/// the position.
pub proof fn lemma_parent_then_child(k: int, position: int)
    requires
        k > 0,
        position > 0,
    ensures
        0 <= child_slot(k, position) < k,
        child_position(k, parent_position(k, position), child_slot(k, position)) == position,
{
    lemma_parent_bounds(k, position);
}

/// Taking the parent preserves the order of positions.
pub proof fn lemma_parent_monotonic(k: int, a: int, b: int)
    requires
        k > 0,
        0 < a <= b,
    ensures
        parent_position(k, a) <= parent_position(k, b),
{
    lemma_div_is_ordered(a - 1, b - 1, k);
}

/// A strict ancestor lies at a smaller position than its descendant.
pub proof fn lemma_ancestor_is_smaller(k: int, ancestor: int, position: int)
    requires
        is_ancestor(k, ancestor, position),
    ensures
        ancestor < position,
        k > 0,
        position > 0,
    decreases position,
{
    let parent = parent_position(k, position);
    if parent != ancestor {
        lemma_ancestor_is_smaller(k, ancestor, parent);
    }
}

/// The positions below a child are the child itself and whatever lies below
/// it: a position lies in the subtree of `parent` exactly if it is `parent`
/// or lies in the subtree of one of its children.
pub proof fn lemma_ancestor_of_child(k: int, ancestor: int, parent: int, slot: int)
    requires
        0 <= parent,
        0 <= slot < k,
    ensures
        is_ancestor(k, ancestor, child_position(k, parent, slot)) == in_subtree(
            k,
            ancestor,
            parent,
        ),
{
    lemma_child_then_parent(k, parent, slot);
}

/// Being an ancestor is transitive.
pub proof fn lemma_ancestor_transitive(k: int, a: int, b: int, c: int)
    requires
        in_subtree(k, a, b),
        in_subtree(k, b, c),
    ensures
        in_subtree(k, a, c),
        (a != b || b != c) ==> is_ancestor(k, a, c),
    decreases c,
{
    if b != c {
        let parent = parent_position(k, c);
        if parent != b {
            lemma_ancestor_transitive(k, a, b, parent);
        }
    }
}

/// The ancestors of a position form a chain: of two positions that both lie
/// on or above a third, one lies on or above the other.
pub proof fn lemma_ancestors_form_chain(k: int, a: int, b: int, position: int)
    requires
        in_subtree(k, a, position),
        in_subtree(k, b, position),
    ensures
        in_subtree(k, a, b) || in_subtree(k, b, a),
    decreases position,
{
    if a != position && b != position {
        let parent = parent_position(k, position);
        lemma_ancestors_form_chain(k, a, b, parent);
    }
}

/// The subtrees of two different children of one node share no position.
pub proof fn lemma_sibling_subtrees_disjoint(k: int, parent: int, c: int, d: int, position: int)
    requires
        0 <= parent,
        0 <= c < k,
        0 <= d < k,
        in_subtree(k, child_position(k, parent, c), position),
        in_subtree(k, child_position(k, parent, d), position),
    ensures
        c == d,
{
    let a = child_position(k, parent, c);
    let b = child_position(k, parent, d);
    lemma_ancestors_form_chain(k, a, b, position);
    lemma_child_then_parent(k, parent, c);
    lemma_child_then_parent(k, parent, d);
    if a != b {
        if is_ancestor(k, a, b) {
            if parent != a {
                lemma_ancestor_is_smaller(k, a, parent);
            }
        } else {
            if parent != b {
                lemma_ancestor_is_smaller(k, b, parent);
            }
        }
    }
}

/// Below a strict ancestor, the path to a descendant runs through exactly one
/// child of the ancestor.
pub proof fn lemma_branch_toward(k: int, ancestor: int, position: int)
    requires
        0 <= ancestor,
        is_ancestor(k, ancestor, position),
    ensures
        parent_position(k, branch_toward(k, ancestor, position)) == ancestor,
        0 <= child_slot(k, branch_toward(k, ancestor, position)) < k,
        branch_toward(k, ancestor, position) == child_position(
            k,
            ancestor,
            child_slot(k, branch_toward(k, ancestor, position)),
        ),
        in_subtree(k, branch_toward(k, ancestor, position), position),
        ancestor < branch_toward(k, ancestor, position) <= position,
    decreases position,
{
    let parent = parent_position(k, position);
    lemma_ancestor_is_smaller(k, ancestor, position);
    if parent == ancestor {
        lemma_parent_bounds(k, position);
    } else {
        lemma_branch_toward(k, ancestor, parent);
    }
}

/// The path from a node down to any position below one of its children runs
/// through that child.
pub proof fn lemma_branch_unique(k: int, parent: int, slot: int, position: int)
    requires
        0 <= parent,
        0 <= slot < k,
        in_subtree(k, child_position(k, parent, slot), position),
    ensures
        is_ancestor(k, parent, position),
        branch_toward(k, parent, position) == child_position(k, parent, slot),
        child_slot(k, branch_toward(k, parent, position)) == slot,
{
    let child = child_position(k, parent, slot);
    lemma_child_then_parent(k, parent, slot);
    lemma_ancestor_of_child(k, parent, parent, slot);
    lemma_ancestor_transitive(k, parent, child, position);
    lemma_branch_toward(k, parent, position);
    let branch = branch_toward(k, parent, position);
    lemma_sibling_subtrees_disjoint(k, parent, slot, child_slot(k, branch), position);
}

/// Depth never decreases as positions grow: the layout stores the tree level
/// by level.
pub proof fn lemma_depth_monotonic(k: int, a: int, b: int)
    requires
        k > 0,
        0 <= a <= b,
    ensures
        depth(k, a) <= depth(k, b),
    decreases b,
{
    if a > 0 {
        lemma_parent_bounds(k, a);
        lemma_parent_bounds(k, b);
        lemma_parent_monotonic(k, a, b);
        lemma_depth_monotonic(k, parent_position(k, a), parent_position(k, b));
    }
}

/// A child lies exactly one level below its parent.
pub proof fn lemma_depth_of_child(k: int, parent: int, slot: int)
    requires
        0 <= parent,
        0 <= slot < k,
    ensures
        depth(k, child_position(k, parent, slot)) == depth(k, parent) + 1,
{
    lemma_child_then_parent(k, parent, slot);
}

} // verus!
