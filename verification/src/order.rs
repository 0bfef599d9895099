//! The orders in which the traversals visit the occupied positions of a
//! subtree, as sequences of positions.

use vstd::prelude::*;
use crate::index::{
    branch_toward,
    child_position,
    child_slot,
    depth,
    in_subtree,
    is_ancestor,
    lemma_ancestor_is_smaller,
    lemma_ancestor_transitive,
    lemma_branch_toward,
    lemma_branch_unique,
    lemma_child_then_parent,
    lemma_depth_monotonic,
};
use crate::slots::{
    lemma_ancestors_occupied,
    lemma_select_skip,
    lemma_select_sorted,
    occupied,
    select,
    slots_wf,
};

verus! {

/// Whether a depth-first traversal yields a node before or after its
/// children.
#[derive(Clone, Copy, PartialEq, Eq, Structural, Debug, Hash)]
pub enum DepthFirstOrder {
    /// A node comes before the nodes below it.
    PreOrder,
    /// A node comes after the nodes below it.
    PostOrder,
}

/// How many positions of a sequence of length `len` lie at or after
/// `position`.
pub open spec fn positions_left(len: nat, position: int) -> nat {
    if 0 <= position < len {
        (len - position) as nat
    } else {
        0
    }
}

/// The occupied positions of the subtree rooted at `position`, depth first:
/// the children of a node in increasing slot order, the whole subtree of one
/// child before the next child, and the node itself before or after its
/// children as `order` says. Empty where `position` is not occupied.
pub open spec fn depth_first_order<N>(
    slots: Seq<Option<N>>,
    k: int,
    order: DepthFirstOrder,
    position: int,
) -> Seq<int>
    decreases positions_left(slots.len(), position), 1int, 0int,
{
    if !occupied(slots, position) {
        Seq::empty()
    } else {
        match order {
            DepthFirstOrder::PreOrder => seq![position] + children_order(
                slots,
                k,
                order,
                position,
                0,
            ),
            DepthFirstOrder::PostOrder => children_order(slots, k, order, position, 0) + seq![
                position,
            ],
        }
    }
}

/// The depth-first orders of the subtrees of the children `from`, `from + 1`,
/// ... of the node at `parent`, one after the other.
pub open spec fn children_order<N>(
    slots: Seq<Option<N>>,
    k: int,
    order: DepthFirstOrder,
    parent: int,
    from: int,
) -> Seq<int>
    decreases positions_left(slots.len(), parent), 0int, k - from,
{
    if !occupied(slots, parent) || from < 0 || from >= k {
        Seq::empty()
    } else {
        proof {
            lemma_child_then_parent(k, parent, from);
        }
        depth_first_order(slots, k, order, child_position(k, parent, from)) + children_order(
            slots,
            k,
            order,
            parent,
            from + 1,
        )
    }
}

/// The occupied positions of the subtree rooted at `root`, breadth first. The
/// layout stores each level behind the one above it and each level from left
/// to right, so this is the order of increasing position.
pub open spec fn breadth_first_order<N>(slots: Seq<Option<N>>, k: int, root: int) -> Seq<int> {
    select(0, slots.len() as int, |j: int| occupied(slots, j) && in_subtree(k, root, j))
}

/// A depth-first order holds occupied positions of the subtree only.
pub proof fn lemma_depth_first_sound<N>(
    slots: Seq<Option<N>>,
    k: int,
    order: DepthFirstOrder,
    position: int,
)
    ensures
        forall|x: int|
            0 <= x < depth_first_order(slots, k, order, position).len() ==> occupied(
                slots,
                #[trigger] depth_first_order(slots, k, order, position)[x],
            ) && in_subtree(k, position, depth_first_order(slots, k, order, position)[x]),
    decreases positions_left(slots.len(), position), 1int, 0int,
{
    if occupied(slots, position) {
        let all = depth_first_order(slots, k, order, position);
        let below = children_order(slots, k, order, position, 0);
        lemma_children_sound(slots, k, order, position, 0);
        assert forall|x: int| 0 <= x < all.len() implies occupied(slots, #[trigger] all[x])
            && in_subtree(k, position, all[x]) by {
            match order {
                DepthFirstOrder::PreOrder => {
                    if x > 0 {
                        assert(all[x] == below[x - 1]);
                    }
                },
                DepthFirstOrder::PostOrder => {
                    if x < below.len() {
                        assert(all[x] == below[x]);
                    }
                },
            }
        }
    }
}

/// What follows the children from `from` on holds occupied positions below
/// `parent` only, each reached through a child slot at or after `from`.
pub proof fn lemma_children_sound<N>(
    slots: Seq<Option<N>>,
    k: int,
    order: DepthFirstOrder,
    parent: int,
    from: int,
)
    ensures
        forall|x: int|
            0 <= x < children_order(slots, k, order, parent, from).len() ==> {
                let j = #[trigger] children_order(slots, k, order, parent, from)[x];
                &&& occupied(slots, j)
                &&& is_ancestor(k, parent, j)
                &&& from <= child_slot(k, branch_toward(k, parent, j)) < k
            },
    decreases positions_left(slots.len(), parent), 0int, k - from,
{
    if occupied(slots, parent) && 0 <= from < k {
        let child = child_position(k, parent, from);
        let first = depth_first_order(slots, k, order, child);
        let rest = children_order(slots, k, order, parent, from + 1);
        let all = children_order(slots, k, order, parent, from);
        lemma_child_then_parent(k, parent, from);
        lemma_depth_first_sound(slots, k, order, child);
        lemma_children_sound(slots, k, order, parent, from + 1);
        assert forall|x: int| 0 <= x < all.len() implies {
            let j = #[trigger] all[x];
            &&& occupied(slots, j)
            &&& is_ancestor(k, parent, j)
            &&& from <= child_slot(k, branch_toward(k, parent, j)) < k
        } by {
            if x < first.len() {
                assert(all[x] == first[x]);
                lemma_branch_unique(k, parent, from, first[x]);
            } else {
                assert(all[x] == rest[x - first.len()]);
            }
        }
    }
}

/// In a well-formed slot sequence a depth-first order holds every occupied
/// position of the subtree.
pub proof fn lemma_depth_first_complete<N>(
    slots: Seq<Option<N>>,
    k: int,
    order: DepthFirstOrder,
    position: int,
    j: int,
)
    requires
        slots_wf(slots, k),
        0 <= position,
        occupied(slots, j),
        in_subtree(k, position, j),
    ensures
        depth_first_order(slots, k, order, position).contains(j),
    decreases positions_left(slots.len(), position), 1int, 0int,
{
    let all = depth_first_order(slots, k, order, position);
    if j == position {
        match order {
            DepthFirstOrder::PreOrder => {
                assert(all[0] == j);
            },
            DepthFirstOrder::PostOrder => {
                assert(all[all.len() - 1] == j);
            },
        }
    } else {
        lemma_ancestors_occupied(slots, k, position, j);
        lemma_ancestor_is_smaller(k, position, j);
        lemma_branch_toward(k, position, j);
        let below = children_order(slots, k, order, position, 0);
        lemma_children_complete(slots, k, order, position, 0, j);
        let x = choose|x: int| 0 <= x < below.len() && below[x] == j;
        match order {
            DepthFirstOrder::PreOrder => {
                assert(all[x + 1] == j);
            },
            DepthFirstOrder::PostOrder => {
                assert(all[x] == j);
            },
        }
    }
}

/// In a well-formed slot sequence what follows the children from `from` on
/// holds every occupied position that is reached through one of them.
pub proof fn lemma_children_complete<N>(
    slots: Seq<Option<N>>,
    k: int,
    order: DepthFirstOrder,
    parent: int,
    from: int,
    j: int,
)
    requires
        slots_wf(slots, k),
        0 <= parent,
        0 <= from,
        occupied(slots, parent),
        occupied(slots, j),
        is_ancestor(k, parent, j),
        from <= child_slot(k, branch_toward(k, parent, j)),
    ensures
        children_order(slots, k, order, parent, from).contains(j),
    decreases positions_left(slots.len(), parent), 0int, k - from,
{
    lemma_branch_toward(k, parent, j);
    let branch = branch_toward(k, parent, j);
    let child = child_position(k, parent, from);
    let first = depth_first_order(slots, k, order, child);
    let rest = children_order(slots, k, order, parent, from + 1);
    let all = children_order(slots, k, order, parent, from);
    lemma_child_then_parent(k, parent, from);
    if child_slot(k, branch) == from {
        lemma_depth_first_complete(slots, k, order, child, j);
        let x = choose|x: int| 0 <= x < first.len() && first[x] == j;
        assert(all[x] == j);
    } else {
        lemma_children_complete(slots, k, order, parent, from + 1, j);
        let x = choose|x: int| 0 <= x < rest.len() && rest[x] == j;
        assert(all[first.len() + x] == j);
    }
}

/// Below an empty place of a well-formed slot sequence nothing is occupied:
/// the breadth-first order of its subtree is empty.
pub proof fn lemma_breadth_first_empty<N>(slots: Seq<Option<N>>, k: int, root: int)
    requires
        slots_wf(slots, k),
        !occupied(slots, root),
    ensures
        breadth_first_order(slots, k, root) == Seq::<int>::empty(),
{
    let keep = |j: int| occupied(slots, j) && in_subtree(k, root, j);
    assert forall|j: int| 0 <= j < slots.len() implies !#[trigger] keep(j) by {
        if occupied(slots, j) && is_ancestor(k, root, j) {
            lemma_ancestors_occupied(slots, k, root, j);
        }
    }
    lemma_select_skip(0, slots.len() as int, slots.len() as int, keep);
}

/// `first` comes before `second` where a node is yielded before its
/// children, and after it where a node is yielded after them.
pub open spec fn ancestor_first(order: DepthFirstOrder, first: int, second: int) -> bool {
    match order {
        DepthFirstOrder::PreOrder => first < second,
        DepthFirstOrder::PostOrder => second < first,
    }
}

/// A depth-first order holds no position twice, and it holds every node on
/// the side of its descendants that the order names: in pre-order a node
/// comes strictly before every node below it, in post-order strictly after.
pub proof fn lemma_depth_first_shape<N>(
    slots: Seq<Option<N>>,
    k: int,
    order: DepthFirstOrder,
    position: int,
)
    ensures
        forall|x: int, y: int|
            0 <= x < depth_first_order(slots, k, order, position).len() && 0 <= y
                < depth_first_order(slots, k, order, position).len() && x != y ==> (
            #[trigger] depth_first_order(slots, k, order, position)[x]) != (
            #[trigger] depth_first_order(slots, k, order, position)[y]),
        forall|x: int, y: int|
            0 <= x < depth_first_order(slots, k, order, position).len() && 0 <= y
                < depth_first_order(slots, k, order, position).len() && is_ancestor(
                k,
                #[trigger] depth_first_order(slots, k, order, position)[x],
                #[trigger] depth_first_order(slots, k, order, position)[y],
            ) ==> ancestor_first(order, x, y),
    decreases positions_left(slots.len(), position), 1int, 0int,
{
    if occupied(slots, position) {
        let all = depth_first_order(slots, k, order, position);
        let below = children_order(slots, k, order, position, 0);
        lemma_children_sound(slots, k, order, position, 0);
        lemma_children_shape(slots, k, order, position, 0);
        let shift: int = match order {
            DepthFirstOrder::PreOrder => 1,
            DepthFirstOrder::PostOrder => 0,
        };
        let own: int = match order {
            DepthFirstOrder::PreOrder => 0,
            DepthFirstOrder::PostOrder => below.len() as int,
        };
        assert(all[own] == position);
        assert forall|x: int| 0 <= x < all.len() && x != own implies #[trigger] all[x] == below[x
            - shift] && is_ancestor(k, position, all[x]) && all[x] > position by {
            lemma_ancestor_is_smaller(k, position, below[x - shift]);
        }
        assert forall|x: int, y: int|
            0 <= x < all.len() && 0 <= y < all.len() && x != y implies (#[trigger] all[x]) != (
        #[trigger] all[y]) by {
            if x != own && y != own {
                assert(below[x - shift] != below[y - shift]);
            }
        }
        assert forall|x: int, y: int|
            0 <= x < all.len() && 0 <= y < all.len() && is_ancestor(
                k,
                #[trigger] all[x],
                #[trigger] all[y],
            ) implies ancestor_first(order, x, y) by {
            lemma_ancestor_is_smaller(k, all[x], all[y]);
            if x != own && y != own {
                assert(is_ancestor(k, below[x - shift], below[y - shift]));
            }
        }
    }
}

/// What follows the children from `from` on has the same shape: no position
/// twice, and every node on the side of its descendants that the order
/// names.
pub proof fn lemma_children_shape<N>(
    slots: Seq<Option<N>>,
    k: int,
    order: DepthFirstOrder,
    parent: int,
    from: int,
)
    ensures
        forall|x: int, y: int|
            0 <= x < children_order(slots, k, order, parent, from).len() && 0 <= y
                < children_order(slots, k, order, parent, from).len() && x != y ==> (
            #[trigger] children_order(slots, k, order, parent, from)[x]) != (
            #[trigger] children_order(slots, k, order, parent, from)[y]),
        forall|x: int, y: int|
            0 <= x < children_order(slots, k, order, parent, from).len() && 0 <= y
                < children_order(slots, k, order, parent, from).len() && is_ancestor(
                k,
                #[trigger] children_order(slots, k, order, parent, from)[x],
                #[trigger] children_order(slots, k, order, parent, from)[y],
            ) ==> ancestor_first(order, x, y),
    decreases positions_left(slots.len(), parent), 0int, k - from,
{
    if occupied(slots, parent) && 0 <= from < k {
        let child = child_position(k, parent, from);
        let first = depth_first_order(slots, k, order, child);
        let rest = children_order(slots, k, order, parent, from + 1);
        let all = children_order(slots, k, order, parent, from);
        let split = first.len() as int;
        lemma_child_then_parent(k, parent, from);
        lemma_depth_first_sound(slots, k, order, child);
        lemma_children_sound(slots, k, order, parent, from + 1);
        lemma_depth_first_shape(slots, k, order, child);
        lemma_children_shape(slots, k, order, parent, from + 1);
        assert forall|x: int| 0 <= x < all.len() implies is_ancestor(k, parent, #[trigger] all[x])
            && (if x < split {
            all[x] == first[x] && child_slot(k, branch_toward(k, parent, all[x])) == from
        } else {
            all[x] == rest[x - split] && child_slot(k, branch_toward(k, parent, all[x])) > from
        }) by {
            if x < split {
                lemma_branch_unique(k, parent, from, first[x]);
            }
        }
        assert forall|x: int, y: int|
            0 <= x < all.len() && 0 <= y < all.len() && x != y implies (#[trigger] all[x]) != (
        #[trigger] all[y]) by {
            if x < split && y < split {
                assert(first[x] != first[y]);
            } else if x >= split && y >= split {
                assert(rest[x - split] != rest[y - split]);
            }
        }
        assert forall|x: int, y: int|
            0 <= x < all.len() && 0 <= y < all.len() && is_ancestor(
                k,
                #[trigger] all[x],
                #[trigger] all[y],
            ) implies ancestor_first(order, x, y) by {
            let a = all[x];
            let b = all[y];
            lemma_branch_toward(k, parent, a);
            lemma_branch_toward(k, parent, b);
            let toward_a = branch_toward(k, parent, a);
            lemma_ancestor_transitive(k, toward_a, a, b);
            lemma_branch_unique(k, parent, child_slot(k, toward_a), b);
            if x < split && y < split {
                assert(is_ancestor(k, first[x], first[y]));
            } else if x >= split && y >= split {
                assert(is_ancestor(k, rest[x - split], rest[y - split]));
            }
        }
    }
}

/// Breadth-first order goes level by level: it holds exactly the occupied
/// positions of the subtree, each once, and the depth never decreases along
/// it, so that the nodes of one depth stand together and the groups follow
/// each other by increasing depth.
pub proof fn lemma_breadth_first_levels<N>(slots: Seq<Option<N>>, k: int, root: int)
    requires
        k >= 0,
    ensures
        forall|x: int|
            0 <= x < breadth_first_order(slots, k, root).len() ==> occupied(
                slots,
                #[trigger] breadth_first_order(slots, k, root)[x],
            ) && in_subtree(k, root, breadth_first_order(slots, k, root)[x]),
        forall|j: int|
            occupied(slots, j) && in_subtree(k, root, j) ==> #[trigger] breadth_first_order(
                slots,
                k,
                root,
            ).contains(j),
        forall|x: int, y: int|
            0 <= x < y < breadth_first_order(slots, k, root).len() ==> (
            #[trigger] breadth_first_order(slots, k, root)[x]) < (#[trigger] breadth_first_order(
                slots,
                k,
                root,
            )[y]) && depth(k, breadth_first_order(slots, k, root)[x]) <= depth(
                k,
                breadth_first_order(slots, k, root)[y],
            ),
{
    let keep = |j: int| occupied(slots, j) && in_subtree(k, root, j);
    let all = breadth_first_order(slots, k, root);
    lemma_select_sorted(0, slots.len() as int, keep);
    assert forall|j: int| occupied(slots, j) && in_subtree(k, root, j) implies all.contains(
        j,
    ) by {
        assert(keep(j));
    }
    assert forall|x: int, y: int| 0 <= x < y < all.len() implies (#[trigger] all[x]) < (
    #[trigger] all[y]) && depth(k, all[x]) <= depth(k, all[y]) by {
        if k > 0 {
            lemma_depth_monotonic(k, all[x], all[y]);
        }
    }
}

/// Every node has at most one occupied child: the tree is made of linear
/// chains only.
pub open spec fn is_chain<N>(slots: Seq<Option<N>>, k: int) -> bool {
    forall|parent: int, c: int, d: int|
        0 <= parent && 0 <= c < k && 0 <= d < k && occupied(
            slots,
            #[trigger] child_position(k, parent, c),
        ) && occupied(slots, #[trigger] child_position(k, parent, d)) ==> c == d
}

/// In a tree of linear chains post-order is pre-order read backwards.
pub proof fn lemma_chain_reverses<N>(slots: Seq<Option<N>>, k: int, position: int)
    requires
        slots_wf(slots, k),
        is_chain(slots, k),
    ensures
        depth_first_order(slots, k, DepthFirstOrder::PostOrder, position) == depth_first_order(
            slots,
            k,
            DepthFirstOrder::PreOrder,
            position,
        ).reverse(),
    decreases positions_left(slots.len(), position), 1int, 0int,
{
    let forward = depth_first_order(slots, k, DepthFirstOrder::PreOrder, position);
    let backward = depth_first_order(slots, k, DepthFirstOrder::PostOrder, position);
    if occupied(slots, position) {
        lemma_chain_children_reverse(slots, k, position, 0);
        assert(backward =~= forward.reverse());
    } else {
        assert(backward =~= forward.reverse());
    }
}

/// In a tree of linear chains what follows the children from `from` on in
/// post-order is the same in pre-order read backwards.
pub proof fn lemma_chain_children_reverse<N>(
    slots: Seq<Option<N>>,
    k: int,
    parent: int,
    from: int,
)
    requires
        slots_wf(slots, k),
        is_chain(slots, k),
    ensures
        children_order(slots, k, DepthFirstOrder::PostOrder, parent, from) == children_order(
            slots,
            k,
            DepthFirstOrder::PreOrder,
            parent,
            from,
        ).reverse(),
    decreases positions_left(slots.len(), parent), 0int, k - from,
{
    let forward = children_order(slots, k, DepthFirstOrder::PreOrder, parent, from);
    let backward = children_order(slots, k, DepthFirstOrder::PostOrder, parent, from);
    if occupied(slots, parent) && 0 <= from < k {
        let child = child_position(k, parent, from);
        let first = depth_first_order(slots, k, DepthFirstOrder::PreOrder, child);
        let rest = children_order(slots, k, DepthFirstOrder::PreOrder, parent, from + 1);
        lemma_child_then_parent(k, parent, from);
        lemma_chain_reverses(slots, k, child);
        lemma_chain_children_reverse(slots, k, parent, from + 1);
        if first.len() > 0 && rest.len() > 0 {
            lemma_children_sound(slots, k, DepthFirstOrder::PreOrder, parent, from + 1);
            let j = rest[0];
            lemma_branch_toward(k, parent, j);
            let branch = branch_toward(k, parent, j);
            if branch != j {
                lemma_ancestors_occupied(slots, k, branch, j);
            }
            assert(occupied(slots, child_position(k, parent, child_slot(k, branch))));
            assert(occupied(slots, child_position(k, parent, from)));
        }
        assert(backward =~= forward.reverse());
    } else {
        assert(backward =~= forward.reverse());
    }
}

/// Child slots that lie beyond the end of the slot sequence add nothing to a
/// depth-first order.
pub proof fn lemma_children_beyond<N>(
    slots: Seq<Option<N>>,
    k: int,
    order: DepthFirstOrder,
    parent: int,
    from: int,
)
    requires
        0 <= parent,
        0 <= from,
        child_position(k, parent, from) >= slots.len(),
    ensures
        children_order(slots, k, order, parent, from) == Seq::<int>::empty(),
    decreases k - from,
{
    if occupied(slots, parent) && from < k {
        lemma_children_beyond(slots, k, order, parent, from + 1);
        let child = child_position(k, parent, from);
        assert(!occupied(slots, child));
        assert(depth_first_order(slots, k, order, child) =~= Seq::<int>::empty());
        assert(children_order(slots, k, order, parent, from) =~= Seq::<int>::empty());
    }
}

} // verus!
