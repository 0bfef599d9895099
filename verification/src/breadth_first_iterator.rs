//! Breadth-first traversal, one node per call.

use std::collections::VecDeque;
use vstd::prelude::*;
use crate::index::{
    branch_toward,
    child_position,
    child_slot,
    in_subtree,
    is_ancestor,
    lemma_ancestor_is_smaller,
    lemma_branch_toward,
    lemma_branch_unique,
    lemma_child_then_parent,
};
use crate::node::Node;
use crate::order::breadth_first_order;
use crate::slots::{
    lemma_ancestors_occupied,
    lemma_select_agree,
    lemma_select_drop_first,
    lemma_select_skip,
    occupied,
    select,
};
use crate::tree::EtzyngerTree;

verus! {

/// `position` lies in the subtree of one of the queued positions.
spec fn covered(k: int, queue: Seq<usize>, position: int) -> bool {
    exists|x: int| 0 <= x < queue.len() && in_subtree(k, (#[trigger] queue[x]) as int, position)
}

/// What a queue stands for: the occupied positions in the subtrees of the
/// queued positions, in increasing order.
spec fn queue_order<N>(slots: Seq<Option<N>>, k: int, queue: Seq<usize>) -> Seq<int> {
    select(0, slots.len() as int, |j: int| occupied(slots, j) && covered(k, queue, j))
}

/// The invariant of a queue: the queued positions are occupied and
/// increasing, and none lies beyond the children of the first.
spec fn queue_wf<N>(slots: Seq<Option<N>>, k: int, queue: Seq<usize>) -> bool {
    &&& forall|x: int| 0 <= x < queue.len() ==> occupied(slots, (#[trigger] queue[x]) as int)
    &&& forall|x: int, y: int|
        0 <= x < y < queue.len() ==> (#[trigger] queue[x]) < (#[trigger] queue[y])
    &&& forall|x: int| 0 <= x < queue.len() ==> (#[trigger] queue[x]) as int <= queue[0] * k
}

/// Queueing one more position covers its subtree in addition.
proof fn lemma_covered_push(k: int, queue: Seq<usize>, position: usize, j: int)
    ensures
        covered(k, queue.push(position), j) == (covered(k, queue, j) || in_subtree(
            k,
            position as int,
            j,
        )),
{
    let longer = queue.push(position);
    if covered(k, queue, j) {
        let x = choose|x: int| 0 <= x < queue.len() && in_subtree(k, (#[trigger] queue[x]) as int, j);
        assert(in_subtree(k, longer[x] as int, j));
    }
    if in_subtree(k, position as int, j) {
        assert(in_subtree(k, longer[queue.len() as int] as int, j));
    }
    if covered(k, longer, j) {
        let x = choose|x: int|
            0 <= x < longer.len() && in_subtree(k, (#[trigger] longer[x]) as int, j);
        if x < queue.len() {
            assert(in_subtree(k, queue[x] as int, j));
        }
    }
}

/// A breadth-first traversal of a subtree in progress. Each call of `next`
/// yields the next node; the traversal cannot be restarted.
pub struct BreadthFirstIterator<'a, N> {
    tree: &'a EtzyngerTree<N>,
    queue: VecDeque<usize>,
}

impl<'a, N> BreadthFirstIterator<'a, N> {
    /// The tree that is traversed.
    pub closed spec fn tree(&self) -> &'a EtzyngerTree<N> {
        self.tree
    }

    /// The positions that are still to be yielded, in the order in which
    /// `next` will yield them.
    pub closed spec fn remaining(&self) -> Seq<int> {
        queue_order(self.tree@, self.tree.branching(), self.queue@)
    }

    /// The invariant of the traversal.
    pub closed spec fn wf(&self) -> bool {
        &&& self.tree.wf()
        &&& queue_wf(self.tree@, self.tree.branching(), self.queue@)
    }

    /// Starts a traversal of the subtree rooted at `root`; of nothing where
    /// `root` is absent.
    pub fn new(tree: &'a EtzyngerTree<N>, root: Option<Node<'a, N>>) -> (it: Self)
        requires
            tree.wf(),
            root.is_some() ==> root.unwrap().wf() && root.unwrap().tree == tree,
        ensures
            it.wf(),
            it.tree() == tree,
            it.remaining() == match root {
                Some(node) => breadth_first_order(tree@, tree.branching(), node.index as int),
                None => Seq::<int>::empty(),
            },
    {
        let mut queue = VecDeque::new();
        let ghost slots = tree@;
        let ghost k = tree.branching();
        match root {
            Some(node) => {
                queue.push_back(node.index);
                proof {
                    let start = node.index as int;
                    assert(queue@[0] == node.index);
                    if start > 0 {
                        assert(slots[start].is_some());
                        assert(start <= start * k) by (nonlinear_arith)
                            requires
                                start > 0,
                                k > 0,
                        ;
                    }
                    let keep = |j: int| occupied(slots, j) && covered(k, queue@, j);
                    let whole = |j: int| occupied(slots, j) && in_subtree(k, start, j);
                    assert forall|j: int| 0 <= j < slots.len() implies #[trigger] keep(j)
                        == #[trigger] whole(j) by {
                        if in_subtree(k, start, j) {
                            assert(in_subtree(k, queue@[0] as int, j));
                        }
                    }
                    lemma_select_agree(0, slots.len() as int, keep, whole);
                }
            },
            None => {
                proof {
                    let keep = |j: int| occupied(slots, j) && covered(k, queue@, j);
                    lemma_select_skip(0, slots.len() as int, slots.len() as int, keep);
                }
            },
        }
        BreadthFirstIterator { tree, queue }
    }

    /// Yields the next node of the traversal, or nothing once every node has
    /// been yielded.
    pub fn next(&mut self) -> (result: Option<Node<'a, N>>)
        requires
            old(self).wf(),
        ensures
            final(self).wf(),
            final(self).tree() == old(self).tree(),
            old(self).remaining().len() == 0 ==> result.is_none() && final(self).remaining()
                == old(self).remaining(),
            old(self).remaining().len() > 0 ==> result.is_some() && result.unwrap().tree == old(
                self,
            ).tree() && result.unwrap().index == old(self).remaining()[0] && result.unwrap().wf()
                && final(self).remaining() == old(self).remaining().skip(1),
    {
        let ghost slots = self.tree@;
        let ghost k = self.tree.branching();
        let ghost before = self.queue@;
        let ghost keep = |j: int| occupied(slots, j) && covered(k, before, j);
        let parent = match self.queue.pop_front() {
            Some(parent) => parent,
            None => {
                proof {
                    lemma_select_skip(0, slots.len() as int, slots.len() as int, keep);
                }
                return None;
            },
        };
        let ghost rest = self.queue@;
        let limit = self.tree.child_limit(parent);
        let mut slot: usize = 0;
        proof {
            assert(before[0] == parent);
            assert forall|x: int| 0 <= x < rest.len() implies occupied(
                slots,
                (#[trigger] rest[x]) as int,
            ) && rest[x] > parent && rest[x] <= parent * k by {
                assert(rest[x] == before[x + 1]);
            }
            assert forall|x: int, y: int| 0 <= x < y < rest.len() implies (#[trigger] rest[x]) < (
            #[trigger] rest[y]) by {
                assert(rest[x] == before[x + 1]);
                assert(rest[y] == before[y + 1]);
            }
        }
        while slot < limit
            invariant
                self.tree == old(self).tree,
                self.tree.wf(),
                slots == self.tree@,
                k == self.tree.branching(),
                limit <= k,
                slot <= limit,
                occupied(slots, parent as int),
                forall|x: int|
                    0 <= x < self.queue@.len() ==> occupied(slots, (#[trigger] self.queue@[x]) as int)
                        && self.queue@[x] > parent && self.queue@[x] <= parent * k + slot,
                forall|x: int, y: int|
                    0 <= x < y < self.queue@.len() ==> (#[trigger] self.queue@[x]) < (
                    #[trigger] self.queue@[y]),
                forall|j: int|
                    occupied(slots, j) ==> (#[trigger] covered(k, self.queue@, j) == (covered(
                        k,
                        rest,
                        j,
                    ) || (is_ancestor(k, parent as int, j) && child_slot(
                        k,
                        branch_toward(k, parent as int, j),
                    ) < slot))),
            decreases limit - slot,
        {
            let ghost queue = self.queue@;
            let ghost child = child_position(k, parent as int, slot as int);
            proof {
                lemma_child_then_parent(k, parent as int, slot as int);
            }
            match self.tree.child(parent, slot) {
                Some(node) => {
                    self.queue.push_back(node.index);
                    proof {
                        assert forall|j: int| occupied(slots, j) implies (#[trigger] covered(
                            k,
                            self.queue@,
                            j,
                        ) == (covered(k, rest, j) || (is_ancestor(k, parent as int, j)
                            && child_slot(k, branch_toward(k, parent as int, j)) < slot + 1))) by {
                            lemma_covered_push(k, queue, node.index, j);
                            if in_subtree(k, child, j) {
                                lemma_branch_unique(k, parent as int, slot as int, j);
                            }
                            if is_ancestor(k, parent as int, j) {
                                lemma_branch_toward(k, parent as int, j);
                            }
                        }
                    }
                },
                None => {
                    proof {
                        assert forall|j: int| occupied(slots, j) implies (#[trigger] covered(
                            k,
                            self.queue@,
                            j,
                        ) == (covered(k, rest, j) || (is_ancestor(k, parent as int, j)
                            && child_slot(k, branch_toward(k, parent as int, j)) < slot + 1))) by {
                            if is_ancestor(k, parent as int, j) {
                                lemma_branch_toward(k, parent as int, j);
                                let branch = branch_toward(k, parent as int, j);
                                if branch != j && child_slot(k, branch) == slot {
                                    lemma_ancestors_occupied(slots, k, branch, j);
                                }
                            }
                        }
                    }
                },
            }
            slot += 1;
        }
        proof {
            let after = self.queue@;
            let other = |j: int| occupied(slots, j) && covered(k, after, j);
            assert forall|j: int| 0 <= j < parent implies !#[trigger] keep(j) by {
                if covered(k, before, j) {
                    let x = choose|x: int|
                        0 <= x < before.len() && in_subtree(k, (#[trigger] before[x]) as int, j);
                    if before[x] as int != j {
                        lemma_ancestor_is_smaller(k, before[x] as int, j);
                    }
                    assert(before[0] <= before[x]);
                }
            }
            assert forall|j: int| 0 <= j < slots.len() implies #[trigger] other(j) == (keep(j)
                && j != parent) by {
                if occupied(slots, j) {
                    if covered(k, rest, j) {
                        let x = choose|x: int|
                            0 <= x < rest.len() && in_subtree(k, (#[trigger] rest[x]) as int, j);
                        assert(rest[x] == before[x + 1]);
                        assert(in_subtree(k, before[x + 1] as int, j));
                        if rest[x] as int != j {
                            lemma_ancestor_is_smaller(k, rest[x] as int, j);
                        }
                    }
                    if is_ancestor(k, parent as int, j) {
                        lemma_ancestor_is_smaller(k, parent as int, j);
                        lemma_branch_toward(k, parent as int, j);
                        assert(in_subtree(k, before[0] as int, j));
                        let toward = child_slot(k, branch_toward(k, parent as int, j));
                        assert(child_position(k, parent as int, toward) <= j);
                    }
                    if covered(k, before, j) {
                        let x = choose|x: int|
                            0 <= x < before.len() && in_subtree(k, (#[trigger] before[x]) as int, j);
                        if x > 0 {
                            assert(rest[x - 1] == before[x]);
                            assert(in_subtree(k, rest[x - 1] as int, j));
                        }
                    }
                }
            }
            assert(keep(parent as int)) by {
                assert(in_subtree(k, before[0] as int, parent as int));
            }
            lemma_select_drop_first(0, slots.len() as int, keep, other, parent as int);
            if after.len() > 0 {
                let first = after[0] as int;
                assert(parent * k + k <= first * k) by (nonlinear_arith)
                    requires
                        parent + 1 <= first,
                        k >= 0,
                ;
            }
        }
        Some(Node { tree: self.tree, index: parent })
    }
}

} // verus!
