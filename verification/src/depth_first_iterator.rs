//! Depth-first traversal, one node per call.

use vstd::prelude::*;
use crate::index::{child_position, lemma_child_then_parent};
use crate::node::Node;
use crate::order::{children_order, depth_first_order, lemma_children_beyond, DepthFirstOrder};
use crate::slots::occupied;
use crate::tree::EtzyngerTree;

verus! {

/// One entry of the traversal's stack: a position that is still to be
/// yielded, and whether its children have been put on the stack already.
#[derive(Clone, Copy)]
struct Frame {
    index: usize,
    expanded: bool,
}

/// What one stack entry stands for: the position alone once its children
/// have been put on the stack, its whole subtree before.
spec fn frame_order<N>(
    slots: Seq<Option<N>>,
    k: int,
    order: DepthFirstOrder,
    frame: Frame,
) -> Seq<int> {
    if frame.expanded {
        seq![frame.index as int]
    } else {
        depth_first_order(slots, k, order, frame.index as int)
    }
}

/// What a stack stands for: its entries from the top down, one after the
/// other.
spec fn stack_order<N>(
    slots: Seq<Option<N>>,
    k: int,
    order: DepthFirstOrder,
    stack: Seq<Frame>,
) -> Seq<int>
    decreases stack.len(),
{
    if stack.len() == 0 {
        Seq::empty()
    } else {
        frame_order(slots, k, order, stack.last()) + stack_order(
            slots,
            k,
            order,
            stack.drop_last(),
        )
    }
}

/// How far the entry on top of the stack is from being yielded.
spec fn top_distance(stack: Seq<Frame>, len: nat) -> nat {
    if stack.len() == 0 {
        0
    } else if stack.last().expanded {
        (2 * (len - stack.last().index)) as nat
    } else {
        (2 * (len - stack.last().index) + 1) as nat
    }
}

/// A depth-first traversal of a subtree in progress. Each call of `next`
/// yields the next node; the traversal cannot be restarted.
pub struct DepthFirstIterator<'a, N> {
    tree: &'a EtzyngerTree<N>,
    order: DepthFirstOrder,
    stack: Vec<Frame>,
}

impl<'a, N> DepthFirstIterator<'a, N> {
    /// The tree that is traversed.
    pub closed spec fn tree(&self) -> &'a EtzyngerTree<N> {
        self.tree
    }

    /// The order of the traversal.
    pub closed spec fn order(&self) -> DepthFirstOrder {
        self.order
    }

    /// The positions that are still to be yielded, in the order in which
    /// `next` will yield them.
    pub closed spec fn remaining(&self) -> Seq<int> {
        stack_order(self.tree@, self.tree.branching(), self.order, self.stack@)
    }

    /// The invariant of the traversal: the tree is well-formed and every
    /// position on the stack is occupied.
    pub closed spec fn wf(&self) -> bool {
        &&& self.tree.wf()
        &&& forall|i: int|
            0 <= i < self.stack@.len() ==> occupied(self.tree@, (#[trigger] self.stack@[i]).index as int)
    }

    /// Starts a traversal of the subtree rooted at `root`; of nothing where
    /// `root` is absent.
    pub fn new(tree: &'a EtzyngerTree<N>, root: Option<Node<'a, N>>, order: DepthFirstOrder) -> (it:
        Self)
        requires
            tree.wf(),
            root.is_some() ==> root.unwrap().wf() && root.unwrap().tree == tree,
        ensures
            it.wf(),
            it.tree() == tree,
            it.order() == order,
            it.remaining() == match root {
                Some(node) => depth_first_order(tree@, tree.branching(), order, node.index as int),
                None => Seq::<int>::empty(),
            },
    {
        let mut stack = Vec::new();
        if let Some(node) = root {
            stack.push(Frame { index: node.index, expanded: false });
            proof {
                assert(stack@.drop_last() =~= Seq::<Frame>::empty());
                assert(stack_order(tree@, tree.branching(), order, Seq::<Frame>::empty())
                    =~= Seq::<int>::empty());
                assert(stack_order(tree@, tree.branching(), order, stack@) =~= depth_first_order(
                    tree@,
                    tree.branching(),
                    order,
                    node.index as int,
                ));
            }
        }
        DepthFirstIterator { tree, order, stack }
    }

    /// Puts the occupied children of the node at `parent` on the stack, the
    /// last child first, so that the first child ends on top.
    fn push_children(&mut self, parent: usize)
        requires
            old(self).wf(),
            occupied(old(self).tree@, parent as int),
        ensures
            final(self).wf(),
            final(self).tree == old(self).tree,
            final(self).order == old(self).order,
            stack_order(
                final(self).tree@,
                final(self).tree.branching(),
                final(self).order,
                final(self).stack@,
            ) == children_order(
                old(self).tree@,
                old(self).tree.branching(),
                old(self).order,
                parent as int,
                0,
            ) + stack_order(
                old(self).tree@,
                old(self).tree.branching(),
                old(self).order,
                old(self).stack@,
            ),
            final(self).stack@.len() >= old(self).stack@.len(),
            final(self).stack@.subrange(0, old(self).stack@.len() as int) == old(self).stack@,
            forall|i: int|
                old(self).stack@.len() <= i < final(self).stack@.len() ==> !(
                #[trigger] final(self).stack@[i]).expanded && final(self).stack@[i].index > parent,
    {
        let ghost slots = self.tree@;
        let ghost k = self.tree.branching();
        let ghost below = stack_order(slots, k, self.order, self.stack@);
        let ghost before = self.stack@;
        let mut slot: usize = self.tree.child_limit(parent);
        proof {
            assert(self.stack@.subrange(0, before.len() as int) =~= before);
            if slot < k {
                assert(child_position(k, parent as int, slot as int) >= slots.len());
                lemma_children_beyond(slots, k, self.order, parent as int, slot as int);
            }
            assert(children_order(slots, k, self.order, parent as int, slot as int) + below
                =~= below);
        }
        while slot > 0
            invariant
                self.wf(),
                self.tree == old(self).tree,
                self.order == old(self).order,
                slots == self.tree@,
                k == self.tree.branching(),
                below == stack_order(slots, k, self.order, before),
                before == old(self).stack@,
                occupied(slots, parent as int),
                0 <= slot <= k,
                stack_order(slots, k, self.order, self.stack@) == children_order(
                    slots,
                    k,
                    self.order,
                    parent as int,
                    slot as int,
                ) + below,
                self.stack@.len() >= before.len(),
                self.stack@.subrange(0, before.len() as int) == before,
                forall|i: int|
                    before.len() <= i < self.stack@.len() ==> !(#[trigger] self.stack@[i]).expanded
                        && self.stack@[i].index > parent,
            decreases slot,
        {
            slot = slot - 1;
            let ghost after = children_order(slots, k, self.order, parent as int, slot + 1);
            let ghost child = child_position(k, parent as int, slot as int);
            proof {
                lemma_child_then_parent(k, parent as int, slot as int);
            }
            if let Some(node) = self.tree.child(parent, slot) {
                let ghost stack = self.stack@;
                let frame = Frame { index: node.index, expanded: false };
                self.stack.push(frame);
                proof {
                    assert(self.stack@.drop_last() =~= stack);
                    assert(self.stack@.subrange(0, before.len() as int) =~= stack.subrange(
                        0,
                        before.len() as int,
                    ));
                    assert(stack_order(slots, k, self.order, self.stack@) =~= depth_first_order(
                        slots,
                        k,
                        self.order,
                        child,
                    ) + (after + below));
                    assert(depth_first_order(slots, k, self.order, child) + (after + below)
                        =~= (depth_first_order(slots, k, self.order, child) + after) + below);
                }
            } else {
                proof {
                    assert(depth_first_order(slots, k, self.order, child) + after =~= after);
                }
            }
        }
    }

    /// Yields the next node of the traversal, or nothing once every node has
    /// been yielded.
    pub fn next(&mut self) -> (result: Option<Node<'a, N>>)
        requires
            old(self).wf(),
        ensures
            final(self).wf(),
            final(self).tree() == old(self).tree(),
            final(self).order() == old(self).order(),
            old(self).remaining().len() == 0 ==> result.is_none() && final(self).remaining()
                == old(self).remaining(),
            old(self).remaining().len() > 0 ==> result.is_some() && result.unwrap().tree == old(
                self,
            ).tree() && result.unwrap().index == old(self).remaining()[0] && result.unwrap().wf()
                && final(self).remaining() == old(self).remaining().skip(1),
    {
        let ghost slots = self.tree@;
        let ghost k = self.tree.branching();
        let ghost all = self.remaining();
        loop
            invariant
                self.wf(),
                self.tree == old(self).tree,
                self.order == old(self).order,
                slots == self.tree@,
                k == self.tree.branching(),
                all == old(self).remaining(),
                all == stack_order(slots, k, self.order, self.stack@),
            decreases top_distance(self.stack@, slots.len()),
        {
            let ghost stack = self.stack@;
            let frame = match self.stack.pop() {
                Some(frame) => frame,
                None => {
                    return None;
                },
            };
            let ghost rest = stack_order(slots, k, self.order, self.stack@);
            let ghost below = children_order(slots, k, self.order, frame.index as int, 0);
            proof {
                assert(self.stack@ =~= stack.drop_last());
                assert(frame == stack.last());
                assert(all == frame_order(slots, k, self.order, frame) + rest);
                assert(occupied(slots, stack[stack.len() - 1].index as int));
            }
            let node = Node { tree: self.tree, index: frame.index };
            if frame.expanded {
                proof {
                    assert(all.skip(1) =~= rest);
                }
                return Some(node);
            }
            match self.order {
                DepthFirstOrder::PreOrder => {
                    self.push_children(frame.index);
                    proof {
                        assert(all =~= seq![frame.index as int] + (below + rest));
                        assert(all.skip(1) =~= below + rest);
                    }
                    return Some(node);
                },
                DepthFirstOrder::PostOrder => {
                    let ghost popped = self.stack@;
                    self.stack.push(Frame { index: frame.index, expanded: true });
                    proof {
                        assert(self.stack@.drop_last() =~= popped);
                        assert(stack_order(slots, k, self.order, self.stack@) =~= seq![
                            frame.index as int,
                        ] + rest);
                    }
                    let ghost marked = self.stack@;
                    self.push_children(frame.index);
                    proof {
                        assert(all =~= below + (seq![frame.index as int] + rest));
                        if self.stack@.len() == marked.len() {
                            assert(self.stack@ =~= self.stack@.subrange(0, marked.len() as int));
                        }
                    }
                },
            }
        }
    }
}

} // verus!
