//! Shared handles on occupied nodes.

use vstd::prelude::*;
use vstd::pervasive::unreached;
use crate::breadth_first_iterator::BreadthFirstIterator;
use crate::depth_first_iterator::DepthFirstIterator;
use crate::entry::{Entry, VacantEntry};
use crate::index::{child_position, lemma_child_then_parent, parent_position};
use crate::order::{breadth_first_order, depth_first_order, DepthFirstOrder};
use crate::slots::occupied;
use crate::tree::EtzyngerTree;

verus! {

/// A shared view of one occupied node: the tree and the node's position.
/// Any number of them may exist over one tree; none can change it.
pub struct Node<'a, N> {
    pub tree: &'a EtzyngerTree<N>,
    pub index: usize,
}

impl<'a, N> Clone for Node<'a, N> {
    fn clone(&self) -> (copy: Self)
        ensures
            copy == *self,
    {
        Node { tree: self.tree, index: self.index }
    }
}

impl<'a, N> Copy for Node<'a, N> {

}

impl<'a, N> Node<'a, N> {
    /// The handle is valid: the tree is well-formed and the slot at the
    /// handle's position is occupied.
    pub open spec fn wf(&self) -> bool {
        self.tree.wf() && occupied(self.tree@, self.index as int)
    }

    /// The position of the node in the tree's array.
    pub fn index(&self) -> (index: usize)
        ensures
            index == self.index,
    {
        self.index
    }

    /// The tree that the node belongs to.
    pub fn tree(&self) -> (tree: &'a EtzyngerTree<N>)
        ensures
            tree == self.tree,
    {
        self.tree
    }

    /// The value held by the node.
    pub fn value(&self) -> (value: &'a N)
        requires
            self.wf(),
        ensures
            Some(*value) == self.tree@[self.index as int],
    {
        self.tree.value(self.index).as_ref().unwrap()
    }

    /// The node above this one; none for the root.
    pub fn parent(&self) -> (result: Option<Node<'a, N>>)
        requires
            self.wf(),
        ensures
            result.is_some() == (self.index > 0),
            result.is_some() ==> result.unwrap().wf() && result.unwrap().tree == self.tree
                && result.unwrap().index == parent_position(
                self.tree.branching(),
                self.index as int,
            ),
    {
        proof {
            assert(self.tree@[self.index as int].is_some());
        }
        self.tree.parent(self.index)
    }

    /// The node in child slot `child`, if that slot is occupied.
    pub fn child(&self, child: usize) -> (result: Option<Node<'a, N>>)
        requires
            self.wf(),
            child < self.tree.branching(),
        ensures
            result.is_some() == occupied(
                self.tree@,
                child_position(self.tree.branching(), self.index as int, child as int),
            ),
            result.is_some() ==> result.unwrap().wf() && result.unwrap().tree == self.tree
                && result.unwrap().index == child_position(
                self.tree.branching(),
                self.index as int,
                child as int,
            ),
    {
        self.tree.child(self.index, child)
    }

    /// The place in child slot `child`, occupied or empty.
    pub fn child_entry(&self, child: usize) -> (entry: Entry<'a, N>)
        requires
            self.wf(),
            child < self.tree.branching(),
            child_position(self.tree.branching(), self.index as int, child as int) <= usize::MAX,
        ensures
            entry.wf(),
            entry.spec_tree() == self.tree,
            entry.spec_index() == child_position(
                self.tree.branching(),
                self.index as int,
                child as int,
            ),
            entry is Occupied == occupied(self.tree@, entry.spec_index() as int),
    {
        proof {
            lemma_child_then_parent(self.tree.branching(), self.index as int, child as int);
        }
        let index = match self.tree.child_index(self.index, child) {
            Ok(index) => index,
            Err(_) => unreached(),
        };
        match self.tree.node(index) {
            Some(node) => Entry::Occupied(node),
            None => Entry::Vacant(VacantEntry { tree: self.tree, index }),
        }
    }

    /// A depth-first traversal of the subtree rooted at this node.
    pub fn depth_first_iter(&self, order: DepthFirstOrder) -> (traversal: DepthFirstIterator<
        'a,
        N,
    >)
        requires
            self.wf(),
        ensures
            traversal.wf(),
            traversal.tree() == self.tree,
            traversal.order() == order,
            traversal.remaining() == depth_first_order(
                self.tree@,
                self.tree.branching(),
                order,
                self.index as int,
            ),
    {
        DepthFirstIterator::new(self.tree, Some(*self), order)
    }

    /// A breadth-first traversal of the subtree rooted at this node.
    pub fn breadth_first_iter(&self) -> (traversal: BreadthFirstIterator<'a, N>)
        requires
            self.wf(),
        ensures
            traversal.wf(),
            traversal.tree() == self.tree,
            traversal.remaining() == breadth_first_order(
                self.tree@,
                self.tree.branching(),
                self.index as int,
            ),
    {
        BreadthFirstIterator::new(self.tree, Some(*self))
    }
}

} // verus!
