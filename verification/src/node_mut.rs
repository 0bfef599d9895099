//! Exclusive handles on nodes.

use vstd::prelude::*;
use vstd::pervasive::unreached;
use crate::index::{
    child_position,
    in_subtree,
    is_ancestor,
    lemma_ancestor_is_smaller,
    lemma_ancestor_of_child,
    parent_position,
};
use crate::entry::{EntryMut, VacantEntryMut};
use crate::index::lemma_child_then_parent;
use crate::node::Node;
use crate::slots::{lemma_ancestors_occupied, occupied, written, written_len};
use crate::tree::EtzyngerTree;

verus! {

/// An exclusive view of one occupied node: the tree, the node's position, and
/// the position at which this exclusive session began. The handle may move
/// down into the subtree of `origin` and back up, never above `origin`.
///
/// Moving consumes the handle and gives a new one, so that at most one
/// handle of a session can be used at any time.
pub struct NodeMut<'a, N> {
    pub tree: &'a mut EtzyngerTree<N>,
    pub index: usize,
    pub origin: usize,
}

impl<'a, N> NodeMut<'a, N> {
    /// The handle is valid: the tree is well-formed, the slot at the
    /// handle's position is occupied, and the position lies in the subtree of
    /// the session's origin.
    pub open spec fn wf(&self) -> bool {
        &&& self.tree.wf()
        &&& occupied(self.tree@, self.index as int)
        &&& in_subtree(self.tree.branching(), self.origin as int, self.index as int)
    }

    /// The position of the node in the tree's array.
    pub fn index(&self) -> (index: usize)
        ensures
            index == self.index,
    {
        self.index
    }

    /// The value held by the node.
    pub fn value(&self) -> (value: &N)
        requires
            self.wf(),
        ensures
            Some(*value) == old(self.tree)@[self.index as int],
    {
        self.tree.value(self.index).as_ref().unwrap()
    }

    /// Exclusive access to the value held by the node. The value may change;
    /// nothing else does.
    pub fn value_mut(&mut self) -> (value: &mut N)
        requires
            old(self).wf(),
        ensures
            Some(*value) == old(self).tree@[old(self).index as int],
            final(self).index == old(self).index,
            final(self).origin == old(self).origin,
            final(self).tree@ == old(self).tree@.update(
                old(self).index as int,
                Some(*final(value)),
            ),
            final(self).tree.branching() == old(self).tree.branching(),
            final(self).tree.spec_len() == old(self).tree.spec_len(),
            final(self).wf(),
            *final(final(self).tree) == *final(old(self).tree),
    {
        self.tree.value_mut(self.index)
    }

    /// A shared view of the same node.
    pub fn as_node(&self) -> (node: Node<'_, N>)
        ensures
            *node.tree == *old(self.tree),
            node.index == self.index,
    {
        Node { tree: &*self.tree, index: self.index }
    }

    /// Sets or removes the value of child `child` and gives a handle at the
    /// child's position, which begins a session there and is valid exactly if
    /// a value was set. Removing a value empties every slot below the child
    /// as well. While the child's handle is in use this handle is not.
    ///
    /// What is written is what the conversion of `value` returns: the tree
    /// afterwards is the tree with exactly that written at the child's
    /// position.
    pub fn set_child_value<V>(&mut self, child: usize, value: V) -> (node: NodeMut<'_, N>) where
        V: Into<Option<N>>,

        requires
            old(self).wf(),
            child < old(self).tree.branching(),
            child_position(old(self).tree.branching(), old(self).index as int, child as int)
                < usize::MAX,
        ensures
            node.index == child_position(
                old(self).tree.branching(),
                old(self).index as int,
                child as int,
            ),
            node.origin == node.index,
            node.tree.wf(),
            node.tree.branching() == old(self).tree.branching(),
            exists|new_value: Option<N>|
                call_ensures(<V as Into<Option<N>>>::into, (value,), new_value) && node.tree@
                    == written(
                    old(self).tree@,
                    old(self).tree.branching(),
                    node.index as int,
                    new_value,
                ) && node.tree.spec_len() == written_len(
                    old(self).tree@,
                    old(self).tree.branching(),
                    node.index as int,
                    new_value,
                ) && node.wf() == new_value.is_some(),
            node.tree@[old(self).index as int] == old(self).tree@[old(self).index as int],
            final(self).index == old(self).index,
            final(self).origin == old(self).origin,
            *final(self).tree == *final(node.tree),
            *final(final(self).tree) == *final(old(self).tree),
    {
        let new_value: Option<N> = value.into();
        proof {
            let k = self.tree.branching();
            let position = child_position(k, self.index as int, child as int);
            lemma_child_then_parent(k, self.index as int, child as int);
            if is_ancestor(k, position, self.index as int) {
                lemma_ancestor_is_smaller(k, position, self.index as int);
            }
        }
        self.tree.set_child_value(self.index, child, new_value)
    }

    /// An exclusive handle on child `child`, if that slot is occupied. It
    /// begins a session at the child. While it is in use this handle is not.
    pub fn child_mut(&mut self, child: usize) -> (result: Option<NodeMut<'_, N>>)
        requires
            old(self).wf(),
            child < old(self).tree.branching(),
        ensures
            result.is_some() == occupied(
                old(self).tree@,
                child_position(old(self).tree.branching(), old(self).index as int, child as int),
            ),
            final(self).index == old(self).index,
            final(self).origin == old(self).origin,
            *final(final(self).tree) == *final(old(self).tree),
            match result {
                Some(node) => node.wf() && node.index == child_position(
                    old(self).tree.branching(),
                    old(self).index as int,
                    child as int,
                ) && node.origin == node.index && *node.tree == *old(self).tree && *final(self).tree == *final(node.tree),
                None => *final(self).tree == *old(self).tree,
            },
    {
        match self.tree.child_mut(self.index, child) {
            Ok(node) => Some(node),
            Err(_) => None,
        }
    }

    /// Moves up to the parent. Fails, handing this handle back, at the
    /// position where the session began: a session never leaves the subtree
    /// it was given.
    pub fn to_parent(self) -> (result: Result<NodeMut<'a, N>, NodeMut<'a, N>>)
        requires
            self.wf(),
        ensures
            result.is_ok() == (self.index != self.origin),
            match result {
                Ok(node) => node.wf() && node.index == parent_position(
                    old(self.tree).branching(),
                    self.index as int,
                ),
                Err(node) => node.index == self.index,
            },
            match result {
                Ok(node) | Err(node) => node.origin == self.origin && *node.tree == *old(self.tree) && *final(node.tree) == *final(self.tree),
            },
    {
        if self.index == self.origin {
            return Err(self);
        }
        let ghost k = self.tree.branching();
        proof {
            lemma_ancestor_is_smaller(k, self.origin as int, self.index as int);
            let parent = parent_position(k, self.index as int);
            if parent != self.origin {
                lemma_ancestors_occupied(self.tree@, k, parent, self.index as int);
            }
            assert(self.tree@[self.index as int].is_some());
        }
        match self.tree.parent_index(self.index) {
            Some(parent_index) => Ok(
                NodeMut { tree: self.tree, index: parent_index, origin: self.origin },
            ),
            None => Err(self),
        }
    }

    /// Moves down to child `child`. Fails, handing this handle back, if that
    /// slot is empty.
    pub fn to_child(self, child: usize) -> (result: Result<NodeMut<'a, N>, NodeMut<'a, N>>)
        requires
            self.wf(),
            child < old(self.tree).branching(),
        ensures
            result.is_ok() == occupied(
                old(self.tree)@,
                child_position(old(self.tree).branching(), self.index as int, child as int),
            ),
            match result {
                Ok(node) => node.wf() && node.index == child_position(
                    old(self.tree).branching(),
                    self.index as int,
                    child as int,
                ),
                Err(node) => node.index == self.index,
            },
            match result {
                Ok(node) | Err(node) => node.origin == self.origin && *node.tree == *old(self.tree) && *final(node.tree) == *final(self.tree),
            },
    {
        let ghost k = self.tree.branching();
        proof {
            lemma_ancestor_of_child(k, self.origin as int, self.index as int, child as int);
        }
        match self.tree.child_index(self.index, child) {
            Ok(child_index) => {
                if self.tree.node(child_index).is_some() {
                    Ok(NodeMut { tree: self.tree, index: child_index, origin: self.origin })
                } else {
                    Err(self)
                }
            },
            Err(_) => Err(self),
        }
    }

    /// Moves down to the place in child slot `child`, occupied or empty.
    pub fn to_child_entry(self, child: usize) -> (entry: EntryMut<'a, N>)
        requires
            self.wf(),
            child < old(self.tree).branching(),
            child_position(old(self.tree).branching(), self.index as int, child as int)
                <= usize::MAX,
        ensures
            entry.wf(),
            entry.spec_index() == child_position(
                old(self.tree).branching(),
                self.index as int,
                child as int,
            ),
            entry.spec_origin() == self.origin,
            entry is Occupied == occupied(old(self.tree)@, entry.spec_index() as int),
            *entry.tree_ref() == *old(self.tree),
            *final(entry.tree_ref()) == *final(self.tree),
    {
        let ghost k = self.tree.branching();
        proof {
            lemma_ancestor_of_child(k, self.origin as int, self.index as int, child as int);
            lemma_child_then_parent(k, self.index as int, child as int);
        }
        let index = match self.tree.child_index(self.index, child) {
            Ok(index) => index,
            Err(_) => unreached(),
        };
        if self.tree.node(index).is_some() {
            EntryMut::Occupied(NodeMut { tree: self.tree, index, origin: self.origin })
        } else {
            EntryMut::Vacant(VacantEntryMut { tree: self.tree, index, origin: self.origin })
        }
    }
}

} // verus!
