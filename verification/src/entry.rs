//! Places in the tree that may or may not hold a value.

use vstd::prelude::*;
use crate::index::{
    in_subtree,
    lemma_ancestor_is_smaller,
    parent_position,
};
use crate::node::Node;
use crate::node_mut::NodeMut;
use crate::slots::{occupied, written};
use crate::tree::EtzyngerTree;

verus! {

/// A shared view of an empty place: the tree and the position at which a
/// value could be written. The place is the root of an empty tree or an
/// empty child slot of an occupied node.
pub struct VacantEntry<'a, N> {
    pub tree: &'a EtzyngerTree<N>,
    pub index: usize,
}

impl<'a, N> Clone for VacantEntry<'a, N> {
    fn clone(&self) -> (copy: Self)
        ensures
            copy == *self,
    {
        VacantEntry { tree: self.tree, index: self.index }
    }
}

impl<'a, N> Copy for VacantEntry<'a, N> {

}

impl<'a, N> VacantEntry<'a, N> {
    /// The entry is valid: the tree is well-formed, the place is empty, and
    /// it is the root or lies under an occupied parent.
    pub open spec fn wf(&self) -> bool {
        &&& self.tree.wf()
        &&& !occupied(self.tree@, self.index as int)
        &&& self.index > 0 ==> self.tree.branching() > 0 && occupied(
            self.tree@,
            parent_position(self.tree.branching(), self.index as int),
        )
    }

    /// The position of the place in the tree's array.
    pub fn index(&self) -> (index: usize)
        ensures
            index == self.index,
    {
        self.index
    }
}

/// A shared view of a place in the tree: an occupied node or an empty place.
pub enum Entry<'a, N> {
    Occupied(Node<'a, N>),
    Vacant(VacantEntry<'a, N>),
}

impl<'a, N> Clone for Entry<'a, N> {
    fn clone(&self) -> (copy: Self)
        ensures
            copy == *self,
    {
        match self {
            Entry::Occupied(node) => Entry::Occupied(*node),
            Entry::Vacant(vacant) => Entry::Vacant(*vacant),
        }
    }
}

impl<'a, N> Copy for Entry<'a, N> {

}

impl<'a, N> Entry<'a, N> {
    /// The tree that the place belongs to.
    pub open spec fn spec_tree(&self) -> &'a EtzyngerTree<N> {
        match self {
            Entry::Occupied(node) => node.tree,
            Entry::Vacant(vacant) => vacant.tree,
        }
    }

    /// The position of the place.
    pub open spec fn spec_index(&self) -> usize {
        match self {
            Entry::Occupied(node) => node.index,
            Entry::Vacant(vacant) => vacant.index,
        }
    }

    /// The entry is valid: what it wraps is.
    pub open spec fn wf(&self) -> bool {
        match self {
            Entry::Occupied(node) => node.wf(),
            Entry::Vacant(vacant) => vacant.wf(),
        }
    }

    /// The position of the place in the tree's array.
    pub fn index(&self) -> (index: usize)
        ensures
            index == self.spec_index(),
    {
        match self {
            Entry::Occupied(node) => node.index,
            Entry::Vacant(vacant) => vacant.index,
        }
    }

    /// The tree that the place belongs to.
    pub fn tree(&self) -> (tree: &'a EtzyngerTree<N>)
        ensures
            tree == self.spec_tree(),
    {
        match self {
            Entry::Occupied(node) => node.tree,
            Entry::Vacant(vacant) => vacant.tree,
        }
    }

    /// The node above the place; none for the root.
    pub fn parent(&self) -> (result: Option<Node<'a, N>>)
        requires
            self.wf(),
        ensures
            result.is_some() == (self.spec_index() > 0),
            result.is_some() ==> result.unwrap().wf() && result.unwrap().tree == self.spec_tree()
                && result.unwrap().index == parent_position(
                self.spec_tree().branching(),
                self.spec_index() as int,
            ),
    {
        let tree = self.tree();
        let index = self.index();
        proof {
            if index > 0 && self is Occupied {
                assert(tree@[index as int].is_some());
            }
        }
        match tree.parent_index(index) {
            Some(parent_index) => Some(Node { tree, index: parent_index }),
            None => None,
        }
    }
}

/// An exclusive view of an empty place: the tree, the position at which a
/// value can be written, and the position at which the session began.
pub struct VacantEntryMut<'a, N> {
    pub tree: &'a mut EtzyngerTree<N>,
    pub index: usize,
    pub origin: usize,
}

impl<'a, N> VacantEntryMut<'a, N> {
    /// The entry is valid: the tree is well-formed, the place is empty, it is
    /// the root or lies under an occupied parent, and it lies in the subtree
    /// of the session's origin.
    pub open spec fn wf(&self) -> bool {
        &&& self.tree.wf()
        &&& !occupied(self.tree@, self.index as int)
        &&& self.index > 0 ==> self.tree.branching() > 0 && occupied(
            self.tree@,
            parent_position(self.tree.branching(), self.index as int),
        )
        &&& in_subtree(self.tree.branching(), self.origin as int, self.index as int)
    }

    /// The position of the place in the tree's array.
    pub fn index(&self) -> (index: usize)
        ensures
            index == self.index,
    {
        self.index
    }

    /// Writes `value` into the empty place and gives a handle on the new
    /// node, in the same session.
    pub fn insert(self, value: N) -> (node: NodeMut<'a, N>)
        requires
            self.wf(),
            self.index < usize::MAX,
        ensures
            node.wf(),
            node.index == self.index,
            node.origin == self.origin,
            node.tree@ == written(
                old(self.tree)@,
                old(self.tree).branching(),
                self.index as int,
                Some(value),
            ),
            node.tree.branching() == old(self.tree).branching(),
            node.tree.spec_len() == old(self.tree).spec_len() + 1,
            *final(node.tree) == *final(self.tree),
    {
        let node = self.tree.set_value(self.index, Some(value));
        NodeMut { tree: node.tree, index: node.index, origin: self.origin }
    }
}

/// An exclusive view of a place in the tree: an occupied node or an empty
/// place.
pub enum EntryMut<'a, N> {
    Occupied(NodeMut<'a, N>),
    Vacant(VacantEntryMut<'a, N>),
}

impl<'a, N> EntryMut<'a, N> {
    /// The exclusive reference to the tree that the entry holds.
    pub open spec fn tree_ref(self) -> &'a mut EtzyngerTree<N> {
        match self {
            EntryMut::Occupied(node) => node.tree,
            EntryMut::Vacant(vacant) => vacant.tree,
        }
    }

    /// The position of the place.
    pub open spec fn spec_index(&self) -> usize {
        match self {
            EntryMut::Occupied(node) => node.index,
            EntryMut::Vacant(vacant) => vacant.index,
        }
    }

    /// The position at which the session began.
    pub open spec fn spec_origin(&self) -> usize {
        match self {
            EntryMut::Occupied(node) => node.origin,
            EntryMut::Vacant(vacant) => vacant.origin,
        }
    }

    /// The entry is valid: what it wraps is.
    pub open spec fn wf(&self) -> bool {
        match self {
            EntryMut::Occupied(node) => node.wf(),
            EntryMut::Vacant(vacant) => vacant.wf(),
        }
    }

    /// The position of the place in the tree's array.
    pub fn index(&self) -> (index: usize)
        ensures
            index == self.spec_index(),
    {
        match self {
            EntryMut::Occupied(node) => node.index,
            EntryMut::Vacant(vacant) => vacant.index,
        }
    }

    /// A shared view of the same place.
    pub fn as_entry(&self) -> (entry: Entry<'_, N>)
        requires
            self.wf(),
        ensures
            entry.wf(),
            *entry.spec_tree() == *old(self.tree_ref()),
            entry.spec_index() == self.spec_index(),
            entry is Occupied == self is Occupied,
    {
        match self {
            EntryMut::Occupied(node) => Entry::Occupied(
                Node { tree: &*node.tree, index: node.index },
            ),
            EntryMut::Vacant(vacant) => Entry::Vacant(
                VacantEntry { tree: &*vacant.tree, index: vacant.index },
            ),
        }
    }

    /// Moves up to the parent. Fails, handing this entry back, at the
    /// position where the session began.
    pub fn to_parent(self) -> (result: Result<NodeMut<'a, N>, EntryMut<'a, N>>)
        requires
            self.wf(),
        ensures
            result.is_ok() == (self.spec_index() != self.spec_origin()),
            match result {
                Ok(node) => node.wf() && node.index == parent_position(
                    old(self.tree_ref()).branching(),
                    self.spec_index() as int,
                ) && node.origin == self.spec_origin() && *node.tree == *old(self.tree_ref())
                    && *final(node.tree) == *final(self.tree_ref()),
                Err(entry) => entry.wf() && entry.spec_index() == self.spec_index()
                    && entry.spec_origin() == self.spec_origin() && entry is Occupied
                    == self is Occupied && *entry.tree_ref() == *old(self.tree_ref()) && *final(entry.tree_ref()) == *final(self.tree_ref()),
            },
    {
        match self {
            EntryMut::Occupied(node) => match node.to_parent() {
                Ok(parent) => Ok(parent),
                Err(node) => Err(EntryMut::Occupied(node)),
            },
            EntryMut::Vacant(vacant) => {
                if vacant.index == vacant.origin {
                    return Err(EntryMut::Vacant(vacant));
                }
                let ghost k = vacant.tree.branching();
                proof {
                    lemma_ancestor_is_smaller(k, vacant.origin as int, vacant.index as int);
                }
                match vacant.tree.parent_index(vacant.index) {
                    Some(parent_index) => Ok(
                        NodeMut { tree: vacant.tree, index: parent_index, origin: vacant.origin },
                    ),
                    None => Err(EntryMut::Vacant(vacant)),
                }
            },
        }
    }
}

} // verus!
