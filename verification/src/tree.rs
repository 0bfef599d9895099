//! The tree itself: a growable sequence of optional values addressed by
//! position, the number of occupied slots, and the branching factor.

use vstd::prelude::*;
use vstd::pervasive::unreached;
use crate::breadth_first_iterator::BreadthFirstIterator;
use crate::depth_first_iterator::DepthFirstIterator;
use crate::entry::{Entry, EntryMut, VacantEntry, VacantEntryMut};
use crate::index::{
    child_position,
    in_subtree,
    is_ancestor,
    lemma_ancestor_is_smaller,
    lemma_child_then_parent,
    lemma_parent_bounds,
    parent_position,
};
use crate::node::Node;
use crate::node_mut::NodeMut;
use crate::order::{
    breadth_first_order,
    depth_first_order,
    lemma_breadth_first_empty,
    lemma_depth_first_complete,
    lemma_depth_first_sound,
    DepthFirstOrder,
};
use crate::slots::{
    count_occupied,
    lemma_ancestors_occupied,
    lemma_count_bounded,
    lemma_count_positive,
    lemma_count_push,
    lemma_count_update,
    lemma_count_zero,
    lemma_value_change,
    lemma_written_absence_count,
    lemma_written_value_count,
    lemma_written_wf,
    occupied,
    slots_wf,
    subtree_count,
    written,
    written_len,
};

verus! {

/// Why a child position could not be computed.
#[derive(Clone, Copy, PartialEq, Eq, Structural, Debug, Hash)]
pub enum IndexError {
    /// The child slot is not below the branching factor.
    SlotOutOfRange,
    /// The position does not fit in a `usize`.
    PositionOverflow,
}

/// An N-ary tree stored in one array: the root at position 0, child `c` of the
/// node at position `p` at `p * k + c + 1`, where `k` is the maximum number of
/// children per node.
///
/// A branching factor of 0 is accepted and gives a tree that can hold a root
/// and nothing else: every child slot is then out of range.
#[derive(Debug, Clone, Eq, PartialEq, Hash)]
pub struct EtzyngerTree<N> {
    nodes: Vec<Option<N>>,
    max_children_per_node: usize,
    len: usize,
}

impl<N> EtzyngerTree<N> {
    /// The slots of the tree, by position.
    pub closed spec fn view(&self) -> Seq<Option<N>> {
        self.nodes@
    }

    /// The maximum number of children per node.
    pub closed spec fn branching(&self) -> int {
        self.max_children_per_node as int
    }

    /// The recorded number of occupied slots.
    pub closed spec fn spec_len(&self) -> nat {
        self.len as nat
    }

    /// The invariant of the tree: the root slot exists, no slot but the root
    /// is occupied under an empty parent, and the recorded count is the
    /// number of occupied slots.
    pub open spec fn wf(&self) -> bool {
        &&& slots_wf(self@, self.branching())
        &&& self.spec_len() == count_occupied(self@)
        &&& 0 <= self.branching() <= usize::MAX
        &&& self@.len() <= usize::MAX
    }

    /// Creates an empty tree with the given maximum number of children per
    /// node.
    pub fn new(max_children_per_node: usize) -> (tree: Self)
        ensures
            tree.wf(),
            tree@ == seq![None::<N>],
            tree.branching() == max_children_per_node,
            tree.spec_len() == 0,
    {
        let mut nodes = Vec::new();
        nodes.push(None);
        proof {
            assert(nodes@ =~= seq![None::<N>]);
            lemma_count_zero(nodes@);
        }
        Self { nodes, max_children_per_node, len: 0 }
    }

    /// Whether the tree holds no value.
    pub fn is_empty(&self) -> (empty: bool)
        ensures
            empty == (self.spec_len() == 0),
    {
        self.len() == 0
    }

    /// The number of values in the tree.
    pub fn len(&self) -> (len: usize)
        ensures
            len == self.spec_len(),
    {
        self.len
    }

    /// The maximum number of children per node.
    pub fn max_children_per_node(&self) -> (k: usize)
        ensures
            k == self.branching(),
    {
        self.max_children_per_node
    }

    /// Removes every value and shrinks the storage back to the root slot.
    pub fn clear(&mut self)
        requires
            old(self).wf(),
        ensures
            final(self).wf(),
            final(self)@ == seq![None::<N>],
            final(self).branching() == old(self).branching(),
            final(self).spec_len() == 0,
    {
        self.nodes.truncate(1);
        self.nodes[0] = None;
        self.len = 0;
        proof {
            assert(self.nodes@ =~= seq![None::<N>]);
            lemma_count_zero(self.nodes@);
        }
    }

    /// The position of child `child` of the node at `parent`.
    ///
    /// Fails with `SlotOutOfRange` exactly if `child` is not below the
    /// branching factor, and otherwise with `PositionOverflow` exactly if the
    /// position exceeds `usize::MAX`.
    pub fn child_index(&self, parent: usize, child: usize) -> (result: Result<usize, IndexError>)
        ensures
            child >= self.branching() ==> result == Err::<usize, IndexError>(
                IndexError::SlotOutOfRange,
            ),
            child < self.branching() && child_position(self.branching(), parent as int, child as int)
                > usize::MAX ==> result == Err::<usize, IndexError>(IndexError::PositionOverflow),
            child < self.branching() && child_position(self.branching(), parent as int, child as int)
                <= usize::MAX ==> result == Ok::<usize, IndexError>(
                child_position(self.branching(), parent as int, child as int) as usize,
            ),
    {
        if child >= self.max_children_per_node {
            return Err(IndexError::SlotOutOfRange);
        }
        let base = match parent.checked_mul(self.max_children_per_node) {
            Some(base) => base,
            None => {
                return Err(IndexError::PositionOverflow);
            },
        };
        let offset = match base.checked_add(child) {
            Some(offset) => offset,
            None => {
                return Err(IndexError::PositionOverflow);
            },
        };
        match offset.checked_add(1) {
            Some(position) => Ok(position),
            None => Err(IndexError::PositionOverflow),
        }
    }

    /// The position of the parent of the node at `child`: none for the root,
    /// and none where the branching factor is 0 and no position but the root
    /// exists.
    pub fn parent_index(&self, child: usize) -> (result: Option<usize>)
        ensures
            result == if child == 0 || self.branching() == 0 {
                None::<usize>
            } else {
                Some(parent_position(self.branching(), child as int) as usize)
            },
            result.is_some() ==> result.unwrap() < child,
    {
        if child == 0 || self.max_children_per_node == 0 {
            None
        } else {
            proof {
                lemma_parent_bounds(self.max_children_per_node as int, child as int);
            }
            Some((child - 1) / self.max_children_per_node)
        }
    }

    /// The number of child slots of the node at `parent` that lie inside the
    /// array. A child slot from that number on is empty, and so is
    /// everything below it.
    pub(crate) fn child_limit(&self, parent: usize) -> (limit: usize)
        requires
            self.wf(),
        ensures
            limit <= self.branching(),
            forall|slot: int|
                limit <= slot < self.branching() ==> #[trigger] child_position(
                    self.branching(),
                    parent as int,
                    slot,
                ) >= self@.len(),
            forall|slot: int|
                0 <= slot < limit ==> #[trigger] child_position(self.branching(), parent as int, slot)
                    < self@.len(),
    {
        match self.child_index(parent, 0) {
            Ok(first) => {
                if first < self.nodes.len() {
                    let inside = self.nodes.len() - first;
                    if inside < self.max_children_per_node {
                        inside
                    } else {
                        self.max_children_per_node
                    }
                } else {
                    0
                }
            },
            Err(_) => 0,
        }
    }

    /// A handle on the node at `index`, if the slot is occupied.
    pub fn node(&self, index: usize) -> (result: Option<Node<'_, N>>)
        ensures
            result.is_some() == occupied(self@, index as int),
            result.is_some() ==> result.unwrap().tree == self && result.unwrap().index == index,
    {
        if index < self.nodes.len() && self.nodes[index].is_some() {
            Some(Node { tree: self, index })
        } else {
            None
        }
    }

    /// The slot at `index`.
    pub fn value(&self, index: usize) -> (slot: &Option<N>)
        requires
            index < self@.len(),
        ensures
            *slot == self@[index as int],
    {
        &self.nodes[index]
    }

    /// Exclusive access to the value at `index`. The value may change; the
    /// slot stays occupied.
    pub fn value_mut(&mut self, index: usize) -> (value: &mut N)
        requires
            occupied(old(self)@, index as int),
        ensures
            Some(*value) == old(self)@[index as int],
            final(self)@ == old(self)@.update(index as int, Some(*final(value))),
            final(self).branching() == old(self).branching(),
            final(self).spec_len() == old(self).spec_len(),
            old(self).wf() ==> final(self).wf(),
    {
        let value = self.nodes[index].as_mut().unwrap();
        proof {
            if old(self).wf() {
                lemma_value_change(old(self)@, old(self).branching(), index as int, *final(value));
            }
        }
        value
    }

    /// A handle on the parent of the node at `child`, if there is one.
    pub fn parent(&self, child: usize) -> (result: Option<Node<'_, N>>)
        ensures
            result.is_some() == (child > 0 && self.branching() > 0 && occupied(
                self@,
                parent_position(self.branching(), child as int),
            )),
            result.is_some() ==> result.unwrap().tree == self && result.unwrap().index
                == parent_position(self.branching(), child as int),
    {
        match self.parent_index(child) {
            Some(parent_index) => self.node(parent_index),
            None => None,
        }
    }

    /// A handle on child `child` of the node at `parent`, if that slot is
    /// occupied.
    pub fn child(&self, parent: usize, child: usize) -> (result: Option<Node<'_, N>>)
        requires
            self.wf(),
            child < self.branching(),
        ensures
            result.is_some() == occupied(
                self@,
                child_position(self.branching(), parent as int, child as int),
            ),
            result.is_some() ==> result.unwrap().tree == self && result.unwrap().index
                == child_position(self.branching(), parent as int, child as int),
    {
        match self.child_index(parent, child) {
            Ok(child_index) => self.node(child_index),
            Err(_) => None,
        }
    }

    /// An exclusive handle on the node at `index`, which begins a session
    /// there; the tree itself is handed back if the slot is empty.
    pub fn node_mut(&mut self, index: usize) -> (result: Result<NodeMut<'_, N>, &mut Self>)
        ensures
            result.is_ok() == occupied(old(self)@, index as int),
            match result {
                Ok(node) => node.index == index && node.origin == index && *node.tree == *old(self)
                    && *final(node.tree) == *final(self),
                Err(tree) => *tree == *old(self) && *final(tree) == *final(self),
            },
    {
        if index < self.nodes.len() && self.nodes[index].is_some() {
            Ok(NodeMut { tree: self, index, origin: index })
        } else {
            Err(self)
        }
    }

    /// An exclusive handle on the parent of the node at `child`, which begins
    /// a session there; the tree itself is handed back if there is no parent.
    pub fn parent_mut(&mut self, child: usize) -> (result: Result<NodeMut<'_, N>, &mut Self>)
        ensures
            result.is_ok() == (child > 0 && old(self).branching() > 0 && occupied(
                old(self)@,
                parent_position(old(self).branching(), child as int),
            )),
            match result {
                Ok(node) => node.index == parent_position(old(self).branching(), child as int)
                    && node.origin == node.index && *node.tree == *old(self) && *final(node.tree)
                    == *final(self),
                Err(tree) => *tree == *old(self) && *final(tree) == *final(self),
            },
    {
        match self.parent_index(child) {
            Some(parent_index) => self.node_mut(parent_index),
            None => Err(self),
        }
    }

    /// An exclusive handle on child `child` of the node at `parent`, which
    /// begins a session there; the tree itself is handed back if that slot is
    /// empty.
    pub fn child_mut(&mut self, parent: usize, child: usize) -> (result: Result<
        NodeMut<'_, N>,
        &mut Self,
    >)
        requires
            old(self).wf(),
            child < old(self).branching(),
        ensures
            result.is_ok() == occupied(
                old(self)@,
                child_position(old(self).branching(), parent as int, child as int),
            ),
            match result {
                Ok(node) => node.index == child_position(
                    old(self).branching(),
                    parent as int,
                    child as int,
                ) && node.origin == node.index && *node.tree == *old(self) && *final(node.tree)
                    == *final(self),
                Err(tree) => *tree == *old(self) && *final(tree) == *final(self),
            },
    {
        match self.child_index(parent, child) {
            Ok(child_index) => self.node_mut(child_index),
            Err(_) => Err(self),
        }
    }

    /// The root node, if the tree has one.
    pub fn root(&self) -> (result: Option<Node<'_, N>>)
        ensures
            result.is_some() == occupied(self@, 0),
            result.is_some() ==> result.unwrap().tree == self && result.unwrap().index == 0,
    {
        self.node(0)
    }

    /// An exclusive handle on the root node, if the tree has one. The session
    /// covers the whole tree.
    pub fn root_mut(&mut self) -> (result: Option<NodeMut<'_, N>>)
        ensures
            result.is_some() == occupied(old(self)@, 0),
            match result {
                Some(node) => node.index == 0 && node.origin == 0 && *node.tree == *old(self)
                    && *final(node.tree) == *final(self),
                None => *final(self) == *old(self),
            },
    {
        match self.node_mut(0) {
            Ok(node) => Some(node),
            Err(_) => None,
        }
    }

    /// A breadth-first traversal of the whole tree.
    pub fn breadth_first_iter(&self) -> (traversal: BreadthFirstIterator<'_, N>)
        requires
            self.wf(),
        ensures
            traversal.wf(),
            traversal.tree() == self,
            traversal.remaining() == breadth_first_order(self@, self.branching(), 0),
    {
        let root = self.root();
        proof {
            if root.is_none() {
                lemma_breadth_first_empty(self@, self.branching(), 0);
            }
        }
        BreadthFirstIterator::new(self, root)
    }

    /// The place of the root, occupied or empty.
    pub fn root_entry(&self) -> (entry: Entry<'_, N>)
        requires
            self.wf(),
        ensures
            entry.wf(),
            entry.spec_tree() == self,
            entry.spec_index() == 0,
            entry is Occupied == occupied(self@, 0),
    {
        match self.node(0) {
            Some(node) => Entry::Occupied(node),
            None => Entry::Vacant(VacantEntry { tree: self, index: 0 }),
        }
    }

    /// The place of the root, occupied or empty, for exclusive use. The
    /// session covers the whole tree.
    pub fn root_entry_mut(&mut self) -> (entry: EntryMut<'_, N>)
        requires
            old(self).wf(),
        ensures
            entry.wf(),
            entry.spec_index() == 0,
            entry.spec_origin() == 0,
            entry is Occupied == occupied(old(self)@, 0),
            *entry.tree_ref() == *old(self),
            *final(entry.tree_ref()) == *final(self),
    {
        if self.nodes[0].is_some() {
            EntryMut::Occupied(NodeMut { tree: self, index: 0, origin: 0 })
        } else {
            EntryMut::Vacant(VacantEntryMut { tree: self, index: 0, origin: 0 })
        }
    }

    /// A depth-first traversal of the whole tree.
    pub fn depth_first_iter(&self, order: DepthFirstOrder) -> (traversal: DepthFirstIterator<
        '_,
        N,
    >)
        requires
            self.wf(),
        ensures
            traversal.wf(),
            traversal.tree() == self,
            traversal.order() == order,
            traversal.remaining() == depth_first_order(self@, self.branching(), order, 0),
    {
        DepthFirstIterator::new(self, self.root(), order)
    }

    /// Sets or removes the value of the root and gives a handle on the root,
    /// which is valid exactly if a value was set. `value` is a value or an
    /// optional value; removing the root's value empties the whole tree.
    ///
    /// What is written is what the conversion of `value` returns: the tree
    /// afterwards is the tree with exactly that written at position 0.
    pub fn set_root_value<V>(&mut self, value: V) -> (node: NodeMut<'_, N>) where
        V: Into<Option<N>>,

        requires
            old(self).wf(),
        ensures
            node.index == 0,
            node.origin == 0,
            node.tree.wf(),
            node.tree.branching() == old(self).branching(),
            exists|new_value: Option<N>|
                call_ensures(<V as Into<Option<N>>>::into, (value,), new_value) && node.tree@
                    == written(old(self)@, old(self).branching(), 0, new_value)
                    && node.tree.spec_len() == written_len(
                    old(self)@,
                    old(self).branching(),
                    0,
                    new_value,
                ) && node.wf() == new_value.is_some(),
            *final(node.tree) == *final(self),
    {
        let new_value: Option<N> = value.into();
        self.set_value(0, new_value)
    }

    /// Writes `new_value` in child slot `child` of the node at `parent` and
    /// gives a handle at the child's position, as `set_value` does.
    pub fn set_child_value(&mut self, parent: usize, child: usize, new_value: Option<N>) -> (node:
        NodeMut<'_, N>)
        requires
            old(self).wf(),
            child < old(self).branching(),
            child_position(old(self).branching(), parent as int, child as int) < usize::MAX,
            new_value.is_some() ==> occupied(old(self)@, parent as int),
        ensures
            node.index == child_position(old(self).branching(), parent as int, child as int),
            node.origin == node.index,
            node.tree.wf(),
            node.tree@ == written(
                old(self)@,
                old(self).branching(),
                child_position(old(self).branching(), parent as int, child as int),
                new_value,
            ),
            node.tree.branching() == old(self).branching(),
            node.tree.spec_len() == written_len(
                old(self)@,
                old(self).branching(),
                child_position(old(self).branching(), parent as int, child as int),
                new_value,
            ),
            node.wf() == new_value.is_some(),
            *final(node.tree) == *final(self),
    {
        proof {
            lemma_child_then_parent(self.branching(), parent as int, child as int);
        }
        let child_index = match self.child_index(parent, child) {
            Ok(child_index) => child_index,
            Err(_) => unreached(),
        };
        self.set_value(child_index, new_value)
    }

    /// Empties the slot at `index` and every slot below it.
    pub fn remove(&mut self, index: usize)
        requires
            old(self).wf(),
            index < usize::MAX,
        ensures
            final(self).wf(),
            final(self)@ == written(old(self)@, old(self).branching(), index as int, None),
            final(self).branching() == old(self).branching(),
            final(self).spec_len() + subtree_count(old(self)@, old(self).branching(), index as int)
                == old(self).spec_len(),
    {
        let _ = self.set_value(index, None);
    }

    /// The occupied positions of the subtree rooted at `index`, children
    /// before their parent.
    fn subtree_positions(&self, index: usize) -> (positions: Vec<usize>)
        requires
            self.wf(),
        ensures
            positions@.len() == depth_first_order(
                self@,
                self.branching(),
                DepthFirstOrder::PostOrder,
                index as int,
            ).len(),
            forall|i: int|
                0 <= i < positions@.len() ==> (#[trigger] positions@[i]) as int
                    == depth_first_order(
                    self@,
                    self.branching(),
                    DepthFirstOrder::PostOrder,
                    index as int,
                )[i],
    {
        let ghost all = depth_first_order(
            self@,
            self.branching(),
            DepthFirstOrder::PostOrder,
            index as int,
        );
        let mut positions: Vec<usize> = Vec::new();
        let mut traversal = DepthFirstIterator::new(
            self,
            self.node(index),
            DepthFirstOrder::PostOrder,
        );
        loop
            invariant
                traversal.wf(),
                positions@.len() + traversal.remaining().len() == all.len(),
                traversal.remaining() == all.skip(positions@.len() as int),
                forall|i: int| 0 <= i < positions@.len() ==> (#[trigger] positions@[i]) as int == all[i],
            ensures
                positions@.len() == all.len(),
            decreases traversal.remaining().len(),
        {
            match traversal.next() {
                Some(node) => {
                    positions.push(node.index);
                },
                None => {
                    break ;
                },
            }
        }
        positions
    }

    /// Extends the array with empty slots up to and including `index`.
    fn grow_to(&mut self, index: usize)
        requires
            old(self).wf(),
            index < usize::MAX,
        ensures
            final(self).wf(),
            final(self).branching() == old(self).branching(),
            final(self).spec_len() == old(self).spec_len(),
            final(self)@.len() == if index < old(self)@.len() {
                old(self)@.len()
            } else {
                (index + 1) as nat
            },
            forall|j: int| 0 <= j < old(self)@.len() ==> #[trigger] final(self)@[j] == old(self)@[j],
            forall|j: int|
                old(self)@.len() <= j < final(self)@.len() ==> (#[trigger] final(self)@[j]).is_none(),
    {
        let ghost before = self@;
        let ghost k = self.branching();
        while self.nodes.len() <= index
            invariant
                self.wf(),
                self.branching() == k,
                self.spec_len() == old(self).spec_len(),
                before == old(self)@,
                self@.len() >= before.len(),
                self@.len() > before.len() ==> self@.len() <= index + 1,
                forall|j: int| 0 <= j < before.len() ==> #[trigger] self@[j] == before[j],
                forall|j: int| before.len() <= j < self@.len() ==> (#[trigger] self@[j]).is_none(),
                index < usize::MAX,
            decreases index + 1 - self.nodes.len(),
        {
            let ghost shorter = self@;
            proof {
                lemma_count_push(shorter, None);
            }
            self.nodes.push(None);
            proof {
                assert forall|i: int|
                    0 < i < self@.len() && (#[trigger] self@[i]).is_some() implies k > 0
                    && occupied(self@, parent_position(k, i)) by {
                    assert(shorter[i].is_some());
                }
            }
        }
    }

    /// Empties the occupied slot at `index` and every slot below it: the
    /// occupied positions of the subtree are collected, children before their
    /// parent, and then emptied one by one, each taking one off the count.
    fn clear_subtree(&mut self, index: usize)
        requires
            old(self).wf(),
            occupied(old(self)@, index as int),
        ensures
            final(self).wf(),
            final(self).branching() == old(self).branching(),
            final(self)@ == written(old(self)@, old(self).branching(), index as int, None),
    {
        let ghost before = self@;
        let ghost k = self.branching();
        let doomed = self.subtree_positions(index);
        let ghost all = depth_first_order(before, k, DepthFirstOrder::PostOrder, index as int);
        proof {
            lemma_depth_first_sound(before, k, DepthFirstOrder::PostOrder, index as int);
        }
        let mut i: usize = 0;
        while i < doomed.len()
            invariant
                i <= doomed@.len(),
                doomed@.len() == all.len(),
                forall|x: int| 0 <= x < doomed@.len() ==> (#[trigger] doomed@[x]) as int == all[x],
                forall|x: int| 0 <= x < all.len() ==> occupied(before, #[trigger] all[x]),
                self@.len() == before.len(),
                self.branching() == k,
                self.spec_len() == count_occupied(self@),
                forall|j: int|
                    0 <= j < before.len() ==> #[trigger] self@[j] == (if listed(all, i as int, j) {
                        None
                    } else {
                        before[j]
                    }),
            decreases doomed@.len() - i,
        {
            let position = doomed[i];
            let ghost current = self@;
            proof {
                assert(occupied(before, all[i as int]));
                lemma_count_update(current, position as int, None);
                if current[position as int].is_some() {
                    lemma_count_positive(current, position as int);
                }
            }
            if self.nodes[position].is_some() {
                self.len -= 1;
            }
            self.nodes[position] = None;
            proof {
                assert(self@ =~= current.update(position as int, None));
                lemma_listed_step(all, i as int);
            }
            i += 1;
        }
        proof {
            assert forall|j: int| 0 <= j < before.len() implies self@[j] == written(
                before,
                k,
                index as int,
                None,
            )[j] by {
                if listed(all, all.len() as int, j) {
                    let x = choose|x: int| 0 <= x < all.len() && all[x] == j;
                    assert(in_subtree(k, index as int, all[x]));
                } else if occupied(before, j) && in_subtree(k, index as int, j) {
                    lemma_depth_first_complete(
                        before,
                        k,
                        DepthFirstOrder::PostOrder,
                        index as int,
                        j,
                    );
                    let x = choose|x: int| 0 <= x < all.len() && all[x] == j;
                    assert(listed(all, all.len() as int, j));
                }
            }
            assert(self@ =~= written(before, k, index as int, None));
            lemma_written_wf(before, k, index as int, None);
        }
    }

    /// Writes `new_value` at `index` and gives a handle at that position.
    ///
    /// The array grows as far as `index` if it was shorter. Writing a value
    /// over an empty slot adds one to the count. Writing absence empties
    /// every slot below `index` as well, so that no value is left under an
    /// empty slot. The handle is valid exactly if a value was written.
    pub fn set_value(&mut self, index: usize, new_value: Option<N>) -> (node: NodeMut<'_, N>)
        requires
            old(self).wf(),
            index < usize::MAX,
            new_value.is_some() ==> index == 0 || (old(self).branching() > 0 && occupied(
                old(self)@,
                parent_position(old(self).branching(), index as int),
            )),
        ensures
            node.index == index,
            node.origin == index,
            node.tree.wf(),
            node.tree@ == written(old(self)@, old(self).branching(), index as int, new_value),
            node.tree.branching() == old(self).branching(),
            node.tree.spec_len() == written_len(
                old(self)@,
                old(self).branching(),
                index as int,
                new_value,
            ),
            node.wf() == new_value.is_some(),
            *final(node.tree) == *final(self),
    {
        let ghost before = self@;
        let ghost k = self.branching();
        proof {
            if new_value.is_some() {
                lemma_written_value_count(before, k, index as int, new_value.unwrap());
            } else {
                lemma_written_absence_count(before, k, index as int);
            }
        }
        self.grow_to(index);
        let ghost grown = self@;
        if new_value.is_none() {
            if self.nodes[index].is_some() {
                self.clear_subtree(index);
                proof {
                    assert(written(grown, k, index as int, new_value) =~= written(
                        before,
                        k,
                        index as int,
                        new_value,
                    ));
                }
            } else {
                proof {
                    assert forall|j: int| 0 <= j < grown.len() implies grown[j] == written(
                        before,
                        k,
                        index as int,
                        new_value,
                    )[j] by {
                        if is_ancestor(k, index as int, j) && occupied(grown, j) {
                            lemma_ancestors_occupied(grown, k, index as int, j);
                        }
                    }
                    assert(grown =~= written(before, k, index as int, new_value));
                }
            }
        } else {
            proof {
                lemma_count_update(grown, index as int, new_value);
                lemma_count_bounded(grown.update(index as int, new_value));
            }
            if self.nodes[index].is_none() {
                self.len += 1;
            }
            self.nodes[index] = new_value;
            proof {
                assert(self@ =~= grown.update(index as int, new_value));
                assert(self@ =~= written(before, k, index as int, new_value));
                lemma_written_wf(before, k, index as int, new_value);
            }
        }
        NodeMut { tree: self, index, origin: index }
    }
}

/// `position` is among the first `upto` elements of `list`.
spec fn listed(list: Seq<int>, upto: int, position: int) -> bool {
    exists|x: int| 0 <= x < upto && x < list.len() && list[x] == position
}

/// Taking one more element of the list into account adds exactly that
/// element to the listed positions.
proof fn lemma_listed_step(list: Seq<int>, upto: int)
    requires
        0 <= upto < list.len(),
    ensures
        forall|j: int| #[trigger]
            listed(list, upto + 1, j) == (listed(list, upto, j) || j == list[upto]),
{
    assert forall|j: int| #[trigger]
        listed(list, upto + 1, j) == (listed(list, upto, j) || j == list[upto]) by {
        if listed(list, upto, j) {
            let x = choose|x: int| 0 <= x < upto && x < list.len() && list[x] == j;
            assert(0 <= x < upto + 1 && list[x] == j);
        }
        if j == list[upto] {
            assert(0 <= upto < upto + 1 && list[upto] == j);
        }
    }
}

} // verus!
