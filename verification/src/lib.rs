//! A generic N-ary tree in a flat array.
//!
//! The tree keeps its nodes in one growable array. The root lies at position
//! 0 and child `c` of the node at position `p` at `p * k + c + 1`, where `k`
//! is the maximum number of children per node, so that parent and children of
//! a node are found by arithmetic alone.
//!
//! * [`EtzyngerTree`] is the tree: its slots, their count, and the writes
//!   that keep every occupied node under an occupied parent.
//! * [`Node`] and [`NodeMut`] are shared and exclusive handles on occupied
//!   nodes, [`Entry`] and [`EntryMut`] handles on places that may be empty.
//! * [`DepthFirstIterator`] and [`BreadthFirstIterator`] yield the nodes of a
//!   subtree in a fixed order.
//! * [`Walkable`] and [`WalkableMut`] let a handler steer a traversal.
//!
//! The contracts are stated over the slot sequence of a tree (`slots`), the
//! position arithmetic (`index`) and the traversal orders (`order`).

pub mod breadth_first_iterator;
pub mod convert;
pub mod depth_first_iterator;
pub mod entry;
pub mod index;
pub mod node;
pub mod node_mut;
pub mod order;
pub mod slots;
pub mod traversal;
pub mod tree;

pub use crate::breadth_first_iterator::BreadthFirstIterator;
pub use crate::depth_first_iterator::DepthFirstIterator;
pub use crate::entry::{Entry, EntryMut, VacantEntry, VacantEntryMut};
pub use crate::node::Node;
pub use crate::node_mut::NodeMut;
pub use crate::order::DepthFirstOrder;
pub use crate::traversal::walk::{WalkAction, WalkHandler, WalkMutHandler, Walkable, WalkableMut};
pub use crate::tree::{EtzyngerTree, IndexError};
