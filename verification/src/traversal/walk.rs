//! Walks: traversals in which a handler looks at one place of the tree after
//! the other and says where to go next.

use vstd::prelude::*;
use vstd::pervasive::unreached;
use crate::entry::{Entry, EntryMut, VacantEntry};
use crate::index::{
    child_position,
    depth,
    in_subtree,
    lemma_ancestor_is_smaller,
    lemma_ancestor_transitive,
    lemma_child_then_parent,
    lemma_depth_of_child,
    lemma_parent_bounds,
    parent_position,
};
use crate::node::Node;
use crate::node_mut::NodeMut;
use crate::slots::{lemma_same_outside_wider, occupied, same_outside};
use crate::tree::EtzyngerTree;

verus! {

/// What a handler asks a walk to do next.
#[derive(Debug, Clone, Copy, Eq, PartialEq, Hash, Structural)]
pub enum WalkAction {
    /// End the walk.
    Stop,
    /// Go to the parent of the current place.
    Parent,
    /// Go to the given child slot of the current place.
    Child(usize),
}

/// A handler that steers a walk over shared views.
pub trait WalkHandler: Sized {
    type Item;

    /// A bound on the number of moves that the handler will still ask for.
    /// A walk has no bound of its own: that it ends is the handler's
    /// business, and this measure is how a handler shows that it does. A
    /// handler that keeps the measure given here can only ever answer
    /// `Stop`.
    open spec fn budget(&self) -> nat {
        0
    }

    /// What the handler may do when it is shown `entry`: answer `action`
    /// and be left as `after`. A handler that keeps the relation given here
    /// says nothing of what it does; one that states its own lets the
    /// callers of a walk tell how the walk leaves it.
    open spec fn answers(&self, entry: Entry<'_, Self::Item>, action: WalkAction, after: Self) -> bool {
        true
    }

    /// Looks at the current place and says where to go next, as `answers`
    /// allows. Every answer but `Stop` uses up some of the budget.
    fn on_node(&mut self, entry: &Entry<'_, Self::Item>) -> (action: WalkAction)
        requires
            entry.wf(),
        ensures
            old(self).answers(*entry, action, *final(self)),
            action != WalkAction::Stop ==> final(self).budget() < old(self).budget(),
    ;
}

/// Something that a handler can walk over without changing it.
pub trait Walkable {
    type Item;

    /// What the walk needs of its starting point.
    spec fn can_walk(&self) -> bool;

    /// The place at which a walk from here starts.
    spec fn start(&self) -> Entry<'_, Self::Item>;

    /// Walks from here, wherever the handler leads, until the handler stops
    /// or asks for a move that cannot be made.
    ///
    /// The handler is shown the starting place, then the place that its
    /// answer leads to, and so on; the walk ends with the first answer that
    /// leads nowhere. The handler is left as the last of these calls left
    /// it.
    fn walk<H>(&self, handler: &mut H) where H: WalkHandler<Item = Self::Item>
        requires
            self.can_walk(),
        ensures
            walked(self.start(), *old(handler), *final(handler)),
    ;
}

/// The place that a walk from `start` has reached after the first `steps`
/// of `actions`; nothing where the walk has ended before.
pub open spec fn walk_place<'a, N>(start: Entry<'a, N>, actions: Seq<WalkAction>, steps: nat) -> Option<
    Entry<'a, N>,
>
    decreases steps,
{
    if steps == 0 {
        Some(start)
    } else {
        match walk_place(start, actions, (steps - 1) as nat) {
            Some(entry) => walk_target(entry, actions[steps - 1]),
            None => None,
        }
    }
}

/// `states` and `actions` record a whole walk from `start`: the handler in
/// state `states[i]` was shown the place reached after `i` steps, answered
/// `actions[i]` and was left in state `states[i + 1]`; every answer but the
/// last led to a place, and the last answer led nowhere.
pub open spec fn is_walk<H: WalkHandler>(
    start: Entry<'_, H::Item>,
    states: Seq<H>,
    actions: Seq<WalkAction>,
) -> bool {
    &&& actions.len() >= 1
    &&& states.len() == actions.len() + 1
    &&& forall|i: int| 0 <= i < actions.len() ==> #[trigger] is_walk_step(start, states, actions, i)
    &&& walk_place(start, actions, actions.len()).is_none()
}

/// Step `i` of the record is a step of a walk: the walk had reached a place,
/// and the handler in state `states[i]` could answer `actions[i]` there and
/// be left in state `states[i + 1]`.
pub open spec fn is_walk_step<H: WalkHandler>(
    start: Entry<'_, H::Item>,
    states: Seq<H>,
    actions: Seq<WalkAction>,
    i: int,
) -> bool {
    walk_place(start, actions, i as nat).is_some() && states[i].answers(
        walk_place(start, actions, i as nat).unwrap(),
        actions[i],
        states[i + 1],
    )
}

/// A whole walk from `start` takes the handler from `before` to `after`.
pub open spec fn walked<H: WalkHandler>(start: Entry<'_, H::Item>, before: H, after: H) -> bool {
    exists|states: Seq<H>, actions: Seq<WalkAction>|
        #[trigger] is_walk(start, states, actions) && states[0] == before && states.last()
            == after
}

/// The places that a walk reaches in its first steps do not depend on the
/// answers that follow.
pub proof fn lemma_walk_place_prefix<'a, N>(
    start: Entry<'a, N>,
    actions: Seq<WalkAction>,
    action: WalkAction,
    steps: nat,
)
    requires
        steps <= actions.len(),
    ensures
        walk_place(start, actions.push(action), steps) == walk_place(start, actions, steps),
    decreases steps,
{
    if steps > 0 {
        lemma_walk_place_prefix(start, actions, action, (steps - 1) as nat);
    }
}

/// Where a walk over shared views goes from `current` on `action`; nothing
/// where the walk ends.
///
/// `Stop` ends the walk. `Parent` leads to the parent and ends the walk at
/// the root. `Child` leads to the place in that child slot, occupied or
/// empty, and ends the walk at an empty place, for a slot that is not below
/// the branching factor, and for a position beyond `usize::MAX`.
pub open spec fn walk_target<'a, N>(current: Entry<'a, N>, action: WalkAction) -> Option<
    Entry<'a, N>,
> {
    let tree = current.spec_tree();
    let k = tree.branching();
    let index = current.spec_index();
    match action {
        WalkAction::Stop => None,
        WalkAction::Parent => if index > 0 {
            Some(Entry::Occupied(Node { tree, index: parent_position(k, index as int) as usize }))
        } else {
            None
        },
        WalkAction::Child(slot) => {
            let child = child_position(k, index as int, slot as int);
            if current is Occupied && slot < k && child <= usize::MAX {
                if occupied(tree@, child) {
                    Some(Entry::Occupied(Node { tree, index: child as usize }))
                } else {
                    Some(Entry::Vacant(VacantEntry { tree, index: child as usize }))
                }
            } else {
                None
            }
        },
    }
}

/// One move of a walk over shared views.
pub fn walk_step<'a, N>(current: Entry<'a, N>, action: WalkAction) -> (next: Option<Entry<'a, N>>)
    requires
        current.wf(),
    ensures
        next == walk_target(current, action),
        next.is_some() ==> next.unwrap().wf(),
{
    match action {
        WalkAction::Stop => None,
        WalkAction::Parent => match current.parent() {
            Some(parent) => Some(Entry::Occupied(parent)),
            None => None,
        },
        WalkAction::Child(slot) => match current {
            Entry::Occupied(node) => match node.tree.child_index(node.index, slot) {
                Ok(_) => Some(node.child_entry(slot)),
                Err(_) => None,
            },
            Entry::Vacant(_) => None,
        },
    }
}

impl<'a, N> Walkable for Entry<'a, N> {
    type Item = N;

    open spec fn can_walk(&self) -> bool {
        self.wf()
    }

    open spec fn start(&self) -> Entry<'_, N> {
        *self
    }

    /// Shows the handler this place, then the place that its answer leads
    /// to, and so on, until `walk_step` says that the walk has ended.
    fn walk<H>(&self, handler: &mut H) where H: WalkHandler<Item = Self::Item> {
        let mut current = *self;
        let ghost mut states: Seq<H> = seq![*handler];
        let ghost mut actions: Seq<WalkAction> = Seq::empty();
        loop
            invariant_except_break
                current.wf(),
                states.len() == actions.len() + 1,
                states[0] == *old(handler),
                states.last() == *handler,
                walk_place(*self, actions, actions.len()) == Some(current),
                forall|i: int|
                    0 <= i < actions.len() ==> #[trigger] is_walk_step(*self, states, actions, i),
            ensures
                is_walk(*self, states, actions),
                states[0] == *old(handler),
                states.last() == *handler,
            decreases handler.budget(),
        {
            let ghost shown = *handler;
            let action = handler.on_node(&current);
            let next = walk_step(current, action);
            proof {
                let before = actions;
                let seen = states;
                actions = before.push(action);
                states = seen.push(*handler);
                assert forall|i: int| 0 <= i < actions.len() implies #[trigger] is_walk_step(
                    *self,
                    states,
                    actions,
                    i,
                ) by {
                    lemma_walk_place_prefix(*self, before, action, i as nat);
                    if i < before.len() {
                        assert(is_walk_step(*self, seen, before, i));
                    } else {
                        assert(states[i] == shown);
                    }
                }
                lemma_walk_place_prefix(*self, before, action, before.len());
                assert(walk_place(*self, actions, actions.len()) == next);
            }
            match next {
                Some(next) => {
                    current = next;
                },
                None => {
                    break ;
                },
            }
        }
    }
}

impl<'a, N> Walkable for Node<'a, N> {
    type Item = N;

    open spec fn can_walk(&self) -> bool {
        self.wf()
    }

    open spec fn start(&self) -> Entry<'_, N> {
        Entry::Occupied(*self)
    }

    /// Walks from this node. The walk may leave the node's subtree.
    fn walk<H>(&self, handler: &mut H) where H: WalkHandler<Item = Self::Item> {
        Entry::Occupied(*self).walk(handler)
    }
}

impl<'a, N> Walkable for NodeMut<'a, N> {
    type Item = N;

    open spec fn can_walk(&self) -> bool {
        self.wf()
    }

    open spec fn start(&self) -> Entry<'_, N> {
        Entry::Occupied(Node { tree: &*self.tree, index: self.index })
    }

    /// Walks from this node over shared views. The walk reads only, and so
    /// may go above the start of the session.
    fn walk<H>(&self, handler: &mut H) where H: WalkHandler<Item = Self::Item> {
        self.as_node().walk(handler)
    }
}

impl<'a, N> Walkable for EntryMut<'a, N> {
    type Item = N;

    open spec fn can_walk(&self) -> bool {
        self.wf()
    }

    open spec fn start(&self) -> Entry<'_, N> {
        match self {
            EntryMut::Occupied(node) => Entry::Occupied(
                Node { tree: &*node.tree, index: node.index },
            ),
            EntryMut::Vacant(vacant) => Entry::Vacant(
                VacantEntry { tree: &*vacant.tree, index: vacant.index },
            ),
        }
    }

    /// Walks from this place over shared views. The walk reads only, and so
    /// may go above the start of the session.
    fn walk<H>(&self, handler: &mut H) where H: WalkHandler<Item = Self::Item> {
        self.as_entry().walk(handler)
    }
}

impl<N> Walkable for EtzyngerTree<N> {
    type Item = N;

    open spec fn can_walk(&self) -> bool {
        self.wf()
    }

    open spec fn start(&self) -> Entry<'_, N> {
        if occupied(self@, 0) {
            Entry::Occupied(Node { tree: self, index: 0 })
        } else {
            Entry::Vacant(VacantEntry { tree: self, index: 0 })
        }
    }

    /// Walks from the place of the root.
    fn walk<H>(&self, handler: &mut H) where H: WalkHandler<Item = Self::Item> {
        self.root_entry().walk(handler)
    }
}

/// A handler that steers a walk over exclusive views and may change what it
/// is shown.
pub trait WalkMutHandler: Sized {
    type Item;

    /// A bound on the number of moves that the handler will still ask for.
    /// A handler that keeps the measure given here can only ever answer
    /// `Stop`.
    open spec fn budget(&self) -> nat {
        0
    }

    /// What the handler may do when it is shown the place at `position` of
    /// a tree with branching factor `k` that holds `shown`: leave the tree
    /// holding `left`, answer `action` and be left as `after`. A handler
    /// that keeps the relation given here says nothing of what it does; one
    /// that states its own lets the callers of a walk tell how the walk
    /// leaves the tree and the handler.
    open spec fn answers(
        &self,
        k: int,
        position: int,
        shown: Seq<Option<Self::Item>>,
        left: Seq<Option<Self::Item>>,
        action: WalkAction,
        after: Self,
    ) -> bool {
        true
    }

    /// Looks at the current place, may change the tree through it, and says
    /// where to go next, as `answers` allows. The entry is handed back at
    /// the same place of the same tree and in the same session, and valid;
    /// what the handler changed lies in the subtree of the place. Every
    /// answer but `Stop` uses up some of the budget.
    fn on_node(&mut self, entry: &mut EntryMut<'_, Self::Item>) -> (action: WalkAction)
        requires
            old(entry).wf(),
        ensures
            old(self).answers(
                old(entry).tree_ref().branching(),
                old(entry).spec_index() as int,
                old(entry).tree_ref()@,
                final(entry).tree_ref()@,
                action,
                *final(self),
            ),
            final(entry).wf(),
            final(entry).spec_index() == old(entry).spec_index(),
            final(entry).spec_origin() == old(entry).spec_origin(),
            final(entry).tree_ref().branching() == old(entry).tree_ref().branching(),
            same_outside(
                old(entry).tree_ref()@,
                final(entry).tree_ref()@,
                old(entry).tree_ref().branching(),
                old(entry).spec_index() as int,
            ),
            *final(final(entry).tree_ref()) == *final(old(entry).tree_ref()),
            action != WalkAction::Stop ==> final(self).budget() < old(self).budget(),
    ;
}

/// Something that a handler can walk over and change on the way.
pub trait WalkableMut: Sized {
    type Item;

    /// What the walk needs of its starting point.
    spec fn can_walk(&self) -> bool;

    /// The position at which a walk from here starts.
    spec fn place(&self) -> int;

    /// The position at which the session began: a walk from here goes no
    /// higher.
    spec fn session(&self) -> int;

    /// The branching factor of the tree.
    spec fn arity(&self) -> int;

    /// The slots of the tree.
    spec fn contents(&self) -> Seq<Option<Self::Item>>;

    /// Walks from here, wherever the handler leads, until the handler stops
    /// or asks for a move that cannot be made, and then comes back: what is
    /// returned stands where the walk began, however far it went.
    ///
    /// The handler is shown the starting place, then the place that its
    /// answer leads to, and so on; the walk ends with the first answer that
    /// leads nowhere. The tree and the handler are left as the last of
    /// these calls left them.
    fn walk_mut<H>(self, handler: &mut H) -> (home: Self) where
        H: WalkMutHandler<Item = Self::Item>,

        requires
            self.can_walk(),
        ensures
            home.can_walk(),
            home.place() == self.place(),
            home.session() == self.session(),
            home.arity() == self.arity(),
            walked_mut(
                self.arity(),
                self.session(),
                self.place(),
                self.contents(),
                home.contents(),
                *old(handler),
                *final(handler),
            ),
    ;
}

/// The position that a walk over exclusive views has reached after the
/// first `steps` of `actions`, and how many levels it is below its start;
/// nothing where the walk has ended before. `trees[i]` is what the tree held
/// when the handler was called for the `i`-th time, counted from 0, and
/// `trees[i + 1]` what it held when that call returned.
pub open spec fn walk_mut_place<N>(
    k: int,
    origin: int,
    start: int,
    trees: Seq<Seq<Option<N>>>,
    actions: Seq<WalkAction>,
    steps: nat,
) -> Option<(int, int)>
    decreases steps,
{
    if steps == 0 {
        Some((start, 0int))
    } else {
        match walk_mut_place(k, origin, start, trees, actions, (steps - 1) as nat) {
            Some((index, levels)) => walk_mut_moves(
                k,
                index,
                origin,
                occupied(trees[steps as int], index),
                actions[steps - 1],
                levels,
            ),
            None => None,
        }
    }
}

/// Step `i` of the record is a step of a walk: the walk had reached a
/// position, and the handler in state `states[i]`, shown that position of a
/// tree that held `trees[i]`, could leave the tree holding `trees[i + 1]`,
/// answer `actions[i]` and be left in state `states[i + 1]`.
pub open spec fn is_walk_mut_step<H: WalkMutHandler>(
    k: int,
    origin: int,
    start: int,
    states: Seq<H>,
    trees: Seq<Seq<Option<H::Item>>>,
    actions: Seq<WalkAction>,
    i: int,
) -> bool {
    walk_mut_place(k, origin, start, trees, actions, i as nat).is_some() && states[i].answers(
        k,
        walk_mut_place(k, origin, start, trees, actions, i as nat).unwrap().0,
        trees[i],
        trees[i + 1],
        actions[i],
        states[i + 1],
    )
}

/// `states`, `trees` and `actions` record a whole walk over exclusive views
/// from `start`: every step is a step of a walk, every answer but the last
/// led to a place, and the last answer led nowhere.
pub open spec fn is_walk_mut<H: WalkMutHandler>(
    k: int,
    origin: int,
    start: int,
    states: Seq<H>,
    trees: Seq<Seq<Option<H::Item>>>,
    actions: Seq<WalkAction>,
) -> bool {
    &&& actions.len() >= 1
    &&& states.len() == actions.len() + 1
    &&& trees.len() == actions.len() + 1
    &&& forall|i: int|
        0 <= i < actions.len() ==> #[trigger] is_walk_mut_step(
            k,
            origin,
            start,
            states,
            trees,
            actions,
            i,
        )
    &&& walk_mut_place(k, origin, start, trees, actions, actions.len()).is_none()
}

/// A whole walk over exclusive views from `start`, in a session that began
/// at `origin`, takes the tree from `shown` to `left` and the handler from
/// `before` to `after`.
pub open spec fn walked_mut<H: WalkMutHandler>(
    k: int,
    origin: int,
    start: int,
    shown: Seq<Option<H::Item>>,
    left: Seq<Option<H::Item>>,
    before: H,
    after: H,
) -> bool {
    exists|states: Seq<H>, trees: Seq<Seq<Option<H::Item>>>, actions: Seq<WalkAction>|
        #[trigger] is_walk_mut(k, origin, start, states, trees, actions) && states[0] == before
            && states.last() == after && trees[0] == shown && trees.last() == left
}

/// The positions that a walk over exclusive views reaches in its first
/// steps do not depend on what follows.
pub proof fn lemma_walk_mut_place_prefix<N>(
    k: int,
    origin: int,
    start: int,
    trees: Seq<Seq<Option<N>>>,
    actions: Seq<WalkAction>,
    tree: Seq<Option<N>>,
    action: WalkAction,
    steps: nat,
)
    requires
        steps <= actions.len(),
        trees.len() == actions.len() + 1,
    ensures
        walk_mut_place(k, origin, start, trees.push(tree), actions.push(action), steps)
            == walk_mut_place(k, origin, start, trees, actions, steps),
    decreases steps,
{
    if steps > 0 {
        lemma_walk_mut_place_prefix(
            k,
            origin,
            start,
            trees,
            actions,
            tree,
            action,
            (steps - 1) as nat,
        );
    }
}

/// `position` lies exactly `levels` levels below `top`.
pub open spec fn descends(k: int, top: int, position: int, levels: nat) -> bool
    decreases levels,
{
    if levels == 0 {
        position == top
    } else {
        position > 0 && k > 0 && descends(
            k,
            top,
            parent_position(k, position),
            (levels - 1) as nat,
        )
    }
}

/// A position that lies some levels below another lies in its subtree, and
/// at least that many levels deep.
pub proof fn lemma_descends(k: int, top: int, position: int, levels: nat)
    requires
        0 <= top,
        descends(k, top, position, levels),
    ensures
        in_subtree(k, top, position),
        levels > 0 ==> position != top,
        levels <= depth(k, position),
        depth(k, position) <= position,
    decreases position,
{
    if position > 0 && k > 0 {
        lemma_parent_bounds(k, position);
        let parent = parent_position(k, position);
        if levels > 0 {
            lemma_descends(k, top, parent, (levels - 1) as nat);
            if parent != top {
                lemma_ancestor_is_smaller(k, top, parent);
            }
        } else {
            lemma_descends(k, parent, parent, 0);
        }
    }
}

/// What one move of a walk over exclusive views does to the place and to the
/// number of levels that the walk is below its start, and whether the walk
/// goes on.
///
/// `Stop` ends the walk. `Parent` ends the walk where it began, that is at
/// level 0, and at the origin of the session; anywhere else it leads to the
/// parent, one level up. `Child` leads to the place in that child slot, one
/// level down; it ends the walk at an empty place, for a slot that is not
/// below the branching factor, and for a position beyond `usize::MAX`.
pub open spec fn walk_mut_moves(
    k: int,
    index: int,
    origin: int,
    is_occupied: bool,
    action: WalkAction,
    levels: int,
) -> Option<(int, int)> {
    match action {
        WalkAction::Stop => None,
        WalkAction::Parent => if levels > 0 && index != origin {
            Some((parent_position(k, index), levels - 1))
        } else {
            None
        },
        WalkAction::Child(slot) => if is_occupied && slot < k && child_position(
            k,
            index,
            slot as int,
        ) <= usize::MAX {
            Some((child_position(k, index, slot as int), levels + 1))
        } else {
            None
        },
    }
}

/// One move of a walk over exclusive views: the entry after the move, the
/// number of levels below the start, and whether the walk goes on. Where the
/// walk ends the entry is handed back as it was.
pub fn walk_mut_step<'a, N>(current: EntryMut<'a, N>, action: WalkAction, levels: usize) -> (result:
    (EntryMut<'a, N>, usize, bool))
    requires
        current.wf(),
        levels <= depth(old(current.tree_ref()).branching(), current.spec_index() as int),
    ensures
        result.0.wf(),
        result.0.spec_origin() == current.spec_origin(),
        *result.0.tree_ref() == *old(current.tree_ref()),
        *final(result.0.tree_ref()) == *final(current.tree_ref()),
        result.2 == walk_mut_moves(
            old(current.tree_ref()).branching(),
            current.spec_index() as int,
            current.spec_origin() as int,
            current is Occupied,
            action,
            levels as int,
        ).is_some(),
        result.2 ==> (result.0.spec_index() as int, result.1 as int) == walk_mut_moves(
            old(current.tree_ref()).branching(),
            current.spec_index() as int,
            current.spec_origin() as int,
            current is Occupied,
            action,
            levels as int,
        ).unwrap(),
        !result.2 ==> result.0.spec_index() == current.spec_index() && result.1 == levels
            && result.0 is Occupied == current is Occupied,
{
    match action {
        WalkAction::Stop => (current, levels, false),
        WalkAction::Parent => {
            if levels == 0 {
                return (current, levels, false);
            }
            match current.to_parent() {
                Ok(parent) => (EntryMut::Occupied(parent), levels - 1, true),
                Err(entry) => (entry, levels, false),
            }
        },
        WalkAction::Child(slot) => match current {
            EntryMut::Occupied(node) => match node.tree.child_index(node.index, slot) {
                Ok(_) => {
                    proof {
                        let k = node.tree.branching();
                        lemma_depth_of_child(k, node.index as int, slot as int);
                        lemma_child_then_parent(k, node.index as int, slot as int);
                        let child = child_position(k, node.index as int, slot as int);
                        lemma_descends(k, child, child, 0);
                    }
                    (node.to_child_entry(slot), levels + 1, true)
                },
                Err(_) => (EntryMut::Occupied(node), levels, false),
            },
            EntryMut::Vacant(vacant) => (EntryMut::Vacant(vacant), levels, false),
        },
    }
}

impl<'a, N> WalkableMut for EntryMut<'a, N> {
    type Item = N;

    open spec fn can_walk(&self) -> bool {
        self.wf()
    }

    open spec fn place(&self) -> int {
        self.spec_index() as int
    }

    open spec fn session(&self) -> int {
        self.spec_origin() as int
    }

    open spec fn arity(&self) -> int {
        match self {
            EntryMut::Occupied(node) => node.tree.branching(),
            EntryMut::Vacant(vacant) => vacant.tree.branching(),
        }
    }

    open spec fn contents(&self) -> Seq<Option<N>> {
        match self {
            EntryMut::Occupied(node) => node.tree@,
            EntryMut::Vacant(vacant) => vacant.tree@,
        }
    }

    /// Shows the handler this place, then the place that its answer leads
    /// to, and so on, until `walk_mut_step` says that the walk has ended;
    /// then goes back up as many levels as the walk went down. The entry
    /// that is returned stands at the position where the walk began, in the
    /// same session, and nothing has changed outside the subtree of that
    /// position.
    fn walk_mut<H>(self, handler: &mut H) -> (home: Self) where
        H: WalkMutHandler<Item = Self::Item>,

        ensures
            same_outside(
                old(self.tree_ref())@,
                home.tree_ref()@,
                old(self.tree_ref()).branching(),
                self.spec_index() as int,
            ),
            *final(home.tree_ref()) == *final(self.tree_ref()),
    {
        let ghost k = self.tree_ref().branching();
        let ghost start = self.spec_index() as int;
        let ghost origin = self.spec_origin();
        let ghost slots = self.tree_ref()@;
        let mut levels: usize = 0;
        let mut current = self;
        let ghost mut states: Seq<H> = seq![*handler];
        let ghost mut trees: Seq<Seq<Option<N>>> = seq![slots];
        let ghost mut actions: Seq<WalkAction> = Seq::empty();
        loop
            invariant_except_break
                walk_mut_place(k, origin as int, start, trees, actions, actions.len()) == Some(
                    (current.spec_index() as int, levels as int),
                ),
            invariant
                current.wf(),
                current.spec_origin() == origin,
                current.tree_ref().branching() == k,
                *final(current.tree_ref()) == *final(self.tree_ref()),
                in_subtree(k, origin as int, start),
                0 <= start,
                descends(k, start, current.spec_index() as int, levels as nat),
                same_outside(slots, current.tree_ref()@, k, start),
                states.len() == actions.len() + 1,
                trees.len() == actions.len() + 1,
                states[0] == *old(handler),
                states.last() == *handler,
                trees[0] == slots,
                trees.last() == current.tree_ref()@,
                forall|i: int|
                    0 <= i < actions.len() ==> #[trigger] is_walk_mut_step(
                        k,
                        origin as int,
                        start,
                        states,
                        trees,
                        actions,
                        i,
                    ),
            ensures
                is_walk_mut(k, origin as int, start, states, trees, actions),
            decreases handler.budget(),
        {
            let ghost shown = current.tree_ref()@;
            let ghost asked = *handler;
            let action = handler.on_node(&mut current);
            proof {
                lemma_descends(k, start, current.spec_index() as int, levels as nat);
                lemma_same_outside_wider(
                    shown,
                    current.tree_ref()@,
                    k,
                    current.spec_index() as int,
                    start,
                );
            }
            let ghost before = current.spec_index() as int;
            let ghost levels_before = levels as int;
            let ghost left = current.tree_ref()@;
            let ghost was_occupied = current is Occupied;
            let (next, next_levels, go_on) = walk_mut_step(current, action, levels);
            current = next;
            levels = next_levels;
            proof {
                let earlier_actions = actions;
                let earlier_states = states;
                let earlier_trees = trees;
                actions = earlier_actions.push(action);
                states = earlier_states.push(*handler);
                trees = earlier_trees.push(left);
                assert forall|i: int| 0 <= i < actions.len() implies #[trigger] is_walk_mut_step(
                    k,
                    origin as int,
                    start,
                    states,
                    trees,
                    actions,
                    i,
                ) by {
                    lemma_walk_mut_place_prefix(
                        k,
                        origin as int,
                        start,
                        earlier_trees,
                        earlier_actions,
                        left,
                        action,
                        i as nat,
                    );
                    if i < earlier_actions.len() {
                        assert(is_walk_mut_step(
                            k,
                            origin as int,
                            start,
                            earlier_states,
                            earlier_trees,
                            earlier_actions,
                            i,
                        ));
                    } else {
                        assert(states[i] == asked);
                        assert(trees[i] == shown);
                    }
                }
                lemma_walk_mut_place_prefix(
                    k,
                    origin as int,
                    start,
                    earlier_trees,
                    earlier_actions,
                    left,
                    action,
                    earlier_actions.len(),
                );
                assert(was_occupied == occupied(left, before));
                assert(walk_mut_place(k, origin as int, start, trees, actions, actions.len())
                    == walk_mut_moves(
                    k,
                    before,
                    origin as int,
                    was_occupied,
                    action,
                    levels_before,
                ));
                if go_on {
                    match action {
                        WalkAction::Child(slot) => {
                            lemma_child_then_parent(k, before, slot as int);
                        },
                        _ => {},
                    }
                }
            }
            if !go_on {
                break ;
            }
        }
        while levels > 0
            invariant
                current.wf(),
                current.spec_origin() == origin,
                current.tree_ref().branching() == k,
                *final(current.tree_ref()) == *final(self.tree_ref()),
                in_subtree(k, origin as int, start),
                0 <= start,
                descends(k, start, current.spec_index() as int, levels as nat),
                same_outside(slots, current.tree_ref()@, k, start),
                trees.last() == current.tree_ref()@,
            decreases levels,
        {
            proof {
                lemma_descends(k, start, current.spec_index() as int, levels as nat);
                lemma_ancestor_transitive(k, origin as int, start, current.spec_index() as int);
                lemma_ancestor_is_smaller(k, origin as int, current.spec_index() as int);
            }
            current = match current.to_parent() {
                Ok(parent) => EntryMut::Occupied(parent),
                Err(_) => unreached(),
            };
            levels -= 1;
        }
        current
    }
}

impl<'a, N> WalkableMut for &'a mut EtzyngerTree<N> {
    type Item = N;

    open spec fn can_walk(&self) -> bool {
        self.wf()
    }

    open spec fn place(&self) -> int {
        0
    }

    open spec fn session(&self) -> int {
        0
    }

    open spec fn arity(&self) -> int {
        (**self).branching()
    }

    open spec fn contents(&self) -> Seq<Option<N>> {
        self@
    }

    /// Walks from the place of the root and hands the tree back.
    fn walk_mut<H>(self, handler: &mut H) -> (home: Self) where
        H: WalkMutHandler<Item = Self::Item>,

        ensures
            home.branching() == old(self).branching(),
            *final(home) == *final(self),
    {
        let _ = self.root_entry_mut().walk_mut(handler);
        self
    }
}

} // verus!
