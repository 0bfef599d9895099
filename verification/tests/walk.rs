use etzynger_tree::traversal::walk::{walk_mut_step, walk_step};
use etzynger_tree::{
    Entry, EntryMut, EtzyngerTree, WalkAction, WalkHandler, WalkMutHandler, Walkable, WalkableMut,
};

struct Script {
    actions: Vec<WalkAction>,
    step: usize,
    seen: Vec<(usize, bool)>,
}

impl Script {
    fn new(actions: Vec<WalkAction>) -> Self {
        Script { actions, step: 0, seen: vec![] }
    }

    fn advance(&mut self, index: usize, occupied: bool) -> WalkAction {
        self.seen.push((index, occupied));
        let action = if self.step < self.actions.len() {
            self.actions[self.step]
        } else {
            WalkAction::Stop
        };
        self.step += 1;
        action
    }
}

impl WalkHandler for Script {
    type Item = u32;

    fn on_node(&mut self, entry: &Entry<'_, u32>) -> WalkAction {
        self.advance(entry.index(), matches!(entry, Entry::Occupied(_)))
    }
}

impl WalkMutHandler for Script {
    type Item = u32;

    fn on_node(&mut self, entry: &mut EntryMut<'_, u32>) -> WalkAction {
        self.advance(entry.index(), matches!(entry, EntryMut::Occupied(_)))
    }
}

fn chain() -> EtzyngerTree<u32> {
    let mut tree = EtzyngerTree::<u32>::new(2);
    {
        let mut root = tree.set_root_value(10);
        let mut child = root.set_child_value(0, 20);
        child.set_child_value(0, 30);
    }
    tree
}

#[test]
fn walk_mut_stop_at_start_returns_start() {
    let mut tree = chain();
    let mut script = Script::new(vec![WalkAction::Stop]);
    let home = tree.root_entry_mut().walk_mut(&mut script);
    assert_eq!(home.index(), 0);
    assert_eq!(script.seen, vec![(0, true)]);
}

#[test]
fn walk_mut_comes_home_from_grandchild() {
    let mut tree = chain();
    let mut script =
        Script::new(vec![WalkAction::Child(0), WalkAction::Child(0), WalkAction::Stop]);
    let home = tree.root_entry_mut().walk_mut(&mut script);
    assert_eq!(home.index(), 0);
    assert!(matches!(home, EntryMut::Occupied(_)));
    assert_eq!(script.seen, vec![(0, true), (1, true), (3, true)]);
}

#[test]
fn walk_mut_parent_at_root_ends_walk() {
    let mut tree = chain();
    let mut script = Script::new(vec![WalkAction::Parent, WalkAction::Child(0)]);
    let home = tree.root_entry_mut().walk_mut(&mut script);
    assert_eq!(home.index(), 0);
    assert_eq!(script.seen, vec![(0, true)]);
    assert_eq!(tree.len(), 3);
}

#[test]
fn walk_visits_parent_of_current_place() {
    let tree = chain();
    let mut script = Script::new(vec![
        WalkAction::Child(0),
        WalkAction::Child(0),
        WalkAction::Parent,
        WalkAction::Parent,
        WalkAction::Parent,
    ]);
    tree.walk(&mut script);
    assert_eq!(script.seen, vec![(0, true), (1, true), (3, true), (1, true), (0, true)]);
}

fn values(tree: &EtzyngerTree<u32>) -> Vec<u32> {
    let mut values = vec![];
    let mut traversal = tree.breadth_first_iter();
    while let Some(node) = traversal.next() {
        values.push(*node.value());
    }
    values
}

struct Grower {
    depth: usize,
    next_value: u32,
}

impl WalkMutHandler for Grower {
    type Item = u32;

    fn on_node(&mut self, entry: &mut EntryMut<'_, u32>) -> WalkAction {
        if self.depth == 0 {
            return WalkAction::Stop;
        }
        self.depth -= 1;
        match entry {
            EntryMut::Occupied(node) => {
                *node.value_mut() += 1;
                node.set_child_value(1, self.next_value);
                self.next_value += 1;
                WalkAction::Child(1)
            }
            EntryMut::Vacant(_) => WalkAction::Stop,
        }
    }
}

#[test]
fn walk_mut_returns_to_start_of_subtree_session() {
    let mut tree = chain();
    let mut root = tree.root_mut().unwrap();
    let child = root.child_mut(0).unwrap();
    let mut script = Script::new(vec![
        WalkAction::Child(0),
        WalkAction::Parent,
        WalkAction::Parent,
        WalkAction::Child(0),
    ]);
    let home = EntryMut::Occupied(child).walk_mut(&mut script);
    assert_eq!(home.index(), 1);
    assert_eq!(script.seen, vec![(1, true), (3, true), (1, true)]);
}

#[test]
fn walk_mut_comes_home_from_vacant_place() {
    let mut tree = chain();
    let mut script =
        Script::new(vec![WalkAction::Child(1), WalkAction::Child(0), WalkAction::Child(0)]);
    let home = tree.root_entry_mut().walk_mut(&mut script);
    assert_eq!(home.index(), 0);
    assert!(matches!(home, EntryMut::Occupied(_)));
    assert_eq!(script.seen, vec![(0, true), (2, false)]);
}

#[test]
fn walk_mut_goes_up_from_vacant_place() {
    let mut tree = chain();
    let mut script = Script::new(vec![
        WalkAction::Child(1),
        WalkAction::Parent,
        WalkAction::Child(0),
        WalkAction::Stop,
    ]);
    let home = tree.root_entry_mut().walk_mut(&mut script);
    assert_eq!(home.index(), 0);
    assert_eq!(script.seen, vec![(0, true), (2, false), (0, true), (1, true)]);
}

#[test]
fn walk_mut_ends_on_slot_out_of_range() {
    let mut tree = chain();
    let mut script = Script::new(vec![WalkAction::Child(0), WalkAction::Child(2), WalkAction::Parent]);
    let home = tree.root_entry_mut().walk_mut(&mut script);
    assert_eq!(home.index(), 0);
    assert_eq!(script.seen, vec![(0, true), (1, true)]);
}

#[test]
fn walk_mut_on_empty_tree_shows_vacant_root() {
    let mut tree = EtzyngerTree::<u32>::new(2);
    let mut script = Script::new(vec![WalkAction::Child(0), WalkAction::Stop]);
    let home = tree.root_entry_mut().walk_mut(&mut script);
    assert_eq!(home.index(), 0);
    assert!(matches!(home, EntryMut::Vacant(_)));
    assert_eq!(script.seen, vec![(0, false)]);
}

#[test]
fn walk_mut_handler_changes_tree_on_the_way() {
    let mut tree = EtzyngerTree::<u32>::new(2);
    tree.set_root_value(100);
    let mut grower = Grower { depth: 3, next_value: 1 };
    {
        let home = tree.root_entry_mut().walk_mut(&mut grower);
        assert_eq!(home.index(), 0);
    }
    assert_eq!(tree.len(), 4);
    assert_eq!(values(&tree), vec![101, 2, 3, 3]);
}

#[test]
fn walk_mut_on_tree_reference() {
    let mut tree = chain();
    let mut script = Script::new(vec![WalkAction::Child(0), WalkAction::Child(0)]);
    let home = (&mut tree).walk_mut(&mut script);
    assert_eq!(home.len(), 3);
    assert_eq!(script.seen, vec![(0, true), (1, true), (3, true)]);
}

#[test]
fn walk_ends_at_vacant_place_on_child() {
    let tree = chain();
    let mut script = Script::new(vec![WalkAction::Child(1), WalkAction::Child(0), WalkAction::Parent]);
    tree.walk(&mut script);
    assert_eq!(script.seen, vec![(0, true), (2, false)]);
}

#[test]
fn walk_goes_up_from_vacant_place() {
    let tree = chain();
    let mut script = Script::new(vec![WalkAction::Child(1), WalkAction::Parent, WalkAction::Stop]);
    tree.walk(&mut script);
    assert_eq!(script.seen, vec![(0, true), (2, false), (0, true)]);
}

#[test]
fn walk_ends_on_parent_at_root() {
    let tree = chain();
    let mut script = Script::new(vec![WalkAction::Parent, WalkAction::Child(0)]);
    tree.walk(&mut script);
    assert_eq!(script.seen, vec![(0, true)]);
}

#[test]
fn walk_ends_on_slot_out_of_range() {
    let tree = chain();
    let mut script = Script::new(vec![WalkAction::Child(5), WalkAction::Child(0)]);
    tree.walk(&mut script);
    assert_eq!(script.seen, vec![(0, true)]);
}

#[test]
fn walk_from_node_may_leave_its_subtree() {
    let tree = chain();
    let node = tree.node(3).unwrap();
    let mut script = Script::new(vec![WalkAction::Parent, WalkAction::Parent, WalkAction::Stop]);
    node.walk(&mut script);
    assert_eq!(script.seen, vec![(3, true), (1, true), (0, true)]);
}

#[test]
fn walk_over_exclusive_views_reads_only() {
    let mut tree = chain();
    {
        let node = tree.node_mut(1).ok().unwrap();
        let mut script = Script::new(vec![WalkAction::Child(0), WalkAction::Stop]);
        node.walk(&mut script);
        assert_eq!(script.seen, vec![(1, true), (3, true)]);
        assert_eq!(node.index(), 1);
    }
    {
        let entry = tree.root_entry_mut();
        let mut script = Script::new(vec![WalkAction::Child(1)]);
        entry.walk(&mut script);
        assert_eq!(script.seen, vec![(0, true), (2, false)]);
    }
    assert_eq!(values(&tree), vec![10, 20, 30]);
}

#[test]
fn walk_step_says_where_each_action_leads() {
    let tree = chain();
    let root = tree.root_entry();

    assert!(walk_step(root, WalkAction::Stop).is_none());
    assert!(walk_step(root, WalkAction::Parent).is_none());
    assert!(walk_step(root, WalkAction::Child(2)).is_none());

    let child = walk_step(root, WalkAction::Child(0)).unwrap();
    assert!(matches!(child, Entry::Occupied(_)));
    assert_eq!(child.index(), 1);

    let vacant = walk_step(child, WalkAction::Child(1)).unwrap();
    assert!(matches!(vacant, Entry::Vacant(_)));
    assert_eq!(vacant.index(), 4);
    assert!(walk_step(vacant, WalkAction::Child(0)).is_none());

    let back = walk_step(vacant, WalkAction::Parent).unwrap();
    assert!(matches!(back, Entry::Occupied(_)));
    assert_eq!(back.index(), 1);
}

#[test]
fn walk_mut_step_counts_levels() {
    let mut tree = chain();

    let (entry, levels, go_on) = walk_mut_step(tree.root_entry_mut(), WalkAction::Child(0), 0);
    assert_eq!((entry.index(), levels, go_on), (1, 1, true));

    let (entry, levels, go_on) = walk_mut_step(entry, WalkAction::Child(1), levels);
    assert_eq!((entry.index(), levels, go_on), (4, 2, true));
    assert!(matches!(entry, EntryMut::Vacant(_)));

    let (entry, levels, go_on) = walk_mut_step(entry, WalkAction::Child(0), levels);
    assert_eq!((entry.index(), levels, go_on), (4, 2, false));

    let (entry, levels, go_on) = walk_mut_step(entry, WalkAction::Parent, levels);
    assert_eq!((entry.index(), levels, go_on), (1, 1, true));

    let (entry, levels, go_on) = walk_mut_step(entry, WalkAction::Stop, levels);
    assert_eq!((entry.index(), levels, go_on), (1, 1, false));

    let (entry, levels, go_on) = walk_mut_step(entry, WalkAction::Parent, 0);
    assert_eq!((entry.index(), levels, go_on), (1, 0, false));

    let (entry, levels, go_on) = walk_mut_step(entry, WalkAction::Child(2), 1);
    assert_eq!((entry.index(), levels, go_on), (1, 1, false));
}
