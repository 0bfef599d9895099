use etzynger_tree::{DepthFirstOrder, Entry, EtzyngerTree, IndexError};

fn sample_tree() -> EtzyngerTree<u32> {
    let mut tree = EtzyngerTree::<u32>::new(2);
    {
        let mut root = tree.set_root_value(5);
        {
            let mut left = root.set_child_value(0, 2);

            left.set_child_value(0, 1);
            let mut left_right = left.set_child_value(1, 4);
            left_right.set_child_value(0, 3);
        }
        {
            let mut right = root.set_child_value(1, 7);
            right.set_child_value(1, 8);
        }
    }
    tree
}

fn depth_first_values(tree: &EtzyngerTree<u32>, order: DepthFirstOrder) -> Vec<u32> {
    let mut values = vec![];
    let mut traversal = tree.depth_first_iter(order);
    while let Some(node) = traversal.next() {
        values.push(*node.value());
    }
    values
}

fn breadth_first_values(tree: &EtzyngerTree<u32>) -> Vec<u32> {
    let mut values = vec![];
    let mut traversal = tree.breadth_first_iter();
    while let Some(node) = traversal.next() {
        values.push(*node.value());
    }
    values
}

#[test]
fn root_is_none_for_empty() {
    let mut tree = EtzyngerTree::<u32>::new(2);

    assert!(matches!(tree.root(), None));
    assert!(matches!(tree.root_mut(), None));
}

#[test]
fn set_root_value_sets_root() {
    let mut tree = EtzyngerTree::<u32>::new(2);

    let expected_root = Some(5);
    tree.set_root_value(expected_root);

    assert_eq!(tree.root().map(|x| *x.value()), expected_root);
    assert_eq!(tree.root_mut().map(|x| *x.value()), expected_root);
}

#[test]
fn depth_first_iter_returns_empty_for_empty_tree() {
    let tree = EtzyngerTree::<u32>::new(2);

    assert!(matches!(
        tree.depth_first_iter(DepthFirstOrder::PostOrder).next(),
        None
    ))
}

#[test]
fn depth_first_iter_returns_depth_first() {
    let tree = sample_tree();

    assert_eq!(tree.len(), 7);

    let depth_first = depth_first_values(&tree, DepthFirstOrder::PreOrder);

    assert_eq!(depth_first, vec![5, 2, 1, 4, 3, 7, 8]);

    let depth_first = depth_first_values(&tree, DepthFirstOrder::PostOrder);

    assert_eq!(depth_first, vec![1, 3, 4, 2, 8, 7, 5]);
}

#[test]
fn breadth_first_iter_returns_empty_for_empty_tree() {
    let tree = EtzyngerTree::<u32>::new(2);

    assert!(matches!(tree.breadth_first_iter().next(), None))
}

#[test]
fn breadth_first_iter_returns_breadth_first() {
    let tree = sample_tree();

    assert_eq!(tree.len(), 7);

    let breadth_first = breadth_first_values(&tree);

    assert_eq!(breadth_first, vec![5, 2, 7, 1, 4, 8, 3]);
}

fn breadth_first_positions(tree: &EtzyngerTree<u32>) -> Vec<usize> {
    let mut positions = vec![];
    let mut traversal = tree.breadth_first_iter();
    while let Some(node) = traversal.next() {
        positions.push(node.index());
    }
    positions
}

fn depth_first_positions(tree: &EtzyngerTree<u32>, order: DepthFirstOrder) -> Vec<usize> {
    let mut positions = vec![];
    let mut traversal = tree.depth_first_iter(order);
    while let Some(node) = traversal.next() {
        positions.push(node.index());
    }
    positions
}

fn depth_of(tree: &EtzyngerTree<u32>, position: usize) -> usize {
    let mut depth = 0;
    let mut current = position;
    while let Some(parent) = tree.parent_index(current) {
        current = parent;
        depth += 1;
    }
    depth
}

fn is_ancestor(tree: &EtzyngerTree<u32>, ancestor: usize, position: usize) -> bool {
    let mut current = position;
    while let Some(parent) = tree.parent_index(current) {
        if parent == ancestor {
            return true;
        }
        current = parent;
    }
    false
}

#[test]
fn fresh_tree_is_empty() {
    let tree = EtzyngerTree::<u32>::new(3);

    assert!(tree.is_empty());
    assert_eq!(tree.len(), 0);
    assert_eq!(tree.max_children_per_node(), 3);
    assert!(tree.root().is_none());
    assert!(matches!(tree.root_entry(), Entry::Vacant(_)));
}

#[test]
fn set_root_value_on_fresh_tree_gives_one_node() {
    let mut tree = EtzyngerTree::<u32>::new(2);
    {
        let root = tree.set_root_value(7);
        assert_eq!(root.index(), 0);
        assert_eq!(*root.value(), 7);
    }

    assert_eq!(tree.len(), 1);
    assert!(!tree.is_empty());
    assert_eq!(*tree.root().unwrap().value(), 7);
}

#[test]
fn set_root_value_replaces_value_and_keeps_children() {
    let mut tree = sample_tree();
    tree.set_root_value(50);

    assert_eq!(tree.len(), 7);
    assert_eq!(breadth_first_values(&tree), vec![50, 2, 7, 1, 4, 8, 3]);
}

#[test]
fn set_root_value_to_absent_empties_tree() {
    let mut tree = sample_tree();
    tree.set_root_value(None);

    assert_eq!(tree.len(), 0);
    assert!(tree.is_empty());
    assert!(tree.root().is_none());
    assert_eq!(breadth_first_values(&tree), Vec::<u32>::new());
    assert_eq!(depth_first_values(&tree, DepthFirstOrder::PreOrder), Vec::<u32>::new());
}

#[test]
fn child_index_follows_layout_formula() {
    let tree = EtzyngerTree::<u32>::new(2);

    assert_eq!(tree.child_index(0, 0), Ok(1));
    assert_eq!(tree.child_index(0, 1), Ok(2));
    assert_eq!(tree.child_index(3, 1), Ok(8));
    assert_eq!(tree.child_index(4, 0), Ok(9));

    let wide = EtzyngerTree::<u32>::new(5);
    assert_eq!(wide.child_index(7, 3), Ok(39));
}

#[test]
fn parent_index_follows_layout_formula() {
    let tree = EtzyngerTree::<u32>::new(2);

    assert_eq!(tree.parent_index(0), None);
    assert_eq!(tree.parent_index(1), Some(0));
    assert_eq!(tree.parent_index(2), Some(0));
    assert_eq!(tree.parent_index(8), Some(3));
    assert_eq!(tree.parent_index(9), Some(4));

    let wide = EtzyngerTree::<u32>::new(5);
    assert_eq!(wide.parent_index(39), Some(7));
    assert_eq!(wide.parent_index(5), Some(0));
    assert_eq!(wide.parent_index(6), Some(1));
}

#[test]
fn child_then_parent_recovers_parent_and_slot() {
    for k in 1..6usize {
        let tree = EtzyngerTree::<u32>::new(k);
        for parent in 0..60usize {
            for slot in 0..k {
                let child = tree.child_index(parent, slot).unwrap();
                assert_eq!(tree.parent_index(child), Some(parent));
                assert_eq!((child - 1) % k, slot);
            }
        }
    }
}

#[test]
fn parent_then_child_recovers_position() {
    for k in 1..6usize {
        let tree = EtzyngerTree::<u32>::new(k);
        for position in 1..200usize {
            let parent = tree.parent_index(position).unwrap();
            let slot = (position - 1) % k;
            assert_eq!(tree.child_index(parent, slot), Ok(position));
        }
    }
}

#[test]
fn child_index_rejects_slot_out_of_range() {
    let tree = EtzyngerTree::<u32>::new(2);

    assert_eq!(tree.child_index(0, 2), Err(IndexError::SlotOutOfRange));
    assert_eq!(tree.child_index(5, 7), Err(IndexError::SlotOutOfRange));
    assert_eq!(tree.child_index(usize::MAX, 2), Err(IndexError::SlotOutOfRange));
}

#[test]
fn child_index_rejects_position_overflow() {
    let tree = EtzyngerTree::<u32>::new(2);

    assert_eq!(tree.child_index(usize::MAX, 0), Err(IndexError::PositionOverflow));
    assert_eq!(tree.child_index(usize::MAX / 2, 1), Err(IndexError::PositionOverflow));
    assert_eq!(tree.child_index(usize::MAX / 2, 0), Ok(usize::MAX));
    assert_eq!(tree.child_index(usize::MAX / 2 - 1, 1), Ok(usize::MAX - 1));
}

#[test]
fn branching_factor_zero_gives_root_only_tree() {
    let mut tree = EtzyngerTree::<u32>::new(0);

    assert_eq!(tree.child_index(0, 0), Err(IndexError::SlotOutOfRange));
    assert_eq!(tree.parent_index(0), None);
    assert_eq!(tree.parent_index(4), None);

    tree.set_root_value(9);
    assert_eq!(tree.len(), 1);
    assert_eq!(breadth_first_values(&tree), vec![9]);
    assert_eq!(depth_first_values(&tree, DepthFirstOrder::PreOrder), vec![9]);
    assert_eq!(depth_first_values(&tree, DepthFirstOrder::PostOrder), vec![9]);
}

#[test]
fn removing_a_node_removes_its_descendants() {
    let mut tree = sample_tree();
    {
        let mut root = tree.root_mut().unwrap();
        let removed = root.set_child_value(0, None);
        assert_eq!(removed.index(), 1);
    }

    assert_eq!(tree.len(), 3);
    assert_eq!(breadth_first_positions(&tree), vec![0, 2, 6]);
    assert_eq!(breadth_first_values(&tree), vec![5, 7, 8]);
    for position in [1usize, 3, 4, 9] {
        assert!(tree.node(position).is_none());
    }
}

#[test]
fn removing_a_leaf_takes_one_off_the_count() {
    let mut tree = sample_tree();
    tree.remove(9);

    assert_eq!(tree.len(), 6);
    assert_eq!(breadth_first_values(&tree), vec![5, 2, 7, 1, 4, 8]);
}

#[test]
fn removing_an_empty_place_changes_nothing() {
    let mut tree = sample_tree();
    tree.remove(5);
    tree.remove(40);

    assert_eq!(tree.len(), 7);
    assert_eq!(breadth_first_values(&tree), vec![5, 2, 7, 1, 4, 8, 3]);
}

#[test]
fn removal_leaves_ancestors_and_siblings_alone() {
    let mut tree = sample_tree();
    tree.remove(4);

    assert_eq!(tree.len(), 5);
    assert_eq!(breadth_first_positions(&tree), vec![0, 1, 2, 3, 6]);
    assert_eq!(breadth_first_values(&tree), vec![5, 2, 7, 1, 8]);
}

#[test]
fn set_value_writes_at_position() {
    let mut tree = EtzyngerTree::<u32>::new(3);
    tree.set_value(0, Some(1));
    tree.set_value(2, Some(20));
    tree.set_value(7, Some(70));

    assert_eq!(tree.len(), 3);
    assert_eq!(breadth_first_positions(&tree), vec![0, 2, 7]);
    assert_eq!(*tree.value(7), Some(70));
    assert_eq!(*tree.value(1), None);

    tree.set_value(2, Some(21));
    assert_eq!(tree.len(), 3);
    assert_eq!(*tree.value(2), Some(21));
    assert_eq!(*tree.value(7), Some(70));
}

#[test]
fn set_child_value_on_tree_writes_at_child_position() {
    let mut tree = EtzyngerTree::<u32>::new(2);
    tree.set_value(0, Some(1));
    {
        let node = tree.set_child_value(0, 1, Some(3));
        assert_eq!(node.index(), 2);
        assert_eq!(*node.value(), 3);
    }
    {
        let node = tree.set_child_value(2, 0, Some(4));
        assert_eq!(node.index(), 5);
    }

    assert_eq!(tree.len(), 3);
    assert_eq!(breadth_first_values(&tree), vec![1, 3, 4]);
}

#[test]
fn clear_removes_everything() {
    let mut tree = sample_tree();
    tree.clear();

    assert_eq!(tree.len(), 0);
    assert!(tree.is_empty());
    assert!(tree.root().is_none());
    assert_eq!(tree.max_children_per_node(), 2);
    assert!(tree.node(1).is_none());

    tree.set_root_value(1);
    assert_eq!(tree.len(), 1);
    assert_eq!(breadth_first_values(&tree), vec![1]);
}

#[test]
fn value_mut_changes_only_the_value() {
    let mut tree = sample_tree();
    *tree.value_mut(4) = 40;
    {
        let mut root = tree.root_mut().unwrap();
        *root.value_mut() += 1;
    }

    assert_eq!(tree.len(), 7);
    assert_eq!(breadth_first_values(&tree), vec![6, 2, 7, 1, 40, 8, 3]);
}

#[test]
fn pre_order_yields_ancestors_first() {
    let tree = sample_tree();
    let positions = depth_first_positions(&tree, DepthFirstOrder::PreOrder);

    assert_eq!(positions, vec![0, 1, 3, 4, 9, 2, 6]);
    for (x, &a) in positions.iter().enumerate() {
        for (y, &b) in positions.iter().enumerate() {
            if is_ancestor(&tree, a, b) {
                assert!(x < y);
            }
        }
    }
}

#[test]
fn post_order_yields_ancestors_last() {
    let tree = sample_tree();
    let positions = depth_first_positions(&tree, DepthFirstOrder::PostOrder);

    assert_eq!(positions, vec![3, 9, 4, 1, 6, 2, 0]);
    for (x, &a) in positions.iter().enumerate() {
        for (y, &b) in positions.iter().enumerate() {
            if is_ancestor(&tree, a, b) {
                assert!(x > y);
            }
        }
    }
}

#[test]
fn post_order_of_chain_is_pre_order_reversed() {
    let mut tree = EtzyngerTree::<u32>::new(3);
    {
        let mut a = tree.set_root_value(1);
        let mut b = a.set_child_value(2, 2);
        let mut c = b.set_child_value(0, 3);
        c.set_child_value(1, 4);
    }

    let pre = depth_first_values(&tree, DepthFirstOrder::PreOrder);
    let mut post = depth_first_values(&tree, DepthFirstOrder::PostOrder);
    assert_eq!(pre, vec![1, 2, 3, 4]);
    post.reverse();
    assert_eq!(post, pre);
}

#[test]
fn breadth_first_groups_by_depth() {
    let tree = sample_tree();
    let positions = breadth_first_positions(&tree);

    assert_eq!(positions, vec![0, 1, 2, 3, 4, 6, 9]);
    let depths: Vec<usize> = positions.iter().map(|&p| depth_of(&tree, p)).collect();
    assert_eq!(depths, vec![0, 1, 1, 2, 2, 2, 3]);
    for pair in depths.windows(2) {
        assert!(pair[0] <= pair[1]);
    }
}

#[test]
fn traversals_of_a_subtree_stay_inside_it() {
    let tree = sample_tree();
    let left = tree.node(1).unwrap();

    let mut pre = vec![];
    let mut traversal = left.depth_first_iter(DepthFirstOrder::PreOrder);
    while let Some(node) = traversal.next() {
        pre.push(*node.value());
    }
    assert_eq!(pre, vec![2, 1, 4, 3]);

    let mut post = vec![];
    let mut traversal = left.depth_first_iter(DepthFirstOrder::PostOrder);
    while let Some(node) = traversal.next() {
        post.push(*node.value());
    }
    assert_eq!(post, vec![1, 3, 4, 2]);

    let mut level = vec![];
    let mut traversal = left.breadth_first_iter();
    while let Some(node) = traversal.next() {
        level.push(*node.value());
    }
    assert_eq!(level, vec![2, 1, 4, 3]);
}

#[test]
fn wide_branching_factor_traverses_quickly() {
    let mut tree = EtzyngerTree::<u32>::new(usize::MAX / 4);
    {
        let mut root = tree.set_root_value(1);
        root.set_child_value(0, 2);
        root.set_child_value(3, 3);
    }

    assert_eq!(tree.len(), 3);
    assert_eq!(breadth_first_values(&tree), vec![1, 2, 3]);
    assert_eq!(depth_first_values(&tree, DepthFirstOrder::PreOrder), vec![1, 2, 3]);
    assert_eq!(depth_first_values(&tree, DepthFirstOrder::PostOrder), vec![2, 3, 1]);
}

#[test]
fn tree_equality_and_clone_follow_contents() {
    let tree = sample_tree();
    let copy = tree.clone();

    assert_eq!(tree, copy);
    let mut other = sample_tree();
    other.remove(9);
    assert_ne!(tree, other);
}
