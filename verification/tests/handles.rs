use etzynger_tree::{DepthFirstOrder, Entry, EntryMut, EtzyngerTree};

fn sample_tree() -> EtzyngerTree<u32> {
    let mut tree = EtzyngerTree::<u32>::new(2);
    {
        let mut root = tree.set_root_value(5);
        {
            let mut left = root.set_child_value(0, 2);
            left.set_child_value(0, 1);
            let mut left_right = left.set_child_value(1, 4);
            left_right.set_child_value(0, 3);
        }
        {
            let mut right = root.set_child_value(1, 7);
            right.set_child_value(1, 8);
        }
    }
    tree
}

fn values(tree: &EtzyngerTree<u32>) -> Vec<u32> {
    let mut values = vec![];
    let mut traversal = tree.breadth_first_iter();
    while let Some(node) = traversal.next() {
        values.push(*node.value());
    }
    values
}

#[test]
fn node_reaches_parent_and_children() {
    let tree = sample_tree();
    let root = tree.root().unwrap();

    assert_eq!(root.index(), 0);
    assert!(root.parent().is_none());

    let left = root.child(0).unwrap();
    assert_eq!(left.index(), 1);
    assert_eq!(*left.value(), 2);
    assert_eq!(left.parent().unwrap().index(), 0);

    let right = root.child(1).unwrap();
    assert_eq!(right.index(), 2);
    assert!(right.child(0).is_none());
    assert_eq!(*right.child(1).unwrap().value(), 8);
    assert_eq!(right.child(1).unwrap().parent().unwrap().index(), 2);
}

#[test]
fn child_entry_tells_occupied_from_vacant() {
    let tree = sample_tree();
    let right = tree.node(2).unwrap();

    match right.child_entry(0) {
        Entry::Vacant(vacant) => assert_eq!(vacant.index(), 5),
        Entry::Occupied(_) => panic!("slot 0 of the right node is empty"),
    }
    match right.child_entry(1) {
        Entry::Occupied(node) => assert_eq!(node.index(), 6),
        Entry::Vacant(_) => panic!("slot 1 of the right node is occupied"),
    }

    let vacant = right.child_entry(0);
    assert_eq!(vacant.index(), 5);
    assert_eq!(vacant.parent().unwrap().index(), 2);
}

#[test]
fn node_mut_moves_down_and_up() {
    let mut tree = sample_tree();
    let root = tree.root_mut().unwrap();

    let left = root.to_child(0).ok().unwrap();
    assert_eq!(left.index(), 1);
    let left_right = left.to_child(1).ok().unwrap();
    assert_eq!(left_right.index(), 4);
    assert_eq!(*left_right.value(), 4);

    let back = left_right.to_parent().ok().unwrap();
    assert_eq!(back.index(), 1);
    let back = back.to_parent().ok().unwrap();
    assert_eq!(back.index(), 0);
}

#[test]
fn to_child_hands_handle_back_when_slot_is_empty() {
    let mut tree = sample_tree();
    let right = tree.node_mut(2).ok().unwrap();

    match right.to_child(0) {
        Ok(_) => panic!("slot 0 of the right node is empty"),
        Err(same) => {
            assert_eq!(same.index(), 2);
            assert_eq!(*same.value(), 7);
        }
    }
}

#[test]
fn to_parent_fails_at_root() {
    let mut tree = sample_tree();
    let root = tree.root_mut().unwrap();

    match root.to_parent() {
        Ok(_) => panic!("the root has no parent"),
        Err(same) => assert_eq!(same.index(), 0),
    }
}

#[test]
fn to_parent_fails_where_session_began() {
    let mut tree = sample_tree();
    let mut root = tree.root_mut().unwrap();
    let left = root.child_mut(0).unwrap();

    assert_eq!(left.index(), 1);
    match left.to_parent() {
        Ok(_) => panic!("the session began at this node"),
        Err(same) => assert_eq!(same.index(), 1),
    }
}

#[test]
fn session_can_return_to_its_start_but_not_above() {
    let mut tree = sample_tree();
    let mut root = tree.root_mut().unwrap();
    let left = root.child_mut(0).unwrap();

    let deeper = left.to_child(1).ok().unwrap().to_child(0).ok().unwrap();
    assert_eq!(deeper.index(), 9);
    let up = deeper.to_parent().ok().unwrap().to_parent().ok().unwrap();
    assert_eq!(up.index(), 1);
    assert!(up.to_parent().is_err());
}

#[test]
fn child_mut_is_absent_for_empty_slot() {
    let mut tree = sample_tree();
    let mut right = tree.node_mut(2).ok().unwrap();

    assert!(right.child_mut(0).is_none());
    assert_eq!(right.child_mut(1).unwrap().index(), 6);
}

#[test]
fn node_mut_is_refused_for_empty_slot() {
    let mut tree = sample_tree();

    assert!(tree.node_mut(5).is_err());
    assert!(tree.node_mut(100).is_err());
    assert!(tree.parent_mut(0).is_err());
    assert_eq!(tree.parent_mut(9).ok().unwrap().index(), 4);
    assert_eq!(tree.child_mut(1, 1).ok().unwrap().index(), 4);
    assert!(tree.child_mut(2, 0).is_err());
}

#[test]
fn set_child_value_adds_and_replaces() {
    let mut tree = sample_tree();
    {
        let mut right = tree.node_mut(2).ok().unwrap();
        let added = right.set_child_value(0, 6);
        assert_eq!(added.index(), 5);
        assert_eq!(*added.value(), 6);
    }
    assert_eq!(tree.len(), 8);
    assert_eq!(values(&tree), vec![5, 2, 7, 1, 4, 6, 8, 3]);

    {
        let mut root = tree.root_mut().unwrap();
        root.set_child_value(0, Some(20));
    }
    assert_eq!(tree.len(), 8);
    assert_eq!(values(&tree), vec![5, 20, 7, 1, 4, 6, 8, 3]);
}

#[test]
fn as_node_gives_shared_view() {
    let mut tree = sample_tree();
    let left = tree.node_mut(1).ok().unwrap();
    let shared = left.as_node();

    assert_eq!(shared.index(), 1);
    assert_eq!(*shared.value(), 2);
    let mut below = vec![];
    let mut traversal = shared.depth_first_iter(DepthFirstOrder::PreOrder);
    while let Some(node) = traversal.next() {
        below.push(*node.value());
    }
    assert_eq!(below, vec![2, 1, 4, 3]);
}

#[test]
fn vacant_entry_takes_a_value() {
    let mut tree = sample_tree();
    {
        let right = tree.node_mut(2).ok().unwrap();
        match right.to_child_entry(0) {
            EntryMut::Vacant(vacant) => {
                assert_eq!(vacant.index(), 5);
                let node = vacant.insert(6);
                assert_eq!(node.index(), 5);
                assert_eq!(*node.value(), 6);
                assert_eq!(node.to_parent().ok().unwrap().index(), 2);
            }
            EntryMut::Occupied(_) => panic!("slot 0 of the right node is empty"),
        }
    }

    assert_eq!(tree.len(), 8);
    assert_eq!(values(&tree), vec![5, 2, 7, 1, 4, 6, 8, 3]);
}

#[test]
fn to_child_entry_reaches_occupied_child() {
    let mut tree = sample_tree();
    let root = tree.root_mut().unwrap();

    match root.to_child_entry(1) {
        EntryMut::Occupied(node) => {
            assert_eq!(node.index(), 2);
            assert_eq!(*node.value(), 7);
        }
        EntryMut::Vacant(_) => panic!("slot 1 of the root is occupied"),
    }
}

#[test]
fn root_entry_of_empty_tree_takes_the_root() {
    let mut tree = EtzyngerTree::<u32>::new(2);
    assert!(matches!(tree.root_entry(), Entry::Vacant(_)));

    match tree.root_entry_mut() {
        EntryMut::Vacant(vacant) => {
            let root = vacant.insert(1);
            assert_eq!(root.index(), 0);
        }
        EntryMut::Occupied(_) => panic!("the tree is empty"),
    }

    assert_eq!(tree.len(), 1);
    assert!(matches!(tree.root_entry(), Entry::Occupied(_)));
    assert!(matches!(tree.root_entry_mut(), EntryMut::Occupied(_)));
}

#[test]
fn entry_mut_moves_up_from_vacant_place() {
    let mut tree = sample_tree();
    let right = tree.node_mut(2).ok().unwrap();
    let vacant = right.to_child_entry(0);

    assert_eq!(vacant.index(), 5);
    assert_eq!(vacant.as_entry().index(), 5);
    match vacant.to_parent() {
        Ok(parent) => assert_eq!(parent.index(), 2),
        Err(_) => panic!("the place lies below the start of the session"),
    }
}

#[test]
fn entry_mut_stays_at_start_of_session() {
    let mut tree = sample_tree();

    match tree.root_entry_mut().to_parent() {
        Ok(_) => panic!("the root has no parent"),
        Err(same) => assert_eq!(same.index(), 0),
    }
}
