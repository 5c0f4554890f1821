use dltree::forest::Forest;
use dltree::DeepClone;
use dltree::internal::{LeafImpl, NodeImpl, TreeElementImpl};
use dltree::tree::{DLTreeError, Tree, Value};
use dltree::tree_elements::Leaf;

#[test]
fn tree_building_test() {
    let mut forest = Forest::new();
    let tree = Tree::new(&mut forest, Value::Node(23));
    assert!(tree.root_node().as_leaf().is_none());
    let node = tree.root_node().clone().as_node().unwrap();
    assert_eq!(*node.value(&forest), 23);

    let pushed_element = node.push_back_child(&mut forest, Value::Leaf(34));
    assert!(pushed_element.as_node().is_none());

    let leaf = pushed_element.clone().as_leaf().unwrap();
    assert_eq!(*leaf.value(&forest), 34);
    assert_eq!(node.children(&forest).len(), 1);
}

#[test]
fn value_set_test() {
    let mut forest = Forest::<i32, i32>::new();
    let node = Tree::new(&mut forest, Value::Node(34));
    *node.root_node().value_mut(&mut forest) = 33;
    assert_eq!(*node.root_node().value(&forest), 33);

    let leaf = Tree::new(&mut forest, Value::Leaf(45));
    *leaf.root_node().value_mut(&mut forest) = 44;
    assert_eq!(*leaf.root_node().value(&forest), 44);
}

#[test]
fn element_removal_test() -> Result<(), DLTreeError> {
    let mut forest = Forest::new();
    let tree = Tree::new(&mut forest, Value::Node(11));
    let node11 = tree.root_node().as_node().unwrap();
    let node21 = node11.push_back_child(&mut forest, Value::Node(21)).as_node().unwrap();
    assert_eq!(node11, node21.parent(&forest)?.unwrap());
    let _node31 = node21.push_back_child(&mut forest, Value::Node(31)).as_node().unwrap();
    let node32 = node21.push_back_child(&mut forest, Value::Node(32)).as_node().unwrap();
    let _node33 = node21.push_back_child(&mut forest, Value::Node(33)).as_node().unwrap();
    let leaf34 = node21.push_back_child(&mut forest, Value::Leaf(34)).as_leaf().unwrap();
    let leaf_41 = node32.push_back_child(&mut forest, Value::Leaf(41)).as_leaf().unwrap();
    assert_eq!(leaf_41.parent(&forest)?.unwrap(), node32);

    let removed_node_32 = node32.remove_from_tree(&mut forest)?;
    {
        let n = removed_node_32.root_node().as_node().unwrap();
        assert_eq!(*n.value(&forest), 32);
        assert_eq!(n.children(&forest).len(), 1);
        assert!(n.parent(&forest)?.is_none());
    }

    let _removed_leaf_34 = leaf34.remove_from_tree(&mut forest)?;

    assert_eq!(node21.children(&forest).len(), 2);
    assert_eq!(*node21.children(&forest).get(0).unwrap().value(&forest), 31);
    assert_eq!(*node21.children(&forest).get(1).unwrap().value(&forest), 33);

    {
        let l = leaf_41.remove_from_tree(&mut forest)?.root_node().as_leaf().unwrap();
        assert_eq!(*l.value(&forest), 41);
        assert!(l.parent(&forest)?.is_none());
    }
    {
        let n = removed_node_32.root_node().as_node().unwrap();
        assert_eq!(n.children(&forest).len(), 0);
    }
    Ok(())
}

#[test]
fn tree_element_test() -> Result<(), DLTreeError> {
    let mut forest = Forest::<i32, i32>::new();
    let tree = Tree::new(&mut forest, Value::Node(23));
    assert!(tree.root_node().parent(&forest)?.is_none());
    let node = tree.root_node().as_node().unwrap();
    let sub_tree = node.push_back_child(&mut forest, Value::Node(34));
    assert!(sub_tree.parent(&forest)?.is_some());
    let sub_sub_tree = sub_tree.as_node().unwrap().push_back_child(&mut forest, Value::Leaf(45));
    assert!(sub_sub_tree.parent(&forest)?.is_some());
    assert_eq!(sub_tree.as_node().unwrap().children(&forest).len(), 1);
    let removed_sub_sub_tree = sub_sub_tree.remove_from_tree(&mut forest)?;
    assert!(removed_sub_sub_tree.root_node().remove_from_tree(&mut forest).is_err());
    assert_eq!(sub_tree.as_node().unwrap().children(&forest).len(), 0);
    assert_eq!(tree.root_node().as_node().unwrap().children(&forest).len(), 1);
    let removed_sub_tree = sub_tree.remove_from_tree(&mut forest)?;
    assert!(removed_sub_tree.root_node().remove_from_tree(&mut forest).is_err());
    assert_eq!(tree.root_node().as_node().unwrap().children(&forest).len(), 0);
    Ok(())
}

#[test]
fn replace_test() -> Result<(), DLTreeError> {
    let mut forest = Forest::<i32, i32>::new();
    let tree = Tree::new(&mut forest, Value::Node(34));
    let leaf = tree
        .root_node()
        .as_node()
        .unwrap()
        .push_back_child(&mut forest, Value::Leaf(45));
    let node = leaf.set(&mut forest, Value::Node(56))?;
    node.as_node().unwrap().push_back_child(&mut forest, Value::Leaf(67));
    let sub_leaf = node.set(&mut forest, Value::Leaf(78))?.as_leaf().unwrap();
    assert_eq!(*sub_leaf.parent(&forest)?.unwrap().value(&forest), 34);
    Ok(())
}

#[test]
fn replace_leaf_test() -> Result<(), DLTreeError> {
    let mut forest = Forest::<i32, i32>::new();
    let tree = Tree::new(&mut forest, Value::Node(34));
    let leaf = tree
        .root_node()
        .as_node()
        .unwrap()
        .push_back_child(&mut forest, Value::Leaf(45));
    let leaf2 = tree
        .root_node()
        .as_node()
        .unwrap()
        .push_back_child(&mut forest, Value::Leaf(46));
    let node = leaf.set(&mut forest, Value::Node(56))?;
    node.as_node().unwrap().push_back_child(&mut forest, Value::Leaf(67));
    let sub_leaf = node.set_leaf(&mut forest, 78)?;
    assert_eq!(*sub_leaf.parent(&forest)?.unwrap().value(&forest), 34);

    let replaced_leaf2 = leaf2.set_leaf(&mut forest, 146)?;
    assert_eq!(*replaced_leaf2.parent(&forest)?.unwrap().value(&forest), 34);
    Ok(())
}

#[test]
fn replace_node_test() -> Result<(), DLTreeError> {
    let mut forest = Forest::<i32, i32>::new();
    let tree = Tree::new(&mut forest, Value::Node(34));
    let leaf = tree
        .root_node()
        .as_node()
        .unwrap()
        .push_back_child(&mut forest, Value::Leaf(45));
    let leaf2 = tree
        .root_node()
        .as_node()
        .unwrap()
        .push_back_child(&mut forest, Value::Leaf(46));
    let node = leaf.as_leaf().unwrap().set(&mut forest, Value::Node(56))?;
    node.as_node().unwrap().push_back_child(&mut forest, Value::Leaf(67));
    let sub_node = node.set_node(&mut forest, 78)?;
    assert_eq!(*sub_node.parent(&forest)?.unwrap().value(&forest), 34);

    let replaced_leaf2 = leaf2.set_node(&mut forest, 146)?;
    assert_eq!(*replaced_leaf2.parent(&forest)?.unwrap().value(&forest), 34);
    Ok(())
}

#[test]
fn insert_test() -> Result<(), DLTreeError> {
    let mut forest = Forest::<i32, i32>::new();
    let tree = Tree::new(&mut forest, Value::Node(11));
    tree.root_node()
        .as_node()
        .unwrap()
        .push_back_child(&mut forest, Value::Leaf(21));
    let middle_leaf = tree
        .root_node()
        .as_node()
        .unwrap()
        .push_back_child(&mut forest, Value::Leaf(22));
    tree.root_node()
        .as_node()
        .unwrap()
        .push_back_child(&mut forest, Value::Leaf(23));
    assert_eq!(
        tree.root_node()
            .as_node()
            .unwrap()
            .children(&forest)
            .iter()
            .map(|c| *c.value(&forest))
            .collect::<Vec<i32>>(),
        vec![21, 22, 23]
    );
    middle_leaf
        .as_leaf()
        .unwrap()
        .insert_before(&mut forest, Value::Leaf(44))?;
    middle_leaf
        .as_leaf()
        .unwrap()
        .insert_after(&mut forest, Value::Node(45))?;
    assert_eq!(
        tree.root_node()
            .as_node()
            .unwrap()
            .children(&forest)
            .iter()
            .map(|c| *c.value(&forest))
            .collect::<Vec<i32>>(),
        vec![21, 44, 22, 45, 23]
    );
    Ok(())
}

#[test]
fn remove_all_children_test() -> Result<(), DLTreeError> {
    let mut forest = Forest::new();
    let tree = Tree::new(&mut forest, Value::Node(23));
    let root_node = tree.root_node().as_node().unwrap();
    root_node.push_back_child(&mut forest, Value::Leaf(1));
    root_node.push_back_child(&mut forest, Value::Node(2));
    root_node.push_back_child(&mut forest, Value::Leaf(3));
    root_node.push_back_child(&mut forest, Value::Node(4));
    assert_eq!(root_node.children(&forest).len(), 4);
    let children = root_node.children(&forest);
    root_node.remove_all_children(&mut forest)?;
    assert_eq!(root_node.children(&forest).len(), 0);
    assert_eq!(
        children
            .iter()
            .filter(|c| c.parent(&forest).unwrap().is_none())
            .count(),
        4
    );
    Ok(())
}

#[test]
fn leaf_check_integrity_violation() {
    let mut forest = Forest::<i32, i32>::new();
    let mut parent_node = forest.insert_element(TreeElementImpl::Node(NodeImpl::new(21, None)));
    let leaf = Leaf::new(forest.insert_element(TreeElementImpl::Leaf(LeafImpl::new(32, Some(parent_node)))));
    parent_node = forest.insert_element(TreeElementImpl::Node(NodeImpl::new(43, None)));
    assert!(leaf.parent(&forest).is_err());
    assert!(leaf.remove_from_tree(&mut forest).is_err());
    match forest.element(parent_node) {
        TreeElementImpl::Node(n) => assert_eq!(n.value, 43),
        TreeElementImpl::Leaf(_) => panic!("the parent is interior"),
    }
}

#[test]
fn tree_element_type_check_integrity_violation() {
    let mut forest = Forest::<i32, i32>::new();
    let mut parent_node = forest.insert_element(TreeElementImpl::Node(NodeImpl::new(21, None)));
    let leaf = Leaf::new(forest.insert_element(TreeElementImpl::Leaf(LeafImpl::new(32, Some(parent_node)))));
    parent_node = forest.insert_element(TreeElementImpl::Node(NodeImpl::new(43, None)));
    assert!(leaf.parent(&forest).is_err());
    assert!(leaf.remove_from_tree(&mut forest).is_err());
    match forest.element(parent_node) {
        TreeElementImpl::Node(n) => assert_eq!(n.value, 43),
        TreeElementImpl::Leaf(_) => panic!("the parent is interior"),
    }
}

#[test]
fn deep_clone_test() -> Result<(), DLTreeError> {
    // Create a new tree with three levels under the root node
    // Clone a subtree under the root node
    // Set new values in the cloned tree
    // 1. Check integrity (all parents must be set properly)
    // 2. Check for separateness (new cloned tree must not share any node with the original tree)

    let mut forest = Forest::new();
    let tree = Tree::new(&mut forest, Value::Node(23));
    let root_node = tree.root_node().clone().as_node().unwrap();

    let _child_1a = root_node.push_back_child(&mut forest, Value::Leaf(11));
    let child_1b = root_node
        .push_back_child(&mut forest, Value::Node(12))
        .as_node()
        .unwrap();
    let _child_1c = root_node.push_back_child(&mut forest, Value::Leaf(13));

    let child_2a = child_1b.push_back_child(&mut forest, Value::Leaf(21));
    let child_2b = child_1b.push_back_child(&mut forest, Value::Leaf(22));
    let child_2c = child_1b.push_back_child(&mut forest, Value::Node(23)).as_node().unwrap();

    let child_3a = child_2c.push_back_child(&mut forest, Value::Leaf(31));
    let child_3b = child_2c.push_back_child(&mut forest, Value::Node(32));

    let cloned_node = child_1b.deep_clone(&mut forest);
    assert!(cloned_node.parent(&forest)?.is_none());
    *cloned_node.value_mut(&mut forest) = 112;
    assert_eq!(*child_1b.value(&forest), 12);
    assert_eq!(*cloned_node.value(&forest), 112);

    assert_eq!(cloned_node.children(&forest).len(), 3);
    let cloned_child_2a = cloned_node.children(&forest).get(0).unwrap().as_leaf().unwrap();
    let cloned_child_2b = cloned_node.children(&forest).get(1).unwrap().as_leaf().unwrap();
    let cloned_child_2c = cloned_node.children(&forest).get(2).unwrap().as_node().unwrap();

    *cloned_child_2a.value_mut(&mut forest) = 121;
    *cloned_child_2b.value_mut(&mut forest) = 122;
    *cloned_child_2c.value_mut(&mut forest) = 123;
    assert_eq!(*child_2a.value(&forest), 21);
    assert_eq!(*child_2b.value(&forest), 22);
    assert_eq!(*child_2c.value(&forest), 23);
    assert_eq!(*cloned_child_2a.value(&forest), 121);
    assert_eq!(*cloned_child_2b.value(&forest), 122);
    assert_eq!(*cloned_child_2c.value(&forest), 123);
    assert_eq!(*cloned_child_2a.parent(&forest)?.unwrap().value(&forest), 112);
    assert_eq!(*cloned_child_2b.parent(&forest)?.unwrap().value(&forest), 112);
    assert_eq!(*cloned_child_2c.parent(&forest)?.unwrap().value(&forest), 112);

    assert_eq!(cloned_child_2c.children(&forest).len(), 2);
    let cloned_child_3a = cloned_child_2c
        .children(&forest)
        .get(0)
        .unwrap()
        .as_leaf()
        .unwrap();
    let cloned_child_3b = cloned_child_2c
        .children(&forest)
        .get(1)
        .unwrap()
        .as_node()
        .unwrap();

    *cloned_child_3a.value_mut(&mut forest) = 131;
    *cloned_child_3b.value_mut(&mut forest) = 132;
    assert_eq!(*child_3a.value(&forest), 31);
    assert_eq!(*child_3b.value(&forest), 32);
    assert_eq!(*cloned_child_3a.value(&forest), 131);
    assert_eq!(*cloned_child_3b.value(&forest), 132);
    assert_eq!(*cloned_child_3a.parent(&forest)?.unwrap().value(&forest), 123);
    assert_eq!(*cloned_child_3b.parent(&forest)?.unwrap().value(&forest), 123);

    Ok(())
}
