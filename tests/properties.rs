use dltree::forest::Forest;
use dltree::internal::{LeafImpl, NodeImpl, TreeElementImpl};
use dltree::tree::{DLTreeError, Tree, Value};
use dltree::tree_elements::{Leaf, Node, TreeElement};
use dltree::DeepClone;

fn values(forest: &Forest<i32, i32>, node: Node) -> Vec<i32> {
    node.children(forest).iter().map(|c| *c.value(forest)).collect()
}

fn check_links(forest: &Forest<i32, i32>, node: Node) {
    for c in node.children(forest) {
        assert_eq!(c.parent(forest).unwrap(), Some(node));
        if let Some(n) = c.as_node() {
            check_links(forest, n);
        }
    }
}

#[test]
fn links_hold_after_mixed_operations() {
    let mut forest = Forest::<i32, i32>::new();
    let root = Tree::new(&mut forest, Value::Node(1)).root_node().as_node().unwrap();
    let a = root.push_back_child(&mut forest, Value::Node(2)).as_node().unwrap();
    let b = root.push_front_child(&mut forest, Value::Leaf(3));
    let c = a.push_back_child(&mut forest, Value::Leaf(4));
    let d = c.insert_before(&mut forest, Value::Node(5)).unwrap();
    let e = d.insert_after(&mut forest, Value::Leaf(6)).unwrap();
    check_links(&forest, root);

    let removed = b.remove_from_tree(&mut forest).unwrap();
    let replaced = e.set(&mut forest, Value::Node(7)).unwrap();
    check_links(&forest, root);
    assert_eq!(removed.root_node().parent(&forest), Ok(None));
    assert_eq!(e.parent(&forest), Ok(None));
    assert_eq!(replaced.parent(&forest), Ok(Some(a)));
    assert_eq!(values(&forest, root), vec![2]);
    assert_eq!(values(&forest, a), vec![5, 7, 4]);
}

#[test]
fn removal_takes_one_child() {
    let mut forest = Forest::<i32, i32>::new();
    let root = Tree::new(&mut forest, Value::Node(0)).root_node().as_node().unwrap();
    let first = root.push_back_child(&mut forest, Value::Leaf(1));
    root.push_back_child(&mut forest, Value::Leaf(2));
    root.push_back_child(&mut forest, Value::Leaf(3));
    assert_eq!(root.children(&forest).len(), 3);
    let tree = first.remove_from_tree(&mut forest).unwrap();
    assert_eq!(root.children(&forest).len(), 2);
    assert_eq!(first.parent(&forest), Ok(None));
    assert_eq!(tree.root_node(), first);
    assert_eq!(values(&forest, root), vec![2, 3]);
}

#[test]
fn insertion_keeps_sibling_order() {
    let mut forest = Forest::<i32, i32>::new();
    let root = Tree::new(&mut forest, Value::Node(0)).root_node().as_node().unwrap();
    let mut middle = None;
    for v in 1..=5 {
        let c = root.push_back_child(&mut forest, Value::Leaf(v));
        if v == 3 {
            middle = Some(c);
        }
    }
    let middle = middle.unwrap();
    middle.insert_after(&mut forest, Value::Leaf(31)).unwrap();
    assert_eq!(values(&forest, root), vec![1, 2, 3, 31, 4, 5]);
    middle.insert_before(&mut forest, Value::Node(29)).unwrap();
    assert_eq!(values(&forest, root), vec![1, 2, 29, 3, 31, 4, 5]);
}

#[test]
fn deep_clone_is_independent_both_ways() {
    let mut forest = Forest::<i32, i32>::new();
    let root = Tree::new(&mut forest, Value::Node(10)).root_node().as_node().unwrap();
    let leaf = root.push_back_child(&mut forest, Value::Leaf(11)).as_leaf().unwrap();
    let inner = root.push_back_child(&mut forest, Value::Node(12)).as_node().unwrap();
    inner.push_back_child(&mut forest, Value::Leaf(13));

    let copy = root.deep_clone(&mut forest);
    assert_ne!(copy, root);
    *leaf.value_mut(&mut forest) = 99;
    *inner.value_mut(&mut forest) = 98;
    let copied = copy.children(&forest);
    assert_eq!(*copied[0].value(&forest), 11);
    assert_eq!(*copied[1].value(&forest), 12);
    for c in &copied {
        assert_eq!(c.parent(&forest), Ok(Some(copy)));
    }
    let copied_inner = copied[1].as_node().unwrap();
    assert_eq!(copied_inner.children(&forest)[0].parent(&forest), Ok(Some(copied_inner)));
    *copied[0].as_leaf().unwrap().value_mut(&mut forest) = 7;
    assert_eq!(*leaf.value(&forest), 99);
    assert_eq!(root.parent(&forest), Ok(None));
    assert_eq!(copy.parent(&forest), Ok(None));
}

#[test]
fn deep_clone_of_a_leaf() {
    let mut forest = Forest::<i32, i32>::new();
    let root = Tree::new(&mut forest, Value::Node(1)).root_node().as_node().unwrap();
    let leaf = root.push_back_child(&mut forest, Value::Leaf(2)).as_leaf().unwrap();
    let copy = leaf.deep_clone(&mut forest);
    assert_ne!(copy, leaf);
    assert_eq!(*copy.value(&forest), 2);
    assert_eq!(copy.parent(&forest), Ok(None));
    assert_eq!(root.children(&forest).len(), 1);
}

#[test]
fn handles_are_identities() {
    let mut forest = Forest::<i32, i32>::new();
    let root = Tree::new(&mut forest, Value::Node(5)).root_node().as_node().unwrap();
    let a = root.push_back_child(&mut forest, Value::Leaf(6));
    let b = root.push_back_child(&mut forest, Value::Leaf(6));
    assert_eq!(a.parent(&forest).unwrap().unwrap(), b.parent(&forest).unwrap().unwrap());
    assert_eq!(root.children(&forest)[0], a);
    assert_ne!(a, b);
    let t1 = Tree::new(&mut forest, Value::Node(8));
    let t2 = Tree::new(&mut forest, Value::Node(8));
    assert_ne!(t1.root_node(), t2.root_node());
}

#[test]
fn root_level_operations_fail() {
    let mut forest = Forest::<i32, i32>::new();
    let root = Tree::new(&mut forest, Value::Node(1)).root_node();
    assert_eq!(root.remove_from_tree(&mut forest).err(), Some(DLTreeError::ChildOperationOnRootLevel));
    assert_eq!(root.set(&mut forest, Value::Leaf(2)).err(), Some(DLTreeError::ChildOperationOnRootLevel));
    assert_eq!(root.set_leaf(&mut forest, 2).err(), Some(DLTreeError::ChildOperationOnRootLevel));
    assert_eq!(root.set_node(&mut forest, 2).err(), Some(DLTreeError::ChildOperationOnRootLevel));
    let node = root.as_node().unwrap();
    assert_eq!(node.insert_before(&mut forest, Value::Leaf(2)).err(), Some(DLTreeError::ChildOperationOnRootLevel));
    assert_eq!(node.insert_after(&mut forest, Value::Leaf(2)).err(), Some(DLTreeError::ChildOperationOnRootLevel));
    assert_eq!(*root.value(&forest), 1);
}

#[test]
fn broken_back_reference_is_reported() {
    let mut forest = Forest::<i32, i32>::new();
    let parent = forest.insert_element(TreeElementImpl::Node(NodeImpl::new(1, None)));
    let leaf = Leaf::new(forest.insert_element(TreeElementImpl::Leaf(LeafImpl::new(2, Some(parent)))));
    assert_eq!(leaf.parent(&forest), Err(DLTreeError::IntegrityViolated));
    assert_eq!(leaf.set_leaf(&mut forest, 3).err(), Some(DLTreeError::IntegrityViolated));
    assert_eq!(leaf.insert_after(&mut forest, Value::Leaf(3)).err(), Some(DLTreeError::IntegrityViolated));
    assert_eq!(*leaf.value(&forest), 2);
    assert_eq!(forest.len(), 2);
}

#[test]
fn front_and_back_pushes() {
    let mut forest = Forest::<i32, i32>::new();
    let root = Tree::new(&mut forest, Value::Node(0)).root_node().as_node().unwrap();
    root.push_back_child(&mut forest, Value::Leaf(2));
    root.push_front_child(&mut forest, Value::Leaf(1));
    root.push_child(&mut forest, Value::Node(3));
    assert_eq!(values(&forest, root), vec![1, 2, 3]);
    assert!(root.children(&forest)[2].as_node().is_some());
}

#[test]
fn detached_subtree_is_reattached() {
    let mut forest = Forest::<i32, i32>::new();
    let root = Tree::new(&mut forest, Value::Node(0)).root_node().as_node().unwrap();
    let other = Tree::new(&mut forest, Value::Node(50));
    let other_root = other.root_node().as_node().unwrap();
    other_root.push_back_child(&mut forest, Value::Leaf(51));
    root.push_back_child(&mut forest, Value::Leaf(1));
    let attached = root.push_child_tree(&mut forest, other);
    assert_eq!(attached.element_id(), other_root.id);
    assert_eq!(values(&forest, root), vec![1, 50]);
    assert_eq!(other_root.parent(&forest), Ok(Some(root)));
    assert_eq!(values(&forest, other_root), vec![51]);
    check_links(&forest, root);
}

#[test]
fn remove_all_children_of_a_childless_node() {
    let mut forest = Forest::<i32, i32>::new();
    let root = Tree::new(&mut forest, Value::Node(0)).root_node().as_node().unwrap();
    assert_eq!(root.remove_all_children(&mut forest), Ok(()));
    assert_eq!(root.children(&forest).len(), 0);
}

#[test]
fn children_sorted_by_payload() {
    let mut forest = Forest::<i32, i32>::new();
    let root = Tree::new(&mut forest, Value::Node(0)).root_node().as_node().unwrap();
    for v in [5, 3, 9, 1, 7] {
        root.push_back_child(&mut forest, Value::Leaf(v));
    }
    root.sort_children_unstable(&mut forest, |f: &Forest<i32, i32>, a: &TreeElement, b: &TreeElement| {
        a.value(f).cmp(b.value(f))
    });
    assert_eq!(values(&forest, root), vec![1, 3, 5, 7, 9]);
    check_links(&forest, root);
}

#[test]
fn replaced_element_is_detached_with_its_subtree() {
    let mut forest = Forest::<i32, i32>::new();
    let root = Tree::new(&mut forest, Value::Node(0)).root_node().as_node().unwrap();
    let old = root.push_back_child(&mut forest, Value::Node(1)).as_node().unwrap();
    old.push_back_child(&mut forest, Value::Leaf(2));
    let new = old.set_node(&mut forest, 3).unwrap();
    assert_eq!(values(&forest, root), vec![3]);
    assert_eq!(new.parent(&forest), Ok(Some(root)));
    assert_eq!(old.parent(&forest), Ok(None));
    assert_eq!(values(&forest, old), vec![2]);
    assert_eq!(new.children(&forest).len(), 0);
}
