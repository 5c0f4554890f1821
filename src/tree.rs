use vstd::prelude::*;
use crate::forest::Forest;
use crate::tree_elements::TreeElement;

verus! {

/// Failures of the parent-relative operations.
#[derive(Debug, Clone, Copy, PartialEq, Eq, Structural)]
pub enum DLTreeError {
    /// A back-reference names a parent that does not hold the element: the
    /// double link is broken. Correct use of the public operations never
    /// produces this.
    IntegrityViolated,
    /// A parent-relative operation (remove, replace, insert a sibling) was
    /// applied to an element without a parent.
    ChildOperationOnRootLevel,
}

/// The payload of a new element: interior (`Node`) or terminal (`Leaf`).
pub enum Value<IT, LT> {
    Node(IT),
    Leaf(LT),
}

/// An element without a parent: the owner of a detached subtree. It is
/// made by construction and handed out by every operation that detaches.
#[derive(Debug)]
pub struct Tree {
    pub root: TreeElement,
}

impl Tree {
    /// Stores `root_value` as a new parentless element.
    pub fn new<IT, LT>(forest: &mut Forest<IT, LT>, root_value: Value<IT, LT>) -> (r: Tree)
        requires
            old(forest).inv(),
        ensures
            final(forest)@ == old(forest)@.push(crate::forest::fresh_element(root_value, None)),
            r.root.id() == old(forest)@.len(),
            r.root.valid_in(final(forest)@),
            final(forest).inv(),
            old(forest).wf() ==> final(forest).wf(),
    {
        let e = crate::internal::TreeElementImpl::new(root_value, None);
        let is_node = matches!(e, crate::internal::TreeElementImpl::Node(_));
        let id = forest.insert_element(e);
        let root = if is_node {
            TreeElement::Node(crate::tree_elements::Node::new(id))
        } else {
            TreeElement::Leaf(crate::tree_elements::Leaf::new(id))
        };
        Tree { root }
    }

    /// A handle to the root.
    pub fn root_node(&self) -> (r: TreeElement)
        ensures
            r == self.root,
    {
        self.root
    }
}

} // verus!
