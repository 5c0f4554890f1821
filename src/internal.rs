use vstd::prelude::*;
use crate::forest::ElementView;
use crate::tree::Value;

verus! {

/// Read access to the back-reference that both kinds of storage carry.
pub trait TreeElementTrait {
    spec fn parent_spec(&self) -> Option<usize>;

    fn parent(&self) -> (r: Option<usize>)
        ensures
            r == self.parent_spec(),
    ;
}

/// Storage of an interior element: payload, ordered children (as slot
/// indices of the forest) and the back-reference to the parent's slot.
pub struct NodeImpl<IT> {
    pub parent: Option<usize>,
    pub value: IT,
    pub children: Vec<usize>,
}

/// Storage of a terminal element: payload and back-reference.
pub struct LeafImpl<LT> {
    pub parent: Option<usize>,
    pub value: LT,
}

/// One slot of the forest.
pub enum TreeElementImpl<IT, LT> {
    Node(NodeImpl<IT>),
    Leaf(LeafImpl<LT>),
}

impl<IT> NodeImpl<IT> {
    pub fn new(value: IT, parent: Option<usize>) -> (r: Self)
        ensures
            r.value == value,
            r.parent == parent,
            r.children@ == Seq::<usize>::empty(),
    {
        NodeImpl { parent, value, children: Vec::new() }
    }
}

impl<LT> LeafImpl<LT> {
    pub fn new(value: LT, parent: Option<usize>) -> (r: Self)
        ensures
            r.value == value,
            r.parent == parent,
    {
        LeafImpl { parent, value }
    }
}

impl<IT> TreeElementTrait for NodeImpl<IT> {
    open spec fn parent_spec(&self) -> Option<usize> {
        self.parent
    }

    fn parent(&self) -> (r: Option<usize>) {
        self.parent
    }
}

impl<LT> TreeElementTrait for LeafImpl<LT> {
    open spec fn parent_spec(&self) -> Option<usize> {
        self.parent
    }

    fn parent(&self) -> (r: Option<usize>) {
        self.parent
    }
}

impl<IT, LT> TreeElementImpl<IT, LT> {
    /// The back-reference of either kind.
    pub fn parent(&self) -> (r: Option<usize>)
        ensures
            r == self.view_element().parent,
    {
        match self {
            TreeElementImpl::Node(n) => n.parent(),
            TreeElementImpl::Leaf(l) => l.parent(),
        }
    }

    /// The slot as mathematics; a terminal element has no children.
    pub open spec fn view_element(&self) -> ElementView<IT, LT> {
        match self {
            TreeElementImpl::Node(n) => ElementView {
                parent: n.parent,
                payload: Value::Node(n.value),
                children: n.children@,
            },
            TreeElementImpl::Leaf(l) => ElementView {
                parent: l.parent,
                payload: Value::Leaf(l.value),
                children: Seq::empty(),
            },
        }
    }

    /// Builds the storage of a new element from its payload.
    pub fn new(value: Value<IT, LT>, parent: Option<usize>) -> (r: Self)
        ensures
            r.view_element() == (ElementView { parent, payload: value, children: Seq::empty() }),
    {
        match value {
            Value::Node(n) => TreeElementImpl::Node(NodeImpl::new(n, parent)),
            Value::Leaf(l) => TreeElementImpl::Leaf(LeafImpl::new(l, parent)),
        }
    }

    /// Overwrites the back-reference and nothing else.
    pub(crate) fn update_parent(&mut self, parent: Option<usize>)
        ensures
            final(self).view_element() == (ElementView { parent, ..old(self).view_element() }),
            *final(self) is Node <==> *old(self) is Node,
    {
        match self {
            TreeElementImpl::Node(n) => n.parent = parent,
            TreeElementImpl::Leaf(l) => l.parent = parent,
        }
    }
}

} // verus!
