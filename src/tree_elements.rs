use vstd::prelude::*;
use std::cmp::Ordering;
use crate::DeepClone;
use crate::forest::{
    ElementView, Forest, copied_at, descends, first_index, fresh_element, is_copy, is_leaf_at,
    is_node_at, lemma_first_index, parent_link,
};
use crate::internal::TreeElementImpl;
use crate::tree::{DLTreeError, Tree, Value};

verus! {

/// The handle, of the right kind, of the element stored at `i`.
pub open spec fn element_at<IT, LT>(v: Seq<ElementView<IT, LT>>, i: int) -> TreeElement {
    if v[i].payload is Node {
        TreeElement::Node(Node { id: i as usize })
    } else {
        TreeElement::Leaf(Leaf { id: i as usize })
    }
}

/// `compare` puts `a` no later than `b`: no outcome of comparing them is
/// `Greater`.
pub open spec fn ordered_by<IT, LT, F: Fn(&Forest<IT, LT>, &TreeElement, &TreeElement) -> Ordering>(
    compare: F,
    f: Forest<IT, LT>,
    a: TreeElement,
    b: TreeElement,
) -> bool {
    forall|o: Ordering| #[trigger] compare.ensures((&f, &a, &b), o) ==> o != Ordering::Greater
}

/// `compare`, on forest `f`, is a total preorder: whether it answers
/// `Greater` depends on the two handles alone, any two handles are ordered
/// one way or the other, and the order is transitive.
pub open spec fn is_total_preorder<IT, LT, F: Fn(&Forest<IT, LT>, &TreeElement, &TreeElement) -> Ordering>(
    compare: F,
    f: Forest<IT, LT>,
) -> bool {
    &&& forall|a: TreeElement, b: TreeElement, o1: Ordering, o2: Ordering|
        #[trigger] compare.ensures((&f, &a, &b), o1) && #[trigger] compare.ensures((&f, &a, &b), o2) ==> (o1
            == Ordering::Greater <==> o2 == Ordering::Greater)
    &&& forall|a: TreeElement, b: TreeElement|
        #[trigger] ordered_by(compare, f, a, b) || #[trigger] ordered_by(compare, f, b, a)
    &&& forall|a: TreeElement, b: TreeElement, c: TreeElement|
        #[trigger] ordered_by(compare, f, a, b) && #[trigger] ordered_by(compare, f, b, c) ==> ordered_by(
            compare,
            f,
            a,
            c,
        )
}

/// What `parent` reports for element `i`.
pub open spec fn parent_result<IT, LT>(v: Seq<ElementView<IT, LT>>, i: int) -> Result<Option<Node>, DLTreeError> {
    match parent_link(v, i) {
        Ok(Some(p)) => Ok(Some(Node { id: p })),
        Ok(None) => Ok(None),
        Err(e) => Err(e),
    }
}

/// The forest after element `i` has left the children of its parent `p`
/// and lost its back-reference.
pub open spec fn without_child<IT, LT>(v: Seq<ElementView<IT, LT>>, p: int, i: int) -> Seq<ElementView<IT, LT>> {
    v.update(
        p,
        ElementView { children: v[p].children.remove(first_index(v[p].children, i as usize)), ..v[p] },
    ).update(i, ElementView { parent: None, ..v[i] })
}

/// The forest after a new element made from `value` has taken the place of
/// element `i` among the children of `p`; `i` loses its back-reference.
pub open spec fn with_replaced_child<IT, LT>(v: Seq<ElementView<IT, LT>>, p: int, i: int, value: Value<IT, LT>) -> Seq<ElementView<IT, LT>> {
    v.update(
        p,
        ElementView {
            children: v[p].children.update(first_index(v[p].children, i as usize), v.len() as usize),
            ..v[p]
        },
    ).update(i, ElementView { parent: None, ..v[i] }).push(fresh_element(value, Some(p as usize)))
}

/// The forest after a new element made from `value` has been put at
/// position `pos` of the children of `p`.
pub open spec fn with_new_child<IT, LT>(v: Seq<ElementView<IT, LT>>, p: int, pos: int, value: Value<IT, LT>) -> Seq<ElementView<IT, LT>> {
    v.update(
        p,
        ElementView { children: v[p].children.insert(pos, v.len() as usize), ..v[p] },
    ).push(fresh_element(value, Some(p as usize)))
}

/// `remove_from_tree` on element `i`: forest `v` became `w`, result `r`.
pub open spec fn removal<IT, LT>(v: Seq<ElementView<IT, LT>>, i: int, w: Seq<ElementView<IT, LT>>, r: Result<Tree, DLTreeError>) -> bool {
    match parent_link(v, i) {
        Ok(Some(p)) => r == Ok::<Tree, DLTreeError>(Tree { root: element_at(v, i) }) && w == without_child(v, p as int, i),
        Ok(None) => r == Err::<Tree, DLTreeError>(DLTreeError::ChildOperationOnRootLevel) && w == v,
        Err(e) => r == Err::<Tree, DLTreeError>(e) && w == v,
    }
}

/// Replacing element `i` by `value`: forest `v` became `w`; `r` is the
/// index of the new element or the error.
pub open spec fn replacement<IT, LT>(v: Seq<ElementView<IT, LT>>, i: int, value: Value<IT, LT>, w: Seq<ElementView<IT, LT>>, r: Result<usize, DLTreeError>) -> bool {
    match parent_link(v, i) {
        Ok(Some(p)) => r == Ok::<usize, DLTreeError>(v.len() as usize) && w == with_replaced_child(v, p as int, i, value),
        Ok(None) => r == Err::<usize, DLTreeError>(DLTreeError::ChildOperationOnRootLevel) && w == v,
        Err(e) => r == Err::<usize, DLTreeError>(e) && w == v,
    }
}

/// Inserting `value` as a sibling right before (or, with `after`, right
/// after) element `i`: forest `v` became `w`; `r` is the index of the new
/// element or the error.
pub open spec fn insertion<IT, LT>(v: Seq<ElementView<IT, LT>>, i: int, after: bool, value: Value<IT, LT>, w: Seq<ElementView<IT, LT>>, r: Result<usize, DLTreeError>) -> bool {
    match parent_link(v, i) {
        Ok(Some(p)) => {
            let pos = first_index(v[p as int].children, i as usize) + if after { 1int } else { 0int };
            r == Ok::<usize, DLTreeError>(v.len() as usize) && w == with_new_child(v, p as int, pos, value)
        },
        Ok(None) => r == Err::<usize, DLTreeError>(DLTreeError::ChildOperationOnRootLevel) && w == v,
        Err(e) => r == Err::<usize, DLTreeError>(e) && w == v,
    }
}

/// The index in a result that carries a handle.
pub open spec fn result_id(r: Result<TreeElement, DLTreeError>) -> Result<usize, DLTreeError> {
    match r {
        Ok(e) => Ok(e.id()),
        Err(e) => Err(e),
    }
}

/// A handle to an element of either kind: the index of its slot. Handles
/// are copied freely and compare equal exactly when they designate the
/// same slot.
#[derive(Debug, Clone, Copy, PartialEq, Eq, Structural)]
pub struct TreeElementType {
    pub id: usize,
}

impl TreeElementType {
    pub fn new(id: usize) -> (r: Self)
        ensures
            r.id == id,
    {
        TreeElementType { id }
    }

    /// Resolves the back-reference: no parent, the parent, or
    /// `IntegrityViolated` when the element named as parent does not hold
    /// this one.
    pub fn parent<IT, LT>(&self, forest: &Forest<IT, LT>) -> (r: Result<Option<Node>, DLTreeError>)
        requires
            self.id < forest@.len(),
        ensures
            r == parent_result(forest@, self.id as int),
    {
        match forest.parent_of(self.id) {
            Ok(Some(p)) => Ok(Some(Node::new(p))),
            Ok(None) => Ok(None),
            Err(e) => Err(e),
        }
    }

    /// Takes this element out of its parent's children; it becomes the
    /// root of the returned tree, its subtree staying with it.
    pub fn remove_from_tree<IT, LT>(&self, forest: &mut Forest<IT, LT>) -> (r: Result<Tree, DLTreeError>)
        requires
            old(forest).inv(),
            self.id < old(forest)@.len(),
        ensures
            removal(old(forest)@, self.id as int, final(forest)@, r),
            final(forest).inv(),
            old(forest).wf() ==> final(forest).wf(),
    {
        match forest.child_slot(self.id) {
            Err(e) => Err(e),
            Ok((p, k)) => {
                proof {
                    lemma_first_index(forest@[p as int].children, self.id, k as int);
                }
                let root = TreeElement::new(forest, self.id);
                forest.detach(p, k);
                Ok(Tree { root })
            },
        }
    }

    /// Puts a new element made from `value` in this element's place among
    /// its parent's children. This element and its subtree are left
    /// detached.
    pub fn set<IT, LT>(&self, forest: &mut Forest<IT, LT>, value: Value<IT, LT>) -> (r: Result<TreeElement, DLTreeError>)
        requires
            old(forest).inv(),
            self.id < old(forest)@.len(),
        ensures
            replacement(old(forest)@, self.id as int, value, final(forest)@, result_id(r)),
            r is Ok ==> r->Ok_0 == element_at(final(forest)@, r->Ok_0.id() as int),
            final(forest).inv(),
            old(forest).wf() ==> final(forest).wf(),
    {
        match forest.child_slot(self.id) {
            Err(e) => Err(e),
            Ok((p, k)) => {
                proof {
                    lemma_first_index(forest@[p as int].children, self.id, k as int);
                }
                let n = forest.replace_at(p, k, value);
                Ok(TreeElement::new(forest, n))
            },
        }
    }

    /// `set` with a terminal payload.
    pub fn set_leaf<IT, LT>(&self, forest: &mut Forest<IT, LT>, value: LT) -> (r: Result<Leaf, DLTreeError>)
        requires
            old(forest).inv(),
            self.id < old(forest)@.len(),
        ensures
            replacement(
                old(forest)@,
                self.id as int,
                Value::<IT, LT>::Leaf(value),
                final(forest)@,
                match r {
                    Ok(l) => Ok(l.id),
                    Err(e) => Err(e),
                },
            ),
            final(forest).inv(),
            old(forest).wf() ==> final(forest).wf(),
    {
        match forest.child_slot(self.id) {
            Err(e) => Err(e),
            Ok((p, k)) => {
                proof {
                    lemma_first_index(forest@[p as int].children, self.id, k as int);
                }
                let n = forest.replace_at(p, k, Value::Leaf(value));
                Ok(Leaf::new(n))
            },
        }
    }

    /// `set` with an interior payload.
    pub fn set_node<IT, LT>(&self, forest: &mut Forest<IT, LT>, value: IT) -> (r: Result<Node, DLTreeError>)
        requires
            old(forest).inv(),
            self.id < old(forest)@.len(),
        ensures
            replacement(
                old(forest)@,
                self.id as int,
                Value::<IT, LT>::Node(value),
                final(forest)@,
                match r {
                    Ok(n) => Ok(n.id),
                    Err(e) => Err(e),
                },
            ),
            final(forest).inv(),
            old(forest).wf() ==> final(forest).wf(),
    {
        match forest.child_slot(self.id) {
            Err(e) => Err(e),
            Ok((p, k)) => {
                proof {
                    lemma_first_index(forest@[p as int].children, self.id, k as int);
                }
                let n = forest.replace_at(p, k, Value::Node(value));
                Ok(Node::new(n))
            },
        }
    }

    /// Puts a new sibling made from `value` right before this element.
    pub fn insert_before<IT, LT>(&self, forest: &mut Forest<IT, LT>, value: Value<IT, LT>) -> (r: Result<TreeElement, DLTreeError>)
        requires
            old(forest).inv(),
            self.id < old(forest)@.len(),
        ensures
            insertion(old(forest)@, self.id as int, false, value, final(forest)@, result_id(r)),
            r is Ok ==> r->Ok_0 == element_at(final(forest)@, r->Ok_0.id() as int),
            final(forest).inv(),
            old(forest).wf() ==> final(forest).wf(),
    {
        match forest.child_slot(self.id) {
            Err(e) => Err(e),
            Ok((p, k)) => {
                proof {
                    lemma_first_index(forest@[p as int].children, self.id, k as int);
                }
                let n = forest.attach_new(p, k, value);
                Ok(TreeElement::new(forest, n))
            },
        }
    }

    /// Puts a new sibling made from `value` right after this element.
    pub fn insert_after<IT, LT>(&self, forest: &mut Forest<IT, LT>, value: Value<IT, LT>) -> (r: Result<TreeElement, DLTreeError>)
        requires
            old(forest).inv(),
            self.id < old(forest)@.len(),
        ensures
            insertion(old(forest)@, self.id as int, true, value, final(forest)@, result_id(r)),
            r is Ok ==> r->Ok_0 == element_at(final(forest)@, r->Ok_0.id() as int),
            final(forest).inv(),
            old(forest).wf() ==> final(forest).wf(),
    {
        match forest.child_slot(self.id) {
            Err(e) => Err(e),
            Ok((p, k)) => {
                proof {
                    lemma_first_index(forest@[p as int].children, self.id, k as int);
                }
                let n = forest.attach_new(p, k + 1, value);
                Ok(TreeElement::new(forest, n))
            },
        }
    }
}

/// A handle to an interior element.
#[derive(Debug, Clone, Copy, PartialEq, Eq, Structural)]
pub struct Node {
    pub id: usize,
}

/// A handle to a terminal element.
#[derive(Debug, Clone, Copy, PartialEq, Eq, Structural)]
pub struct Leaf {
    pub id: usize,
}

/// A handle to an element of either kind, tagged with the kind.
#[derive(Debug, Clone, Copy, PartialEq, Eq, Structural)]
pub enum TreeElement {
    Node(Node),
    Leaf(Leaf),
}

impl Node {
    pub fn new(id: usize) -> (r: Self)
        ensures
            r.id == id,
    {
        Node { id }
    }

    /// The handle designates an interior element of `v`.
    pub open spec fn valid_in<IT, LT>(self, v: Seq<ElementView<IT, LT>>) -> bool {
        is_node_at(v, self.id as int)
    }

    /// The payload.
    pub fn value<'a, IT, LT>(&self, forest: &'a Forest<IT, LT>) -> (r: &'a IT)
        requires
            self.valid_in(forest@),
        ensures
            forest@[self.id as int].payload == Value::<IT, LT>::Node(*r),
    {
        forest.node_value(self.id)
    }

    /// Write access to the payload; nothing else changes. The shape is
    /// kept: see `Forest::lemma_payload_edit`.
    pub fn value_mut<'a, IT, LT>(&self, forest: &'a mut Forest<IT, LT>) -> (r: &'a mut IT)
        requires
            self.valid_in(old(forest)@),
        ensures
            old(forest)@[self.id as int].payload == Value::<IT, LT>::Node(*r),
            final(forest)@ == old(forest)@.update(
                self.id as int,
                ElementView { payload: Value::Node(*final(r)), ..old(forest)@[self.id as int] },
            ),
            final(forest).same_rank(*old(forest)),
    {
        forest.node_value_mut(self.id)
    }

    /// Stores `value` as a new last child.
    pub fn push_back_child<IT, LT>(&self, forest: &mut Forest<IT, LT>, value: Value<IT, LT>) -> (r: TreeElement)
        requires
            old(forest).inv(),
            self.valid_in(old(forest)@),
        ensures
            final(forest)@ == with_new_child(old(forest)@, self.id as int, old(forest)@[self.id as int].children.len() as int, value),
            r.id() == old(forest)@.len(),
            r == element_at(final(forest)@, r.id() as int),
            final(forest).inv(),
            old(forest).wf() ==> final(forest).wf(),
    {
        let k = forest.child_count(self.id);
        let n = forest.attach_new(self.id, k, value);
        TreeElement::new(forest, n)
    }

    /// Stores `value` as a new first child.
    pub fn push_front_child<IT, LT>(&self, forest: &mut Forest<IT, LT>, value: Value<IT, LT>) -> (r: TreeElement)
        requires
            old(forest).inv(),
            self.valid_in(old(forest)@),
        ensures
            final(forest)@ == with_new_child(old(forest)@, self.id as int, 0, value),
            r.id() == old(forest)@.len(),
            r == element_at(final(forest)@, r.id() as int),
            final(forest).inv(),
            old(forest).wf() ==> final(forest).wf(),
    {
        let n = forest.attach_new(self.id, 0, value);
        TreeElement::new(forest, n)
    }

    /// Stores `value` as a new last child; the same as `push_back_child`.
    pub fn push_child<IT, LT>(&self, forest: &mut Forest<IT, LT>, value: Value<IT, LT>) -> (r: TreeElement)
        requires
            old(forest).inv(),
            self.valid_in(old(forest)@),
        ensures
            final(forest)@ == with_new_child(old(forest)@, self.id as int, old(forest)@[self.id as int].children.len() as int, value),
            r.id() == old(forest)@.len(),
            r == element_at(final(forest)@, r.id() as int),
            final(forest).inv(),
            old(forest).wf() ==> final(forest).wf(),
    {
        self.push_back_child(forest, value)
    }

    /// Makes the root of the detached `subtree` the last child of this
    /// element. The subtree must not hold this element: that would close a
    /// cycle.
    pub fn push_child_tree<IT, LT>(&self, forest: &mut Forest<IT, LT>, subtree: Tree) -> (r: TreeElement)
        requires
            old(forest).wf(),
            self.valid_in(old(forest)@),
            subtree.root.valid_in(old(forest)@),
            old(forest)@[subtree.root.id() as int].parent is None,
            !descends(old(forest)@, subtree.root.id() as int, self.id as int),
        ensures
            ({
                let t = subtree.root.id();
                let v = old(forest)@;
                final(forest)@ == v.update(t as int, ElementView { parent: Some(self.id), ..v[t as int] }).update(
                    self.id as int,
                    ElementView { children: v[self.id as int].children.push(t), ..v[self.id as int] },
                )
            }),
            r == subtree.root,
            final(forest).wf(),
    {
        let t = subtree.root.element_id();
        forest.attach_tree(self.id, t);
        subtree.root
    }

    /// Detaches every child at once: the children become empty and each
    /// former child loses its back-reference. It never fails.
    pub fn remove_all_children<IT, LT>(&self, forest: &mut Forest<IT, LT>) -> (r: Result<(), DLTreeError>)
        requires
            old(forest).inv(),
            self.valid_in(old(forest)@),
        ensures
            r == Ok::<(), DLTreeError>(()),
            final(forest)@.len() == old(forest)@.len(),
            final(forest)@[self.id as int] == (ElementView { children: Seq::empty(), ..old(forest)@[self.id as int] }),
            forall|i: int| 0 <= i < old(forest)@.len() && i != self.id ==> #[trigger] final(forest)@[i] == if old(forest)@[self.id as int].children.contains(i as usize) {
                ElementView { parent: None, ..old(forest)@[i] }
            } else {
                old(forest)@[i]
            },
            final(forest).inv(),
            old(forest).wf() ==> final(forest).wf(),
    {
        forest.release_all(self.id);
        Ok(())
    }

    /// Reorders the children by `compare`, which sees the forest and two
    /// child handles and must be a total preorder (as for std's
    /// `sort_unstable_by`). The children keep their links and come out in
    /// `compare`'s order; elements that `compare` finds equal may change
    /// places.
    pub fn sort_children_unstable<IT, LT, F>(&self, forest: &mut Forest<IT, LT>, compare: F)
        where
            F: Fn(&Forest<IT, LT>, &TreeElement, &TreeElement) -> Ordering,
        requires
            old(forest).inv(),
            self.valid_in(old(forest)@),
            forall|f: &Forest<IT, LT>, a: &TreeElement, b: &TreeElement| compare.requires((f, a, b)),
            is_total_preorder(compare, *old(forest)),
        ensures
            ({
                let v = old(forest)@;
                let w = final(forest)@;
                &&& w == v.update(self.id as int, ElementView { children: w[self.id as int].children, ..v[self.id as int] })
                &&& w[self.id as int].children.to_multiset() == v[self.id as int].children.to_multiset()
            }),
            ({
                let v = old(forest)@;
                let c = final(forest)@[self.id as int].children;
                forall|i: int, j: int| 0 <= i < j < c.len() ==> ordered_by(
                    compare,
                    *old(forest),
                    #[trigger] element_at(v, c[i] as int),
                    #[trigger] element_at(v, c[j] as int),
                )
            }),
            final(forest).inv(),
            old(forest).wf() ==> final(forest).wf(),
    {
        let ghost oc = forest@[self.id as int].children;
        let ghost v = forest@;
        let ghost f0 = *forest;
        let count = forest.child_count(self.id);
        let mut out: Vec<usize> = Vec::new();
        let mut i: usize = 0;
        assert(out@ =~= oc.subrange(0, 0));
        while i < count
            invariant
                *forest == f0,
                f0 == *old(forest),
                v == forest@,
                forest.inv(),
                self.valid_in(forest@),
                oc == forest@[self.id as int].children,
                count == oc.len(),
                i <= count,
                out@.to_multiset() == oc.subrange(0, i as int).to_multiset(),
                forall|k: int| 0 <= k < out@.len() ==> #[trigger] out@[k] < forest@.len(),
                forall|f: &Forest<IT, LT>, a: &TreeElement, b: &TreeElement| compare.requires((f, a, b)),
                is_total_preorder(compare, f0),
                forall|a: int, b: int| 0 <= a < b < out@.len() ==> ordered_by(
                    compare,
                    f0,
                    #[trigger] element_at(v, out@[a] as int),
                    #[trigger] element_at(v, out@[b] as int),
                ),
            decreases count - i,
        {
            let c = forest.child_at(self.id, i);
            proof {
                forest.lemma_child_in_range(self.id as int, i as int);
            }
            let ce = TreeElement::new(forest, c);
            let mut pos: usize = 0;
            let mut found = false;
            while pos < out.len() && !found
                invariant
                    *forest == f0,
                    v == forest@,
                    pos <= out@.len(),
                    forall|k: int| 0 <= k < out@.len() ==> #[trigger] out@[k] < forest@.len(),
                    forall|f: &Forest<IT, LT>, a: &TreeElement, b: &TreeElement| compare.requires((f, a, b)),
                    is_total_preorder(compare, f0),
                    forall|k: int| 0 <= k < pos ==> ordered_by(compare, f0, #[trigger] element_at(v, out@[k] as int), ce),
                    found ==> pos < out@.len() && ordered_by(compare, f0, ce, element_at(v, out@[pos as int] as int)),
                decreases out@.len() - pos + if found { 0int } else { 1int },
            {
                let oe = TreeElement::new(forest, out[pos]);
                let r = compare(&*forest, &oe, &ce);
                proof {
                    assert(compare.ensures((&f0, &oe, &ce), r));
                }
                match r {
                    Ordering::Greater => {
                        proof {
                            assert(!ordered_by(compare, f0, oe, ce));
                        }
                        found = true;
                    },
                    _ => {
                        proof {
                            assert(ordered_by(compare, f0, oe, ce));
                        }
                        pos = pos + 1;
                    },
                }
            }
            proof {
                broadcast use vstd::seq_lib::to_multiset_insert;
                broadcast use vstd::seq_lib::to_multiset_build;
                assert(oc.subrange(0, i + 1) =~= oc.subrange(0, i as int).push(c));
            }
            let ghost before = out@;
            out.insert(pos, c);
            proof {
                assert forall|k: int| 0 <= k < out@.len() implies #[trigger] out@[k] < forest@.len() by {
                    if k < pos {
                        assert(out@[k] == before[k]);
                    } else if k > pos {
                        assert(out@[k] == before[k - 1]);
                    }
                }
                assert forall|a: int, b: int| 0 <= a < b < out@.len() implies ordered_by(
                    compare,
                    f0,
                    #[trigger] element_at(v, out@[a] as int),
                    #[trigger] element_at(v, out@[b] as int),
                ) by {
                    let ea = element_at(v, out@[a] as int);
                    let eb = element_at(v, out@[b] as int);
                    if a < pos && b < pos {
                        assert(out@[a] == before[a] && out@[b] == before[b]);
                    } else if a < pos && b == pos {
                        assert(out@[a] == before[a]);
                        assert(ordered_by(compare, f0, element_at(v, before[a] as int), ce));
                    } else if a < pos {
                        assert(out@[a] == before[a] && out@[b] == before[b - 1]);
                        assert(ordered_by(compare, f0, element_at(v, before[a] as int), element_at(v, before[b - 1] as int)));
                    } else if a == pos {
                        assert(out@[b] == before[b - 1]);
                        assert(found);
                        if b - 1 > pos {
                            assert(ordered_by(compare, f0, element_at(v, before[pos as int] as int), element_at(v, before[b - 1] as int)));
                        }
                    } else {
                        assert(out@[a] == before[a - 1] && out@[b] == before[b - 1]);
                        assert(ordered_by(compare, f0, element_at(v, before[a - 1] as int), element_at(v, before[b - 1] as int)));
                    }
                }
            }
            i = i + 1;
        }
        proof {
            assert(oc.subrange(0, count as int) =~= oc);
        }
        forest.reorder_children(self.id, out);
    }

    /// Handles to the children, in order.
    pub fn children<IT, LT>(&self, forest: &Forest<IT, LT>) -> (r: Vec<TreeElement>)
        requires
            forest.inv(),
            self.valid_in(forest@),
        ensures
            r@.len() == forest@[self.id as int].children.len(),
            forall|k: int| 0 <= k < r@.len() ==> #[trigger] r@[k] == element_at(forest@, forest@[self.id as int].children[k] as int),
    {
        let count = forest.child_count(self.id);
        let mut r: Vec<TreeElement> = Vec::new();
        let mut k: usize = 0;
        while k < count
            invariant
                forest.inv(),
                self.valid_in(forest@),
                count == forest@[self.id as int].children.len(),
                k <= count,
                r@.len() == k,
                forall|j: int| 0 <= j < k ==> #[trigger] r@[j] == element_at(forest@, forest@[self.id as int].children[j] as int),
            decreases count - k,
        {
            let c = forest.child_at(self.id, k);
            proof {
                forest.lemma_child_in_range(self.id as int, k as int);
            }
            r.push(TreeElement::new(forest, c));
            k = k + 1;
        }
        r
    }

    /// Resolves the back-reference (see `TreeElementType::parent`).
    pub fn parent<IT, LT>(&self, forest: &Forest<IT, LT>) -> (r: Result<Option<Node>, DLTreeError>)
        requires
            self.id < forest@.len(),
        ensures
            r == parent_result(forest@, self.id as int),
    {
        TreeElementType::new(self.id).parent(forest)
    }

    /// Detaches this element with its subtree (see `TreeElementType::remove_from_tree`).
    pub fn remove_from_tree<IT, LT>(&self, forest: &mut Forest<IT, LT>) -> (r: Result<Tree, DLTreeError>)
        requires
            old(forest).inv(),
            self.id < old(forest)@.len(),
        ensures
            removal(old(forest)@, self.id as int, final(forest)@, r),
            final(forest).inv(),
            old(forest).wf() ==> final(forest).wf(),
    {
        TreeElementType::new(self.id).remove_from_tree(forest)
    }

    /// Replaces this element by a new one made from `value` (see `TreeElementType::set`).
    pub fn set<IT, LT>(&self, forest: &mut Forest<IT, LT>, value: Value<IT, LT>) -> (r: Result<TreeElement, DLTreeError>)
        requires
            old(forest).inv(),
            self.id < old(forest)@.len(),
        ensures
            replacement(old(forest)@, self.id as int, value, final(forest)@, result_id(r)),
            r is Ok ==> r->Ok_0 == element_at(final(forest)@, r->Ok_0.id() as int),
            final(forest).inv(),
            old(forest).wf() ==> final(forest).wf(),
    {
        TreeElementType::new(self.id).set(forest, value)
    }

    /// Replaces this element by a new terminal one.
    pub fn set_leaf<IT, LT>(&self, forest: &mut Forest<IT, LT>, value: LT) -> (r: Result<Leaf, DLTreeError>)
        requires
            old(forest).inv(),
            self.id < old(forest)@.len(),
        ensures
            replacement(
                old(forest)@,
                self.id as int,
                Value::<IT, LT>::Leaf(value),
                final(forest)@,
                match r {
                    Ok(l) => Ok(l.id),
                    Err(e) => Err(e),
                },
            ),
            final(forest).inv(),
            old(forest).wf() ==> final(forest).wf(),
    {
        TreeElementType::new(self.id).set_leaf(forest, value)
    }

    /// Replaces this element by a new interior one.
    pub fn set_node<IT, LT>(&self, forest: &mut Forest<IT, LT>, value: IT) -> (r: Result<Node, DLTreeError>)
        requires
            old(forest).inv(),
            self.id < old(forest)@.len(),
        ensures
            replacement(
                old(forest)@,
                self.id as int,
                Value::<IT, LT>::Node(value),
                final(forest)@,
                match r {
                    Ok(n) => Ok(n.id),
                    Err(e) => Err(e),
                },
            ),
            final(forest).inv(),
            old(forest).wf() ==> final(forest).wf(),
    {
        TreeElementType::new(self.id).set_node(forest, value)
    }

    /// Puts a new sibling made from `value` right before this element.
    pub fn insert_before<IT, LT>(&self, forest: &mut Forest<IT, LT>, value: Value<IT, LT>) -> (r: Result<TreeElement, DLTreeError>)
        requires
            old(forest).inv(),
            self.id < old(forest)@.len(),
        ensures
            insertion(old(forest)@, self.id as int, false, value, final(forest)@, result_id(r)),
            r is Ok ==> r->Ok_0 == element_at(final(forest)@, r->Ok_0.id() as int),
            final(forest).inv(),
            old(forest).wf() ==> final(forest).wf(),
    {
        TreeElementType::new(self.id).insert_before(forest, value)
    }

    /// Puts a new sibling made from `value` right after this element.
    pub fn insert_after<IT, LT>(&self, forest: &mut Forest<IT, LT>, value: Value<IT, LT>) -> (r: Result<TreeElement, DLTreeError>)
        requires
            old(forest).inv(),
            self.id < old(forest)@.len(),
        ensures
            insertion(old(forest)@, self.id as int, true, value, final(forest)@, result_id(r)),
            r is Ok ==> r->Ok_0 == element_at(final(forest)@, r->Ok_0.id() as int),
            final(forest).inv(),
            old(forest).wf() ==> final(forest).wf(),
    {
        TreeElementType::new(self.id).insert_after(forest, value)
    }
}

impl Leaf {
    pub fn new(id: usize) -> (r: Self)
        ensures
            r.id == id,
    {
        Leaf { id }
    }

    /// The handle designates a terminal element of `v`.
    pub open spec fn valid_in<IT, LT>(self, v: Seq<ElementView<IT, LT>>) -> bool {
        is_leaf_at(v, self.id as int)
    }

    /// The payload.
    pub fn value<'a, IT, LT>(&self, forest: &'a Forest<IT, LT>) -> (r: &'a LT)
        requires
            self.valid_in(forest@),
        ensures
            forest@[self.id as int].payload == Value::<IT, LT>::Leaf(*r),
    {
        forest.leaf_value(self.id)
    }

    /// Write access to the payload; nothing else changes. The shape is
    /// kept: see `Forest::lemma_payload_edit`.
    pub fn value_mut<'a, IT, LT>(&self, forest: &'a mut Forest<IT, LT>) -> (r: &'a mut LT)
        requires
            self.valid_in(old(forest)@),
        ensures
            old(forest)@[self.id as int].payload == Value::<IT, LT>::Leaf(*r),
            final(forest)@ == old(forest)@.update(
                self.id as int,
                ElementView { payload: Value::Leaf(*final(r)), ..old(forest)@[self.id as int] },
            ),
            final(forest).same_rank(*old(forest)),
    {
        forest.leaf_value_mut(self.id)
    }

    /// Resolves the back-reference (see `TreeElementType::parent`).
    pub fn parent<IT, LT>(&self, forest: &Forest<IT, LT>) -> (r: Result<Option<Node>, DLTreeError>)
        requires
            self.id < forest@.len(),
        ensures
            r == parent_result(forest@, self.id as int),
    {
        TreeElementType::new(self.id).parent(forest)
    }

    /// Detaches this element with its subtree (see `TreeElementType::remove_from_tree`).
    pub fn remove_from_tree<IT, LT>(&self, forest: &mut Forest<IT, LT>) -> (r: Result<Tree, DLTreeError>)
        requires
            old(forest).inv(),
            self.id < old(forest)@.len(),
        ensures
            removal(old(forest)@, self.id as int, final(forest)@, r),
            final(forest).inv(),
            old(forest).wf() ==> final(forest).wf(),
    {
        TreeElementType::new(self.id).remove_from_tree(forest)
    }

    /// Replaces this element by a new one made from `value` (see `TreeElementType::set`).
    pub fn set<IT, LT>(&self, forest: &mut Forest<IT, LT>, value: Value<IT, LT>) -> (r: Result<TreeElement, DLTreeError>)
        requires
            old(forest).inv(),
            self.id < old(forest)@.len(),
        ensures
            replacement(old(forest)@, self.id as int, value, final(forest)@, result_id(r)),
            r is Ok ==> r->Ok_0 == element_at(final(forest)@, r->Ok_0.id() as int),
            final(forest).inv(),
            old(forest).wf() ==> final(forest).wf(),
    {
        TreeElementType::new(self.id).set(forest, value)
    }

    /// Replaces this element by a new terminal one.
    pub fn set_leaf<IT, LT>(&self, forest: &mut Forest<IT, LT>, value: LT) -> (r: Result<Leaf, DLTreeError>)
        requires
            old(forest).inv(),
            self.id < old(forest)@.len(),
        ensures
            replacement(
                old(forest)@,
                self.id as int,
                Value::<IT, LT>::Leaf(value),
                final(forest)@,
                match r {
                    Ok(l) => Ok(l.id),
                    Err(e) => Err(e),
                },
            ),
            final(forest).inv(),
            old(forest).wf() ==> final(forest).wf(),
    {
        TreeElementType::new(self.id).set_leaf(forest, value)
    }

    /// Replaces this element by a new interior one.
    pub fn set_node<IT, LT>(&self, forest: &mut Forest<IT, LT>, value: IT) -> (r: Result<Node, DLTreeError>)
        requires
            old(forest).inv(),
            self.id < old(forest)@.len(),
        ensures
            replacement(
                old(forest)@,
                self.id as int,
                Value::<IT, LT>::Node(value),
                final(forest)@,
                match r {
                    Ok(n) => Ok(n.id),
                    Err(e) => Err(e),
                },
            ),
            final(forest).inv(),
            old(forest).wf() ==> final(forest).wf(),
    {
        TreeElementType::new(self.id).set_node(forest, value)
    }

    /// Puts a new sibling made from `value` right before this element.
    pub fn insert_before<IT, LT>(&self, forest: &mut Forest<IT, LT>, value: Value<IT, LT>) -> (r: Result<TreeElement, DLTreeError>)
        requires
            old(forest).inv(),
            self.id < old(forest)@.len(),
        ensures
            insertion(old(forest)@, self.id as int, false, value, final(forest)@, result_id(r)),
            r is Ok ==> r->Ok_0 == element_at(final(forest)@, r->Ok_0.id() as int),
            final(forest).inv(),
            old(forest).wf() ==> final(forest).wf(),
    {
        TreeElementType::new(self.id).insert_before(forest, value)
    }

    /// Puts a new sibling made from `value` right after this element.
    pub fn insert_after<IT, LT>(&self, forest: &mut Forest<IT, LT>, value: Value<IT, LT>) -> (r: Result<TreeElement, DLTreeError>)
        requires
            old(forest).inv(),
            self.id < old(forest)@.len(),
        ensures
            insertion(old(forest)@, self.id as int, true, value, final(forest)@, result_id(r)),
            r is Ok ==> r->Ok_0 == element_at(final(forest)@, r->Ok_0.id() as int),
            final(forest).inv(),
            old(forest).wf() ==> final(forest).wf(),
    {
        TreeElementType::new(self.id).insert_after(forest, value)
    }
}

impl TreeElement {
    /// The handle of the right kind for element `id`.
    pub fn new<IT, LT>(forest: &Forest<IT, LT>, id: usize) -> (r: Self)
        requires
            id < forest@.len(),
        ensures
            r == element_at(forest@, id as int),
    {
        match forest.element(id) {
            TreeElementImpl::Node(_) => TreeElement::Node(Node::new(id)),
            TreeElementImpl::Leaf(_) => TreeElement::Leaf(Leaf::new(id)),
        }
    }

    pub open spec fn id(self) -> usize {
        match self {
            TreeElement::Node(n) => n.id,
            TreeElement::Leaf(l) => l.id,
        }
    }

    /// The handle designates an element of `v` of the kind it carries.
    pub open spec fn valid_in<IT, LT>(self, v: Seq<ElementView<IT, LT>>) -> bool {
        match self {
            TreeElement::Node(n) => n.valid_in(v),
            TreeElement::Leaf(l) => l.valid_in(v),
        }
    }

    /// The index of the element designated.
    pub fn element_id(&self) -> (r: usize)
        ensures
            r == self.id(),
    {
        match self {
            TreeElement::Node(n) => n.id,
            TreeElement::Leaf(l) => l.id,
        }
    }

    /// The interior handle, or `None` for a terminal element.
    pub fn as_node(&self) -> (r: Option<Node>)
        ensures
            r == match *self {
                TreeElement::Node(n) => Some(n),
                TreeElement::Leaf(_) => None::<Node>,
            },
    {
        match self {
            TreeElement::Node(n) => Some(*n),
            TreeElement::Leaf(_) => None,
        }
    }

    /// The terminal handle, or `None` for an interior element.
    pub fn as_leaf(&self) -> (r: Option<Leaf>)
        ensures
            r == match *self {
                TreeElement::Node(_) => None::<Leaf>,
                TreeElement::Leaf(l) => Some(l),
            },
    {
        match self {
            TreeElement::Node(_) => None,
            TreeElement::Leaf(l) => Some(*l),
        }
    }

    /// The payload, where both kinds carry the same payload type.
    pub fn value<'a, T>(&self, forest: &'a Forest<T, T>) -> (r: &'a T)
        requires
            self.valid_in(forest@),
        ensures
            forest@[self.id() as int].payload == match *self {
                TreeElement::Node(_) => Value::<T, T>::Node(*r),
                TreeElement::Leaf(_) => Value::<T, T>::Leaf(*r),
            },
    {
        match self {
            TreeElement::Node(n) => n.value(forest),
            TreeElement::Leaf(l) => l.value(forest),
        }
    }

    /// Write access to the payload, where both kinds carry the same
    /// payload type; nothing else changes.
    pub fn value_mut<'a, T>(&self, forest: &'a mut Forest<T, T>) -> (r: &'a mut T)
        requires
            self.valid_in(old(forest)@),
        ensures
            old(forest)@[self.id() as int].payload == match *self {
                TreeElement::Node(_) => Value::<T, T>::Node(*r),
                TreeElement::Leaf(_) => Value::<T, T>::Leaf(*r),
            },
            final(forest)@ == old(forest)@.update(
                self.id() as int,
                ElementView {
                    payload: match *self {
                        TreeElement::Node(_) => Value::<T, T>::Node(*final(r)),
                        TreeElement::Leaf(_) => Value::<T, T>::Leaf(*final(r)),
                    },
                    ..old(forest)@[self.id() as int]
                },
            ),
            final(forest).same_rank(*old(forest)),
    {
        match self {
            TreeElement::Node(n) => n.value_mut(forest),
            TreeElement::Leaf(l) => l.value_mut(forest),
        }
    }

    /// Resolves the back-reference (see `TreeElementType::parent`).
    pub fn parent<IT, LT>(&self, forest: &Forest<IT, LT>) -> (r: Result<Option<Node>, DLTreeError>)
        requires
            self.id() < forest@.len(),
        ensures
            r == parent_result(forest@, self.id() as int),
    {
        TreeElementType::new(self.element_id()).parent(forest)
    }

    /// Detaches this element with its subtree (see `TreeElementType::remove_from_tree`).
    pub fn remove_from_tree<IT, LT>(&self, forest: &mut Forest<IT, LT>) -> (r: Result<Tree, DLTreeError>)
        requires
            old(forest).inv(),
            self.id() < old(forest)@.len(),
        ensures
            removal(old(forest)@, self.id() as int, final(forest)@, r),
            final(forest).inv(),
            old(forest).wf() ==> final(forest).wf(),
    {
        TreeElementType::new(self.element_id()).remove_from_tree(forest)
    }

    /// Replaces this element by a new one made from `value` (see `TreeElementType::set`).
    pub fn set<IT, LT>(&self, forest: &mut Forest<IT, LT>, value: Value<IT, LT>) -> (r: Result<TreeElement, DLTreeError>)
        requires
            old(forest).inv(),
            self.id() < old(forest)@.len(),
        ensures
            replacement(old(forest)@, self.id() as int, value, final(forest)@, result_id(r)),
            r is Ok ==> r->Ok_0 == element_at(final(forest)@, r->Ok_0.id() as int),
            final(forest).inv(),
            old(forest).wf() ==> final(forest).wf(),
    {
        TreeElementType::new(self.element_id()).set(forest, value)
    }

    /// Replaces this element by a new terminal one.
    pub fn set_leaf<IT, LT>(&self, forest: &mut Forest<IT, LT>, value: LT) -> (r: Result<Leaf, DLTreeError>)
        requires
            old(forest).inv(),
            self.id() < old(forest)@.len(),
        ensures
            replacement(
                old(forest)@,
                self.id() as int,
                Value::<IT, LT>::Leaf(value),
                final(forest)@,
                match r {
                    Ok(l) => Ok(l.id),
                    Err(e) => Err(e),
                },
            ),
            final(forest).inv(),
            old(forest).wf() ==> final(forest).wf(),
    {
        TreeElementType::new(self.element_id()).set_leaf(forest, value)
    }

    /// Replaces this element by a new interior one.
    pub fn set_node<IT, LT>(&self, forest: &mut Forest<IT, LT>, value: IT) -> (r: Result<Node, DLTreeError>)
        requires
            old(forest).inv(),
            self.id() < old(forest)@.len(),
        ensures
            replacement(
                old(forest)@,
                self.id() as int,
                Value::<IT, LT>::Node(value),
                final(forest)@,
                match r {
                    Ok(n) => Ok(n.id),
                    Err(e) => Err(e),
                },
            ),
            final(forest).inv(),
            old(forest).wf() ==> final(forest).wf(),
    {
        TreeElementType::new(self.element_id()).set_node(forest, value)
    }

    /// Puts a new sibling made from `value` right before this element.
    pub fn insert_before<IT, LT>(&self, forest: &mut Forest<IT, LT>, value: Value<IT, LT>) -> (r: Result<TreeElement, DLTreeError>)
        requires
            old(forest).inv(),
            self.id() < old(forest)@.len(),
        ensures
            insertion(old(forest)@, self.id() as int, false, value, final(forest)@, result_id(r)),
            r is Ok ==> r->Ok_0 == element_at(final(forest)@, r->Ok_0.id() as int),
            final(forest).inv(),
            old(forest).wf() ==> final(forest).wf(),
    {
        TreeElementType::new(self.element_id()).insert_before(forest, value)
    }

    /// Puts a new sibling made from `value` right after this element.
    pub fn insert_after<IT, LT>(&self, forest: &mut Forest<IT, LT>, value: Value<IT, LT>) -> (r: Result<TreeElement, DLTreeError>)
        requires
            old(forest).inv(),
            self.id() < old(forest)@.len(),
        ensures
            insertion(old(forest)@, self.id() as int, true, value, final(forest)@, result_id(r)),
            r is Ok ==> r->Ok_0 == element_at(final(forest)@, r->Ok_0.id() as int),
            final(forest).inv(),
            old(forest).wf() ==> final(forest).wf(),
    {
        TreeElementType::new(self.element_id()).insert_after(forest, value)
    }
}

impl<IT: Clone, LT: Clone> DeepClone<IT, LT> for Node {
    open spec fn designated(&self) -> usize {
        self.id
    }

    open spec fn designates_in(&self, v: Seq<ElementView<IT, LT>>) -> bool {
        self.valid_in(v)
    }

    fn deep_clone(&self, forest: &mut Forest<IT, LT>) -> (r: Self) {
        let ghost v = forest@;
        let y = forest.deep_clone_element(self.id);
        proof {
            let m = choose|m: Seq<usize>| is_copy(v, forest@, self.id as int, m, None);
            assert(copied_at(v, forest@, v.len() as int, m, 0));
            assert(is_copy(v, forest@, self.id as int, m, None));
            assert(<Node as DeepClone<IT, LT>>::designated(self) == self.id);
            assert(v == old(forest)@);
        }
        Node::new(y)
    }
}

impl<IT: Clone, LT: Clone> DeepClone<IT, LT> for Leaf {
    open spec fn designated(&self) -> usize {
        self.id
    }

    open spec fn designates_in(&self, v: Seq<ElementView<IT, LT>>) -> bool {
        self.valid_in(v)
    }

    fn deep_clone(&self, forest: &mut Forest<IT, LT>) -> (r: Self) {
        let ghost v = forest@;
        let y = forest.deep_clone_element(self.id);
        proof {
            let m = choose|m: Seq<usize>| is_copy(v, forest@, self.id as int, m, None);
            assert(copied_at(v, forest@, v.len() as int, m, 0));
            assert(is_copy(v, forest@, self.id as int, m, None));
            assert(<Leaf as DeepClone<IT, LT>>::designated(self) == self.id);
            assert(v == old(forest)@);
        }
        Leaf::new(y)
    }
}

impl<IT: Clone, LT: Clone> DeepClone<IT, LT> for TreeElement {
    open spec fn designated(&self) -> usize {
        self.id()
    }

    open spec fn designates_in(&self, v: Seq<ElementView<IT, LT>>) -> bool {
        self.valid_in(v)
    }

    fn deep_clone(&self, forest: &mut Forest<IT, LT>) -> (r: Self) {
        let ghost v = forest@;
        let y = forest.deep_clone_element(self.element_id());
        proof {
            let m = choose|m: Seq<usize>| is_copy(v, forest@, self.id() as int, m, None);
            assert(copied_at(v, forest@, v.len() as int, m, 0));
            assert(is_copy(v, forest@, self.id() as int, m, None));
            assert(<TreeElement as DeepClone<IT, LT>>::designated(self) == self.id());
            assert(v == old(forest)@);
        }
        TreeElement::new(forest, y)
    }
}

} // verus!
