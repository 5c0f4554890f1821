use vstd::prelude::*;
use crate::internal::{LeafImpl, NodeImpl, TreeElementImpl};
use crate::tree::{DLTreeError, Value};

verus! {

/// One element of the forest, as mathematics: its back-reference, its
/// payload (whose variant is the element's kind) and its ordered children.
pub struct ElementView<IT, LT> {
    pub parent: Option<usize>,
    pub payload: Value<IT, LT>,
    pub children: Seq<usize>,
}

/// Element `i` exists and is interior.
pub open spec fn is_node_at<IT, LT>(v: Seq<ElementView<IT, LT>>, i: int) -> bool {
    0 <= i < v.len() && v[i].payload is Node
}

/// Element `i` exists and is terminal.
pub open spec fn is_leaf_at<IT, LT>(v: Seq<ElementView<IT, LT>>, i: int) -> bool {
    0 <= i < v.len() && v[i].payload is Leaf
}

/// Every child entry designates an element of the forest.
pub open spec fn children_in_range<IT, LT>(v: Seq<ElementView<IT, LT>>) -> bool {
    forall|p: int, k: int|
        0 <= p < v.len() && 0 <= k < v[p].children.len() ==> #[trigger] v[p].children[k] < v.len()
}

/// Terminal elements own no children.
pub open spec fn leaves_childless<IT, LT>(v: Seq<ElementView<IT, LT>>) -> bool {
    forall|i: int| #[trigger] is_leaf_at(v, i) ==> v[i].children.len() == 0
}

/// Every child is strictly below its parent in `rank`: the child relation
/// has no cycle.
pub open spec fn ranked<IT, LT>(v: Seq<ElementView<IT, LT>>, rank: Seq<nat>) -> bool {
    &&& rank.len() == v.len()
    &&& forall|p: int, k: int|
        0 <= p < v.len() && 0 <= k < v[p].children.len() ==> rank[#[trigger] v[p].children[k] as int]
            < rank[p]
}

/// The double link: each child names its owner as parent, each
/// back-reference is met by membership in the parent's children, and no
/// child sequence holds an element twice.
pub open spec fn linked<IT, LT>(v: Seq<ElementView<IT, LT>>) -> bool {
    &&& forall|p: int, k: int|
        0 <= p < v.len() && 0 <= k < v[p].children.len() ==> v[#[trigger] v[p].children[k] as int].parent
            == Some(p as usize)
    &&& forall|i: int|
        0 <= i < v.len() && (#[trigger] v[i].parent) is Some ==> {
            let p = v[i].parent->0;
            &&& is_node_at(v, p as int)
            &&& v[p as int].children.contains(i as usize)
        }
    &&& forall|p: int| 0 <= p < v.len() ==> (#[trigger] v[p].children).no_duplicates()
}

/// What resolving the back-reference of element `i` gives: no parent, the
/// parent, or a broken link when the parent named does not hold `i`.
pub open spec fn parent_link<IT, LT>(v: Seq<ElementView<IT, LT>>, i: int) -> Result<Option<usize>, DLTreeError> {
    match v[i].parent {
        None => Ok(None),
        Some(p) => if is_node_at(v, p as int) && v[p as int].children.contains(i as usize) {
            Ok(Some(p))
        } else {
            Err(DLTreeError::IntegrityViolated)
        },
    }
}

/// `k` is the first position of `x` in `s`.
pub open spec fn first_position(s: Seq<usize>, x: usize, k: int) -> bool {
    &&& 0 <= k < s.len()
    &&& s[k] == x
    &&& forall|j: int| 0 <= j < k ==> s[j] != x
}

/// The first position of `x` in `s`.
pub open spec fn first_index(s: Seq<usize>, x: usize) -> int {
    choose|k: int| first_position(s, x, k)
}

/// A first position is unique, so it is the one `first_index` picks.
pub proof fn lemma_first_index(s: Seq<usize>, x: usize, k: int)
    requires
        first_position(s, x, k),
    ensures
        first_index(s, x) == k,
{
    let j = first_index(s, x);
    assert(first_position(s, x, j));
    if j < k {
        assert(s[j] != x);
    } else if k < j {
        assert(s[k] != x);
    }
}

/// What the child-slot resolution of element `i` gives: its parent and its
/// position there, or why there is none.
pub open spec fn slot_result<IT, LT>(v: Seq<ElementView<IT, LT>>, i: int, r: Result<(usize, usize), DLTreeError>) -> bool {
    match parent_link(v, i) {
        Err(e) => r == Err::<(usize, usize), DLTreeError>(e),
        Ok(None) => r == Err::<(usize, usize), DLTreeError>(DLTreeError::ChildOperationOnRootLevel),
        Ok(Some(p)) => r is Ok && r->Ok_0.0 == p && first_position(v[p as int].children, i as usize, r->Ok_0.1 as int),
    }
}

/// `path` leads downwards from its first element to its last, each step
/// from an element to one of its children.
pub open spec fn is_path<IT, LT>(v: Seq<ElementView<IT, LT>>, path: Seq<usize>) -> bool {
    &&& path.len() >= 1
    &&& forall|j: int| 0 <= j < path.len() - 1 ==> #[trigger] is_step(v, path[j], path[j + 1])
}

/// `b` is a child of `a`.
pub open spec fn is_step<IT, LT>(v: Seq<ElementView<IT, LT>>, a: usize, b: usize) -> bool {
    a < v.len() && v[a as int].children.contains(b)
}

/// `b` is `a` or lies below it.
pub open spec fn descends<IT, LT>(v: Seq<ElementView<IT, LT>>, a: int, b: int) -> bool {
    exists|path: Seq<usize>| is_path(v, path) && path[0] == a && path.last() == b
}

/// A path that ends at `b` can be extended by a child of `b`.
pub proof fn lemma_descends_child<IT, LT>(v: Seq<ElementView<IT, LT>>, a: int, b: int, c: usize)
    requires
        descends(v, a, b),
        0 <= b < v.len(),
        v[b].children.contains(c),
    ensures
        descends(v, a, c as int),
{
    let path = choose|path: Seq<usize>| is_path(v, path) && path[0] == a && path.last() == b;
    assert(is_path(v, path));
    let longer = path.push(c);
    assert forall|j: int| 0 <= j < longer.len() - 1 implies #[trigger] is_step(v, longer[j], longer[j + 1]) by {
        if j < path.len() - 1 {
            assert(longer[j] == path[j] && longer[j + 1] == path[j + 1]);
            assert(is_step(v, path[j], path[j + 1]));
        } else {
            assert(longer[j] == path.last() && longer[j + 1] == c);
        }
    }
    assert(is_path(v, longer) && longer[0] == a && longer.last() == c);
}

/// In a linked forest, an element strictly below `a` has a parent that is
/// `a` or below it.
pub proof fn lemma_descends_parent<IT, LT>(v: Seq<ElementView<IT, LT>>, a: int, b: int)
    requires
        linked(v),
        descends(v, a, b),
        a != b,
    ensures
        v[b].parent is Some,
        descends(v, a, v[b].parent->0 as int),
{
    let path = choose|path: Seq<usize>| is_path(v, path) && path[0] == a && path.last() == b;
    let n = path.len();
    assert(n >= 2);
    let j = n - 2;
    assert(is_path(v, path));
    assert(0 <= j < path.len() - 1);
    let q = path[j];
    assert(is_step(v, path[j], path[j + 1]));
    assert(path[j + 1] == b);
    let k = choose|k: int| 0 <= k < v[q as int].children.len() && v[q as int].children[k] == b;
    assert(v[v[q as int].children[k] as int].parent == Some(q));
    let shorter = path.subrange(0, n - 1);
    assert forall|j: int| 0 <= j < shorter.len() - 1 implies #[trigger] is_step(v, shorter[j], shorter[j + 1]) by {
        assert(shorter[j] == path[j] && shorter[j + 1] == path[j + 1]);
        assert(is_step(v, path[j], path[j + 1]));
    }
    assert(is_path(v, shorter) && shorter[0] == a && shorter.last() == q);
}

/// The element that a payload becomes when it is stored.
pub open spec fn fresh_element<IT, LT>(value: Value<IT, LT>, parent: Option<usize>) -> ElementView<IT, LT> {
    ElementView { parent, payload: value, children: Seq::empty() }
}

/// `b` is a clone of the payload `a`, of the same kind.
pub open spec fn payload_cloned<IT: Clone, LT: Clone>(a: Value<IT, LT>, b: Value<IT, LT>) -> bool {
    match a {
        Value::Node(x) => b is Node && cloned(x, b->Node_0),
        Value::Leaf(x) => b is Leaf && cloned(x, b->Leaf_0),
    }
}

/// Element `base + j` of `w` is the copy of element `m[j]` of `v`: a clone
/// of its payload, whose children are the copies of its children, in order,
/// and name it as their parent. A copy other than the first has a parent
/// among the copies, which holds it.
pub open spec fn copied_at<IT: Clone, LT: Clone>(
    v: Seq<ElementView<IT, LT>>,
    w: Seq<ElementView<IT, LT>>,
    base: int,
    m: Seq<usize>,
    j: int,
) -> bool {
    let e = w[base + j];
    let o = v[m[j] as int];
    &&& m[j] < v.len()
    &&& payload_cloned(o.payload, e.payload)
    &&& e.children.len() == o.children.len()
    &&& e.children.no_duplicates()
    &&& forall|k: int| 0 <= k < e.children.len() ==> {
        let d = #[trigger] e.children[k];
        &&& base < d < w.len()
        &&& m[d - base] == o.children[k]
        &&& w[d as int].parent == Some((base + j) as usize)
    }
    &&& j > 0 ==> {
        &&& e.parent is Some
        &&& base <= e.parent->0 < w.len()
        &&& w[e.parent->0 as int].children.contains((base + j) as usize)
    }
}

/// The elements of `w` from index `v.len()` on are a copy of the subtree of
/// `x` in `v`, element `v.len() + j` copying `m[j]`; the copy of `x` comes
/// first and has the back-reference `parent`.
pub open spec fn is_copy<IT: Clone, LT: Clone>(
    v: Seq<ElementView<IT, LT>>,
    w: Seq<ElementView<IT, LT>>,
    x: int,
    m: Seq<usize>,
    parent: Option<usize>,
) -> bool {
    &&& w.len() == v.len() + m.len()
    &&& m.len() >= 1
    &&& m[0] == x
    &&& w[v.len() as int].parent == parent
    &&& forall|j: int| 0 <= j < m.len() ==> #[trigger] copied_at(v, w, v.len() as int, m, j)
}

/// The arena that stores every element. Handles are slot indices into it;
/// slots are never reused, so an index designates one element for the
/// forest's whole life.
pub struct Forest<IT, LT> {
    slots: Vec<TreeElementImpl<IT, LT>>,
    rank: Ghost<Seq<nat>>,
}

impl<IT, LT> View for Forest<IT, LT> {
    type V = Seq<ElementView<IT, LT>>;

    closed spec fn view(&self) -> Seq<ElementView<IT, LT>> {
        self.slots@.map_values(|e: TreeElementImpl<IT, LT>| e.view_element())
    }
}

impl<IT, LT> Forest<IT, LT> {
    /// The shape that every operation keeps, even on a forest whose links
    /// were written by hand.
    pub closed spec fn inv(&self) -> bool {
        &&& self@.len() <= usize::MAX
        &&& children_in_range(self@)
        &&& leaves_childless(self@)
        &&& ranked(self@, self.rank@)
    }

    /// The shape together with the double link.
    pub open spec fn wf(&self) -> bool {
        self.inv() && linked(self@)
    }

    pub fn new() -> (r: Self)
        ensures
            r@ == Seq::<ElementView<IT, LT>>::empty(),
            r.wf(),
    {
        let r = Forest { slots: Vec::new(), rank: Ghost(Seq::empty()) };
        assert(r@ =~= Seq::<ElementView<IT, LT>>::empty());
        r
    }

    pub fn len(&self) -> (r: usize)
        ensures
            r == self@.len(),
    {
        self.slots.len()
    }

    /// Stores `e` as a new element at the end and returns its index.
    pub fn insert_element(&mut self, e: TreeElementImpl<IT, LT>) -> (id: usize)
        requires
            old(self).inv(),
            e.view_element().children.len() == 0,
        ensures
            id == old(self)@.len(),
            final(self)@ == old(self)@.push(e.view_element()),
            final(self).inv(),
            old(self).wf() && e.view_element().parent is None ==> final(self).wf(),
    {
        let id = self.slots.len();
        proof {
            self.rank@ = self.rank@.push(0);
        }
        self.slots.push(e);
        assert(self.slots@.len() == self.slots.len());
        assert(self@ =~= old(self)@.push(e.view_element()));
        id
    }

    /// Read access to the storage of element `id`.
    pub fn element(&self, id: usize) -> (r: &TreeElementImpl<IT, LT>)
        requires
            id < self@.len(),
        ensures
            r.view_element() == self@[id as int],
    {
        &self.slots[id]
    }

    /// Overwrites the back-reference of element `i`.
    fn set_parent(&mut self, i: usize, parent: Option<usize>)
        requires
            i < old(self)@.len(),
        ensures
            final(self)@ == old(self)@.update(i as int, ElementView { parent, ..old(self)@[i as int] }),
            final(self).rank == old(self).rank,
    {
        self.slots[i].update_parent(parent);
        assert(self@ =~= old(self)@.update(i as int, ElementView { parent, ..old(self)@[i as int] }));
    }

    /// Puts `new_children` in place of the children of interior element `p`
    /// and hands back the ones it held.
    fn replace_children(&mut self, p: usize, new_children: Vec<usize>) -> (r: Vec<usize>)
        requires
            is_node_at(old(self)@, p as int),
        ensures
            r@ == old(self)@[p as int].children,
            final(self)@ == old(self)@.update(
                p as int,
                ElementView { children: new_children@, ..old(self)@[p as int] },
            ),
            final(self).rank == old(self).rank,
    {
        let mut c = new_children;
        match &mut self.slots[p] {
            TreeElementImpl::Node(n) => {
                std::mem::swap(&mut n.children, &mut c);
            },
            TreeElementImpl::Leaf(_) => {},
        }
        assert(self@ =~= old(self)@.update(
            p as int,
            ElementView { children: new_children@, ..old(self)@[p as int] },
        ));
        c
    }

    /// Stores `value` as a new child of `p` at position `k` of its children.
    pub(crate) fn attach_new(&mut self, p: usize, k: usize, value: Value<IT, LT>) -> (n: usize)
        requires
            old(self).inv(),
            is_node_at(old(self)@, p as int),
            k <= old(self)@[p as int].children.len(),
        ensures
            n == old(self)@.len(),
            final(self)@ == old(self)@.update(
                p as int,
                ElementView {
                    children: old(self)@[p as int].children.insert(k as int, n),
                    ..old(self)@[p as int]
                },
            ).push(fresh_element(value, Some(p))),
            final(self).inv(),
            old(self).wf() ==> final(self).wf(),
    {
        let n = self.slots.len();
        let ghost old_rank = self.rank@;
        let e = TreeElementImpl::new(value, Some(p));
        self.slots.push(e);
        assert(self.slots@.len() == self.slots.len());
        assert(self@ =~= old(self)@.push(fresh_element(value, Some(p))));
        proof {
            self.rank@ = Seq::new((n + 1) as nat, |i: int| if i < n { old_rank[i] + 1 } else { 0 });
        }
        let mut c = self.replace_children(p, Vec::new());
        c.insert(k, n);
        self.replace_children(p, c);
        proof {
            let v = old(self)@;
            let w = self@;
            let oc = v[p as int].children;
            assert(w[p as int].children == oc.insert(k as int, n));
            assert forall|q: int, j: int| 0 <= q < w.len() && 0 <= j < w[q].children.len() implies
                #[trigger] w[q].children[j] < w.len() && self.rank@[w[q].children[j] as int] < self.rank@[q] by {
                if q == p {
                    if j < k {
                        assert(w[q].children[j] == oc[j]);
                    } else if j > k {
                        assert(w[q].children[j] == oc[j - 1]);
                    }
                }
            }
            if linked(v) {
                assert forall|q: int, j: int| 0 <= q < w.len() && 0 <= j < w[q].children.len() implies
                    w[#[trigger] w[q].children[j] as int].parent == Some(q as usize) by {
                    if q == p {
                        if j < k {
                            assert(w[q].children[j] == oc[j]);
                        } else if j > k {
                            assert(w[q].children[j] == oc[j - 1]);
                        }
                    }
                }
                assert forall|i: int| 0 <= i < w.len() && (#[trigger] w[i].parent) is Some implies {
                    let q = w[i].parent->0;
                    &&& is_node_at(w, q as int)
                    &&& w[q as int].children.contains(i as usize)
                } by {
                    let q = w[i].parent->0;
                    if i < n {
                        if q == p {
                            let j = choose|j: int| 0 <= j < oc.len() && oc[j] == i as usize;
                            if j < k {
                                assert(w[q as int].children[j] == i as usize);
                            } else {
                                assert(w[q as int].children[j + 1] == i as usize);
                            }
                        }
                    } else {
                        assert(w[q as int].children[k as int] == n);
                    }
                }
                assert forall|q: int| 0 <= q < w.len() implies (#[trigger] w[q].children).no_duplicates() by {
                    if q == p {
                        let ws = w[q].children;
                        assert forall|a: int, b: int| 0 <= a < ws.len() && 0 <= b < ws.len() && a != b implies
                            ws[a] != ws[b] by {
                            if a != k && b != k {
                                let a0 = if a < k { a } else { a - 1 };
                                let b0 = if b < k { b } else { b - 1 };
                                assert(ws[a] == oc[a0]);
                                assert(ws[b] == oc[b0]);
                            } else if a == k {
                                let b0 = if b < k { b } else { b - 1 };
                                assert(ws[b] == oc[b0]);
                            } else {
                                let a0 = if a < k { a } else { a - 1 };
                                assert(ws[a] == oc[a0]);
                            }
                        }
                    }
                }
            }
        }
        n
    }

    /// The position of `i` among the children of `p`, if it is there.
    fn find_child(&self, p: usize, i: usize) -> (r: Option<usize>)
        requires
            is_node_at(self@, p as int),
        ensures
            match r {
                None => !self@[p as int].children.contains(i),
                Some(k) => first_position(self@[p as int].children, i, k as int) && k < usize::MAX,
            },
    {
        let children = match &self.slots[p] {
            TreeElementImpl::Node(n) => &n.children,
            TreeElementImpl::Leaf(_) => unreached(),
        };
        assert(children@ == self@[p as int].children);
        let mut k: usize = 0;
        while k < children.len()
            invariant
                k <= children@.len(),
                children@ == self@[p as int].children,
                is_node_at(self@, p as int),
                forall|j: int| 0 <= j < k ==> children@[j] != i,
            decreases children@.len() - k,
        {
            if children[k] == i {
                return Some(k);
            }
            k = k + 1;
        }
        None
    }

    /// Resolves the back-reference of element `i`.
    pub(crate) fn parent_of(&self, i: usize) -> (r: Result<Option<usize>, DLTreeError>)
        requires
            i < self@.len(),
        ensures
            r == parent_link(self@, i as int),
    {
        match self.slots[i].parent() {
            None => Ok(None),
            Some(p) => {
                if p < self.slots.len() && matches!(self.slots[p], TreeElementImpl::Node(_)) {
                    match self.find_child(p, i) {
                        Some(_) => Ok(Some(p)),
                        None => Err(DLTreeError::IntegrityViolated),
                    }
                } else {
                    Err(DLTreeError::IntegrityViolated)
                }
            },
        }
    }

    /// Child-slot resolution: the parent of element `i` and the position
    /// of `i` among its children.
    pub(crate) fn child_slot(&self, i: usize) -> (r: Result<(usize, usize), DLTreeError>)
        requires
            i < self@.len(),
        ensures
            slot_result(self@, i as int, r),
            r is Ok ==> r->Ok_0.1 < usize::MAX,
    {
        match self.parent_of(i) {
            Err(e) => Err(e),
            Ok(None) => Err(DLTreeError::ChildOperationOnRootLevel),
            Ok(Some(p)) => match self.find_child(p, i) {
                Some(k) => Ok((p, k)),
                None => Err(DLTreeError::IntegrityViolated),
            },
        }
    }

    /// Takes the child at position `k` out of the children of `p` and
    /// clears its back-reference.
    pub(crate) fn detach(&mut self, p: usize, k: usize) -> (c: usize)
        requires
            old(self).inv(),
            is_node_at(old(self)@, p as int),
            k < old(self)@[p as int].children.len(),
        ensures
            c == old(self)@[p as int].children[k as int],
            final(self)@ == old(self)@.update(
                p as int,
                ElementView { children: old(self)@[p as int].children.remove(k as int), ..old(self)@[p as int] },
            ).update(c as int, ElementView { parent: None, ..old(self)@[c as int] }),
            final(self).inv(),
            old(self).wf() ==> final(self).wf(),
    {
        let mut ch = self.replace_children(p, Vec::new());
        let c = ch.remove(k);
        self.replace_children(p, ch);
        assert(old(self)@[p as int].children[k as int] == c);
        assert(c != p);
        self.set_parent(c, None);
        proof {
            let v = old(self)@;
            let w = self@;
            let oc = v[p as int].children;
            assert(w[p as int].children == oc.remove(k as int));
            assert forall|q: int, j: int| 0 <= q < w.len() && 0 <= j < w[q].children.len() implies
                #[trigger] w[q].children[j] < w.len() && self.rank@[w[q].children[j] as int] < self.rank@[q] by {
                if q == p {
                    if j < k {
                        assert(w[q].children[j] == oc[j]);
                    } else {
                        assert(w[q].children[j] == oc[j + 1]);
                    }
                } else {
                    assert(w[q].children == v[q].children);
                }
            }
            if linked(v) {
                assert(v[oc[k as int] as int].parent == Some(p as usize));
                assert(oc[k as int] == c);
                assert forall|q: int, j: int| 0 <= q < w.len() && 0 <= j < w[q].children.len() implies
                    w[#[trigger] w[q].children[j] as int].parent == Some(q as usize) by {
                    if q == p {
                        let j0 = if j < k { j } else { j + 1 };
                        assert(w[q].children[j] == oc[j0]);
                        assert(oc[j0] != oc[k as int]);
                    } else {
                        assert(w[q].children == v[q].children);
                        assert(v[q].children[j] != c);
                    }
                }
                assert forall|i: int| 0 <= i < w.len() && (#[trigger] w[i].parent) is Some implies {
                    let q = w[i].parent->0;
                    &&& is_node_at(w, q as int)
                    &&& w[q as int].children.contains(i as usize)
                } by {
                    let q = w[i].parent->0;
                    assert(i != c);
                    if q == p {
                        let j = choose|j: int| 0 <= j < oc.len() && oc[j] == i as usize;
                        assert(j != k);
                        if j < k {
                            assert(w[q as int].children[j] == i as usize);
                        } else {
                            assert(w[q as int].children[j - 1] == i as usize);
                        }
                    }
                }
                assert forall|q: int| 0 <= q < w.len() implies (#[trigger] w[q].children).no_duplicates() by {
                    if q == p {
                        let ws = w[q].children;
                        assert forall|a: int, b: int| 0 <= a < ws.len() && 0 <= b < ws.len() && a != b implies
                            ws[a] != ws[b] by {
                            let a0 = if a < k { a } else { a + 1 };
                            let b0 = if b < k { b } else { b + 1 };
                            assert(ws[a] == oc[a0]);
                            assert(ws[b] == oc[b0]);
                        }
                    } else {
                        assert(w[q].children == v[q].children);
                    }
                }
            }
        }
        c
    }

    /// Puts a new element made from `value` at position `k` of the children
    /// of `p`, in place of the child there, whose back-reference is cleared.
    pub(crate) fn replace_at(&mut self, p: usize, k: usize, value: Value<IT, LT>) -> (n: usize)
        requires
            old(self).inv(),
            is_node_at(old(self)@, p as int),
            k < old(self)@[p as int].children.len(),
        ensures
            n == old(self)@.len(),
            ({
                let c = old(self)@[p as int].children[k as int];
                final(self)@ == old(self)@.update(
                    p as int,
                    ElementView { children: old(self)@[p as int].children.update(k as int, n), ..old(self)@[p as int] },
                ).update(c as int, ElementView { parent: None, ..old(self)@[c as int] }).push(fresh_element(value, Some(p)))
            }),
            final(self).inv(),
            old(self).wf() ==> final(self).wf(),
    {
        let n = self.slots.len();
        let ghost old_rank = self.rank@;
        let e = TreeElementImpl::new(value, Some(p));
        self.slots.push(e);
        assert(self.slots@.len() == self.slots.len());
        assert(self@ =~= old(self)@.push(fresh_element(value, Some(p))));
        proof {
            self.rank@ = Seq::new((n + 1) as nat, |i: int| if i < n { old_rank[i] + 1 } else { 0 });
        }
        let mut ch = self.replace_children(p, Vec::new());
        let c = ch[k];
        ch.set(k, n);
        self.replace_children(p, ch);
        assert(c != p);
        self.set_parent(c, None);
        proof {
            let v = old(self)@;
            let w = self@;
            let oc = v[p as int].children;
            assert(w[p as int].children == oc.update(k as int, n));
            assert forall|q: int, j: int| 0 <= q < w.len() && 0 <= j < w[q].children.len() implies
                #[trigger] w[q].children[j] < w.len() && self.rank@[w[q].children[j] as int] < self.rank@[q] by {
                if q != p && q < n {
                    assert(w[q].children == v[q].children);
                }
            }
            if linked(v) {
                assert(v[oc[k as int] as int].parent == Some(p as usize));
                assert(oc[k as int] == c);
                assert forall|q: int, j: int| 0 <= q < w.len() && 0 <= j < w[q].children.len() implies
                    w[#[trigger] w[q].children[j] as int].parent == Some(q as usize) by {
                    if q == p {
                        if j != k {
                            assert(oc[j] != oc[k as int]);
                        }
                    } else if q < n {
                        assert(w[q].children == v[q].children);
                        assert(v[q].children[j] != c);
                    }
                }
                assert forall|i: int| 0 <= i < w.len() && (#[trigger] w[i].parent) is Some implies {
                    let q = w[i].parent->0;
                    &&& is_node_at(w, q as int)
                    &&& w[q as int].children.contains(i as usize)
                } by {
                    let q = w[i].parent->0;
                    if i == n {
                        assert(w[q as int].children[k as int] == n);
                    } else {
                        assert(i != c);
                        if q == p {
                            assert(i < usize::MAX);
                            let j = choose|j: int| 0 <= j < oc.len() && oc[j] == i as usize;
                            assert(j != k);
                            assert(w[q as int].children[j] == i as usize);
                        }
                    }
                }
                assert forall|q: int| 0 <= q < w.len() implies (#[trigger] w[q].children).no_duplicates() by {
                    if q == p {
                        let ws = w[q].children;
                        assert forall|a: int, b: int| 0 <= a < ws.len() && 0 <= b < ws.len() && a != b implies
                            ws[a] != ws[b] by {
                            if a != k && b != k {
                                assert(ws[a] == oc[a]);
                                assert(ws[b] == oc[b]);
                            }
                        }
                    } else if q < n {
                        assert(w[q].children == v[q].children);
                    }
                }
            }
        }
        n
    }

    /// Empties the children of `p` and clears the back-reference of each
    /// element it held.
    pub(crate) fn release_all(&mut self, p: usize)
        requires
            old(self).inv(),
            is_node_at(old(self)@, p as int),
        ensures
            final(self)@.len() == old(self)@.len(),
            final(self)@[p as int] == (ElementView { children: Seq::empty(), ..old(self)@[p as int] }),
            forall|i: int| 0 <= i < old(self)@.len() && i != p ==> #[trigger] final(self)@[i] == if old(self)@[p as int].children.contains(i as usize) {
                ElementView { parent: None, ..old(self)@[i] }
            } else {
                old(self)@[i]
            },
            final(self).inv(),
            old(self).wf() ==> final(self).wf(),
    {
        let ch = self.replace_children(p, Vec::new());
        let ghost v = old(self)@;
        let ghost oc = v[p as int].children;
        let ghost mid = self@;
        let mut j: usize = 0;
        while j < ch.len()
            invariant
                ch@ == oc,
                0 <= j <= ch@.len(),
                oc == v[p as int].children,
                mid == v.update(p as int, ElementView { children: Seq::empty(), ..v[p as int] }),
                self@.len() == v.len(),
                self.rank == old(self).rank,
                self.slots.len() == self@.len(),
                self@[p as int] == mid[p as int],
                is_node_at(v, p as int),
                children_in_range(v),
                ranked(v, old(self).rank@),
                forall|i: int| 0 <= i < v.len() && i != p ==> #[trigger] self@[i] == if oc.subrange(0, j as int).contains(i as usize) {
                    ElementView { parent: None, ..v[i] }
                } else {
                    v[i]
                },
            decreases ch@.len() - j,
        {
            let c = ch[j];
            assert(oc[j as int] == c);
            assert(c != p);
            self.set_parent(c, None);
            proof {
                assert forall|i: int| 0 <= i < v.len() && i != p implies #[trigger] self@[i] == if oc.subrange(0, j + 1).contains(i as usize) {
                    ElementView { parent: None, ..v[i] }
                } else {
                    v[i]
                } by {
                    if i == c {
                        assert(oc.subrange(0, j + 1)[j as int] == c);
                    } else {
                        let s1 = oc.subrange(0, j + 1);
                        let s0 = oc.subrange(0, j as int);
                        assert(s1.contains(i as usize) == s0.contains(i as usize)) by {
                            if s1.contains(i as usize) {
                                let t = choose|t: int| 0 <= t < s1.len() && #[trigger] s1[t] == i as usize;
                                assert(s0[t] == i as usize);
                            }
                            if s0.contains(i as usize) {
                                let t = choose|t: int| 0 <= t < s0.len() && #[trigger] s0[t] == i as usize;
                                assert(s1[t] == i as usize);
                            }
                        }
                    }
                }
            }
            j = j + 1;
        }
        proof {
            let w = self@;
            assert(oc.subrange(0, oc.len() as int) =~= oc);
            assert forall|i: int| 0 <= i < w.len() implies #[trigger] w[i].children == if i == p { Seq::empty() } else { v[i].children } by {
                if i != p {
                    assert(w[i] == if oc.contains(i as usize) { ElementView { parent: None, ..v[i] } } else { v[i] });
                }
            }
            if linked(v) {
                assert forall|q: int, k: int| 0 <= q < w.len() && 0 <= k < w[q].children.len() implies
                    w[#[trigger] w[q].children[k] as int].parent == Some(q as usize) by {
                    let c = w[q].children[k];
                    assert(v[q].children[k] == c);
                    assert(v[c as int].parent == Some(q as usize));
                    if oc.contains(c) {
                        let t = choose|t: int| 0 <= t < oc.len() && oc[t] == c;
                        assert(v[oc[t] as int].parent == Some(p as usize));
                    }
                }
                assert forall|i: int| 0 <= i < w.len() && (#[trigger] w[i].parent) is Some implies {
                    let q = w[i].parent->0;
                    &&& is_node_at(w, q as int)
                    &&& w[q as int].children.contains(i as usize)
                } by {
                    assert(i != p ==> !oc.contains(i as usize));
                    assert(v[i].parent == w[i].parent);
                    let q = w[i].parent->0;
                    if q == p {
                        assert(oc.contains(i as usize));
                    }
                }
            }
        }
    }

    /// Makes the parentless element `t` the last child of `p`.
    pub(crate) fn attach_tree(&mut self, p: usize, t: usize)
        requires
            old(self).wf(),
            is_node_at(old(self)@, p as int),
            t < old(self)@.len(),
            old(self)@[t as int].parent is None,
            !descends(old(self)@, t as int, p as int),
        ensures
            final(self)@ == old(self)@.update(t as int, ElementView { parent: Some(p), ..old(self)@[t as int] }).update(
                p as int,
                ElementView { children: old(self)@[p as int].children.push(t), ..old(self)@[p as int] },
            ),
            final(self).wf(),
    {
        let ghost v = old(self)@;
        let ghost r = self.rank@;
        proof {
            let single = seq![t];
            assert(is_path(v, single) && single[0] == t && single.last() == t);
            assert(t != p);
            self.rank@ = Seq::new(v.len(), |i: int| if descends(v, t as int, i) { r[i] } else { r[i] + r[t as int] + 1 });
        }
        self.set_parent(t, Some(p));
        let mut ch = self.replace_children(p, Vec::new());
        ch.push(t);
        self.replace_children(p, ch);
        proof {
            let w = self@;
            let nr = self.rank@;
            let oc = v[p as int].children;
            assert(!oc.contains(t)) by {
                if oc.contains(t) {
                    let k = choose|k: int| 0 <= k < oc.len() && oc[k] == t;
                    assert(v[oc[k] as int].parent == Some(p));
                }
            }
            assert forall|q: int| 0 <= q < w.len() && q != p implies #[trigger] w[q].children == v[q].children by {}
            assert forall|q: int, j: int| 0 <= q < w.len() && 0 <= j < w[q].children.len() implies
                #[trigger] w[q].children[j] < w.len() && nr[w[q].children[j] as int] < nr[q] by {
                let c = w[q].children[j];
                if q == p && j == oc.len() {
                } else {
                    assert(v[q].children[j] == c);
                    assert(v[c as int].parent == Some(q as usize));
                    if descends(v, t as int, q) {
                        lemma_descends_child(v, t as int, q, c);
                    } else if descends(v, t as int, c as int) {
                        if c == t {
                        } else {
                            lemma_descends_parent(v, t as int, c as int);
                        }
                    }
                }
            }
            assert forall|q: int, j: int| 0 <= q < w.len() && 0 <= j < w[q].children.len() implies
                w[#[trigger] w[q].children[j] as int].parent == Some(q as usize) by {
                if !(q == p && j == oc.len()) {
                    assert(v[q].children[j] == w[q].children[j]);
                    assert(v[w[q].children[j] as int].parent == Some(q as usize));
                }
            }
            assert forall|i: int| 0 <= i < w.len() && (#[trigger] w[i].parent) is Some implies {
                let q = w[i].parent->0;
                &&& is_node_at(w, q as int)
                &&& w[q as int].children.contains(i as usize)
            } by {
                if i == t {
                    assert(w[p as int].children[oc.len() as int] == t);
                } else {
                    assert(v[i].parent == w[i].parent);
                    let q = w[i].parent->0;
                    if q == p {
                        let k = choose|k: int| 0 <= k < oc.len() && oc[k] == i as usize;
                        assert(w[p as int].children[k] == i as usize);
                    }
                }
            }
            assert forall|q: int| 0 <= q < w.len() implies (#[trigger] w[q].children).no_duplicates() by {
                if q == p {
                    let ws = w[q].children;
                    assert forall|a: int, b: int| 0 <= a < ws.len() && 0 <= b < ws.len() && a != b implies ws[a] != ws[b] by {
                        if a < oc.len() && b < oc.len() {
                            assert(ws[a] == oc[a] && ws[b] == oc[b]);
                        } else if a < oc.len() {
                            assert(ws[a] == oc[a]);
                        } else if b < oc.len() {
                            assert(ws[b] == oc[b]);
                        }
                    }
                }
            }
        }
    }

    /// What the shape gives: the forest fits in memory, child entries
    /// designate elements, terminal elements own no children, and no
    /// element is its own child.
    pub proof fn lemma_shape(&self)
        requires
            self.inv(),
        ensures
            self@.len() <= usize::MAX,
            children_in_range(self@),
            leaves_childless(self@),
            forall|p: int, k: int| 0 <= p < self@.len() && 0 <= k < self@[p].children.len() ==> #[trigger] self@[p].children[k] != p,
    {
    }

    /// Every child entry designates an element.
    pub proof fn lemma_child_in_range(&self, p: int, k: int)
        requires
            self.inv(),
            0 <= p < self@.len(),
            0 <= k < self@[p].children.len(),
        ensures
            self@[p].children[k] < self@.len(),
    {
    }

    /// How many children interior element `p` has.
    pub fn child_count(&self, p: usize) -> (r: usize)
        requires
            is_node_at(self@, p as int),
        ensures
            r == self@[p as int].children.len(),
    {
        match &self.slots[p] {
            TreeElementImpl::Node(n) => n.children.len(),
            TreeElementImpl::Leaf(_) => unreached(),
        }
    }

    /// The child at position `k` of interior element `p`.
    pub fn child_at(&self, p: usize, k: usize) -> (r: usize)
        requires
            is_node_at(self@, p as int),
            k < self@[p as int].children.len(),
        ensures
            r == self@[p as int].children[k as int],
    {
        match &self.slots[p] {
            TreeElementImpl::Node(n) => n.children[k],
            TreeElementImpl::Leaf(_) => unreached(),
        }
    }

    /// Puts `order`, a permutation of the children of `p`, in their place.
    pub(crate) fn reorder_children(&mut self, p: usize, order: Vec<usize>)
        requires
            old(self).inv(),
            is_node_at(old(self)@, p as int),
            order@.to_multiset() == old(self)@[p as int].children.to_multiset(),
        ensures
            final(self)@ == old(self)@.update(p as int, ElementView { children: order@, ..old(self)@[p as int] }),
            final(self).inv(),
            old(self).wf() ==> final(self).wf(),
    {
        let ghost v = self@;
        let ghost oc = v[p as int].children;
        let ghost nc = order@;
        proof {
            assert forall|x: usize| nc.contains(x) <==> oc.contains(x) by {
                broadcast use vstd::seq_lib::to_multiset_contains;
                assert(nc.to_multiset().count(x) == oc.to_multiset().count(x));
            }
        }
        self.replace_children(p, order);
        proof {
            let w = self@;
            assert forall|q: int, k: int| 0 <= q < w.len() && 0 <= k < w[q].children.len() implies
                #[trigger] w[q].children[k] < w.len() && self.rank@[w[q].children[k] as int] < self.rank@[q] by {
                if q == p {
                    assert(nc.contains(nc[k]));
                    let j = choose|j: int| 0 <= j < oc.len() && oc[j] == nc[k];
                    assert(oc[j] < v.len());
                }
            }
            if linked(v) {
                assert forall|q: int, k: int| 0 <= q < w.len() && 0 <= k < w[q].children.len() implies
                    w[#[trigger] w[q].children[k] as int].parent == Some(q as usize) by {
                    if q == p {
                        assert(nc.contains(nc[k]));
                        let j = choose|j: int| 0 <= j < oc.len() && oc[j] == nc[k];
                        assert(v[oc[j] as int].parent == Some(p));
                    }
                }
                assert forall|i: int| 0 <= i < w.len() && (#[trigger] w[i].parent) is Some implies {
                    let q = w[i].parent->0;
                    &&& is_node_at(w, q as int)
                    &&& w[q as int].children.contains(i as usize)
                } by {
                    let q = w[i].parent->0;
                    if q == p {
                        assert(oc.contains(i as usize));
                    }
                }
                assert(nc.no_duplicates()) by {
                    assert(oc.no_duplicates());
                    oc.lemma_multiset_has_no_duplicates();
                    nc.lemma_multiset_has_no_duplicates_conv();
                }
            }
        }
    }

    /// The payload of interior element `id`.
    pub fn node_value(&self, id: usize) -> (r: &IT)
        requires
            is_node_at(self@, id as int),
        ensures
            self@[id as int].payload == Value::<IT, LT>::Node(*r),
    {
        match &self.slots[id] {
            TreeElementImpl::Node(n) => &n.value,
            TreeElementImpl::Leaf(_) => unreached(),
        }
    }

    /// Write access to the payload of interior element `id`; nothing else
    /// changes.
    pub fn node_value_mut(&mut self, id: usize) -> (r: &mut IT)
        requires
            is_node_at(old(self)@, id as int),
        ensures
            old(self)@[id as int].payload == Value::<IT, LT>::Node(*r),
            final(self)@ == old(self)@.update(id as int, ElementView { payload: Value::Node(*final(r)), ..old(self)@[id as int] }),
            final(self).same_rank(*old(self)),
    {
        match &mut self.slots[id] {
            TreeElementImpl::Node(n) => &mut n.value,
            TreeElementImpl::Leaf(_) => unreached(),
        }
    }

    /// The payload of terminal element `id`.
    pub fn leaf_value(&self, id: usize) -> (r: &LT)
        requires
            is_leaf_at(self@, id as int),
        ensures
            self@[id as int].payload == Value::<IT, LT>::Leaf(*r),
    {
        match &self.slots[id] {
            TreeElementImpl::Leaf(l) => &l.value,
            TreeElementImpl::Node(_) => unreached(),
        }
    }

    /// Write access to the payload of terminal element `id`; nothing else
    /// changes.
    pub fn leaf_value_mut(&mut self, id: usize) -> (r: &mut LT)
        requires
            is_leaf_at(old(self)@, id as int),
        ensures
            old(self)@[id as int].payload == Value::<IT, LT>::Leaf(*r),
            final(self)@ == old(self)@.update(id as int, ElementView { payload: Value::Leaf(*final(r)), ..old(self)@[id as int] }),
            final(self).same_rank(*old(self)),
    {
        match &mut self.slots[id] {
            TreeElementImpl::Leaf(l) => &mut l.value,
            TreeElementImpl::Node(_) => unreached(),
        }
    }

    /// The two forests carry the same ranks: a payload edit leaves them.
    pub closed spec fn same_rank(self, other: Self) -> bool {
        self.rank == other.rank
    }

    /// A payload written through `node_value_mut` or `leaf_value_mut`
    /// leaves the shape as it was.
    pub proof fn lemma_payload_edit(a: Self, b: Self)
        requires
            a.inv(),
            b.same_rank(a),
            b@.len() == a@.len(),
            forall|i: int| 0 <= i < a@.len() ==> (#[trigger] b@[i]).children == a@[i].children
                && (b@[i].payload is Node <==> a@[i].payload is Node),
        ensures
            b.inv(),
    {
        assert forall|p: int, k: int| 0 <= p < b@.len() && 0 <= k < b@[p].children.len() implies
            #[trigger] b@[p].children[k] < b@.len() && b.rank@[b@[p].children[k] as int] < b.rank@[p] by {
            assert(b@[p].children == a@[p].children);
        }
        assert forall|i: int| #[trigger] is_leaf_at(b@, i) implies b@[i].children.len() == 0 by {
            assert(b@[i].children == a@[i].children);
            assert(is_leaf_at(a@, i));
        }
    }
}

impl<IT: Clone, LT: Clone> Forest<IT, LT> {
    /// Copies the subtree of `x` into new slots at the end; the copy of `x`
    /// gets the back-reference `parent` and is not yet listed anywhere.
    /// Everything below `limit` stays below it, and `x` is below it.
    fn clone_subtree(&mut self, x: usize, parent: Option<usize>, Ghost(limit): Ghost<int>) -> (res: (usize, Ghost<Seq<usize>>))
        requires
            old(self).inv(),
            0 <= x < limit <= old(self)@.len(),
            forall|p: int, k: int| 0 <= p < limit && 0 <= k < old(self)@[p].children.len() ==> #[trigger] old(self)@[p].children[k] < limit,
            parent is Some ==> parent->0 < old(self)@.len(),
        ensures
            res.0 == old(self)@.len(),
            final(self).inv(),
            final(self)@.subrange(0, old(self)@.len() as int) == old(self)@,
            is_copy(old(self)@, final(self)@, x as int, res.1@, parent),
            forall|j: int| 0 <= j < res.1@.len() ==> #[trigger] res.1@[j] < limit,
            forall|i: int| 0 <= i < old(self)@.len() ==> #[trigger] final(self).rank@[i] == old(self).rank@[i],
            forall|j: int| 0 <= j < res.1@.len() ==> #[trigger] final(self).rank@[old(self)@.len() + j] == old(self).rank@[res.1@[j] as int],
        decreases self.rank@[x as int],
    {
        let base = self.slots.len();
        let ghost v = self@;
        let ghost rv = self.rank@;
        let (e, count) = match &self.slots[x] {
            TreeElementImpl::Node(n) => (TreeElementImpl::Node(NodeImpl::new(n.value.clone(), parent)), n.children.len()),
            TreeElementImpl::Leaf(l) => (TreeElementImpl::Leaf(LeafImpl::new(l.value.clone(), parent)), 0),
        };
        assert(payload_cloned(v[x as int].payload, e.view_element().payload));
        assert(count == v[x as int].children.len());
        self.slots.push(e);
        assert(self.slots@.len() == self.slots.len());
        proof {
            self.rank@ = rv.push(rv[x as int]);
            assert(self@ =~= v.push(e.view_element()));
        }
        let ghost mut m: Seq<usize> = seq![x];
        let mut i: usize = 0;
        while i < count
            invariant
                base == v.len(),
                rv == old(self).rank@,
                0 <= x < limit <= v.len(),
                forall|p: int, k: int| 0 <= p < limit && 0 <= k < v[p].children.len() ==> #[trigger] v[p].children[k] < limit,
                parent is Some ==> parent->0 < v.len(),
                count == v[x as int].children.len(),
                count > 0 ==> is_node_at(v, x as int),
                i <= count,
                self.inv(),
                self@.len() == base + m.len(),
                self@.subrange(0, base as int) == v,
                m.len() >= 1,
                m[0] == x,
                forall|j: int| 0 <= j < m.len() ==> #[trigger] m[j] < limit,
                forall|q: int| 0 <= q < base ==> #[trigger] self.rank@[q] == rv[q],
                forall|j: int| 0 <= j < m.len() ==> #[trigger] self.rank@[base + j] == rv[m[j] as int],
                self@[base as int].parent == parent,
                payload_cloned(v[x as int].payload, self@[base as int].payload),
                self@[base as int].payload is Node <==> v[x as int].payload is Node,
                self@[base as int].children.len() == i,
                forall|k: int, l: int| 0 <= k < l < i ==> #[trigger] self@[base as int].children[k] < #[trigger] self@[base as int].children[l],
                forall|k: int| 0 <= k < i ==> {
                    let d = #[trigger] self@[base as int].children[k];
                    &&& base < d < self@.len()
                    &&& m[d - base] == v[x as int].children[k]
                    &&& self@[d as int].parent == Some(base)
                },
                forall|j: int| 1 <= j < m.len() ==> #[trigger] copied_at(v, self@, base as int, m, j),
            decreases count - i,
        {
            let c = self.child_at(x, i);
            assert(self@[x as int] == v[x as int]);
            let ghost pre = self@;
            let ghost pre_rank = self.rank@;
            proof {
                assert(c < limit);
                assert(rv[c as int] < rv[x as int]);
                assert(self.rank@[c as int] == rv[c as int]);
                assert forall|p: int, k: int| 0 <= p < limit && 0 <= k < pre[p].children.len() implies #[trigger] pre[p].children[k] < limit by {
                    assert(pre[p] == v[p]);
                }
            }
            let (yc, Ghost(mc)) = self.clone_subtree(c, Some(base), Ghost(limit));
            let ghost mid = self@;
            let mut ys = self.replace_children(base, Vec::new());
            ys.push(yc);
            self.replace_children(base, ys);
            proof {
                let w = self@;
                let nb = pre.len() as int;
                let old_m = m;
                m = m + mc;
                assert(nb == base + old_m.len());
                assert forall|q: int| 0 <= q < nb && q != base implies #[trigger] w[q] == pre[q] by {
                    assert(mid.subrange(0, nb)[q] == pre[q]);
                }
                assert forall|q: int| nb <= q < w.len() implies #[trigger] w[q] == mid[q] by {}
                assert(w.subrange(0, base as int) =~= v) by {
                    assert forall|q: int| 0 <= q < base implies w[q] == v[q] by {
                        assert(pre.subrange(0, base as int)[q] == v[q]);
                    }
                }
                assert forall|j: int| 0 <= j < m.len() implies #[trigger] m[j] < limit by {
                    if j >= old_m.len() {
                        assert(m[j] == mc[j - old_m.len()]);
                    }
                }
                assert forall|q: int| 0 <= q < base implies #[trigger] self.rank@[q] == rv[q] by {
                    assert(self.rank@[q] == pre_rank[q]);
                }
                assert forall|j: int| 0 <= j < m.len() implies #[trigger] self.rank@[base + j] == rv[m[j] as int] by {
                    if j < old_m.len() {
                        assert(self.rank@[base + j] == pre_rank[base + j]);
                    } else {
                        let jj = j - old_m.len();
                        assert(base + j == nb + jj);
                        assert(self.rank@[nb + jj] == pre_rank[mc[jj] as int]);
                        assert(mc[jj] < limit);
                        assert(m[j] == mc[jj]);
                    }
                }
                // the new child of the copy of x
                assert(w[base as int].children == pre[base as int].children.push(yc));
                assert(yc == nb);
                assert(copied_at(pre, mid, nb, mc, 0));
                assert(mid[nb].parent == Some(base));
                assert forall|k: int, l: int| 0 <= k < l < i + 1 implies #[trigger] w[base as int].children[k] < #[trigger] w[base as int].children[l] by {
                    if l == i {
                        assert(w[base as int].children[k] == pre[base as int].children[k]);
                    } else {
                        assert(w[base as int].children[k] == pre[base as int].children[k]);
                        assert(w[base as int].children[l] == pre[base as int].children[l]);
                    }
                }
                assert forall|k: int| 0 <= k < i + 1 implies {
                    let d = #[trigger] w[base as int].children[k];
                    &&& base < d < w.len()
                    &&& m[d - base] == v[x as int].children[k]
                    &&& w[d as int].parent == Some(base)
                } by {
                    let d = w[base as int].children[k];
                    if k < i {
                        assert(d == pre[base as int].children[k]);
                        assert(m[d - base] == old_m[d - base]);
                        assert(w[d as int] == pre[d as int]);
                    } else {
                        assert(d == nb);
                        assert(m[d - base] == mc[0]);
                        assert(mc[0] == c);
                        assert(w[d as int] == mid[d as int]);
                    }
                }
                assert forall|j: int| 1 <= j < m.len() implies #[trigger] copied_at(v, w, base as int, m, j) by {
                    if j < old_m.len() {
                        assert(copied_at(v, pre, base as int, old_m, j));
                        let e = w[base + j];
                        assert(e == pre[base + j]);
                        assert(m[j] == old_m[j]);
                        assert forall|k: int| 0 <= k < e.children.len() implies {
                            let d = #[trigger] e.children[k];
                            &&& base < d < w.len()
                            &&& m[d - base] == v[m[j] as int].children[k]
                            &&& w[d as int].parent == Some((base + j) as usize)
                        } by {
                            let d = e.children[k];
                            assert(base < d < pre.len());
                            assert(w[d as int] == pre[d as int]);
                            assert(m[d - base] == old_m[d - base]);
                        }
                        let q = e.parent->0;
                        if q == base {
                            let t = choose|t: int| 0 <= t < pre[base as int].children.len() && pre[base as int].children[t] == (base + j) as usize;
                            assert(w[base as int].children[t] == (base + j) as usize);
                        } else {
                            assert(w[q as int] == pre[q as int]);
                        }
                    } else {
                        let jj = j - old_m.len();
                        assert(copied_at(pre, mid, nb, mc, jj));
                        assert(base + j == nb + jj);
                        let e = w[nb + jj];
                        assert(e == mid[nb + jj]);
                        assert(m[j] == mc[jj]);
                        assert(mc[jj] < limit);
                        assert(pre[mc[jj] as int] == v[mc[jj] as int]);
                        assert forall|k: int| 0 <= k < e.children.len() implies {
                            let d = #[trigger] e.children[k];
                            &&& base < d < w.len()
                            &&& m[d - base] == v[m[j] as int].children[k]
                            &&& w[d as int].parent == Some((base + j) as usize)
                        } by {
                            let d = e.children[k];
                            assert(nb < d < mid.len());
                            assert(w[d as int] == mid[d as int]);
                            assert(m[d - base] == mc[d - nb]);
                        }
                        if jj == 0 {
                            assert(e.parent == Some(base));
                            assert(w[base as int].children[i as int] == (base + j) as usize);
                        } else {
                            let q = e.parent->0;
                            assert(nb <= q < mid.len());
                            assert(w[q as int] == mid[q as int]);
                        }
                    }
                }
            }
            i = i + 1;
        }
        proof {
            let w = self@;
            assert forall|k: int, l: int| 0 <= k < w[base as int].children.len() && 0 <= l < w[base as int].children.len() && k != l implies
                w[base as int].children[k] != w[base as int].children[l] by {
                if k < l {
                    assert(w[base as int].children[k] < w[base as int].children[l]);
                } else {
                    assert(w[base as int].children[l] < w[base as int].children[k]);
                }
            }
            assert(copied_at(v, w, base as int, m, 0));
            assert forall|q: int| 0 <= q < base implies #[trigger] w.subrange(0, base as int)[q] == v[q] by {}
        }
        (base, Ghost(m))
    }

    /// Copies the subtree of `x` into new slots. The copy is detached, its
    /// elements are linked among themselves, and no element of the forest
    /// is changed.
    pub fn deep_clone_element(&mut self, x: usize) -> (y: usize)
        requires
            old(self).wf(),
            x < old(self)@.len(),
        ensures
            y == old(self)@.len(),
            final(self)@.subrange(0, old(self)@.len() as int) == old(self)@,
            exists|m: Seq<usize>| is_copy(old(self)@, final(self)@, x as int, m, None),
            final(self).wf(),
    {
        let ghost v = self@;
        let (y, Ghost(m)) = self.clone_subtree(x, None, Ghost(v.len() as int));
        proof {
            let w = self@;
            let base = v.len() as int;
            assert forall|q: int| 0 <= q < base implies #[trigger] w[q] == v[q] by {
                assert(w.subrange(0, base)[q] == v[q]);
            }
            assert forall|p: int, k: int| 0 <= p < w.len() && 0 <= k < w[p].children.len() implies
                w[#[trigger] w[p].children[k] as int].parent == Some(p as usize) by {
                if p < base {
                    assert(w[p] == v[p]);
                    assert(v[p].children[k] < base);
                } else {
                    assert(copied_at(v, w, base, m, p - base));
                }
            }
            assert forall|i: int| 0 <= i < w.len() && (#[trigger] w[i].parent) is Some implies {
                let q = w[i].parent->0;
                &&& is_node_at(w, q as int)
                &&& w[q as int].children.contains(i as usize)
            } by {
                let q = w[i].parent->0;
                if i < base {
                    assert(w[i] == v[i]);
                    assert(w[q as int] == v[q as int]);
                } else {
                    assert(copied_at(v, w, base, m, i - base));
                    assert(i != base);
                    let t = choose|t: int| 0 <= t < w[q as int].children.len() && w[q as int].children[t] == i as usize;
                    assert(w[q as int].children[t] == i as usize);
                    assert(is_leaf_at(w, q as int) ==> w[q as int].children.len() == 0);
                }
            }
            assert forall|p: int| 0 <= p < w.len() implies (#[trigger] w[p].children).no_duplicates() by {
                if p < base {
                    assert(w[p] == v[p]);
                } else {
                    assert(copied_at(v, w, base, m, p - base));
                }
            }
        }
        y
    }
}

} // verus!
