use vstd::prelude::*;
use crate::forest::{
    ElementView, Forest, copied_at, first_index, first_position, fresh_element, is_copy, is_node_at,
    lemma_first_index, linked, parent_link,
};
use crate::tree::{DLTreeError, Value};
use crate::tree_elements::{element_at, insertion, parent_result, removal, TreeElement};

verus! {

/// In a linked forest every child reports its interior owner as parent,
/// and an element that reports no parent is in no child sequence.
pub proof fn lemma_linked_reports_parents<IT, LT>(v: Seq<ElementView<IT, LT>>)
    requires
        linked(v),
        v.len() <= usize::MAX,
    ensures
        forall|p: int, k: int| #![trigger v[p].children[k]]
            is_node_at(v, p) && 0 <= k < v[p].children.len() ==> parent_link(v, v[p].children[k] as int) == Ok::<Option<usize>, DLTreeError>(Some(p as usize)),
        forall|i: int, p: int| 0 <= i < v.len() && 0 <= p < v.len() && v[i].parent is None ==> !(#[trigger] v[p].children.contains(i as usize)),
{
    assert forall|p: int, k: int| #![trigger v[p].children[k]]
        is_node_at(v, p) && 0 <= k < v[p].children.len() implies parent_link(v, v[p].children[k] as int) == Ok::<Option<usize>, DLTreeError>(Some(p as usize)) by {
        let c = v[p].children[k];
        assert(v[c as int].parent == Some(p as usize));
        assert(v[p].children.contains(c));
    }
    assert forall|i: int, p: int| 0 <= i < v.len() && 0 <= p < v.len() && v[i].parent is None implies !(#[trigger] v[p].children.contains(i as usize)) by {
        if v[p].children.contains(i as usize) {
            let k = choose|k: int| 0 <= k < v[p].children.len() && v[p].children[k] == i as usize;
            assert(v[v[p].children[k] as int].parent == Some(p as usize));
        }
    }
}

/// In a linked forest, removing an element that has a parent succeeds,
/// takes exactly one entry from the parent's children, and afterwards the
/// element reports no parent.
pub proof fn lemma_removal_correct<IT, LT>(
    f: &Forest<IT, LT>,
    i: int,
    w: Seq<ElementView<IT, LT>>,
    r: Result<crate::tree::Tree, DLTreeError>,
)
    requires
        f.wf(),
        0 <= i < f@.len(),
        f@[i].parent is Some,
        removal(f@, i, w, r),
    ensures
        r is Ok,
        ({
            let v = f@;
            let p = v[i].parent->0 as int;
            &&& w[p].children.len() == v[p].children.len() - 1
            &&& !w[p].children.contains(i as usize)
            &&& parent_result(w, i) == Ok::<Option<crate::tree_elements::Node>, DLTreeError>(None)
        }),
{
    let v = f@;
    f.lemma_shape();
    let p = v[i].parent->0 as int;
    let s = v[p].children;
    assert(s.contains(i as usize));
    let k = choose|k: int| 0 <= k < s.len() && s[k] == i as usize;
    assert(first_position(s, i as usize, k)) by {
        assert(s.no_duplicates());
    }
    lemma_first_index(s, i as usize, k);
    assert(s[k] != p);
    let t = s.remove(k);
    assert(w[p].children == t);
    assert(!t.contains(i as usize)) by {
        if t.contains(i as usize) {
            let j = choose|j: int| 0 <= j < t.len() && t[j] == i as usize;
            if j < k {
                assert(s[j] == i as usize);
            } else {
                assert(s[j + 1] == i as usize);
            }
        }
    }
}

/// Inserting a sibling next to an element leaves the other children of the
/// parent in their order: taking the new element out gives the old
/// children back, and the new element stands right before (or after) the
/// element it was inserted next to.
pub proof fn lemma_insertion_keeps_order<IT, LT>(
    v: Seq<ElementView<IT, LT>>,
    i: int,
    after: bool,
    value: Value<IT, LT>,
    w: Seq<ElementView<IT, LT>>,
    r: Result<usize, DLTreeError>,
)
    requires
        linked(v),
        v.len() <= usize::MAX,
        0 <= i < v.len(),
        v[i].parent is Some,
        insertion(v, i, after, value, w, r),
    ensures
        r == Ok::<usize, DLTreeError>(v.len() as usize),
        ({
            let p = v[i].parent->0 as int;
            let k = first_index(v[p].children, i as usize);
            let pos = if after { k + 1 } else { k };
            &&& w[p].children.remove(pos) == v[p].children
            &&& w[p].children[pos] == v.len() as usize
            &&& w[p].children[if after { pos - 1 } else { pos + 1 }] == i as usize
        }),
{
    let p = v[i].parent->0 as int;
    let s = v[p].children;
    assert(s.contains(i as usize));
    let k = choose|k: int| 0 <= k < s.len() && s[k] == i as usize;
    assert(first_position(s, i as usize, k)) by {
        assert(s.no_duplicates());
    }
    lemma_first_index(s, i as usize, k);
    let pos = if after { k + 1 } else { k };
    let n = v.len() as usize;
    assert(w[p].children == s.insert(pos, n));
    assert(s.insert(pos, n).remove(pos) =~= s);
}

/// A deep copy shares no element with the original: every copy lies past
/// the original elements, so writing a payload of the copy leaves the
/// original subtree as it was, and writing one of the original leaves the
/// copy as it was. In a linked result every child of a copied element
/// reports that copy, not the original, as parent.
pub proof fn lemma_deep_clone_independent<IT: Clone, LT: Clone>(
    v: Seq<ElementView<IT, LT>>,
    w: Seq<ElementView<IT, LT>>,
    x: int,
    m: Seq<usize>,
)
    requires
        is_copy(v, w, x, m, None),
        w.subrange(0, v.len() as int) == v,
        linked(w),
    ensures
        forall|j: int| 0 <= j < m.len() ==> #[trigger] m[j] < v.len() <= v.len() + j,
        forall|j: int, e: ElementView<IT, LT>| 0 <= j < m.len() ==>
            (#[trigger] w.update(v.len() + j, e)).subrange(0, v.len() as int) == v,
        forall|o: int, e: ElementView<IT, LT>| 0 <= o < v.len() ==>
            (#[trigger] w.update(o, e)).subrange(v.len() as int, w.len() as int) == w.subrange(v.len() as int, w.len() as int),
        forall|j: int, k: int| 0 <= j < m.len() && 0 <= k < w[v.len() + j].children.len() ==>
            parent_link(w, #[trigger] w[v.len() + j].children[k] as int) == Ok::<Option<usize>, DLTreeError>(Some((v.len() + j) as usize)),
{
    let base = v.len() as int;
    assert forall|j: int| 0 <= j < m.len() implies #[trigger] m[j] < v.len() <= v.len() + j by {
        assert(copied_at(v, w, base, m, j));
    }
    assert forall|j: int, e: ElementView<IT, LT>| 0 <= j < m.len() implies
        (#[trigger] w.update(v.len() + j, e)).subrange(0, v.len() as int) == v by {
        assert(w.update(base + j, e).subrange(0, base) =~= w.subrange(0, base));
    }
    assert forall|o: int, e: ElementView<IT, LT>| 0 <= o < v.len() implies
        (#[trigger] w.update(o, e)).subrange(v.len() as int, w.len() as int) == w.subrange(v.len() as int, w.len() as int) by {
        assert(w.update(o, e).subrange(base, w.len() as int) =~= w.subrange(base, w.len() as int));
    }
    assert forall|j: int, k: int| 0 <= j < m.len() && 0 <= k < w[v.len() + j].children.len() implies
        parent_link(w, #[trigger] w[v.len() + j].children[k] as int) == Ok::<Option<usize>, DLTreeError>(Some((v.len() + j) as usize)) by {
        assert(copied_at(v, w, base, m, j));
        let d = w[base + j].children[k];
        assert(w[d as int].parent == Some((base + j) as usize));
        assert(w[base + j].children.contains(d));
        assert(w[base + j].payload is Node) by {
            if w[base + j].payload is Leaf {
                assert(v[m[j] as int].payload is Leaf);
            }
        }
    }
}

/// Handles are identities: two handles obtained for the same slot are
/// equal, handles for different slots differ, and two elements stored one
/// after the other from equal payloads get different handles.
pub proof fn lemma_handle_identity<IT, LT>(v: Seq<ElementView<IT, LT>>, a: int, b: int, value: Value<IT, LT>)
    requires
        0 <= a < v.len(),
        0 <= b < v.len(),
        v.len() + 2 <= usize::MAX,
    ensures
        (element_at(v, a) == element_at(v, b)) <==> a == b,
        ({
            let w = v.push(fresh_element(value, None)).push(fresh_element(value, None));
            element_at(w, v.len() as int) != element_at(w, v.len() as int + 1)
        }),
{
    let w = v.push(fresh_element(value, None)).push(fresh_element(value, None));
    assert(element_at(w, v.len() as int).id() != element_at(w, v.len() as int + 1).id());
}

} // verus!
