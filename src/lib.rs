use vstd::prelude::*;
use crate::forest::{ElementView, Forest, is_copy};

pub mod forest;
pub mod internal;
pub mod laws;
pub mod tree;
pub mod tree_elements;

verus! {

/// Copies a whole subtree: payloads are cloned, back-references point into
/// the copy, and the copy shares no element with the original.
pub trait DeepClone<IT: Clone, LT: Clone>: Sized {
    /// The index of the element that the handle designates.
    spec fn designated(&self) -> usize;

    /// The handle designates an element of `v` of the kind it carries.
    spec fn designates_in(&self, v: Seq<ElementView<IT, LT>>) -> bool;

    fn deep_clone(&self, forest: &mut Forest<IT, LT>) -> (r: Self)
        requires
            old(forest).wf(),
            self.designates_in(old(forest)@),
        ensures
            r.designated() == old(forest)@.len(),
            r.designates_in(final(forest)@),
            final(forest)@.subrange(0, old(forest)@.len() as int) == old(forest)@,
            exists|m: Seq<usize>| is_copy(old(forest)@, final(forest)@, self.designated() as int, m, None),
            final(forest).wf(),
    ;
}

} // verus!
