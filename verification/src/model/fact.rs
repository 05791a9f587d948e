//! What is known of the tensor on an edge of the graph.

use vstd::prelude::*;

verus! {

/// A description of a tensor. The graph is the same for every flavour of
/// description; it asks of one only that two can be compared and that one
/// can be copied.
pub trait Fact: Sized {
    /// Whether the two facts describe the same tensors.
    spec fn same(&self, other: &Self) -> bool;

    /// Whether the two facts describe the same tensors.
    fn same_as(&self, other: &Self) -> (r: bool)
        ensures
            r == self.same(other),
    ;

    /// A copy of the fact.
    fn duplicate(&self) -> (r: Self)
        ensures
            r.same(self),
            self.same(&r),
    ;

    /// To describe the same tensors is an equivalence.
    proof fn lemma_same(a: &Self, b: &Self, c: &Self)
        ensures
            a.same(a),
            a.same(b) ==> b.same(a),
            a.same(b) && b.same(c) ==> a.same(c),
    ;
}

} // verus!
