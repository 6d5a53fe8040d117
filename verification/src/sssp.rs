//! Single-source shortest paths.
use vstd::prelude::*;

verus! {

/// Shortest paths from one source: the cost of reaching a vertex, and a
/// path that reaches it at that cost.
pub trait Sssp<V> {
    type Cost;

    /// `v` is a vertex of the graph searched.
    spec fn has_vertex(&self, v: V) -> bool;

    /// The least cost of reaching `dst`; `None` where it cannot be reached.
    fn cost(&self, dst: &V) -> Option<Self::Cost>
        requires
            self.has_vertex(*dst),
    ;

    /// The vertices of a path of least cost from the source to `dst`, in
    /// order; empty where `dst` cannot be reached.
    fn path(&self, dst: &V) -> Vec<V>
        requires
            self.has_vertex(*dst),
    ;
}

} // verus!
