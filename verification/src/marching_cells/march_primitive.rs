use vstd::prelude::*;
use crate::gltf_export::Indices;
use super::edge::Edge;

verus! {

/// One primitive of a marching-cells mesh: the cell edges that carry its vertices, and the
/// order in which to join them, if it is not the order of the edges.
#[derive(Debug, Default, Clone, PartialEq, PartialOrd, Hash)]
pub struct MarchPrimitive<D> {
    pub edges: Vec<Edge<D>>,
    pub indices: Option<Indices>,
}

impl<D> MarchPrimitive<D> {
    /// The primitive with the given edges and indices.
    pub fn new(edges: Vec<Edge<D>>, indices: Option<Vec<u32>>) -> (r: Self)
        ensures
            r.edges@ == edges@,
            r.indices is Some <==> indices is Some,
            r.indices matches Some(i) ==> i@ == indices->0@,
    {
        MarchPrimitive {
            edges,
            indices: match indices {
                Some(it) => Some(Indices::from_vec(it)),
                None => None,
            },
        }
    }
}

} // verus!
