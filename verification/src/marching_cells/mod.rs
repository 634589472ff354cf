//! Corners, edges and faces of a unit cell, and the marching-cells tables built on them.
use vstd::prelude::*;

pub mod cell;
pub mod corner;
pub mod corners;
pub mod edge;
pub mod edges;
pub mod face;
pub mod faces;
pub mod march_primitive;
pub mod march_primitives;
pub mod marching_cubes;
pub mod marching_squares;

pub use cell::Cell;
pub use corner::Corner;
pub use corners::{Corners, ToCorners};
pub use edge::Edge;
pub use edges::{Edges, ToEdges};
pub use face::Face;
pub use faces::Faces;
pub use march_primitive::MarchPrimitive;
pub use march_primitives::{MarchPrimitives, ToMarchPrimitives};

verus! {

/// Types with a value that holds every member.
pub trait All: Sized {
    fn all() -> Self;
}

} // verus!
