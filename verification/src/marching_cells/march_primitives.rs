use vstd::prelude::*;
use super::march_primitive::MarchPrimitive;

verus! {

/// The primitives of one marching cell.
#[derive(Debug, Default, Clone, PartialEq, PartialOrd, Hash)]
pub struct MarchPrimitives<D>(Vec<MarchPrimitive<D>>);

impl<D> View for MarchPrimitives<D> {
    type V = Seq<MarchPrimitive<D>>;

    closed spec fn view(&self) -> Seq<MarchPrimitive<D>> {
        self.0@
    }
}

impl<D> MarchPrimitives<D> {
    /// The primitives in `v`, in order.
    pub fn from_vec(v: Vec<MarchPrimitive<D>>) -> (r: Self)
        ensures
            r@ == v@,
    {
        MarchPrimitives(v)
    }

    /// The primitives, in order.
    pub fn into_vec(self) -> (r: Vec<MarchPrimitive<D>>)
        ensures
            r@ == self@,
    {
        self.0
    }

    /// The primitives, in order.
    pub fn as_vec(&self) -> (r: &Vec<MarchPrimitive<D>>)
        ensures
            r@ == self@,
    {
        &self.0
    }
}

/// Cells that can be turned into mesh primitives.
pub trait ToMarchPrimitives<D> {
    fn march_primitives(self) -> MarchPrimitives<D>;
}

} // verus!
