use core::marker::PhantomData;
use vstd::prelude::*;
use vstd::std_specs::ops::{BitAndSpecImpl, BitOrSpecImpl, BitXorSpecImpl, NotSpecImpl};
use crate::bits::{bit_index8, index_of_bit8};
use crate::cell_topology::CellTopology;
use crate::power2::{Power2U8, is_power_of_two, lemma_u8_power_of_two_values};
use crate::vector_space::{D2, D3};
use super::corners::{Corners, ToCorners};
use super::faces::Faces;

verus! {

/// One face of a cell, as a single bit.
#[derive(Debug, PartialEq, Eq, PartialOrd, Ord, Hash)]
pub struct Face<D>(pub Power2U8, pub PhantomData<D>);

impl<D> Clone for Face<D> {
    fn clone(&self) -> (r: Self)
        ensures
            r == *self,
    {
        Face(self.0, PhantomData)
    }
}

impl<D> Copy for Face<D> {

}

impl<D> View for Face<D> {
    type V = u8;

    open spec fn view(&self) -> u8 {
        self.0@
    }
}

impl<D> Face<D> {
    /// The face with bit `n`, which the caller knows to be a single bit.
    pub fn new_unchecked(n: u8) -> (r: Self)
        requires
            is_power_of_two(n as int),
        ensures
            r@ == n,
    {
        Face(Power2U8::new_unchecked(n), PhantomData)
    }

    /// The face with bit `n`, if `n` is a single bit.
    pub fn new(n: u8) -> (r: Option<Self>)
        ensures
            r is Some <==> is_power_of_two(n as int),
            r matches Some(f) ==> f@ == n,
    {
        match Power2U8::new(n) {
            Some(p) => Some(Face(p, PhantomData)),
            None => None,
        }
    }
}

#[allow(non_snake_case)]
impl Face<D2> {
    /// The face `L`.
    pub fn L() -> (r: Self)
        ensures
            r@ == 1,
    {
        proof {
            lemma_u8_power_of_two_values(1);
        }
        Face(Power2U8::new_unchecked(1), PhantomData)
    }

    /// The face `R`.
    pub fn R() -> (r: Self)
        ensures
            r@ == 2,
    {
        proof {
            lemma_u8_power_of_two_values(2);
        }
        Face(Power2U8::new_unchecked(2), PhantomData)
    }

    /// The face `U`.
    pub fn U() -> (r: Self)
        ensures
            r@ == 4,
    {
        proof {
            lemma_u8_power_of_two_values(4);
        }
        Face(Power2U8::new_unchecked(4), PhantomData)
    }

    /// The face `D`.
    pub fn D() -> (r: Self)
        ensures
            r@ == 8,
    {
        proof {
            lemma_u8_power_of_two_values(8);
        }
        Face(Power2U8::new_unchecked(8), PhantomData)
    }
}

#[allow(non_snake_case)]
impl Face<D3> {
    /// The face `L`.
    pub fn L() -> (r: Self)
        ensures
            r@ == 1,
    {
        proof {
            lemma_u8_power_of_two_values(1);
        }
        Face(Power2U8::new_unchecked(1), PhantomData)
    }

    /// The face `R`.
    pub fn R() -> (r: Self)
        ensures
            r@ == 2,
    {
        proof {
            lemma_u8_power_of_two_values(2);
        }
        Face(Power2U8::new_unchecked(2), PhantomData)
    }

    /// The face `U`.
    pub fn U() -> (r: Self)
        ensures
            r@ == 4,
    {
        proof {
            lemma_u8_power_of_two_values(4);
        }
        Face(Power2U8::new_unchecked(4), PhantomData)
    }

    /// The face `D`.
    pub fn D() -> (r: Self)
        ensures
            r@ == 8,
    {
        proof {
            lemma_u8_power_of_two_values(8);
        }
        Face(Power2U8::new_unchecked(8), PhantomData)
    }

    /// The face `F`.
    pub fn F() -> (r: Self)
        ensures
            r@ == 16,
    {
        proof {
            lemma_u8_power_of_two_values(16);
        }
        Face(Power2U8::new_unchecked(16), PhantomData)
    }

    /// The face `B`.
    pub fn B() -> (r: Self)
        ensures
            r@ == 32,
    {
        proof {
            lemma_u8_power_of_two_values(32);
        }
        Face(Power2U8::new_unchecked(32), PhantomData)
    }
}

impl<D: CellTopology> ToCorners<D> for Face<D> {
    open spec fn to_corners_defined(&self) -> bool {
        bit_index8(self@) < D::face_count()
    }

    open spec fn spec_to_corners(&self) -> u8 {
        D::face_corner_mask(bit_index8(self@))
    }

    /// The corners of this face.
    fn to_corners(&self) -> (r: Corners<D>) {
        Corners::new(D::face_corners(index_of_bit8(self.0.get())))
    }
}

impl<D> core::ops::BitAnd<Face<D>> for Face<D> {
    type Output = Faces<D>;

    fn bitand(self, rhs: Face<D>) -> (r: Faces<D>) {
        Faces(self.0.get() & rhs.0.get(), PhantomData)
    }
}

impl<D> BitAndSpecImpl<Face<D>> for Face<D> {
    open spec fn obeys_bitand_spec() -> bool {
        true
    }

    open spec fn bitand_req(self, rhs: Face<D>) -> bool {
        true
    }

    open spec fn bitand_spec(self, rhs: Face<D>) -> Faces<D> {
        Faces(self@ & rhs@, PhantomData)
    }
}

impl<D> core::ops::BitOr<Face<D>> for Face<D> {
    type Output = Faces<D>;

    fn bitor(self, rhs: Face<D>) -> (r: Faces<D>) {
        Faces(self.0.get() | rhs.0.get(), PhantomData)
    }
}

impl<D> BitOrSpecImpl<Face<D>> for Face<D> {
    open spec fn obeys_bitor_spec() -> bool {
        true
    }

    open spec fn bitor_req(self, rhs: Face<D>) -> bool {
        true
    }

    open spec fn bitor_spec(self, rhs: Face<D>) -> Faces<D> {
        Faces(self@ | rhs@, PhantomData)
    }
}

impl<D> core::ops::BitXor<Face<D>> for Face<D> {
    type Output = Faces<D>;

    fn bitxor(self, rhs: Face<D>) -> (r: Faces<D>) {
        Faces(self.0.get() ^ rhs.0.get(), PhantomData)
    }
}

impl<D> BitXorSpecImpl<Face<D>> for Face<D> {
    open spec fn obeys_bitxor_spec() -> bool {
        true
    }

    open spec fn bitxor_req(self, rhs: Face<D>) -> bool {
        true
    }

    open spec fn bitxor_spec(self, rhs: Face<D>) -> Faces<D> {
        Faces(self@ ^ rhs@, PhantomData)
    }
}

impl<D> core::ops::Not for Face<D> {
    type Output = Faces<D>;

    fn not(self) -> (r: Faces<D>) {
        Faces(!self.0.get(), PhantomData)
    }
}

impl<D> NotSpecImpl for Face<D> {
    open spec fn obeys_not_spec() -> bool {
        true
    }

    open spec fn not_req(self) -> bool {
        true
    }

    open spec fn not_spec(self) -> Faces<D> {
        Faces(!self@, PhantomData)
    }
}

} // verus!
