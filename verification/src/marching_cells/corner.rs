use core::marker::PhantomData;
use vstd::prelude::*;
use vstd::arithmetic::power2::{pow2, lemma2_to64};
use vstd::std_specs::ops::{BitAndSpecImpl, BitOrSpecImpl, BitXorSpecImpl, NotSpecImpl};
use crate::power2::{Power2U8, is_power_of_two, lemma_u8_power_of_two_values};
use crate::vector_space::{VectorDimension, D2, D3};
use super::corners::Corners;
use super::edges::{Edges, ToEdges};
use crate::bits::{bit_index8, index_of_bit8};
use crate::cell_topology::CellTopology;

verus! {

/// One corner of a cell, as a single bit.
#[derive(Debug, PartialEq, Eq, PartialOrd, Ord, Hash)]
pub struct Corner<D>(pub Power2U8, pub PhantomData<D>);

impl<D> Clone for Corner<D> {
    fn clone(&self) -> (r: Self)
        ensures
            r == *self,
    {
        Corner(self.0, PhantomData)
    }
}

impl<D> Copy for Corner<D> {

}

impl<D> View for Corner<D> {
    type V = u8;

    open spec fn view(&self) -> u8 {
        self.0@
    }
}

/// The highest corner bit of a cell in a space of the given dimension.
pub open spec fn corner_limit(dimension: nat) -> nat {
    pow2((pow2(dimension) - 1) as nat)
}

impl<D: VectorDimension> Corner<D> {
    /// The highest corner bit of a cell of `D`.
    pub open spec fn spec_max_value() -> nat {
        corner_limit(D::DIMENSION as nat)
    }

    fn max_value() -> (r: u8)
        requires
            D::DIMENSION <= 3,
        ensures
            r == Self::spec_max_value(),
    {
        proof {
            lemma2_to64();
        }
        if D::DIMENSION == 0 {
            1
        } else if D::DIMENSION == 1 {
            2
        } else if D::DIMENSION == 2 {
            8
        } else {
            128
        }
    }

    /// The corner with bit `v`, which the caller knows to be a corner of `D`.
    pub fn new_unchecked(v: u8) -> (r: Self)
        requires
            D::DIMENSION <= 3,
            v <= Self::spec_max_value(),
            is_power_of_two(v as int),
        ensures
            r@ == v,
    {
        Corner(Power2U8::new_unchecked(v), PhantomData)
    }

    /// The corner with bit `v`, if `v` is a single bit no higher than the highest corner of `D`.
    pub fn new(v: u8) -> (r: Option<Self>)
        requires
            D::DIMENSION <= 3,
        ensures
            r is Some <==> (v <= Self::spec_max_value() && is_power_of_two(v as int)),
            r matches Some(c) ==> c@ == v,
    {
        if v <= Self::max_value() {
            match Power2U8::new(v) {
                Some(p) => Some(Corner(p, PhantomData)),
                None => None,
            }
        } else {
            None
        }
    }
}

#[allow(non_snake_case)]
impl Corner<D2> {
    /// The corner `DL`.
    pub fn DL() -> (r: Self)
        ensures
            r@ == 1,
    {
        proof {
            lemma_u8_power_of_two_values(1);
            lemma2_to64();
        }
        Corner(Power2U8::new_unchecked(1), PhantomData)
    }

    /// The corner `DR`.
    pub fn DR() -> (r: Self)
        ensures
            r@ == 2,
    {
        proof {
            lemma_u8_power_of_two_values(2);
            lemma2_to64();
        }
        Corner(Power2U8::new_unchecked(2), PhantomData)
    }

    /// The corner `UL`.
    pub fn UL() -> (r: Self)
        ensures
            r@ == 4,
    {
        proof {
            lemma_u8_power_of_two_values(4);
            lemma2_to64();
        }
        Corner(Power2U8::new_unchecked(4), PhantomData)
    }

    /// The corner `UR`.
    pub fn UR() -> (r: Self)
        ensures
            r@ == 8,
    {
        proof {
            lemma_u8_power_of_two_values(8);
            lemma2_to64();
        }
        Corner(Power2U8::new_unchecked(8), PhantomData)
    }
}

#[allow(non_snake_case)]
impl Corner<D3> {
    /// The corner `BDL`.
    pub fn BDL() -> (r: Self)
        ensures
            r@ == 1,
    {
        proof {
            lemma_u8_power_of_two_values(1);
            lemma2_to64();
        }
        Corner(Power2U8::new_unchecked(1), PhantomData)
    }

    /// The corner `BDR`.
    pub fn BDR() -> (r: Self)
        ensures
            r@ == 2,
    {
        proof {
            lemma_u8_power_of_two_values(2);
            lemma2_to64();
        }
        Corner(Power2U8::new_unchecked(2), PhantomData)
    }

    /// The corner `BUL`.
    pub fn BUL() -> (r: Self)
        ensures
            r@ == 4,
    {
        proof {
            lemma_u8_power_of_two_values(4);
            lemma2_to64();
        }
        Corner(Power2U8::new_unchecked(4), PhantomData)
    }

    /// The corner `BUR`.
    pub fn BUR() -> (r: Self)
        ensures
            r@ == 8,
    {
        proof {
            lemma_u8_power_of_two_values(8);
            lemma2_to64();
        }
        Corner(Power2U8::new_unchecked(8), PhantomData)
    }

    /// The corner `FDL`.
    pub fn FDL() -> (r: Self)
        ensures
            r@ == 16,
    {
        proof {
            lemma_u8_power_of_two_values(16);
            lemma2_to64();
        }
        Corner(Power2U8::new_unchecked(16), PhantomData)
    }

    /// The corner `FDR`.
    pub fn FDR() -> (r: Self)
        ensures
            r@ == 32,
    {
        proof {
            lemma_u8_power_of_two_values(32);
            lemma2_to64();
        }
        Corner(Power2U8::new_unchecked(32), PhantomData)
    }

    /// The corner `FUL`.
    pub fn FUL() -> (r: Self)
        ensures
            r@ == 64,
    {
        proof {
            lemma_u8_power_of_two_values(64);
            lemma2_to64();
        }
        Corner(Power2U8::new_unchecked(64), PhantomData)
    }

    /// The corner `FUR`.
    pub fn FUR() -> (r: Self)
        ensures
            r@ == 128,
    {
        proof {
            lemma_u8_power_of_two_values(128);
            lemma2_to64();
        }
        Corner(Power2U8::new_unchecked(128), PhantomData)
    }
}

impl<D> core::ops::BitAnd<Corner<D>> for Corner<D> {
    type Output = Corners<D>;

    fn bitand(self, rhs: Corner<D>) -> (r: Corners<D>) {
        Corners(self.0.get() & rhs.0.get(), PhantomData)
    }
}

impl<D> BitAndSpecImpl<Corner<D>> for Corner<D> {
    open spec fn obeys_bitand_spec() -> bool {
        true
    }

    open spec fn bitand_req(self, rhs: Corner<D>) -> bool {
        true
    }

    open spec fn bitand_spec(self, rhs: Corner<D>) -> Corners<D> {
        Corners(self@ & rhs@, PhantomData)
    }
}

impl<D> core::ops::BitOr<Corner<D>> for Corner<D> {
    type Output = Corners<D>;

    fn bitor(self, rhs: Corner<D>) -> (r: Corners<D>) {
        Corners(self.0.get() | rhs.0.get(), PhantomData)
    }
}

impl<D> BitOrSpecImpl<Corner<D>> for Corner<D> {
    open spec fn obeys_bitor_spec() -> bool {
        true
    }

    open spec fn bitor_req(self, rhs: Corner<D>) -> bool {
        true
    }

    open spec fn bitor_spec(self, rhs: Corner<D>) -> Corners<D> {
        Corners(self@ | rhs@, PhantomData)
    }
}

impl<D> core::ops::BitXor<Corner<D>> for Corner<D> {
    type Output = Corners<D>;

    fn bitxor(self, rhs: Corner<D>) -> (r: Corners<D>) {
        Corners(self.0.get() ^ rhs.0.get(), PhantomData)
    }
}

impl<D> BitXorSpecImpl<Corner<D>> for Corner<D> {
    open spec fn obeys_bitxor_spec() -> bool {
        true
    }

    open spec fn bitxor_req(self, rhs: Corner<D>) -> bool {
        true
    }

    open spec fn bitxor_spec(self, rhs: Corner<D>) -> Corners<D> {
        Corners(self@ ^ rhs@, PhantomData)
    }
}

impl<D> core::ops::Not for Corner<D> {
    type Output = Corners<D>;

    fn not(self) -> (r: Corners<D>) {
        Corners(!self.0.get(), PhantomData)
    }
}

impl<D> NotSpecImpl for Corner<D> {
    open spec fn obeys_not_spec() -> bool {
        true
    }

    open spec fn not_req(self) -> bool {
        true
    }

    open spec fn not_spec(self) -> Corners<D> {
        Corners(!self@, PhantomData)
    }
}

impl<D: CellTopology> ToEdges<D> for Corner<D> {
    open spec fn to_edges_defined(&self) -> bool {
        bit_index8(self@) < D::corner_slots()
    }

    open spec fn spec_to_edges(&self) -> u16 {
        D::corner_edge_mask(bit_index8(self@))
    }

    /// The edges that meet at this corner.
    fn to_edges(&self) -> (r: Edges<D>) {
        Edges::new(D::corner_edges(index_of_bit8(self.0.get())))
    }
}

} // verus!
