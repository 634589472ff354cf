use core::marker::PhantomData;
use vstd::prelude::*;
use vstd::std_specs::ops::{BitAndSpecImpl, BitOrSpecImpl, BitXorSpecImpl, NotSpecImpl};
use crate::bits::{bit_index16, index_of_bit16, bit_index8, lemma_bit_index8, lemma_bit_index16,
    lemma_bit8_test, lemma_bit16_test};
use super::corner::Corner;
use super::edges::ToEdges;
use crate::cell_topology::CellTopology;
use crate::power2::{Power2U16, is_power_of_two, lemma_u16_power_of_two_values};
use crate::vector_space::{D2, D3};
use super::corners::{Corners, ToCorners};
use super::edges::Edges;

verus! {

/// One edge of a cell, as a single bit.
#[derive(Debug, PartialEq, Eq, PartialOrd, Ord, Hash)]
pub struct Edge<D>(pub Power2U16, pub PhantomData<D>);

impl<D> Clone for Edge<D> {
    fn clone(&self) -> (r: Self)
        ensures
            r == *self,
    {
        Edge(self.0, PhantomData)
    }
}

impl<D> Copy for Edge<D> {

}

impl<D> View for Edge<D> {
    type V = u16;

    open spec fn view(&self) -> u16 {
        self.0@
    }
}

impl<D> Edge<D> {
    /// The edge with bit `n`, which the caller knows to be a single bit.
    pub fn new_unchecked(n: u16) -> (r: Self)
        requires
            is_power_of_two(n as int),
        ensures
            r@ == n,
    {
        Edge(Power2U16::new_unchecked(n), PhantomData)
    }

    /// The edge with bit `n`, if `n` is a single bit.
    pub fn new(n: u16) -> (r: Option<Self>)
        ensures
            r is Some <==> is_power_of_two(n as int),
            r matches Some(e) ==> e@ == n,
    {
        match Power2U16::new(n) {
            Some(p) => Some(Edge(p, PhantomData)),
            None => None,
        }
    }
}

#[allow(non_snake_case)]
impl Edge<D2> {
    /// The edge `L`.
    pub fn L() -> (r: Self)
        ensures
            r@ == 1,
    {
        proof {
            lemma_u16_power_of_two_values(1);
        }
        Edge(Power2U16::new_unchecked(1), PhantomData)
    }

    /// The edge `R`.
    pub fn R() -> (r: Self)
        ensures
            r@ == 2,
    {
        proof {
            lemma_u16_power_of_two_values(2);
        }
        Edge(Power2U16::new_unchecked(2), PhantomData)
    }

    /// The edge `U`.
    pub fn U() -> (r: Self)
        ensures
            r@ == 4,
    {
        proof {
            lemma_u16_power_of_two_values(4);
        }
        Edge(Power2U16::new_unchecked(4), PhantomData)
    }

    /// The edge `D`.
    pub fn D() -> (r: Self)
        ensures
            r@ == 8,
    {
        proof {
            lemma_u16_power_of_two_values(8);
        }
        Edge(Power2U16::new_unchecked(8), PhantomData)
    }
}

#[allow(non_snake_case)]
impl Edge<D3> {
    /// The edge `FD`.
    pub fn FD() -> (r: Self)
        ensures
            r@ == 1,
    {
        proof {
            lemma_u16_power_of_two_values(1);
        }
        Edge(Power2U16::new_unchecked(1), PhantomData)
    }

    /// The edge `FR`.
    pub fn FR() -> (r: Self)
        ensures
            r@ == 2,
    {
        proof {
            lemma_u16_power_of_two_values(2);
        }
        Edge(Power2U16::new_unchecked(2), PhantomData)
    }

    /// The edge `FU`.
    pub fn FU() -> (r: Self)
        ensures
            r@ == 4,
    {
        proof {
            lemma_u16_power_of_two_values(4);
        }
        Edge(Power2U16::new_unchecked(4), PhantomData)
    }

    /// The edge `FL`.
    pub fn FL() -> (r: Self)
        ensures
            r@ == 8,
    {
        proof {
            lemma_u16_power_of_two_values(8);
        }
        Edge(Power2U16::new_unchecked(8), PhantomData)
    }

    /// The edge `BD`.
    pub fn BD() -> (r: Self)
        ensures
            r@ == 16,
    {
        proof {
            lemma_u16_power_of_two_values(16);
        }
        Edge(Power2U16::new_unchecked(16), PhantomData)
    }

    /// The edge `BR`.
    pub fn BR() -> (r: Self)
        ensures
            r@ == 32,
    {
        proof {
            lemma_u16_power_of_two_values(32);
        }
        Edge(Power2U16::new_unchecked(32), PhantomData)
    }

    /// The edge `BU`.
    pub fn BU() -> (r: Self)
        ensures
            r@ == 64,
    {
        proof {
            lemma_u16_power_of_two_values(64);
        }
        Edge(Power2U16::new_unchecked(64), PhantomData)
    }

    /// The edge `BL`.
    pub fn BL() -> (r: Self)
        ensures
            r@ == 128,
    {
        proof {
            lemma_u16_power_of_two_values(128);
        }
        Edge(Power2U16::new_unchecked(128), PhantomData)
    }

    /// The edge `LD`.
    pub fn LD() -> (r: Self)
        ensures
            r@ == 256,
    {
        proof {
            lemma_u16_power_of_two_values(256);
        }
        Edge(Power2U16::new_unchecked(256), PhantomData)
    }

    /// The edge `RD`.
    pub fn RD() -> (r: Self)
        ensures
            r@ == 512,
    {
        proof {
            lemma_u16_power_of_two_values(512);
        }
        Edge(Power2U16::new_unchecked(512), PhantomData)
    }

    /// The edge `RU`.
    pub fn RU() -> (r: Self)
        ensures
            r@ == 1024,
    {
        proof {
            lemma_u16_power_of_two_values(1024);
        }
        Edge(Power2U16::new_unchecked(1024), PhantomData)
    }

    /// The edge `LU`.
    pub fn LU() -> (r: Self)
        ensures
            r@ == 2048,
    {
        proof {
            lemma_u16_power_of_two_values(2048);
        }
        Edge(Power2U16::new_unchecked(2048), PhantomData)
    }
}

impl<D: CellTopology> ToCorners<D> for Edge<D> {
    open spec fn to_corners_defined(&self) -> bool {
        bit_index16(self@) < D::edge_count()
    }

    open spec fn spec_to_corners(&self) -> u8 {
        D::edge_corner_mask(bit_index16(self@))
    }

    /// The two corners that this edge joins.
    fn to_corners(&self) -> (r: Corners<D>) {
        Corners::new(D::edge_corners(index_of_bit16(self.0.get())))
    }
}

impl<D> core::ops::BitAnd<Edge<D>> for Edge<D> {
    type Output = Edges<D>;

    fn bitand(self, rhs: Edge<D>) -> (r: Edges<D>) {
        Edges(self.0.get() & rhs.0.get(), PhantomData)
    }
}

impl<D> BitAndSpecImpl<Edge<D>> for Edge<D> {
    open spec fn obeys_bitand_spec() -> bool {
        true
    }

    open spec fn bitand_req(self, rhs: Edge<D>) -> bool {
        true
    }

    open spec fn bitand_spec(self, rhs: Edge<D>) -> Edges<D> {
        Edges(self@ & rhs@, PhantomData)
    }
}

impl<D> core::ops::BitOr<Edge<D>> for Edge<D> {
    type Output = Edges<D>;

    fn bitor(self, rhs: Edge<D>) -> (r: Edges<D>) {
        Edges(self.0.get() | rhs.0.get(), PhantomData)
    }
}

impl<D> BitOrSpecImpl<Edge<D>> for Edge<D> {
    open spec fn obeys_bitor_spec() -> bool {
        true
    }

    open spec fn bitor_req(self, rhs: Edge<D>) -> bool {
        true
    }

    open spec fn bitor_spec(self, rhs: Edge<D>) -> Edges<D> {
        Edges(self@ | rhs@, PhantomData)
    }
}

impl<D> core::ops::BitXor<Edge<D>> for Edge<D> {
    type Output = Edges<D>;

    fn bitxor(self, rhs: Edge<D>) -> (r: Edges<D>) {
        Edges(self.0.get() ^ rhs.0.get(), PhantomData)
    }
}

impl<D> BitXorSpecImpl<Edge<D>> for Edge<D> {
    open spec fn obeys_bitxor_spec() -> bool {
        true
    }

    open spec fn bitxor_req(self, rhs: Edge<D>) -> bool {
        true
    }

    open spec fn bitxor_spec(self, rhs: Edge<D>) -> Edges<D> {
        Edges(self@ ^ rhs@, PhantomData)
    }
}

impl<D> core::ops::Not for Edge<D> {
    type Output = Edges<D>;

    fn not(self) -> (r: Edges<D>) {
        Edges(!self.0.get(), PhantomData)
    }
}

impl<D> NotSpecImpl for Edge<D> {
    open spec fn obeys_not_spec() -> bool {
        true
    }

    open spec fn not_req(self) -> bool {
        true
    }

    open spec fn not_spec(self) -> Edges<D> {
        Edges(!self@, PhantomData)
    }
}

/// A corner lies on an edge exactly when the edge meets the corner: `Corner::to_edges` and
/// `Edge::to_corners` describe the same incidence.
pub proof fn lemma_corner_edge_incidence<D: CellTopology>(corner: Corner<D>, edge: Edge<D>)
    requires
        corner.to_edges_defined(),
        edge.to_corners_defined(),
    ensures
        (corner.spec_to_edges() & edge@ != 0) == (edge.spec_to_corners() & corner@ != 0),
{
    D::lemma_slots();
    let c = bit_index8(corner@);
    let e = bit_index16(edge@);
    lemma_bit_index8(corner@);
    lemma_bit_index16(edge@);
    lemma_bit16_test(D::corner_edge_mask(c), e);
    lemma_bit8_test(D::edge_corner_mask(e), c);
    D::lemma_incidence(c, e);
}

} // verus!
