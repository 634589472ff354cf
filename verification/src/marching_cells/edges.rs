use core::marker::PhantomData;
use vstd::prelude::*;
use vstd::std_specs::ops::{BitAndSpecImpl, BitOrSpecImpl, BitXorSpecImpl, NotSpecImpl};
use crate::bits::{bit8, bit16, set_bits16, lemma_bit16_shift_step, lemma_u16_one_shl,
    lemma_bit8_or, lemma_bit8_zero};
use crate::cell_topology::CellTopology;
use crate::power2::is_power_of_two;
use crate::vector_space::{D2, D3};
use super::edge::Edge;
use super::corners::{Corners, ToCorners};
use super::All;

verus! {

/// A set of edges of a cell, as a bit mask.
#[derive(Debug, PartialEq, Eq, PartialOrd, Ord, Hash)]
pub struct Edges<D>(pub u16, pub PhantomData<D>);

impl<D> Clone for Edges<D> {
    fn clone(&self) -> (r: Self)
        ensures
            r == *self,
    {
        Edges(self.0, PhantomData)
    }
}

impl<D> Copy for Edges<D> {

}

impl<D> Edges<D> {
    /// The empty set of edges.
    #[allow(non_snake_case)]
    pub fn EMPTY() -> (r: Self)
        ensures
            r.0 == 0,
    {
        Edges(0, PhantomData)
    }

    /// The set of edges with bit mask `edges`.
    pub fn new(edges: u16) -> (r: Self)
        ensures
            r.0 == edges,
    {
        Edges(edges, PhantomData)
    }
}

impl<D: CellTopology> Edges<D> {
    /// The edges in the set, lowest bit first, over the edge slots of `D`.
    pub fn edges(&self) -> (r: Vec<Edge<D>>)
        ensures
            r@.len() == set_bits16(self.0, D::edge_slots() as nat).len(),
            forall|k: int|
                0 <= k < r@.len() ==> #[trigger] r@[k]@ == 1u16 << set_bits16(
                    self.0,
                    D::edge_slots() as nat,
                )[k],
    {
        proof {
            D::lemma_slots();
        }
        let n = D::edge_slot_count();
        let mut cand = self.0;
        let mut out: Vec<Edge<D>> = Vec::new();
        let mut i: u16 = 0;
        proof {
            lemma_bit16_shift_step(self.0, 0);
        }
        while i < n
            invariant
                i <= n,
                n == D::edge_slots(),
                n <= 16,
                cand == self.0 >> i,
                out@.len() == set_bits16(self.0, i as nat).len(),
                forall|k: int|
                    0 <= k < out@.len() ==> #[trigger] out@[k]@ == 1u16 << set_bits16(self.0, i as nat)[k],
            decreases n - i,
        {
            proof {
                lemma_bit16_shift_step(self.0, i);
            }
            let v = cand & 1;
            cand = cand >> 1;
            if v > 0 {
                proof {
                    lemma_u16_one_shl(i);
                    assert(is_power_of_two((1u16 << i) as int));
                }
                out.push(Edge::new_unchecked(v << i));
            }
            i += 1;
        }
        out
    }
}

impl All for Edges<D2> {
    /// Every edge of the square.
    fn all() -> (r: Self)
        ensures
            r.0 == 0xF,
    {
        Edges(0xF, PhantomData)
    }
}

impl All for Edges<D3> {
    /// Every edge of the cube.
    fn all() -> (r: Self)
        ensures
            r.0 == 0xFFF,
    {
        Edges(0xFFF, PhantomData)
    }
}

/// The union of the corners of the edges set in `x` among the first `n`.
pub open spec fn corners_of_edges<D: CellTopology>(x: u16, n: nat) -> u8
    decreases n,
{
    if n == 0 {
        0u8
    } else if bit16(x, (n - 1) as u16) {
        corners_of_edges::<D>(x, (n - 1) as nat) | D::edge_corner_mask((n - 1) as u16)
    } else {
        corners_of_edges::<D>(x, (n - 1) as nat)
    }
}

/// A corner is among the corners of a set of edges exactly when one of them ends there.
pub proof fn lemma_corners_of_edges<D: CellTopology>(x: u16, n: nat, c: u8)
    requires
        n <= 16,
        c < 8,
    ensures
        bit8(corners_of_edges::<D>(x, n), c) <==> exists|e: u16|
            #![trigger D::edge_corner_mask(e)]
            e < n && bit16(x, e) && bit8(D::edge_corner_mask(e), c),
    decreases n,
{
    if n == 0 {
        lemma_bit8_zero(c);
    } else {
        let e = (n - 1) as u16;
        lemma_corners_of_edges::<D>(x, (n - 1) as nat, c);
        if bit16(x, e) {
            lemma_bit8_or(corners_of_edges::<D>(x, (n - 1) as nat), D::edge_corner_mask(e), c);
        }
        if bit8(corners_of_edges::<D>(x, n), c) {
            if bit16(x, e) && bit8(D::edge_corner_mask(e), c) {
                assert(e < n && bit16(x, e) && bit8(D::edge_corner_mask(e), c));
            }
        } else {
            assert forall|f: u16| f < n && bit16(x, f) implies !bit8(D::edge_corner_mask(f), c) by {
                if f != e {
                    assert(f < n - 1);
                }
            }
        }
    }
}

impl<D: CellTopology> ToCorners<D> for Edges<D> {
    open spec fn to_corners_defined(&self) -> bool {
        forall|e: u16| e < D::edge_slots() && bit16(self.0, e) ==> e < D::edge_count()
    }

    open spec fn spec_to_corners(&self) -> u8 {
        corners_of_edges::<D>(self.0, D::edge_slots() as nat)
    }

    /// The union of the corners of the edges in the set.
    fn to_corners(&self) -> (r: Corners<D>) {
        proof {
            D::lemma_slots();
        }
        let n = D::edge_slot_count();
        let mut acc: u8 = 0;
        let mut e: u16 = 0;
        while e < n
            invariant
                e <= n,
                n == D::edge_slots(),
                n <= 16,
                self.to_corners_defined(),
                acc == corners_of_edges::<D>(self.0, e as nat),
            decreases n - e,
        {
            proof {
                lemma_bit16_shift_step(self.0, e);
            }
            if (self.0 >> e) & 1 == 1 {
                acc = acc | D::edge_corners(e);
            }
            e += 1;
        }
        Corners::new(acc)
    }
}

/// Types that name a set of edges of a cell.
pub trait ToEdges<D> {
    /// Whether `to_edges` is defined on this value.
    spec fn to_edges_defined(&self) -> bool;

    /// The edge mask that `to_edges` returns.
    spec fn spec_to_edges(&self) -> u16;

    fn to_edges(&self) -> (r: Edges<D>)
        requires
            self.to_edges_defined(),
        ensures
            r.0 == self.spec_to_edges(),
    ;
}

impl<D> core::ops::BitAnd<Edge<D>> for Edges<D> {
    type Output = Edges<D>;

    fn bitand(self, rhs: Edge<D>) -> (r: Edges<D>) {
        Edges(self.0 & rhs.0.get(), PhantomData)
    }
}

impl<D> BitAndSpecImpl<Edge<D>> for Edges<D> {
    open spec fn obeys_bitand_spec() -> bool {
        true
    }

    open spec fn bitand_req(self, rhs: Edge<D>) -> bool {
        true
    }

    open spec fn bitand_spec(self, rhs: Edge<D>) -> Edges<D> {
        Edges(self.0 & rhs@, PhantomData)
    }
}

impl<D> core::ops::BitAnd<Edges<D>> for Edges<D> {
    type Output = Edges<D>;

    fn bitand(self, rhs: Edges<D>) -> (r: Edges<D>) {
        Edges(self.0 & rhs.0, PhantomData)
    }
}

impl<D> BitAndSpecImpl<Edges<D>> for Edges<D> {
    open spec fn obeys_bitand_spec() -> bool {
        true
    }

    open spec fn bitand_req(self, rhs: Edges<D>) -> bool {
        true
    }

    open spec fn bitand_spec(self, rhs: Edges<D>) -> Edges<D> {
        Edges(self.0 & rhs.0, PhantomData)
    }
}

impl<D> core::ops::BitOr<Edge<D>> for Edges<D> {
    type Output = Edges<D>;

    fn bitor(self, rhs: Edge<D>) -> (r: Edges<D>) {
        Edges(self.0 | rhs.0.get(), PhantomData)
    }
}

impl<D> BitOrSpecImpl<Edge<D>> for Edges<D> {
    open spec fn obeys_bitor_spec() -> bool {
        true
    }

    open spec fn bitor_req(self, rhs: Edge<D>) -> bool {
        true
    }

    open spec fn bitor_spec(self, rhs: Edge<D>) -> Edges<D> {
        Edges(self.0 | rhs@, PhantomData)
    }
}

impl<D> core::ops::BitOr<Edges<D>> for Edges<D> {
    type Output = Edges<D>;

    fn bitor(self, rhs: Edges<D>) -> (r: Edges<D>) {
        Edges(self.0 | rhs.0, PhantomData)
    }
}

impl<D> BitOrSpecImpl<Edges<D>> for Edges<D> {
    open spec fn obeys_bitor_spec() -> bool {
        true
    }

    open spec fn bitor_req(self, rhs: Edges<D>) -> bool {
        true
    }

    open spec fn bitor_spec(self, rhs: Edges<D>) -> Edges<D> {
        Edges(self.0 | rhs.0, PhantomData)
    }
}

impl<D> core::ops::BitXor<Edge<D>> for Edges<D> {
    type Output = Edges<D>;

    fn bitxor(self, rhs: Edge<D>) -> (r: Edges<D>) {
        Edges(self.0 ^ rhs.0.get(), PhantomData)
    }
}

impl<D> BitXorSpecImpl<Edge<D>> for Edges<D> {
    open spec fn obeys_bitxor_spec() -> bool {
        true
    }

    open spec fn bitxor_req(self, rhs: Edge<D>) -> bool {
        true
    }

    open spec fn bitxor_spec(self, rhs: Edge<D>) -> Edges<D> {
        Edges(self.0 ^ rhs@, PhantomData)
    }
}

impl<D> core::ops::BitXor<Edges<D>> for Edges<D> {
    type Output = Edges<D>;

    fn bitxor(self, rhs: Edges<D>) -> (r: Edges<D>) {
        Edges(self.0 ^ rhs.0, PhantomData)
    }
}

impl<D> BitXorSpecImpl<Edges<D>> for Edges<D> {
    open spec fn obeys_bitxor_spec() -> bool {
        true
    }

    open spec fn bitxor_req(self, rhs: Edges<D>) -> bool {
        true
    }

    open spec fn bitxor_spec(self, rhs: Edges<D>) -> Edges<D> {
        Edges(self.0 ^ rhs.0, PhantomData)
    }
}

impl<D> core::ops::Not for Edges<D> {
    type Output = Edges<D>;

    fn not(self) -> (r: Edges<D>) {
        Edges(!self.0, PhantomData)
    }
}

impl<D> NotSpecImpl for Edges<D> {
    open spec fn obeys_not_spec() -> bool {
        true
    }

    open spec fn not_req(self) -> bool {
        true
    }

    open spec fn not_spec(self) -> Edges<D> {
        Edges(!self.0, PhantomData)
    }
}

} // verus!
