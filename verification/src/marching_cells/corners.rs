use core::marker::PhantomData;
use vstd::prelude::*;
use vstd::arithmetic::power2::{pow2, lemma2_to64, lemma_pow2_strictly_increases};
use vstd::std_specs::ops::{BitAndSpecImpl, BitOrSpecImpl, BitXorSpecImpl, NotSpecImpl};
use crate::bits::{bit8, bit16, set_bits8, lemma_bit8_shift_step, lemma_u8_one_shl, lemma_bit16_or,
    lemma_bit16_zero, lemma_bit8_or, lemma_bit8_single, lemma_bit8_zero};
use crate::cell_topology::CellTopology;
use crate::vector_space::{VectorDimension, D2, D3};
use super::corner::{Corner, corner_limit};
use super::edges::{Edges, ToEdges};
use super::All;

verus! {

/// A set of corners of a cell, as a bit mask.
#[derive(Debug, PartialEq, Eq, PartialOrd, Ord, Hash)]
pub struct Corners<D>(pub u8, pub PhantomData<D>);

impl<D> Clone for Corners<D> {
    fn clone(&self) -> (r: Self)
        ensures
            r == *self,
    {
        Corners(self.0, PhantomData)
    }
}

impl<D> Copy for Corners<D> {

}

impl<D> Corners<D> {
    /// The empty set of corners.
    #[allow(non_snake_case)]
    pub fn EMPTY() -> (r: Self)
        ensures
            r.0 == 0,
    {
        Corners(0, PhantomData)
    }

    /// The set of corners with bit mask `corners`.
    pub fn new(corners: u8) -> (r: Self)
        ensures
            r.0 == corners,
    {
        Corners(corners, PhantomData)
    }

    /// Whether no corner is set.
    pub fn is_empty(&self) -> (r: bool)
        ensures
            r == (self.0 == 0),
    {
        self.0 == Self::EMPTY().0
    }

    /// The corners whose samples lie inside the surface: corner `i` is set when `inside[i]`.
    pub fn from_inside(inside: &Vec<bool>) -> (r: Self)
        requires
            inside@.len() <= 8,
        ensures
            forall|i: u8| i < 8 ==> bit8(r.0, i) == (i < inside@.len() && inside@[i as int]),
    {
        let mut m: u8 = 0;
        let mut i: usize = 0;
        proof {
            assert forall|j: u8| j < 8 implies !bit8(0u8, j) by {
                lemma_bit8_zero(j);
            }
        }
        while i < inside.len()
            invariant
                i <= inside@.len() <= 8,
                forall|j: u8| j < 8 ==> bit8(m, j) == (j < i && inside@[j as int]),
            decreases inside@.len() - i,
        {
            let ghost old_m = m;
            let k = i as u8;
            if inside[i] {
                m = m | (1u8 << k);
                proof {
                    assert forall|j: u8| j < 8 implies bit8(m, j) == (j < i + 1 && inside@[j as int]) by {
                        lemma_bit8_or(old_m, 1u8 << k, j);
                        lemma_bit8_single(k, j);
                    }
                }
            }
            i += 1;
        }
        Corners(m, PhantomData)
    }
}

/// The union of the edges of the corners set in `x` among the first `n`.
pub open spec fn edges_of_corners<D: CellTopology>(x: u8, n: nat) -> u16
    decreases n,
{
    if n == 0 {
        0u16
    } else if bit8(x, (n - 1) as u8) {
        edges_of_corners::<D>(x, (n - 1) as nat) | D::corner_edge_mask((n - 1) as u8)
    } else {
        edges_of_corners::<D>(x, (n - 1) as nat)
    }
}

/// An edge is among the edges of a set of corners exactly when it meets one of them.
pub proof fn lemma_edges_of_corners<D: CellTopology>(x: u8, n: nat, e: u16)
    requires
        n <= 8,
        e < 16,
    ensures
        bit16(edges_of_corners::<D>(x, n), e) <==> exists|i: u8|
            #![trigger D::corner_edge_mask(i)]
            i < n && bit8(x, i) && bit16(D::corner_edge_mask(i), e),
    decreases n,
{
    if n == 0 {
        lemma_bit16_zero(e);
    } else {
        let i = (n - 1) as u8;
        lemma_edges_of_corners::<D>(x, (n - 1) as nat, e);
        if bit8(x, i) {
            lemma_bit16_or(edges_of_corners::<D>(x, (n - 1) as nat), D::corner_edge_mask(i), e);
        }
        if bit16(edges_of_corners::<D>(x, n), e) {
            if bit8(x, i) && bit16(D::corner_edge_mask(i), e) {
                assert(i < n && bit8(x, i) && bit16(D::corner_edge_mask(i), e));
            }
        } else {
            assert forall|j: u8| j < n && bit8(x, j) implies !bit16(D::corner_edge_mask(j), e) by {
                if j == i {
                } else {
                    assert(j < n - 1);
                }
            }
        }
    }
}

impl<D: CellTopology> Corners<D> {
    /// The corners in the set, lowest bit first, over the corner slots of `D`.
    pub fn corners(&self) -> (r: Vec<Corner<D>>)
        ensures
            r@.len() == set_bits8(self.0, D::corner_slots() as nat).len(),
            forall|k: int|
                0 <= k < r@.len() ==> #[trigger] r@[k]@ == 1u8 << set_bits8(
                    self.0,
                    D::corner_slots() as nat,
                )[k],
    {
        proof {
            D::lemma_slots();
        }
        let n = D::corner_slot_count();
        let mut cand = self.0;
        let mut out: Vec<Corner<D>> = Vec::new();
        let mut i: u8 = 0;
        proof {
            lemma_bit8_shift_step(self.0, 0);
        }
        while i < n
            invariant
                i <= n,
                n == D::corner_slots(),
                0 < n <= 8,
                D::DIMENSION <= 3,
                n as nat == pow2(D::DIMENSION as nat),
                cand == self.0 >> i,
                out@.len() == set_bits8(self.0, i as nat).len(),
                forall|k: int|
                    0 <= k < out@.len() ==> #[trigger] out@[k]@ == 1u8 << set_bits8(self.0, i as nat)[k],
            decreases n - i,
        {
            proof {
                lemma_bit8_shift_step(self.0, i);
            }
            let v = cand & 1;
            cand = cand >> 1;
            if v > 0 {
                proof {
                    lemma_u8_one_shl(i);
                    lemma2_to64();
                    assert(v == 1);
                    assert(pow2(D::DIMENSION as nat) <= 8);
                    if (i as nat) < (n - 1) as nat {
                        lemma_pow2_strictly_increases(i as nat, (n - 1) as nat);
                    }
                    assert(crate::power2::is_power_of_two((1u8 << i) as int));
                }
                out.push(Corner::new_unchecked(v << i));
            }
            i += 1;
        }
        out
    }
}

impl<D: CellTopology> ToEdges<D> for Corners<D> {
    open spec fn to_edges_defined(&self) -> bool {
        true
    }

    open spec fn spec_to_edges(&self) -> u16 {
        edges_of_corners::<D>(self.0, D::corner_slots() as nat)
    }

    /// The union of the edges of the corners in the set.
    fn to_edges(&self) -> (r: Edges<D>) {
        proof {
            D::lemma_slots();
        }
        let n = D::corner_slot_count();
        let mut acc: u16 = 0;
        let mut i: u8 = 0;
        while i < n
            invariant
                i <= n,
                n == D::corner_slots(),
                n <= 8,
                acc == edges_of_corners::<D>(self.0, i as nat),
            decreases n - i,
        {
            proof {
                lemma_bit8_shift_step(self.0, i);
            }
            if (self.0 >> i) & 1 == 1 {
                acc = acc | D::corner_edges(i);
            }
            i += 1;
        }
        Edges(acc, PhantomData)
    }
}

/// Types that name a set of corners of a cell.
pub trait ToCorners<D> {
    /// Whether `to_corners` is defined on this value.
    spec fn to_corners_defined(&self) -> bool;

    /// The corner mask that `to_corners` returns.
    spec fn spec_to_corners(&self) -> u8;

    fn to_corners(&self) -> (r: Corners<D>)
        requires
            self.to_corners_defined(),
        ensures
            r.0 == self.spec_to_corners(),
    ;
}

impl All for Corners<D2> {
    /// Every corner of the square.
    fn all() -> (r: Self)
        ensures
            r.0 == 0xF,
    {
        Corners(0xF, PhantomData)
    }
}

impl All for Corners<D3> {
    /// Every corner of the cube.
    fn all() -> (r: Self)
        ensures
            r.0 == 0xFF,
    {
        Corners(0xFF, PhantomData)
    }
}

impl<D> core::ops::BitAnd<Corner<D>> for Corners<D> {
    type Output = Corners<D>;

    fn bitand(self, rhs: Corner<D>) -> (r: Corners<D>) {
        Corners(self.0 & rhs.0.get(), PhantomData)
    }
}

impl<D> BitAndSpecImpl<Corner<D>> for Corners<D> {
    open spec fn obeys_bitand_spec() -> bool {
        true
    }

    open spec fn bitand_req(self, rhs: Corner<D>) -> bool {
        true
    }

    open spec fn bitand_spec(self, rhs: Corner<D>) -> Corners<D> {
        Corners(self.0 & rhs@, PhantomData)
    }
}

impl<D> core::ops::BitAnd<Corners<D>> for Corners<D> {
    type Output = Corners<D>;

    fn bitand(self, rhs: Corners<D>) -> (r: Corners<D>) {
        Corners(self.0 & rhs.0, PhantomData)
    }
}

impl<D> BitAndSpecImpl<Corners<D>> for Corners<D> {
    open spec fn obeys_bitand_spec() -> bool {
        true
    }

    open spec fn bitand_req(self, rhs: Corners<D>) -> bool {
        true
    }

    open spec fn bitand_spec(self, rhs: Corners<D>) -> Corners<D> {
        Corners(self.0 & rhs.0, PhantomData)
    }
}

impl<D> core::ops::BitOr<Corner<D>> for Corners<D> {
    type Output = Corners<D>;

    fn bitor(self, rhs: Corner<D>) -> (r: Corners<D>) {
        Corners(self.0 | rhs.0.get(), PhantomData)
    }
}

impl<D> BitOrSpecImpl<Corner<D>> for Corners<D> {
    open spec fn obeys_bitor_spec() -> bool {
        true
    }

    open spec fn bitor_req(self, rhs: Corner<D>) -> bool {
        true
    }

    open spec fn bitor_spec(self, rhs: Corner<D>) -> Corners<D> {
        Corners(self.0 | rhs@, PhantomData)
    }
}

impl<D> core::ops::BitOr<Corners<D>> for Corners<D> {
    type Output = Corners<D>;

    fn bitor(self, rhs: Corners<D>) -> (r: Corners<D>) {
        Corners(self.0 | rhs.0, PhantomData)
    }
}

impl<D> BitOrSpecImpl<Corners<D>> for Corners<D> {
    open spec fn obeys_bitor_spec() -> bool {
        true
    }

    open spec fn bitor_req(self, rhs: Corners<D>) -> bool {
        true
    }

    open spec fn bitor_spec(self, rhs: Corners<D>) -> Corners<D> {
        Corners(self.0 | rhs.0, PhantomData)
    }
}

impl<D> core::ops::BitXor<Corner<D>> for Corners<D> {
    type Output = Corners<D>;

    fn bitxor(self, rhs: Corner<D>) -> (r: Corners<D>) {
        Corners(self.0 ^ rhs.0.get(), PhantomData)
    }
}

impl<D> BitXorSpecImpl<Corner<D>> for Corners<D> {
    open spec fn obeys_bitxor_spec() -> bool {
        true
    }

    open spec fn bitxor_req(self, rhs: Corner<D>) -> bool {
        true
    }

    open spec fn bitxor_spec(self, rhs: Corner<D>) -> Corners<D> {
        Corners(self.0 ^ rhs@, PhantomData)
    }
}

impl<D> core::ops::BitXor<Corners<D>> for Corners<D> {
    type Output = Corners<D>;

    fn bitxor(self, rhs: Corners<D>) -> (r: Corners<D>) {
        Corners(self.0 ^ rhs.0, PhantomData)
    }
}

impl<D> BitXorSpecImpl<Corners<D>> for Corners<D> {
    open spec fn obeys_bitxor_spec() -> bool {
        true
    }

    open spec fn bitxor_req(self, rhs: Corners<D>) -> bool {
        true
    }

    open spec fn bitxor_spec(self, rhs: Corners<D>) -> Corners<D> {
        Corners(self.0 ^ rhs.0, PhantomData)
    }
}

impl<D> core::ops::Not for Corners<D> {
    type Output = Corners<D>;

    fn not(self) -> (r: Corners<D>) {
        Corners(!self.0, PhantomData)
    }
}

impl<D> NotSpecImpl for Corners<D> {
    open spec fn obeys_not_spec() -> bool {
        true
    }

    open spec fn not_req(self) -> bool {
        true
    }

    open spec fn not_spec(self) -> Corners<D> {
        Corners(!self.0, PhantomData)
    }
}

} // verus!
