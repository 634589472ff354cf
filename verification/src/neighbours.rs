//! Whether two cells that share a face agree along it.
use vstd::prelude::*;
use crate::bits::{bit8, set_bits8, lemma_bit8_test, lemma_bit8_not};
use crate::cell_topology::{d2_face_corner_mask, d3_face_corner_mask};
use crate::vector_space::{D2, D3};
use crate::cell_topology::CellTopology;
use crate::marching_cells::{Corners, Face, ToCorners};

verus! {

/// Cells that can be tested for agreement with a neighbour across a face.
pub trait Neighbours<D> {
    /// Whether `neighbours` is defined for this side.
    spec fn neighbours_defined(&self, side: &Face<D>) -> bool;

    /// What `neighbours` returns.
    spec fn spec_neighbours(&self, rhs: &Self, side: &Face<D>) -> bool;

    fn neighbours(&self, rhs: &Self, side: &Face<D>) -> (r: bool)
        requires
            self.neighbours_defined(side),
        ensures
            r == self.spec_neighbours(rhs, side),
    ;
}

/// The corners of face `side` of `D`, lowest first, paired in order with the corners off it:
/// every pair agrees on whether `lhs` holds the first and `rhs` the second.
pub open spec fn corners_agree<D: CellTopology>(lhs: u8, rhs: u8, face_corners: u8) -> bool {
    let on = set_bits8(face_corners, D::corner_slots() as nat);
    let off = set_bits8(!face_corners, D::corner_slots() as nat);
    forall|k: int|
        0 <= k < on.len() && k < off.len() ==> bit8(lhs, #[trigger] on[k]) == bit8(rhs, off[k])
}

impl<D: CellTopology> Neighbours<D> for Corners<D> {
    open spec fn neighbours_defined(&self, side: &Face<D>) -> bool {
        side.to_corners_defined()
    }

    open spec fn spec_neighbours(&self, rhs: &Self, side: &Face<D>) -> bool {
        corners_agree::<D>(self.0, rhs.0, side.spec_to_corners())
    }

    /// Whether the corners of this cell on `side` match the facing corners of `rhs`.
    fn neighbours(&self, rhs: &Self, side: &Face<D>) -> (r: bool) {
        let corners = side.to_corners();
        let on = corners.corners();
        let off = Corners::<D>::new(!corners.0).corners();
        let ghost son = set_bits8(corners.0, D::corner_slots() as nat);
        let ghost soff = set_bits8(!corners.0, D::corner_slots() as nat);
        let len = if on.len() < off.len() {
            on.len()
        } else {
            off.len()
        };
        let mut acc = true;
        let mut k: usize = 0;
        proof {
            D::lemma_slots();
            assert forall|j: int| 0 <= j < son.len() implies son[j] < 8 by {
                lemma_set_bits8_below(corners.0, D::corner_slots() as nat, j);
            }
            assert forall|j: int| 0 <= j < soff.len() implies soff[j] < 8 by {
                lemma_set_bits8_below(!corners.0, D::corner_slots() as nat, j);
            }
        }
        while k < len
            invariant
                k <= len,
                len <= on@.len(),
                len <= off@.len(),
                len == on@.len() || len == off@.len(),
                on@.len() == son.len(),
                off@.len() == soff.len(),
                forall|j: int| 0 <= j < on@.len() ==> #[trigger] on@[j]@ == 1u8 << son[j],
                forall|j: int| 0 <= j < off@.len() ==> #[trigger] off@[j]@ == 1u8 << soff[j],
                forall|j: int| 0 <= j < son.len() ==> son[j] < 8,
                forall|j: int| 0 <= j < soff.len() ==> soff[j] < 8,
                acc == forall|j: int| 0 <= j < k ==> bit8(self.0, #[trigger] son[j]) == bit8(rhs.0, soff[j]),
            decreases len - k,
        {
            let from = on[k].0.get();
            let to = off[k].0.get();
            proof {
                assert(on@[k as int]@ == 1u8 << son[k as int]);
                assert(off@[k as int]@ == 1u8 << soff[k as int]);
                lemma_bit8_test(self.0, son[k as int]);
                lemma_bit8_test(rhs.0, soff[k as int]);
            }
            let same = ((self.0 & from) == 0) == ((rhs.0 & to) == 0);
            let ghost old_acc = acc;
            acc = acc && same;
            proof {
                if acc {
                    assert forall|j: int| 0 <= j < k + 1 implies bit8(self.0, #[trigger] son[j])
                        == bit8(rhs.0, soff[j]) by {
                        if j < k {
                            assert(old_acc);
                        }
                    }
                }
            }
            k += 1;
        }
        acc
    }
}

/// Every index listed by `set_bits8` is below the bound it was read to.
pub proof fn lemma_set_bits8_below(x: u8, n: nat, j: int)
    requires
        0 <= j < set_bits8(x, n).len(),
    ensures
        set_bits8(x, n)[j] < n,
        bit8(x, set_bits8(x, n)[j]),
    decreases n,
{
    if n > 0 {
        let prev = set_bits8(x, (n - 1) as nat);
        if j < prev.len() {
            lemma_set_bits8_below(x, (n - 1) as nat, j);
        }
    }
}

/// Faces with corner masks `f` and `g` are opposite: each corner of the cell lies on
/// exactly one of them.
pub open spec fn faces_opposite<D: CellTopology>(f: u8, g: u8) -> bool {
    forall|i: u8| i < D::corner_slots() ==> #[trigger] bit8(g, i) != bit8(f, i)
}

/// Two masks with the same bits below `n` list the same set bits below `n`.
proof fn lemma_set_bits8_same(x: u8, y: u8, n: nat)
    requires
        n <= 8,
        forall|i: u8| i < n ==> #[trigger] bit8(x, i) == bit8(y, i),
    ensures
        set_bits8(x, n) == set_bits8(y, n),
    decreases n,
{
    if n > 0 {
        lemma_set_bits8_same(x, y, (n - 1) as nat);
        assert(bit8(x, (n - 1) as u8) == bit8(y, (n - 1) as u8));
    }
}

/// Whether two cells agree across a face does not depend on which one it is looked at from:
/// `a` meets `b` across face `f` exactly when `b` meets `a` across the opposite face `g`.
pub proof fn lemma_corners_neighbours_opposite<D: CellTopology>(
    a: Corners<D>,
    b: Corners<D>,
    f: Face<D>,
    g: Face<D>,
)
    requires
        faces_opposite::<D>(f.spec_to_corners(), g.spec_to_corners()),
    ensures
        a.spec_neighbours(&b, &f) == b.spec_neighbours(&a, &g),
{
    D::lemma_slots();
    let (fm, gm) = (f.spec_to_corners(), g.spec_to_corners());
    let n = D::corner_slots() as nat;
    assert forall|i: u8| i < n implies #[trigger] bit8(gm, i) == bit8(!fm, i) by {
        lemma_bit8_not(fm, i);
    }
    lemma_set_bits8_same(gm, !fm, n);
    assert forall|i: u8| i < n implies #[trigger] bit8(!gm, i) == bit8(fm, i) by {
        lemma_bit8_not(gm, i);
    }
    lemma_set_bits8_same(!gm, fm, n);
}

/// The opposite faces of a square (left and right, up and down) and of a cube (left and
/// right, up and down, front and back).
pub proof fn lemma_opposite_faces()
    ensures
        faces_opposite::<D2>(d2_face_corner_mask(0), d2_face_corner_mask(1)),
        faces_opposite::<D2>(d2_face_corner_mask(2), d2_face_corner_mask(3)),
        faces_opposite::<D3>(d3_face_corner_mask(0), d3_face_corner_mask(1)),
        faces_opposite::<D3>(d3_face_corner_mask(2), d3_face_corner_mask(3)),
        faces_opposite::<D3>(d3_face_corner_mask(4), d3_face_corner_mask(5)),
{
    assert(forall|i: u8| i < 4 ==> #[trigger] bit8(0xA, i) != bit8(0x5, i)) by (bit_vector);
    assert(forall|i: u8| i < 4 ==> #[trigger] bit8(0x3, i) != bit8(0xC, i)) by (bit_vector);
    assert(forall|i: u8| i < 8 ==> #[trigger] bit8(0xAA, i) != bit8(0x55, i)) by (bit_vector);
    assert(forall|i: u8| i < 8 ==> #[trigger] bit8(0x33, i) != bit8(0xCC, i)) by (bit_vector);
    assert(forall|i: u8| i < 8 ==> #[trigger] bit8(0x0F, i) != bit8(0xF0, i)) by (bit_vector);
}

} // verus!
