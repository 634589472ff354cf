//! The dual contour of a subdivision tree: the pairs of its dual graph whose cells both cross
//! the surface and connect across their shared face.
use vstd::prelude::*;
use crate::cell_topology::CellTopology;
use crate::dual_graph::DualPair;
use crate::has_sign_change::HasSignChange;
use crate::marching_cells::{Corners, ToCorners};
use crate::neighbours::Neighbours;
use crate::subdivision_tree::SubdivisionCell;

verus! {

/// Pairs of cells that the surface passes between.
pub struct DualContour<'a, P>(Vec<[&'a SubdivisionCell<P>; 2]>);

/// A pair of cells as plain values.
pub type CellPair<P> = (SubdivisionCell<P>, SubdivisionCell<P>);

/// The cells of a list of pairs, as plain values.
pub open spec fn cell_pairs<'a, P>(s: Seq<[&'a SubdivisionCell<P>; 2]>) -> Seq<CellPair<P>> {
    s.map_values(|p: [&'a SubdivisionCell<P>; 2]| (*p[0], *p[1]))
}

impl<'a, P> View for DualContour<'a, P> {
    type V = Seq<CellPair<P>>;

    closed spec fn view(&self) -> Seq<CellPair<P>> {
        cell_pairs(self.0@)
    }
}

impl<'a, P> DualContour<'a, P> {
    /// The pairs, in order.
    pub fn into_vec(self) -> (r: Vec<[&'a SubdivisionCell<P>; 2]>)
        ensures
            cell_pairs(r@) == self@,
    {
        self.0
    }

    /// The number of pairs.
    pub fn len(&self) -> (r: usize)
        ensures
            r == self@.len(),
    {
        self.0.len()
    }

    /// The pairs, in order.
    pub fn iter(&self) -> (r: Vec<&[&'a SubdivisionCell<P>; 2]>)
        ensures
            r@.len() == self@.len(),
            forall|i: int| 0 <= i < r@.len() ==> (*r@[i][0], *r@[i][1]) == self@[i],
    {
        let mut out: Vec<&[&'a SubdivisionCell<P>; 2]> = Vec::new();
        let mut i: usize = 0;
        while i < self.0.len()
            invariant
                i <= self.0@.len(),
                out@.len() == i,
                self@ == cell_pairs(self.0@),
                forall|j: int| 0 <= j < i ==> (*out@[j][0], *out@[j][1]) == self@[j],
            decreases self.0@.len() - i,
        {
            out.push(&self.0[i]);
            i += 1;
        }
        out
    }

    /// The pairs whose two cells both cross the surface, in order.
    pub fn contours(&self) -> (r: Vec<&[&'a SubdivisionCell<P>; 2]>)
        ensures
            r@.len() == both_contour(self@).len(),
            forall|i: int| 0 <= i < r@.len() ==> (*r@[i][0], *r@[i][1]) == both_contour(self@)[i],
    {
        let ghost s = self@;
        let mut out: Vec<&[&'a SubdivisionCell<P>; 2]> = Vec::new();
        let mut i: usize = 0;
        while i < self.0.len()
            invariant
                i <= self.0@.len(),
                s == cell_pairs(self.0@),
                s.len() == self.0@.len(),
                out@.len() == both_contour(s.subrange(0, i as int)).len(),
                forall|j: int|
                    0 <= j < out@.len() ==> (*out@[j][0], *out@[j][1]) == both_contour(
                        s.subrange(0, i as int),
                    )[j],
            decreases self.0@.len() - i,
        {
            let p = &self.0[i];
            let ghost old_out = out@;
            if p[0].is_contour() && p[1].is_contour() {
                out.push(p);
            }
            proof {
                let prev = s.subrange(0, i as int);
                let next = s.subrange(0, i + 1);
                assert(next.drop_last() =~= prev);
                assert(s[i as int] == (*p[0], *p[1]));
                reveal_with_fuel(Seq::filter, 1);
                assert(both_contour(next) == if is_contour_cells(s[i as int]) {
                    both_contour(prev).push(s[i as int])
                } else {
                    both_contour(prev)
                });
                assert forall|j: int| 0 <= j < out@.len() implies (*out@[j][0], *out@[j][1])
                    == both_contour(next)[j] by {
                    if j < old_out.len() {
                        assert(out@[j] == old_out[j]);
                    }
                }
            }
            i += 1;
        }
        proof {
            assert(s.subrange(0, s.len() as int) =~= s);
        }
        out
    }
}

/// Both cells of the pair cross the surface.
pub open spec fn is_contour_cells<P>(p: CellPair<P>) -> bool {
    p.0.ty == crate::subdivision_tree::CellType::Contour && p.1.ty
        == crate::subdivision_tree::CellType::Contour
}

/// The pairs of `s` whose two cells both cross the surface, in order.
pub open spec fn both_contour<P>(s: Seq<CellPair<P>>) -> Seq<CellPair<P>> {
    s.filter(|p: CellPair<P>| is_contour_cells(p))
}

/// The surface passes between the two cells of a pair: the first changes sign on the shared
/// face, and the two agree along it.
pub open spec fn connects<'a, P, D: CellTopology>(
    pair: DualPair<'a, P, D>,
    corners: (Corners<D>, Corners<D>),
) -> bool {
    corners.0.spec_has_sign_change(&pair.face) && corners.0.spec_neighbours(&corners.1, &pair.face)
}

/// The cells of the first `n` pairs that connect, given the sampled corners of each pair.
pub open spec fn connected_pairs<'a, P, D: CellTopology>(
    pairs: Seq<&DualPair<'a, P, D>>,
    corners: Seq<(Corners<D>, Corners<D>)>,
    n: nat,
) -> Seq<CellPair<P>>
    decreases n,
{
    if n == 0 || n > pairs.len() || n > corners.len() {
        Seq::empty()
    } else {
        let i = n - 1;
        connected_pairs(pairs, corners, (n - 1) as nat) + if connects(*pairs[i], corners[i]) {
            seq![(*pairs[i].lhs, *pairs[i].rhs)]
        } else {
            Seq::empty()
        }
    }
}

/// Of the dual graph's pairs, those through which the surface passes, given the sampled
/// corners of both cells of each pair.
pub fn dual_contour<'a, 'b, P, D: CellTopology>(
    pairs: &Vec<&'b DualPair<'a, P, D>>,
    corners: &Vec<(Corners<D>, Corners<D>)>,
) -> (r: DualContour<'a, P>)
    requires
        pairs@.len() == corners@.len(),
        forall|i: int| 0 <= i < pairs@.len() ==> (#[trigger] pairs@[i]).face.to_corners_defined(),
    ensures
        r@ == connected_pairs(pairs@, corners@, pairs@.len() as nat),
{
    let mut out: Vec<[&'a SubdivisionCell<P>; 2]> = Vec::new();
    let mut i: usize = 0;
    while i < pairs.len()
        invariant
            i <= pairs@.len(),
            pairs@.len() == corners@.len(),
            forall|j: int| 0 <= j < pairs@.len() ==> (#[trigger] pairs@[j]).face.to_corners_defined(),
            cell_pairs(out@) == connected_pairs(pairs@, corners@, i as nat),
        decreases pairs@.len() - i,
    {
        let p = pairs[i];
        let (ca, cb) = corners[i];
        let ghost before = out@;
        assert(pairs@[i as int].face.to_corners_defined());
        if ca.has_sign_change(&p.face) && ca.neighbours(&cb, &p.face) {
            out.push([p.lhs, p.rhs]);
            proof {
                assert(cell_pairs(out@) =~= cell_pairs(before).push((*p.lhs, *p.rhs)));
            }
        }
        proof {
            assert(connects(*pairs@[i as int], corners@[i as int]) == (ca.spec_has_sign_change(
                &p.face,
            ) && ca.spec_neighbours(&cb, &p.face)));
        }
        i += 1;
    }
    DualContour(out)
}

} // verus!
