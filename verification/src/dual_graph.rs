//! The dual graph of a subdivision tree: one pair per shared face between two leaves.
use vstd::prelude::*;
use crate::marching_cells::Face;
use crate::subdivision_tree::SubdivisionCell;
use vstd::arithmetic::power2::{pow2, lemma_pow2_unfold, lemma_pow2_adds};
use crate::tree::{
    Tree, tree_leaves, branches, full_grid, lemma_branches_children, lemma_full_grid_children,
    lemma_leaves_of_child,
};
use crate::vector_space::{D2, D3};

verus! {

/// Two leaves of a subdivision tree that share a face, `lhs` on the side opposite `face`.
pub struct DualPair<'a, P, D> {
    pub face: Face<D>,
    pub lhs: &'a SubdivisionCell<P>,
    pub rhs: &'a SubdivisionCell<P>,
}

impl<'a, P, D> Clone for DualPair<'a, P, D> {
    fn clone(&self) -> (r: Self)
        ensures
            r == *self,
    {
        DualPair { face: self.face, lhs: self.lhs, rhs: self.rhs }
    }
}

impl<'a, P, D> Copy for DualPair<'a, P, D> {

}

/// A dual pair as plain values: the face's bit and the two cells.
pub type PairView<P> = (u8, SubdivisionCell<P>, SubdivisionCell<P>);

impl<'a, P, D> View for DualPair<'a, P, D> {
    type V = PairView<P>;

    open spec fn view(&self) -> PairView<P> {
        (self.face@, *self.lhs, *self.rhs)
    }
}

impl<'a, P, D> DualPair<'a, P, D> {
    /// The two cells of the pair, `lhs` first.
    pub fn iter(&self) -> (r: Vec<&'a SubdivisionCell<P>>)
        ensures
            r@.len() == 2,
            *r@[0] == *self.lhs,
            *r@[1] == *self.rhs,
    {
        let mut v: Vec<&'a SubdivisionCell<P>> = Vec::new();
        v.push(self.lhs);
        v.push(self.rhs);
        v
    }
}

/// A sequence of dual pairs as plain values.
pub open spec fn pairs_view<'a, P, D>(s: Seq<DualPair<'a, P, D>>) -> Seq<PairView<P>> {
    s.map_values(|p: DualPair<'a, P, D>| p@)
}

/// The dual graph of a subdivision tree, as the list of its pairs.
pub struct DualGraph<'a, P, D>(Vec<DualPair<'a, P, D>>);

impl<'a, P, D> View for DualGraph<'a, P, D> {
    type V = Seq<PairView<P>>;

    closed spec fn view(&self) -> Seq<PairView<P>> {
        pairs_view(self.0@)
    }
}

impl<'a, P, D> Default for DualGraph<'a, P, D> {
    fn default() -> (r: Self)
        ensures
            r@ == Seq::<PairView<P>>::empty(),
    {
        let r = DualGraph(Vec::new());
        proof {
            assert(r@ =~= Seq::<PairView<P>>::empty());
        }
        r
    }
}

impl<'a, P, D> DualGraph<'a, P, D> {
    /// The graph with the given pairs, in order.
    pub fn from_vec(pairs: Vec<DualPair<'a, P, D>>) -> (r: Self)
        ensures
            r@ == pairs_view(pairs@),
    {
        DualGraph(pairs)
    }

    /// The pairs of the graph, in order.
    pub fn into_vec(self) -> (r: Vec<DualPair<'a, P, D>>)
        ensures
            pairs_view(r@) == self@,
    {
        self.0
    }

    /// The number of pairs.
    pub fn len(&self) -> (r: usize)
        ensures
            r == self@.len(),
    {
        self.0.len()
    }

    /// The pairs of the graph, in order.
    pub fn iter(&self) -> (r: Vec<&DualPair<'a, P, D>>)
        ensures
            r@.len() == self@.len(),
            forall|i: int| 0 <= i < r@.len() ==> (*r@[i])@ == self@[i],
    {
        let mut out: Vec<&DualPair<'a, P, D>> = Vec::new();
        let mut i: usize = 0;
        while i < self.0.len()
            invariant
                i <= self.0@.len(),
                out@.len() == i,
                self@ == pairs_view(self.0@),
                forall|j: int| 0 <= j < i ==> (*out@[j])@ == self@[j],
            decreases self.0@.len() - i,
        {
            out.push(&self.0[i]);
            i += 1;
        }
        out
    }

    /// The pairs whose two cells both cross the surface, in order.
    pub fn contours(&self) -> (r: Vec<&DualPair<'a, P, D>>)
        ensures
            r@.len() == contour_pairs(self@).len(),
            forall|i: int| 0 <= i < r@.len() ==> (*r@[i])@ == contour_pairs(self@)[i],
    {
        let mut out: Vec<&DualPair<'a, P, D>> = Vec::new();
        let ghost s = self@;
        let mut i: usize = 0;
        while i < self.0.len()
            invariant
                i <= self.0@.len(),
                s == pairs_view(self.0@),
                s.len() == self.0@.len(),
                out@.len() == contour_pairs(s.subrange(0, i as int)).len(),
                forall|j: int|
                    0 <= j < out@.len() ==> (*out@[j])@ == contour_pairs(s.subrange(0, i as int))[j],
            decreases self.0@.len() - i,
        {
            let p = &self.0[i];
            let ghost old_out = out@;
            if p.lhs.is_contour() && p.rhs.is_contour() {
                out.push(p);
            }
            proof {
                let prev = s.subrange(0, i as int);
                let next = s.subrange(0, i + 1);
                assert(next.drop_last() =~= prev);
                assert(s[i as int] == p@);
                reveal_with_fuel(Seq::filter, 1);
                assert(contour_pairs(next) == if is_contour_pair(s[i as int]) {
                    contour_pairs(prev).push(s[i as int])
                } else {
                    contour_pairs(prev)
                });
                assert forall|j: int| 0 <= j < out@.len() implies (*out@[j])@ == contour_pairs(
                    next,
                )[j] by {
                    if j < old_out.len() {
                        assert(out@[j] == old_out[j]);
                    }
                }
            }
            i += 1;
        }
        proof {
            assert(s.subrange(0, s.len() as int) =~= s);
        }
        out
    }
}

/// Both cells of the pair cross the surface.
pub open spec fn is_contour_pair<P>(p: PairView<P>) -> bool {
    p.1.ty == crate::subdivision_tree::CellType::Contour && p.2.ty
        == crate::subdivision_tree::CellType::Contour
}

/// The pairs of `s` whose two cells both cross the surface, in order.
pub open spec fn contour_pairs<P>(s: Seq<PairView<P>>) -> Seq<PairView<P>> {
    s.filter(|p: PairView<P>| is_contour_pair(p))
}

/// Graphs of the pairs of leaves that share a face.
pub trait AsDualGraph<P, D>: Sized {
    /// The trees that the graph is defined for.
    spec fn dual_graph_defined(&self) -> bool;

    /// The pairs of the graph, in order.
    spec fn dual_pairs(&self) -> Seq<PairView<P>>;

    fn as_dual_graph<'a>(&'a self) -> (r: DualGraph<'a, P, D>)
        requires
            self.dual_graph_defined(),
        ensures
            r@ == self.dual_pairs(),
    ;
}

/// The index of the `j`th of the two quadrants on the low side of axis bit `m` of a square.
pub open spec fn low_quadrant(m: int, j: int) -> int {
    if m == 1 {
        2 * j
    } else {
        j
    }
}

/// The pairs of leaves that face each other across the boundary between `l` and `r`,
/// where `r` lies next to `l` along axis bit `m`, each labelled with face `f`.
pub open spec fn boundary_pairs_2d<P>(
    l: Tree<SubdivisionCell<P>, D2>,
    r: Tree<SubdivisionCell<P>, D2>,
    m: int,
    f: u8,
) -> Seq<PairView<P>>
    decreases l, r,
{
    if m != 1 && m != 2 {
        Seq::empty()
    } else {
        match l {
            Tree::Root(lc, _) => if lc@.len() != 4 {
                Seq::empty()
            } else {
                match r {
                    Tree::Root(rc, _) => if rc@.len() != 4 {
                        Seq::empty()
                    } else {
                        boundary_pairs_2d(
                            *lc@[low_quadrant(m, 0) + m],
                            *rc@[low_quadrant(m, 0)],
                            m,
                            f,
                        ) + boundary_pairs_2d(
                            *lc@[low_quadrant(m, 1) + m],
                            *rc@[low_quadrant(m, 1)],
                            m,
                            f,
                        )
                    },
                    Tree::Leaf(_) => boundary_pairs_2d(*lc@[low_quadrant(m, 0) + m], r, m, f)
                        + boundary_pairs_2d(*lc@[low_quadrant(m, 1) + m], r, m, f),
                }
            },
            Tree::Leaf(a) => match r {
                Tree::Root(rc, _) => if rc@.len() != 4 {
                    Seq::empty()
                } else {
                    boundary_pairs_2d(l, *rc@[low_quadrant(m, 0)], m, f) + boundary_pairs_2d(
                        l,
                        *rc@[low_quadrant(m, 1)],
                        m,
                        f,
                    )
                },
                Tree::Leaf(b) => seq![(f, a, b)],
            },
        }
    }
}

/// The dual graph of a quadtree: that of each quadrant, then the pairs across the inner
/// boundaries, right-facing (`R`) before upward-facing (`U`).
pub open spec fn dual_pairs_2d<P>(t: Tree<SubdivisionCell<P>, D2>) -> Seq<PairView<P>>
    decreases t,
{
    match t {
        Tree::Leaf(_) => Seq::empty(),
        Tree::Root(c, _) => if c@.len() != 4 {
            Seq::empty()
        } else {
            dual_pairs_2d(*c@[0]) + dual_pairs_2d(*c@[1]) + dual_pairs_2d(*c@[2]) + dual_pairs_2d(
                *c@[3],
            ) + boundary_pairs_2d(*c@[0], *c@[1], 1, 2) + boundary_pairs_2d(*c@[2], *c@[3], 1, 2)
                + boundary_pairs_2d(*c@[0], *c@[2], 2, 4) + boundary_pairs_2d(*c@[1], *c@[3], 2, 4)
        },
    }
}

/// Concatenating pair lists concatenates their views.
proof fn lemma_pairs_view_add<'a, P, D>(a: Seq<DualPair<'a, P, D>>, b: Seq<DualPair<'a, P, D>>)
    ensures
        pairs_view(a + b) == pairs_view(a) + pairs_view(b),
{
    assert(pairs_view(a + b) =~= pairs_view(a) + pairs_view(b));
}

/// Append `more` to `out`.
fn append_pairs<'a, P, D>(out: &mut Vec<DualPair<'a, P, D>>, more: Vec<DualPair<'a, P, D>>)
    ensures
        pairs_view(final(out)@) == pairs_view(old(out)@) + pairs_view(more@),
{
    let mut more = more;
    let ghost (o0, m0) = (out@, more@);
    out.append(&mut more);
    proof {
        lemma_pairs_view_add(o0, m0);
    }
}

/// The pairs across the boundary between quadtrees `lhs` and `rhs`.
fn boundary_pairs_quad<'a, P>(
    lhs: &'a Tree<SubdivisionCell<P>, D2>,
    rhs: &'a Tree<SubdivisionCell<P>, D2>,
    m: usize,
    face: Face<D2>,
) -> (r: Vec<DualPair<'a, P, D2>>)
    requires
        m == 1 || m == 2,
        branches(*lhs, 4),
        branches(*rhs, 4),
    ensures
        pairs_view(r@) == boundary_pairs_2d(*lhs, *rhs, m as int, face@),
    decreases *lhs, *rhs,
{
    proof {
        lemma_branches_children(*lhs, 4);
        lemma_branches_children(*rhs, 4);
    }
    let lo0: usize = 0;
    let lo1: usize = if m == 1 {
        2
    } else {
        1
    };
    match lhs {
        Tree::Root(lc, _) => {
            proof {
                assert(decreases_to!(*lhs => *lc@[lo0 + m]));
                assert(decreases_to!(*lhs => *lc@[lo1 + m]));
            }
            match rhs {
                Tree::Root(rc, _) => {
                    let mut v = boundary_pairs_quad(&*lc[lo0 + m], &*rc[lo0], m, face);
                    let mut w = boundary_pairs_quad(&*lc[lo1 + m], &*rc[lo1], m, face);
                    let ghost (v0, w0) = (v@, w@);
                    v.append(&mut w);
                    proof {
                        lemma_pairs_view_add(v0, w0);
                    }
                    v
                },
                Tree::Leaf(_) => {
                    let mut v = boundary_pairs_quad(&*lc[lo0 + m], rhs, m, face);
                    let mut w = boundary_pairs_quad(&*lc[lo1 + m], rhs, m, face);
                    let ghost (v0, w0) = (v@, w@);
                    v.append(&mut w);
                    proof {
                        lemma_pairs_view_add(v0, w0);
                    }
                    v
                },
            }
        },
        Tree::Leaf(a) => {
            match rhs {
                Tree::Root(rc, _) => {
                    proof {
                        assert(decreases_to!(*rhs => *rc@[lo0 as int]));
                        assert(decreases_to!(*rhs => *rc@[lo1 as int]));
                    }
                    let mut v = boundary_pairs_quad(lhs, &*rc[lo0], m, face);
                    let mut w = boundary_pairs_quad(lhs, &*rc[lo1], m, face);
                    let ghost (v0, w0) = (v@, w@);
                    v.append(&mut w);
                    proof {
                        lemma_pairs_view_add(v0, w0);
                    }
                    v
                },
                Tree::Leaf(b) => {
                    let mut v: Vec<DualPair<'a, P, D2>> = Vec::new();
                    v.push(DualPair { face, lhs: a, rhs: b });
                    proof {
                        assert(pairs_view(v@) =~= seq![(face@, *a, *b)]);
                    }
                    v
                },
            }
        },
    }
}

/// The pairs of the dual graph of a quadtree.
fn dual_pairs_quad<'a, P>(t: &'a Tree<SubdivisionCell<P>, D2>) -> (r: Vec<DualPair<'a, P, D2>>)
    requires
        branches(*t, 4),
    ensures
        pairs_view(r@) == dual_pairs_2d(*t),
    decreases *t,
{
    proof {
        lemma_branches_children(*t, 4);
    }
    match t {
        Tree::Leaf(_) => {
            let v: Vec<DualPair<'a, P, D2>> = Vec::new();
            proof {
                assert(pairs_view(v@) =~= Seq::empty());
            }
            v
        },
        Tree::Root(c, _) => {
            proof {
                assert(decreases_to!(*t => *c@[0]));
                assert(decreases_to!(*t => *c@[1]));
                assert(decreases_to!(*t => *c@[2]));
                assert(decreases_to!(*t => *c@[3]));
            }
            let (a, b, cc, d) = (&*c[0], &*c[1], &*c[2], &*c[3]);
            let mut out = dual_pairs_quad(a);
            append_pairs(&mut out, dual_pairs_quad(b));
            append_pairs(&mut out, dual_pairs_quad(cc));
            append_pairs(&mut out, dual_pairs_quad(d));
            append_pairs(&mut out, boundary_pairs_quad(a, b, 1, Face::<D2>::R()));
            append_pairs(&mut out, boundary_pairs_quad(cc, d, 1, Face::<D2>::R()));
            append_pairs(&mut out, boundary_pairs_quad(a, cc, 2, Face::<D2>::U()));
            append_pairs(&mut out, boundary_pairs_quad(b, d, 2, Face::<D2>::U()));
            out
        },
    }
}

impl<P> AsDualGraph<P, D2> for Tree<SubdivisionCell<P>, D2> {
    open spec fn dual_graph_defined(&self) -> bool {
        branches(*self, 4)
    }

    open spec fn dual_pairs(&self) -> Seq<PairView<P>> {
        dual_pairs_2d(*self)
    }

    fn as_dual_graph<'a>(&'a self) -> (r: DualGraph<'a, P, D2>) {
        DualGraph::from_vec(dual_pairs_quad(self))
    }
}

/// The index of the `j`th of the four octants on the low side of axis bit `m` of a cube.
pub open spec fn low_octant(m: int, j: int) -> int {
    if m == 1 {
        2 * j
    } else if m == 2 {
        if j < 2 {
            j
        } else {
            j + 2
        }
    } else {
        j
    }
}

/// The pairs of leaves that face each other across the boundary between `l` and `r`,
/// where `r` lies next to `l` along axis bit `m`, each labelled with face `f`.
pub open spec fn boundary_pairs_3d<P>(
    l: Tree<SubdivisionCell<P>, D3>,
    r: Tree<SubdivisionCell<P>, D3>,
    m: int,
    f: u8,
) -> Seq<PairView<P>>
    decreases l, r,
{
    if m != 1 && m != 2 && m != 4 {
        Seq::empty()
    } else {
        match l {
            Tree::Root(lc, _) => if lc@.len() != 8 {
                Seq::empty()
            } else {
                match r {
                    Tree::Root(rc, _) => if rc@.len() != 8 {
                        Seq::empty()
                    } else {
                        boundary_pairs_3d(*lc@[low_octant(m, 0) + m], *rc@[low_octant(m, 0)], m, f) + boundary_pairs_3d(*lc@[low_octant(m, 1) + m], *rc@[low_octant(m, 1)], m, f) + boundary_pairs_3d(*lc@[low_octant(m, 2) + m], *rc@[low_octant(m, 2)], m, f) + boundary_pairs_3d(*lc@[low_octant(m, 3) + m], *rc@[low_octant(m, 3)], m, f)
                    },
                    Tree::Leaf(_) => boundary_pairs_3d(*lc@[low_octant(m, 0) + m], r, m, f) + boundary_pairs_3d(*lc@[low_octant(m, 1) + m], r, m, f) + boundary_pairs_3d(*lc@[low_octant(m, 2) + m], r, m, f) + boundary_pairs_3d(*lc@[low_octant(m, 3) + m], r, m, f),
                }
            },
            Tree::Leaf(a) => match r {
                Tree::Root(rc, _) => if rc@.len() != 8 {
                    Seq::empty()
                } else {
                    boundary_pairs_3d(l, *rc@[low_octant(m, 0)], m, f) + boundary_pairs_3d(l, *rc@[low_octant(m, 1)], m, f) + boundary_pairs_3d(l, *rc@[low_octant(m, 2)], m, f) + boundary_pairs_3d(l, *rc@[low_octant(m, 3)], m, f)
                },
                Tree::Leaf(b) => seq![(f, a, b)],
            },
        }
    }
}

/// The dual graph of an octree: that of each octant, then the pairs across the inner
/// boundaries, right-facing (`R`), then upward-facing (`U`), then front-facing (`F`).
pub open spec fn dual_pairs_3d<P>(t: Tree<SubdivisionCell<P>, D3>) -> Seq<PairView<P>>
    decreases t,
{
    match t {
        Tree::Leaf(_) => Seq::empty(),
        Tree::Root(c, _) => if c@.len() != 8 {
            Seq::empty()
        } else {
            dual_pairs_3d(*c@[0]) + dual_pairs_3d(*c@[1]) + dual_pairs_3d(*c@[2]) + dual_pairs_3d(*c@[3])
                + dual_pairs_3d(*c@[4]) + dual_pairs_3d(*c@[5]) + dual_pairs_3d(*c@[6])
                + dual_pairs_3d(*c@[7])
                + boundary_pairs_3d(*c@[0], *c@[1], 1, 2) + boundary_pairs_3d(*c@[2], *c@[3], 1, 2)
                + boundary_pairs_3d(*c@[4], *c@[5], 1, 2) + boundary_pairs_3d(*c@[6], *c@[7], 1, 2)
                + boundary_pairs_3d(*c@[0], *c@[2], 2, 4) + boundary_pairs_3d(*c@[1], *c@[3], 2, 4)
                + boundary_pairs_3d(*c@[4], *c@[6], 2, 4) + boundary_pairs_3d(*c@[5], *c@[7], 2, 4)
                + boundary_pairs_3d(*c@[0], *c@[4], 4, 16) + boundary_pairs_3d(*c@[1], *c@[5], 4, 16)
                + boundary_pairs_3d(*c@[2], *c@[6], 4, 16) + boundary_pairs_3d(*c@[3], *c@[7], 4, 16)
        },
    }
}

/// The pairs across the boundary between octrees `lhs` and `rhs`.
fn boundary_pairs_oct<'a, P>(
    lhs: &'a Tree<SubdivisionCell<P>, D3>,
    rhs: &'a Tree<SubdivisionCell<P>, D3>,
    m: usize,
    face: Face<D3>,
) -> (r: Vec<DualPair<'a, P, D3>>)
    requires
        m == 1 || m == 2 || m == 4,
        branches(*lhs, 8),
        branches(*rhs, 8),
    ensures
        pairs_view(r@) == boundary_pairs_3d(*lhs, *rhs, m as int, face@),
    decreases *lhs, *rhs,
{
    proof {
        lemma_branches_children(*lhs, 8);
        lemma_branches_children(*rhs, 8);
    }
    let lo: [usize; 4] = if m == 1 {
        [0, 2, 4, 6]
    } else if m == 2 {
        [0, 1, 4, 5]
    } else {
        [0, 1, 2, 3]
    };
    assert(forall|j: int| 0 <= j < 4 ==> lo@[j] == low_octant(m as int, j));
    match lhs {
        Tree::Root(lc, _) => {
            proof {
                assert(forall|j: int| 0 <= j < 4 ==> decreases_to!(*lhs => *lc@[#[trigger] lo@[j] + m]));
            }
            match rhs {
                Tree::Root(rc, _) => {
                    let mut v = boundary_pairs_oct(&*lc[lo[0] + m], &*rc[lo[0]], m, face);
                    append_pairs(&mut v, boundary_pairs_oct(&*lc[lo[1] + m], &*rc[lo[1]], m, face));
                    append_pairs(&mut v, boundary_pairs_oct(&*lc[lo[2] + m], &*rc[lo[2]], m, face));
                    append_pairs(&mut v, boundary_pairs_oct(&*lc[lo[3] + m], &*rc[lo[3]], m, face));
                    v
                },
                Tree::Leaf(_) => {
                    let mut v = boundary_pairs_oct(&*lc[lo[0] + m], rhs, m, face);
                    append_pairs(&mut v, boundary_pairs_oct(&*lc[lo[1] + m], rhs, m, face));
                    append_pairs(&mut v, boundary_pairs_oct(&*lc[lo[2] + m], rhs, m, face));
                    append_pairs(&mut v, boundary_pairs_oct(&*lc[lo[3] + m], rhs, m, face));
                    v
                },
            }
        },
        Tree::Leaf(a) => {
            match rhs {
                Tree::Root(rc, _) => {
                    proof {
                        assert(forall|j: int| 0 <= j < 4 ==> decreases_to!(*rhs => *rc@[#[trigger] lo@[j] as int]));
                    }
                    let mut v = boundary_pairs_oct(lhs, &*rc[lo[0]], m, face);
                    append_pairs(&mut v, boundary_pairs_oct(lhs, &*rc[lo[1]], m, face));
                    append_pairs(&mut v, boundary_pairs_oct(lhs, &*rc[lo[2]], m, face));
                    append_pairs(&mut v, boundary_pairs_oct(lhs, &*rc[lo[3]], m, face));
                    v
                },
                Tree::Leaf(b) => {
                    let mut v: Vec<DualPair<'a, P, D3>> = Vec::new();
                    v.push(DualPair { face, lhs: a, rhs: b });
                    proof {
                        assert(pairs_view(v@) =~= seq![(face@, *a, *b)]);
                    }
                    v
                },
            }
        },
    }
}

/// The pairs of the dual graph of an octree.
fn dual_pairs_oct<'a, P>(t: &'a Tree<SubdivisionCell<P>, D3>) -> (r: Vec<DualPair<'a, P, D3>>)
    requires
        branches(*t, 8),
    ensures
        pairs_view(r@) == dual_pairs_3d(*t),
    decreases *t,
{
    proof {
        lemma_branches_children(*t, 8);
    }
    match t {
        Tree::Leaf(_) => {
            let v: Vec<DualPair<'a, P, D3>> = Vec::new();
            proof {
                assert(pairs_view(v@) =~= Seq::empty());
            }
            v
        },
        Tree::Root(c, _) => {
            proof {
                assert(forall|j: int| 0 <= j < 8 ==> decreases_to!(*t => *c@[j]));
            }
            let (a, b, cc, d) = (&*c[0], &*c[1], &*c[2], &*c[3]);
            let (e, f, g, h) = (&*c[4], &*c[5], &*c[6], &*c[7]);
            let mut out = dual_pairs_oct(a);
            append_pairs(&mut out, dual_pairs_oct(b));
            append_pairs(&mut out, dual_pairs_oct(cc));
            append_pairs(&mut out, dual_pairs_oct(d));
            append_pairs(&mut out, dual_pairs_oct(e));
            append_pairs(&mut out, dual_pairs_oct(f));
            append_pairs(&mut out, dual_pairs_oct(g));
            append_pairs(&mut out, dual_pairs_oct(h));
            append_pairs(&mut out, boundary_pairs_oct(a, b, 1, Face::<D3>::R()));
            append_pairs(&mut out, boundary_pairs_oct(cc, d, 1, Face::<D3>::R()));
            append_pairs(&mut out, boundary_pairs_oct(e, f, 1, Face::<D3>::R()));
            append_pairs(&mut out, boundary_pairs_oct(g, h, 1, Face::<D3>::R()));
            append_pairs(&mut out, boundary_pairs_oct(a, cc, 2, Face::<D3>::U()));
            append_pairs(&mut out, boundary_pairs_oct(b, d, 2, Face::<D3>::U()));
            append_pairs(&mut out, boundary_pairs_oct(e, g, 2, Face::<D3>::U()));
            append_pairs(&mut out, boundary_pairs_oct(f, h, 2, Face::<D3>::U()));
            append_pairs(&mut out, boundary_pairs_oct(a, e, 4, Face::<D3>::F()));
            append_pairs(&mut out, boundary_pairs_oct(b, f, 4, Face::<D3>::F()));
            append_pairs(&mut out, boundary_pairs_oct(cc, g, 4, Face::<D3>::F()));
            append_pairs(&mut out, boundary_pairs_oct(d, h, 4, Face::<D3>::F()));
            out
        },
    }
}

impl<P> AsDualGraph<P, D3> for Tree<SubdivisionCell<P>, D3> {
    open spec fn dual_graph_defined(&self) -> bool {
        branches(*self, 8)
    }

    open spec fn dual_pairs(&self) -> Seq<PairView<P>> {
        dual_pairs_3d(*self)
    }

    fn as_dual_graph<'a>(&'a self) -> (r: DualGraph<'a, P, D3>) {
        DualGraph::from_vec(dual_pairs_oct(self))
    }
}

/// Every pair of `s` has face `f`, its first cell a leaf of `l` and its second a leaf of `r`.
pub open spec fn pairs_between<P, D>(
    s: Seq<PairView<P>>,
    l: Tree<SubdivisionCell<P>, D>,
    r: Tree<SubdivisionCell<P>, D>,
    f: u8,
) -> bool {
    forall|i: int|
        0 <= i < s.len() ==> (#[trigger] s[i]).0 == f && tree_leaves(l).contains(s[i].1)
            && tree_leaves(r).contains(s[i].2)
}

/// Every pair of `s` joins two leaves of `t` across a face that `ok` admits.
pub open spec fn pairs_within<P, D>(
    s: Seq<PairView<P>>,
    t: Tree<SubdivisionCell<P>, D>,
    ok: spec_fn(u8) -> bool,
) -> bool {
    forall|i: int|
        0 <= i < s.len() ==> ok((#[trigger] s[i]).0) && tree_leaves(t).contains(s[i].1)
            && tree_leaves(t).contains(s[i].2)
}

/// Pairs between two subtrees stay so when two lists of them are joined.
proof fn lemma_between_add<P, D>(
    a: Seq<PairView<P>>,
    b: Seq<PairView<P>>,
    l: Tree<SubdivisionCell<P>, D>,
    r: Tree<SubdivisionCell<P>, D>,
    f: u8,
)
    requires
        pairs_between(a, l, r, f),
        pairs_between(b, l, r, f),
    ensures
        pairs_between(a + b, l, r, f),
{
    assert forall|i: int| 0 <= i < (a + b).len() implies #[trigger] (a + b)[i] == if i < a.len() {
        a[i]
    } else {
        b[i - a.len()]
    } by {}
}

/// Pairs within a tree stay so when two lists of them are joined.
proof fn lemma_within_add<P, D>(
    a: Seq<PairView<P>>,
    b: Seq<PairView<P>>,
    t: Tree<SubdivisionCell<P>, D>,
    ok: spec_fn(u8) -> bool,
)
    requires
        pairs_within(a, t, ok),
        pairs_within(b, t, ok),
    ensures
        pairs_within(a + b, t, ok),
{
    assert forall|i: int| 0 <= i < (a + b).len() implies #[trigger] (a + b)[i] == if i < a.len() {
        a[i]
    } else {
        b[i - a.len()]
    } by {}
}

/// Pairs between leaves of two subtrees lie within the root, across face `f`.
proof fn lemma_between_within<P, D>(
    s: Seq<PairView<P>>,
    t: Tree<SubdivisionCell<P>, D>,
    i: int,
    j: int,
    f: u8,
    ok: spec_fn(u8) -> bool,
)
    requires
        t is Root,
        0 <= i < t->Root_0@.len(),
        0 <= j < t->Root_0@.len(),
        pairs_between(s, *t->Root_0@[i], *t->Root_0@[j], f),
        ok(f),
    ensures
        pairs_within(s, t, ok),
{
    lemma_leaves_of_child(t, i);
    lemma_leaves_of_child(t, j);
}

/// Pairs within a subtree lie within the root.
proof fn lemma_within_child<P, D>(
    s: Seq<PairView<P>>,
    t: Tree<SubdivisionCell<P>, D>,
    i: int,
    ok: spec_fn(u8) -> bool,
)
    requires
        t is Root,
        0 <= i < t->Root_0@.len(),
        pairs_within(s, *t->Root_0@[i], ok),
    ensures
        pairs_within(s, t, ok),
{
    lemma_leaves_of_child(t, i);
}

/// Each pair across the boundary between two quadtrees has the boundary's face, its first
/// cell a leaf of the first tree and its second a leaf of the second.
pub proof fn lemma_boundary_pairs_2d_sides<P>(
    l: Tree<SubdivisionCell<P>, D2>,
    r: Tree<SubdivisionCell<P>, D2>,
    m: int,
    f: u8,
)
    ensures
        pairs_between(boundary_pairs_2d(l, r, m, f), l, r, f),
    decreases l, r,
{
    let s = boundary_pairs_2d(l, r, m, f);
    if m == 1 || m == 2 {
        let (i0, i1) = (low_quadrant(m, 0), low_quadrant(m, 1));
        match l {
            Tree::Root(lc, _) => if lc@.len() == 4 {
                match r {
                    Tree::Root(rc, _) => if rc@.len() == 4 {
                        let (a, b) = (*lc@[i0 + m], *lc@[i1 + m]);
                        let (c, d) = (*rc@[i0], *rc@[i1]);
                        lemma_boundary_pairs_2d_sides(a, c, m, f);
                        lemma_boundary_pairs_2d_sides(b, d, m, f);
                        lemma_leaves_of_child(l, i0 + m);
                        lemma_leaves_of_child(l, i1 + m);
                        lemma_leaves_of_child(r, i0);
                        lemma_leaves_of_child(r, i1);
                        lemma_between_add(
                            boundary_pairs_2d(a, c, m, f),
                            boundary_pairs_2d(b, d, m, f),
                            l,
                            r,
                            f,
                        );
                    },
                    Tree::Leaf(_) => {
                        let (a, b) = (*lc@[i0 + m], *lc@[i1 + m]);
                        lemma_boundary_pairs_2d_sides(a, r, m, f);
                        lemma_boundary_pairs_2d_sides(b, r, m, f);
                        lemma_leaves_of_child(l, i0 + m);
                        lemma_leaves_of_child(l, i1 + m);
                        lemma_between_add(
                            boundary_pairs_2d(a, r, m, f),
                            boundary_pairs_2d(b, r, m, f),
                            l,
                            r,
                            f,
                        );
                    },
                }
            },
            Tree::Leaf(_) => match r {
                Tree::Root(rc, _) => if rc@.len() == 4 {
                    let (c, d) = (*rc@[i0], *rc@[i1]);
                    lemma_boundary_pairs_2d_sides(l, c, m, f);
                    lemma_boundary_pairs_2d_sides(l, d, m, f);
                    lemma_leaves_of_child(r, i0);
                    lemma_leaves_of_child(r, i1);
                    lemma_between_add(
                        boundary_pairs_2d(l, c, m, f),
                        boundary_pairs_2d(l, d, m, f),
                        l,
                        r,
                        f,
                    );
                },
                Tree::Leaf(b) => {
                    assert(tree_leaves(l)[0] == l->Leaf_0);
                    assert(tree_leaves(r)[0] == b);
                },
            },
        }
    }
}

/// The faces of a quadtree's dual graph: right (`R`) and up (`U`).
pub open spec fn quad_face(f: u8) -> bool {
    f == 2 || f == 4
}

/// Each pair of a quadtree's dual graph joins two of its leaves across its right or its
/// upper face.
pub proof fn lemma_dual_pairs_2d_leaves<P>(t: Tree<SubdivisionCell<P>, D2>)
    ensures
        pairs_within(dual_pairs_2d(t), t, |f: u8| quad_face(f)),
    decreases t,
{
    let ok = |f: u8| quad_face(f);
    if let Tree::Root(c, _) = t {
        if c@.len() == 4 {
            let parts = seq![
                dual_pairs_2d(*c@[0]),
                dual_pairs_2d(*c@[1]),
                dual_pairs_2d(*c@[2]),
                dual_pairs_2d(*c@[3]),
                boundary_pairs_2d(*c@[0], *c@[1], 1, 2),
                boundary_pairs_2d(*c@[2], *c@[3], 1, 2),
                boundary_pairs_2d(*c@[0], *c@[2], 2, 4),
                boundary_pairs_2d(*c@[1], *c@[3], 2, 4),
            ];
            assert forall|k: int| 0 <= k < 8 implies pairs_within(#[trigger] parts[k], t, ok) by {
                if k < 4 {
                    lemma_dual_pairs_2d_leaves(*c@[k]);
                    lemma_within_child(parts[k], t, k, ok);
                } else if k == 4 {
                    lemma_boundary_pairs_2d_sides(*c@[0], *c@[1], 1, 2);
                    lemma_between_within(parts[k], t, 0, 1, 2, ok);
                } else if k == 5 {
                    lemma_boundary_pairs_2d_sides(*c@[2], *c@[3], 1, 2);
                    lemma_between_within(parts[k], t, 2, 3, 2, ok);
                } else if k == 6 {
                    lemma_boundary_pairs_2d_sides(*c@[0], *c@[2], 2, 4);
                    lemma_between_within(parts[k], t, 0, 2, 4, ok);
                } else {
                    lemma_boundary_pairs_2d_sides(*c@[1], *c@[3], 2, 4);
                    lemma_between_within(parts[k], t, 1, 3, 4, ok);
                }
            }
            let mut acc = parts[0];
            assert(pairs_within(parts[1], t, ok));
            lemma_within_add(acc, parts[1], t, ok);
            acc = acc + parts[1];
            assert(pairs_within(parts[2], t, ok));
            lemma_within_add(acc, parts[2], t, ok);
            acc = acc + parts[2];
            assert(pairs_within(parts[3], t, ok));
            lemma_within_add(acc, parts[3], t, ok);
            acc = acc + parts[3];
            assert(pairs_within(parts[4], t, ok));
            lemma_within_add(acc, parts[4], t, ok);
            acc = acc + parts[4];
            assert(pairs_within(parts[5], t, ok));
            lemma_within_add(acc, parts[5], t, ok);
            acc = acc + parts[5];
            assert(pairs_within(parts[6], t, ok));
            lemma_within_add(acc, parts[6], t, ok);
            acc = acc + parts[6];
            assert(pairs_within(parts[7], t, ok));
            lemma_within_add(acc, parts[7], t, ok);
            acc = acc + parts[7];
            assert(acc == dual_pairs_2d(t));
        }
    }
}

/// Each pair across the boundary between two octrees has the boundary's face, its first
/// cell a leaf of the first tree and its second a leaf of the second.
pub proof fn lemma_boundary_pairs_3d_sides<P>(
    l: Tree<SubdivisionCell<P>, D3>,
    r: Tree<SubdivisionCell<P>, D3>,
    m: int,
    f: u8,
)
    ensures
        pairs_between(boundary_pairs_3d(l, r, m, f), l, r, f),
    decreases l, r,
{
    if m == 1 || m == 2 || m == 4 {
        match l {
            Tree::Root(lc, _) => if lc@.len() == 8 {
                assert forall|j: int| 0 <= j < 4 implies 0 <= #[trigger] low_octant(m, j) < 8
                    && 0 <= low_octant(m, j) + m < 8 by {}
                match r {
                    Tree::Root(rc, _) => if rc@.len() == 8 {
                        let parts = Seq::new(4, |j: int| boundary_pairs_3d(*lc@[low_octant(m, j) + m], *rc@[low_octant(m, j)], m, f));
                        assert forall|j: int| 0 <= j < 4 implies pairs_between(#[trigger] parts[j], l, r, f) by {
                            lemma_boundary_pairs_3d_sides(*lc@[low_octant(m, j) + m], *rc@[low_octant(m, j)], m, f);
                            lemma_leaves_of_child(l, low_octant(m, j) + m);
                            lemma_leaves_of_child(r, low_octant(m, j));
                        }
                        lemma_between_add(parts[0], parts[1], l, r, f);
                        lemma_between_add(parts[0] + parts[1], parts[2], l, r, f);
                        lemma_between_add(parts[0] + parts[1] + parts[2], parts[3], l, r, f);
                    },
                    Tree::Leaf(_) => {
                        let parts = Seq::new(4, |j: int| boundary_pairs_3d(*lc@[low_octant(m, j) + m], r, m, f));
                        assert forall|j: int| 0 <= j < 4 implies pairs_between(#[trigger] parts[j], l, r, f) by {
                            lemma_boundary_pairs_3d_sides(*lc@[low_octant(m, j) + m], r, m, f);
                            lemma_leaves_of_child(l, low_octant(m, j) + m);
                        }
                        lemma_between_add(parts[0], parts[1], l, r, f);
                        lemma_between_add(parts[0] + parts[1], parts[2], l, r, f);
                        lemma_between_add(parts[0] + parts[1] + parts[2], parts[3], l, r, f);
                    },
                }
            },
            Tree::Leaf(_) => match r {
                Tree::Root(rc, _) => if rc@.len() == 8 {
                    assert forall|j: int| 0 <= j < 4 implies 0 <= #[trigger] low_octant(m, j) < 8 by {}
                    let parts = Seq::new(4, |j: int| boundary_pairs_3d(l, *rc@[low_octant(m, j)], m, f));
                    assert forall|j: int| 0 <= j < 4 implies pairs_between(#[trigger] parts[j], l, r, f) by {
                        lemma_boundary_pairs_3d_sides(l, *rc@[low_octant(m, j)], m, f);
                        lemma_leaves_of_child(r, low_octant(m, j));
                    }
                    lemma_between_add(parts[0], parts[1], l, r, f);
                    lemma_between_add(parts[0] + parts[1], parts[2], l, r, f);
                    lemma_between_add(parts[0] + parts[1] + parts[2], parts[3], l, r, f);
                },
                Tree::Leaf(b) => {
                    assert(tree_leaves(l)[0] == l->Leaf_0);
                    assert(tree_leaves(r)[0] == b);
                },
            },
        }
    }
}

/// The faces of an octree's dual graph: right (`R`), up (`U`) and front (`F`).
pub open spec fn oct_face(f: u8) -> bool {
    f == 2 || f == 4 || f == 16
}

/// Each pair of an octree's dual graph joins two of its leaves across its right, upper or
/// front face.
#[verifier::spinoff_prover]
#[verifier::rlimit(40)]
pub proof fn lemma_dual_pairs_3d_leaves<P>(t: Tree<SubdivisionCell<P>, D3>)
    ensures
        pairs_within(dual_pairs_3d(t), t, |f: u8| oct_face(f)),
    decreases t,
{
    let ok = |f: u8| oct_face(f);
    if let Tree::Root(c, _) = t {
        if c@.len() == 8 {
            let parts = seq![
                dual_pairs_3d(*c@[0]), dual_pairs_3d(*c@[1]), dual_pairs_3d(*c@[2]), dual_pairs_3d(*c@[3]),
                dual_pairs_3d(*c@[4]), dual_pairs_3d(*c@[5]), dual_pairs_3d(*c@[6]), dual_pairs_3d(*c@[7]),
                boundary_pairs_3d(*c@[0], *c@[1], 1, 2), boundary_pairs_3d(*c@[2], *c@[3], 1, 2),
                boundary_pairs_3d(*c@[4], *c@[5], 1, 2), boundary_pairs_3d(*c@[6], *c@[7], 1, 2),
                boundary_pairs_3d(*c@[0], *c@[2], 2, 4), boundary_pairs_3d(*c@[1], *c@[3], 2, 4),
                boundary_pairs_3d(*c@[4], *c@[6], 2, 4), boundary_pairs_3d(*c@[5], *c@[7], 2, 4),
                boundary_pairs_3d(*c@[0], *c@[4], 4, 16), boundary_pairs_3d(*c@[1], *c@[5], 4, 16),
                boundary_pairs_3d(*c@[2], *c@[6], 4, 16), boundary_pairs_3d(*c@[3], *c@[7], 4, 16),
            ];
            let lhs = seq![0int, 2, 4, 6, 0, 1, 4, 5, 0, 1, 2, 3];
            let rhs = seq![1int, 3, 5, 7, 2, 3, 6, 7, 4, 5, 6, 7];
            let fs = seq![2u8, 2, 2, 2, 4, 4, 4, 4, 16, 16, 16, 16];
            let ms = seq![1int, 1, 1, 1, 2, 2, 2, 2, 4, 4, 4, 4];
            assert forall|k: int| 0 <= k < 20 implies pairs_within(#[trigger] parts[k], t, ok) by {
                if k < 8 {
                    lemma_dual_pairs_3d_leaves(*c@[k]);
                    lemma_within_child(parts[k], t, k, ok);
                } else {
                    let q = k - 8;
                    assert(parts[k] == boundary_pairs_3d(*c@[lhs[q]], *c@[rhs[q]], ms[q], fs[q]));
                    lemma_boundary_pairs_3d_sides(*c@[lhs[q]], *c@[rhs[q]], ms[q], fs[q]);
                    lemma_between_within(parts[k], t, lhs[q], rhs[q], fs[q], ok);
                }
            }
            let mut acc = parts[0];
            lemma_within_add(acc, parts[1], t, ok);
            acc = acc + parts[1];
            lemma_within_add(acc, parts[2], t, ok);
            acc = acc + parts[2];
            lemma_within_add(acc, parts[3], t, ok);
            acc = acc + parts[3];
            lemma_within_add(acc, parts[4], t, ok);
            acc = acc + parts[4];
            lemma_within_add(acc, parts[5], t, ok);
            acc = acc + parts[5];
            lemma_within_add(acc, parts[6], t, ok);
            acc = acc + parts[6];
            lemma_within_add(acc, parts[7], t, ok);
            acc = acc + parts[7];
            lemma_within_add(acc, parts[8], t, ok);
            acc = acc + parts[8];
            lemma_within_add(acc, parts[9], t, ok);
            acc = acc + parts[9];
            lemma_within_add(acc, parts[10], t, ok);
            acc = acc + parts[10];
            lemma_within_add(acc, parts[11], t, ok);
            acc = acc + parts[11];
            lemma_within_add(acc, parts[12], t, ok);
            acc = acc + parts[12];
            lemma_within_add(acc, parts[13], t, ok);
            acc = acc + parts[13];
            lemma_within_add(acc, parts[14], t, ok);
            acc = acc + parts[14];
            lemma_within_add(acc, parts[15], t, ok);
            acc = acc + parts[15];
            lemma_within_add(acc, parts[16], t, ok);
            acc = acc + parts[16];
            lemma_within_add(acc, parts[17], t, ok);
            acc = acc + parts[17];
            lemma_within_add(acc, parts[18], t, ok);
            acc = acc + parts[18];
            lemma_within_add(acc, parts[19], t, ok);
            acc = acc + parts[19];
            assert(acc == dual_pairs_3d(t));
        }
    }
}

/// Across the boundary between two complete quadtrees of depth `n` there are `2^n` pairs.
pub proof fn lemma_boundary_pairs_2d_count<P>(
    l: Tree<SubdivisionCell<P>, D2>,
    r: Tree<SubdivisionCell<P>, D2>,
    m: int,
    f: u8,
    n: nat,
)
    requires
        m == 1 || m == 2,
        full_grid(l, 4, n),
        full_grid(r, 4, n),
    ensures
        boundary_pairs_2d(l, r, m, f).len() == pow2(n),
    decreases n,
{
    lemma_full_grid_children(l, 4, n);
    lemma_full_grid_children(r, 4, n);
    if n == 0 {
        assert(pow2(0) == 1) by {
            vstd::arithmetic::power2::lemma2_to64();
        }
    } else {
        let lc = l->Root_0;
        let rc = r->Root_0;
        let (i0, i1) = (low_quadrant(m, 0), low_quadrant(m, 1));
        lemma_boundary_pairs_2d_count(*lc@[i0 + m], *rc@[i0], m, f, (n - 1) as nat);
        lemma_boundary_pairs_2d_count(*lc@[i1 + m], *rc@[i1], m, f, (n - 1) as nat);
        lemma_pow2_unfold(n);
    }
}

/// The dual graph of a complete quadtree of depth `n`, a grid of `2^n` by `2^n` cells, has
/// `2 * 2^n * (2^n - 1)` pairs: `2^n - 1` inner boundaries of `2^n` faces along each axis.
pub proof fn lemma_dual_pairs_2d_count<P>(t: Tree<SubdivisionCell<P>, D2>, n: nat)
    requires
        full_grid(t, 4, n),
    ensures
        dual_pairs_2d(t).len() == 2 * pow2(n) * (pow2(n) - 1),
    decreases n,
{
    lemma_full_grid_children(t, 4, n);
    if n == 0 {
        assert(pow2(0) == 1) by {
            vstd::arithmetic::power2::lemma2_to64();
        }
    } else {
        let c = t->Root_0;
        let k = (n - 1) as nat;
        assert forall|i: int| 0 <= i < 4 implies #[trigger] dual_pairs_2d(*c@[i]).len() == 2 * pow2(k)
            * (pow2(k) - 1) by {
            lemma_dual_pairs_2d_count(*c@[i], k);
        }
        lemma_boundary_pairs_2d_count(*c@[0], *c@[1], 1, 2, k);
        lemma_boundary_pairs_2d_count(*c@[2], *c@[3], 1, 2, k);
        lemma_boundary_pairs_2d_count(*c@[0], *c@[2], 2, 4, k);
        lemma_boundary_pairs_2d_count(*c@[1], *c@[3], 2, 4, k);
        lemma_pow2_unfold(n);
        let p = pow2(k) as int;
        assert(dual_pairs_2d(t).len() == dual_pairs_2d(*c@[0]).len() + dual_pairs_2d(*c@[1]).len()
            + dual_pairs_2d(*c@[2]).len() + dual_pairs_2d(*c@[3]).len() + boundary_pairs_2d(
            *c@[0],
            *c@[1],
            1,
            2,
        ).len() + boundary_pairs_2d(*c@[2], *c@[3], 1, 2).len() + boundary_pairs_2d(
            *c@[0],
            *c@[2],
            2,
            4,
        ).len() + boundary_pairs_2d(*c@[1], *c@[3], 2, 4).len());
        assert(dual_pairs_2d(t).len() == 4 * (2 * p * (p - 1)) + 4 * p);
        assert(4 * (2 * p * (p - 1)) + 4 * p == 2 * (2 * p) * (2 * p - 1)) by (nonlinear_arith);
    }
}

/// Across the boundary between two complete octrees of depth `n` there are `4^n` pairs.
pub proof fn lemma_boundary_pairs_3d_count<P>(
    l: Tree<SubdivisionCell<P>, D3>,
    r: Tree<SubdivisionCell<P>, D3>,
    m: int,
    f: u8,
    n: nat,
)
    requires
        m == 1 || m == 2 || m == 4,
        full_grid(l, 8, n),
        full_grid(r, 8, n),
    ensures
        boundary_pairs_3d(l, r, m, f).len() == pow2(2 * n),
    decreases n,
{
    lemma_full_grid_children(l, 8, n);
    lemma_full_grid_children(r, 8, n);
    if n == 0 {
        assert(pow2(0) == 1) by {
            vstd::arithmetic::power2::lemma2_to64();
        }
    } else {
        let lc = l->Root_0;
        let rc = r->Root_0;
        let k = (n - 1) as nat;
        assert forall|j: int| 0 <= j < 4 implies #[trigger] boundary_pairs_3d(
            *lc@[low_octant(m, j) + m],
            *rc@[low_octant(m, j)],
            m,
            f,
        ).len() == pow2(2 * k) by {
            lemma_boundary_pairs_3d_count(*lc@[low_octant(m, j) + m], *rc@[low_octant(m, j)], m, f, k);
        }
        lemma_pow2_adds(2, 2 * k);
        assert(pow2(2) == 4) by {
            vstd::arithmetic::power2::lemma2_to64();
        }
        assert(2 * n == 2 + 2 * k);
        let parts = Seq::new(
            4,
            |j: int| boundary_pairs_3d(*lc@[low_octant(m, j) + m], *rc@[low_octant(m, j)], m, f),
        );
        assert(boundary_pairs_3d(l, r, m, f) == parts[0] + parts[1] + parts[2] + parts[3]);
        assert(parts[0].len() == pow2(2 * k));
        assert(parts[1].len() == pow2(2 * k));
        assert(parts[2].len() == pow2(2 * k));
        assert(parts[3].len() == pow2(2 * k));
    }
}

/// The dual graph of a complete octree of depth `n`, a grid of `2^n` cells along each axis,
/// has `3 * 4^n * (2^n - 1)` pairs: `2^n - 1` inner boundaries of `4^n` faces along each axis.
pub proof fn lemma_dual_pairs_3d_count<P>(t: Tree<SubdivisionCell<P>, D3>, n: nat)
    requires
        full_grid(t, 8, n),
    ensures
        dual_pairs_3d(t).len() == 3 * pow2(2 * n) * (pow2(n) - 1),
    decreases n,
{
    lemma_full_grid_children(t, 8, n);
    if n == 0 {
        assert(pow2(0) == 1) by {
            vstd::arithmetic::power2::lemma2_to64();
        }
    } else {
        let c = t->Root_0;
        let k = (n - 1) as nat;
        assert forall|i: int| 0 <= i < 8 implies #[trigger] dual_pairs_3d(*c@[i]).len() == 3 * pow2(
            2 * k,
        ) * (pow2(k) - 1) by {
            lemma_dual_pairs_3d_count(*c@[i], k);
        }
        let lhs = seq![0int, 2, 4, 6, 0, 1, 4, 5, 0, 1, 2, 3];
        let rhs = seq![1int, 3, 5, 7, 2, 3, 6, 7, 4, 5, 6, 7];
        let fs = seq![2u8, 2, 2, 2, 4, 4, 4, 4, 16, 16, 16, 16];
        let ms = seq![1int, 1, 1, 1, 2, 2, 2, 2, 4, 4, 4, 4];
        assert forall|q: int| 0 <= q < 12 implies #[trigger] boundary_pairs_3d(
            *c@[lhs[q]],
            *c@[rhs[q]],
            ms[q],
            fs[q],
        ).len() == pow2(2 * k) by {
            lemma_boundary_pairs_3d_count(*c@[lhs[q]], *c@[rhs[q]], ms[q], fs[q], k);
        }
        assert(boundary_pairs_3d(*c@[0], *c@[1], 1, 2) == boundary_pairs_3d(*c@[lhs[0]], *c@[rhs[0]], ms[0], fs[0]));
        lemma_pow2_unfold(n);
        lemma_pow2_adds(2, 2 * k);
        assert(pow2(2) == 4) by {
            vstd::arithmetic::power2::lemma2_to64();
        }
        assert(2 * n == 2 + 2 * k);
        let p = pow2(k) as int;
        let q = pow2(2 * k) as int;
        let ds = Seq::new(8, |i: int| dual_pairs_3d(*c@[i]));
        let bs = Seq::new(12, |i: int| boundary_pairs_3d(*c@[lhs[i]], *c@[rhs[i]], ms[i], fs[i]));
        assert(dual_pairs_3d(t) == ds[0] + ds[1] + ds[2] + ds[3] + ds[4] + ds[5] + ds[6] + ds[7]
            + bs[0] + bs[1] + bs[2] + bs[3] + bs[4] + bs[5] + bs[6] + bs[7] + bs[8] + bs[9] + bs[10]
            + bs[11]);
        assert forall|i: int| 0 <= i < 8 implies (#[trigger] ds[i]).len() == 3 * q * (p - 1) by {}
        assert forall|i: int| 0 <= i < 12 implies (#[trigger] bs[i]).len() == q by {}
        assert(dual_pairs_3d(t).len() == 8 * (3 * q * (p - 1)) + 12 * q);
        assert(8 * (3 * q * (p - 1)) + 12 * q == 3 * (4 * q) * (2 * p - 1)) by (nonlinear_arith);
    }
}

/// The leaf reached from `t` by taking, in turn, the subtree at each index of `path`; none
/// where the path leaves the tree or stops at a root.
pub open spec fn leaf_at<P, D>(t: Tree<SubdivisionCell<P>, D>, path: Seq<int>) -> Option<
    SubdivisionCell<P>,
>
    decreases path.len(),
{
    if path.len() == 0 {
        match t {
            Tree::Leaf(c) => Some(c),
            Tree::Root(_, _) => None,
        }
    } else {
        match t {
            Tree::Root(cs, _) => if 0 <= path[0] < cs@.len() {
                leaf_at(*cs@[path[0]], path.drop_first())
            } else {
                None
            },
            Tree::Leaf(_) => None,
        }
    }
}

/// Subcell `i` lies on the high side of axis bit `b` of its cell.
pub open spec fn subcell_high(i: int, b: int) -> bool {
    (i / b) % 2 == 1
}

/// Leaves at paths `p` in one square and `q` in the square next to it along axis bit `m`
/// share a stretch of the boundary between the two squares: `p` keeps to the boundary's
/// side of each square it enters, `q` to the other, and along the other axis they enter
/// the same halves for as long as both go on, so that one's extent holds the other's.
pub open spec fn meet_across_2d(p: Seq<int>, q: Seq<int>, m: int) -> bool {
    &&& forall|k: int| 0 <= k < p.len() ==> subcell_high(#[trigger] p[k], m)
    &&& forall|k: int| 0 <= k < q.len() ==> !subcell_high(#[trigger] q[k], m)
    &&& forall|k: int|
        0 <= k < p.len() && k < q.len() ==> subcell_high(#[trigger] p[k], 3 - m) == subcell_high(
            #[trigger] q[k],
            3 - m,
        )
}

/// The first cell of `x` is a leaf of `l` and the second a leaf of `r`, and the two meet
/// across the boundary between `l` and `r` along axis bit `m`.
pub open spec fn pair_meets_2d<P>(
    l: Tree<SubdivisionCell<P>, D2>,
    r: Tree<SubdivisionCell<P>, D2>,
    m: int,
    x: PairView<P>,
) -> bool {
    exists|p: Seq<int>, q: Seq<int>|
        #[trigger] leaf_at(l, p) == Some(x.1) && #[trigger] leaf_at(r, q) == Some(x.2)
            && meet_across_2d(p, q, m)
}

/// Going down one more level first.
proof fn lemma_leaf_at_cons<P, D>(t: Tree<SubdivisionCell<P>, D>, i: int, p: Seq<int>)
    requires
        t is Root,
        0 <= i < t->Root_0@.len(),
    ensures
        leaf_at(t, seq![i] + p) == leaf_at(*t->Root_0@[i], p),
{
    assert((seq![i] + p).drop_first() =~= p);
    assert((seq![i] + p)[0] == i);
}

/// A pair that meets across the boundary between subtrees of `l` and `r`, where the subtree
/// of `l` keeps to the boundary's side and the subtree of `r` to the other, meets across the
/// boundary between `l` and `r`.
proof fn lemma_meets_lift<P>(
    l: Tree<SubdivisionCell<P>, D2>,
    r: Tree<SubdivisionCell<P>, D2>,
    m: int,
    x: PairView<P>,
    li: Option<int>,
    ri: Option<int>,
)
    requires
        m == 1 || m == 2,
        li matches Some(a) ==> l is Root && 0 <= a < l->Root_0@.len() && subcell_high(a, m),
        ri matches Some(b) ==> r is Root && 0 <= b < r->Root_0@.len() && !subcell_high(b, m),
        (li is Some && ri is Some) ==> subcell_high(li->0, 3 - m) == subcell_high(ri->0, 3 - m),
        li is None ==> l is Leaf,
        ri is None ==> r is Leaf,
        pair_meets_2d(
            if li is Some { *l->Root_0@[li->0] } else { l },
            if ri is Some { *r->Root_0@[ri->0] } else { r },
            m,
            x,
        ),
    ensures
        pair_meets_2d(l, r, m, x),
{
    let l2 = if li is Some { *l->Root_0@[li->0] } else { l };
    let r2 = if ri is Some { *r->Root_0@[ri->0] } else { r };
    let (p, q) = choose|p: Seq<int>, q: Seq<int>|
        #[trigger] leaf_at(l2, p) == Some(x.1) && #[trigger] leaf_at(r2, q) == Some(x.2)
            && meet_across_2d(p, q, m);
    let p2 = if li is Some { seq![li->0] + p } else { p };
    let q2 = if ri is Some { seq![ri->0] + q } else { q };
    if li is Some {
        lemma_leaf_at_cons(l, li->0, p);
    } else {
        assert(p.len() == 0);
    }
    if ri is Some {
        lemma_leaf_at_cons(r, ri->0, q);
    } else {
        assert(q.len() == 0);
    }
    assert(meet_across_2d(p2, q2, m)) by {
        assert forall|k: int| 0 <= k < p2.len() implies subcell_high(#[trigger] p2[k], m) by {
            if li is Some && k > 0 {
                assert(p2[k] == p[k - 1]);
            }
        }
        assert forall|k: int| 0 <= k < q2.len() implies !subcell_high(#[trigger] q2[k], m) by {
            if ri is Some && k > 0 {
                assert(q2[k] == q[k - 1]);
            }
        }
        assert forall|k: int| 0 <= k < p2.len() && k < q2.len() implies subcell_high(
            #[trigger] p2[k],
            3 - m,
        ) == subcell_high(#[trigger] q2[k], 3 - m) by {
            if li is Some && ri is Some {
                if k > 0 {
                    assert(p2[k] == p[k - 1] && q2[k] == q[k - 1]);
                }
            }
        }
    }
    assert(leaf_at(l, p2) == Some(x.1) && leaf_at(r, q2) == Some(x.2));
}

/// Every element of a concatenation satisfies what every element of both parts does.
proof fn lemma_all_add<T>(a: Seq<T>, b: Seq<T>, pred: spec_fn(T) -> bool)
    requires
        forall|i: int| 0 <= i < a.len() ==> pred(#[trigger] a[i]),
        forall|i: int| 0 <= i < b.len() ==> pred(#[trigger] b[i]),
    ensures
        forall|i: int| 0 <= i < (a + b).len() ==> pred(#[trigger] (a + b)[i]),
{
    assert forall|i: int| 0 <= i < (a + b).len() implies pred(#[trigger] (a + b)[i]) by {
        if i < a.len() {
            assert((a + b)[i] == a[i]);
        } else {
            assert((a + b)[i] == b[i - a.len()]);
        }
    }
}

/// Each pair across the boundary between two quadtrees joins a leaf of the first to a leaf
/// of the second that meet along that boundary.
pub proof fn lemma_boundary_pairs_2d_meet<P>(
    l: Tree<SubdivisionCell<P>, D2>,
    r: Tree<SubdivisionCell<P>, D2>,
    m: int,
    f: u8,
)
    requires
        m == 1 || m == 2,
    ensures
        forall|i: int|
            0 <= i < boundary_pairs_2d(l, r, m, f).len() ==> pair_meets_2d(
                l,
                r,
                m,
                #[trigger] boundary_pairs_2d(l, r, m, f)[i],
            ),
    decreases l, r,
{
    let pred = |x: PairView<P>| pair_meets_2d(l, r, m, x);
    let (i0, i1) = (low_quadrant(m, 0), low_quadrant(m, 1));
    assert(subcell_high(i0 + m, m) && subcell_high(i1 + m, m));
    assert(!subcell_high(i0, m) && !subcell_high(i1, m));
    assert(subcell_high(i0 + m, 3 - m) == subcell_high(i0, 3 - m));
    assert(subcell_high(i1 + m, 3 - m) == subcell_high(i1, 3 - m));
    match l {
        Tree::Root(lc, _) => if lc@.len() == 4 {
            match r {
                Tree::Root(rc, _) => if rc@.len() == 4 {
                    let (a0, a1) = (*lc@[i0 + m], *lc@[i1 + m]);
                    let (b0, b1) = (*rc@[i0], *rc@[i1]);
                    lemma_boundary_pairs_2d_meet(a0, b0, m, f);
                    lemma_boundary_pairs_2d_meet(a1, b1, m, f);
                    let (s0, s1) = (boundary_pairs_2d(a0, b0, m, f), boundary_pairs_2d(a1, b1, m, f));
                    assert forall|i: int| 0 <= i < s0.len() implies pred(#[trigger] s0[i]) by {
                        lemma_meets_lift(l, r, m, s0[i], Some(i0 + m), Some(i0));
                    }
                    assert forall|i: int| 0 <= i < s1.len() implies pred(#[trigger] s1[i]) by {
                        lemma_meets_lift(l, r, m, s1[i], Some(i1 + m), Some(i1));
                    }
                    lemma_all_add(s0, s1, pred);
                },
                Tree::Leaf(_) => {
                    let (a0, a1) = (*lc@[i0 + m], *lc@[i1 + m]);
                    lemma_boundary_pairs_2d_meet(a0, r, m, f);
                    lemma_boundary_pairs_2d_meet(a1, r, m, f);
                    let (s0, s1) = (boundary_pairs_2d(a0, r, m, f), boundary_pairs_2d(a1, r, m, f));
                    assert forall|i: int| 0 <= i < s0.len() implies pred(#[trigger] s0[i]) by {
                        lemma_meets_lift(l, r, m, s0[i], Some(i0 + m), None);
                    }
                    assert forall|i: int| 0 <= i < s1.len() implies pred(#[trigger] s1[i]) by {
                        lemma_meets_lift(l, r, m, s1[i], Some(i1 + m), None);
                    }
                    lemma_all_add(s0, s1, pred);
                },
            }
        },
        Tree::Leaf(a) => match r {
            Tree::Root(rc, _) => if rc@.len() == 4 {
                let (b0, b1) = (*rc@[i0], *rc@[i1]);
                lemma_boundary_pairs_2d_meet(l, b0, m, f);
                lemma_boundary_pairs_2d_meet(l, b1, m, f);
                let (s0, s1) = (boundary_pairs_2d(l, b0, m, f), boundary_pairs_2d(l, b1, m, f));
                assert forall|i: int| 0 <= i < s0.len() implies pred(#[trigger] s0[i]) by {
                    lemma_meets_lift(l, r, m, s0[i], None, Some(i0));
                }
                assert forall|i: int| 0 <= i < s1.len() implies pred(#[trigger] s1[i]) by {
                    lemma_meets_lift(l, r, m, s1[i], None, Some(i1));
                }
                lemma_all_add(s0, s1, pred);
            },
            Tree::Leaf(b) => {
                let x = boundary_pairs_2d(l, r, m, f)[0];
                assert(leaf_at(l, Seq::<int>::empty()) == Some(x.1));
                assert(leaf_at(r, Seq::<int>::empty()) == Some(x.2));
                assert(meet_across_2d(Seq::<int>::empty(), Seq::<int>::empty(), m));
                assert(pair_meets_2d(l, r, m, x));
            },
        },
    }
}

/// The two cells of `x` are leaves of `t` that meet across a face of the quadtree: below
/// some root of `t` (reached by path `c`) they lie in neighbouring quadrants `i` and `i + m`
/// along axis bit `m`, on either side of the boundary between them, and `x`'s face is the
/// one that the first leaf turns to the second (`R` along x, `U` along y).
pub open spec fn leaves_meet_2d<P>(t: Tree<SubdivisionCell<P>, D2>, x: PairView<P>) -> bool {
    exists|c: Seq<int>, i: int, m: int, p: Seq<int>, q: Seq<int>|
        (m == 1 || m == 2) && 0 <= i < 4 && !subcell_high(i, m) && x.0 == 2 * m
            && #[trigger] leaf_at(t, c + seq![i] + p) == Some(x.1) && #[trigger] leaf_at(
            t,
            c + seq![i + m] + q,
        ) == Some(x.2) && meet_across_2d(p, q, m)
}

/// A pair that meets within subtree `k` meets within the root.
proof fn lemma_leaves_meet_child<P>(t: Tree<SubdivisionCell<P>, D2>, k: int, x: PairView<P>)
    requires
        t is Root,
        0 <= k < t->Root_0@.len(),
        leaves_meet_2d(*t->Root_0@[k], x),
    ensures
        leaves_meet_2d(t, x),
{
    let ch = *t->Root_0@[k];
    let (c, i, m, p, q) = choose|c: Seq<int>, i: int, m: int, p: Seq<int>, q: Seq<int>|
        (m == 1 || m == 2) && 0 <= i < 4 && !subcell_high(i, m) && x.0 == 2 * m
            && #[trigger] leaf_at(ch, c + seq![i] + p) == Some(x.1) && #[trigger] leaf_at(
            ch,
            c + seq![i + m] + q,
        ) == Some(x.2) && meet_across_2d(p, q, m);
    let c2 = seq![k] + c;
    lemma_leaf_at_cons(t, k, c + seq![i] + p);
    lemma_leaf_at_cons(t, k, c + seq![i + m] + q);
    assert(c2 + seq![i] + p =~= seq![k] + (c + seq![i] + p));
    assert(c2 + seq![i + m] + q =~= seq![k] + (c + seq![i + m] + q));
    assert(leaf_at(t, c2 + seq![i] + p) == Some(x.1));
    assert(leaf_at(t, c2 + seq![i + m] + q) == Some(x.2));
}

/// A pair across the boundary between quadrants `i` and `i + m` of the root meets within it.
proof fn lemma_leaves_meet_boundary<P>(
    t: Tree<SubdivisionCell<P>, D2>,
    i: int,
    m: int,
    x: PairView<P>,
)
    requires
        t is Root,
        t->Root_0@.len() == 4,
        m == 1 || m == 2,
        0 <= i,
        i + m < 4,
        !subcell_high(i, m),
        x.0 == 2 * m,
        pair_meets_2d(*t->Root_0@[i], *t->Root_0@[i + m], m, x),
    ensures
        leaves_meet_2d(t, x),
{
    let (l, r) = (*t->Root_0@[i], *t->Root_0@[i + m]);
    let (p, q) = choose|p: Seq<int>, q: Seq<int>|
        #[trigger] leaf_at(l, p) == Some(x.1) && #[trigger] leaf_at(r, q) == Some(x.2)
            && meet_across_2d(p, q, m);
    let c = Seq::<int>::empty();
    lemma_leaf_at_cons(t, i, p);
    lemma_leaf_at_cons(t, i + m, q);
    assert(c + seq![i] + p =~= seq![i] + p);
    assert(c + seq![i + m] + q =~= seq![i + m] + q);
    assert(leaf_at(t, c + seq![i] + p) == Some(x.1));
    assert(leaf_at(t, c + seq![i + m] + q) == Some(x.2));
}

/// Each pair of a quadtree's dual graph joins two of its leaves that meet across a face,
/// labelled with that face.
pub proof fn lemma_dual_pairs_2d_meet<P>(t: Tree<SubdivisionCell<P>, D2>)
    ensures
        forall|i: int|
            0 <= i < dual_pairs_2d(t).len() ==> leaves_meet_2d(t, #[trigger] dual_pairs_2d(t)[i]),
    decreases t,
{
    let pred = |x: PairView<P>| leaves_meet_2d(t, x);
    if let Tree::Root(c, _) = t {
        if c@.len() == 4 {
            let parts = seq![
                dual_pairs_2d(*c@[0]),
                dual_pairs_2d(*c@[1]),
                dual_pairs_2d(*c@[2]),
                dual_pairs_2d(*c@[3]),
                boundary_pairs_2d(*c@[0], *c@[1], 1, 2),
                boundary_pairs_2d(*c@[2], *c@[3], 1, 2),
                boundary_pairs_2d(*c@[0], *c@[2], 2, 4),
                boundary_pairs_2d(*c@[1], *c@[3], 2, 4),
            ];
            let lo = seq![0int, 2, 0, 1];
            let ms = seq![1int, 1, 2, 2];
            assert forall|k: int, j: int|
                0 <= k < 8 && 0 <= j < parts[k].len() implies pred(#[trigger] parts[k][j]) by {
                if k < 4 {
                    lemma_dual_pairs_2d_meet(*c@[k]);
                    assert(parts[k] == dual_pairs_2d(*c@[k]));
                    lemma_leaves_meet_child(t, k, parts[k][j]);
                } else {
                    let q = k - 4;
                    let (i, m) = (lo[q], ms[q]);
                    assert(parts[k] == boundary_pairs_2d(*c@[i], *c@[i + m], m, (2 * m) as u8));
                    lemma_boundary_pairs_2d_meet(*c@[i], *c@[i + m], m, (2 * m) as u8);
                    lemma_boundary_pairs_2d_sides(*c@[i], *c@[i + m], m, (2 * m) as u8);
                    lemma_leaves_meet_boundary(t, i, m, parts[k][j]);
                }
            }
            assert(forall|j: int| 0 <= j < parts[0].len() ==> pred(#[trigger] parts[0][j]));
            let mut acc = parts[0];
            assert(forall|j: int| 0 <= j < parts[1].len() ==> pred(#[trigger] parts[1][j]));
            lemma_all_add(acc, parts[1], pred);
            acc = acc + parts[1];
            assert(forall|j: int| 0 <= j < parts[2].len() ==> pred(#[trigger] parts[2][j]));
            lemma_all_add(acc, parts[2], pred);
            acc = acc + parts[2];
            assert(forall|j: int| 0 <= j < parts[3].len() ==> pred(#[trigger] parts[3][j]));
            lemma_all_add(acc, parts[3], pred);
            acc = acc + parts[3];
            assert(forall|j: int| 0 <= j < parts[4].len() ==> pred(#[trigger] parts[4][j]));
            lemma_all_add(acc, parts[4], pred);
            acc = acc + parts[4];
            assert(forall|j: int| 0 <= j < parts[5].len() ==> pred(#[trigger] parts[5][j]));
            lemma_all_add(acc, parts[5], pred);
            acc = acc + parts[5];
            assert(forall|j: int| 0 <= j < parts[6].len() ==> pred(#[trigger] parts[6][j]));
            lemma_all_add(acc, parts[6], pred);
            acc = acc + parts[6];
            assert(forall|j: int| 0 <= j < parts[7].len() ==> pred(#[trigger] parts[7][j]));
            lemma_all_add(acc, parts[7], pred);
            acc = acc + parts[7];
            assert(acc == dual_pairs_2d(t));
        }
    }
}

/// Leaves at paths `p` in one cube and `q` in the cube next to it along axis bit `m` share
/// a patch of the face between the two cubes: `p` keeps to the face's side of each cube it
/// enters, `q` to the other, and along both other axes they enter the same halves for as
/// long as both go on, so that one's extent on the face holds the other's.
pub open spec fn meet_across_3d(p: Seq<int>, q: Seq<int>, m: int) -> bool {
    &&& forall|k: int| 0 <= k < p.len() ==> subcell_high(#[trigger] p[k], m)
    &&& forall|k: int| 0 <= k < q.len() ==> !subcell_high(#[trigger] q[k], m)
    &&& forall|k: int|
        0 <= k < p.len() && k < q.len() ==> same_halves(#[trigger] p[k], #[trigger] q[k], m)
}

/// The two axis bits other than `m`.
pub open spec fn other_axes(m: int) -> (int, int) {
    if m == 1 {
        (2, 4)
    } else if m == 2 {
        (1, 4)
    } else {
        (1, 2)
    }
}

/// Octants `a` and `b` lie in the same halves of their cubes along both axes other than `m`.
pub open spec fn same_halves(a: int, b: int, m: int) -> bool {
    let (c, d) = other_axes(m);
    subcell_high(a, c) == subcell_high(b, c) && subcell_high(a, d) == subcell_high(b, d)
}

/// The first cell of `x` is a leaf of `l` and the second a leaf of `r`, and the two meet
/// across the face between `l` and `r` along axis bit `m`.
pub open spec fn pair_meets_3d<P>(
    l: Tree<SubdivisionCell<P>, D3>,
    r: Tree<SubdivisionCell<P>, D3>,
    m: int,
    x: PairView<P>,
) -> bool {
    exists|p: Seq<int>, q: Seq<int>|
        #[trigger] leaf_at(l, p) == Some(x.1) && #[trigger] leaf_at(r, q) == Some(x.2)
            && meet_across_3d(p, q, m)
}

/// The octant `a` on the boundary's side of `l` and `b` on the other side of `r` face each
/// other: they lie in the same halves along both other axes.
pub open spec fn octants_face(a: int, b: int, m: int) -> bool {
    subcell_high(a, m) && !subcell_high(b, m) && same_halves(a, b, m)
}

/// A pair that meets across the face between subtrees of `l` and `r`, where the subtree
/// of `l` keeps to the face's side and the subtree of `r` to the other, meets across the
/// face between `l` and `r`.
proof fn lemma_meets_lift_3d<P>(
    l: Tree<SubdivisionCell<P>, D3>,
    r: Tree<SubdivisionCell<P>, D3>,
    m: int,
    x: PairView<P>,
    li: Option<int>,
    ri: Option<int>,
)
    requires
        m == 1 || m == 2 || m == 4,
        li matches Some(a) ==> l is Root && 0 <= a < l->Root_0@.len() && subcell_high(a, m),
        ri matches Some(b) ==> r is Root && 0 <= b < r->Root_0@.len() && !subcell_high(b, m),
        (li is Some && ri is Some) ==> octants_face(li->0, ri->0, m),
        li is None ==> l is Leaf,
        ri is None ==> r is Leaf,
        pair_meets_3d(
            if li is Some { *l->Root_0@[li->0] } else { l },
            if ri is Some { *r->Root_0@[ri->0] } else { r },
            m,
            x,
        ),
    ensures
        pair_meets_3d(l, r, m, x),
{
    let l2 = if li is Some { *l->Root_0@[li->0] } else { l };
    let r2 = if ri is Some { *r->Root_0@[ri->0] } else { r };
    let (p, q) = choose|p: Seq<int>, q: Seq<int>|
        #[trigger] leaf_at(l2, p) == Some(x.1) && #[trigger] leaf_at(r2, q) == Some(x.2)
            && meet_across_3d(p, q, m);
    let p2 = if li is Some { seq![li->0] + p } else { p };
    let q2 = if ri is Some { seq![ri->0] + q } else { q };
    if li is Some {
        lemma_leaf_at_cons(l, li->0, p);
    } else {
        assert(p.len() == 0);
    }
    if ri is Some {
        lemma_leaf_at_cons(r, ri->0, q);
    } else {
        assert(q.len() == 0);
    }
    assert(meet_across_3d(p2, q2, m)) by {
        assert forall|k: int| 0 <= k < p2.len() implies subcell_high(#[trigger] p2[k], m) by {
            if li is Some && k > 0 {
                assert(p2[k] == p[k - 1]);
            }
        }
        assert forall|k: int| 0 <= k < q2.len() implies !subcell_high(#[trigger] q2[k], m) by {
            if ri is Some && k > 0 {
                assert(q2[k] == q[k - 1]);
            }
        }
        assert forall|k: int| 0 <= k < p2.len() && k < q2.len() implies same_halves(
            #[trigger] p2[k],
            #[trigger] q2[k],
            m,
        ) by {
            if li is Some && ri is Some {
                if k > 0 {
                    assert(p2[k] == p[k - 1] && q2[k] == q[k - 1]);
                }
            }
        }
    }
    assert(leaf_at(l, p2) == Some(x.1) && leaf_at(r, q2) == Some(x.2));
}

/// Each pair across the face between two octrees joins a leaf of the first to a leaf of the
/// second that meet across that face.
pub proof fn lemma_boundary_pairs_3d_meet<P>(
    l: Tree<SubdivisionCell<P>, D3>,
    r: Tree<SubdivisionCell<P>, D3>,
    m: int,
    f: u8,
)
    requires
        m == 1 || m == 2 || m == 4,
    ensures
        forall|i: int|
            0 <= i < boundary_pairs_3d(l, r, m, f).len() ==> pair_meets_3d(
                l,
                r,
                m,
                #[trigger] boundary_pairs_3d(l, r, m, f)[i],
            ),
    decreases l, r,
{
    let pred = |x: PairView<P>| pair_meets_3d(l, r, m, x);
    assert forall|j: int| 0 <= j < 4 implies #[trigger] octants_face(low_octant(m, j) + m, low_octant(m, j), m)
        && 0 <= low_octant(m, j) && low_octant(m, j) + m < 8 by {}
    match l {
        Tree::Root(lc, _) => if lc@.len() == 8 {
            match r {
                Tree::Root(rc, _) => if rc@.len() == 8 {
                    let parts = Seq::new(
                        4,
                        |j: int| boundary_pairs_3d(*lc@[low_octant(m, j) + m], *rc@[low_octant(m, j)], m, f),
                    );
                    assert forall|j: int, i: int| 0 <= j < 4 && 0 <= i < parts[j].len() implies pred(
                        #[trigger] parts[j][i],
                    ) by {
                        let (a, b) = (low_octant(m, j) + m, low_octant(m, j));
                        assert(octants_face(a, b, m));
                        lemma_boundary_pairs_3d_meet(*lc@[a], *rc@[b], m, f);
                        lemma_meets_lift_3d(l, r, m, parts[j][i], Some(a), Some(b));
                    }
                    assert(forall|i: int| 0 <= i < parts[0].len() ==> pred(#[trigger] parts[0][i]));
                    assert(forall|i: int| 0 <= i < parts[1].len() ==> pred(#[trigger] parts[1][i]));
                    assert(forall|i: int| 0 <= i < parts[2].len() ==> pred(#[trigger] parts[2][i]));
                    assert(forall|i: int| 0 <= i < parts[3].len() ==> pred(#[trigger] parts[3][i]));
                    lemma_all_add(parts[0], parts[1], pred);
                    lemma_all_add(parts[0] + parts[1], parts[2], pred);
                    lemma_all_add(parts[0] + parts[1] + parts[2], parts[3], pred);
                },
                Tree::Leaf(_) => {
                    let parts = Seq::new(4, |j: int| boundary_pairs_3d(*lc@[low_octant(m, j) + m], r, m, f));
                    assert forall|j: int, i: int| 0 <= j < 4 && 0 <= i < parts[j].len() implies pred(
                        #[trigger] parts[j][i],
                    ) by {
                        let a = low_octant(m, j) + m;
                        assert(octants_face(a, low_octant(m, j), m));
                        lemma_boundary_pairs_3d_meet(*lc@[a], r, m, f);
                        lemma_meets_lift_3d(l, r, m, parts[j][i], Some(a), None);
                    }
                    assert(forall|i: int| 0 <= i < parts[0].len() ==> pred(#[trigger] parts[0][i]));
                    assert(forall|i: int| 0 <= i < parts[1].len() ==> pred(#[trigger] parts[1][i]));
                    assert(forall|i: int| 0 <= i < parts[2].len() ==> pred(#[trigger] parts[2][i]));
                    assert(forall|i: int| 0 <= i < parts[3].len() ==> pred(#[trigger] parts[3][i]));
                    lemma_all_add(parts[0], parts[1], pred);
                    lemma_all_add(parts[0] + parts[1], parts[2], pred);
                    lemma_all_add(parts[0] + parts[1] + parts[2], parts[3], pred);
                },
            }
        },
        Tree::Leaf(_) => match r {
            Tree::Root(rc, _) => if rc@.len() == 8 {
                let parts = Seq::new(4, |j: int| boundary_pairs_3d(l, *rc@[low_octant(m, j)], m, f));
                assert forall|j: int, i: int| 0 <= j < 4 && 0 <= i < parts[j].len() implies pred(
                    #[trigger] parts[j][i],
                ) by {
                    let b = low_octant(m, j);
                    assert(octants_face(b + m, b, m));
                    lemma_boundary_pairs_3d_meet(l, *rc@[b], m, f);
                    lemma_meets_lift_3d(l, r, m, parts[j][i], None, Some(b));
                }
                assert(forall|i: int| 0 <= i < parts[0].len() ==> pred(#[trigger] parts[0][i]));
                assert(forall|i: int| 0 <= i < parts[1].len() ==> pred(#[trigger] parts[1][i]));
                assert(forall|i: int| 0 <= i < parts[2].len() ==> pred(#[trigger] parts[2][i]));
                assert(forall|i: int| 0 <= i < parts[3].len() ==> pred(#[trigger] parts[3][i]));
                lemma_all_add(parts[0], parts[1], pred);
                lemma_all_add(parts[0] + parts[1], parts[2], pred);
                lemma_all_add(parts[0] + parts[1] + parts[2], parts[3], pred);
            },
            Tree::Leaf(b) => {
                let x = boundary_pairs_3d(l, r, m, f)[0];
                assert(leaf_at(l, Seq::<int>::empty()) == Some(x.1));
                assert(leaf_at(r, Seq::<int>::empty()) == Some(x.2));
                assert(meet_across_3d(Seq::<int>::empty(), Seq::<int>::empty(), m));
                assert(pair_meets_3d(l, r, m, x));
            },
        },
    }
}

/// The face that a cell turns to its neighbour along axis bit `m`: right, up or front.
pub open spec fn axis_face(m: int) -> u8 {
    if m == 1 {
        2
    } else if m == 2 {
        4
    } else {
        16
    }
}

/// The two cells of `x` are leaves of `t` that meet across a face of the octree: below some
/// root of `t` (reached by path `c`) they lie in neighbouring octants `i` and `i + m` along
/// axis bit `m`, on either side of the face between them, and `x`'s face is the one that the
/// first leaf turns to the second (`R`, `U` or `F`).
pub open spec fn leaves_meet_3d<P>(t: Tree<SubdivisionCell<P>, D3>, x: PairView<P>) -> bool {
    exists|c: Seq<int>, i: int, m: int, p: Seq<int>, q: Seq<int>|
        (m == 1 || m == 2 || m == 4) && 0 <= i && i + m < 8 && !subcell_high(i, m) && x.0
            == axis_face(m) && #[trigger] leaf_at(t, c + seq![i] + p) == Some(x.1)
            && #[trigger] leaf_at(t, c + seq![i + m] + q) == Some(x.2) && meet_across_3d(p, q, m)
}

proof fn lemma_leaves_meet_child_3d<P>(t: Tree<SubdivisionCell<P>, D3>, k: int, x: PairView<P>)
    requires
        t is Root,
        0 <= k < t->Root_0@.len(),
        leaves_meet_3d(*t->Root_0@[k], x),
    ensures
        leaves_meet_3d(t, x),
{
    let ch = *t->Root_0@[k];
    let (c, i, m, p, q) = choose|c: Seq<int>, i: int, m: int, p: Seq<int>, q: Seq<int>|
        (m == 1 || m == 2 || m == 4) && 0 <= i && i + m < 8 && !subcell_high(i, m) && x.0
            == axis_face(m) && #[trigger] leaf_at(ch, c + seq![i] + p) == Some(x.1)
            && #[trigger] leaf_at(ch, c + seq![i + m] + q) == Some(x.2) && meet_across_3d(p, q, m);
    let c2 = seq![k] + c;
    lemma_leaf_at_cons(t, k, c + seq![i] + p);
    lemma_leaf_at_cons(t, k, c + seq![i + m] + q);
    assert(c2 + seq![i] + p =~= seq![k] + (c + seq![i] + p));
    assert(c2 + seq![i + m] + q =~= seq![k] + (c + seq![i + m] + q));
    assert(leaf_at(t, c2 + seq![i] + p) == Some(x.1));
    assert(leaf_at(t, c2 + seq![i + m] + q) == Some(x.2));
}

proof fn lemma_leaves_meet_boundary_3d<P>(
    t: Tree<SubdivisionCell<P>, D3>,
    i: int,
    m: int,
    x: PairView<P>,
)
    requires
        t is Root,
        t->Root_0@.len() == 8,
        m == 1 || m == 2 || m == 4,
        0 <= i,
        i + m < 8,
        !subcell_high(i, m),
        x.0 == axis_face(m),
        pair_meets_3d(*t->Root_0@[i], *t->Root_0@[i + m], m, x),
    ensures
        leaves_meet_3d(t, x),
{
    let (l, r) = (*t->Root_0@[i], *t->Root_0@[i + m]);
    let (p, q) = choose|p: Seq<int>, q: Seq<int>|
        #[trigger] leaf_at(l, p) == Some(x.1) && #[trigger] leaf_at(r, q) == Some(x.2)
            && meet_across_3d(p, q, m);
    let c = Seq::<int>::empty();
    lemma_leaf_at_cons(t, i, p);
    lemma_leaf_at_cons(t, i + m, q);
    assert(c + seq![i] + p =~= seq![i] + p);
    assert(c + seq![i + m] + q =~= seq![i + m] + q);
    assert(leaf_at(t, c + seq![i] + p) == Some(x.1));
    assert(leaf_at(t, c + seq![i + m] + q) == Some(x.2));
}

/// Each pair of an octree's dual graph joins two of its leaves that meet across a face,
/// labelled with that face.
#[verifier::spinoff_prover]
#[verifier::rlimit(40)]
pub proof fn lemma_dual_pairs_3d_meet<P>(t: Tree<SubdivisionCell<P>, D3>)
    ensures
        forall|i: int|
            0 <= i < dual_pairs_3d(t).len() ==> leaves_meet_3d(t, #[trigger] dual_pairs_3d(t)[i]),
    decreases t,
{
    let pred = |x: PairView<P>| leaves_meet_3d(t, x);
    if let Tree::Root(c, _) = t {
        if c@.len() == 8 {
            let lhs = seq![0int, 2, 4, 6, 0, 1, 4, 5, 0, 1, 2, 3];
            let ms = seq![1int, 1, 1, 1, 2, 2, 2, 2, 4, 4, 4, 4];
            let parts = Seq::new(
                20,
                |k: int|
                    if k < 8 {
                        dual_pairs_3d(*c@[k])
                    } else {
                        boundary_pairs_3d(
                            *c@[lhs[k - 8]],
                            *c@[lhs[k - 8] + ms[k - 8]],
                            ms[k - 8],
                            axis_face(ms[k - 8]),
                        )
                    },
            );
            assert forall|k: int, j: int|
                0 <= k < 20 && 0 <= j < parts[k].len() implies pred(#[trigger] parts[k][j]) by {
                if k < 8 {
                    lemma_dual_pairs_3d_meet(*c@[k]);
                    lemma_leaves_meet_child_3d(t, k, parts[k][j]);
                } else {
                    let q = k - 8;
                    let (i, m) = (lhs[q], ms[q]);
                    lemma_boundary_pairs_3d_meet(*c@[i], *c@[i + m], m, axis_face(m));
                    lemma_boundary_pairs_3d_sides(*c@[i], *c@[i + m], m, axis_face(m));
                    lemma_leaves_meet_boundary_3d(t, i, m, parts[k][j]);
                }
            }
            assert(dual_pairs_3d(t) == parts[0] + parts[1] + parts[2] + parts[3] + parts[4] + parts[5]
                + parts[6] + parts[7] + parts[8] + parts[9] + parts[10] + parts[11] + parts[12]
                + parts[13] + parts[14] + parts[15] + parts[16] + parts[17] + parts[18] + parts[19]);
            assert(forall|j: int| 0 <= j < parts[0].len() ==> pred(#[trigger] parts[0][j]));
            let mut acc = parts[0];
            assert(forall|j: int| 0 <= j < parts[1].len() ==> pred(#[trigger] parts[1][j]));
            lemma_all_add(acc, parts[1], pred);
            acc = acc + parts[1];
            assert(forall|j: int| 0 <= j < parts[2].len() ==> pred(#[trigger] parts[2][j]));
            lemma_all_add(acc, parts[2], pred);
            acc = acc + parts[2];
            assert(forall|j: int| 0 <= j < parts[3].len() ==> pred(#[trigger] parts[3][j]));
            lemma_all_add(acc, parts[3], pred);
            acc = acc + parts[3];
            assert(forall|j: int| 0 <= j < parts[4].len() ==> pred(#[trigger] parts[4][j]));
            lemma_all_add(acc, parts[4], pred);
            acc = acc + parts[4];
            assert(forall|j: int| 0 <= j < parts[5].len() ==> pred(#[trigger] parts[5][j]));
            lemma_all_add(acc, parts[5], pred);
            acc = acc + parts[5];
            assert(forall|j: int| 0 <= j < parts[6].len() ==> pred(#[trigger] parts[6][j]));
            lemma_all_add(acc, parts[6], pred);
            acc = acc + parts[6];
            assert(forall|j: int| 0 <= j < parts[7].len() ==> pred(#[trigger] parts[7][j]));
            lemma_all_add(acc, parts[7], pred);
            acc = acc + parts[7];
            assert(forall|j: int| 0 <= j < parts[8].len() ==> pred(#[trigger] parts[8][j]));
            lemma_all_add(acc, parts[8], pred);
            acc = acc + parts[8];
            assert(forall|j: int| 0 <= j < parts[9].len() ==> pred(#[trigger] parts[9][j]));
            lemma_all_add(acc, parts[9], pred);
            acc = acc + parts[9];
            assert(forall|j: int| 0 <= j < parts[10].len() ==> pred(#[trigger] parts[10][j]));
            lemma_all_add(acc, parts[10], pred);
            acc = acc + parts[10];
            assert(forall|j: int| 0 <= j < parts[11].len() ==> pred(#[trigger] parts[11][j]));
            lemma_all_add(acc, parts[11], pred);
            acc = acc + parts[11];
            assert(forall|j: int| 0 <= j < parts[12].len() ==> pred(#[trigger] parts[12][j]));
            lemma_all_add(acc, parts[12], pred);
            acc = acc + parts[12];
            assert(forall|j: int| 0 <= j < parts[13].len() ==> pred(#[trigger] parts[13][j]));
            lemma_all_add(acc, parts[13], pred);
            acc = acc + parts[13];
            assert(forall|j: int| 0 <= j < parts[14].len() ==> pred(#[trigger] parts[14][j]));
            lemma_all_add(acc, parts[14], pred);
            acc = acc + parts[14];
            assert(forall|j: int| 0 <= j < parts[15].len() ==> pred(#[trigger] parts[15][j]));
            lemma_all_add(acc, parts[15], pred);
            acc = acc + parts[15];
            assert(forall|j: int| 0 <= j < parts[16].len() ==> pred(#[trigger] parts[16][j]));
            lemma_all_add(acc, parts[16], pred);
            acc = acc + parts[16];
            assert(forall|j: int| 0 <= j < parts[17].len() ==> pred(#[trigger] parts[17][j]));
            lemma_all_add(acc, parts[17], pred);
            acc = acc + parts[17];
            assert(forall|j: int| 0 <= j < parts[18].len() ==> pred(#[trigger] parts[18][j]));
            lemma_all_add(acc, parts[18], pred);
            acc = acc + parts[18];
            assert(forall|j: int| 0 <= j < parts[19].len() ==> pred(#[trigger] parts[19][j]));
            lemma_all_add(acc, parts[19], pred);
            acc = acc + parts[19];
        }
    }
}


/// What one part of a concatenation holds, the whole holds.
proof fn lemma_contains_add<T>(a: Seq<T>, b: Seq<T>, x: T)
    ensures
        a.contains(x) ==> (a + b).contains(x),
        b.contains(x) ==> (a + b).contains(x),
{
    if a.contains(x) {
        let i = choose|i: int| 0 <= i < a.len() && a[i] == x;
        assert((a + b)[i] == x);
    }
    if b.contains(x) {
        let i = choose|i: int| 0 <= i < b.len() && b[i] == x;
        assert((a + b)[a.len() + i] == x);
    }
}

/// Every pair of leaves of `l` and `r` that meet across the boundary between them along
/// axis bit `m` is among the boundary pairs, with face `f`.
pub proof fn lemma_boundary_pairs_2d_complete<P>(
    l: Tree<SubdivisionCell<P>, D2>,
    r: Tree<SubdivisionCell<P>, D2>,
    m: int,
    f: u8,
    p: Seq<int>,
    q: Seq<int>,
)
    requires
        m == 1 || m == 2,
        branches(l, 4),
        branches(r, 4),
        leaf_at(l, p) is Some,
        leaf_at(r, q) is Some,
        meet_across_2d(p, q, m),
    ensures
        boundary_pairs_2d(l, r, m, f).contains((f, leaf_at(l, p)->0, leaf_at(r, q)->0)),
    decreases p.len() + q.len(),
{
    lemma_branches_children(l, 4);
    lemma_branches_children(r, 4);
    let x = (f, leaf_at(l, p)->0, leaf_at(r, q)->0);
    let (i0, i1) = (low_quadrant(m, 0), low_quadrant(m, 1));
    let p1 = p.drop_first();
    let q1 = q.drop_first();
    match l {
        Tree::Leaf(_) => match r {
            Tree::Leaf(_) => {
                assert(boundary_pairs_2d(l, r, m, f)[0] == x);
            },
            Tree::Root(rc, _) => {
                let q0 = q[0];
                assert(0 <= q0 < 4);
                assert(!subcell_high(q0, m));
                assert(q0 == i0 || q0 == i1);
                assert(meet_across_2d(p, q1, m)) by {
                    assert forall|k: int| 0 <= k < q1.len() implies !subcell_high(
                        #[trigger] q1[k],
                        m,
                    ) by {
                        assert(q1[k] == q[k + 1]);
                    }
                }
                lemma_boundary_pairs_2d_complete(l, *rc@[q0], m, f, p, q1);
                lemma_contains_add(
                    boundary_pairs_2d(l, *rc@[i0], m, f),
                    boundary_pairs_2d(l, *rc@[i1], m, f),
                    x,
                );
            },
        },
        Tree::Root(lc, _) => {
            let p0 = p[0];
            assert(0 <= p0 < 4);
            assert(subcell_high(p0, m));
            match r {
                Tree::Leaf(_) => {
                    assert(p0 == i0 + m || p0 == i1 + m);
                    assert(meet_across_2d(p1, q, m)) by {
                        assert forall|k: int| 0 <= k < p1.len() implies subcell_high(
                            #[trigger] p1[k],
                            m,
                        ) by {
                            assert(p1[k] == p[k + 1]);
                        }
                    }
                    lemma_boundary_pairs_2d_complete(*lc@[p0], r, m, f, p1, q);
                    lemma_contains_add(
                        boundary_pairs_2d(*lc@[i0 + m], r, m, f),
                        boundary_pairs_2d(*lc@[i1 + m], r, m, f),
                        x,
                    );
                },
                Tree::Root(rc, _) => {
                    let q0 = q[0];
                    assert(0 <= q0 < 4);
                    assert(!subcell_high(q0, m));
                    assert(subcell_high(p0, 3 - m) == subcell_high(q0, 3 - m));
                    assert((q0 == i0 || q0 == i1) && p0 == q0 + m);
                    assert(meet_across_2d(p1, q1, m)) by {
                        assert forall|k: int| 0 <= k < p1.len() implies subcell_high(#[trigger] p1[k], m) by {
                            assert(p1[k] == p[k + 1]);
                        }
                        assert forall|k: int| 0 <= k < q1.len() implies !subcell_high(
                            #[trigger] q1[k],
                            m,
                        ) by {
                            assert(q1[k] == q[k + 1]);
                        }
                        assert forall|k: int| 0 <= k < p1.len() && k < q1.len() implies subcell_high(
                            #[trigger] p1[k],
                            3 - m,
                        ) == subcell_high(#[trigger] q1[k], 3 - m) by {
                            assert(p1[k] == p[k + 1]);
                            assert(q1[k] == q[k + 1]);
                        }
                    }
                    lemma_boundary_pairs_2d_complete(*lc@[p0], *rc@[q0], m, f, p1, q1);
                    lemma_contains_add(
                        boundary_pairs_2d(*lc@[i0 + m], *rc@[i0], m, f),
                        boundary_pairs_2d(*lc@[i1 + m], *rc@[i1], m, f),
                        x,
                    );
                },
            }
        },
    }
}

/// Each of the parts that make up a quadtree's dual graph lies within it.
proof fn lemma_dual_pairs_2d_parts<P>(t: Tree<SubdivisionCell<P>, D2>, x: PairView<P>)
    requires
        t is Root,
        t->Root_0@.len() == 4,
    ensures
        ({
            let c = t->Root_0@;
            &&& forall|k: int|
                0 <= k < 4 && #[trigger] dual_pairs_2d(*c[k]).contains(x) ==> dual_pairs_2d(
                    t,
                ).contains(x)
            &&& boundary_pairs_2d(*c[0], *c[1], 1, 2).contains(x) ==> dual_pairs_2d(t).contains(x)
            &&& boundary_pairs_2d(*c[2], *c[3], 1, 2).contains(x) ==> dual_pairs_2d(t).contains(x)
            &&& boundary_pairs_2d(*c[0], *c[2], 2, 4).contains(x) ==> dual_pairs_2d(t).contains(x)
            &&& boundary_pairs_2d(*c[1], *c[3], 2, 4).contains(x) ==> dual_pairs_2d(t).contains(x)
        }),
{
    let c = t->Root_0@;
    let d = seq![
        dual_pairs_2d(*c[0]),
        dual_pairs_2d(*c[1]),
        dual_pairs_2d(*c[2]),
        dual_pairs_2d(*c[3]),
        boundary_pairs_2d(*c[0], *c[1], 1, 2),
        boundary_pairs_2d(*c[2], *c[3], 1, 2),
        boundary_pairs_2d(*c[0], *c[2], 2, 4),
        boundary_pairs_2d(*c[1], *c[3], 2, 4),
    ];
    let s1 = d[0] + d[1];
    let s2 = s1 + d[2];
    let s3 = s2 + d[3];
    let s4 = s3 + d[4];
    let s5 = s4 + d[5];
    let s6 = s5 + d[6];
    let s7 = s6 + d[7];
    lemma_contains_add(d[0], d[1], x);
    lemma_contains_add(s1, d[2], x);
    lemma_contains_add(s2, d[3], x);
    lemma_contains_add(s3, d[4], x);
    lemma_contains_add(s4, d[5], x);
    lemma_contains_add(s5, d[6], x);
    lemma_contains_add(s6, d[7], x);
    assert(s7 == dual_pairs_2d(t));
    assert forall|k: int|
        0 <= k < 4 && #[trigger] dual_pairs_2d(*c[k]).contains(x) implies dual_pairs_2d(
        t,
    ).contains(x) by {
        assert(d[k] == dual_pairs_2d(*c[k]));
    }
}

/// Leaves that meet across a face below the root reached by path `c` form a pair of the
/// quadtree's dual graph.
proof fn lemma_dual_pairs_2d_complete_at<P>(
    t: Tree<SubdivisionCell<P>, D2>,
    c: Seq<int>,
    i: int,
    m: int,
    p: Seq<int>,
    q: Seq<int>,
    x: PairView<P>,
)
    requires
        branches(t, 4),
        m == 1 || m == 2,
        0 <= i < 4,
        !subcell_high(i, m),
        x.0 == 2 * m,
        leaf_at(t, c + seq![i] + p) == Some(x.1),
        leaf_at(t, c + seq![i + m] + q) == Some(x.2),
        meet_across_2d(p, q, m),
    ensures
        dual_pairs_2d(t).contains(x),
    decreases c.len(),
{
    lemma_branches_children(t, 4);
    let path = c + seq![i] + p;
    assert(path.len() > 0 && path[0] == (if c.len() == 0 { i } else { c[0] }));
    let cs = t->Root_0@;
    lemma_dual_pairs_2d_parts(t, x);
    if c.len() == 0 {
        assert(c + seq![i] + p =~= seq![i] + p);
        assert(c + seq![i + m] + q =~= seq![i + m] + q);
        assert(i + m < 4);
        lemma_leaf_at_cons(t, i, p);
        lemma_leaf_at_cons(t, i + m, q);
        lemma_boundary_pairs_2d_complete(*cs[i], *cs[i + m], m, x.0, p, q);
        assert(i == 0 || i == 1 || i == 2);
    } else {
        let k = c[0];
        let c1 = c.drop_first();
        assert(c + seq![i] + p =~= seq![k] + (c1 + seq![i] + p));
        assert(c + seq![i + m] + q =~= seq![k] + (c1 + seq![i + m] + q));
        assert(0 <= k < 4);
        lemma_leaf_at_cons(t, k, c1 + seq![i] + p);
        lemma_leaf_at_cons(t, k, c1 + seq![i + m] + q);
        lemma_dual_pairs_2d_complete_at(*cs[k], c1, i, m, p, q, x);
    }
}

/// A quadtree's dual graph holds exactly the pairs of its leaves that meet across a face,
/// each labelled with the face that the first turns to the second.
pub proof fn lemma_dual_pairs_2d_exact<P>(t: Tree<SubdivisionCell<P>, D2>, x: PairView<P>)
    requires
        branches(t, 4),
    ensures
        dual_pairs_2d(t).contains(x) <==> leaves_meet_2d(t, x),
{
    if dual_pairs_2d(t).contains(x) {
        lemma_dual_pairs_2d_meet(t);
        let j = choose|j: int| 0 <= j < dual_pairs_2d(t).len() && dual_pairs_2d(t)[j] == x;
        assert(leaves_meet_2d(t, dual_pairs_2d(t)[j]));
    }
    if leaves_meet_2d(t, x) {
        let (c, i, m, p, q) = choose|c: Seq<int>, i: int, m: int, p: Seq<int>, q: Seq<int>|
            (m == 1 || m == 2) && 0 <= i < 4 && !subcell_high(i, m) && x.0 == 2 * m
                && #[trigger] leaf_at(t, c + seq![i] + p) == Some(x.1) && #[trigger] leaf_at(
                t,
                c + seq![i + m] + q,
            ) == Some(x.2) && meet_across_2d(p, q, m);
        lemma_dual_pairs_2d_complete_at(t, c, i, m, p, q, x);
    }
}

/// Every pair of leaves of `l` and `r` that meet across the face between them along axis
/// bit `m` is among the boundary pairs, with face `f`.
pub proof fn lemma_boundary_pairs_3d_complete<P>(
    l: Tree<SubdivisionCell<P>, D3>,
    r: Tree<SubdivisionCell<P>, D3>,
    m: int,
    f: u8,
    p: Seq<int>,
    q: Seq<int>,
)
    requires
        m == 1 || m == 2 || m == 4,
        branches(l, 8),
        branches(r, 8),
        leaf_at(l, p) is Some,
        leaf_at(r, q) is Some,
        meet_across_3d(p, q, m),
    ensures
        boundary_pairs_3d(l, r, m, f).contains((f, leaf_at(l, p)->0, leaf_at(r, q)->0)),
    decreases p.len() + q.len(),
{
    lemma_branches_children(l, 8);
    lemma_branches_children(r, 8);
    let x = (f, leaf_at(l, p)->0, leaf_at(r, q)->0);
    let o = seq![low_octant(m, 0), low_octant(m, 1), low_octant(m, 2), low_octant(m, 3)];
    let p1 = p.drop_first();
    let q1 = q.drop_first();
    match l {
        Tree::Leaf(_) => match r {
            Tree::Leaf(_) => {
                assert(boundary_pairs_3d(l, r, m, f)[0] == x);
            },
            Tree::Root(rc, _) => {
                let q0 = q[0];
                assert(0 <= q0 < 8);
                assert(!subcell_high(q0, m));
                assert(q0 == o[0] || q0 == o[1] || q0 == o[2] || q0 == o[3]);
                assert(meet_across_3d(p, q1, m)) by {
                    assert forall|k: int| 0 <= k < q1.len() implies !subcell_high(
                        #[trigger] q1[k],
                        m,
                    ) by {
                        assert(q1[k] == q[k + 1]);
                    }
                }
                lemma_boundary_pairs_3d_complete(l, *rc@[q0], m, f, p, q1);
                let b = seq![
                    boundary_pairs_3d(l, *rc@[o[0]], m, f),
                    boundary_pairs_3d(l, *rc@[o[1]], m, f),
                    boundary_pairs_3d(l, *rc@[o[2]], m, f),
                    boundary_pairs_3d(l, *rc@[o[3]], m, f),
                ];
                lemma_contains_add(b[0], b[1], x);
                lemma_contains_add(b[0] + b[1], b[2], x);
                lemma_contains_add(b[0] + b[1] + b[2], b[3], x);
            },
        },
        Tree::Root(lc, _) => {
            let p0 = p[0];
            assert(0 <= p0 < 8);
            assert(subcell_high(p0, m));
            match r {
                Tree::Leaf(_) => {
                    assert(p0 == o[0] + m || p0 == o[1] + m || p0 == o[2] + m || p0 == o[3] + m);
                    assert(meet_across_3d(p1, q, m)) by {
                        assert forall|k: int| 0 <= k < p1.len() implies subcell_high(
                            #[trigger] p1[k],
                            m,
                        ) by {
                            assert(p1[k] == p[k + 1]);
                        }
                    }
                    lemma_boundary_pairs_3d_complete(*lc@[p0], r, m, f, p1, q);
                    let b = seq![
                        boundary_pairs_3d(*lc@[o[0] + m], r, m, f),
                        boundary_pairs_3d(*lc@[o[1] + m], r, m, f),
                        boundary_pairs_3d(*lc@[o[2] + m], r, m, f),
                        boundary_pairs_3d(*lc@[o[3] + m], r, m, f),
                    ];
                    lemma_contains_add(b[0], b[1], x);
                    lemma_contains_add(b[0] + b[1], b[2], x);
                    lemma_contains_add(b[0] + b[1] + b[2], b[3], x);
                },
                Tree::Root(rc, _) => {
                    let q0 = q[0];
                    assert(0 <= q0 < 8);
                    assert(!subcell_high(q0, m));
                    assert(same_halves(p0, q0, m));
                    assert((q0 == o[0] || q0 == o[1] || q0 == o[2] || q0 == o[3]) && p0 == q0 + m);
                    assert(meet_across_3d(p1, q1, m)) by {
                        assert forall|k: int| 0 <= k < p1.len() implies subcell_high(
                            #[trigger] p1[k],
                            m,
                        ) by {
                            assert(p1[k] == p[k + 1]);
                        }
                        assert forall|k: int| 0 <= k < q1.len() implies !subcell_high(
                            #[trigger] q1[k],
                            m,
                        ) by {
                            assert(q1[k] == q[k + 1]);
                        }
                        assert forall|k: int| 0 <= k < p1.len() && k < q1.len() implies same_halves(
                            #[trigger] p1[k],
                            #[trigger] q1[k],
                            m,
                        ) by {
                            assert(p1[k] == p[k + 1]);
                            assert(q1[k] == q[k + 1]);
                        }
                    }
                    lemma_boundary_pairs_3d_complete(*lc@[p0], *rc@[q0], m, f, p1, q1);
                    let b = seq![
                        boundary_pairs_3d(*lc@[o[0] + m], *rc@[o[0]], m, f),
                        boundary_pairs_3d(*lc@[o[1] + m], *rc@[o[1]], m, f),
                        boundary_pairs_3d(*lc@[o[2] + m], *rc@[o[2]], m, f),
                        boundary_pairs_3d(*lc@[o[3] + m], *rc@[o[3]], m, f),
                    ];
                    lemma_contains_add(b[0], b[1], x);
                    lemma_contains_add(b[0] + b[1], b[2], x);
                    lemma_contains_add(b[0] + b[1] + b[2], b[3], x);
                },
            }
        },
    }
}

/// Each of the parts that make up an octree's dual graph lies within it.
#[verifier::rlimit(60)]
#[verifier::spinoff_prover]
proof fn lemma_dual_pairs_3d_parts<P>(t: Tree<SubdivisionCell<P>, D3>, x: PairView<P>)
    requires
        t is Root,
        t->Root_0@.len() == 8,
    ensures
        forall|k: int|
            0 <= k < 8 && #[trigger] dual_pairs_3d(*t->Root_0@[k]).contains(x) ==> dual_pairs_3d(
                t,
            ).contains(x),
        forall|i: int, m: int|
            (m == 1 || m == 2 || m == 4) && 0 <= i && i + m < 8 && !subcell_high(i, m)
                && #[trigger] boundary_pairs_3d(*t->Root_0@[i], *t->Root_0@[i + m], m, axis_face(m)).contains(x)
                ==> dual_pairs_3d(t).contains(x),
{
    let c = t->Root_0@;
    let d = seq![
        dual_pairs_3d(*c[0]),
        dual_pairs_3d(*c[1]),
        dual_pairs_3d(*c[2]),
        dual_pairs_3d(*c[3]),
        dual_pairs_3d(*c[4]),
        dual_pairs_3d(*c[5]),
        dual_pairs_3d(*c[6]),
        dual_pairs_3d(*c[7]),
        boundary_pairs_3d(*c[0], *c[1], 1, 2),
        boundary_pairs_3d(*c[2], *c[3], 1, 2),
        boundary_pairs_3d(*c[4], *c[5], 1, 2),
        boundary_pairs_3d(*c[6], *c[7], 1, 2),
        boundary_pairs_3d(*c[0], *c[2], 2, 4),
        boundary_pairs_3d(*c[1], *c[3], 2, 4),
        boundary_pairs_3d(*c[4], *c[6], 2, 4),
        boundary_pairs_3d(*c[5], *c[7], 2, 4),
        boundary_pairs_3d(*c[0], *c[4], 4, 16),
        boundary_pairs_3d(*c[1], *c[5], 4, 16),
        boundary_pairs_3d(*c[2], *c[6], 4, 16),
        boundary_pairs_3d(*c[3], *c[7], 4, 16),
    ];
    let s0 = d[0];
    lemma_contains_add(s0, d[1], x);
    let s1 = s0 + d[1];
    lemma_contains_add(s1, d[2], x);
    let s2 = s1 + d[2];
    lemma_contains_add(s2, d[3], x);
    let s3 = s2 + d[3];
    lemma_contains_add(s3, d[4], x);
    let s4 = s3 + d[4];
    lemma_contains_add(s4, d[5], x);
    let s5 = s4 + d[5];
    lemma_contains_add(s5, d[6], x);
    let s6 = s5 + d[6];
    lemma_contains_add(s6, d[7], x);
    let s7 = s6 + d[7];
    lemma_contains_add(s7, d[8], x);
    let s8 = s7 + d[8];
    lemma_contains_add(s8, d[9], x);
    let s9 = s8 + d[9];
    lemma_contains_add(s9, d[10], x);
    let s10 = s9 + d[10];
    lemma_contains_add(s10, d[11], x);
    let s11 = s10 + d[11];
    lemma_contains_add(s11, d[12], x);
    let s12 = s11 + d[12];
    lemma_contains_add(s12, d[13], x);
    let s13 = s12 + d[13];
    lemma_contains_add(s13, d[14], x);
    let s14 = s13 + d[14];
    lemma_contains_add(s14, d[15], x);
    let s15 = s14 + d[15];
    lemma_contains_add(s15, d[16], x);
    let s16 = s15 + d[16];
    lemma_contains_add(s16, d[17], x);
    let s17 = s16 + d[17];
    lemma_contains_add(s17, d[18], x);
    let s18 = s17 + d[18];
    lemma_contains_add(s18, d[19], x);
    let s19 = s18 + d[19];
    assert(s19 == dual_pairs_3d(t));
    assert forall|k: int|
        0 <= k < 8 && #[trigger] dual_pairs_3d(*c[k]).contains(x) implies dual_pairs_3d(
        t,
    ).contains(x) by {
        assert(d[k] == dual_pairs_3d(*c[k]));
    }
    assert forall|i: int, m: int|
        (m == 1 || m == 2 || m == 4) && 0 <= i && i + m < 8 && !subcell_high(i, m)
            && #[trigger] boundary_pairs_3d(*c[i], *c[i + m], m, axis_face(m)).contains(x)
            implies dual_pairs_3d(t).contains(x) by {
        let k = if m == 1 {
            8 + i / 2
        } else if m == 2 {
            if i < 2 { 12 + i } else { 10 + i }
        } else {
            16 + i
        };
        if m == 1 {
            assert(i == 0 || i == 2 || i == 4 || i == 6);
        } else if m == 2 {
            assert(i == 0 || i == 1 || i == 4 || i == 5);
        }
        assert(d[k] == boundary_pairs_3d(*c[i], *c[i + m], m, axis_face(m)));
    }
}

/// Leaves that meet across a face below the root reached by path `c` form a pair of the
/// octree's dual graph.
proof fn lemma_dual_pairs_3d_complete_at<P>(
    t: Tree<SubdivisionCell<P>, D3>,
    c: Seq<int>,
    i: int,
    m: int,
    p: Seq<int>,
    q: Seq<int>,
    x: PairView<P>,
)
    requires
        branches(t, 8),
        m == 1 || m == 2 || m == 4,
        0 <= i,
        i + m < 8,
        !subcell_high(i, m),
        x.0 == axis_face(m),
        leaf_at(t, c + seq![i] + p) == Some(x.1),
        leaf_at(t, c + seq![i + m] + q) == Some(x.2),
        meet_across_3d(p, q, m),
    ensures
        dual_pairs_3d(t).contains(x),
    decreases c.len(),
{
    lemma_branches_children(t, 8);
    let path = c + seq![i] + p;
    assert(path.len() > 0 && path[0] == (if c.len() == 0 { i } else { c[0] }));
    let cs = t->Root_0@;
    lemma_dual_pairs_3d_parts(t, x);
    if c.len() == 0 {
        assert(c + seq![i] + p =~= seq![i] + p);
        assert(c + seq![i + m] + q =~= seq![i + m] + q);
        lemma_leaf_at_cons(t, i, p);
        lemma_leaf_at_cons(t, i + m, q);
        lemma_boundary_pairs_3d_complete(*cs[i], *cs[i + m], m, x.0, p, q);
    } else {
        let k = c[0];
        let c1 = c.drop_first();
        assert(c + seq![i] + p =~= seq![k] + (c1 + seq![i] + p));
        assert(c + seq![i + m] + q =~= seq![k] + (c1 + seq![i + m] + q));
        assert(0 <= k < 8);
        lemma_leaf_at_cons(t, k, c1 + seq![i] + p);
        lemma_leaf_at_cons(t, k, c1 + seq![i + m] + q);
        lemma_dual_pairs_3d_complete_at(*cs[k], c1, i, m, p, q, x);
    }
}

/// An octree's dual graph holds exactly the pairs of its leaves that meet across a face,
/// each labelled with the face that the first turns to the second.
pub proof fn lemma_dual_pairs_3d_exact<P>(t: Tree<SubdivisionCell<P>, D3>, x: PairView<P>)
    requires
        branches(t, 8),
    ensures
        dual_pairs_3d(t).contains(x) <==> leaves_meet_3d(t, x),
{
    if dual_pairs_3d(t).contains(x) {
        lemma_dual_pairs_3d_meet(t);
        let j = choose|j: int| 0 <= j < dual_pairs_3d(t).len() && dual_pairs_3d(t)[j] == x;
        assert(leaves_meet_3d(t, dual_pairs_3d(t)[j]));
    }
    if leaves_meet_3d(t, x) {
        let (c, i, m, p, q) = choose|c: Seq<int>, i: int, m: int, p: Seq<int>, q: Seq<int>|
            (m == 1 || m == 2 || m == 4) && 0 <= i && i + m < 8 && !subcell_high(i, m) && x.0
                == axis_face(m) && #[trigger] leaf_at(t, c + seq![i] + p) == Some(x.1)
                && #[trigger] leaf_at(t, c + seq![i + m] + q) == Some(x.2) && meet_across_3d(p, q, m);
        lemma_dual_pairs_3d_complete_at(t, c, i, m, p, q, x);
    }
}

} // verus!
