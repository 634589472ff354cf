//! Subdivision trees: trees whose leaves are bounded cells classified against a surface.
use vstd::prelude::*;
use core::marker::PhantomData;
use vstd::arithmetic::power2::lemma_pow2_pos;
use crate::tree::{
    Tree, tree_leaves, full_grid, lemma_forest_full_grid, leaf_depth_set, lemma_full_grid_is_grid, forest_leaves, same_shape, forest_same_shape, branches, lemma_branches_children, lemma_branches_leaves,
    lemma_branches_root, lemma_forest_all, lemma_forest_ends,
};
use crate::vector_space::{D2, D3, VectorSubdivision};

verus! {

/// State of a cell in an implicit surface sampling grid
#[derive(Debug, Clone, Copy, PartialEq, Eq, Structural, PartialOrd, Ord, Hash)]
pub enum CellType {
    /// Cell is fully outside the isosurface
    Empty,
    /// Cell intersects the isosurface
    Contour,
    /// Cell is fully inside the isosurface
    Full,
}

/// The type of a cell whose corner samples lie inside the surface where `inside` is true.
pub open spec fn cell_type_of(inside: Seq<bool>) -> CellType {
    if forall|i: int| 0 <= i < inside.len() ==> #[trigger] inside[i] {
        CellType::Full
    } else if forall|i: int| 0 <= i < inside.len() ==> !#[trigger] inside[i] {
        CellType::Empty
    } else {
        CellType::Contour
    }
}

impl CellType {
    /// Classify a cell by its samples: `Full` when every sample lies inside the surface,
    /// `Empty` when none does, `Contour` otherwise.
    pub fn from_inside(inside: &Vec<bool>) -> (r: CellType)
        ensures
            r == cell_type_of(inside@),
            r == CellType::Full <==> forall|i: int| 0 <= i < inside@.len() ==> #[trigger] inside@[i],
            r == CellType::Empty <==> inside@.len() > 0 && forall|i: int|
                0 <= i < inside@.len() ==> !#[trigger] inside@[i],
            r == CellType::Contour <==> exists|i: int, j: int|
                0 <= i < inside@.len() && 0 <= j < inside@.len() && #[trigger] inside@[i]
                    && !#[trigger] inside@[j],
    {
        let mut all_in = true;
        let mut all_out = true;
        let mut i: usize = 0;
        while i < inside.len()
            invariant
                i <= inside@.len(),
                all_in == forall|j: int| 0 <= j < i ==> #[trigger] inside@[j],
                all_out == forall|j: int| 0 <= j < i ==> !#[trigger] inside@[j],
            decreases inside@.len() - i,
        {
            if inside[i] {
                all_out = false;
            } else {
                all_in = false;
            }
            i += 1;
        }
        proof {
            lemma_cell_type_of(inside@);
        }
        if all_in {
            CellType::Full
        } else if all_out {
            CellType::Empty
        } else {
            CellType::Contour
        }
    }
}

/// A cell is `Full` exactly when every sample lies inside, `Empty` exactly when it has samples
/// and none lies inside, and `Contour` exactly when one sample lies inside and another does not.
pub proof fn lemma_cell_type_of(inside: Seq<bool>)
    ensures
        cell_type_of(inside) == CellType::Full <==> forall|i: int|
            0 <= i < inside.len() ==> #[trigger] inside[i],
        cell_type_of(inside) == CellType::Empty <==> inside.len() > 0 && forall|i: int|
            0 <= i < inside.len() ==> !#[trigger] inside[i],
        cell_type_of(inside) == CellType::Contour <==> exists|i: int, j: int|
            0 <= i < inside.len() && 0 <= j < inside.len() && #[trigger] inside[i] && !#[trigger] inside[j],
{
    if forall|i: int| 0 <= i < inside.len() ==> #[trigger] inside[i] {
        if inside.len() > 0 {
            assert(inside[0]);
        }
    } else {
        let i = choose|i: int| 0 <= i < inside.len() && !inside[i];
        if forall|k: int| 0 <= k < inside.len() ==> !#[trigger] inside[k] {
        } else {
            let j = choose|j: int| 0 <= j < inside.len() && inside[j];
            assert(inside[j] && !inside[i]);
        }
    }
}

/// An axis-aligned box, given by its least and greatest corners.
#[derive(Debug, PartialEq)]
pub struct Bounds<P> {
    pub min: P,
    pub max: P,
}

impl<P: Copy> Clone for Bounds<P> {
    fn clone(&self) -> (r: Self)
        ensures
            r == *self,
    {
        Bounds { min: self.min, max: self.max }
    }
}

impl<P: Copy> Copy for Bounds<P> {

}

/// A cell of a subdivision tree: its bounds and how it lies against the surface.
#[derive(Debug, PartialEq)]
pub struct SubdivisionCell<P> {
    pub bounds: Bounds<P>,
    pub ty: CellType,
}

impl<P: Copy> Clone for SubdivisionCell<P> {
    fn clone(&self) -> (r: Self)
        ensures
            r == *self,
    {
        SubdivisionCell { bounds: self.bounds, ty: self.ty }
    }
}

impl<P: Copy> Copy for SubdivisionCell<P> {

}

impl<P> SubdivisionCell<P> {
    /// Whether the cell has type `ty`.
    pub fn is_type(&self, ty: CellType) -> (r: bool)
        ensures
            r == (self.ty == ty),
    {
        self.ty == ty
    }

    /// Whether the cell lies fully outside the surface.
    pub fn is_empty(&self) -> (r: bool)
        ensures
            r == (self.ty == CellType::Empty),
    {
        self.is_type(CellType::Empty)
    }

    /// Whether the cell crosses the surface.
    pub fn is_contour(&self) -> (r: bool)
        ensures
            r == (self.ty == CellType::Contour),
    {
        self.is_type(CellType::Contour)
    }

    /// Whether the cell lies fully inside the surface.
    pub fn is_full(&self) -> (r: bool)
        ensures
            r == (self.ty == CellType::Full),
    {
        self.is_type(CellType::Full)
    }
}

/// The cells of `cells` of type `ty`, in order.
pub open spec fn cells_of_type<P>(cells: Seq<SubdivisionCell<P>>, ty: CellType) -> Seq<
    SubdivisionCell<P>,
> {
    cells.filter(|c: SubdivisionCell<P>| c.ty == ty)
}

impl<P, D> Tree<SubdivisionCell<P>, D> {
    /// The leaves of type `ty`, in order.
    pub fn cells_of_type(&self, ty: CellType) -> (r: Vec<&SubdivisionCell<P>>)
        ensures
            r@.len() == cells_of_type(tree_leaves(*self), ty).len(),
            forall|i: int| 0 <= i < r@.len() ==> *r@[i] == cells_of_type(tree_leaves(*self), ty)[i],
    {
        let leaves = self.iter();
        let ghost s = tree_leaves(*self);
        let mut out: Vec<&SubdivisionCell<P>> = Vec::new();
        let mut i: usize = 0;
        while i < leaves.len()
            invariant
                i <= leaves@.len(),
                leaves@.len() == s.len(),
                forall|j: int| 0 <= j < leaves@.len() ==> *leaves@[j] == s[j],
                out@.len() == cells_of_type(s.subrange(0, i as int), ty).len(),
                forall|j: int|
                    0 <= j < out@.len() ==> *out@[j] == cells_of_type(s.subrange(0, i as int), ty)[j],
            decreases leaves@.len() - i,
        {
            let c = leaves[i];
            proof {
                assert(s.subrange(0, i + 1).drop_last() =~= s.subrange(0, i as int));
                assert(s.subrange(0, i + 1).last() == s[i as int]);
            }
            let ghost old_out = out@;
            if c.ty == ty {
                out.push(c);
            }
            proof {
                let prev = s.subrange(0, i as int);
                let next = s.subrange(0, i + 1);
                reveal_with_fuel(Seq::filter, 1);
                assert(cells_of_type(next, ty) == if s[i as int].ty == ty {
                    cells_of_type(prev, ty).push(s[i as int])
                } else {
                    cells_of_type(prev, ty)
                });
                assert forall|j: int| 0 <= j < out@.len() implies *out@[j] == cells_of_type(
                    next,
                    ty,
                )[j] by {
                    if j < old_out.len() {
                        assert(out@[j] == old_out[j]);
                    }
                }
            }
            i += 1;
        }
        proof {
            assert(s.subrange(0, s.len() as int) =~= s);
        }
        out
    }

    /// The leaves that lie fully outside the surface, in order.
    pub fn cells_empty(&self) -> (r: Vec<&SubdivisionCell<P>>)
        ensures
            r@.len() == cells_of_type(tree_leaves(*self), CellType::Empty).len(),
            forall|i: int|
                0 <= i < r@.len() ==> *r@[i] == cells_of_type(tree_leaves(*self), CellType::Empty)[i],
    {
        self.cells_of_type(CellType::Empty)
    }

    /// The leaves that cross the surface, in order.
    pub fn cells_contour(&self) -> (r: Vec<&SubdivisionCell<P>>)
        ensures
            r@.len() == cells_of_type(tree_leaves(*self), CellType::Contour).len(),
            forall|i: int|
                0 <= i < r@.len() ==> *r@[i] == cells_of_type(
                    tree_leaves(*self),
                    CellType::Contour,
                )[i],
    {
        self.cells_of_type(CellType::Contour)
    }

    /// The leaves that lie fully inside the surface, in order.
    pub fn cells_full(&self) -> (r: Vec<&SubdivisionCell<P>>)
        ensures
            r@.len() == cells_of_type(tree_leaves(*self), CellType::Full).len(),
            forall|i: int|
                0 <= i < r@.len() ==> *r@[i] == cells_of_type(tree_leaves(*self), CellType::Full)[i],
    {
        self.cells_of_type(CellType::Full)
    }
}

/// The bounds of a tree: the least corner of its first leaf and the greatest of its last.
pub open spec fn tree_bounds<P, D>(t: Tree<SubdivisionCell<P>, D>) -> Bounds<P> {
    Bounds { min: tree_leaves(t)[0].bounds.min, max: tree_leaves(t).last().bounds.max }
}

/// Every cell of `cells` has type `ty`.
pub open spec fn all_of_type<P>(cells: Seq<SubdivisionCell<P>>, ty: CellType) -> bool {
    forall|i: int| 0 <= i < cells.len() ==> (#[trigger] cells[i]).ty == ty
}

/// The first `n` subtrees of `rs` are those of `cs`, collapsed.
pub open spec fn forest_collapses_to<P, D>(
    cs: Seq<Box<Tree<SubdivisionCell<P>, D>>>,
    rs: Seq<Box<Tree<SubdivisionCell<P>, D>>>,
    n: nat,
) -> bool
    decreases cs, n,
{
    if n == 0 || n > cs.len() || n > rs.len() {
        true
    } else {
        forest_collapses_to(cs, rs, (n - 1) as nat) && collapses_to(*cs[n - 1], *rs[n - 1])
    }
}

/// `r` is `t` with every subtree whose leaves are all `Empty`, or all `Full`, replaced by a
/// single leaf of that type over the subtree's bounds.
pub open spec fn collapses_to<P, D>(t: Tree<SubdivisionCell<P>, D>, r: Tree<SubdivisionCell<P>, D>) -> bool
    decreases t, 0nat,
{
    match t {
        Tree::Leaf(_) => r == t,
        Tree::Root(cs, _) => if all_of_type(tree_leaves(t), CellType::Empty) {
            r == Tree::<SubdivisionCell<P>, D>::Leaf(
                SubdivisionCell { bounds: tree_bounds(t), ty: CellType::Empty },
            )
        } else if all_of_type(tree_leaves(t), CellType::Full) {
            r == Tree::<SubdivisionCell<P>, D>::Leaf(
                SubdivisionCell { bounds: tree_bounds(t), ty: CellType::Full },
            )
        } else {
            match r {
                Tree::Root(rs, _) => rs@.len() == cs@.len() && forest_collapses_to(
                    cs@,
                    rs@,
                    cs@.len(),
                ),
                Tree::Leaf(_) => false,
            }
        },
    }
}

/// A run of subtrees collapses to another exactly when each does.
proof fn lemma_forest_collapses_to<P, D>(
    cs: Seq<Box<Tree<SubdivisionCell<P>, D>>>,
    rs: Seq<Box<Tree<SubdivisionCell<P>, D>>>,
    n: nat,
)
    requires
        n <= cs.len(),
        n <= rs.len(),
    ensures
        forest_collapses_to(cs, rs, n) <==> forall|i: int|
            0 <= i < n ==> #[trigger] collapses_to(*cs[i], *rs[i]),
    decreases n,
{
    if n > 0 {
        lemma_forest_collapses_to(cs, rs, (n - 1) as nat);
        if forall|i: int| 0 <= i < n ==> #[trigger] collapses_to(*cs[i], *rs[i]) {
            assert(collapses_to(*cs[n - 1], *rs[n - 1]));
            assert(forall|i: int| 0 <= i < n - 1 ==> #[trigger] collapses_to(*cs[i], *rs[i]));
        }
    }
}

/// The tree is a single leaf of type `ty`.
pub open spec fn is_leaf_of<P, D>(t: Tree<SubdivisionCell<P>, D>, ty: CellType) -> bool {
    t matches Tree::Leaf(c) && c.ty == ty
}

/// Collapsing keeps which types every leaf shares.
proof fn lemma_collapse_types<P, D>(
    t: Tree<SubdivisionCell<P>, D>,
    r: Tree<SubdivisionCell<P>, D>,
    k: nat,
    ty: CellType,
)
    requires
        k > 0,
        branches(t, k),
        collapses_to(t, r),
    ensures
        all_of_type(tree_leaves(r), ty) <==> all_of_type(tree_leaves(t), ty),
        is_leaf_of(r, CellType::Empty) <==> all_of_type(tree_leaves(t), CellType::Empty),
        is_leaf_of(r, CellType::Full) <==> all_of_type(tree_leaves(t), CellType::Full),
        branches(r, k),
    decreases t,
{
    lemma_branches_leaves(t, k);
    lemma_branches_children(t, k);
    let lt = tree_leaves(t);
    assert(lt[0] == lt[0]);
    match t {
        Tree::Leaf(_) => {
            assert(r == t);
            assert(tree_leaves(r) == tree_leaves(t));
        },
        Tree::Root(cs, _) => {
            if all_of_type(lt, CellType::Empty) {
                assert(tree_leaves(r) =~= seq![SubdivisionCell { bounds: tree_bounds(t), ty: CellType::Empty }]);
                assert(tree_leaves(r)[0].ty == CellType::Empty);
                assert(lt[0].ty == CellType::Empty);
                if ty == CellType::Empty {
                    assert(all_of_type(tree_leaves(r), ty));
                } else {
                    assert(!all_of_type(tree_leaves(r), ty));
                    assert(!all_of_type(lt, ty));
                }
            } else if all_of_type(lt, CellType::Full) {
                assert(tree_leaves(r) =~= seq![SubdivisionCell { bounds: tree_bounds(t), ty: CellType::Full }]);
                assert(tree_leaves(r)[0].ty == CellType::Full);
                assert(lt[0].ty == CellType::Full);
                if ty == CellType::Full {
                    assert(all_of_type(tree_leaves(r), ty));
                } else {
                    assert(!all_of_type(tree_leaves(r), ty));
                    assert(!all_of_type(lt, ty));
                }
            } else {
                let rs = r->Root_0;
                lemma_forest_collapses_to(cs@, rs@, k);
                assert forall|i: int| 0 <= i < k implies {
                    &&& (all_of_type(tree_leaves(*rs@[i]), ty) <==> all_of_type(tree_leaves(*cs@[i]), ty))
                    &&& #[trigger] branches(*rs@[i], k)
                } by {
                    assert(branches(*cs@[i], k));
                    assert(collapses_to(*cs@[i], *rs@[i]));
                    lemma_collapse_types(*cs@[i], *rs@[i], k, ty);
                }
                lemma_branches_root(rs, k);
                let p = |c: SubdivisionCell<P>| c.ty == ty;
                lemma_forest_all(cs@, k, p);
                lemma_forest_all(rs@, k, p);
                let lr = tree_leaves(r);
                assert(lr == crate::tree::forest_leaves(rs@, k));
                assert(lt == crate::tree::forest_leaves(cs@, k));
                if all_of_type(lr, ty) {
                    assert(forall|i: int| 0 <= i < lr.len() ==> p(#[trigger] lr[i]));
                    assert forall|j: int, i: int|
                        0 <= j < k && 0 <= i < tree_leaves(*cs@[j]).len() implies p(
                        #[trigger] tree_leaves(*cs@[j])[i],
                    ) by {
                        assert(branches(*rs@[j], k));
                        assert forall|i2: int| 0 <= i2 < tree_leaves(*rs@[j]).len() implies (
                        #[trigger] tree_leaves(*rs@[j])[i2]).ty == ty by {
                            assert(p(tree_leaves(*rs@[j])[i2]));
                        }
                        assert(all_of_type(tree_leaves(*rs@[j]), ty));
                        assert(all_of_type(tree_leaves(*cs@[j]), ty));
                        assert(tree_leaves(*cs@[j])[i].ty == ty);
                    }
                    assert forall|i: int| 0 <= i < lt.len() implies (#[trigger] lt[i]).ty == ty by {
                        assert(p(lt[i]));
                    }
                }
                if all_of_type(lt, ty) {
                    assert(forall|i: int| 0 <= i < lt.len() ==> p(#[trigger] lt[i]));
                    assert forall|j: int, i: int|
                        0 <= j < k && 0 <= i < tree_leaves(*rs@[j]).len() implies p(
                        #[trigger] tree_leaves(*rs@[j])[i],
                    ) by {
                        assert(branches(*rs@[j], k));
                        assert forall|i2: int| 0 <= i2 < tree_leaves(*cs@[j]).len() implies (
                        #[trigger] tree_leaves(*cs@[j])[i2]).ty == ty by {
                            assert(p(tree_leaves(*cs@[j])[i2]));
                        }
                        assert(all_of_type(tree_leaves(*cs@[j]), ty));
                        assert(all_of_type(tree_leaves(*rs@[j]), ty));
                        assert(tree_leaves(*rs@[j])[i].ty == ty);
                    }
                    assert forall|i: int| 0 <= i < lr.len() implies (#[trigger] lr[i]).ty == ty by {
                        assert(p(lr[i]));
                    }
                }
            }
        },
    }
}

/// `t` is the complete tree of `n` levels of `Empty` cells over `b` that `split` makes: a leaf
/// over `b` at level 0; otherwise a root whose `i`th subtree is that tree, a level lower, over
/// the `i`th part that `split` gives for `b`.
pub open spec fn grid_over<P, D, F: Fn(Bounds<P>) -> Vec<Bounds<P>>>(
    t: Tree<SubdivisionCell<P>, D>,
    b: Bounds<P>,
    n: nat,
    split: F,
) -> bool
    decreases n,
{
    if n == 0 {
        t == Tree::<SubdivisionCell<P>, D>::Leaf(SubdivisionCell { bounds: b, ty: CellType::Empty })
    } else {
        match t {
            Tree::Root(cs, _) => exists|v: Vec<Bounds<P>>|
                #[trigger] split.ensures((b,), v) && v@.len() == cs@.len() && forall|i: int|
                    0 <= i < v@.len() ==> grid_over(*cs@[i], #[trigger] v@[i], (n - 1) as nat, split),
            Tree::Leaf(_) => false,
        }
    }
}

/// A grid built with a split whose first part starts at the least corner of the bounds and
/// whose last part ends at their greatest corner spans the bounds it was built over.
pub proof fn lemma_grid_over_bounds<P, D, F: Fn(Bounds<P>) -> Vec<Bounds<P>>>(
    t: Tree<SubdivisionCell<P>, D>,
    b: Bounds<P>,
    n: nat,
    split: F,
)
    requires
        grid_over(t, b, n, split),
        forall|c: Bounds<P>, v: Vec<Bounds<P>>|
            #[trigger] split.ensures((c,), v) ==> v@.len() > 0 && v@[0].min == c.min && v@.last().max
                == c.max,
    ensures
        tree_leaves(t).len() > 0,
        tree_bounds(t) == b,
    decreases n,
{
    if n == 0 {
        assert(tree_leaves(t) =~= seq![SubdivisionCell { bounds: b, ty: CellType::Empty }]);
    } else {
        let cs = t->Root_0;
        let v = choose|v: Vec<Bounds<P>>|
            #[trigger] split.ensures((b,), v) && v@.len() == cs@.len() && forall|i: int|
                0 <= i < v@.len() ==> grid_over(*cs@[i], #[trigger] v@[i], (n - 1) as nat, split);
        let len = cs@.len();
        assert forall|i: int| 0 <= i < len implies #[trigger] tree_leaves(*cs@[i]).len() > 0
            && tree_bounds(*cs@[i]) == v@[i] by {
            assert(grid_over(*cs@[i], v@[i], (n - 1) as nat, split));
            lemma_grid_over_bounds(*cs@[i], v@[i], (n - 1) as nat, split);
        }
        lemma_forest_ends(cs@, len);
        assert(tree_leaves(t) == forest_leaves(cs@, len));
        assert(tree_leaves(*cs@[0]).len() > 0 && tree_bounds(*cs@[0]) == v@[0]);
        assert(tree_leaves(*cs@[len - 1]).len() > 0 && tree_bounds(*cs@[len - 1]) == v@[len - 1]);
        assert(v@.last() == v@[len - 1]);
    }
}

impl<P: Copy, D: VectorSubdivision> Tree<SubdivisionCell<P>, D> {
    /// The complete tree of `level` levels of `Empty` cells over `bounds`: a single leaf at
    /// level 0; otherwise a root with one subtree, a level lower, over each part of `bounds`
    /// that `split` gives, in order.
    pub fn new_grid<F: Fn(Bounds<P>) -> Vec<Bounds<P>>>(bounds: Bounds<P>, level: usize, split: &F) -> (r: Self)
        requires
            forall|b: Bounds<P>| #[trigger] split.requires((b,)),
            forall|b: Bounds<P>, v: Vec<Bounds<P>>|
                #[trigger] split.ensures((b,), v) ==> v@.len() == D::SUBDIVISION,
        ensures
            grid_over(r, bounds, level as nat, *split),
            full_grid(r, D::SUBDIVISION as nat, level as nat),
            leaf_depth_set(r) == set![level as nat],
            all_of_type(tree_leaves(r), CellType::Empty),
            level == 0 ==> r == Tree::<SubdivisionCell<P>, D>::Leaf(
                SubdivisionCell { bounds, ty: CellType::Empty },
            ),
        decreases level,
    {
        proof {
            D::lemma_subdivision();
            lemma_pow2_pos(D::DIMENSION as nat);
        }
        if level == 0 {
            let r = Tree::Leaf(SubdivisionCell { bounds, ty: CellType::Empty });
            proof {
                lemma_full_grid_is_grid(r, D::SUBDIVISION as nat, 0);
            }
            return r;
        }
        let ghost k = D::SUBDIVISION as nat;
        let parts = split(bounds);
        let mut out: Vec<Box<Tree<SubdivisionCell<P>, D>>> = Vec::new();
        let mut i: usize = 0;
        while i < parts.len()
            invariant
                i <= parts@.len(),
                level > 0,
                k == D::SUBDIVISION as nat,
                parts@.len() == k,
                out@.len() == i,
                forall|b: Bounds<P>| #[trigger] split.requires((b,)),
                forall|b: Bounds<P>, v: Vec<Bounds<P>>|
                    #[trigger] split.ensures((b,), v) ==> v@.len() == D::SUBDIVISION,
                split.ensures((bounds,), parts),
                forall|j: int|
                    0 <= j < i ==> #[trigger] full_grid(*out@[j], k, (level - 1) as nat)
                        && all_of_type(tree_leaves(*out@[j]), CellType::Empty)
                        && grid_over(*out@[j], parts@[j], (level - 1) as nat, *split),
            decreases parts@.len() - i,
        {
            let sub = Self::new_grid(parts[i], level - 1, split);
            let ghost before = out@;
            out.push(Box::new(sub));
            proof {
                assert forall|j: int|
                    0 <= j < i + 1 implies #[trigger] full_grid(*out@[j], k, (level - 1) as nat)
                        && all_of_type(tree_leaves(*out@[j]), CellType::Empty)
                        && grid_over(*out@[j], parts@[j], (level - 1) as nat, *split) by {
                    if j < i {
                        assert(out@[j] == before[j]);
                    }
                }
            }
            i += 1;
        }
        let ghost cs = out@;
        proof {
            lemma_forest_full_grid(cs, k, k, (level - 1) as nat);
            let p = |c: SubdivisionCell<P>| c.ty == CellType::Empty;
            lemma_forest_all(cs, k, p);
            assert forall|j: int, m: int|
                0 <= j < k && 0 <= m < tree_leaves(*cs[j]).len() implies p(
                #[trigger] tree_leaves(*cs[j])[m],
            ) by {
                assert(full_grid(*cs[j], k, (level - 1) as nat));
                assert(all_of_type(tree_leaves(*cs[j]), CellType::Empty));
            }
        }
        let r = Tree::Root(out, PhantomData);
        proof {
            assert forall|j: int| 0 <= j < parts@.len() implies grid_over(
                *cs[j],
                #[trigger] parts@[j],
                (level - 1) as nat,
                *split,
            ) by {
                assert(full_grid(*cs[j], k, (level - 1) as nat));
            }
            assert(grid_over(r, bounds, level as nat, *split));
            lemma_full_grid_is_grid(r, k, level as nat);
            let p = |c: SubdivisionCell<P>| c.ty == CellType::Empty;
            assert(tree_leaves(r) == forest_leaves(cs, k));
            assert forall|m: int| 0 <= m < tree_leaves(r).len() implies (#[trigger] tree_leaves(r)[m]).ty
                == CellType::Empty by {
                assert(p(forest_leaves(cs, k)[m]));
            }
        }
        r
    }
}

impl<P: Copy, D: VectorSubdivision> Tree<SubdivisionCell<P>, D> {
    /// The least corner of the tree: that of its first leaf.
    pub fn min_corner(&self) -> (r: P)
        requires
            branches(*self, D::SUBDIVISION as nat),
        ensures
            r == tree_leaves(*self)[0].bounds.min,
        decreases *self,
    {
        proof {
            D::lemma_subdivision();
            lemma_pow2_pos(D::DIMENSION as nat);
            lemma_branches_children(*self, D::SUBDIVISION as nat);
            lemma_branches_leaves(*self, D::SUBDIVISION as nat);
        }
        match self {
            Tree::Root(cs, _) => {
                proof {
                    assert(decreases_to!(*self => *cs@[0]));
                }
                cs[0].min_corner()
            },
            Tree::Leaf(leaf) => leaf.bounds.min,
        }
    }

    /// The greatest corner of the tree: that of its last leaf.
    pub fn max_corner(&self) -> (r: P)
        requires
            branches(*self, D::SUBDIVISION as nat),
        ensures
            r == tree_leaves(*self).last().bounds.max,
        decreases *self,
    {
        proof {
            D::lemma_subdivision();
            lemma_pow2_pos(D::DIMENSION as nat);
            lemma_branches_children(*self, D::SUBDIVISION as nat);
            lemma_branches_leaves(*self, D::SUBDIVISION as nat);
        }
        match self {
            Tree::Root(cs, _) => {
                let last = cs.len() - 1;
                proof {
                    assert(decreases_to!(*self => *cs@[last as int]));
                }
                cs[last].max_corner()
            },
            Tree::Leaf(leaf) => leaf.bounds.max,
        }
    }

    /// The bounds of the tree, from its least and greatest corners.
    pub fn bounds(&self) -> (r: Bounds<P>)
        requires
            branches(*self, D::SUBDIVISION as nat),
        ensures
            r == tree_bounds(*self),
    {
        Bounds { min: self.min_corner(), max: self.max_corner() }
    }
}

impl<P: Copy, D: VectorSubdivision> Tree<SubdivisionCell<P>, D> {
    /// Collapse every subtree whose leaves are all `Empty`, or all `Full`, into a single
    /// leaf of that type over the subtree's bounds.
    #[verifier::loop_isolation(false)]
    pub fn collapse(self) -> (r: Self)
        requires
            branches(self, D::SUBDIVISION as nat),
        ensures
            collapses_to(self, r),
            branches(r, D::SUBDIVISION as nat),
            tree_bounds(r) == tree_bounds(self),
        decreases self,
    {
        let ghost k = D::SUBDIVISION as nat;
        let ghost t0 = self;
        proof {
            D::lemma_subdivision();
            lemma_pow2_pos(D::DIMENSION as nat);
            lemma_branches_children(self, k);
            lemma_branches_leaves(self, k);
        }
        let b = self.bounds();
        match self {
            Tree::Leaf(c) => Tree::Leaf(c),
            Tree::Root(cs, _) => {
                let ghost orig = cs@;
                let mut rest = cs;
                let mut out: Vec<Box<Self>> = Vec::new();
                let mut all_empty = true;
                let mut all_full = true;
                while rest.len() > 0
                    invariant
                        k == D::SUBDIVISION as nat,
                        k > 0,
                        t0 == Tree::<SubdivisionCell<P>, D>::Root(cs, PhantomData),
                        orig == cs@,
                        orig.len() == k,
                        forall|j: int| 0 <= j < k ==> #[trigger] branches(*orig[j], k),
                        out@.len() + rest@.len() == orig.len(),
                        rest@ == orig.skip(out@.len() as int),
                        forall|j: int|
                            0 <= j < out@.len() ==> {
                                &&& #[trigger] collapses_to(*orig[j], *out@[j])
                                &&& branches(*out@[j], k)
                                &&& tree_bounds(*out@[j]) == tree_bounds(*orig[j])
                            },
                        all_empty == forall|j: int|
                            0 <= j < out@.len() ==> #[trigger] is_leaf_of(*out@[j], CellType::Empty),
                        all_full == forall|j: int|
                            0 <= j < out@.len() ==> #[trigger] is_leaf_of(*out@[j], CellType::Full),
                    decreases rest@.len(),
                {
                    let ghost j = out@.len() as int;
                    let c = rest.remove(0);
                    proof {
                        assert(*c == *orig[j]);
                        let csv = t0->Root_0;
                        assert(decreases_to!(t0 => csv));
                        assert(decreases_to!(csv => csv@));
                        assert(decreases_to!(csv@ => csv@[j]));
                        assert(decreases_to!(t0 => *orig[j]));
                        assert(decreases_to!(t0 => *c));
                        lemma_branches_leaves(*orig[j], k);
                    }
                    let c2 = (*c).collapse();
                    proof {
                        lemma_collapse_types(*orig[j], c2, k, CellType::Empty);
                    }
                    let ghost prev_empty = all_empty;
                    let ghost prev_full = all_full;
                    match &c2 {
                        Tree::Leaf(cell) => {
                            if cell.ty != CellType::Empty {
                                all_empty = false;
                            }
                            if cell.ty != CellType::Full {
                                all_full = false;
                            }
                        },
                        Tree::Root(_, _) => {
                            all_empty = false;
                            all_full = false;
                        },
                    }
                    let ghost old_out = out@;
                    out.push(Box::new(c2));
                    proof {
                        assert(rest@ =~= orig.skip(out@.len() as int));
                        assert(all_empty == (prev_empty && is_leaf_of(c2, CellType::Empty)));
                        assert(all_full == (prev_full && is_leaf_of(c2, CellType::Full)));
                        assert(out@[j] == c2);
                        assert forall|i: int| 0 <= i < j implies out@[i] == old_out[i] by {}
                        if all_empty {
                            assert forall|i: int| 0 <= i < out@.len() implies #[trigger] is_leaf_of(
                                *out@[i],
                                CellType::Empty,
                            ) by {
                                if i < j {
                                    assert(is_leaf_of(*old_out[i], CellType::Empty));
                                }
                            }
                        } else if !is_leaf_of(c2, CellType::Empty) {
                            assert(!is_leaf_of(*out@[j], CellType::Empty));
                        } else {
                            let w = choose|i: int|
                                0 <= i < old_out.len() && !#[trigger] is_leaf_of(*old_out[i], CellType::Empty);
                            assert(!is_leaf_of(*out@[w], CellType::Empty));
                        }
                        if all_full {
                            assert forall|i: int| 0 <= i < out@.len() implies #[trigger] is_leaf_of(
                                *out@[i],
                                CellType::Full,
                            ) by {
                                if i < j {
                                    assert(is_leaf_of(*old_out[i], CellType::Full));
                                }
                            }
                        } else if !is_leaf_of(c2, CellType::Full) {
                            assert(!is_leaf_of(*out@[j], CellType::Full));
                        } else {
                            let w = choose|i: int|
                                0 <= i < old_out.len() && !#[trigger] is_leaf_of(*old_out[i], CellType::Full);
                            assert(!is_leaf_of(*out@[w], CellType::Full));
                        }
                    }
                }
                proof {
                    let p_empty = |c: SubdivisionCell<P>| c.ty == CellType::Empty;
                    let p_full = |c: SubdivisionCell<P>| c.ty == CellType::Full;
                    lemma_forest_all(orig, k, p_empty);
                    lemma_forest_all(orig, k, p_full);
                    let lt = tree_leaves(t0);
                    assert(lt == crate::tree::forest_leaves(orig, k));
                    assert forall|j: int| 0 <= j < k implies (#[trigger] is_leaf_of(
                        *out@[j],
                        CellType::Empty,
                    )) == all_of_type(tree_leaves(*orig[j]), CellType::Empty) && is_leaf_of(
                        *out@[j],
                        CellType::Full,
                    ) == all_of_type(tree_leaves(*orig[j]), CellType::Full) by {
                        lemma_collapse_types(*orig[j], *out@[j], k, CellType::Empty);
                    }
                    assert(all_empty == all_of_type(lt, CellType::Empty)) by {
                        if all_empty {
                            assert forall|i: int| 0 <= i < lt.len() implies (#[trigger] lt[i]).ty
                                == CellType::Empty by {
                                assert forall|j: int, i2: int|
                                    0 <= j < k && 0 <= i2 < tree_leaves(*orig[j]).len() implies p_empty(
                                    #[trigger] tree_leaves(*orig[j])[i2],
                                ) by {
                                    assert(is_leaf_of(*out@[j], CellType::Empty));
                                }
                                assert(p_empty(lt[i]));
                            }
                        }
                        if all_of_type(lt, CellType::Empty) {
                            assert(forall|i: int| 0 <= i < lt.len() ==> p_empty(#[trigger] lt[i]));
                            assert forall|j: int| 0 <= j < out@.len() implies #[trigger] is_leaf_of(
                                *out@[j],
                                CellType::Empty,
                            ) by {
                                assert forall|i2: int| 0 <= i2 < tree_leaves(*orig[j]).len() implies (
                                #[trigger] tree_leaves(*orig[j])[i2]).ty == CellType::Empty by {
                                    assert(p_empty(tree_leaves(*orig[j])[i2]));
                                }
                            }
                        }
                    }
                    assert(all_full == all_of_type(lt, CellType::Full)) by {
                        if all_full {
                            assert forall|i: int| 0 <= i < lt.len() implies (#[trigger] lt[i]).ty
                                == CellType::Full by {
                                assert forall|j: int, i2: int|
                                    0 <= j < k && 0 <= i2 < tree_leaves(*orig[j]).len() implies p_full(
                                    #[trigger] tree_leaves(*orig[j])[i2],
                                ) by {
                                    assert(is_leaf_of(*out@[j], CellType::Full));
                                    assert(collapses_to(*orig[j], *out@[j]));
                                    lemma_collapse_types(*orig[j], *out@[j], k, CellType::Full);
                                }
                                assert(p_full(lt[i]));
                            }
                        }
                        if all_of_type(lt, CellType::Full) {
                            assert(forall|i: int| 0 <= i < lt.len() ==> p_full(#[trigger] lt[i]));
                            assert forall|j: int| 0 <= j < out@.len() implies #[trigger] is_leaf_of(
                                *out@[j],
                                CellType::Full,
                            ) by {
                                assert forall|i2: int| 0 <= i2 < tree_leaves(*orig[j]).len() implies (
                                #[trigger] tree_leaves(*orig[j])[i2]).ty == CellType::Full by {
                                    assert(p_full(tree_leaves(*orig[j])[i2]));
                                }
                                assert(collapses_to(*orig[j], *out@[j]));
                                lemma_collapse_types(*orig[j], *out@[j], k, CellType::Full);
                            }
                        }
                    }
                }
                if all_empty {
                    Tree::Leaf(SubdivisionCell { bounds: b, ty: CellType::Empty })
                } else if all_full {
                    Tree::Leaf(SubdivisionCell { bounds: b, ty: CellType::Full })
                } else {
                    let ghost r = Tree::<SubdivisionCell<P>, D>::Root(out, PhantomData);
                    proof {
                        lemma_forest_collapses_to(orig, out@, k);
                        assert forall|i: int| 0 <= i < k implies #[trigger] branches(*out@[i], k) by {
                            assert(collapses_to(*orig[i], *out@[i]));
                        }
                        assert(collapses_to(*orig[0], *out@[0]));
                        assert(collapses_to(*orig[k - 1], *out@[k - 1]));
                        lemma_branches_root(out, k);
                        lemma_branches_leaves(r, k);
                        lemma_branches_leaves(*orig[0], k);
                        lemma_branches_leaves(*orig[k - 1], k);
                    }
                    Tree::Root(out, PhantomData)
                }
            },
        }
    }
}

/// Collapsing is idempotent: a collapsed tree collapses to itself.
pub proof fn lemma_collapse_idempotent<P, D>(
    t: Tree<SubdivisionCell<P>, D>,
    r: Tree<SubdivisionCell<P>, D>,
    k: nat,
)
    requires
        k > 0,
        branches(t, k),
        collapses_to(t, r),
    ensures
        collapses_to(r, r),
    decreases t,
{
    lemma_branches_children(t, k);
    match t {
        Tree::Leaf(_) => {},
        Tree::Root(cs, _) => {
            if !all_of_type(tree_leaves(t), CellType::Empty) && !all_of_type(
                tree_leaves(t),
                CellType::Full,
            ) {
                let rs = r->Root_0;
                lemma_collapse_types(t, r, k, CellType::Empty);
                lemma_collapse_types(t, r, k, CellType::Full);
                lemma_forest_collapses_to(cs@, rs@, k);
                assert forall|i: int| 0 <= i < k implies #[trigger] collapses_to(*rs@[i], *rs@[i]) by {
                    assert(branches(*cs@[i], k));
                    assert(collapses_to(*cs@[i], *rs@[i]));
                    lemma_collapse_idempotent(*cs@[i], *rs@[i], k);
                }
                lemma_forest_collapses_to(rs@, rs@, k);
            }
        },
    }
}

/// Runs of subtrees that agree one by one in shape and leaves agree as a whole.
proof fn lemma_forest_agree<P, D>(
    xs: Seq<Box<Tree<SubdivisionCell<P>, D>>>,
    ys: Seq<Box<Tree<SubdivisionCell<P>, D>>>,
    n: nat,
)
    requires
        n <= xs.len(),
        n <= ys.len(),
        forall|i: int|
            0 <= i < n ==> #[trigger] same_shape(*xs[i], *ys[i]) && tree_leaves(*xs[i])
                =~= tree_leaves(*ys[i]),
    ensures
        forest_same_shape(xs, ys, n),
        forest_leaves(xs, n) == forest_leaves(ys, n),
    decreases n,
{
    if n > 0 {
        lemma_forest_agree(xs, ys, (n - 1) as nat);
        assert(same_shape(*xs[n - 1], *ys[n - 1]));
        assert(tree_leaves(*xs[n - 1]) =~= tree_leaves(*ys[n - 1]));
    }
}

/// Collapsing has one outcome: two collapses of the same tree have the same shape and the
/// same leaves, in order.
pub proof fn lemma_collapse_unique<P, D>(
    t: Tree<SubdivisionCell<P>, D>,
    x: Tree<SubdivisionCell<P>, D>,
    y: Tree<SubdivisionCell<P>, D>,
)
    requires
        collapses_to(t, x),
        collapses_to(t, y),
    ensures
        same_shape(x, y),
        tree_leaves(x) == tree_leaves(y),
    decreases t,
{
    match t {
        Tree::Leaf(_) => {},
        Tree::Root(cs, _) => {
            if !all_of_type(tree_leaves(t), CellType::Empty) && !all_of_type(
                tree_leaves(t),
                CellType::Full,
            ) {
                let xs = x->Root_0@;
                let ys = y->Root_0@;
                let n = cs@.len();
                lemma_forest_collapses_to(cs@, xs, n);
                lemma_forest_collapses_to(cs@, ys, n);
                assert forall|i: int| 0 <= i < n implies #[trigger] same_shape(*xs[i], *ys[i])
                    && tree_leaves(*xs[i]) =~= tree_leaves(*ys[i]) by {
                    assert(collapses_to(*cs@[i], *xs[i]));
                    assert(collapses_to(*cs@[i], *ys[i]));
                    lemma_collapse_unique(*cs@[i], *xs[i], *ys[i]);
                }
                lemma_forest_agree(xs, ys, n);
                assert(tree_leaves(x) == forest_leaves(xs, n));
                assert(tree_leaves(y) == forest_leaves(ys, n));
            }
        },
    }
}

/// Collapsing a collapsed tree again gives it back: the same shape and the same leaves.
pub proof fn lemma_collapse_twice<P, D>(
    t: Tree<SubdivisionCell<P>, D>,
    r: Tree<SubdivisionCell<P>, D>,
    r2: Tree<SubdivisionCell<P>, D>,
    k: nat,
)
    requires
        k > 0,
        branches(t, k),
        collapses_to(t, r),
        collapses_to(r, r2),
    ensures
        same_shape(r2, r),
        tree_leaves(r2) == tree_leaves(r),
{
    lemma_collapse_idempotent(t, r, k);
    lemma_collapse_unique(r, r2, r);
}

/// Corners `a` and `b` of a cell share an edge: they differ along exactly one axis.
pub open spec fn corners_share_edge(a: int, b: int) -> bool {
    let (lo, hi) = if a < b {
        (a, b)
    } else {
        (b, a)
    };
    let d = hi - lo;
    0 <= lo && (d == 1 || d == 2 || d == 4) && (lo / d) % 2 == 0
}

/// The line segments of `s`, two corner indices each, are `n` distinct edges of a cell
/// with `corners` corners.
pub open spec fn outlines_edges(s: Seq<u32>, corners: int, n: int) -> bool {
    &&& s.len() == 2 * n
    &&& forall|i: int|
        0 <= i < n ==> s[2 * i] < corners && s[2 * i + 1] < corners && #[trigger] corners_share_edge(
            s[2 * i] as int,
            s[2 * i + 1] as int,
        )
    &&& forall|i: int, j: int|
        0 <= i < j < n ==> !(#[trigger] s[2 * i] == #[trigger] s[2 * j] && s[2 * i + 1] == s[2
            * j + 1]) && !(s[2 * i] == s[2 * j + 1] && s[2 * i + 1] == s[2 * j])
}

/// The corner indices of a cell's outline, as line segments of two indices each.
pub trait CellIndices {
    spec fn cell_indices_spec() -> Seq<u32>;

    fn cell_indices() -> (r: Vec<u32>)
        ensures
            r@ == Self::cell_indices_spec(),
    ;
}

impl<P> CellIndices for Tree<SubdivisionCell<P>, D2> {
    open spec fn cell_indices_spec() -> Seq<u32> {
        seq![0, 2, 2, 3, 3, 1, 1, 0]
    }

    fn cell_indices() -> (r: Vec<u32>) {
        let r: Vec<u32> = vec![0, 2, 2, 3, 3, 1, 1, 0];
        proof {
            assert(r@ =~= Self::cell_indices_spec());
        }
        r
    }
}

impl<P> CellIndices for Tree<SubdivisionCell<P>, D3> {
    open spec fn cell_indices_spec() -> Seq<u32> {
        seq![0, 1, 1, 3, 2, 3, 2, 0, 4, 5, 5, 7, 6, 7, 6, 4, 0, 4, 1, 5, 2, 6, 3, 7]
    }

    fn cell_indices() -> (r: Vec<u32>) {
        let r: Vec<u32> = vec![0, 1, 1, 3, 2, 3, 2, 0, 4, 5, 5, 7, 6, 7, 6, 4, 0, 4, 1, 5, 2, 6, 3, 7];
        proof {
            assert(r@ =~= Self::cell_indices_spec());
        }
        r
    }
}

/// A square's outline draws each of its four edges once; a cube's, each of its twelve.
pub proof fn lemma_cell_indices_outline<P>()
    ensures
        outlines_edges(<Tree<SubdivisionCell<P>, D2> as CellIndices>::cell_indices_spec(), 4, 4),
        outlines_edges(<Tree<SubdivisionCell<P>, D3> as CellIndices>::cell_indices_spec(), 8, 12),
{
    let s2 = <Tree<SubdivisionCell<P>, D2> as CellIndices>::cell_indices_spec();
    let s3 = <Tree<SubdivisionCell<P>, D3> as CellIndices>::cell_indices_spec();
    assert forall|i: int| 0 <= i < 4 implies s2[2 * i] < 4 && s2[2 * i + 1] < 4
        && #[trigger] corners_share_edge(s2[2 * i] as int, s2[2 * i + 1] as int) by {
        assert(0 <= i < 4);
    }
    assert forall|i: int| 0 <= i < 12 implies s3[2 * i] < 8 && s3[2 * i + 1] < 8
        && #[trigger] corners_share_edge(s3[2 * i] as int, s3[2 * i + 1] as int) by {
        if i < 4 {
            assert(i == 0 || i == 1 || i == 2 || i == 3);
        } else if i < 8 {
            assert(i == 4 || i == 5 || i == 6 || i == 7);
        } else {
            assert(i == 8 || i == 9 || i == 10 || i == 11);
        }
    }
}

/// The root's subtrees are `k` leaves.
pub open spec fn root_of_leaves<P, D>(t: Tree<SubdivisionCell<P>, D>, k: nat) -> bool {
    t matches Tree::Root(cs, _) && cs@.len() == k && forall|i: int| 0 <= i < k ==> (*#[trigger] cs@[i]) is Leaf
}

/// The cell of the `i`th leaf under the root.
pub open spec fn child_cell<P, D>(t: Tree<SubdivisionCell<P>, D>, i: int) -> SubdivisionCell<P> {
    (*t->Root_0@[i])->Leaf_0
}

/// The centers of the faces of a cell split once, read off the corners of its subcells.
pub trait FaceCenters<P>: Sized {
    /// Whether `face_centers` is defined for this tree.
    spec fn face_centers_defined(&self) -> bool;

    /// What `face_centers` returns.
    spec fn spec_face_centers(&self) -> Seq<P>;

    fn face_centers(&self) -> (r: Vec<P>)
        requires
            self.face_centers_defined(),
        ensures
            r@ == self.spec_face_centers(),
    ;
}

impl<P: Copy> FaceCenters<P> for Tree<SubdivisionCell<P>, D2> {
    open spec fn face_centers_defined(&self) -> bool {
        root_of_leaves(*self, 4)
    }

    /// Bottom, right, left and top: the corners that the lower right and upper left
    /// quadrants share with the square's edges.
    open spec fn spec_face_centers(&self) -> Seq<P> {
        let (b, c) = (child_cell(*self, 1), child_cell(*self, 2));
        seq![b.bounds.min, b.bounds.max, c.bounds.min, c.bounds.max]
    }

    fn face_centers(&self) -> (r: Vec<P>) {
        match self {
            Tree::Root(cs, _) => {
                assert(*cs@[1] is Leaf && *cs@[2] is Leaf);
                match (&*cs[1], &*cs[2]) {
                    (Tree::Leaf(b), Tree::Leaf(c)) => {
                        let r = vec![b.bounds.min, b.bounds.max, c.bounds.min, c.bounds.max];
                        proof {
                            assert(r@ =~= self.spec_face_centers());
                        }
                        r
                    },
                    _ => {
                        assert(false);
                        Vec::new()
                    },
                }
            },
            Tree::Leaf(_) => {
                assert(false);
                Vec::new()
            },
        }
    }
}

impl<P: Copy> FaceCenters<P> for Tree<SubdivisionCell<P>, D3> {
    open spec fn face_centers_defined(&self) -> bool {
        root_of_leaves(*self, 8)
    }

    /// Right, top, front, back, bottom and left: the corners that octants share with the
    /// centers of the cube's faces.
    open spec fn spec_face_centers(&self) -> Seq<P> {
        seq![
            child_cell(*self, 1).bounds.max,
            child_cell(*self, 2).bounds.max,
            child_cell(*self, 3).bounds.min,
            child_cell(*self, 4).bounds.max,
            child_cell(*self, 5).bounds.min,
            child_cell(*self, 6).bounds.min,
        ]
    }

    fn face_centers(&self) -> (r: Vec<P>) {
        match self {
            Tree::Root(cs, _) => {
                assert(*cs@[1] is Leaf && *cs@[2] is Leaf && *cs@[3] is Leaf);
                assert(*cs@[4] is Leaf && *cs@[5] is Leaf && *cs@[6] is Leaf);
                match (&*cs[1], &*cs[2], &*cs[3], &*cs[4], &*cs[5], &*cs[6]) {
                    (
                        Tree::Leaf(b),
                        Tree::Leaf(c),
                        Tree::Leaf(d),
                        Tree::Leaf(e),
                        Tree::Leaf(f),
                        Tree::Leaf(g),
                    ) => {
                        let r = vec![
                            b.bounds.max,
                            c.bounds.max,
                            d.bounds.min,
                            e.bounds.max,
                            f.bounds.min,
                            g.bounds.min,
                        ];
                        proof {
                            assert(r@ =~= self.spec_face_centers());
                        }
                        r
                    },
                    _ => {
                        assert(false);
                        Vec::new()
                    },
                }
            },
            Tree::Leaf(_) => {
                assert(false);
                Vec::new()
            },
        }
    }
}

/// The type that the root's subtrees share when they are all leaves of one type; none for a
/// leaf, a root with no subtree, or subtrees that differ.
pub open spec fn shared_leaf_type<P, D>(t: Tree<SubdivisionCell<P>, D>) -> Option<CellType> {
    match t {
        Tree::Root(cs, _) => if cs@.len() > 0 && (forall|i: int|
            0 <= i < cs@.len() ==> (*#[trigger] cs@[i]) is Leaf) && (forall|i: int|
            0 <= i < cs@.len() ==> (*#[trigger] cs@[i])->Leaf_0.ty == (*cs@[0])->Leaf_0.ty) {
            Some((*cs@[0])->Leaf_0.ty)
        } else {
            None
        },
        Tree::Leaf(_) => None,
    }
}

impl<P, D> Tree<SubdivisionCell<P>, D> {
    /// The type that the root's subtrees share, when they are all leaves of one type: the
    /// type that a merged cell would take.
    #[verifier::loop_isolation(false)]
    pub fn shared_leaf_type(&self) -> (r: Option<CellType>)
        ensures
            r == shared_leaf_type(*self),
            r matches Some(ty) ==> *self is Root && self->Root_0@.len() > 0 && forall|i: int|
                0 <= i < self->Root_0@.len() ==> (*#[trigger] self->Root_0@[i]) is Leaf
                    && (*self->Root_0@[i])->Leaf_0.ty == ty,
    {
        proof {
            lemma_shared_leaf_type(*self);
        }
        match self {
            Tree::Leaf(_) => None,
            Tree::Root(cs, _) => {
                if cs.len() == 0 {
                    return None;
                }
                let first = match &*cs[0] {
                    Tree::Leaf(c) => c.ty,
                    Tree::Root(_, _) => {
                        return None;
                    },
                };
                let mut i: usize = 0;
                while i < cs.len()
                    invariant
                        i <= cs@.len(),
                        cs@.len() > 0,
                        *cs@[0] is Leaf,
                        first == (*cs@[0])->Leaf_0.ty,
                        forall|j: int| 0 <= j < i ==> (*#[trigger] cs@[j]) is Leaf,
                        forall|j: int| 0 <= j < i ==> (*#[trigger] cs@[j])->Leaf_0.ty == first,
                    decreases cs@.len() - i,
                {
                    match &*cs[i] {
                        Tree::Leaf(c) => {
                            if c.ty != first {
                                assert((*cs@[i as int])->Leaf_0.ty != (*cs@[0])->Leaf_0.ty);
                                return None;
                            }
                        },
                        Tree::Root(_, _) => {
                            assert(!((*cs@[i as int]) is Leaf));
                            return None;
                        },
                    }
                    i += 1;
                }
                Some(first)
            },
        }
    }
}


/// The first `n` subtrees of `rs` are those of `cs`, merged with `close`.
pub open spec fn forest_merges_to<P, D, F: Fn(&Tree<SubdivisionCell<P>, D>) -> bool>(
    cs: Seq<Box<Tree<SubdivisionCell<P>, D>>>,
    rs: Seq<Box<Tree<SubdivisionCell<P>, D>>>,
    n: nat,
    close: F,
) -> bool
    decreases cs, n,
{
    if n == 0 || n > cs.len() || n > rs.len() {
        true
    } else {
        forest_merges_to(cs, rs, (n - 1) as nat, close) && merges_to(*cs[n - 1], *rs[n - 1], close)
    }
}

/// `r` is what the root `m`, over merged subtrees, becomes: a single leaf over `m`'s bounds,
/// of the type its subtrees share, when they are all leaves of one type and `close` accepts
/// `m`; otherwise `m` itself.
pub open spec fn merge_step<P, D, F: Fn(&Tree<SubdivisionCell<P>, D>) -> bool>(
    m: Tree<SubdivisionCell<P>, D>,
    r: Tree<SubdivisionCell<P>, D>,
    close: F,
) -> bool {
    ||| r == m && (shared_leaf_type(m) is None || close.ensures((&m,), false))
    ||| shared_leaf_type(m) is Some && close.ensures((&m,), true) && r
        == Tree::<SubdivisionCell<P>, D>::Leaf(
        SubdivisionCell { bounds: tree_bounds(m), ty: shared_leaf_type(m)->0 },
    )
}

/// `r` is `t` merged from the leaves up with `close`: a leaf stays as it is; a root's
/// subtrees are merged first, and the root `m` over the merged subtrees then becomes a single
/// leaf over `m`'s bounds, of the type its subtrees share, when they are all leaves of one
/// type and `close` accepts `m`; otherwise it stays `m`.
pub open spec fn merges_to<P, D, F: Fn(&Tree<SubdivisionCell<P>, D>) -> bool>(
    t: Tree<SubdivisionCell<P>, D>,
    r: Tree<SubdivisionCell<P>, D>,
    close: F,
) -> bool
    decreases t, 0nat,
{
    match t {
        Tree::Leaf(_) => r == t,
        Tree::Root(cs, _) => exists|m: Tree<SubdivisionCell<P>, D>|
            {
                &&& m is Root
                &&& m->Root_0@.len() == cs@.len()
                &&& forest_merges_to(cs@, m->Root_0@, cs@.len(), close)
                &&& #[trigger] merge_step(m, r, close)
            },
    }
}

/// A root merges to what the root over its merged subtrees becomes.
proof fn lemma_merges_root<P, D, F: Fn(&Tree<SubdivisionCell<P>, D>) -> bool>(
    t: Tree<SubdivisionCell<P>, D>,
    m: Tree<SubdivisionCell<P>, D>,
    r: Tree<SubdivisionCell<P>, D>,
    close: F,
)
    requires
        t is Root,
        m is Root,
        m->Root_0@.len() == t->Root_0@.len(),
        forest_merges_to(t->Root_0@, m->Root_0@, t->Root_0@.len(), close),
        merge_step(m, r, close),
    ensures
        merges_to(t, r, close),
{
}

/// A run of subtrees merges to another exactly when each does.
proof fn lemma_forest_merges_to<P, D, F: Fn(&Tree<SubdivisionCell<P>, D>) -> bool>(
    cs: Seq<Box<Tree<SubdivisionCell<P>, D>>>,
    rs: Seq<Box<Tree<SubdivisionCell<P>, D>>>,
    n: nat,
    close: F,
)
    requires
        n <= cs.len(),
        n <= rs.len(),
    ensures
        forest_merges_to(cs, rs, n, close) <==> forall|i: int|
            0 <= i < n ==> #[trigger] merges_to(*cs[i], *rs[i], close),
    decreases n,
{
    if n > 0 {
        lemma_forest_merges_to(cs, rs, (n - 1) as nat, close);
        if forall|i: int| 0 <= i < n ==> #[trigger] merges_to(*cs[i], *rs[i], close) {
            assert(merges_to(*cs[n - 1], *rs[n - 1], close));
            assert(forall|i: int| 0 <= i < n - 1 ==> #[trigger] merges_to(*cs[i], *rs[i], close));
        }
    }
}

impl<P: Copy, D: VectorSubdivision> Tree<SubdivisionCell<P>, D> {
    /// Merge the tree from the leaves up: each root whose merged subtrees are all leaves of
    /// one type, and which `close` accepts, becomes a single leaf of that type over its bounds.
    #[verifier::loop_isolation(false)]
    #[verifier::spinoff_prover]
    #[verifier::rlimit(40)]
    pub fn merge_by<F: Fn(&Self) -> bool>(self, close: &F) -> (r: Self)
        requires
            branches(self, D::SUBDIVISION as nat),
            forall|t: &Self| #[trigger] close.requires((t,)),
        ensures
            merges_to(self, r, *close),
            branches(r, D::SUBDIVISION as nat),
            tree_bounds(r) == tree_bounds(self),
        decreases self,
    {
        let ghost k = D::SUBDIVISION as nat;
        let ghost t0 = self;
        proof {
            D::lemma_subdivision();
            lemma_pow2_pos(D::DIMENSION as nat);
            lemma_branches_children(self, k);
            lemma_branches_leaves(self, k);
        }
        match self {
            Tree::Leaf(c) => Tree::Leaf(c),
            Tree::Root(cs, _) => {
                let ghost orig = cs@;
                let mut rest = cs;
                let mut out: Vec<Box<Self>> = Vec::new();
                while rest.len() > 0
                    invariant
                        k == D::SUBDIVISION as nat,
                        k > 0,
                        t0 == Tree::<SubdivisionCell<P>, D>::Root(cs, PhantomData),
                        orig == cs@,
                        orig.len() == k,
                        forall|j: int| 0 <= j < k ==> #[trigger] branches(*orig[j], k),
                        out@.len() + rest@.len() == orig.len(),
                        rest@ == orig.skip(out@.len() as int),
                        forall|j: int|
                            0 <= j < out@.len() ==> #[trigger] merges_to(*orig[j], *out@[j], *close)
                                && branches(*out@[j], k) && tree_bounds(*out@[j]) == tree_bounds(*orig[j]),
                    decreases rest@.len(),
                {
                    let ghost j = out@.len() as int;
                    let c = rest.remove(0);
                    proof {
                        assert(*c == *orig[j]);
                        let csv = t0->Root_0;
                        assert(decreases_to!(t0 => csv));
                        assert(decreases_to!(csv => csv@));
                        assert(decreases_to!(csv@ => csv@[j]));
                        assert(decreases_to!(t0 => *orig[j]));
                        assert(decreases_to!(t0 => *c));
                    }
                    let c2 = (*c).merge_by(close);
                    let ghost old_out = out@;
                    out.push(Box::new(c2));
                    proof {
                        assert(rest@ =~= orig.skip(out@.len() as int));
                        assert(out@[j] == c2);
                        assert forall|i: int| 0 <= i < j implies out@[i] == old_out[i] by {}
                    }
                }
                let ghost ms = out@;
                proof {
                    lemma_forest_merges_to(orig, ms, k, *close);
                    assert forall|j: int| 0 <= j < k implies #[trigger] branches(*ms[j], k) by {
                        assert(merges_to(*orig[j], *out@[j], *close));
                    }
                    lemma_branches_root(out, k);
                }
                let m = Tree::Root(out, PhantomData);
                proof {
                    assert(m->Root_0@ == ms);
                    assert(merges_to(*orig[0], *ms[0], *close) && branches(*ms[0], k));
                    assert(merges_to(*orig[k - 1], *ms[k - 1], *close) && branches(*ms[k - 1], k));
                    lemma_branches_leaves(m, k);
                    lemma_branches_leaves(*orig[0], k);
                    lemma_branches_leaves(*orig[k - 1], k);
                    lemma_branches_leaves(*ms[0], k);
                    lemma_branches_leaves(*ms[k - 1], k);
                    assert(tree_bounds(m) == tree_bounds(t0));
                }
                match m.shared_leaf_type() {
                    Some(ty) => {
                        let accept = close(&m);
                        proof {
                            assert(forest_merges_to(orig, ms, k, *close));
                        }
                        if accept {
                            let b = m.bounds();
                            let r = Tree::Leaf(SubdivisionCell { bounds: b, ty });
                            proof {
                                assert(merge_step(m, r, *close));
                                lemma_merges_root(t0, m, r, *close);
                            }
                            r
                        } else {
                            proof {
                                assert(merge_step(m, m, *close));
                                lemma_merges_root(t0, m, m, *close);
                            }
                            m
                        }
                    },
                    None => {
                        proof {
                            assert(forest_merges_to(orig, ms, k, *close));
                            assert(merge_step(m, m, *close));
                            lemma_merges_root(t0, m, m, *close);
                        }
                        m
                    },
                }
            },
        }
    }
}

/// Merging with a test that never accepts keeps the tree as it is: the same shape and the
/// same leaves, in order.
pub proof fn lemma_merge_rejecting<P, D, F: Fn(&Tree<SubdivisionCell<P>, D>) -> bool>(
    t: Tree<SubdivisionCell<P>, D>,
    r: Tree<SubdivisionCell<P>, D>,
    close: F,
)
    requires
        merges_to(t, r, close),
        forall|x: &Tree<SubdivisionCell<P>, D>, b: bool| #[trigger] close.ensures((x,), b) ==> !b,
    ensures
        same_shape(r, t),
        tree_leaves(r) == tree_leaves(t),
    decreases t,
{
    match t {
        Tree::Leaf(_) => {},
        Tree::Root(cs, _) => {
            let m = choose|m: Tree<SubdivisionCell<P>, D>|
                {
                    &&& m is Root
                    &&& m->Root_0@.len() == cs@.len()
                    &&& forest_merges_to(cs@, m->Root_0@, cs@.len(), close)
                    &&& #[trigger] merge_step(m, r, close)
                };
            if close.ensures((&m,), true) {
                assert(!true);
            }
            assert(r == m);
            let ms = m->Root_0@;
            let n = cs@.len();
            lemma_forest_merges_to(cs@, ms, n, close);
            assert forall|i: int| 0 <= i < n implies #[trigger] same_shape(*ms[i], *cs@[i])
                && tree_leaves(*ms[i]) =~= tree_leaves(*cs@[i]) by {
                assert(merges_to(*cs@[i], *ms[i], close));
                lemma_merge_rejecting(*cs@[i], *ms[i], close);
            }
            lemma_forest_agree(ms, cs@, n);
            assert(tree_leaves(r) == forest_leaves(ms, n));
            assert(tree_leaves(t) == forest_leaves(cs@, n));
        },
    }
}

/// The type that the root's subtrees share is one that every subtree, the last included, has
/// as a leaf; and subtrees that are all leaves of one type do share it.
pub proof fn lemma_shared_leaf_type<P, D>(t: Tree<SubdivisionCell<P>, D>)
    ensures
        shared_leaf_type(t) matches Some(ty) ==> t is Root && t->Root_0@.len() > 0 && forall|i: int|
            0 <= i < t->Root_0@.len() ==> (*#[trigger] t->Root_0@[i]) is Leaf && (*t->Root_0@[i])->Leaf_0.ty
                == ty,
        (t is Root && t->Root_0@.len() > 0 && forall|i: int|
            0 <= i < t->Root_0@.len() ==> (*#[trigger] t->Root_0@[i]) is Leaf && (*t->Root_0@[i])->Leaf_0.ty
                == (*t->Root_0@[0])->Leaf_0.ty) ==> shared_leaf_type(t) == Some(
            (*t->Root_0@[0])->Leaf_0.ty,
        ),
{
}

/// A merge turns a subtree into a single leaf only where every leaf below it has that leaf's
/// type: merging never joins leaves of two types.
pub proof fn lemma_merge_leaf_types<P, D, F: Fn(&Tree<SubdivisionCell<P>, D>) -> bool>(
    t: Tree<SubdivisionCell<P>, D>,
    r: Tree<SubdivisionCell<P>, D>,
    close: F,
)
    requires
        merges_to(t, r, close),
        r is Leaf,
    ensures
        all_of_type(tree_leaves(t), r->Leaf_0.ty),
    decreases t,
{
    let ty = r->Leaf_0.ty;
    match t {
        Tree::Leaf(_) => {
            assert(tree_leaves(t) =~= seq![r->Leaf_0]);
        },
        Tree::Root(cs, _) => {
            let m = choose|m: Tree<SubdivisionCell<P>, D>|
                {
                    &&& m is Root
                    &&& m->Root_0@.len() == cs@.len()
                    &&& forest_merges_to(cs@, m->Root_0@, cs@.len(), close)
                    &&& #[trigger] merge_step(m, r, close)
                };
            let ms = m->Root_0@;
            let n = cs@.len();
            lemma_shared_leaf_type(m);
            assert(shared_leaf_type(m) == Some(ty));
            lemma_forest_merges_to(cs@, ms, n, close);
            assert forall|i: int| 0 <= i < n implies all_of_type(tree_leaves(#[trigger] *cs@[i]), ty) by {
                assert(merges_to(*cs@[i], *ms[i], close));
                assert((*ms[i]) is Leaf && (*ms[i])->Leaf_0.ty == ty);
                lemma_merge_leaf_types(*cs@[i], *ms[i], close);
            }
            let p = |c: SubdivisionCell<P>| c.ty == ty;
            lemma_forest_all(cs@, n, p);
            assert forall|j: int, i: int|
                0 <= j < n && 0 <= i < tree_leaves(*cs@[j]).len() implies p(
                #[trigger] tree_leaves(*cs@[j])[i],
            ) by {
                assert(all_of_type(tree_leaves(*cs@[j]), ty));
            }
            assert(tree_leaves(t) == forest_leaves(cs@, n));
            assert forall|i: int| 0 <= i < tree_leaves(t).len() implies (#[trigger] tree_leaves(t)[i]).ty
                == ty by {
                assert(p(forest_leaves(cs@, n)[i]));
            }
        },
    }
}
} // verus!
