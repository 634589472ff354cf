use std::marker::PhantomData;

use elysian_mesh::dual_contour::dual_contour;
use elysian_mesh::dual_graph::AsDualGraph;
use elysian_mesh::marching_cells::Corners;
use elysian_mesh::subdivision_tree::{Bounds, CellType, SubdivisionCell};
use elysian_mesh::tree::Tree;
use elysian_mesh::vector_space::{D2, D3};

type Cell = SubdivisionCell<(i32, i32, i32)>;

fn cell(min: (i32, i32, i32), s: i32, ty: CellType) -> Cell {
    SubdivisionCell { bounds: Bounds { min, max: (min.0 + s, min.1 + s, min.2 + s) }, ty }
}

/// A complete grid of `2^depth` cells per axis over `[0, 2^depth)`, in subdivision order.
fn grid<D>(dims: usize, depth: u32, at: (i32, i32, i32), ty: &dyn Fn((i32, i32, i32)) -> CellType) -> Tree<Cell, D> {
    let size = 1 << depth;
    if depth == 0 {
        return Tree::Leaf(cell(at, 1, ty(at)));
    }
    let h = size / 2;
    let n = 1 << dims;
    let children = (0..n)
        .map(|i| {
            let o = (
                at.0 + (i & 1) as i32 * h,
                at.1 + ((i >> 1) & 1) as i32 * h,
                at.2 + ((i >> 2) & 1) as i32 * h,
            );
            Box::new(grid::<D>(dims, depth - 1, o, ty))
        })
        .collect();
    Tree::Root(children, PhantomData)
}

fn adjacent(a: &Cell, b: &Cell, face: u8) -> bool {
    let (p, q) = (a.bounds.min, b.bounds.min);
    let s = a.bounds.max.0 - a.bounds.min.0;
    match face {
        2 => q == (p.0 + s, p.1, p.2),
        4 => q == (p.0, p.1 + s, p.2),
        16 => q == (p.0, p.1, p.2 + s),
        _ => false,
    }
}

#[test]
fn quadtree_grid_pairs() {
    for depth in 0..4 {
        let t = grid::<D2>(2, depth, (0, 0, 0), &|_| CellType::Contour);
        let g = t.as_dual_graph();
        let n = 1usize << depth;
        assert_eq!(g.len(), 2 * n * (n - 1));
        for pair in g.iter() {
            let face = pair.face.0.get();
            assert!(face == 2 || face == 4);
            assert!(adjacent(pair.lhs, pair.rhs, face));
        }
    }
}

#[test]
fn octree_grid_pairs() {
    for depth in 0..3 {
        let t = grid::<D3>(3, depth, (0, 0, 0), &|_| CellType::Contour);
        let g = t.as_dual_graph();
        let n = 1usize << depth;
        assert_eq!(g.len(), 3 * n * n * (n - 1));
        for pair in g.iter() {
            let face = pair.face.0.get();
            assert!(face == 2 || face == 4 || face == 16);
            assert!(adjacent(pair.lhs, pair.rhs, face));
        }
    }
}

#[test]
fn quadtree_of_four_leaves() {
    let t = grid::<D2>(2, 1, (0, 0, 0), &|_| CellType::Empty);
    let pairs: Vec<((i32, i32, i32), (i32, i32, i32), u16)> = t
        .as_dual_graph()
        .into_vec()
        .into_iter()
        .map(|p| (p.lhs.bounds.min, p.rhs.bounds.min, p.face.0.get() as u16))
        .collect();
    assert_eq!(
        pairs,
        vec![
            ((0, 0, 0), (1, 0, 0), 2),
            ((0, 1, 0), (1, 1, 0), 2),
            ((0, 0, 0), (0, 1, 0), 4),
            ((1, 0, 0), (1, 1, 0), 4),
        ]
    );
}

#[test]
fn mixed_depth_boundary() {
    // a leaf on the left of a subdivided quadrant faces the two left children of it
    let left = Box::new(Tree::Leaf(cell((0, 0, 0), 2, CellType::Contour)));
    let right = Box::new(grid::<D2>(2, 1, (2, 0, 0), &|_| CellType::Contour));
    let top_l = Box::new(Tree::Leaf(cell((0, 2, 0), 2, CellType::Empty)));
    let top_r = Box::new(Tree::Leaf(cell((2, 2, 0), 2, CellType::Contour)));
    let t: Tree<Cell, D2> = Tree::Root(vec![left, right, top_l, top_r], PhantomData);
    let g = t.as_dual_graph();
    let pairs: Vec<((i32, i32, i32), (i32, i32, i32), u8)> =
        g.iter().iter().map(|p| (p.lhs.bounds.min, p.rhs.bounds.min, p.face.0.get())).collect();
    assert_eq!(
        pairs,
        vec![
            ((2, 0, 0), (3, 0, 0), 2),
            ((2, 1, 0), (3, 1, 0), 2),
            ((2, 0, 0), (2, 1, 0), 4),
            ((3, 0, 0), (3, 1, 0), 4),
            ((0, 0, 0), (2, 0, 0), 2),
            ((0, 0, 0), (2, 1, 0), 2),
            ((0, 2, 0), (2, 2, 0), 2),
            ((0, 0, 0), (0, 2, 0), 4),
            ((2, 1, 0), (2, 2, 0), 4),
            ((3, 1, 0), (2, 2, 0), 4),
        ]
    );
    let contours: Vec<((i32, i32, i32), (i32, i32, i32))> =
        g.contours().iter().map(|p| (p.lhs.bounds.min, p.rhs.bounds.min)).collect();
    assert_eq!(contours.len(), 8);
    assert!(!contours.contains(&((0, 2, 0), (2, 2, 0))));
    assert!(!contours.contains(&((0, 0, 0), (0, 2, 0))));
}

#[test]
fn dual_pair_cells() {
    let t = grid::<D2>(2, 1, (0, 0, 0), &|p| if p.0 == 0 { CellType::Full } else { CellType::Empty });
    let g = t.as_dual_graph();
    let first = g.iter()[0].iter();
    assert_eq!(first.len(), 2);
    assert_eq!(first[0].ty, CellType::Full);
    assert_eq!(first[1].ty, CellType::Empty);
}

#[test]
fn dual_contour_keeps_connected_pairs() {
    let t = grid::<D2>(2, 1, (0, 0, 0), &|_| CellType::Contour);
    let g = t.as_dual_graph();
    let pairs = g.contours();
    assert_eq!(pairs.len(), 4);
    let corners = vec![
        (Corners::<D2>::new(0b0010), Corners::<D2>::new(0b0001)),
        (Corners::<D2>::new(0b1111), Corners::<D2>::new(0b1111)),
        (Corners::<D2>::new(0b0010), Corners::<D2>::new(0b0000)),
        (Corners::<D2>::new(0b0000), Corners::<D2>::new(0b0000)),
    ];
    let c = dual_contour(&pairs, &corners);
    // the pair whose first cell lies wholly inside has no sign change and is dropped
    let kept: Vec<((i32, i32, i32), (i32, i32, i32))> =
        c.iter().iter().map(|p| (p[0].bounds.min, p[1].bounds.min)).collect();
    assert_eq!(
        kept,
        vec![((0, 0, 0), (1, 0, 0)), ((0, 0, 0), (0, 1, 0)), ((1, 0, 0), (1, 1, 0))]
    );
    assert_eq!(c.len(), 3);
    assert_eq!(c.contours().len(), 3);
    // cells that do not agree along their face are dropped too
    let mismatched = vec![(Corners::<D2>::new(0b0010), Corners::<D2>::new(0b0000)); 4];
    let d = dual_contour(&pairs, &mismatched);
    let kept: Vec<(i32, i32, i32)> = d.into_vec().iter().map(|p| p[0].bounds.min).collect();
    assert_eq!(kept, vec![(0, 0, 0), (1, 0, 0)]);
}
