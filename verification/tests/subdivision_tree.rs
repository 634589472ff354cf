use std::marker::PhantomData;

use elysian_mesh::subdivision_tree::{Bounds, CellIndices, CellType, FaceCenters, SubdivisionCell};
use elysian_mesh::tree::Tree;
use elysian_mesh::vector_space::{D2, D3};

type Cell = SubdivisionCell<(i32, i32)>;
type QuadTree = Tree<Cell, D2>;

fn leaf(min: (i32, i32), max: (i32, i32), ty: CellType) -> Box<QuadTree> {
    Box::new(Tree::Leaf(SubdivisionCell { bounds: Bounds { min, max }, ty }))
}

fn root(children: Vec<Box<QuadTree>>) -> QuadTree {
    Tree::Root(children, PhantomData)
}

fn quad(x: i32, y: i32, s: i32, tys: [CellType; 4]) -> QuadTree {
    root(vec![
        leaf((x, y), (x + s, y + s), tys[0]),
        leaf((x + s, y), (x + 2 * s, y + s), tys[1]),
        leaf((x, y + s), (x + s, y + 2 * s), tys[2]),
        leaf((x + s, y + s), (x + 2 * s, y + 2 * s), tys[3]),
    ])
}

use CellType::{Contour, Empty, Full};

#[test]
fn cell_type_from_samples() {
    assert_eq!(CellType::from_inside(&vec![true, true, true, true]), Full);
    assert_eq!(CellType::from_inside(&vec![false, false, false, false]), Empty);
    assert_eq!(CellType::from_inside(&vec![true, false, true, true]), Contour);
    assert_eq!(CellType::from_inside(&vec![]), Full);
}

#[test]
fn cell_type_queries() {
    let c = SubdivisionCell { bounds: Bounds { min: 0, max: 1 }, ty: Contour };
    assert!(c.is_contour() && !c.is_empty() && !c.is_full());
    assert!(c.is_type(Contour));
}

#[test]
fn corners_and_bounds_come_from_first_and_last_leaves() {
    let t = root(vec![
        Box::new(quad(0, 0, 1, [Empty; 4])),
        leaf((2, 0), (4, 2), Full),
        leaf((0, 2), (2, 4), Contour),
        leaf((2, 2), (4, 4), Empty),
    ]);
    assert_eq!(t.min_corner(), (0, 0));
    assert_eq!(t.max_corner(), (4, 4));
    assert_eq!(t.bounds(), Bounds { min: (0, 0), max: (4, 4) });
}

#[test]
fn cells_by_type() {
    let t = quad(0, 0, 1, [Empty, Contour, Full, Contour]);
    let contour: Vec<(i32, i32)> = t.cells_contour().iter().map(|c| c.bounds.min).collect();
    assert_eq!(contour, vec![(1, 0), (1, 1)]);
    assert_eq!(t.cells_empty().len(), 1);
    assert_eq!(t.cells_full().len(), 1);
    assert_eq!(t.cells_full()[0].bounds.min, (0, 1));
}

#[test]
fn collapse_merges_uniform_subtrees() {
    let t = root(vec![
        Box::new(quad(0, 0, 1, [Empty; 4])),
        Box::new(quad(2, 0, 1, [Full; 4])),
        Box::new(quad(0, 2, 1, [Empty, Contour, Empty, Empty])),
        leaf((2, 2), (4, 4), Contour),
    ]);
    let c = t.collapse();
    match &c {
        Tree::Root(children, _) => {
            assert_eq!(children.len(), 4);
            match &*children[0] {
                Tree::Leaf(cell) => {
                    assert_eq!(cell.ty, Empty);
                    assert_eq!(cell.bounds, Bounds { min: (0, 0), max: (2, 2) });
                }
                _ => panic!("first quadrant should collapse"),
            }
            match &*children[1] {
                Tree::Leaf(cell) => {
                    assert_eq!(cell.ty, Full);
                    assert_eq!(cell.bounds, Bounds { min: (2, 0), max: (4, 2) });
                }
                _ => panic!("second quadrant should collapse"),
            }
            assert!(matches!(&*children[2], Tree::Root(..)));
            assert!(matches!(&*children[3], Tree::Leaf(_)));
        }
        _ => panic!("mixed root should stay a root"),
    }
    assert_eq!(c.bounds(), Bounds { min: (0, 0), max: (4, 4) });
}

#[test]
fn collapse_of_all_empty_tree_is_one_leaf() {
    let t = root(vec![
        Box::new(quad(0, 0, 1, [Empty; 4])),
        leaf((2, 0), (4, 2), Empty),
        leaf((0, 2), (2, 4), Empty),
        Box::new(quad(2, 2, 1, [Empty; 4])),
    ]);
    match t.collapse() {
        Tree::Leaf(cell) => {
            assert_eq!(cell.ty, Empty);
            assert_eq!(cell.bounds, Bounds { min: (0, 0), max: (4, 4) });
        }
        _ => panic!("uniform tree should collapse to a leaf"),
    }
}

#[test]
fn collapse_twice_is_collapse_once() {
    let t = root(vec![
        Box::new(quad(0, 0, 1, [Full; 4])),
        Box::new(quad(2, 0, 1, [Full, Contour, Full, Full])),
        leaf((0, 2), (2, 4), Empty),
        leaf((2, 2), (4, 4), Contour),
    ]);
    let once = t.collapse();
    let once_again = once.clone_shape();
    let twice = once_again.collapse();
    assert_eq!(format!("{:?}", once), format!("{:?}", twice));
}

trait CloneShape {
    fn clone_shape(&self) -> Self;
}

impl CloneShape for QuadTree {
    fn clone_shape(&self) -> Self {
        match self {
            Tree::Leaf(c) => Tree::Leaf(*c),
            Tree::Root(cs, _) => Tree::Root(cs.iter().map(|c| Box::new(c.clone_shape())).collect(), PhantomData),
        }
    }
}

#[test]
fn cell_outlines() {
    assert_eq!(QuadTree::cell_indices(), vec![0, 2, 2, 3, 3, 1, 1, 0]);
    assert_eq!(
        Tree::<Cell, D3>::cell_indices(),
        vec![0, 1, 1, 3, 2, 3, 2, 0, 4, 5, 5, 7, 6, 7, 6, 4, 0, 4, 1, 5, 2, 6, 3, 7]
    );
}

#[test]
fn face_centers_of_a_split_square() {
    let t = quad(0, 0, 1, [Empty; 4]);
    assert_eq!(t.face_centers(), vec![(1, 0), (2, 1), (0, 1), (1, 2)]);
}

#[test]
fn face_centers_of_a_split_cube() {
    let children = (0..8)
        .map(|i: i32| {
            let min = ((i & 1) * 2, ((i >> 1) & 1) * 2, ((i >> 2) & 1) * 2);
            Box::new(Tree::Leaf(SubdivisionCell {
                bounds: Bounds { min, max: (min.0 + 2, min.1 + 2, min.2 + 2) },
                ty: Full,
            }))
        })
        .collect();
    let t: Tree<SubdivisionCell<(i32, i32, i32)>, D3> = Tree::Root(children, PhantomData);
    assert_eq!(
        t.face_centers(),
        vec![(4, 2, 2), (2, 4, 2), (2, 2, 0), (2, 2, 4), (2, 0, 2), (0, 2, 2)]
    );
}

#[test]
fn shared_leaf_types() {
    assert_eq!(quad(0, 0, 1, [Full; 4]).shared_leaf_type(), Some(Full));
    assert_eq!(quad(0, 0, 1, [Full, Full, Empty, Full]).shared_leaf_type(), None);
    let t = root(vec![
        Box::new(quad(0, 0, 1, [Full; 4])),
        leaf((2, 0), (4, 2), Full),
        leaf((0, 2), (2, 4), Full),
        leaf((2, 2), (4, 4), Full),
    ]);
    assert_eq!(t.shared_leaf_type(), None);
    assert_eq!(Tree::<Cell, D2>::Leaf(SubdivisionCell { bounds: Bounds { min: (0, 0), max: (1, 1) }, ty: Full }).shared_leaf_type(), None);
}
