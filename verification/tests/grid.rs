use elysian_mesh::dual_graph::AsDualGraph;
use elysian_mesh::subdivision_tree::{Bounds, CellType, SubdivisionCell};
use elysian_mesh::tree::Tree;
use elysian_mesh::vector_space::{D2, D3};

fn halves2(b: Bounds<(i32, i32)>) -> Vec<Bounds<(i32, i32)>> {
    let (hx, hy) = ((b.max.0 - b.min.0) / 2, (b.max.1 - b.min.1) / 2);
    (0..4)
        .map(|i| {
            let min = (b.min.0 + hx * (i & 1), b.min.1 + hy * (i >> 1));
            Bounds { min, max: (min.0 + hx, min.1 + hy) }
        })
        .collect()
}

fn halves3(b: Bounds<(i32, i32, i32)>) -> Vec<Bounds<(i32, i32, i32)>> {
    let h = ((b.max.0 - b.min.0) / 2, (b.max.1 - b.min.1) / 2, (b.max.2 - b.min.2) / 2);
    (0..8)
        .map(|i| {
            let min = (b.min.0 + h.0 * (i & 1), b.min.1 + h.1 * ((i >> 1) & 1), b.min.2 + h.2 * (i >> 2));
            Bounds { min, max: (min.0 + h.0, min.1 + h.1, min.2 + h.2) }
        })
        .collect()
}

fn grid2(n: usize) -> Tree<SubdivisionCell<(i32, i32)>, D2> {
    Tree::<SubdivisionCell<(i32, i32)>, D2>::new_grid(Bounds { min: (0, 0), max: (16, 16) }, n, &halves2)
}

#[test]
fn grid_of_level_zero_is_one_empty_leaf() {
    let t = grid2(0);
    match &t {
        Tree::Leaf(c) => {
            assert_eq!(c.bounds, Bounds { min: (0, 0), max: (16, 16) });
            assert_eq!(c.ty, CellType::Empty);
        },
        Tree::Root(..) => panic!("a level-zero grid is a leaf"),
    }
    assert_eq!(t.depths().into_iter().collect::<Vec<_>>(), vec![0]);
    assert!(t.is_grid());
    assert_eq!(t.as_dual_graph().len(), 0);
}

#[test]
fn grids_have_one_depth_and_every_face_pair() {
    for n in 1..=3usize {
        let t = grid2(n);
        assert_eq!(t.depths().into_iter().collect::<Vec<_>>(), vec![n]);
        assert!(t.is_grid());
        assert_eq!(t.depth(), n);
        let cells = t.iter();
        assert_eq!(cells.len(), 1 << (2 * n));
        assert!(cells.iter().all(|c| c.ty == CellType::Empty));
        let side = 1usize << n;
        let graph = t.as_dual_graph();
        assert_eq!(graph.len(), 2 * side * (side - 1));
        for pair in graph.iter() {
            let (l, r) = (pair.lhs.bounds, pair.rhs.bounds);
            if pair.face.0.get() == 2 {
                assert!(l.max.0 == r.min.0 && l.min.1 == r.min.1 && l.max.1 == r.max.1);
            } else {
                assert_eq!(pair.face.0.get(), 4);
                assert!(l.max.1 == r.min.1 && l.min.0 == r.min.0 && l.max.0 == r.max.0);
            }
        }
    }
}

#[test]
fn octree_grid_counts() {
    let t = Tree::<SubdivisionCell<(i32, i32, i32)>, D3>::new_grid(
        Bounds { min: (0, 0, 0), max: (8, 8, 8) },
        2,
        &halves3,
    );
    assert!(t.is_grid());
    assert_eq!(t.iter().len(), 64);
    assert_eq!(t.as_dual_graph().len(), 3 * 16 * 3);
}

#[test]
fn collapsing_a_grid_twice_gives_the_same_tree() {
    let once = grid2(2).collapse();
    let twice = grid2(2).collapse().collapse();
    assert_eq!(once.iter(), twice.iter());
    assert!(matches!(once, Tree::Leaf(SubdivisionCell { ty: CellType::Empty, .. })));
    assert!(matches!(twice, Tree::Leaf(SubdivisionCell { ty: CellType::Empty, .. })));
}

#[test]
fn merging_with_a_test_that_accepts_all_gives_one_leaf() {
    let merged = grid2(2).merge_by(&|_t: &Tree<SubdivisionCell<(i32, i32)>, D2>| true);
    match merged {
        Tree::Leaf(c) => {
            assert_eq!(c.bounds, Bounds { min: (0, 0), max: (16, 16) });
            assert_eq!(c.ty, CellType::Empty);
        },
        Tree::Root(..) => panic!("every root is accepted"),
    }
}

#[test]
fn merging_with_a_test_that_rejects_all_keeps_the_tree() {
    let before = grid2(2);
    let merged = grid2(2).merge_by(&|_t: &Tree<SubdivisionCell<(i32, i32)>, D2>| false);
    assert_eq!(merged.iter(), before.iter());
    assert!(merged.is_grid());
}

#[test]
fn merging_keeps_roots_of_mixed_types() {
    let t = grid2(1).map(|c| {
        let ty = if c.bounds.min == (0, 0) { CellType::Full } else { CellType::Empty };
        SubdivisionCell { bounds: c.bounds, ty }
    });
    let asked = std::cell::Cell::new(0);
    let merged = t.merge_by(&|_t: &Tree<SubdivisionCell<(i32, i32)>, D2>| {
        asked.set(asked.get() + 1);
        true
    });
    assert_eq!(asked.get(), 0);
    assert_eq!(merged.iter().len(), 4);
}

#[test]
fn merging_asks_only_about_roots_of_one_type() {
    let asked = std::cell::Cell::new(0);
    let merged = grid2(2).merge_by(&|t: &Tree<SubdivisionCell<(i32, i32)>, D2>| {
        asked.set(asked.get() + 1);
        t.iter().len() == 4 && t.iter()[0].bounds.min != (0, 0)
    });
    // The four lower roots are asked; three merge, the one at the origin does not, so the
    // upper root is not asked.
    assert_eq!(asked.get(), 4);
    assert_eq!(merged.iter().len(), 3 + 4);
}

#[test]
fn grid_subtrees_cover_the_split_parts_in_order() {
    let t = grid2(1);
    let bounds: Vec<Bounds<(i32, i32)>> = t.iter().into_iter().map(|c| c.bounds).collect();
    assert_eq!(
        bounds,
        vec![
            Bounds { min: (0, 0), max: (8, 8) },
            Bounds { min: (8, 0), max: (16, 8) },
            Bounds { min: (0, 8), max: (8, 16) },
            Bounds { min: (8, 8), max: (16, 16) },
        ]
    );
    assert_eq!(grid2(3).bounds(), Bounds { min: (0, 0), max: (16, 16) });
}
