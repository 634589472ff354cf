use std::marker::PhantomData;

use elysian_mesh::tree::Tree;
use elysian_mesh::vector_space::D2;

fn leaf(v: u32) -> Box<Tree<u32, D2>> {
    Box::new(Tree::Leaf(v))
}

fn sample() -> Tree<u32, D2> {
    Tree::Root(
        vec![
            leaf(1),
            Box::new(Tree::Root(vec![leaf(2), leaf(3), leaf(4), leaf(5)], PhantomData)),
            leaf(6),
            leaf(7),
        ],
        PhantomData,
    )
}

#[test]
fn leaves_in_order() {
    let t = sample();
    let leaves: Vec<u32> = t.iter().into_iter().copied().collect();
    assert_eq!(leaves, vec![1, 2, 3, 4, 5, 6, 7]);
}

#[test]
fn depth_and_depths() {
    let t = sample();
    assert_eq!(t.depth(), 2);
    let depths: Vec<usize> = t.depths().into_iter().collect();
    assert_eq!(depths, vec![1, 2]);
    let per_leaf: Vec<usize> = t.map_depth().iter().into_iter().copied().collect();
    assert_eq!(per_leaf, vec![1, 2, 2, 2, 2, 1, 1]);
}

#[test]
fn grids() {
    assert!(!sample().is_grid());
    let g: Tree<u32, D2> = Tree::Root(vec![leaf(1), leaf(2), leaf(3), leaf(4)], PhantomData);
    assert!(g.is_grid());
    assert!(Tree::<u32, D2>::Leaf(0).is_grid());
    assert_eq!(g.resolution(), 4);
    assert_eq!(sample().resolution(), 16);
    assert_eq!(Tree::<u32, D2>::Leaf(0).resolution(), 1);
}

#[test]
fn map_keeps_shape() {
    let t = sample().map(|v| v * 10);
    let leaves: Vec<u32> = t.iter().into_iter().copied().collect();
    assert_eq!(leaves, vec![10, 20, 30, 40, 50, 60, 70]);
    assert_eq!(t.depth(), 2);
}
