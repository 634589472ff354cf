use elysian_mesh::has_sign_change::HasSignChange;
use elysian_mesh::marching_cells::{
    All, Cell, Corner, Corners, Edge, Edges, Face, Faces, ToCorners, ToEdges, ToMarchPrimitives,
};
use elysian_mesh::neighbours::Neighbours;
use elysian_mesh::vector_space::{D2, D3};

fn corner_bits<D>(v: &[Corner<D>]) -> Vec<u8> {
    v.iter().map(|c| c.0.get()).collect()
}

fn edge_bits<D>(v: &[Edge<D>]) -> Vec<u16> {
    v.iter().map(|e| e.0.get()).collect()
}

#[test]
fn corners_of_a_square() {
    assert_eq!(Corner::<D2>::DL().0.get(), 1);
    assert_eq!(Corner::<D2>::UR().0.get(), 8);
    assert!(Corner::<D2>::new(3).is_none());
    assert_eq!(Corner::<D2>::new(4).map(|c| c.0.get()), Some(4));
    assert_eq!(corner_bits(&Corners::<D2>::new(0b0101).corners()), vec![1, 4]);
    assert!(Corners::<D2>::EMPTY().is_empty());
    assert_eq!(Corners::<D2>::all().0, 0xF);
    assert_eq!(Corners::<D3>::all().0, 0xFF);
}

#[test]
fn corner_and_edge_incidence() {
    assert_eq!(Corner::<D2>::DL().to_edges().0, Edge::<D2>::D().0.get() | Edge::<D2>::L().0.get());
    assert_eq!(Edge::<D2>::L().to_corners().0, 0b0101);
    assert_eq!(Edge::<D2>::U().to_corners().0, 0b1100);
    assert_eq!(Edge::<D3>::FD().to_corners().0, 0x30);
    assert_eq!(Corner::<D3>::BDL().to_edges().0, 0x190);
    assert_eq!(Corners::<D2>::new(0b0011).to_edges().0, 0b1011);
    assert_eq!(Edges::<D2>::new(0b0011).to_corners().0, 0b1111);
    assert_eq!(edge_bits(&Edges::<D3>::new(0x190).edges()), vec![16, 128, 256]);
    assert_eq!(Edges::<D3>::all().0, 0xFFF);
    assert_eq!(Faces::<D3>::all().0, 0x3F);
    assert_eq!(Face::<D2>::R().to_corners().0, 0b1010);
    assert_eq!(Faces::<D2>::new(0b0101).faces().len(), 2);
}

#[test]
fn corners_from_samples() {
    assert_eq!(Corners::<D2>::from_inside(&vec![true, false, false, true]).0, 0b1001);
    assert_eq!(Corners::<D3>::from_inside(&vec![false; 8]).0, 0);
    assert_eq!(Corners::<D3>::from_inside(&vec![true; 8]).0, 0xFF);
    assert_eq!(Corners::<D2>::from_inside(&vec![false, true]).0, 0b10);
}

#[test]
fn cell_lists_crossing_edges_per_corner() {
    let cell = Corners::<D2>::new(0b0001).cell();
    assert_eq!(cell.len(), 1);
    assert_eq!(cell[0].0 .0.get(), 1);
    assert_eq!(cell[0].1 .0, 0b1001);
    let cell = Corners::<D2>::new(0b0011).cell();
    let masks: Vec<u16> = cell.iter().map(|(_, e)| e.0).collect();
    assert_eq!(masks, vec![0b0001, 0b0010]);
    assert!(Corners::<D2>::new(0).cell().is_empty());
    assert!(Corners::<D2>::new(0xF).cell().is_empty());
    assert!(Corners::<D3>::new(0xFF).cell().is_empty());
}

fn segments(x: u8) -> Vec<(Vec<u16>, bool)> {
    Corners::<D2>::new(x)
        .march_primitives()
        .into_vec()
        .into_iter()
        .map(|p| (edge_bits(&p.edges), p.indices.is_some()))
        .collect()
}

#[test]
fn marching_squares_segments() {
    assert!(segments(0).is_empty());
    assert!(segments(0xF).is_empty());
    assert_eq!(segments(0b0001), vec![(vec![1, 8], false)]);
    assert_eq!(segments(0b0011), vec![(vec![1, 2], false)]);
    assert_eq!(segments(0b1001), vec![(vec![1, 8], false), (vec![2, 4], false)]);
    assert_eq!(segments(0b1110), vec![(vec![8, 1], false)]);
}

#[test]
fn every_mixed_square_has_one_or_two_segments() {
    for x in 1..15u8 {
        let s = segments(x);
        assert!(s.len() == 1 || s.len() == 2, "square {x}");
        for (edges, _) in s {
            assert_eq!(edges.len(), 2);
        }
    }
}

#[test]
fn neighbours_across_faces() {
    let a = Corners::<D2>::new(0b0010);
    let b = Corners::<D2>::new(0b0001);
    assert!(a.neighbours(&b, &Face::<D2>::R()));
    assert!(b.neighbours(&a, &Face::<D2>::L()));
    assert!(!a.neighbours(&Corners::<D2>::new(0), &Face::<D2>::R()));
    assert!(!Corners::<D2>::new(0).neighbours(&a, &Face::<D2>::L()));
    for x in 0..16u8 {
        for y in 0..16u8 {
            let (a, b) = (Corners::<D2>::new(x), Corners::<D2>::new(y));
            assert_eq!(a.neighbours(&b, &Face::<D2>::R()), b.neighbours(&a, &Face::<D2>::L()));
            assert_eq!(a.neighbours(&b, &Face::<D2>::U()), b.neighbours(&a, &Face::<D2>::D()));
        }
    }
    let (c, d) = (Corners::<D3>::new(0xF0), Corners::<D3>::new(0x0F));
    assert!(c.neighbours(&d, &Face::<D3>::F()));
    assert!(d.neighbours(&c, &Face::<D3>::B()));
}

#[test]
fn sign_changes_on_faces() {
    let x = Corners::<D2>::new(0b0010);
    assert!(x.has_sign_change(&Face::<D2>::R()));
    assert!(x.has_sign_change(&Face::<D2>::L()));
    let full = Corners::<D2>::new(0xF);
    assert!(!full.has_sign_change(&Face::<D2>::R()));
    assert!(!full.has_sign_change(&Face::<D2>::U()));
}
