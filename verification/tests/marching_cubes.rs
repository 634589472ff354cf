use elysian_mesh::marching_cells::marching_cubes::{Group, QUAD_INDICES};
use elysian_mesh::marching_cells::Corners;
use elysian_mesh::vector_space::D3;

fn bits(groups: &[Group]) -> Vec<(Vec<u16>, bool)> {
    groups
        .iter()
        .map(|(edges, indices)| {
            (
                edges.iter().map(|e| e.0.get()).collect::<Vec<u16>>(),
                indices.is_some(),
            )
        })
        .collect()
}

fn groups_of(x: u8) -> Vec<(Vec<u16>, bool)> {
    bits(&Corners::<D3>::new(x).march_cube_groups())
}

#[test]
fn lone_corner_is_one_triangle() {
    assert_eq!(groups_of(1), vec![(vec![16, 128, 256], false)]);
}

#[test]
fn two_lone_corners_are_two_triangles() {
    assert_eq!(
        groups_of(0x81),
        vec![(vec![16, 128, 256], false), (vec![2, 4, 1024], false)]
    );
}

#[test]
fn two_lines_make_a_quad() {
    assert_eq!(groups_of(3), vec![(vec![128, 256, 32, 512], true)]);
}

#[test]
fn point_and_two_lines_make_a_fan() {
    assert_eq!(
        groups_of(7),
        vec![
            (vec![32, 512, 256], false),
            (vec![64, 2048, 256], false),
            (vec![32, 256, 64], false),
        ]
    );
}

#[test]
fn four_points_make_a_quad() {
    assert_eq!(groups_of(15), vec![(vec![256, 512, 2048, 1024], true)]);
}

#[test]
fn three_lines_make_a_hexagon() {
    assert_eq!(
        groups_of(23),
        vec![
            (vec![32, 512, 64], false),
            (vec![1, 8, 2048], false),
            (vec![512, 64, 2048, 1], true),
        ]
    );
}

#[test]
fn two_points_and_two_lines_make_a_folded_hexagon() {
    assert_eq!(
        groups_of(27),
        vec![
            (vec![64, 1024, 512], false),
            (vec![1, 8, 128], false),
            (vec![512, 64, 1, 128], true),
        ]
    );
}

#[test]
fn folded_hexagon_with_one_nearest_point() {
    assert_eq!(
        groups_of(111),
        vec![
            (vec![1, 2, 1024], false),
            (vec![4, 8, 1024], false),
            (vec![1024, 1, 8, 1024], true),
        ]
    );
}

#[test]
fn three_points_and_a_line_make_an_inverse_fan() {
    assert_eq!(
        groups_of(31),
        vec![
            (vec![512, 1024, 1], false),
            (vec![1, 1024, 8], false),
            (vec![8, 1024, 2048], false),
        ]
    );
}

#[test]
fn four_lines_make_two_quads() {
    assert_eq!(
        groups_of(60),
        vec![(vec![128, 2048, 32, 1024], true), (vec![8, 256, 2, 512], true)]
    );
}

#[test]
fn three_points_and_two_lines_make_a_quad_and_a_triangle() {
    assert_eq!(
        groups_of(61),
        vec![(vec![32, 512, 16], false), (vec![1024, 2, 2048, 8], true)]
    );
}

#[test]
fn six_points_make_two_triangles() {
    assert_eq!(
        groups_of(126),
        vec![(vec![16, 128, 256], false), (vec![1024, 2, 4], false)]
    );
}

#[test]
fn three_points_make_a_triangle() {
    assert_eq!(groups_of(127), vec![(vec![1024, 2, 4], false)]);
}

#[test]
fn full_and_empty_cubes_have_no_polygons() {
    assert!(groups_of(0).is_empty());
    assert!(groups_of(255).is_empty());
}

#[test]
fn every_mixed_cube_has_shaped_polygons_on_crossing_edges() {
    for x in 1..=254u8 {
        let groups = Corners::<D3>::new(x).march_cube_groups();
        assert!(!groups.is_empty(), "cube {x} has no polygon");
        for (edges, indices) in &groups {
            match indices {
                None => assert_eq!(edges.len(), 3),
                Some(i) => {
                    assert_eq!(edges.len(), 4);
                    assert_eq!(i.as_slice(), &QUAD_INDICES[..]);
                }
            }
            for e in edges {
                let b = e.0.get();
                assert!(b.is_power_of_two() && b < 4096);
                let i = b.trailing_zeros() as usize;
                let ends = [[4, 5], [5, 7], [6, 7], [4, 6], [0, 1], [1, 3], [2, 3], [0, 2], [4, 0], [5, 1], [7, 3], [6, 2]][i];
                let inside = |c: usize| x & (1 << c) != 0;
                assert_ne!(inside(ends[0]), inside(ends[1]), "cube {x} edge {b} does not cross");
            }
        }
    }
}

#[test]
fn crossing_edges_are_used_but_in_folded_hexagons() {
    let ends = [[4, 5], [5, 7], [6, 7], [4, 6], [0, 1], [1, 3], [2, 3], [0, 2], [4, 0], [5, 1], [7, 3], [6, 2]];
    let mut missing: Vec<u8> = Vec::new();
    for x in 1..=254u8 {
        let groups = Corners::<D3>::new(x).march_cube_groups();
        let inside = |c: usize| x & (1 << c) != 0;
        let all_used = (0..12).all(|i| {
            let crosses = inside(ends[i][0]) != inside(ends[i][1]);
            !crosses || groups.iter().any(|(edges, _)| edges.iter().any(|e| e.0.get() == 1 << i))
        });
        if !all_used {
            missing.push(x);
        }
    }
    assert_eq!(missing, vec![111, 123, 125, 159, 183, 190, 215, 222, 235, 237, 246, 249]);
}
