use elysian_mesh::dual_quads::{dual_quads, edge_loops, edge_paths, unique_loops, unique_paths};

fn square() -> Vec<(usize, usize)> {
    vec![(0, 1), (1, 2), (2, 3), (3, 0)]
}

#[test]
fn paths_of_a_square() {
    let paths = edge_paths(&square());
    assert_eq!(
        paths,
        vec![(0, 1, 2), (1, 0, 3), (2, 1, 0), (1, 2, 3), (3, 2, 1), (2, 3, 0), (3, 0, 1), (0, 3, 2)]
    );
    assert_eq!(unique_paths(&paths), vec![(0, 1, 2), (1, 0, 3), (1, 2, 3), (2, 3, 0)]);
}

#[test]
fn loops_of_a_square() {
    let paths = vec![(0, 1, 2), (1, 0, 3), (1, 2, 3), (2, 3, 0)];
    let loops = edge_loops(&paths);
    assert_eq!(loops, vec![(2, 1, 0, 3), (1, 0, 3, 2), (1, 2, 3, 0), (0, 3, 2, 1)]);
    assert_eq!(unique_loops(&loops), vec![(2, 1, 0, 3)]);
}

#[test]
fn a_square_is_one_face() {
    assert_eq!(dual_quads(&square()), vec![(2, 1, 0, 3)]);
}

#[test]
fn an_open_path_has_no_face() {
    assert_eq!(dual_quads(&vec![(0, 1), (1, 2), (2, 3)]), vec![]);
}

#[test]
fn no_edges_no_faces() {
    assert_eq!(dual_quads(&vec![]), vec![]);
    assert_eq!(edge_paths(&vec![(4, 5)]), vec![]);
}

#[test]
fn repeated_edges_make_no_path_with_themselves() {
    assert_eq!(edge_paths(&vec![(4, 5), (4, 5)]), vec![]);
}

#[test]
fn reversed_paths_are_kept_once() {
    assert_eq!(unique_paths(&vec![(1, 2, 3), (3, 2, 1), (1, 2, 3)]), vec![(1, 2, 3)]);
}

#[test]
fn two_squares_side_by_side() {
    // 3 - 4 - 5
    // |   |   |
    // 0 - 1 - 2
    let edges = vec![(0, 1), (1, 2), (3, 4), (4, 5), (0, 3), (1, 4), (2, 5)];
    let quads = dual_quads(&edges);
    assert_eq!(quads.len(), 2);
    let mut corner_sets: Vec<Vec<usize>> = quads
        .iter()
        .map(|q| {
            let mut c = vec![q.0, q.1, q.2, q.3];
            c.sort();
            c
        })
        .collect();
    corner_sets.sort();
    assert_eq!(corner_sets, vec![vec![0, 1, 3, 4], vec![1, 2, 4, 5]]);
    for q in &quads {
        let sides = [(q.0, q.1), (q.1, q.2), (q.2, q.3), (q.3, q.0)];
        for (a, b) in sides {
            assert!(edges.contains(&(a, b)) || edges.contains(&(b, a)));
        }
        assert_ne!(q.1, q.3);
    }
}
