use elysian_mesh::bits::{index_of_bit16, index_of_bit8};
use elysian_mesh::vector_space::{VectorDimension, VectorSubdivision, D1, D2, D3};

#[test]
fn dimensions_and_subdivisions() {
    assert_eq!(D1::DIMENSION, 1);
    assert_eq!(D2::DIMENSION, 2);
    assert_eq!(D3::DIMENSION, 3);
    assert_eq!(D2::SUBDIVISION, 4);
    assert_eq!(D3::SUBDIVISION, 8);
}

#[test]
fn subdivision_positions_x_fastest() {
    assert_eq!(D1::subdivision_indices(), vec![vec![0]]);
    assert_eq!(D2::subdivision_indices(), vec![vec![0, 0], vec![1, 0], vec![0, 1], vec![1, 1]]);
    assert_eq!(
        D3::subdivision_indices(),
        vec![
            vec![0, 0, 0],
            vec![1, 0, 0],
            vec![0, 1, 0],
            vec![1, 1, 0],
            vec![0, 0, 1],
            vec![1, 0, 1],
            vec![0, 1, 1],
            vec![1, 1, 1],
        ]
    );
}

#[test]
fn bit_indices() {
    assert_eq!(index_of_bit8(1), 0);
    assert_eq!(index_of_bit8(128), 7);
    assert_eq!(index_of_bit8(3), 8);
    assert_eq!(index_of_bit16(1024), 10);
    assert_eq!(index_of_bit16(0), 16);
}
