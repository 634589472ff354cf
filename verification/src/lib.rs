pub mod bits;
pub mod cell_topology;
pub mod gltf_export;
pub mod has_sign_change;
pub mod marching_cells;
pub mod neighbours;
pub mod power2;
pub mod vector_space;
pub mod marching_squares;
pub mod tree;
pub mod subdivision_tree;
pub mod dual_graph;
pub mod dual_contour;
pub mod util;
pub mod dual_quads;
