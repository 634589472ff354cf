# elysian_mesh

Meshing of signed distance fields by marching cells and dual contouring, written in Verus.

`src/` is the verified library:

- `marching_cells`: corners, edges and faces of the unit square and cube as bit masks, the
  cell topology tables behind them, which edges a sampled cell's surface crosses, the
  marching-squares segments and the marching-cubes polygon groups.
- `marching_squares`: the sixteen contour cases of a square cell and their sides.
- `neighbours`, `has_sign_change`: when two sampled cells agree across a face, and whether
  some corner of a face lies outside the surface.
- `tree`, `subdivision_tree`: quadtrees and octrees of cells, complete grids of them, their
  leaves, depths and bounds, collapsing uniform subtrees, and merging same-typed leaves
  that a caller's test accepts.
- `dual_graph`: the pairs of leaves that meet across a face, proved to be exactly those
  pairs; `dual_contour` keeps the pairs the surface passes between; `dual_quads` closes
  three-dimensional dual edges into quadrilateral faces.
- `gltf_export`: vertex and index buffers laid out for glTF, with base64 data URIs.
- `power2`, `bits`, `vector_space`, `util`: single-bit values, bit lemmas, dimensions, and
  collecting items into fixed-length arrays.

`app/` holds what works in floating point and the output: halving cell bounds, positions of
corners and edges, bisection for surface crossings, least-squares placement of dual-contour
points, winding order, the error test that decides merges, and the glTF documents of each meshing
step. `tests/` runs the library on concrete cases.

## Left out

- The shader side (`elysian-ir`, `elysian-naga`, `elysian-macros`): the intermediate
  representation's syntax tree (`Stmt`, `Expr`, `Struct`, `Value`) and the crates it builds on
  (`elysian_core`, `elysian_math`, `elysian_shapes`, `elysian_decl_macros`) are not at hand,
  so `Block`, `IntoBlock`, `ComposeBlocks`, `into_block_stmt`, `Evaluate`, `Dispatch`,
  `ErasedHash`, modules, properties, the Naga builder and the Rust reader are not here; nor
  are `Sample` and `Evaluator`, which sample shapes through that representation. Here a
  shape is a distance function, `Fn([f64; N]) -> f64`.
- The separate `QuadTree` with its `QuadCellType` and the `Bounds`-based `contours`: that
  module was not part of the build. Its square contours are `marching_squares::Contour`, and
  `app/zero.rs` has `contours`, `zero` and `zero_point`.
- `nalgebra`: vectors are arrays, and the least-squares solve is written out in `app/quads.rs`.
