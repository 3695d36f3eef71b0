//! A verified solver for cube-folding mazes.
//!
//! Six square grids, each a maze of walls, floor cells and outlets, are the
//! faces of a cube.  Each face is contracted into a sparse weighted graph of
//! its interesting points (outlets, border exits, junctions), the faces are
//! folded together so that the boundary points of adjacent edges align, the
//! per-face graphs are merged across the folds, and the cheapest connected
//! spanning structure of the merged graph is computed.
//!
//! Beside the solver, the crate carries a few small verified helpers for
//! related puzzle work: wildcard matching over byte strings, decimal digit
//! counting, node-name indexing, integer plane geometry with a quadtree
//! point search, and a best-score sweep over grids of scores.

pub mod assemble;
pub mod builder;
pub mod cube;
pub mod digits;
pub mod forest;
pub mod geom;
pub mod graph;
pub mod grid;
pub mod names;
pub mod pattern;
pub mod reduce;
pub mod routes;
pub mod solve;
pub mod unionfind;
