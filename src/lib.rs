//! Maze generation on a rectangular grid, and a map of the finished maze by
//! distance through its passages.
//!
//! A [`maze::Maze`] is a `w x h` grid of cells whose interior walls are open
//! or closed. Six strategies build one from a seeded random source: binary
//! tree, sidewinder, the growing-tree family (depth-first, Prim-like, and a
//! cheap Prim stand-in), Kruskal, Eller and recursive division. The
//! [`distance::distance`] search then assigns every cell to the center that
//! reaches it first through open walls, with its distance from it.
pub mod binary;
pub mod distance;
pub mod eller;
pub mod growing_tree;
pub mod kruskal;
pub mod maze;
pub mod recursive_division;
pub mod rng;
pub mod sidewinder;
pub mod unify;
