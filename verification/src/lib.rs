//! A spatial index over three-dimensional integer point clouds.
//!
//! Points are threaded into one shared successor list and partitioned in
//! place into an eight-way tree of cubic cells; neighbour queries walk that
//! tree with a shape-specific kernel (circle, sphere, square or cube).

pub mod point;
pub mod bound;
pub mod kernel;
pub mod chain;
pub mod octree;
pub mod laws;
