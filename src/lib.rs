//! Bounding-volume hierarchy construction over triangle meshes.
//!
//! Coordinates live on an integer grid, so every box, centroid and split
//! cost is exact and the tree invariants are proved rather than tested.
pub mod bitonic;
pub mod builder;
pub mod bvh;
pub mod generator;
pub mod geometry;
pub mod iota;
pub mod laws;
pub mod morton;
pub mod network;
pub mod passes;
pub mod prefix_sum;
pub mod split;
pub mod triangle_bounds;
pub mod wireframe;
