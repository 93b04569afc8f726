//! Bounding-volume hierarchy construction and traversal, and the decisions
//! of a path tracer's integrator, over boxes on an integer grid.
pub mod aabb;
pub mod split;
pub mod bvh;
pub mod integrator;
pub mod raster;
