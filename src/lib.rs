//! Core of a Monte Carlo path tracer: bounding boxes, the bounding-volume
//! hierarchy, nearest-hit selection, the row scheduler and framebuffer, the
//! render configuration and the integer lattice of Perlin noise.
//!
//! Scalar quantities that the core only compares (ray parameters, box
//! coordinates) are carried as `u64` keys whose integer order is the order of
//! the values they stand for.
pub mod aabb;
pub mod slab;
pub mod hitable;
pub mod hitable_list;
pub mod bvh_node;
pub mod scheduler;
pub mod perlin;
pub mod config;
