//! An endless terrain of scalar values in chunks, the contours and meshes of
//! its surface, and the collision of a moving body with it.
//!
//! Every scalar (field values, thresholds, coordinates, velocities, time
//! steps) is a fixed-point number: an `i64` that counts 65536ths.

pub mod common;
pub mod fixed;
pub mod contour;
pub mod tiling;
pub mod grid;
pub mod grid_map;
pub mod player;
pub mod editor;
