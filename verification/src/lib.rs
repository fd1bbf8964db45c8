//! Quadtree texture atlas: packs square power-of-two images into one square
//! atlas, tracking free space in an implicit quadtree stored as a flat array.

pub mod codec;
pub mod occupancy;
pub mod placement;
pub mod atlas;
pub mod config;
pub mod gl_enums;
pub mod overlap;
