//! A two-dimensional spatial index: a region quadtree over axis-aligned
//! rectangles. Space is split into four quadrants once a node's capacity is
//! exceeded; queries prune whole subtrees whose boundary misses the region.

pub mod geometry;
pub mod model;
pub mod tree;
pub mod laws;
