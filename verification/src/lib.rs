//! A bounding-volume hierarchy (BVH) over sphere-like primitives, built by
//! recursive axis-aligned midpoint-split subdivision.
//!
//! The tree is an arena of nodes (integer indices as child references) over a
//! primitive array that construction permutes in place. Every internal node's
//! box is the union of its children's boxes, every leaf's box is the union of
//! the boxes of the primitives in its range, and the leaf ranges partition the
//! primitive array exactly.

pub mod geometry;
pub mod tree;
pub mod builder;
