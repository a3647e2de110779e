//! A point-region quadtree over an integer grid.
//!
//! Points are indexed by a tree of square regions. A leaf buffers points up
//! to its capacity; the next point divides it into four equal quadrants,
//! and every point is handed to the one quadrant that owns it. Range
//! queries walk only the regions that overlap the query window.
//!
//! Coordinates are integers, so that halving a region is exact: a region
//! is split only while its half-size is even. A root whose half-size is a
//! power of two can be divided down to single cells; a leaf that cannot be
//! divided any more buffers whatever reaches it.
//!
//! - [`point`] and [`aabb`]: grid points and square regions.
//! - [`quad_tree`]: the tree, its model and its operations.
//! - [`laws`]: what holds of every tree.
//! - [`shape`]: the elements of a drawing of a tree.

pub mod aabb;
pub mod laws;
pub mod point;
pub mod quad_tree;
pub mod shape;
