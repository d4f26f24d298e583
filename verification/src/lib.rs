//! A point quadtree over an integer grid, the shapes it can be queried with,
//! and the proximity pairing that is built on both.

pub mod collections;
pub mod collision;
pub mod entries;
pub mod geometry;
pub mod shape;
pub mod tree;

pub use crate::geometry::{Point, Quadrant, Region};
pub use crate::shape::{Circle, Queryable};
pub use crate::tree::{ConfigError, QuadTree};
