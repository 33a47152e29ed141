//! An n-dimensional r*-tree: a spatial index over axis-aligned envelopes,
//! with its structural invariants and the results of its queries verified.

pub mod aabb;
pub mod algorithm;
pub mod envelope;
pub mod laws;
pub mod metrics;
pub mod node;
pub mod num;
pub mod object;
pub mod params;
pub mod point;
pub mod primitives;
pub mod rtree;

pub use crate::aabb::AABB;
pub use crate::algorithm::rstar::RStarInsertionStrategy;
pub use crate::algorithm::selection_functions::SelectionFunction;
pub use crate::envelope::Envelope;
pub use crate::node::{ParentNode, RTreeNode};
pub use crate::num::RTreeNum;
pub use crate::object::{PointDistance, RTreeObject};
pub use crate::params::Params;
pub use crate::point::{Point, PointExt};
pub use crate::rtree::RTree;
