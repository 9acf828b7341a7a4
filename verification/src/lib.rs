//! Broad-phase overlap detection for boxes, built on a linear bounding
//! volume hierarchy ordered by Morton codes.
//!
//! Coordinates are integers. Each box comes with a key, by which the boxes
//! are sorted before the hierarchy is built over them; the pairs that the
//! search finds do not depend on the keys, only how fast it finds them.

pub mod bounds;
pub mod hierarchy;
pub mod morton;
pub mod pairs;

pub use bounds::Bounds;
pub use hierarchy::{collide, BoundingVolumeHierarchy};
