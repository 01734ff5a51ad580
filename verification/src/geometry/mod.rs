//! Bounding volumes.

pub mod bbox;

pub use bbox::BBox;
