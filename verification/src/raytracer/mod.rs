//! Rays, intersections, the pixel buffer and the decisions of the renderer.

pub mod animator;
pub mod compositor;
pub mod intersection;
pub mod octree;
pub mod ray;
pub mod renderer;

pub use intersection::Intersection;
pub use ray::Ray;
pub use renderer::{RenderOptions, Renderer};
