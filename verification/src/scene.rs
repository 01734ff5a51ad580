//! What is rendered.

use crate::light::Light;
use crate::raytracer::octree::Octree;
use crate::vec3::Vec3;
use vstd::prelude::*;

verus! {

/// A scene: its lights, the index over its primitives, and the colour of a
/// ray that hits nothing. The primitives themselves stay with the caller;
/// the index knows them by their places in the caller's list.
#[derive(Debug, PartialEq, Eq)]
pub struct Scene {
    pub lights: Vec<Light>,
    pub octree: Octree,
    pub background: Vec3,
}

} // verus!
