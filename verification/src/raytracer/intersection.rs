//! Where a ray meets a surface.

use crate::scalar::Scalar;
use crate::vec3::Vec3;
use vstd::prelude::*;

verus! {

/// One meeting of a ray and a primitive: the surface normal there, the
/// distance `t` along the ray, the surface coordinates, the point in space,
/// and the material of the primitive as an index into the table of the scene.
#[derive(Clone, Copy, Debug, PartialEq, Eq)]
pub struct Intersection {
    pub n: Vec3,
    pub t: Scalar,
    pub u: Scalar,
    pub v: Scalar,
    pub position: Vec3,
    pub material: usize,
}

} // verus!
