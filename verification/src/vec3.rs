//! Three scalars.

use crate::scalar::Scalar;
use vstd::prelude::*;

verus! {

/// A point or a direction in space.
#[derive(Clone, Copy, Debug, PartialEq, Eq)]
pub struct Vec3 {
    pub x: Scalar,
    pub y: Scalar,
    pub z: Scalar,
}

impl Vec3 {
    /// The vector that points the other way.
    pub open spec fn opposite(self) -> Vec3 {
        Vec3 { x: self.x.opposite(), y: self.y.opposite(), z: self.z.opposite() }
    }

    /// The vector with the given encodings as components.
    pub fn from_bits(x: u64, y: u64, z: u64) -> (v: Vec3)
        ensures
            v.x.bits == x,
            v.y.bits == y,
            v.z.bits == z,
    {
        Vec3 { x: Scalar::from_bits(x), y: Scalar::from_bits(y), z: Scalar::from_bits(z) }
    }

    /// The vector that points the other way.
    pub fn neg(self) -> (v: Vec3)
        ensures
            v == self.opposite(),
    {
        Vec3 { x: self.x.neg(), y: self.y.neg(), z: self.z.neg() }
    }

    /// Brings a vector to the side of a direction, given its dot product with
    /// that direction: the vector itself, or its opposite when the product is
    /// below zero.
    pub fn toward(self, dot: Scalar) -> (v: Vec3)
        ensures
            v == if dot.below(Scalar::zero()) {
                self.opposite()
            } else {
                self
            },
    {
        if dot.lt(Scalar::from_bits(0)) {
            self.neg()
        } else {
            self
        }
    }
}

} // verus!
