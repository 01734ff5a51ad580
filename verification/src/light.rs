//! Light sources.

use crate::scalar::Scalar;
use crate::vec3::Vec3;
use vstd::prelude::*;

verus! {

/// A light at one point.
#[derive(Clone, Copy, Debug, PartialEq, Eq)]
pub struct PointLight {
    pub position: Vec3,
    pub color: Vec3,
}

/// A light that fills a sphere.
#[derive(Clone, Copy, Debug, PartialEq, Eq)]
pub struct SphereLight {
    pub position: Vec3,
    pub color: Vec3,
    pub radius: Scalar,
}

/// Any light of a scene.
#[derive(Clone, Copy, Debug, PartialEq, Eq)]
pub enum Light {
    Point(PointLight),
    Sphere(SphereLight),
}

impl PointLight {
    /// Where a shadow ray aims: the light itself.
    pub fn position(&self) -> (p: Vec3)
        ensures
            p == self.position,
    {
        self.position
    }

    pub fn color(&self) -> (c: Vec3)
        ensures
            c == self.color,
    {
        self.color
    }

    pub fn center(&self) -> (p: Vec3)
        ensures
            p == self.position,
    {
        self.position
    }

    pub fn is_point(&self) -> (b: bool)
        ensures
            b,
    {
        true
    }
}

impl SphereLight {
    /// Where a shadow ray aims: the centre. Spreading the samples over the
    /// sphere takes arithmetic and is left to the caller, who knows from
    /// `is_point` that this light has an area.
    pub fn position(&self) -> (p: Vec3)
        ensures
            p == self.position,
    {
        self.position
    }

    pub fn color(&self) -> (c: Vec3)
        ensures
            c == self.color,
    {
        self.color
    }

    pub fn center(&self) -> (p: Vec3)
        ensures
            p == self.position,
    {
        self.position
    }

    pub fn is_point(&self) -> (b: bool)
        ensures
            !b,
    {
        false
    }
}

impl Light {
    /// The centre of the light.
    pub open spec fn center_spec(&self) -> Vec3 {
        match self {
            Light::Point(l) => l.position,
            Light::Sphere(l) => l.position,
        }
    }

    /// Where a shadow ray aims.
    pub fn position(&self) -> (p: Vec3)
        ensures
            p == self.center_spec(),
    {
        match self {
            Light::Point(l) => l.position(),
            Light::Sphere(l) => l.position(),
        }
    }

    pub fn color(&self) -> (c: Vec3)
        ensures
            c == match self {
                Light::Point(l) => l.color,
                Light::Sphere(l) => l.color,
            },
    {
        match self {
            Light::Point(l) => l.color(),
            Light::Sphere(l) => l.color(),
        }
    }

    pub fn center(&self) -> (p: Vec3)
        ensures
            p == self.center_spec(),
    {
        match self {
            Light::Point(l) => l.center(),
            Light::Sphere(l) => l.center(),
        }
    }

    /// Whether the light has no area, so that one shadow ray decides.
    pub fn is_point(&self) -> (b: bool)
        ensures
            b == (self is Point),
    {
        match self {
            Light::Point(l) => l.is_point(),
            Light::Sphere(l) => l.is_point(),
        }
    }
}

} // verus!
