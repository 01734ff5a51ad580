//! What the renderer decides at a hit: how many rays to send on.
//!
//! Tracing a ray is recursive. At each hit the renderer asks every light
//! whether it is seen, and may send reflected and refracted rays one level
//! deeper. The counts below are all that bounds the recursion.

use crate::raytracer::intersection::Intersection;
use crate::scalar::Scalar;
use vstd::prelude::*;

verus! {

/// The limits of a rendering.
#[derive(Clone, Copy, Debug, PartialEq, Eq)]
pub struct RenderOptions {
    /// How many reflections in a row a path may take.
    pub reflect_depth: u32,
    /// How many refractions in a row a path may take.
    pub refract_depth: u32,
    /// How many shadow rays go to a light that has an area.
    pub shadow_samples: u32,
    /// How many rays sample a glossy reflection.
    pub gloss_samples: u32,
    /// How many camera rays are averaged for one pixel.
    pub pixel_samples: u32,
}

impl Default for RenderOptions {
    /// The limits of the stock rendering.
    fn default() -> (options: RenderOptions)
        ensures
            options == (RenderOptions {
                reflect_depth: 3,
                refract_depth: 6,
                shadow_samples: 16,
                gloss_samples: 8,
                pixel_samples: 2,
            }),
    {
        RenderOptions {
            reflect_depth: 3,
            refract_depth: 6,
            shadow_samples: 16,
            gloss_samples: 8,
            pixel_samples: 2,
        }
    }
}

/// What the renderer reads of a material before it recurses.
#[derive(Clone, Copy, Debug, PartialEq, Eq)]
pub struct MaterialKind {
    pub reflective: bool,
    pub refractive: bool,
    pub glossy: bool,
}

/// The renderer: its options are its whole state.
#[derive(Clone, Copy, Debug, PartialEq, Eq)]
pub struct Renderer {
    pub options: RenderOptions,
}

/// The rays that leave one hit.
#[derive(Clone, Copy, Debug, PartialEq, Eq)]
pub struct SecondaryRays {
    /// Reflected rays, all traced one level deeper and averaged.
    pub reflections: u32,
    /// Whether the reflected rays are perturbed, as a glossy surface asks.
    pub perturbed: bool,
    /// Refracted rays, traced one level deeper.
    pub refractions: u32,
}

/// Whether what a shadow ray hit hides a light at `distance`: the ray hit
/// something, and nearer than the light.
pub open spec fn hides(hit: Option<Intersection>, distance: Scalar) -> bool {
    hit matches Some(h) && h.t.below(distance)
}

/// Whether the nearest hit of a shadow ray hides a light at `distance`.
pub fn in_shadow(hit: Option<Intersection>, distance: Scalar) -> (hidden: bool)
    ensures
        hidden == hides(hit, distance),
{
    match hit {
        Some(h) => h.t.lt(distance),
        None => false,
    }
}

impl Renderer {
    /// Shadow rays toward one light: one for a point light, `shadow_samples`
    /// for a light with an area.
    pub open spec fn shadow_rays_spec(&self, light_is_point: bool) -> u32 {
        if light_is_point {
            1
        } else {
            self.options.shadow_samples
        }
    }

    /// Reflected rays from a hit at `depth`: none unless the material
    /// reflects and the depth is below the limit; then `gloss_samples` for a
    /// glossy material and one for a mirror.
    pub open spec fn reflections_spec(&self, material: MaterialKind, depth: u32) -> u32 {
        if material.reflective && depth < self.options.reflect_depth {
            if material.glossy {
                self.options.gloss_samples
            } else {
                1
            }
        } else {
            0
        }
    }

    /// Refracted rays from a hit at `depth`: one if the material refracts and
    /// the depth is below the limit, else none.
    pub open spec fn refractions_spec(&self, material: MaterialKind, depth: u32) -> u32 {
        if material.refractive && depth < self.options.refract_depth {
            1
        } else {
            0
        }
    }

    /// The rays that leave a hit at `depth` on a material.
    pub open spec fn secondary_rays_spec(&self, material: MaterialKind, depth: u32) -> SecondaryRays {
        SecondaryRays {
            reflections: self.reflections_spec(material, depth),
            perturbed: material.glossy && self.reflections_spec(material, depth) > 0,
            refractions: self.refractions_spec(material, depth),
        }
    }

    /// Shadow rays toward all the lights of a scene, each light given by
    /// whether it is a point.
    pub open spec fn shadow_rays_total(&self, lights: Seq<bool>) -> nat
        decreases lights.len(),
    {
        if lights.len() == 0 {
            0
        } else {
            self.shadow_rays_total(lights.drop_last()) + self.shadow_rays_spec(
                lights.last(),
            ) as nat
        }
    }

    /// The deepest level at which a hit may still send a ray on, plus one: no
    /// hit at this depth or deeper has secondary rays.
    pub open spec fn depth_limit(&self) -> u32 {
        if self.options.reflect_depth >= self.options.refract_depth {
            self.options.reflect_depth
        } else {
            self.options.refract_depth
        }
    }

    /// How many camera rays are averaged for one pixel.
    pub fn pixel_rays(&self) -> (n: u32)
        ensures
            n == self.options.pixel_samples,
    {
        self.options.pixel_samples
    }

    /// How many shadow rays go to one light.
    pub fn shadow_rays(&self, light_is_point: bool) -> (n: u32)
        ensures
            n == self.shadow_rays_spec(light_is_point),
    {
        if light_is_point {
            1
        } else {
            self.options.shadow_samples
        }
    }

    /// Which rays leave a hit at `depth` on a material.
    pub fn secondary_rays(&self, material: MaterialKind, depth: u32) -> (rays: SecondaryRays)
        ensures
            rays == self.secondary_rays_spec(material, depth),
    {
        let reflections: u32 = if material.reflective && depth < self.options.reflect_depth {
            if material.glossy {
                self.options.gloss_samples
            } else {
                1
            }
        } else {
            0
        };
        let refractions: u32 = if material.refractive && depth < self.options.refract_depth {
            1
        } else {
            0
        };
        SecondaryRays { reflections, perturbed: material.glossy && reflections > 0, refractions }
    }

    /// With a reflection depth of zero nothing is ever reflected, whatever
    /// the material and the depth.
    pub proof fn lemma_no_reflection_at_depth_zero(&self, material: MaterialKind, depth: u32)
        requires
            self.options.reflect_depth == 0,
        ensures
            self.secondary_rays_spec(material, depth).reflections == 0,
            !self.secondary_rays_spec(material, depth).perturbed,
    {
    }

    /// A hit sends rays on only from a depth below the limit, so every ray
    /// that is sent on is traced at a depth that the limit admits, and a path
    /// never grows longer than the limit.
    pub proof fn lemma_recursion_is_bounded(&self, material: MaterialKind, depth: u32)
        ensures
            self.secondary_rays_spec(material, depth).reflections > 0 ==> depth
                < self.options.reflect_depth,
            self.secondary_rays_spec(material, depth).refractions > 0 ==> depth
                < self.options.refract_depth,
            depth >= self.depth_limit() ==> self.secondary_rays_spec(material, depth)
                == (SecondaryRays { reflections: 0, perturbed: false, refractions: 0 }),
            self.secondary_rays_spec(material, depth).reflections > 0 || self.secondary_rays_spec(
                material,
                depth,
            ).refractions > 0 ==> depth + 1 <= self.depth_limit(),
    {
    }

    /// A hit on a material that neither reflects nor refracts, in a scene
    /// without lights, sends no ray at all: its colour is decided by the hit
    /// alone.
    pub proof fn lemma_matte_unlit_hit_sends_no_ray(&self, material: MaterialKind, depth: u32)
        requires
            !material.reflective,
            !material.refractive,
        ensures
            self.secondary_rays_spec(material, depth) == (SecondaryRays {
                reflections: 0,
                perturbed: false,
                refractions: 0,
            }),
            self.shadow_rays_total(Seq::empty()) == 0,
    {
    }
}

} // verus!
