//! Vectors, rays and the shapes that rays can hit.
//!
//! `vector3`, `ray`, `hittable` and `sphere` hold the types and what they
//! compute. The other six hold what is proved of the rounding: `accuracy`
//! of unit vectors, mirror images and cross products, `mirror` and `bending`
//! of the length of mirrored and of bent rays, `hit_accuracy` of the points
//! where rays hit spheres, `through_centre` of rays through the centre of a
//! sphere, and `refraction` of rays bent at a matched index.
pub mod accuracy;
pub mod bending;
pub mod hit_accuracy;
pub mod hittable;
pub mod mirror;
pub mod ray;
pub mod refraction;
pub mod sphere;
pub mod through_centre;
pub mod vector3;

use crate::fixed::Fixed;
use hittable::{HitResult, Hittable};
use ray::Ray;
use sphere::Sphere;
use vstd::prelude::*;

verus! {

#[derive(Clone, Copy, Debug, PartialEq, Eq, Structural)]
pub enum Geometry {
    Sphere(Sphere),
}

impl Hittable for Geometry {
    open spec fn spec_hit(&self, ray: &Ray, min_t: Fixed, max_t: Fixed) -> Option<HitResult> {
        match self {
            Geometry::Sphere(sphere) => sphere.spec_hit(ray, min_t, max_t),
        }
    }

    fn hit(&self, ray: &Ray, min_t: Fixed, max_t: Fixed) -> (r: Option<HitResult>) {
        match self {
            Geometry::Sphere(sphere) => sphere.hit(ray, min_t, max_t),
        }
    }
}

} // verus!
