//! How a surface answers a ray that hits it.
pub mod dielectric;
pub mod lambertian;
pub mod metal;

use crate::geometry::hittable::HitResult;
use crate::geometry::ray::Ray;
use crate::geometry::vector3::Color;
use dielectric::Dielectric;
use lambertian::Lambertian;
use metal::Metal;
use rand::rngs::StdRng;
use vstd::prelude::*;

verus! {

pub trait Material {
    /// Whether `scatter` may return `out` for this ray and hit: whether some
    /// outcome of the random draws leads to it.
    spec fn may_scatter(&self, ray: &Ray, hit: &HitResult, out: Option<(Color, Ray)>) -> bool;

    /// What becomes of `ray` at `hit`: the ray that leaves the surface with
    /// the share of each colour channel that it keeps, or nothing where the
    /// surface swallows the ray.
    fn scatter(&self, ray: &Ray, hit: &HitResult, rng: &mut StdRng) -> (r: Option<(Color, Ray)>)
        ensures
            self.may_scatter(ray, hit, r),
    ;
}

#[derive(Clone, Copy, Debug, PartialEq, Eq, Structural)]
pub enum MaterialKind {
    Lambertian(Lambertian),
    Metal(Metal),
    Dielectric(Dielectric),
}

impl MaterialKind {
    /// Whether the surface gives back no more light than falls on it:
    /// whether every channel of the share that a matte surface or a metal
    /// keeps lies between 0 and 1. A clear surface keeps all light.
    pub open spec fn is_passive(self) -> bool {
        match self {
            MaterialKind::Lambertian(lambertian) => lambertian.albedo.is_shade(),
            MaterialKind::Metal(metal) => metal.albedo.is_shade(),
            MaterialKind::Dielectric(_) => true,
        }
    }
}

impl Material for MaterialKind {
    open spec fn may_scatter(&self, ray: &Ray, hit: &HitResult, out: Option<(Color, Ray)>) -> bool {
        match self {
            MaterialKind::Lambertian(lambertian) => lambertian.may_scatter(ray, hit, out),
            MaterialKind::Metal(metal) => metal.may_scatter(ray, hit, out),
            MaterialKind::Dielectric(dielectric) => dielectric.may_scatter(ray, hit, out),
        }
    }

    /// Matte and clear materials swallow no ray, and a polished metal
    /// mirrors.
    fn scatter(&self, ray: &Ray, hit: &HitResult, rng: &mut StdRng) -> (r: Option<(Color, Ray)>)
        ensures
            self is Lambertian || self is Dielectric ==> r is Some,
            self matches MaterialKind::Metal(metal) ==> (metal.fuzz.raw == 0 ==> r == metal.mirrored(
                ray,
                hit,
            )),
    {
        match self {
            MaterialKind::Lambertian(lambertian) => lambertian.scatter(ray, hit, rng),
            MaterialKind::Metal(metal) => metal.scatter(ray, hit, rng),
            MaterialKind::Dielectric(dielectric) => dielectric.scatter(ray, hit, rng),
        }
    }
}

/// Whatever a surface that gives back no more light than falls on it does
/// with a ray, the share of each channel that it keeps lies between 0 and 1.
pub proof fn lemma_passive_share(
    material: MaterialKind,
    ray: Ray,
    hit: HitResult,
    out: Option<(Color, Ray)>,
)
    requires
        material.is_passive(),
        material.may_scatter(&ray, &hit, out),
    ensures
        out matches Some(kept) ==> kept.0.is_shade(),
{
}

} // verus!
