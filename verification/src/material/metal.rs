//! Mirrors, polished or rough.
use super::Material;
use crate::fixed::{lemma_mul_whole, Fixed};
use crate::geometry::hittable::HitResult;
use crate::geometry::ray::Ray;
use crate::geometry::vector3::{lemma_vectors_in_range, Color, Vector3};
use rand::rngs::StdRng;
use vstd::prelude::*;

verus! {

/// A surface that mirrors light and keeps the share `albedo` of each colour
/// channel. `fuzz`, from 0 to 1, is the roughness: how far the mirrored ray
/// may stray.
#[derive(Clone, Copy, Debug, PartialEq, Eq, Structural)]
pub struct Metal {
    pub albedo: Color,
    pub fuzz: Fixed,
}

impl Metal {
    /// The mirror image of `ray` at `hit`, pushed aside by `fuzz` times the
    /// random direction `sample`. Nothing where that points into the surface.
    pub open spec fn spec_scatter_toward(&self, ray: &Ray, hit: &HitResult, sample: Vector3) -> Option<
        (Color, Ray),
    > {
        let direction = ray.direction.reflect(&hit.normal).add(sample.scale(self.fuzz));
        if Vector3::dot(&direction, &hit.normal).raw >= 0 {
            Some((self.albedo, Ray { origin: hit.point, direction }))
        } else {
            None
        }
    }

    /// The mirror image of `ray` at `hit`, pushed aside by `fuzz` times the
    /// random direction `sample`. Nothing where that points into the surface.
    #[verifier::when_used_as_spec(spec_scatter_toward)]
    pub fn scatter_toward(&self, ray: &Ray, hit: &HitResult, sample: Vector3) -> (r: Option<
        (Color, Ray),
    >)
        ensures
            r == self.spec_scatter_toward(ray, hit, sample),
    {
        let scatter_direction = ray.direction.reflect(&hit.normal).add(sample.scale(self.fuzz));
        let scatter_ray = Ray { origin: hit.point, direction: scatter_direction };
        if Vector3::dot(&scatter_ray.direction, &hit.normal).raw >= 0 {
            return Some((self.albedo, scatter_ray));
        }
        None
    }

    /// What a polished mirror returns: the mirror image of `ray` at `hit`, or
    /// nothing where that points into the surface.
    pub open spec fn mirrored(&self, ray: &Ray, hit: &HitResult) -> Option<(Color, Ray)> {
        let direction = ray.direction.reflect(&hit.normal);
        if Vector3::dot(&direction, &hit.normal).raw >= 0 {
            Some((self.albedo, Ray { origin: hit.point, direction }))
        } else {
            None
        }
    }
}

impl Material for Metal {
    open spec fn may_scatter(&self, ray: &Ray, hit: &HitResult, out: Option<(Color, Ray)>) -> bool {
        exists|sample: Vector3|
            Vector3::is_sphere_sample(sample) && out == #[trigger] self.scatter_toward(
                ray,
                hit,
                sample,
            )
    }

    /// Without roughness the ray that leaves is the mirror image, whatever
    /// is drawn.
    fn scatter(&self, ray: &Ray, hit: &HitResult, rng: &mut StdRng) -> (r: Option<(Color, Ray)>)
        ensures
            self.fuzz.raw == 0 ==> r == self.mirrored(ray, hit),
    {
        let sample = Vector3::random_vec_sphere(rng);
        proof {
            if self.fuzz.raw == 0 {
                lemma_polished(*self, *ray, *hit, sample);
            }
        }
        self.scatter_toward(ray, hit, sample)
    }
}

/// Without roughness the random direction has no part in what a metal
/// returns.
pub proof fn lemma_polished(metal: Metal, ray: Ray, hit: HitResult, sample: Vector3)
    requires
        metal.fuzz.raw == 0,
    ensures
        metal.scatter_toward(&ray, &hit, sample) == metal.mirrored(&ray, &hit),
{
    lemma_mul_whole(0i64, sample.x);
    lemma_mul_whole(0i64, sample.y);
    lemma_mul_whole(0i64, sample.z);
    lemma_vectors_in_range(ray.direction, hit.normal, metal.fuzz);
    assert(sample.scale(metal.fuzz) == Vector3 {
        x: Fixed::zero(),
        y: Fixed::zero(),
        z: Fixed::zero(),
    });
    let mirror = ray.direction.reflect(&hit.normal);
    assert(mirror.add(sample.scale(metal.fuzz)) == mirror);
}

} // verus!
