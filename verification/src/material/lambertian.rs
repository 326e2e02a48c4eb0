//! Matte surfaces.
use super::Material;
use crate::geometry::hittable::HitResult;
use crate::geometry::ray::Ray;
use crate::geometry::vector3::{lemma_zero_norm, Color, Vector3};
use rand::rngs::StdRng;
use vstd::prelude::*;

verus! {

/// A surface that sends light on in every direction and keeps the share
/// `albedo` of each colour channel.
#[derive(Clone, Copy, Debug, PartialEq, Eq, Structural)]
pub struct Lambertian {
    pub albedo: Color,
}

impl Lambertian {
    /// The ray that leaves `hit` for the random direction `sample`: along the
    /// normal plus `sample`, or along the normal alone where the two cancel.
    pub open spec fn spec_scatter_toward(&self, hit: &HitResult, sample: Vector3) -> (Color, Ray) {
        let toward = hit.normal.add(sample);
        (
            self.albedo,
            Ray {
                origin: hit.point,
                direction: if Vector3::near_zero(&toward) {
                    hit.normal
                } else {
                    toward
                },
            },
        )
    }

    /// The ray that leaves `hit` for the random direction `sample`: along the
    /// normal plus `sample`, or along the normal alone where the two cancel.
    /// Unless the normal itself is as good as zero, the direction of the ray
    /// is not, so that it has a unit direction.
    #[verifier::when_used_as_spec(spec_scatter_toward)]
    pub fn scatter_toward(&self, hit: &HitResult, sample: Vector3) -> (r: (Color, Ray))
        ensures
            r == self.spec_scatter_toward(hit, sample),
            !Vector3::near_zero(&hit.normal) ==> !Vector3::near_zero(&r.1.direction)
                && r.1.direction.norm() > 0,
    {
        proof {
            lemma_zero_norm(hit.normal);
            lemma_zero_norm(hit.normal.add(sample));
        }
        let mut scatter_direction = hit.normal.add(sample);
        if Vector3::near_zero(&scatter_direction) {
            scatter_direction = hit.normal;
        }
        (self.albedo, Ray { origin: hit.point, direction: scatter_direction })
    }
}

impl Material for Lambertian {
    open spec fn may_scatter(&self, ray: &Ray, hit: &HitResult, out: Option<(Color, Ray)>) -> bool {
        exists|sample: Vector3|
            Vector3::is_sphere_sample(sample) && out == Some(
                #[trigger] self.scatter_toward(hit, sample),
            )
    }

    /// A matte surface swallows no ray, and it keeps the share `albedo` of
    /// the light. Unless the normal is as good as zero, the direction of
    /// the ray that leaves is not.
    fn scatter(&self, ray: &Ray, hit: &HitResult, rng: &mut StdRng) -> (r: Option<(Color, Ray)>)
        ensures
            r matches Some(out) && out.0 == self.albedo && out.1.origin == hit.point
                && (!Vector3::near_zero(&hit.normal) ==> !Vector3::near_zero(&out.1.direction)
                && out.1.direction.norm() > 0),
    {
        let sample = Vector3::random_vec_sphere(rng);
        Some(self.scatter_toward(hit, sample))
    }
}

} // verus!
