//! What a ray can hit, and what is known of the place where it does.
use super::ray::Ray;
use super::vector3::Vector3;
use crate::fixed::Fixed;
use crate::material::MaterialKind;
use vstd::prelude::*;

verus! {

/// One intersection of a ray with a surface.
///
/// `normal` is the surface normal turned against the ray; `front_face` tells
/// whether the surface's own outward normal already pointed that way, that
/// is, whether the ray came from outside.
#[derive(Clone, Copy, Debug)]
pub struct HitResult<'a> {
    pub point: Vector3,
    pub t: Fixed,
    pub normal: Vector3,
    pub front_face: bool,
    pub material: Option<&'a MaterialKind>,
}

pub trait Hittable {
    /// The intersection that `hit` returns.
    spec fn spec_hit(&self, ray: &Ray, min_t: Fixed, max_t: Fixed) -> Option<HitResult>;

    /// The nearest intersection of `ray` with `self` whose parameter lies in
    /// `min_t ..= max_t`, if there is one. Its normal is turned against the
    /// ray.
    fn hit(&self, ray: &Ray, min_t: Fixed, max_t: Fixed) -> (r: Option<HitResult>)
        ensures
            r == self.spec_hit(ray, min_t, max_t),
            r matches Some(h) ==> min_t.raw <= h.t.raw <= max_t.raw,
            r matches Some(h) ==> Vector3::dot(&ray.direction, &h.normal).raw <= 0,
    ;
}

} // verus!
