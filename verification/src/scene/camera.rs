//! The camera: from a place in the picture to a ray into the scene.
use crate::fixed::{lemma_mul_whole, Fixed, SCALE};
use crate::geometry::accuracy::{
    is_nearly_unit, is_small, lemma_cross_is_orthogonal, lemma_cross_of_units, lemma_dot_commutes,
    lemma_span_of_long, lemma_unit_keeps_right_angle, lemma_unit_length,
};
use crate::geometry::ray::Ray;
use crate::geometry::vector3::Vector3;
use rand::rngs::StdRng;
use vstd::prelude::*;

verus! {

/// A camera with a thin lens. `side`, `up` and `forward` are its axes;
/// `horizontal` and `vertical` span the part of the plane in focus that the
/// picture shows, `vertical` from the top row down; `forward` is stored at
/// the length of the distance to that plane.
#[derive(Clone, Copy, Debug, PartialEq, Eq, Structural)]
pub struct Camera {
    pub origin: Vector3,
    pub horizontal: Vector3,
    pub vertical: Vector3,
    pub forward: Vector3,
    pub side: Vector3,
    pub up: Vector3,
    pub lens_radius: Fixed,
}

impl Camera {
    /// The camera at `origin` that looks at `look_at`, with `view_up` as the
    /// rough direction of the top of the picture. `half_height` is the
    /// tangent of half the vertical angle of view, `aspect_ratio` the width
    /// of the picture over its height, `aperture` the diameter of the lens,
    /// and `focus_dist` the distance at which the picture is sharp.
    pub open spec fn spec_new(
        origin: Vector3,
        look_at: Vector3,
        view_up: Vector3,
        aspect_ratio: Fixed,
        half_height: Fixed,
        aperture: Fixed,
        focus_dist: Fixed,
    ) -> Camera {
        let viewport_height = Fixed::from_int(2i64).mul(half_height);
        let viewport_width = aspect_ratio.mul(viewport_height);
        let forward = origin.sub(look_at).unit();
        let side = view_up.cross(&forward).unit();
        let up = forward.cross(&side);
        Camera {
            origin,
            horizontal: side.scale(viewport_width).scale(focus_dist),
            vertical: up.scale(viewport_height.neg()).scale(focus_dist),
            forward: forward.scale(focus_dist),
            side,
            up,
            lens_radius: aperture.div(Fixed::from_int(2i64)),
        }
    }

    /// Whether the vector to the side, before it is scaled to unit length,
    /// is at least 1/2 long and has no component beyond 16384. It is where
    /// the camera does not stand on what it looks at and `view_up` is long
    /// enough and does not point along the line of sight.
    pub open spec fn is_well_placed(origin: Vector3, look_at: Vector3, view_up: Vector3) -> bool {
        let across = view_up.cross(&origin.sub(look_at).unit());
        across.is_moderate() && 2 * across.len().raw >= SCALE
    }

    /// The camera at `origin` that looks at `look_at`, with `view_up` as the
    /// rough direction of the top of the picture. `half_height` is the
    /// tangent of half the vertical angle of view, `aspect_ratio` the width
    /// of the picture over its height, `aperture` the diameter of the lens,
    /// and `focus_dist` the distance at which the picture is sharp.
    ///
    /// The axis to the side is nearly a unit vector where the camera is well
    /// placed.
    #[verifier::when_used_as_spec(spec_new)]
    pub fn new(
        origin: Vector3,
        look_at: Vector3,
        view_up: Vector3,
        aspect_ratio: Fixed,
        half_height: Fixed,
        aperture: Fixed,
        focus_dist: Fixed,
    ) -> (r: Camera)
        ensures
            r == Camera::spec_new(
                origin,
                look_at,
                view_up,
                aspect_ratio,
                half_height,
                aperture,
                focus_dist,
            ),
            Camera::is_well_placed(origin, look_at, view_up) ==> is_nearly_unit(r.side),
    {
        proof {
            if Camera::is_well_placed(origin, look_at, view_up) {
                lemma_span_of_long(view_up.cross(&origin.sub(look_at).unit()));
            }
        }
        let viewport_height = Fixed::from_int(2).mul(half_height);
        let viewport_width = aspect_ratio.mul(viewport_height);

        let forward = origin.sub(look_at).unit();
        let side = view_up.cross(&forward).unit();
        let up = forward.cross(&side);

        let horizontal = side.scale(viewport_width).scale(focus_dist);
        let vertical = up.scale(viewport_height.neg()).scale(focus_dist);

        Camera {
            origin,
            horizontal,
            vertical,
            forward: forward.scale(focus_dist),
            lens_radius: aperture.div(Fixed::from_int(2)),
            side,
            up,
        }
    }

    /// The ray from the point `lens` of the unit disk, scaled to the lens, to
    /// the point of the plane in focus that lies `u` of the way across the
    /// picture and `v` of the way down.
    pub open spec fn spec_ray_through(&self, u: Fixed, v: Fixed, lens: Vector3) -> Ray {
        Ray {
            origin: self.origin.add(self.lens_offset(lens)),
            direction: self.target(u, v).sub(self.origin).sub(self.lens_offset(lens)),
        }
    }

    /// How far from the centre of the lens the point `lens` of the unit
    /// disk lies, once the disk is scaled to the lens.
    pub open spec fn lens_offset(&self, lens: Vector3) -> Vector3 {
        let rd = lens.scale(self.lens_radius);
        self.side.scale(rd.x).add(self.up.scale(rd.y))
    }

    /// The point of the plane in focus that lies `u` of the way across the
    /// picture and `v` of the way down.
    pub open spec fn target(&self, u: Fixed, v: Fixed) -> Vector3 {
        let viewport_origin = self.origin.sub(self.horizontal.div(Fixed::from_int(2i64))).sub(
            self.vertical.div(Fixed::from_int(2i64)),
        ).sub(self.forward);
        self.horizontal.scale(u).add(self.vertical.scale(v)).add(viewport_origin)
    }

    /// The ray from the point `lens` of the unit disk, scaled to the lens, to
    /// the point of the plane in focus that lies `u` of the way across the
    /// picture and `v` of the way down.
    #[verifier::when_used_as_spec(spec_ray_through)]
    pub fn ray_through(&self, u: Fixed, v: Fixed, lens: Vector3) -> (r: Ray)
        ensures
            r == self.spec_ray_through(u, v, lens),
    {
        let rd = lens.scale(self.lens_radius);
        let offset = self.side.scale(rd.x).add(self.up.scale(rd.y));
        let viewport_origin = self.origin.sub(self.horizontal.div(Fixed::from_int(2))).sub(
            self.vertical.div(Fixed::from_int(2)),
        ).sub(self.forward);

        Ray {
            origin: self.origin.add(offset),
            direction: self.horizontal.scale(u).add(self.vertical.scale(v)).add(
                viewport_origin,
            ).sub(self.origin).sub(offset),
        }
    }

    /// Whether `get_ray` may return `ray` for `u` and `v`: whether some point
    /// of the lens leads to it.
    pub open spec fn may_ray(&self, u: Fixed, v: Fixed, ray: Ray) -> bool {
        exists|lens: Vector3|
            Vector3::is_disk_sample(lens) && ray == #[trigger] self.ray_through(u, v, lens)
    }

    /// The ray through the centre of the lens.
    pub open spec fn central_ray(&self, u: Fixed, v: Fixed) -> Ray {
        self.ray_through(u, v, Vector3 { x: Fixed::zero(), y: Fixed::zero(), z: Fixed::zero() })
    }

    /// A ray for the place `(u, v)` of the picture, both from 0 to 1, from a
    /// random point of the lens. With a lens of radius 0 it is the ray
    /// through the centre, whatever is drawn.
    pub fn get_ray(&self, u: Fixed, v: Fixed, rng: &mut StdRng) -> (r: Ray)
        ensures
            self.may_ray(u, v, r),
            self.lens_radius.raw == 0 ==> r == self.central_ray(u, v),
    {
        let lens = Vector3::random_vec_disk(rng);
        proof {
            if self.lens_radius.raw == 0 {
                lemma_pinhole(*self, u, v, lens);
            }
        }
        self.ray_through(u, v, lens)
    }
}

/// With a lens of radius 0 every point of the lens gives the ray through the
/// centre.
pub proof fn lemma_pinhole(camera: Camera, u: Fixed, v: Fixed, lens: Vector3)
    requires
        camera.lens_radius.raw == 0,
    ensures
        camera.ray_through(u, v, lens) == camera.central_ray(u, v),
{
    lemma_mul_whole(0i64, lens.x);
    lemma_mul_whole(0i64, lens.y);
    lemma_mul_whole(0i64, lens.z);
    lemma_mul_whole(0i64, Fixed::zero());
    let zero = Vector3 { x: Fixed::zero(), y: Fixed::zero(), z: Fixed::zero() };
    assert(lens.scale(camera.lens_radius) == zero);
    assert(zero.scale(camera.lens_radius) == zero);
}

/// The axes of a camera are nearly unit vectors at right angles, with `up`
/// the cross product of the line of sight and the axis to the side: the
/// axis to the side and the line of sight are unit vectors within the
/// bounds of `lemma_unit_length`, the squared length of `up` lies between
/// `1 - 37 / 2^32` and `1 + 54 / 2^32`, and the dot products of the three
/// axes lie within `30 / 2^32` of zero. This holds where the camera does
/// not stand on what it looks at, no component of `view_up` lies beyond
/// 4096, and the camera is well placed.
pub proof fn lemma_camera_axes(
    origin: Vector3,
    look_at: Vector3,
    view_up: Vector3,
    aspect_ratio: Fixed,
    half_height: Fixed,
    aperture: Fixed,
    focus_dist: Fixed,
)
    requires
        origin.sub(look_at).norm() > 0,
        is_small(view_up),
        Camera::is_well_placed(origin, look_at, view_up),
    ensures
        ({
            let camera = Camera::new(
                origin,
                look_at,
                view_up,
                aspect_ratio,
                half_height,
                aperture,
                focus_dist,
            );
            let ahead = origin.sub(look_at).unit();
            &&& is_nearly_unit(ahead)
            &&& is_nearly_unit(camera.side)
            &&& camera.up == ahead.cross(&camera.side)
            &&& -30 <= Vector3::dot(&camera.side, &ahead).raw <= 30
            &&& -9 <= Vector3::dot(&camera.up, &ahead).raw <= 9
            &&& -9 <= Vector3::dot(&camera.up, &camera.side).raw <= 9
            &&& SCALE - 37 <= camera.up.len_sq().raw <= SCALE + 54
        }),
{
    let ahead = origin.sub(look_at).unit();
    lemma_unit_length(origin.sub(look_at));
    let across = view_up.cross(&ahead);
    lemma_cross_is_orthogonal(view_up, ahead);
    let side = across.unit();
    lemma_span_of_long(across);
    lemma_unit_length(across);
    lemma_unit_keeps_right_angle(across, ahead);
    lemma_cross_is_orthogonal(ahead, side);
    lemma_cross_is_orthogonal(side, ahead);
    lemma_dot_commutes(side, ahead);
    lemma_cross_of_units(ahead, side);
}

/// Whatever point of the lens a ray starts from, it passes through the same
/// point of the plane in focus, at the parameter 1: what lies in that plane
/// is sharp. This holds to the last bit where no component of the origin of
/// the camera, of the offset on the lens and of the target lies beyond
/// 16384.
pub proof fn lemma_focus(camera: Camera, u: Fixed, v: Fixed, lens: Vector3)
    requires
        camera.origin.is_moderate(),
        camera.lens_offset(lens).is_moderate(),
        camera.target(u, v).is_moderate(),
    ensures
        camera.ray_through(u, v, lens).at(Fixed::one()) == camera.target(u, v),
{
    let ray = camera.ray_through(u, v, lens);
    lemma_mul_whole(1i64, ray.direction.x);
    lemma_mul_whole(1i64, ray.direction.y);
    lemma_mul_whole(1i64, ray.direction.z);
}

} // verus!
