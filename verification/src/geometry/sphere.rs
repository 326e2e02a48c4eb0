//! Spheres.
use super::accuracy::{is_nearly_unit, lemma_hit_normal_length};
use super::hit_accuracy::{
    is_within_reach, lemma_hit_normal_is_unit, lemma_hit_on_sphere, PARAMETER_MAX,
};
use super::hittable::{HitResult, Hittable};
use super::ray::Ray;
use super::vector3::{
    lemma_axis_is_unit, lemma_dot_neg, lemma_len_sq_not_negative, lemma_vectors_in_range, Vector3,
};
use crate::fixed::{
    is_root, lemma_div_monotonic, lemma_mul_whole, lemma_quotient_of_multiple,
    lemma_results_in_range, lemma_root_unique, Fixed, SCALE,
};
use vstd::prelude::*;

verus! {

/// A sphere. A negative radius turns the surface inside out: the same points,
/// with the outward normal pointing at the centre.
#[derive(Clone, Copy, Debug, PartialEq, Eq, Structural)]
pub struct Sphere {
    pub origin: Vector3,
    pub radius: Fixed,
}

impl Sphere {
    /// The sphere round `origin` with the radius `radius`.
    pub open spec fn spec_new(origin: Vector3, radius: Fixed) -> Sphere {
        Sphere { origin, radius }
    }

    /// The sphere round `origin` with the radius `radius`.
    #[verifier::when_used_as_spec(spec_new)]
    pub fn new(origin: Vector3, radius: Fixed) -> (r: Sphere)
        ensures
            r == Sphere::spec_new(origin, radius),
    {
        Sphere { origin, radius }
    }

    /// A quarter of the discriminant of the quadratic equation in `t` that
    /// says that `ray.at(t)` lies on the sphere.
    pub open spec fn discriminant(&self, ray: &Ray) -> Fixed {
        let centre_to_ray = ray.origin.sub(self.origin);
        let half_b = Vector3::dot(&ray.direction, &centre_to_ray);
        half_b.mul(half_b).sub(
            ray.direction.len_sq().mul(centre_to_ray.len_sq().sub(self.radius.mul(self.radius))),
        )
    }

    /// The smaller solution of that equation.
    pub open spec fn near_root(&self, ray: &Ray) -> Fixed {
        let half_b = Vector3::dot(&ray.direction, &ray.origin.sub(self.origin));
        half_b.neg().sub(self.discriminant(ray).sqrt()).div(ray.direction.len_sq())
    }

    /// The larger solution of that equation.
    pub open spec fn far_root(&self, ray: &Ray) -> Fixed {
        let half_b = Vector3::dot(&ray.direction, &ray.origin.sub(self.origin));
        half_b.neg().add(self.discriminant(ray).sqrt()).div(ray.direction.len_sq())
    }

    /// The solution that `hit` accepts: the smaller one where it lies in
    /// `min_t ..= max_t`, else the larger one where that does.
    pub open spec fn root(&self, ray: &Ray, min_t: Fixed, max_t: Fixed) -> Option<Fixed> {
        if self.discriminant(ray).raw < 0 {
            None
        } else if min_t.raw <= self.near_root(ray).raw <= max_t.raw {
            Some(self.near_root(ray))
        } else if min_t.raw <= self.far_root(ray).raw <= max_t.raw {
            Some(self.far_root(ray))
        } else {
            None
        }
    }

    /// The outward unit normal at `point`.
    pub open spec fn outward_normal(&self, point: Vector3) -> Vector3 {
        point.sub(self.origin).div(self.radius).unit()
    }

    /// What is known of the place where `ray` meets the sphere at `t`.
    pub open spec fn surface<'a>(&self, ray: &Ray, t: Fixed) -> HitResult<'a> {
        let point = ray.at(t);
        let outward = self.outward_normal(point);
        let front_face = Vector3::dot(&ray.direction, &outward).raw <= 0;
        HitResult {
            point,
            t,
            normal: if front_face {
                outward
            } else {
                outward.neg()
            },
            front_face,
            material: None,
        }
    }
}

impl Hittable for Sphere {
    open spec fn spec_hit(&self, ray: &Ray, min_t: Fixed, max_t: Fixed) -> Option<HitResult> {
        match self.root(ray, min_t, max_t) {
            Some(t) => Some(self.surface(ray, t)),
            None => None,
        }
    }

    /// The place where `ray` enters the sphere, or the place where it
    /// leaves where it enters outside the interval.
    ///
    /// The normal is a unit vector, between `1 - 4 / 2^32` and 1 long,
    /// wherever the point of the hit is not the centre of the sphere to the
    /// last bit, whatever the sign and the size of the radius. For a sphere
    /// and a ray within reach and a parameter of at most 128, the point
    /// lies on the sphere within `58672 / 2^32` in the square of its
    /// distance from the centre, and for a radius of at least 1/4, or at
    /// most -1/4, it is not the centre.
    fn hit(&self, ray: &Ray, min_t: Fixed, max_t: Fixed) -> (r: Option<HitResult>)
        ensures
            r matches Some(h) ==> h.point == ray.at(h.t) && h.material is None,
            r matches Some(h) ==> (is_within_reach(*self, *ray) && -PARAMETER_MAX <= h.t.raw
                <= PARAMETER_MAX ==> -58672 <= h.point.sub(self.origin).len_sq().raw
                - self.radius.mul(self.radius).raw <= 58672),
            r matches Some(h) ==> (h.point.sub(self.origin).div(self.radius).norm() > 0 ==> SCALE
                - 4 <= h.normal.len().raw <= SCALE && is_nearly_unit(h.normal)),
            r matches Some(h) ==> (is_within_reach(*self, *ray) && -PARAMETER_MAX <= h.t.raw
                <= PARAMETER_MAX && (SCALE <= 4 * self.radius.raw || 4 * self.radius.raw
                <= -SCALE) ==> SCALE - 4 <= h.normal.len().raw <= SCALE && is_nearly_unit(
                h.normal,
            )),
    {
        proof {
            if let Some(h) = self.spec_hit(ray, min_t, max_t) {
                if h.point.sub(self.origin).div(self.radius).norm() > 0 {
                    lemma_hit_normal_length(*self, *ray, min_t, max_t);
                }
                if is_within_reach(*self, *ray) && -PARAMETER_MAX <= h.t.raw <= PARAMETER_MAX {
                    lemma_hit_on_sphere(*self, *ray, min_t, max_t);
                    if SCALE <= 4 * self.radius.raw || 4 * self.radius.raw <= -SCALE {
                        lemma_hit_normal_is_unit(*self, *ray, min_t, max_t);
                    }
                }
            }
        }
        let centre_to_ray = ray.origin.sub(self.origin);
        let half_b = Vector3::dot(&ray.direction, &centre_to_ray);
        let direction_sq = ray.direction.len_sq();
        let discriminant = half_b.mul(half_b).sub(
            direction_sq.mul(centre_to_ray.len_sq().sub(self.radius.mul(self.radius))),
        );

        if discriminant.raw < 0 {
            return None;
        }
        let spread = discriminant.sqrt();
        let mut root = half_b.neg().sub(spread).div(direction_sq);
        if root.raw < min_t.raw || root.raw > max_t.raw {
            root = half_b.neg().add(spread).div(direction_sq);
            if root.raw < min_t.raw || root.raw > max_t.raw {
                return None;
            }
        }
        let point = ray.at(root);
        let mut normal = point.sub(self.origin).div(self.radius).unit();
        let front_face = Vector3::dot(&ray.direction, &normal).raw <= 0;

        if !front_face {
            normal = normal.neg();
        }
        proof {
            lemma_sphere_hit(*self, *ray, min_t, max_t);
        }
        Some(HitResult { point, normal, front_face, t: root, material: None })
    }
}

/// A hit lies in the interval that was asked for and at the point of the ray
/// that its parameter names; its normal is turned against the ray, and
/// `front_face` tells whether the outward normal was.
pub proof fn lemma_sphere_hit(sphere: Sphere, ray: Ray, min_t: Fixed, max_t: Fixed)
    ensures
        sphere.spec_hit(&ray, min_t, max_t) matches Some(h) ==> {
            &&& min_t.raw <= h.t.raw <= max_t.raw
            &&& h.point == ray.at(h.t)
            &&& Vector3::dot(&ray.direction, &h.normal).raw <= 0
            &&& h.front_face == (Vector3::dot(
                &ray.direction,
                &sphere.outward_normal(h.point),
            ).raw <= 0)
            &&& h.material is None
        },
{
    if let Some(h) = sphere.spec_hit(&ray, min_t, max_t) {
        let outward = sphere.outward_normal(h.point);
        lemma_vectors_in_range(h.point.sub(sphere.origin).div(sphere.radius), outward, h.t);
        lemma_dot_neg(ray.direction, outward);
    }
}

/// The smaller solution is not above the larger one.
pub proof fn lemma_roots_ordered(sphere: Sphere, ray: Ray)
    ensures
        sphere.near_root(&ray).raw <= sphere.far_root(&ray).raw,
{
    let half_b = Vector3::dot(&ray.direction, &ray.origin.sub(sphere.origin));
    let spread = sphere.discriminant(&ray).sqrt();
    lemma_results_in_range(sphere.discriminant(&ray), spread);
    lemma_len_sq_not_negative(ray.direction);
    lemma_div_monotonic(
        half_b.neg().sub(spread),
        half_b.neg().add(spread),
        ray.direction.len_sq(),
    );
}

/// With a smaller upper bound a sphere gives the same hit where that still
/// lies under the bound, and none otherwise.
pub proof fn lemma_sphere_hit_narrowed(
    sphere: Sphere,
    ray: Ray,
    min_t: Fixed,
    max_t: Fixed,
    bound: Fixed,
)
    requires
        bound.raw <= max_t.raw,
    ensures
        sphere.spec_hit(&ray, min_t, bound) == match sphere.spec_hit(&ray, min_t, max_t) {
            Some(h) => if h.t.raw <= bound.raw {
                Some(h)
            } else {
                None
            },
            None => None,
        },
{
    lemma_roots_ordered(sphere, ray);
}

/// The largest raw value of a coordinate or a distance for which
/// `lemma_hit_through_centre` speaks: `2^40`, the number 256.
pub const REACH_MAX: i64 = 1099511627776;

/// A ray along an axis that passes through the centre of a sphere hits the
/// sphere where it enters: at the distance of the centre less the radius,
/// with the normal pointing back along the ray. This holds to the last bit
/// for a radius that is a whole number of `1 / 2^16`, whose square is exact.
pub proof fn lemma_hit_through_centre(
    origin: Vector3,
    direction: Vector3,
    distance: Fixed,
    radius: Fixed,
    min_t: Fixed,
    max_t: Fixed,
)
    requires
        direction.is_axis(),
        -REACH_MAX <= origin.x.raw <= REACH_MAX,
        -REACH_MAX <= origin.y.raw <= REACH_MAX,
        -REACH_MAX <= origin.z.raw <= REACH_MAX,
        0 < radius.raw <= distance.raw <= REACH_MAX,
        radius.raw % 65536 == 0,
        min_t.raw <= distance.raw - radius.raw <= max_t.raw,
    ensures
        (Sphere { origin: origin.add(direction.scale(distance)), radius }).spec_hit(
            &Ray { origin, direction },
            min_t,
            max_t,
        ) == Some(
            HitResult {
                point: origin.add(direction.scale(distance.sub(radius))),
                t: distance.sub(radius),
                normal: direction.neg(),
                front_face: true,
                material: None,
            },
        ),
{
    let zero = Fixed::zero();
    let one = Fixed::one();
    let ray = Ray { origin, direction };
    let to_centre = direction.scale(distance);
    let sphere = Sphere { origin: origin.add(to_centre), radius };
    let t = distance.sub(radius);

    // The vector to the centre and back.
    lemma_mul_whole(0i64, distance);
    lemma_mul_whole(1i64, distance);
    lemma_mul_whole(-1i64, distance);
    let back = ray.origin.sub(sphere.origin);
    assert(back == to_centre.neg());

    // The coefficients of the equation.
    let half_b = Vector3::dot(&direction, &back);
    lemma_mul_whole(0i64, back.x);
    lemma_mul_whole(0i64, back.y);
    lemma_mul_whole(0i64, back.z);
    lemma_mul_whole(1i64, back.x);
    lemma_mul_whole(1i64, back.y);
    lemma_mul_whole(1i64, back.z);
    lemma_mul_whole(-1i64, back.x);
    lemma_mul_whole(-1i64, back.y);
    lemma_mul_whole(-1i64, back.z);
    assert(half_b.raw == -distance.raw);
    lemma_mul_whole(0i64, zero);
    lemma_mul_whole(1i64, one);
    lemma_mul_whole(-1i64, one);
    lemma_mul_whole(-1i64, one.neg());
    assert(ray.direction.len_sq() == one);
    let distance_sq = distance.mul(distance);
    let radius_sq = radius.mul(radius);
    lemma_squares(distance, radius);
    assert(back.len_sq() == distance_sq) by {
        lemma_mul_whole(0i64, zero);
    }
    assert(half_b.mul(half_b) == distance_sq);
    lemma_mul_whole(1i64, distance_sq.sub(radius_sq));
    assert(sphere.discriminant(&ray) == radius_sq);
    assert(radius_sq.sqrt() == radius);

    // The root.
    assert(half_b.neg().sub(radius).div(one) == t) by {
        reveal(Fixed::spec_div);
        lemma_quotient_of_multiple(distance.raw - radius.raw, SCALE as int);
    }
    assert(sphere.near_root(&ray) == t);
    assert(sphere.root(&ray, min_t, max_t) == Some(t));

    // The point and the normal.
    lemma_mul_whole(0i64, t);
    lemma_mul_whole(1i64, t);
    lemma_mul_whole(-1i64, t);
    let point = ray.at(t);
    let from_centre = point.sub(sphere.origin);
    lemma_mul_whole(0i64, radius);
    lemma_mul_whole(1i64, radius);
    lemma_mul_whole(-1i64, radius);
    assert(from_centre == direction.neg().scale(radius));
    assert(from_centre.div(radius) == direction.neg()) by {
        reveal(Fixed::spec_div);
        lemma_quotient_of_multiple(0, radius.raw as int);
        lemma_quotient_of_multiple(SCALE as int, radius.raw as int);
        lemma_quotient_of_multiple(-SCALE, radius.raw as int);
        assert(radius.raw * SCALE == SCALE * radius.raw) by (nonlinear_arith);
        assert((-radius.raw) * SCALE == (-SCALE) * radius.raw) by (nonlinear_arith);
    }
    let outward = direction.neg();
    lemma_axis_is_unit(outward);
    assert(sphere.outward_normal(point) == outward);
    assert(Vector3::dot(&direction, &outward).raw == -SCALE);
}

/// The squares of a distance and of a radius within reach: neither leaves
/// the range, the radius is not above the distance in its square either,
/// and the root of the square of a radius that is a whole number of
/// `1 / 2^16` is that radius.
proof fn lemma_squares(distance: Fixed, radius: Fixed)
    requires
        0 < radius.raw <= distance.raw <= REACH_MAX,
        radius.raw % 65536 == 0,
    ensures
        0 <= radius.mul(radius).raw <= distance.mul(distance).raw <= 0x1_0000_0000_0000,
        distance.neg().mul(distance.neg()) == distance.mul(distance),
        radius.mul(radius).sqrt() == radius,
{
    reveal(Fixed::spec_mul);
    reveal(Fixed::spec_sqrt);
    let k = distance.raw as int;
    let r = radius.raw as int;
    let m = r / 65536;
    assert(r == m * 65536);
    assert(0 <= r * r <= k * k <= 0x1_0000_0000_0000 * SCALE && (-k) * (-k) == k * k) by (nonlinear_arith)
        requires
            0 < r <= k <= 0x100_0000_0000,
            SCALE == 0x1_0000_0000,
    ;
    assert(r * r == (m * m) * SCALE) by (nonlinear_arith)
        requires
            r == m * 65536,
            SCALE == 0x1_0000_0000,
    ;
    assert(0 <= m * m) by (nonlinear_arith);
    lemma_quotient_of_multiple(m * m, SCALE as int);
    vstd::arithmetic::div_mod::lemma_div_is_ordered(r * r, k * k, SCALE as int);
    vstd::arithmetic::div_mod::lemma_div_is_ordered(
        k * k,
        0x1_0000_0000_0000 * SCALE,
        SCALE as int,
    );
    assert(radius.mul(radius).raw == m * m);
    assert(is_root((m * m) * SCALE, r)) by (nonlinear_arith)
        requires
            r == m * 65536,
            0 < r,
            SCALE == 0x1_0000_0000,
    ;
    lemma_root_unique((m * m) * SCALE, r);
}

} // verus!
