//! Three-component vectors, used alike for points, directions and colours.
use crate::fixed::{
    clamp, divide, integer_root, lemma_mul_neg, lemma_mul_whole, lemma_quotient_of_multiple,
    lemma_mul_of_shares, lemma_results_in_range, lemma_root_exists, lemma_root_monotonic, lemma_root_unique,
    lemma_square_not_negative, quotient, root, Fixed, RAW_MAX, SCALE,
};
use crate::fixed::is_root;
use crate::geometry::accuracy::{is_nearly_unit, lemma_unit_length, COMPONENT_MAX};
use crate::random::unit_sample;
use rand::rngs::StdRng;
use vstd::prelude::*;

verus! {

/// The largest raw value of a component that counts as zero: the largest raw
/// value below `10^-8`.
pub const EPSILON_RAW: i64 = 42;

/// How often a sampler draws before it settles for a fixed sample.
pub const ATTEMPTS: u32 = 64;

#[derive(Clone, Copy, Debug, PartialEq, Eq, Structural)]
pub struct Vector3 {
    pub x: Fixed,
    pub y: Fixed,
    pub z: Fixed,
}

pub type Color = Vector3;

impl Vector3 {
    /// The vector with the components `x`, `y` and `z`.
    pub open spec fn spec_new(x: Fixed, y: Fixed, z: Fixed) -> Vector3 {
        Vector3 { x, y, z }
    }

    /// The sum, component by component.
    pub open spec fn spec_add(self, other: Vector3) -> Vector3 {
        Vector3 { x: self.x.add(other.x), y: self.y.add(other.y), z: self.z.add(other.z) }
    }

    /// The difference, component by component.
    pub open spec fn spec_sub(self, other: Vector3) -> Vector3 {
        Vector3 { x: self.x.sub(other.x), y: self.y.sub(other.y), z: self.z.sub(other.z) }
    }

    /// The opposite vector.
    pub open spec fn spec_neg(self) -> Vector3 {
        Vector3 { x: self.x.neg(), y: self.y.neg(), z: self.z.neg() }
    }

    /// Every component multiplied by `factor`.
    pub open spec fn spec_scale(self, factor: Fixed) -> Vector3 {
        Vector3 { x: self.x.mul(factor), y: self.y.mul(factor), z: self.z.mul(factor) }
    }

    /// Every component divided by `divisor`.
    pub open spec fn spec_div(self, divisor: Fixed) -> Vector3 {
        Vector3 { x: self.x.div(divisor), y: self.y.div(divisor), z: self.z.div(divisor) }
    }

    /// The product, component by component: a colour seen through a filter.
    pub open spec fn spec_modulate(self, other: Vector3) -> Vector3 {
        Vector3 { x: self.x.mul(other.x), y: self.y.mul(other.y), z: self.z.mul(other.z) }
    }

    /// The dot product: the products of the components, added up.
    pub open spec fn spec_dot(vec: &Vector3, other: &Vector3) -> Fixed {
        vec.x.mul(other.x).add(vec.y.mul(other.y)).add(vec.z.mul(other.z))
    }

    /// The mirror image of `self` at a surface with the normal `other`:
    /// `self - 2 * dot(self, other) * other`.
    pub open spec fn spec_reflect(&self, other: &Vector3) -> Vector3 {
        self.sub(other.scale(Fixed::from_int(2i64).mul(Vector3::dot(self, other))))
    }

    /// The square of the length: the dot product of the vector with itself.
    pub open spec fn spec_len_sq(&self) -> Fixed {
        Vector3::dot(self, self)
    }

    /// The exact squared length in raw units: the sum of the squares of the
    /// raw components, not rounded.
    pub open spec fn norm(self) -> int {
        self.x.raw * self.x.raw + self.y.raw * self.y.raw + self.z.raw * self.z.raw
    }

    /// The factor by which `unit` stretches a vector before it takes the
    /// length: `2^32` for a vector shorter than 1, so that the length keeps
    /// 32 more bits, and 1 for the others.
    pub open spec fn stretch(self) -> int {
        if self.norm() < 0x1_0000_0000_0000_0000 {
            0x1_0000_0000
        } else {
            1
        }
    }

    /// The length of the stretched vector in raw units, rounded down: what
    /// `unit` divides by.
    pub open spec fn span(self) -> int {
        root(self.norm() * (self.stretch() * self.stretch()))
    }

    /// The length: the square root of the exact squared length, rounded
    /// down and clamped into range.
    #[verifier::opaque]
    pub open spec fn spec_len(&self) -> Fixed {
        Fixed::of(root(self.norm()))
    }

    /// The cross product, at right angles to both vectors.
    pub open spec fn spec_cross(&self, other: &Vector3) -> Vector3 {
        Vector3 {
            x: self.y.mul(other.z).sub(self.z.mul(other.y)),
            y: self.z.mul(other.x).sub(self.x.mul(other.z)),
            z: self.x.mul(other.y).sub(self.y.mul(other.x)),
        }
    }

    /// The direction of the unit vector `uv` after it passes a surface with
    /// the normal `n`, for the ratio `ir` of the refractive indices. The part
    /// of `uv` across the normal is scaled by `ir`; the part along the normal
    /// makes up the length.
    pub open spec fn spec_refract(uv: &Vector3, n: &Vector3, ir: Fixed) -> Vector3 {
        let cos_theta = Vector3::dot(&uv.neg(), n).min(Fixed::one());
        let perp = uv.add(n.scale(cos_theta)).scale(ir);
        let parallel = n.neg().scale(Fixed::one().sub(perp.len_sq()).sqrt());
        perp.add(parallel)
    }

    /// The vector of length 1 in the direction of the vector: every
    /// component times `2^32` over the length, rounded toward zero. The
    /// length is taken from the exact squared length, and for a vector
    /// shorter than 1 from the vector stretched by `2^32`, so that short
    /// vectors lose nothing. The zero vector stays the zero vector.
    #[verifier::opaque]
    pub open spec fn spec_unit(&self) -> Vector3 {
        if self.norm() == 0 {
            *self
        } else {
            Vector3 {
                x: Fixed::of(quotient(self.x.raw * SCALE * self.stretch(), self.span())),
                y: Fixed::of(quotient(self.y.raw * SCALE * self.stretch(), self.span())),
                z: Fixed::of(quotient(self.z.raw * SCALE * self.stretch(), self.span())),
            }
        }
    }

    /// The point `(1 - t) * vec + t * other`.
    pub open spec fn spec_lerp(vec: &Vector3, other: &Vector3, t: Fixed) -> Vector3 {
        vec.scale(Fixed::one().sub(t)).add(other.scale(t))
    }

    /// Whether every component is closer to zero than `10^-8`.
    pub open spec fn spec_near_zero(vec: &Vector3) -> bool {
        vec.x.abs().raw <= EPSILON_RAW && vec.y.abs().raw <= EPSILON_RAW && vec.z.abs().raw
            <= EPSILON_RAW
    }

    /// Every component replaced by its square root.
    pub open spec fn spec_sqrt(self) -> Vector3 {
        Vector3 { x: self.x.sqrt(), y: self.y.sqrt(), z: self.z.sqrt() }
    }

    /// The point of the box from `min` to `max` in every component that the
    /// three numbers `ux`, `uy`, `uz` of `[0, 1)` pick.
    pub open spec fn spec_between(
        min: Fixed,
        max: Fixed,
        ux: Fixed,
        uy: Fixed,
        uz: Fixed,
    ) -> Vector3 {
        Vector3 {
            x: min.add(ux.mul(max.sub(min))),
            y: min.add(uy.mul(max.sub(min))),
            z: min.add(uz.mul(max.sub(min))),
        }
    }

    /// The point of the square from -1 to 1 in `x` and `y` that `ux` and `uy`
    /// pick, where it lies in the unit disk.
    pub open spec fn spec_disk_point(ux: Fixed, uy: Fixed) -> Option<Vector3> {
        let low = Fixed::from_int(-1i64);
        let span = Fixed::from_int(2i64);
        let vec = Vector3 { x: low.add(ux.mul(span)), y: low.add(uy.mul(span)), z: Fixed::zero() };
        if vec.len().raw <= SCALE {
            Some(vec)
        } else {
            None
        }
    }

    /// The direction of the point of the cube from -1 to 1 that `ux`, `uy`
    /// and `uz` pick, where that point lies in the unit ball and is not its
    /// centre, which has no direction.
    pub open spec fn spec_sphere_point(ux: Fixed, uy: Fixed, uz: Fixed) -> Option<Vector3> {
        let vec = Vector3::between(Fixed::from_int(-1i64), Fixed::from_int(1i64), ux, uy, uz);
        if vec.norm() > 0 && vec.len().raw <= SCALE {
            Some(vec.unit())
        } else {
            None
        }
    }

    /// Whether every component lies between 0 and 1: whether the vector is
    /// a colour that a display can show, or a share of each channel.
    pub open spec fn is_shade(self) -> bool {
        &&& 0 <= self.x.raw <= SCALE
        &&& 0 <= self.y.raw <= SCALE
        &&& 0 <= self.z.raw <= SCALE
    }

    /// Whether no component is `i64::MIN`, which holds of every vector that
    /// an operation returns.
    pub open spec fn in_range(self) -> bool {
        self.x.in_range() && self.y.in_range() && self.z.in_range()
    }

    /// Whether no component lies beyond 16384 in either direction.
    pub open spec fn is_moderate(self) -> bool {
        &&& -COMPONENT_MAX <= self.x.raw <= COMPONENT_MAX
        &&& -COMPONENT_MAX <= self.y.raw <= COMPONENT_MAX
        &&& -COMPONENT_MAX <= self.z.raw <= COMPONENT_MAX
    }

    /// Whether the vector is a unit vector along one of the three axes, in
    /// either direction.
    pub open spec fn is_axis(self) -> bool {
        ||| (self.x.raw == SCALE || self.x.raw == -SCALE) && self.y.raw == 0 && self.z.raw == 0
        ||| self.x.raw == 0 && (self.y.raw == SCALE || self.y.raw == -SCALE) && self.z.raw == 0
        ||| self.x.raw == 0 && self.y.raw == 0 && (self.z.raw == SCALE || self.z.raw == -SCALE)
    }

    /// Whether `vec` is what `between` gives for three numbers in `[0, 1)`.
    pub open spec fn is_box_sample(min: Fixed, max: Fixed, vec: Vector3) -> bool {
        exists|ux: Fixed, uy: Fixed, uz: Fixed|
            ux.in_unit_interval() && uy.in_unit_interval() && uz.in_unit_interval()
                && #[trigger] Vector3::between(min, max, ux, uy, uz) == vec
    }

    /// Whether `vec` is a point that `disk_point` accepts for two numbers in
    /// `[0, 1)`.
    pub open spec fn is_disk_sample(vec: Vector3) -> bool {
        exists|ux: Fixed, uy: Fixed|
            ux.in_unit_interval() && uy.in_unit_interval() && #[trigger] Vector3::disk_point(
                ux,
                uy,
            ) == Some(vec)
    }

    /// Whether `vec` is a direction that `sphere_point` gives for three
    /// numbers in `[0, 1)`.
    pub open spec fn is_sphere_sample(vec: Vector3) -> bool {
        exists|ux: Fixed, uy: Fixed, uz: Fixed|
            ux.in_unit_interval() && uy.in_unit_interval() && uz.in_unit_interval()
                && #[trigger] Vector3::sphere_point(ux, uy, uz) == Some(vec)
    }

    /// The vector with the components `x`, `y` and `z`.
    #[verifier::when_used_as_spec(spec_new)]
    pub fn new(x: Fixed, y: Fixed, z: Fixed) -> (r: Vector3)
        ensures
            r == Vector3::spec_new(x, y, z),
    {
        Vector3 { x, y, z }
    }

    /// The sum, component by component.
    #[verifier::when_used_as_spec(spec_add)]
    pub fn add(self, other: Vector3) -> (r: Vector3)
        ensures
            r == self.spec_add(other),
    {
        Vector3 { x: self.x.add(other.x), y: self.y.add(other.y), z: self.z.add(other.z) }
    }

    /// The difference, component by component.
    #[verifier::when_used_as_spec(spec_sub)]
    pub fn sub(self, other: Vector3) -> (r: Vector3)
        ensures
            r == self.spec_sub(other),
    {
        Vector3 { x: self.x.sub(other.x), y: self.y.sub(other.y), z: self.z.sub(other.z) }
    }

    /// The opposite vector.
    #[verifier::when_used_as_spec(spec_neg)]
    pub fn neg(self) -> (r: Vector3)
        ensures
            r == self.spec_neg(),
    {
        Vector3 { x: self.x.neg(), y: self.y.neg(), z: self.z.neg() }
    }

    /// Every component multiplied by `factor`.
    #[verifier::when_used_as_spec(spec_scale)]
    pub fn scale(self, factor: Fixed) -> (r: Vector3)
        ensures
            r == self.spec_scale(factor),
    {
        Vector3 { x: self.x.mul(factor), y: self.y.mul(factor), z: self.z.mul(factor) }
    }

    /// Every component divided by `divisor`.
    #[verifier::when_used_as_spec(spec_div)]
    pub fn div(self, divisor: Fixed) -> (r: Vector3)
        ensures
            r == self.spec_div(divisor),
    {
        Vector3 { x: self.x.div(divisor), y: self.y.div(divisor), z: self.z.div(divisor) }
    }

    /// The product, component by component: a colour seen through a filter.
    #[verifier::when_used_as_spec(spec_modulate)]
    pub fn modulate(self, other: Vector3) -> (r: Vector3)
        ensures
            r == self.spec_modulate(other),
    {
        Vector3 { x: self.x.mul(other.x), y: self.y.mul(other.y), z: self.z.mul(other.z) }
    }

    /// The dot product: the products of the components, added up.
    #[verifier::when_used_as_spec(spec_dot)]
    pub fn dot(vec: &Vector3, other: &Vector3) -> (r: Fixed)
        ensures
            r == Vector3::spec_dot(vec, other),
    {
        vec.x.mul(other.x).add(vec.y.mul(other.y)).add(vec.z.mul(other.z))
    }

    /// The mirror image of `self` at a surface with the normal `other`:
    /// `self - 2 * dot(self, other) * other`.
    #[verifier::when_used_as_spec(spec_reflect)]
    pub fn reflect(&self, other: &Vector3) -> (r: Vector3)
        ensures
            r == self.spec_reflect(other),
    {
        let proj = Vector3::dot(self, other);
        self.sub(other.scale(Fixed::from_int(2i64).mul(proj)))
    }

    /// The square of the length: the dot product of the vector with itself.
    #[verifier::when_used_as_spec(spec_len_sq)]
    pub fn len_sq(&self) -> (r: Fixed)
        ensures
            r == self.spec_len_sq(),
    {
        Vector3::dot(self, self)
    }

    /// The exact squared length in raw units.
    fn wide_norm(&self) -> (n: u128)
        ensures
            n as int == self.norm(),
    {
        let x: i128 = self.x.raw as i128;
        let y: i128 = self.y.raw as i128;
        let z: i128 = self.z.raw as i128;
        assert(0 <= x * x <= 0x4000_0000_0000_0000_0000_0000_0000_0000 && 0 <= y * y
            <= 0x4000_0000_0000_0000_0000_0000_0000_0000 && 0 <= z * z
            <= 0x4000_0000_0000_0000_0000_0000_0000_0000) by (nonlinear_arith)
            requires
                -0x8000_0000_0000_0000 <= x <= 0x7fff_ffff_ffff_ffff,
                -0x8000_0000_0000_0000 <= y <= 0x7fff_ffff_ffff_ffff,
                -0x8000_0000_0000_0000 <= z <= 0x7fff_ffff_ffff_ffff,
        ;
        (x * x) as u128 + (y * y) as u128 + (z * z) as u128
    }

    /// The length: the square root of the exact squared length, rounded
    /// down and clamped into range.
    #[verifier::when_used_as_spec(spec_len)]
    pub fn len(&self) -> (r: Fixed)
        ensures
            r == self.spec_len(),
    {
        proof {
            reveal(Vector3::spec_len);
        }
        let root = integer_root(self.wide_norm());
        Fixed { raw: clamp(root as i128) }
    }

    /// The cross product, at right angles to both vectors.
    #[verifier::when_used_as_spec(spec_cross)]
    pub fn cross(&self, other: &Vector3) -> (r: Vector3)
        ensures
            r == self.spec_cross(other),
    {
        Vector3 {
            x: self.y.mul(other.z).sub(self.z.mul(other.y)),
            y: self.z.mul(other.x).sub(self.x.mul(other.z)),
            z: self.x.mul(other.y).sub(self.y.mul(other.x)),
        }
    }

    /// The direction of the unit vector `uv` after it passes a surface with
    /// the normal `n`, for the ratio `ir` of the refractive indices. The part
    /// of `uv` across the normal is scaled by `ir`; the part along the normal
    /// makes up the length.
    #[verifier::when_used_as_spec(spec_refract)]
    pub fn refract(uv: &Vector3, n: &Vector3, ir: Fixed) -> (r: Vector3)
        ensures
            r == Vector3::spec_refract(uv, n, ir),
    {
        let cos_theta = Vector3::dot(&uv.neg(), n).min(Fixed::one());
        let perp = uv.add(n.scale(cos_theta)).scale(ir);
        let parallel = n.neg().scale(Fixed::one().sub(perp.len_sq()).sqrt());
        perp.add(parallel)
    }

    /// The vector of length 1 in the direction of the vector: every
    /// component times `2^32` over the length, rounded toward zero. The
    /// length is taken from the exact squared length, and for a vector
    /// shorter than 1 from the vector stretched by `2^32`, so that short
    /// vectors lose nothing. The zero vector stays the zero vector.
    ///
    /// The result of every vector but the zero vector has a length between
    /// `1 - 4 / 2^32` and 1, and no component beyond 1.
    #[verifier::when_used_as_spec(spec_unit)]
    pub fn unit(&self) -> (r: Vector3)
        ensures
            r == self.spec_unit(),
            self.norm() > 0 ==> SCALE - 4 <= r.len().raw <= SCALE && is_nearly_unit(r),
            self.norm() == 0 ==> r == *self,
    {
        proof {
            reveal(Vector3::spec_unit);
            if self.norm() > 0 {
                lemma_unit_length(*self);
            }
        }
        let norm = self.wide_norm();
        if norm == 0 {
            return *self;
        }
        proof {
            lemma_span_positive(*self);
        }
        if norm < 0x1_0000_0000_0000_0000 {
            let span = integer_root(norm * 0x1_0000_0000_0000_0000);
            proof {
                lemma_short_components(*self);
                assert(self.stretch() * self.stretch() == 0x1_0000_0000_0000_0000);
                assert(span as int == self.span());
                assert(self.x.raw * SCALE * self.stretch() == self.x.raw * 0x1_0000_0000_0000_0000
                    && self.y.raw * SCALE * self.stretch() == self.y.raw * 0x1_0000_0000_0000_0000
                    && self.z.raw * SCALE * self.stretch() == self.z.raw
                    * 0x1_0000_0000_0000_0000) by (nonlinear_arith)
                    requires
                        self.stretch() == 0x1_0000_0000,
                        SCALE == 0x1_0000_0000,
                ;
            }
            Vector3 {
                x: Fixed {
                    raw: clamp(divide(self.x.raw as i128 * 0x1_0000_0000_0000_0000, span as i128)),
                },
                y: Fixed {
                    raw: clamp(divide(self.y.raw as i128 * 0x1_0000_0000_0000_0000, span as i128)),
                },
                z: Fixed {
                    raw: clamp(divide(self.z.raw as i128 * 0x1_0000_0000_0000_0000, span as i128)),
                },
            }
        } else {
            let span = integer_root(norm);
            proof {
                assert(self.stretch() * self.stretch() == 1);
                assert(self.norm() * 1 == self.norm());
                assert(span as int == self.span());
                assert(self.x.raw * SCALE * self.stretch() == self.x.raw * 0x1_0000_0000
                    && self.y.raw * SCALE * self.stretch() == self.y.raw * 0x1_0000_0000
                    && self.z.raw * SCALE * self.stretch() == self.z.raw * 0x1_0000_0000)
                    by (nonlinear_arith)
                    requires
                        self.stretch() == 1,
                        SCALE == 0x1_0000_0000,
                ;
            }
            Vector3 {
                x: Fixed { raw: clamp(divide(self.x.raw as i128 * 0x1_0000_0000, span as i128)) },
                y: Fixed { raw: clamp(divide(self.y.raw as i128 * 0x1_0000_0000, span as i128)) },
                z: Fixed { raw: clamp(divide(self.z.raw as i128 * 0x1_0000_0000, span as i128)) },
            }
        }
    }

    /// The point `(1 - t) * vec + t * other`.
    #[verifier::when_used_as_spec(spec_lerp)]
    pub fn lerp(vec: &Vector3, other: &Vector3, t: Fixed) -> (r: Vector3)
        ensures
            r == Vector3::spec_lerp(vec, other, t),
    {
        vec.scale(Fixed::one().sub(t)).add(other.scale(t))
    }

    /// Whether every component is closer to zero than `10^-8`.
    #[verifier::when_used_as_spec(spec_near_zero)]
    pub fn near_zero(vec: &Vector3) -> (r: bool)
        ensures
            r == Vector3::spec_near_zero(vec),
    {
        vec.x.abs().raw <= EPSILON_RAW && vec.y.abs().raw <= EPSILON_RAW && vec.z.abs().raw
            <= EPSILON_RAW
    }

    /// The point of the box from `min` to `max` in every component that the
    /// three numbers `ux`, `uy`, `uz` of `[0, 1)` pick.
    #[verifier::when_used_as_spec(spec_between)]
    pub fn between(min: Fixed, max: Fixed, ux: Fixed, uy: Fixed, uz: Fixed) -> (r: Vector3)
        ensures
            r == Vector3::spec_between(min, max, ux, uy, uz),
    {
        let span = max.sub(min);
        Vector3 { x: min.add(ux.mul(span)), y: min.add(uy.mul(span)), z: min.add(uz.mul(span)) }
    }

    /// A random point of the box from `min` to `max` in every component.
    pub fn random_vec(min: Fixed, max: Fixed, rng: &mut StdRng) -> (r: Vector3)
        ensures
            Vector3::is_box_sample(min, max, r),
    {
        let ux = unit_sample(rng);
        let uy = unit_sample(rng);
        let uz = unit_sample(rng);
        Vector3::between(min, max, ux, uy, uz)
    }

    /// The point of the square from -1 to 1 in `x` and `y` that `ux` and `uy`
    /// pick, where it lies in the unit disk.
    #[verifier::when_used_as_spec(spec_disk_point)]
    pub fn disk_point(ux: Fixed, uy: Fixed) -> (r: Option<Vector3>)
        ensures
            r == Vector3::spec_disk_point(ux, uy),
    {
        let low = Fixed::from_int(-1i64);
        let span = Fixed::from_int(2i64);
        let vec = Vector3 { x: low.add(ux.mul(span)), y: low.add(uy.mul(span)), z: Fixed::zero() };
        if vec.len().raw <= SCALE {
            Some(vec)
        } else {
            None
        }
    }

    /// The direction of the point of the cube from -1 to 1 that `ux`, `uy`
    /// and `uz` pick, where that point lies in the unit ball and is not its
    /// centre, which has no direction. The direction has a length between
    /// `1 - 4 / 2^32` and 1.
    #[verifier::when_used_as_spec(spec_sphere_point)]
    pub fn sphere_point(ux: Fixed, uy: Fixed, uz: Fixed) -> (r: Option<Vector3>)
        ensures
            r == Vector3::spec_sphere_point(ux, uy, uz),
            r matches Some(direction) ==> SCALE - 4 <= direction.len().raw <= SCALE
                && is_nearly_unit(direction),
    {
        let vec = Vector3::between(Fixed::from_int(-1i64), Fixed::from_int(1i64), ux, uy, uz);
        if vec.wide_norm() > 0 && vec.len().raw <= SCALE {
            Some(vec.unit())
        } else {
            None
        }
    }

    /// A random point of the unit disk in the plane `z = 0`: points of the
    /// square are drawn until one lies in the disk. After `ATTEMPTS` draws
    /// the centre is taken, the point that the numbers 1/2 and 1/2 pick.
    pub fn random_vec_disk(rng: &mut StdRng) -> (r: Vector3)
        ensures
            Vector3::is_disk_sample(r),
    {
        let mut tries: u32 = 0;
        while tries < ATTEMPTS
            invariant
                tries <= ATTEMPTS,
            decreases ATTEMPTS - tries,
        {
            let ux = unit_sample(rng);
            let uy = unit_sample(rng);
            if let Some(vec) = Vector3::disk_point(ux, uy) {
                return vec;
            }
            tries = tries + 1;
        }
        proof {
            lemma_centre_of_disk();
        }
        Vector3 { x: Fixed::zero(), y: Fixed::zero(), z: Fixed::zero() }
    }

    /// A random direction: points of the cube are drawn until one lies in the
    /// unit ball, and that point is scaled to unit length. After `ATTEMPTS`
    /// draws the direction `(-1, 0, 0)` is taken, the one that the numbers 0,
    /// 1/2 and 1/2 pick.
    pub fn random_vec_sphere(rng: &mut StdRng) -> (r: Vector3)
        ensures
            Vector3::is_sphere_sample(r),
            SCALE - 4 <= r.len().raw <= SCALE,
            is_nearly_unit(r),
    {
        let mut tries: u32 = 0;
        while tries < ATTEMPTS
            invariant
                tries <= ATTEMPTS,
            decreases ATTEMPTS - tries,
        {
            let ux = unit_sample(rng);
            let uy = unit_sample(rng);
            let uz = unit_sample(rng);
            if let Some(vec) = Vector3::sphere_point(ux, uy, uz) {
                return vec;
            }
            tries = tries + 1;
        }
        proof {
            lemma_fallback_direction();
        }
        Vector3 { x: Fixed::from_int(-1i64), y: Fixed::zero(), z: Fixed::zero() }
    }

    /// Replaces every component by its square root, which brings a linear
    /// colour close to what a display expects.
    pub fn sqrt(&mut self)
        ensures
            *final(self) == old(self).spec_sqrt(),
    {
        self.x = self.x.sqrt();
        self.y = self.y.sqrt();
        self.z = self.z.sqrt();
    }
}

/// A vector that is not the zero vector has a span of at least `2^32`.
pub proof fn lemma_span_positive(v: Vector3)
    requires
        v.norm() > 0,
    ensures
        v.span() >= 0x1_0000_0000,
        is_root(v.norm() * (v.stretch() * v.stretch()), v.span()),
{
    let wide = v.norm() * (v.stretch() * v.stretch());
    assert(wide >= 0x1_0000_0000_0000_0000) by (nonlinear_arith)
        requires
            wide == v.norm() * (v.stretch() * v.stretch()),
            v.norm() >= 1,
            v.stretch() == 0x1_0000_0000 || (v.stretch() == 1 && v.norm()
                >= 0x1_0000_0000_0000_0000),
    ;
    lemma_root_exists(wide);
    lemma_root_monotonic(0x1_0000_0000_0000_0000, wide);
    lemma_root_unique(0x1_0000_0000_0000_0000, 0x1_0000_0000);
}

/// No component of a vector shorter than 1 reaches 1.
pub proof fn lemma_short_components(v: Vector3)
    requires
        v.norm() < 0x1_0000_0000_0000_0000,
    ensures
        -0x1_0000_0000 < v.x.raw < 0x1_0000_0000,
        -0x1_0000_0000 < v.y.raw < 0x1_0000_0000,
        -0x1_0000_0000 < v.z.raw < 0x1_0000_0000,
{
    let x = v.x.raw as int;
    let y = v.y.raw as int;
    let z = v.z.raw as int;
    assert(-0x1_0000_0000 < x < 0x1_0000_0000 && -0x1_0000_0000 < y < 0x1_0000_0000
        && -0x1_0000_0000 < z < 0x1_0000_0000) by (nonlinear_arith)
        requires
            x * x + y * y + z * z < 0x1_0000_0000_0000_0000,
    {
        assert(x * x >= 0 && y * y >= 0 && z * z >= 0);
        if x >= 0x1_0000_0000 {
            assert(x * x >= 0x1_0000_0000 * 0x1_0000_0000);
        }
        if x <= -0x1_0000_0000 {
            assert(x * x >= 0x1_0000_0000 * 0x1_0000_0000);
        }
        if y >= 0x1_0000_0000 {
            assert(y * y >= 0x1_0000_0000 * 0x1_0000_0000);
        }
        if y <= -0x1_0000_0000 {
            assert(y * y >= 0x1_0000_0000 * 0x1_0000_0000);
        }
        if z >= 0x1_0000_0000 {
            assert(z * z >= 0x1_0000_0000 * 0x1_0000_0000);
        }
        if z <= -0x1_0000_0000 {
            assert(z * z >= 0x1_0000_0000 * 0x1_0000_0000);
        }
    }
}

/// Only the zero vector has the exact squared length 0.
pub proof fn lemma_zero_norm(v: Vector3)
    ensures
        v.norm() >= 0,
        v.norm() == 0 <==> v.x.raw == 0 && v.y.raw == 0 && v.z.raw == 0,
{
    let x = v.x.raw as int;
    let y = v.y.raw as int;
    let z = v.z.raw as int;
    assert(x * x >= 0 && y * y >= 0 && z * z >= 0 && (x != 0 ==> x * x > 0) && (y != 0 ==> y * y
        > 0) && (z != 0 ==> z * z > 0)) by (nonlinear_arith);
}

/// The numbers 1/2 and 1/2 pick the centre of the unit disk.
pub proof fn lemma_centre_of_disk()
    ensures
        Vector3::disk_point(Fixed::from_raw(2147483648i64), Fixed::from_raw(2147483648i64))
            == Some(Vector3::new(Fixed::zero(), Fixed::zero(), Fixed::zero())),
{
    reveal(Vector3::spec_len);
    let half = Fixed::from_raw(2147483648i64);
    let centre = Vector3 { x: Fixed::zero(), y: Fixed::zero(), z: Fixed::zero() };
    lemma_mul_whole(2i64, half);
    assert(half.mul(Fixed::from_int(2i64)) == Fixed::one());
    assert(Fixed::from_int(-1i64).add(Fixed::one()) == Fixed::zero());
    assert(centre.norm() == 0);
    lemma_root_unique(0, 0);
    assert(centre.len().raw == 0);
}

/// The numbers 0, 1/2 and 1/2 pick the direction `(-1, 0, 0)`.
pub proof fn lemma_fallback_direction()
    ensures
        Vector3::sphere_point(
            Fixed::zero(),
            Fixed::from_raw(2147483648i64),
            Fixed::from_raw(2147483648i64),
        ) == Some(Vector3::new(Fixed::from_int(-1i64), Fixed::zero(), Fixed::zero())),
        Vector3::new(Fixed::from_int(-1i64), Fixed::zero(), Fixed::zero()).len() == Fixed::one(),
        is_nearly_unit(Vector3::new(Fixed::from_int(-1i64), Fixed::zero(), Fixed::zero())),
{
    let half = Fixed::from_raw(2147483648i64);
    let west = Vector3 { x: Fixed::from_int(-1i64), y: Fixed::zero(), z: Fixed::zero() };
    let low = Fixed::from_int(-1i64);
    let high = Fixed::from_int(1i64);
    assert(high.sub(low) == Fixed::from_int(2i64));
    lemma_mul_whole(2i64, half);
    lemma_mul_whole(2i64, Fixed::zero());
    assert(half.mul(Fixed::from_int(2i64)) == Fixed::one());
    assert(Fixed::zero().mul(Fixed::from_int(2i64)) == Fixed::zero());
    assert(low.add(Fixed::one()) == Fixed::zero());
    assert(low.add(Fixed::zero()) == low);
    assert(Vector3::between(low, high, Fixed::zero(), half, half) == west);
    assert(west.is_axis());
    lemma_axis_is_unit(west);
    lemma_zero_norm(west);
}

/// What the operations on vectors return lies in the symmetric range.
pub proof fn lemma_vectors_in_range(a: Vector3, b: Vector3, k: Fixed)
    ensures
        a.add(b).in_range(),
        a.sub(b).in_range(),
        a.neg().in_range(),
        a.scale(k).in_range(),
        a.div(k).in_range(),
        a.modulate(b).in_range(),
        a.cross(&b).in_range(),
        a.unit().in_range(),
        a.len().in_range(),
        a.reflect(&b).in_range(),
        Vector3::dot(&a, &b).in_range(),
{
    reveal(Vector3::spec_unit);
    reveal(Vector3::spec_len);
    lemma_zero_norm(a);
    lemma_results_in_range(a.x, b.x);
    lemma_results_in_range(a.y, b.y);
    lemma_results_in_range(a.z, b.z);
    lemma_results_in_range(a.x, k);
    lemma_results_in_range(a.y, k);
    lemma_results_in_range(a.z, k);
}

/// Neither the squared length of a vector nor its length is negative.
pub proof fn lemma_len_sq_not_negative(a: Vector3)
    ensures
        a.len_sq().raw >= 0,
        a.len().raw >= 0,
{
    reveal(Vector3::spec_len);
    lemma_square_not_negative(a.x);
    lemma_square_not_negative(a.y);
    lemma_square_not_negative(a.z);
    lemma_zero_norm(a);
    lemma_root_exists(a.norm());
}

/// A share of a colour that a display can show is such a colour.
pub proof fn lemma_modulate_keeps_shade(color: Vector3, share: Vector3)
    requires
        color.is_shade(),
        share.is_shade(),
    ensures
        color.modulate(share).is_shade(),
{
    lemma_mul_of_shares(color.x, share.x);
    lemma_mul_of_shares(color.y, share.y);
    lemma_mul_of_shares(color.z, share.z);
}

/// Turning one vector round negates the dot product.
pub proof fn lemma_dot_neg(a: Vector3, b: Vector3)
    requires
        b.in_range(),
    ensures
        Vector3::dot(&a, &b.neg()).raw == -Vector3::dot(&a, &b).raw,
{
    lemma_mul_neg(a.x, b.x);
    lemma_mul_neg(a.y, b.y);
    lemma_mul_neg(a.z, b.z);
}

/// A vector along the normal of a surface is turned round by the mirror:
/// light that falls straight onto a mirror comes straight back. This holds
/// to the last bit for a normal along an axis and a vector of any length
/// whose double is in range.
pub proof fn lemma_reflect_normal_incidence(normal: Vector3, length: Fixed)
    requires
        normal.is_axis(),
        -RAW_MAX <= 2 * length.raw <= RAW_MAX,
    ensures
        normal.scale(length).reflect(&normal) == normal.scale(length).neg(),
{
    let v = normal.scale(length);
    let twice = Fixed::from_int(2i64).mul(Vector3::dot(&v, &normal));
    lemma_mul_whole(0i64, length);
    lemma_mul_whole(1i64, length);
    lemma_mul_whole(-1i64, length);
    assert(v.x.raw == 0 || v.x.raw == length.raw || v.x.raw == -length.raw);
    lemma_mul_whole(0i64, v.x);
    lemma_mul_whole(0i64, v.y);
    lemma_mul_whole(0i64, v.z);
    lemma_mul_whole(1i64, v.x);
    lemma_mul_whole(1i64, v.y);
    lemma_mul_whole(1i64, v.z);
    lemma_mul_whole(-1i64, v.x);
    lemma_mul_whole(-1i64, v.y);
    lemma_mul_whole(-1i64, v.z);
    assert(Vector3::dot(&v, &normal).raw == length.raw);
    lemma_mul_whole(2i64, Vector3::dot(&v, &normal));
    assert(twice.raw == 2 * length.raw);
    lemma_mul_whole(0i64, twice);
    lemma_mul_whole(1i64, twice);
    lemma_mul_whole(-1i64, twice);
}

/// The unit vectors along the axes have the length 1 to the last bit, and
/// scaling them to unit length changes nothing.
pub proof fn lemma_axis_is_unit(axis: Vector3)
    requires
        axis.is_axis(),
    ensures
        axis.len() == Fixed::one(),
        axis.len_sq() == Fixed::one(),
        axis.unit() == axis,
        axis.norm() > 0,
{
    lemma_mul_whole(0i64, Fixed::zero());
    lemma_mul_whole(1i64, Fixed::one());
    lemma_mul_whole(-1i64, Fixed::one().neg());
    assert(axis.len_sq() == Fixed::one());
    reveal(Vector3::spec_len);
    reveal(Vector3::spec_unit);
    let s = SCALE as int;
    assert(s * s == 0x1_0000_0000_0000_0000 && (-s) * (-s) == 0x1_0000_0000_0000_0000 && 0 * 0
        == 0) by (nonlinear_arith)
        requires
            s == 0x1_0000_0000,
    ;
    assert(axis.norm() == 0x1_0000_0000_0000_0000);
    assert(axis.stretch() == 1);
    assert(axis.norm() * (axis.stretch() * axis.stretch()) == axis.norm());
    lemma_root_unique(0x1_0000_0000_0000_0000, s);
    lemma_quotient_of_multiple(0, s);
    lemma_quotient_of_multiple(s, s);
    lemma_quotient_of_multiple(-s, s);
    assert(0 * SCALE * 1 == 0 * s && SCALE * SCALE * 1 == s * s && (-SCALE) * SCALE * 1 == (-s)
        * s);
}

} // verus!
