//! Clear materials such as glass and water.
use super::Material;
use crate::fixed::{
    lemma_mul_whole, lemma_quotient_of_multiple, lemma_results_in_range, lemma_root_monotonic,
    lemma_root_unique, lemma_square_not_negative, lemma_zero_div_sqrt, Fixed, SCALE,
};
use crate::geometry::accuracy::{is_nearly_unit, lemma_unit_length, within};
use crate::geometry::bending::{lemma_unmirrored_length, RATIO_MAX};
use crate::geometry::mirror::lemma_mirror_length;
use crate::geometry::refraction::{lemma_refract_matched, lemma_refract_matched_anywhere};
use crate::geometry::hittable::HitResult;
use crate::geometry::ray::Ray;
use crate::geometry::vector3::{Color, Vector3};
use crate::random::unit_sample;
use rand::rngs::StdRng;
use vstd::prelude::*;

verus! {

/// A clear material with the index of refraction `ir`. It takes no light
/// away: a ray is either mirrored or bent.
#[derive(Clone, Copy, Debug, PartialEq, Eq, Structural)]
pub struct Dielectric {
    pub ir: Fixed,
}

/// Schlick's estimate of the share of light that a clear surface mirrors, for
/// the cosine `cos` of the angle of incidence and the ratio `ir` of the
/// indices: `r0 + (1 - r0) * (1 - cos)^5` with `r0 = ((1 - ir) / (1 + ir))^2`.
pub open spec fn spec_reflectance(cos: Fixed, ir: Fixed) -> Fixed {
    let root = Fixed::one().sub(ir).div(Fixed::one().add(ir));
    let r0 = root.mul(root);
    r0.add(Fixed::one().sub(r0).mul(Fixed::one().sub(cos).powi(5u32)))
}

/// Schlick's estimate of the share of light that a clear surface mirrors, for
/// the cosine `cos` of the angle of incidence and the ratio `ir` of the
/// indices: `r0 + (1 - r0) * (1 - cos)^5` with `r0 = ((1 - ir) / (1 + ir))^2`.
#[verifier::when_used_as_spec(spec_reflectance)]
pub fn reflectance(cos: Fixed, ir: Fixed) -> (r: Fixed)
    ensures
        r == spec_reflectance(cos, ir),
{
    let mut r0 = Fixed::one().sub(ir).div(Fixed::one().add(ir));
    r0 = r0.mul(r0);
    r0.add(Fixed::one().sub(r0).mul(Fixed::one().sub(cos).powi(5)))
}

impl Dielectric {
    /// The ratio of the index on the side the ray comes from to the index on
    /// the side it goes to, the other side being empty space.
    pub open spec fn ratio(&self, hit: &HitResult) -> Fixed {
        if hit.front_face {
            Fixed::one().div(self.ir)
        } else {
            self.ir
        }
    }

    /// Whether the ray and the hit are regular: a direction that is not
    /// zero, a unit normal that the unit direction does not point along, and
    /// a ratio of the indices of at most 4.
    pub open spec fn is_regular(&self, ray: &Ray, hit: &HitResult) -> bool {
        &&& ray.direction.norm() > 0
        &&& is_nearly_unit(hit.normal)
        &&& Vector3::dot(&ray.direction.unit().neg(), &hit.normal).raw >= 0
        &&& 0 <= self.ratio(hit).raw <= RATIO_MAX
    }

    /// The cosine of the angle between the ray turned round and the normal,
    /// and 1 where rounding took it above.
    pub open spec fn cos_theta(ray: &Ray, hit: &HitResult) -> Fixed {
        Vector3::dot(&ray.direction.unit().neg(), &hit.normal).min(Fixed::one())
    }

    /// The sine of that angle.
    pub open spec fn sin_theta(ray: &Ray, hit: &HitResult) -> Fixed {
        let cos = Self::cos_theta(ray, hit);
        Fixed::one().sub(cos.mul(cos)).sqrt()
    }

    /// Whether the ray is mirrored: where no bent ray exists, or where the
    /// share of mirrored light is above the number drawn.
    pub open spec fn mirrors(&self, ray: &Ray, hit: &HitResult, draw: Fixed) -> bool {
        Self::sin_theta(ray, hit).mul(self.ratio(hit)).raw > SCALE || reflectance(
            Self::cos_theta(ray, hit),
            self.ratio(hit),
        ).raw > draw.raw
    }

    /// The ray that leaves `hit` for the number `draw` of `[0, 1)`: the
    /// mirror image of the unit direction of `ray` where the ray is mirrored,
    /// else that direction bent by Snell's law. All light is kept.
    pub open spec fn spec_scatter_by(&self, ray: &Ray, hit: &HitResult, draw: Fixed) -> (
        Color,
        Ray,
    ) {
        let direction = ray.direction.unit();
        (
            Vector3 { x: Fixed::one(), y: Fixed::one(), z: Fixed::one() },
            Ray {
                origin: hit.point,
                direction: if self.mirrors(ray, hit, draw) {
                    direction.reflect(&hit.normal)
                } else {
                    Vector3::refract(&direction, &hit.normal, self.ratio(hit))
                },
            },
        )
    }

    /// The ray that leaves `hit` for the number `draw` of `[0, 1)`: the
    /// mirror image of the unit direction of `ray` where the ray is mirrored,
    /// else that direction bent by Snell's law. All light is kept.
    ///
    /// The ray leaves with a direction of unit length wherever the ray and
    /// the hit are regular: a mirrored ray with a squared length between
    /// `1 - 129 / 2^32` and `1 + 136 / 2^32`, a bent ray between
    /// `1 - 517 / 2^32` and `1 + 1803 / 2^32`.
    #[verifier::when_used_as_spec(spec_scatter_by)]
    pub fn scatter_by(&self, ray: &Ray, hit: &HitResult, draw: Fixed) -> (r: (Color, Ray))
        ensures
            r == self.spec_scatter_by(ray, hit, draw),
            self.mirrors(ray, hit, draw) && ray.direction.norm() > 0 && is_nearly_unit(hit.normal)
                ==> SCALE - 129 <= r.1.direction.len_sq().raw <= SCALE + 136,
            self.is_regular(ray, hit) ==> SCALE - 517 <= r.1.direction.len_sq().raw <= SCALE
                + 1803,
    {
        proof {
            if ray.direction.norm() > 0 && is_nearly_unit(hit.normal) {
                lemma_unit_length(ray.direction);
                lemma_mirror_length(ray.direction.unit(), hit.normal);
                if self.is_regular(ray, hit) && !self.mirrors(ray, hit, draw) {
                    lemma_unmirrored_length(ray.direction.unit(), hit.normal, self.ratio(hit));
                }
            }
        }
        let attenuation = Vector3 { x: Fixed::one(), y: Fixed::one(), z: Fixed::one() };
        let ir = if hit.front_face {
            Fixed::one().div(self.ir)
        } else {
            self.ir
        };
        let direction = ray.direction.unit();
        let cos_theta = Vector3::dot(&direction.neg(), &hit.normal).min(Fixed::one());
        let sin_theta = Fixed::one().sub(cos_theta.mul(cos_theta)).sqrt();

        let scatter_direction = if sin_theta.mul(ir).raw > SCALE || reflectance(cos_theta, ir).raw
            > draw.raw {
            direction.reflect(&hit.normal)
        } else {
            Vector3::refract(&direction, &hit.normal, ir)
        };
        (attenuation, Ray { origin: hit.point, direction: scatter_direction })
    }
}

impl Material for Dielectric {
    open spec fn may_scatter(&self, ray: &Ray, hit: &HitResult, out: Option<(Color, Ray)>) -> bool {
        exists|draw: Fixed|
            draw.in_unit_interval() && out == Some(#[trigger] self.scatter_by(ray, hit, draw))
    }

    /// A clear surface swallows no ray, and the ray that leaves has a
    /// direction of unit length, its squared length between
    /// `1 - 517 / 2^32` and `1 + 1803 / 2^32`, wherever the ray and the hit
    /// are regular. Where the ray that leaves is the mirror image of `ray`,
    /// the squared length lies between `1 - 129 / 2^32` and
    /// `1 + 136 / 2^32`.
    fn scatter(&self, ray: &Ray, hit: &HitResult, rng: &mut StdRng) -> (r: Option<(Color, Ray)>)
        ensures
            r is Some,
            r matches Some(out) && (out.1.direction == ray.direction.unit().reflect(&hit.normal)
                && ray.direction.norm() > 0 && is_nearly_unit(hit.normal) ==> SCALE - 129
                <= out.1.direction.len_sq().raw <= SCALE + 136),
            r matches Some(out) && (self.is_regular(ray, hit) ==> SCALE - 517
                <= out.1.direction.len_sq().raw <= SCALE + 1803),
    {
        proof {
            if ray.direction.norm() > 0 && is_nearly_unit(hit.normal) {
                lemma_unit_length(ray.direction);
                lemma_mirror_length(ray.direction.unit(), hit.normal);
            }
        }
        let draw = unit_sample(rng);
        Some(self.scatter_by(ray, hit, draw))
    }
}

/// A material with the index 1 is no surface at all for a ray that falls
/// straight onto it: the ray goes on in its direction, whatever is drawn.
/// This holds to the last bit where the unit direction of the ray is the
/// normal turned round and the normal is not shorter than 1.
pub proof fn lemma_matched_index_passes_straight(
    material: Dielectric,
    ray: Ray,
    hit: HitResult,
    draw: Fixed,
)
    requires
        material.ir == Fixed::one(),
        draw.in_unit_interval(),
        hit.normal.in_range(),
        ray.direction.unit() == hit.normal.neg(),
        Vector3::dot(&hit.normal, &hit.normal).raw >= SCALE,
    ensures
        !material.mirrors(&ray, &hit, draw),
        material.scatter_by(&ray, &hit, draw).1.direction == ray.direction.unit(),
{
    let one = Fixed::one();
    let zero = Fixed::zero();
    let normal = hit.normal;
    let direction = ray.direction.unit();
    assert(direction.neg() == normal);
    assert(Dielectric::cos_theta(&ray, &hit) == one);
    lemma_mul_whole(1i64, one);
    lemma_mul_whole(1i64, zero);
    lemma_mul_whole(0i64, zero);
    lemma_mul_whole(0i64, one);
    lemma_zero_div_sqrt(one.add(one));
    assert(Dielectric::sin_theta(&ray, &hit) == zero);
    assert(material.ratio(&hit) == one) by {
        reveal(Fixed::spec_div);
        lemma_quotient_of_multiple(SCALE as int, SCALE as int);
    }
    assert(zero.powi(5u32) == zero) by {
        reveal_with_fuel(Fixed::spec_powi, 6);
    }
    assert(reflectance(one, one) == zero);
    lemma_mul_whole(1i64, normal.x);
    lemma_mul_whole(1i64, normal.y);
    lemma_mul_whole(1i64, normal.z);
    lemma_mul_whole(0i64, normal.neg().x);
    lemma_mul_whole(0i64, normal.neg().y);
    lemma_mul_whole(0i64, normal.neg().z);
    lemma_mul_whole(1i64, normal.neg().x);
    lemma_mul_whole(1i64, normal.neg().y);
    lemma_mul_whole(1i64, normal.neg().z);
    let none = Vector3 { x: zero, y: zero, z: zero };
    assert(direction.add(normal.scale(one)) == none);
    assert(none.scale(one) == none);
    assert(none.len_sq() == zero);
    assert(one.sub(zero).sqrt() == one) by {
        reveal(Fixed::spec_sqrt);
        lemma_root_unique(SCALE * SCALE, SCALE as int);
    }
    assert(Vector3::refract(&direction, &normal, one) == direction);
}

/// A material with the index 1 never mirrors all light: it mirrors a ray
/// where the share `(1 - cos)^5` of mirrored light is above the number
/// drawn, and nowhere else.
pub proof fn lemma_matched_index_mirrors(material: Dielectric, ray: Ray, hit: HitResult, draw: Fixed)
    requires
        material.ir == Fixed::one(),
    ensures
        material.ratio(&hit) == Fixed::one(),
        material.mirrors(&ray, &hit, draw) == (reflectance(
            Dielectric::cos_theta(&ray, &hit),
            Fixed::one(),
        ).raw > draw.raw),
        reflectance(Dielectric::cos_theta(&ray, &hit), Fixed::one()) == Fixed::one().sub(
            Dielectric::cos_theta(&ray, &hit),
        ).powi(5u32),
{
    let one = Fixed::one();
    let zero = Fixed::zero();
    assert(material.ratio(&hit) == one) by {
        reveal(Fixed::spec_div);
        lemma_quotient_of_multiple(SCALE as int, SCALE as int);
    }
    let cos = Dielectric::cos_theta(&ray, &hit);
    let sin = Dielectric::sin_theta(&ray, &hit);
    lemma_square_not_negative(cos);
    assert(sin.raw <= SCALE) by {
        reveal(Fixed::spec_sqrt);
        let inside = one.sub(cos.mul(cos));
        assert(inside.raw <= SCALE);
        assert(inside.raw * SCALE <= SCALE * SCALE) by (nonlinear_arith)
            requires
                inside.raw <= SCALE,
        ;
        lemma_root_monotonic(inside.raw * SCALE, SCALE * SCALE);
        lemma_root_unique(SCALE * SCALE, SCALE as int);
    }
    lemma_results_in_range(one.sub(cos.mul(cos)), one);
    lemma_mul_whole(1i64, sin);
    assert(sin.mul(one) == sin);
    // The share of mirrored light.
    lemma_zero_div_sqrt(one.add(one));
    lemma_mul_whole(0i64, zero);
    let power = one.sub(cos).powi(5u32);
    assert(power.in_range()) by {
        reveal_with_fuel(Fixed::spec_powi, 2);
        lemma_results_in_range(one.sub(cos).powi(4u32), one.sub(cos));
    }
    lemma_mul_whole(1i64, power);
}

/// A material with the index 1 is no surface at all: a ray that it does not
/// mirror goes on in its direction. For a ray of any length but zero and a
/// unit normal, and a cosine of the angle between them of at least `1 / p`,
/// for a whole number `p` from 2 to 4096, the direction of the ray that
/// leaves lies within `(112 p + 3) / 2^32` of the unit direction of the ray,
/// in every component: within `227 / 2^32` under 60 degrees.
pub proof fn lemma_matched_index_passes(
    material: Dielectric,
    ray: Ray,
    hit: HitResult,
    draw: Fixed,
    p: int,
)
    requires
        material.ir == Fixed::one(),
        ray.direction.norm() > 0,
        is_nearly_unit(hit.normal),
        2 <= p <= 4096,
        p * Vector3::dot(&ray.direction.unit().neg(), &hit.normal).raw >= SCALE,
        !material.mirrors(&ray, &hit, draw),
    ensures
        within(
            material.scatter_by(&ray, &hit, draw).1.direction,
            ray.direction.unit(),
            112 * p + 3,
        ),
{
    lemma_matched_index_mirrors(material, ray, hit, draw);
    lemma_unit_length(ray.direction);
    lemma_refract_matched(ray.direction.unit(), hit.normal, p);
}

/// The same at every angle: for a ray of any length but zero and a unit
/// normal that the ray does not point along, the direction of a ray that is
/// not mirrored lies within `693584 / 2^32` of the unit direction of the
/// ray, less than two ten-thousandths, in every component.
pub proof fn lemma_matched_index_passes_anywhere(
    material: Dielectric,
    ray: Ray,
    hit: HitResult,
    draw: Fixed,
)
    requires
        material.ir == Fixed::one(),
        ray.direction.norm() > 0,
        is_nearly_unit(hit.normal),
        Vector3::dot(&ray.direction.unit().neg(), &hit.normal).raw >= 0,
        !material.mirrors(&ray, &hit, draw),
    ensures
        within(material.scatter_by(&ray, &hit, draw).1.direction, ray.direction.unit(), 693584),
{
    lemma_matched_index_mirrors(material, ray, hit, draw);
    lemma_unit_length(ray.direction);
    lemma_refract_matched_anywhere(ray.direction.unit(), hit.normal);
}

} // verus!
