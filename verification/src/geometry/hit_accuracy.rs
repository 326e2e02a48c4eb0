//! How close to the surface of a sphere the point of a hit lies.
use super::accuracy::{
    is_nearly_unit, lemma_bounded_product, lemma_floor_bounds, lemma_hit_normal_length, lemma_lost,
    lemma_product_exact, lemma_square_raw, lost, magnitude,
};
use super::hittable::Hittable;
use super::ray::Ray;
use super::sphere::Sphere;
use super::vector3::Vector3;
use crate::fixed::{lemma_div_neg, lemma_mul_neg, lemma_root_exists, quotient, root, Fixed, SCALE};
use vstd::prelude::*;

verus! {

/// The square of a sum of three terms, the third taken away.
pub proof fn lemma_square_of_three(a: int, b: int, c: int)
    by (nonlinear_arith)
    ensures
        (a + b - c) * (a + b - c) == a * a + b * b + c * c + 2 * (a * b) - 2 * (a * c) - 2 * (b
            * c),
{
}

/// One component of the vector from the centre of a sphere to a point of a
/// ray, squared, in integers.
///
/// `w` is the component of the vector from the centre to the origin of the
/// ray, `d` that of the direction and `k` that of the step along the ray,
/// `d * t / s` less the `e / s` that rounding took away.
pub proof fn lemma_step_component(s: int, w: int, d: int, t: int, e: int, k: int)
    requires
        s * k == d * t - e,
    ensures
        (s * s) * ((w + k) * (w + k)) == (s * s) * (w * w) + (t * t) * (d * d) + e * e + 2 * ((s
            * t) * (w * d)) - 2 * (s * (w * e)) - 2 * (t * (d * e)),
{
    let a = s * w;
    let b = d * t;
    assert(s * (w + k) == a + b - e) by (nonlinear_arith)
        requires
            s * k == b - e,
            a == s * w,
    ;
    assert((s * s) * ((w + k) * (w + k)) == (s * (w + k)) * (s * (w + k))) by (nonlinear_arith);
    lemma_square_of_three(a, b, e);
    assert(a * a == (s * s) * (w * w)) by (nonlinear_arith)
        requires
            a == s * w,
    ;
    assert(b * b == (t * t) * (d * d)) by (nonlinear_arith)
        requires
            b == d * t,
    ;
    assert(a * b == (s * t) * (w * d)) by (nonlinear_arith)
        requires
            a == s * w,
            b == d * t,
    ;
    assert(a * e == s * (w * e)) by (nonlinear_arith)
        requires
            a == s * w,
    ;
    assert(b * e == t * (d * e)) by (nonlinear_arith)
        requires
            b == d * t,
    ;
}

/// The squared distance from the centre of a sphere to the point of a ray
/// at the parameter that solves the equation of the hit, against the
/// squared radius, in integers: the two differ by what the roundings took
/// away, and by nothing else.
///
/// `sum_w`, `sum_d` and `sum_wd` are the exact squared lengths of the vector
/// from the centre to the origin of the ray and of the direction, and their
/// exact dot product; `w`, `a` and `b` are the same, rounded, and `e_w`,
/// `e_a`, `e_b` what the rounding took away. `rr` is the exact square of the
/// radius, `r` the rounded one. `h` is the square of `b`, `m` the product of
/// `a` and `w - r`, and `g` a root of `h - m`, all rounded. `t` is the
/// parameter, `(g - b) / a`, rounded. `sum_v` is the exact squared distance,
/// `mix_w` and `mix_d` are the dot products of the vector to the origin and
/// of the direction with what the rounding of the step took away, and
/// `sum_e` the squared length of that.
pub proof fn lemma_distance_identity(
    s: int,
    sum_w: int,
    sum_d: int,
    sum_wd: int,
    w: int,
    a: int,
    b: int,
    e_w: int,
    e_a: int,
    e_b: int,
    rr: int,
    r: int,
    e_r: int,
    h: int,
    e_h: int,
    m: int,
    e_m: int,
    g: int,
    e_g: int,
    t: int,
    e_t: int,
    sum_v: int,
    mix_w: int,
    mix_d: int,
    sum_e: int,
)
    requires
        s * w == sum_w - e_w,
        s * a == sum_d - e_a,
        s * b == sum_wd - e_b,
        s * r == rr - e_r,
        s * h == b * b - e_h,
        s * m == a * (w - r) - e_m,
        g * g == (h - m) * s - e_g,
        a * t == (g - b) * s - e_t,
        (s * s) * sum_v == (s * s) * sum_w + (t * t) * sum_d + sum_e + 2 * ((s * t) * sum_wd) - 2
            * (s * mix_w) - 2 * (t * mix_d),
    ensures
        (a * (s * s)) * (sum_v - rr) == (a * (s * s)) * (e_w - e_r) + ((s * s) * s) * (e_m - e_h
            - e_g) - (s * s) * (e_t * (b + g)) + a * ((t * t) * e_a + sum_e + 2 * ((s * t) * e_b)
            - 2 * (s * mix_w) - 2 * (t * mix_d) - (s * t) * e_t),
{
    let ss = s * s;
    // The exact sums, by the rounded ones.
    assert(ss * sum_w == (ss * s) * w + ss * e_w) by (nonlinear_arith)
        requires
            s * w == sum_w - e_w,
            ss == s * s,
    ;
    assert((t * t) * sum_d == (t * t) * (s * a) + (t * t) * e_a) by (nonlinear_arith)
        requires
            s * a == sum_d - e_a,
    ;
    assert((s * t) * sum_wd == (s * t) * (s * b) + (s * t) * e_b) by (nonlinear_arith)
        requires
            s * b == sum_wd - e_b,
    ;
    // t^2 s a = s t (a t) = s t ((g - b) s - e_t).
    assert((t * t) * (s * a) == ss * (t * (g - b)) - (s * t) * e_t) by (nonlinear_arith)
        requires
            a * t == (g - b) * s - e_t,
            ss == s * s,
    {
        assert((t * t) * (s * a) == (s * t) * (a * t));
        assert((s * t) * ((g - b) * s - e_t) == (s * t) * ((g - b) * s) - (s * t) * e_t);
        assert((s * t) * ((g - b) * s) == (s * s) * (t * (g - b)));
    }
    assert((s * t) * (s * b) == ss * (t * b)) by (nonlinear_arith)
        requires
            ss == s * s,
    ;
    let rest = (t * t) * e_a + sum_e + 2 * ((s * t) * e_b) - 2 * (s * mix_w) - 2 * (t * mix_d) - (s
        * t) * e_t;
    assert(ss * sum_v == (ss * s) * w + ss * e_w + ss * (t * (g - b)) + 2 * (ss * (t * b)) + rest);
    assert(ss * (t * (g - b)) + 2 * (ss * (t * b)) == ss * (t * (g + b))) by (nonlinear_arith);
    assert(ss * sum_v == (ss * s) * w + ss * e_w + ss * (t * (b + g)) + rest) by {
        assert(t * (g + b) == t * (b + g)) by (nonlinear_arith);
    }
    // a t (b + g) = ((g - b) s - e_t) (b + g) = s (g^2 - b^2) - e_t (b + g).
    assert(a * (t * (b + g)) == s * (g * g - b * b) - e_t * (b + g)) by (nonlinear_arith)
        requires
            a * t == (g - b) * s - e_t,
    {
        assert(a * (t * (b + g)) == (a * t) * (b + g));
        assert(((g - b) * s - e_t) * (b + g) == ((g - b) * s) * (b + g) - e_t * (b + g));
        assert(((g - b) * s) * (b + g) == s * ((g - b) * (b + g)));
        assert((g - b) * (b + g) == g * g - b * b);
    }
    // g^2 - b^2 = (h - m) s - e_g - s h - e_h = -s m - e_g - e_h.
    assert(g * g - b * b == -(s * m) - e_g - e_h) by (nonlinear_arith)
        requires
            g * g == (h - m) * s - e_g,
            s * h == b * b - e_h,
    ;
    assert(s * m == a * (w - r) - e_m);
    assert(s * (g * g - b * b) == -(s * (a * (w - r))) + s * (e_m - e_g - e_h))
        by (nonlinear_arith)
        requires
            g * g - b * b == -(s * m) - e_g - e_h,
            s * m == a * (w - r) - e_m,
    ;
    // Everything times a.
    assert(a * (ss * sum_v) == a * ((ss * s) * w) + a * (ss * e_w) + ss * (a * (t * (b + g))) + a
        * rest) by (nonlinear_arith)
        requires
            ss * sum_v == (ss * s) * w + ss * e_w + ss * (t * (b + g)) + rest,
    {
        assert(a * (ss * (t * (b + g))) == ss * (a * (t * (b + g))));
    }
    assert(ss * (a * (t * (b + g))) == -((ss * s) * (a * (w - r))) + (ss * s) * (e_m - e_g - e_h)
        - ss * (e_t * (b + g))) by (nonlinear_arith)
        requires
            a * (t * (b + g)) == s * (g * g - b * b) - e_t * (b + g),
            s * (g * g - b * b) == -(s * (a * (w - r))) + s * (e_m - e_g - e_h),
            ss == s * s,
    {
        assert(ss * (s * (g * g - b * b) - e_t * (b + g)) == ss * (s * (g * g - b * b)) - ss * (e_t
            * (b + g)));
        assert(ss * (s * (g * g - b * b)) == ss * (-(s * (a * (w - r))) + s * (e_m - e_g - e_h)));
        assert(ss * (-(s * (a * (w - r))) + s * (e_m - e_g - e_h)) == -((ss * s) * (a * (w - r)))
            + (ss * s) * (e_m - e_g - e_h));
    }
    assert(a * ((ss * s) * w) - (ss * s) * (a * (w - r)) == (a * ss) * (s * r))
        by (nonlinear_arith);
    assert((a * ss) * (s * r) == (a * ss) * rr - (a * ss) * e_r) by (nonlinear_arith)
        requires
            s * r == rr - e_r,
    ;
    assert(a * (ss * sum_v) == (a * ss) * sum_v && a * (ss * e_w) == (a * ss) * e_w)
        by (nonlinear_arith);
    assert((a * ss) * (sum_v - rr) == (a * ss) * sum_v - (a * ss) * rr) by (nonlinear_arith);
    assert((a * ss) * (e_w - e_r) == (a * ss) * e_w - (a * ss) * e_r) by (nonlinear_arith);
    assert((ss * s) * (e_m - e_h - e_g) == (ss * s) * (e_m - e_g - e_h));
}

/// The bound that follows from the identity above for a scene within reach:
/// the squared distance from the centre to the point of the hit lies within
/// `58669 s` of the squared radius.
pub proof fn lemma_distance_bound(
    s: int,
    a: int,
    b: int,
    g: int,
    t: int,
    e_w: int,
    e_a: int,
    e_b: int,
    e_r: int,
    e_h: int,
    e_m: int,
    e_g: int,
    e_t: int,
    mix_w: int,
    mix_d: int,
    sum_e: int,
    x: int,
)
    requires
        16 <= s <= 4 * a,
        a <= 12 * s,
        -385 * s <= b <= 385 * s,
        -544 * s <= g <= 544 * s,
        -128 * s <= t <= 128 * s,
        0 <= e_w < 3 * s,
        0 <= e_a < 3 * s,
        -3 * s < e_b < 3 * s,
        0 <= e_r < s,
        0 <= e_h < s,
        -s < e_m < s,
        0 <= e_g <= 2 * magnitude(g),
        -a < e_t < a,
        -192 * (s * s) <= mix_w <= 192 * (s * s),
        -6 * (s * s) <= mix_d <= 6 * (s * s),
        0 <= sum_e < 3 * (s * s),
        (a * (s * s)) * x == (a * (s * s)) * (e_w - e_r) + ((s * s) * s) * (e_m - e_h - e_g) - (s
            * s) * (e_t * (b + g)) + a * ((t * t) * e_a + sum_e + 2 * ((s * t) * e_b) - 2 * (s
            * mix_w) - 2 * (t * mix_d) - (s * t) * e_t),
    ensures
        -58669 * s <= x <= 58669 * s,
{
    let ss = s * s;
    let sss = ss * s;
    let unit = a * sss;
    assert(0 < ss && 0 < sss && 0 < unit && sss <= 4 * unit / s && a * ss > 0) by (nonlinear_arith)
        requires
            16 <= s <= 4 * a,
            ss == s * s,
            sss == ss * s,
            unit == a * sss,
    {
        assert(0 < a);
        assert(unit / s >= 0);
    }
    // The first term.
    let first = (a * ss) * (e_w - e_r);
    assert(-3 * unit <= first <= 3 * unit) by (nonlinear_arith)
        requires
            first == (a * ss) * (e_w - e_r),
            -s < e_w - e_r < 3 * s,
            unit == a * (ss * s),
            0 < a * ss,
    {
        assert((a * ss) * (e_w - e_r) <= (a * ss) * (3 * s));
        assert((a * ss) * (e_w - e_r) >= (a * ss) * (-s));
        assert((a * ss) * (3 * s) == 3 * (a * (ss * s)));
        assert((a * ss) * (-s) == -(a * (ss * s)));
    }
    // The second term.
    let second = sss * (e_m - e_h - e_g);
    assert(-4360 * unit <= second <= 4360 * unit) by (nonlinear_arith)
        requires
            second == sss * (e_m - e_h - e_g),
            -1090 * s <= e_m - e_h - e_g <= 1090 * s,
            0 < sss,
            sss == ss * s,
            ss == s * s,
            unit == a * sss,
            0 < s <= 4 * a,
    {
        assert(sss * (e_m - e_h - e_g) <= sss * (1090 * s));
        assert(sss * (e_m - e_h - e_g) >= sss * (-1090 * s));
        assert(sss * s <= sss * (4 * a));
        assert(sss * (1090 * s) == 1090 * (sss * s));
        assert(sss * (-1090 * s) == -1090 * (sss * s));
        assert(sss * (4 * a) == 4 * (a * sss));
    }
    // The third term.
    let third = ss * (e_t * (b + g));
    lemma_bounded_product(b + g, e_t, 929 * s);
    assert(magnitude(e_t) <= a);
    assert(-929 * unit <= third <= 929 * unit) by (nonlinear_arith)
        requires
            third == ss * (e_t * (b + g)),
            -((929 * s) * magnitude(e_t)) <= (b + g) * e_t <= (929 * s) * magnitude(e_t),
            0 <= magnitude(e_t) <= a,
            0 < ss,
            0 < s,
            unit == a * (ss * s),
    {
        assert((929 * s) * magnitude(e_t) <= (929 * s) * a);
        assert(e_t * (b + g) == (b + g) * e_t);
        assert(ss * (e_t * (b + g)) <= ss * ((929 * s) * a));
        assert(ss * (e_t * (b + g)) >= ss * (-((929 * s) * a)));
        assert(ss * ((929 * s) * a) == 929 * (a * (ss * s)));
    }
    // The rest.
    let rest = (t * t) * e_a + sum_e + 2 * ((s * t) * e_b) - 2 * (s * mix_w) - 2 * (t * mix_d) - (s
        * t) * e_t;
    assert(0 <= t * t <= 16384 * ss) by (nonlinear_arith)
        requires
            -128 * s <= t <= 128 * s,
            ss == s * s,
    {
        lemma_bounded_product(t, t, 128 * s);
        assert((128 * s) * magnitude(t) <= (128 * s) * (128 * s));
    }
    assert(0 <= (t * t) * e_a <= 49152 * sss) by (nonlinear_arith)
        requires
            0 <= t * t <= 16384 * ss,
            0 <= e_a < 3 * s,
            sss == ss * s,
            0 < ss,
    {
        assert((t * t) * e_a <= (16384 * ss) * e_a);
        assert((16384 * ss) * e_a <= (16384 * ss) * (3 * s));
    }
    assert(-128 * ss <= s * t <= 128 * ss) by (nonlinear_arith)
        requires
            -128 * s <= t <= 128 * s,
            ss == s * s,
            0 < s,
    ;
    lemma_bounded_product(s * t, e_b, 128 * ss);
    assert(-384 * sss <= (s * t) * e_b <= 384 * sss) by (nonlinear_arith)
        requires
            -((128 * ss) * magnitude(e_b)) <= (s * t) * e_b <= (128 * ss) * magnitude(e_b),
            0 <= magnitude(e_b) <= 3 * s,
            sss == ss * s,
            0 < ss,
    {
        assert((128 * ss) * magnitude(e_b) <= (128 * ss) * (3 * s));
    }
    assert(-192 * sss <= s * mix_w <= 192 * sss) by (nonlinear_arith)
        requires
            -192 * ss <= mix_w <= 192 * ss,
            sss == ss * s,
            0 < s,
    ;
    lemma_bounded_product(t, mix_d, 128 * s);
    assert(-768 * sss <= t * mix_d <= 768 * sss) by (nonlinear_arith)
        requires
            -((128 * s) * magnitude(mix_d)) <= t * mix_d <= (128 * s) * magnitude(mix_d),
            0 <= magnitude(mix_d) <= 6 * ss,
            sss == ss * s,
            0 < s,
    {
        assert((128 * s) * magnitude(mix_d) <= (128 * s) * (6 * ss));
    }
    lemma_bounded_product(s * t, e_t, 128 * ss);
    assert(-1536 * sss <= (s * t) * e_t <= 1536 * sss) by (nonlinear_arith)
        requires
            -((128 * ss) * magnitude(e_t)) <= (s * t) * e_t <= (128 * ss) * magnitude(e_t),
            0 <= magnitude(e_t) <= a,
            a <= 12 * s,
            sss == ss * s,
            0 < ss,
    {
        assert((128 * ss) * magnitude(e_t) <= (128 * ss) * (12 * s));
    }
    assert(3 * ss <= sss) by (nonlinear_arith)
        requires
            sss == ss * s,
            0 < ss,
            16 <= s,
    ;
    assert(-53377 * sss <= rest <= 53377 * sss);
    assert(-53377 * unit <= a * rest <= 53377 * unit) by (nonlinear_arith)
        requires
            -53377 * sss <= rest <= 53377 * sss,
            unit == a * sss,
            0 < a,
    {
        assert(a * rest <= a * (53377 * sss));
        assert(a * rest >= a * (-53377 * sss));
    }
    // All of it.
    assert((a * ss) * x == first + second - third + a * rest);
    assert(-58669 * unit <= (a * ss) * x <= 58669 * unit);
    assert(-58669 * s <= x <= 58669 * s) by (nonlinear_arith)
        requires
            -58669 * unit <= (a * ss) * x <= 58669 * unit,
            unit == a * (ss * s),
            0 < a * ss,
    {
        assert(a * (ss * s) == (a * ss) * s);
        if x >= 58669 * s + 1 {
            assert((a * ss) * x >= (a * ss) * (58669 * s + 1));
            assert((a * ss) * (58669 * s + 1) == 58669 * ((a * ss) * s) + a * ss);
        }
        if x <= -58669 * s - 1 {
            assert((a * ss) * x <= (a * ss) * (-58669 * s - 1));
            assert((a * ss) * (-58669 * s - 1) == -58669 * ((a * ss) * s) - a * ss);
        }
    }
}

/// The product of two numbers within bounds: the exact product over the raw
/// value of one, less what rounding toward zero took away, and no larger
/// than the bounds allow.
pub proof fn lemma_bounded_mul(x: Fixed, y: Fixed, bound_x: int, bound_y: int, bound: int)
    requires
        -bound_x <= x.raw <= bound_x,
        -bound_y <= y.raw <= bound_y,
        bound_x * bound_y <= bound * SCALE,
        0 <= bound <= 0x1000_0000_0000_0000,
    ensures
        SCALE * x.mul(y).raw == x.raw * y.raw - lost(x.raw * y.raw, SCALE as int),
        -SCALE < lost(x.raw * y.raw, SCALE as int) < SCALE,
        x.raw * y.raw >= 0 ==> lost(x.raw * y.raw, SCALE as int) >= 0,
        -bound <= x.mul(y).raw <= bound,
{
    let p = x.raw * y.raw;
    lemma_bounded_product(x.raw as int, y.raw as int, bound_x);
    assert(bound_x * magnitude(y.raw as int) <= bound_x * bound_y) by (nonlinear_arith)
        requires
            0 <= magnitude(y.raw as int) <= bound_y,
            0 <= bound_x,
    ;
    assert(-0x1000_0000_0000_0000_0000_0000 <= p <= 0x1000_0000_0000_0000_0000_0000)
        by (nonlinear_arith)
        requires
            -(bound * SCALE) <= p <= bound * SCALE,
            0 <= bound <= 0x1000_0000_0000_0000,
            SCALE == 0x1_0000_0000,
    ;
    lemma_product_exact(x, y);
    lemma_lost(p, SCALE as int);
    let q = x.mul(y).raw as int;
    assert(-bound <= q <= bound) by (nonlinear_arith)
        requires
            SCALE * q == p - lost(p, SCALE as int),
            -SCALE < lost(p, SCALE as int) < SCALE,
            p >= 0 ==> lost(p, SCALE as int) >= 0,
            p <= 0 ==> lost(p, SCALE as int) <= 0,
            -(bound * SCALE) <= p <= bound * SCALE,
            SCALE == 0x1_0000_0000,
    {
        if q >= bound + 1 {
            assert(SCALE * q >= SCALE * (bound + 1));
        }
        if q <= -bound - 1 {
            assert(SCALE * q <= SCALE * (-bound - 1));
        }
    }
}

/// The largest raw value of a coordinate or a radius for which
/// `lemma_hit_on_sphere` speaks: `2^37`, the number 32.
pub const NEAR_MAX: i64 = 137438953472;

/// The largest raw value of a parameter for which `lemma_hit_on_sphere`
/// speaks: `2^39`, the number 128.
pub const PARAMETER_MAX: i64 = 549755813888;

/// Whether no component of `v` lies beyond `limit` raw units in either
/// direction.
pub open spec fn is_bounded(v: Vector3, limit: int) -> bool {
    &&& -limit <= v.x.raw <= limit
    &&& -limit <= v.y.raw <= limit
    &&& -limit <= v.z.raw <= limit
}

/// Whether the sphere and the ray lie within reach of
/// `lemma_hit_on_sphere`: no coordinate of the centre or of the origin of
/// the ray beyond 32, the radius not above 32, no component of the direction
/// beyond 2, and the direction at least 1/2 long.
pub open spec fn is_within_reach(sphere: Sphere, ray: Ray) -> bool {
    &&& is_bounded(sphere.origin, NEAR_MAX as int)
    &&& is_bounded(ray.origin, NEAR_MAX as int)
    &&& -NEAR_MAX <= sphere.radius.raw <= NEAR_MAX
    &&& is_bounded(ray.direction, 2 * SCALE)
    &&& 4 * ray.direction.len_sq().raw >= SCALE
}

/// The point of a hit lies on the sphere: for a sphere and a ray within
/// reach and a hit at a parameter of at most 128 in either direction, the
/// squared distance of the point from the centre lies within
/// `58672 / 2^32` of the squared radius.
pub proof fn lemma_hit_on_sphere(sphere: Sphere, ray: Ray, min_t: Fixed, max_t: Fixed)
    requires
        is_within_reach(sphere, ray),
        sphere.spec_hit(&ray, min_t, max_t) matches Some(hit) && -PARAMETER_MAX <= hit.t.raw
            <= PARAMETER_MAX,
    ensures
        sphere.spec_hit(&ray, min_t, max_t) matches Some(hit) && -58672 <= hit.point.sub(
            sphere.origin,
        ).len_sq().raw - sphere.radius.mul(sphere.radius).raw <= 58672,
{
    let s = SCALE as int;
    let hit = sphere.spec_hit(&ray, min_t, max_t)->0;
    let o = ray.origin;
    let c = sphere.origin;
    let d = ray.direction;
    let t = hit.t;

    // The vector from the centre to the origin of the ray.
    let back = o.sub(c);
    assert(back.x.raw == o.x.raw - c.x.raw && back.y.raw == o.y.raw - c.y.raw && back.z.raw
        == o.z.raw - c.z.raw);
    let w1 = back.x.raw as int;
    let w2 = back.y.raw as int;
    let w3 = back.z.raw as int;
    let d1 = d.x.raw as int;
    let d2 = d.y.raw as int;
    let d3 = d.z.raw as int;

    // The coefficients of the equation.
    lemma_bounded_mul(d.x, back.x, 2 * s, 64 * s, 128 * s);
    lemma_bounded_mul(d.y, back.y, 2 * s, 64 * s, 128 * s);
    lemma_bounded_mul(d.z, back.z, 2 * s, 64 * s, 128 * s);
    let half_b = Vector3::dot(&d, &back);
    let b = half_b.raw as int;
    let sum_wd = w1 * d1 + w2 * d2 + w3 * d3;
    let e_b = lost(d1 * w1, s) + lost(d2 * w2, s) + lost(d3 * w3, s);
    assert(b == d.x.mul(back.x).raw + d.y.mul(back.y).raw + d.z.mul(back.z).raw);
    assert(w1 * d1 == d1 * w1 && w2 * d2 == d2 * w2 && w3 * d3 == d3 * w3) by (nonlinear_arith);
    assert(s * b == sum_wd - e_b);

    lemma_bounded_mul(d.x, d.x, 2 * s, 2 * s, 4 * s);
    lemma_bounded_mul(d.y, d.y, 2 * s, 2 * s, 4 * s);
    lemma_bounded_mul(d.z, d.z, 2 * s, 2 * s, 4 * s);
    assert(d1 * d1 >= 0 && d2 * d2 >= 0 && d3 * d3 >= 0) by (nonlinear_arith);
    let a = d.len_sq().raw as int;
    let sum_d = d1 * d1 + d2 * d2 + d3 * d3;
    let e_a = lost(d1 * d1, s) + lost(d2 * d2, s) + lost(d3 * d3, s);
    assert(a == d.x.mul(d.x).raw + d.y.mul(d.y).raw + d.z.mul(d.z).raw);
    assert(s * a == sum_d - e_a);

    lemma_bounded_mul(back.x, back.x, 64 * s, 64 * s, 4096 * s);
    lemma_bounded_mul(back.y, back.y, 64 * s, 64 * s, 4096 * s);
    lemma_bounded_mul(back.z, back.z, 64 * s, 64 * s, 4096 * s);
    assert(w1 * w1 >= 0 && w2 * w2 >= 0 && w3 * w3 >= 0) by (nonlinear_arith);
    let w = back.len_sq().raw as int;
    let sum_w = w1 * w1 + w2 * w2 + w3 * w3;
    let e_w = lost(w1 * w1, s) + lost(w2 * w2, s) + lost(w3 * w3, s);
    assert(w == back.x.mul(back.x).raw + back.y.mul(back.y).raw + back.z.mul(back.z).raw);
    assert(s * w == sum_w - e_w);

    lemma_bounded_mul(sphere.radius, sphere.radius, 32 * s, 32 * s, 1024 * s);
    let rr = sphere.radius.raw * sphere.radius.raw;
    assert(rr >= 0) by (nonlinear_arith)
        requires
            rr == sphere.radius.raw * sphere.radius.raw,
    ;
    let r = sphere.radius.mul(sphere.radius).raw as int;
    let e_r = lost(rr, s);
    assert(s * r == rr - e_r);

    // The discriminant.
    let gap = back.len_sq().sub(sphere.radius.mul(sphere.radius));
    assert(gap.raw == w - r);
    lemma_bounded_mul(half_b, half_b, 384 * s, 384 * s, 147456 * s);
    assert(b * b >= 0) by (nonlinear_arith);
    let h = half_b.mul(half_b).raw as int;
    let e_h = lost(b * b, s);
    lemma_bounded_mul(d.len_sq(), gap, 12 * s, 12288 * s, 147456 * s);
    let m = d.len_sq().mul(gap).raw as int;
    let e_m = lost(a * (w - r), s);
    assert(s * m == a * (w - r) - e_m);
    let discriminant = sphere.discriminant(&ray);
    assert(discriminant.raw == h - m);
    assert(discriminant.raw >= 0);
    let delta = h - m;
    assert(0 <= delta * s) by (nonlinear_arith)
        requires
            0 <= delta,
            0 < s,
    ;
    lemma_root_exists(delta * s);
    let spread = root(delta * s);
    assert(spread <= 544 * s) by (nonlinear_arith)
        requires
            0 <= spread,
            spread * spread <= delta * s,
            delta <= 294912 * s,
            s == 0x1_0000_0000,
    {
        if spread >= 544 * s + 1 {
            assert(spread * spread >= (544 * s + 1) * (544 * s + 1));
            assert(delta * s <= (294912 * s) * s);
        }
    }
    assert(discriminant.sqrt().raw == spread) by {
        reveal(Fixed::spec_sqrt);
    }
    let excess = delta * s - spread * spread;
    assert(0 <= excess <= 2 * spread) by (nonlinear_arith)
        requires
            excess == delta * s - spread * spread,
            spread * spread <= delta * s < (spread + 1) * (spread + 1),
    ;

    // The root that was taken: `g` is the root of the discriminant with
    // the sign that it has in the numerator.
    let near = half_b.neg().sub(discriminant.sqrt());
    let far = half_b.neg().add(discriminant.sqrt());
    assert(near.raw == -b - spread && far.raw == -b + spread);
    assert(t == near.div(d.len_sq()) || t == far.div(d.len_sq()));
    let g = if t == near.div(d.len_sq()) {
        -spread
    } else {
        spread
    };
    let numerator = (g - b) * s;
    assert(g * g == (h - m) * s - excess && excess <= 2 * magnitude(g)) by (nonlinear_arith)
        requires
            g == spread || g == -spread,
            excess == (h - m) * s - spread * spread,
            0 <= excess <= 2 * spread,
            0 <= spread,
    ;
    lemma_lost(numerator, a);
    let e_t = lost(numerator, a);
    assert(a * t.raw == numerator - e_t) by {
        reveal(Fixed::spec_div);
        assert(-928 * s <= g - b <= 928 * s);
        let q = quotient(numerator, a);
        assert(-3713 * s <= q <= 3713 * s) by (nonlinear_arith)
            requires
                numerator == (g - b) * s,
                -928 * s <= g - b <= 928 * s,
                -a < numerator - a * q < a,
                0 < s <= 4 * a,
        {
            assert(numerator <= (928 * s) * s);
            assert(numerator >= -((928 * s) * s));
            assert((928 * s) * s <= (928 * s) * (4 * a));
            if q >= 3713 * s + 1 {
                assert(a * q >= a * (3713 * s + 1));
            }
            if q <= -3713 * s - 1 {
                assert(a * q <= a * (-3713 * s - 1));
            }
        }
    }

    // The point of the hit.
    lemma_bounded_mul(d.x, t, 2 * s, 128 * s, 256 * s);
    lemma_bounded_mul(d.y, t, 2 * s, 128 * s, 256 * s);
    lemma_bounded_mul(d.z, t, 2 * s, 128 * s, 256 * s);
    let step = d.scale(t);
    let k1 = step.x.raw as int;
    let k2 = step.y.raw as int;
    let k3 = step.z.raw as int;
    let e1 = lost(d1 * t.raw, s);
    let e2 = lost(d2 * t.raw, s);
    let e3 = lost(d3 * t.raw, s);
    assert(hit.point == o.add(step));
    let v = hit.point.sub(c);
    assert(v.x.raw == w1 + k1 && v.y.raw == w2 + k2 && v.z.raw == w3 + k3);
    lemma_step_component(s, w1, d1, t.raw as int, e1, k1);
    lemma_step_component(s, w2, d2, t.raw as int, e2, k2);
    lemma_step_component(s, w3, d3, t.raw as int, e3, k3);
    let tt = t.raw as int;
    let sum_v = (w1 + k1) * (w1 + k1) + (w2 + k2) * (w2 + k2) + (w3 + k3) * (w3 + k3);
    let sum_e = e1 * e1 + e2 * e2 + e3 * e3;
    let mix_w = w1 * e1 + w2 * e2 + w3 * e3;
    let mix_d = d1 * e1 + d2 * e2 + d3 * e3;
    let ss = s * s;
    let p1 = (w1 + k1) * (w1 + k1);
    let p2 = (w2 + k2) * (w2 + k2);
    let p3 = (w3 + k3) * (w3 + k3);
    assert(ss * sum_v == ss * p1 + ss * p2 + ss * p3) by (nonlinear_arith)
        requires
            sum_v == p1 + p2 + p3,
    ;
    assert(ss * sum_w == ss * (w1 * w1) + ss * (w2 * w2) + ss * (w3 * w3)) by (nonlinear_arith)
        requires
            sum_w == w1 * w1 + w2 * w2 + w3 * w3,
    ;
    assert((tt * tt) * sum_d == (tt * tt) * (d1 * d1) + (tt * tt) * (d2 * d2) + (tt * tt) * (d3
        * d3)) by (nonlinear_arith)
        requires
            sum_d == d1 * d1 + d2 * d2 + d3 * d3,
    ;
    assert((s * tt) * sum_wd == (s * tt) * (w1 * d1) + (s * tt) * (w2 * d2) + (s * tt) * (w3 * d3))
        by (nonlinear_arith)
        requires
            sum_wd == w1 * d1 + w2 * d2 + w3 * d3,
    ;
    assert(s * mix_w == s * (w1 * e1) + s * (w2 * e2) + s * (w3 * e3)) by (nonlinear_arith)
        requires
            mix_w == w1 * e1 + w2 * e2 + w3 * e3,
    ;
    assert(tt * mix_d == tt * (d1 * e1) + tt * (d2 * e2) + tt * (d3 * e3)) by (nonlinear_arith)
        requires
            mix_d == d1 * e1 + d2 * e2 + d3 * e3,
    ;
    assert(ss * sum_v == ss * sum_w + (tt * tt) * sum_d + sum_e + 2 * ((s * tt) * sum_wd) - 2 * (s
        * mix_w) - 2 * (tt * mix_d));
    lemma_distance_identity(
        s,
        sum_w,
        sum_d,
        sum_wd,
        w,
        a,
        b,
        e_w,
        e_a,
        e_b,
        rr,
        r,
        e_r,
        h,
        e_h,
        m,
        e_m,
        g,
        excess,
        tt,
        e_t,
        sum_v,
        mix_w,
        mix_d,
        sum_e,
    );

    // What the rounding of the step took away.
    lemma_bounded_product(e1, w1, s);
    lemma_bounded_product(e2, w2, s);
    lemma_bounded_product(e3, w3, s);
    lemma_bounded_product(e1, d1, s);
    lemma_bounded_product(e2, d2, s);
    lemma_bounded_product(e3, d3, s);
    assert(-192 * (s * s) <= mix_w <= 192 * (s * s) && -6 * (s * s) <= mix_d <= 6 * (s * s))
        by (nonlinear_arith)
        requires
            mix_w == w1 * e1 + w2 * e2 + w3 * e3,
            mix_d == d1 * e1 + d2 * e2 + d3 * e3,
            -(s * magnitude(w1)) <= e1 * w1 <= s * magnitude(w1),
            -(s * magnitude(w2)) <= e2 * w2 <= s * magnitude(w2),
            -(s * magnitude(w3)) <= e3 * w3 <= s * magnitude(w3),
            -(s * magnitude(d1)) <= e1 * d1 <= s * magnitude(d1),
            -(s * magnitude(d2)) <= e2 * d2 <= s * magnitude(d2),
            -(s * magnitude(d3)) <= e3 * d3 <= s * magnitude(d3),
            magnitude(w1) <= 64 * s,
            magnitude(w2) <= 64 * s,
            magnitude(w3) <= 64 * s,
            magnitude(d1) <= 2 * s,
            magnitude(d2) <= 2 * s,
            magnitude(d3) <= 2 * s,
            0 < s,
    {
        assert(s * magnitude(w1) <= s * (64 * s));
        assert(s * magnitude(w2) <= s * (64 * s));
        assert(s * magnitude(w3) <= s * (64 * s));
        assert(s * magnitude(d1) <= s * (2 * s));
        assert(s * magnitude(d2) <= s * (2 * s));
        assert(s * magnitude(d3) <= s * (2 * s));
        assert(w1 * e1 == e1 * w1 && w2 * e2 == e2 * w2 && w3 * e3 == e3 * w3);
        assert(d1 * e1 == e1 * d1 && d2 * e2 == e2 * d2 && d3 * e3 == e3 * d3);
    }
    assert(0 <= sum_e < 3 * (s * s)) by (nonlinear_arith)
        requires
            sum_e == e1 * e1 + e2 * e2 + e3 * e3,
            -s < e1 < s,
            -s < e2 < s,
            -s < e3 < s,
    {
        assert(e1 * e1 < s * s);
        assert(e2 * e2 < s * s);
        assert(e3 * e3 < s * s);
    }
    lemma_distance_bound(
        s,
        a,
        b,
        g,
        tt,
        e_w,
        e_a,
        e_b,
        e_r,
        e_h,
        e_m,
        excess,
        e_t,
        mix_w,
        mix_d,
        sum_e,
        sum_v - rr,
    );

    // The rounded squared distance.
    lemma_bounded_mul(v.x, v.x, 320 * s, 320 * s, 102400 * s);
    lemma_bounded_mul(v.y, v.y, 320 * s, 320 * s, 102400 * s);
    lemma_bounded_mul(v.z, v.z, 320 * s, 320 * s, 102400 * s);
    assert(v.x.raw * v.x.raw >= 0 && v.y.raw * v.y.raw >= 0 && v.z.raw * v.z.raw >= 0)
        by (nonlinear_arith);
    let distance_sq = v.len_sq().raw as int;
    assert(distance_sq == v.x.mul(v.x).raw + v.y.mul(v.y).raw + v.z.mul(v.z).raw);
    let e_v = lost(v.x.raw * v.x.raw, s) + lost(v.y.raw * v.y.raw, s) + lost(v.z.raw * v.z.raw, s);
    assert(s * distance_sq == sum_v - e_v);
    assert(s * (distance_sq - r) == (sum_v - rr) - e_v + e_r);
}

/// The vector from the centre of a sphere to a point near its surface, over
/// the radius, is at least 1/2 long, in integers.
///
/// `v1`, `v2`, `v3` are the components of the vector and `sum_v` its exact
/// squared length, `r` is the radius and `u1`, `u2`, `u3` are the components
/// over the radius, `q` their squared length, every square rounded down, and
/// `len` its root.
pub proof fn lemma_radial_of_integers(
    s: int,
    r: int,
    v1: int,
    v2: int,
    v3: int,
    sum_v: int,
    u1: int,
    u2: int,
    u3: int,
    e1: int,
    e2: int,
    e3: int,
    q: int,
    len: int,
)
    requires
        s == 0x1_0000_0000,
        s <= 4 * r <= 128 * s,
        -320 * s <= v1 <= 320 * s,
        -320 * s <= v2 <= 320 * s,
        -320 * s <= v3 <= 320 * s,
        sum_v == v1 * v1 + v2 * v2 + v3 * v3,
        sum_v >= r * r - 58673 * s,
        r * u1 == v1 * s - e1,
        r * u2 == v2 * s - e2,
        r * u3 == v3 * s - e3,
        -r < e1 < r,
        -r < e2 < r,
        -r < e3 < r,
        q * s <= u1 * u1 + u2 * u2 + u3 * u3 < q * s + 3 * s,
        0 <= len,
        len * len <= q * s < (len + 1) * (len + 1),
    ensures
        2 * len >= s,
        -1281 * s <= u1 <= 1281 * s,
        -1281 * s <= u2 <= 1281 * s,
        -1281 * s <= u3 <= 1281 * s,
{
    lemma_radial_component(s, r, v1, u1, e1);
    lemma_radial_component(s, r, v2, u2, e2);
    lemma_radial_component(s, r, v3, u3, e3);
    let rr = r * r;
    let ss = s * s;
    let sum_u = u1 * u1 + u2 * u2 + u3 * u3;
    assert(rr * sum_u == rr * (u1 * u1) + rr * (u2 * u2) + rr * (u3 * u3)) by (nonlinear_arith)
        requires
            sum_u == u1 * u1 + u2 * u2 + u3 * u3,
    ;
    assert(ss * sum_v == ss * (v1 * v1) + ss * (v2 * v2) + ss * (v3 * v3)) by (nonlinear_arith)
        requires
            sum_v == v1 * v1 + v2 * v2 + v3 * v3,
    ;
    assert(rr * sum_u >= ss * sum_v - 1920 * (ss * r));
    assert(2 * (rr * sum_u) >= ss * rr) by (nonlinear_arith)
        requires
            rr * sum_u >= ss * sum_v - 1920 * (ss * r),
            sum_v >= rr - 58673 * s,
            rr == r * r,
            ss == s * s,
            s == 0x1_0000_0000,
            s <= 4 * r,
    {
        assert(ss * sum_v >= ss * (rr - 58673 * s));
        assert(4 * rr >= s * r);
        assert(s * r >= 4 * (58673 * s) + 4 * (1920 * r));
        assert(ss * (4 * rr) >= ss * (4 * (58673 * s) + 4 * (1920 * r)) + ss * (2 * rr));
    }
    assert(2 * sum_u >= ss) by (nonlinear_arith)
        requires
            2 * (rr * sum_u) >= ss * rr,
            rr == r * r,
            0 < r,
    {
        if 2 * sum_u < ss {
            assert(rr * (2 * sum_u) <= rr * (ss - 1));
        }
    }
    assert(2 * len >= s) by (nonlinear_arith)
        requires
            2 * sum_u >= ss,
            sum_u < q * s + 3 * s,
            q * s < (len + 1) * (len + 1),
            0 <= len,
            ss == s * s,
            s == 0x1_0000_0000,
    {
        if 2 * len < s {
            assert(2 * (len + 1) <= s + 1);
            assert((2 * (len + 1)) * (2 * (len + 1)) <= (s + 1) * (s + 1));
            assert(4 * ((len + 1) * (len + 1)) == (2 * (len + 1)) * (2 * (len + 1)));
        }
    }
}

/// One component of that vector.
proof fn lemma_radial_component(s: int, r: int, v: int, u: int, e: int)
    requires
        s == 0x1_0000_0000,
        s <= 4 * r <= 128 * s,
        -320 * s <= v <= 320 * s,
        r * u == v * s - e,
        -r < e < r,
    ensures
        -1281 * s <= u <= 1281 * s,
        (r * r) * (u * u) >= (s * s) * (v * v) - 640 * ((s * s) * r),
{
    assert(-1281 * s <= u <= 1281 * s) by (nonlinear_arith)
        requires
            s <= 4 * r,
            0 < s,
            -320 * s <= v <= 320 * s,
            r * u == v * s - e,
            -r < e < r,
    {
        assert(v * s <= (320 * s) * s);
        assert(v * s >= -((320 * s) * s));
        assert((320 * s) * s <= (320 * s) * (4 * r));
        if u >= 1281 * s + 1 {
            assert(r * u >= r * (1281 * s + 1));
        }
        if u <= -1281 * s - 1 {
            assert(r * u <= r * (-1281 * s - 1));
        }
    }
    let x = v * s;
    assert((r * u) * (r * u) == x * x - 2 * (x * e) + e * e) by (nonlinear_arith)
        requires
            r * u == x - e,
    ;
    assert((r * u) * (r * u) == (r * r) * (u * u)) by (nonlinear_arith);
    assert(x * x == (s * s) * (v * v)) by (nonlinear_arith)
        requires
            x == v * s,
    ;
    lemma_bounded_product(e, x, r);
    assert(r * magnitude(x) <= 320 * ((s * s) * r)) by (nonlinear_arith)
        requires
            x == v * s,
            -320 * s <= v <= 320 * s,
            0 < s,
            0 < r,
    {
        assert(magnitude(x) <= (320 * s) * s);
        assert(r * magnitude(x) <= r * ((320 * s) * s));
    }
    assert(x * e == e * x) by (nonlinear_arith);
    assert(0 <= e * e) by (nonlinear_arith);
}

/// A vector over a radius and over the radius turned negative are opposite
/// and equally long.
pub proof fn lemma_inverted_radial(v: Vector3, radius: Fixed)
    requires
        radius.in_range(),
    ensures
        v.div(radius.neg()).norm() == v.div(radius).norm(),
{
    let a = v.div(radius);
    let b = v.div(radius.neg());
    if radius.raw != 0 {
        lemma_div_neg(v.x, radius);
        lemma_div_neg(v.y, radius);
        lemma_div_neg(v.z, radius);
    }
    assert((-a.x.raw) * (-a.x.raw) == a.x.raw * a.x.raw && (-a.y.raw) * (-a.y.raw) == a.y.raw
        * a.y.raw && (-a.z.raw) * (-a.z.raw) == a.z.raw * a.z.raw) by (nonlinear_arith);
}

/// A sphere turned inside out, its radius negative, is hit where the sphere
/// is hit.
pub proof fn lemma_inverted_sphere(sphere: Sphere, ray: Ray, min_t: Fixed, max_t: Fixed)
    requires
        sphere.radius.in_range(),
    ensures
        (Sphere { origin: sphere.origin, radius: sphere.radius.neg() }).root(&ray, min_t, max_t)
            == sphere.root(&ray, min_t, max_t),
{
    let radius = sphere.radius;
    lemma_mul_neg(radius.neg(), radius);
    lemma_mul_neg(radius, radius);
    assert(radius.neg().mul(radius.neg()) == radius.mul(radius));
}

/// The point of a hit is not the centre of the sphere, so that the normal
/// of the hit is a unit vector: for a sphere and a ray within reach, a
/// radius of at least 1/4, or at most -1/4 for a sphere turned inside out,
/// and a hit at a parameter of at most 128 in either direction, the length
/// of the normal lies between `1 - 4 / 2^32` and 1.
pub proof fn lemma_hit_normal_is_unit(sphere: Sphere, ray: Ray, min_t: Fixed, max_t: Fixed)
    requires
        is_within_reach(sphere, ray),
        SCALE <= 4 * sphere.radius.raw || 4 * sphere.radius.raw <= -SCALE,
        sphere.spec_hit(&ray, min_t, max_t) matches Some(hit) && -PARAMETER_MAX <= hit.t.raw
            <= PARAMETER_MAX,
    ensures
        sphere.spec_hit(&ray, min_t, max_t) matches Some(hit) && SCALE - 4 <= hit.normal.len().raw
            <= SCALE && is_nearly_unit(hit.normal) && hit.point.sub(sphere.origin).div(
            sphere.radius,
        ).norm() > 0,
{
    if sphere.radius.raw > 0 {
        lemma_upright_hit_normal(sphere, ray, min_t, max_t);
    } else {
        let upright = Sphere { origin: sphere.origin, radius: sphere.radius.neg() };
        assert(upright.radius.neg() == sphere.radius);
        lemma_inverted_sphere(upright, ray, min_t, max_t);
        lemma_upright_hit_normal(upright, ray, min_t, max_t);
        let hit = sphere.spec_hit(&ray, min_t, max_t)->0;
        lemma_inverted_radial(hit.point.sub(sphere.origin), upright.radius);
        lemma_hit_normal_length(sphere, ray, min_t, max_t);
    }
}

/// The same of a sphere with a positive radius.
proof fn lemma_upright_hit_normal(sphere: Sphere, ray: Ray, min_t: Fixed, max_t: Fixed)
    requires
        is_within_reach(sphere, ray),
        SCALE <= 4 * sphere.radius.raw,
        sphere.spec_hit(&ray, min_t, max_t) matches Some(hit) && -PARAMETER_MAX <= hit.t.raw
            <= PARAMETER_MAX,
    ensures
        sphere.spec_hit(&ray, min_t, max_t) matches Some(hit) && SCALE - 4 <= hit.normal.len().raw
            <= SCALE && is_nearly_unit(hit.normal) && hit.point.sub(sphere.origin).div(
            sphere.radius,
        ).norm() > 0,
{
    let s = SCALE as int;
    let hit = sphere.spec_hit(&ray, min_t, max_t)->0;
    let r = sphere.radius.raw as int;
    lemma_hit_on_sphere(sphere, ray, min_t, max_t);
    // The vector from the centre to the point of the hit.
    let step = ray.direction.scale(hit.t);
    lemma_bounded_mul(ray.direction.x, hit.t, 2 * s, 128 * s, 256 * s);
    lemma_bounded_mul(ray.direction.y, hit.t, 2 * s, 128 * s, 256 * s);
    lemma_bounded_mul(ray.direction.z, hit.t, 2 * s, 128 * s, 256 * s);
    assert(hit.point == ray.origin.add(step));
    let v = hit.point.sub(sphere.origin);
    let v1 = v.x.raw as int;
    let v2 = v.y.raw as int;
    let v3 = v.z.raw as int;
    assert(-320 * s <= v1 <= 320 * s && -320 * s <= v2 <= 320 * s && -320 * s <= v3 <= 320 * s);
    lemma_bounded_mul(v.x, v.x, 320 * s, 320 * s, 102400 * s);
    lemma_bounded_mul(v.y, v.y, 320 * s, 320 * s, 102400 * s);
    lemma_bounded_mul(v.z, v.z, 320 * s, 320 * s, 102400 * s);
    assert(v1 * v1 >= 0 && v2 * v2 >= 0 && v3 * v3 >= 0) by (nonlinear_arith);
    let sum_v = v1 * v1 + v2 * v2 + v3 * v3;
    let distance_sq = v.len_sq().raw as int;
    assert(distance_sq == v.x.mul(v.x).raw + v.y.mul(v.y).raw + v.z.mul(v.z).raw);
    assert(s * distance_sq <= sum_v);
    lemma_bounded_mul(sphere.radius, sphere.radius, 32 * s, 32 * s, 1024 * s);
    let radius_sq = sphere.radius.mul(sphere.radius).raw as int;
    assert(s * radius_sq > r * r - s);
    assert(sum_v >= r * r - 58673 * s);

    // That vector over the radius.
    let radial = v.div(sphere.radius);
    lemma_radial_raw(v.x, sphere.radius);
    lemma_radial_raw(v.y, sphere.radius);
    lemma_radial_raw(v.z, sphere.radius);
    let u1 = radial.x.raw as int;
    let u2 = radial.y.raw as int;
    let u3 = radial.z.raw as int;
    let e1 = lost(v1 * s, r);
    let e2 = lost(v2 * s, r);
    let e3 = lost(v3 * s, r);
    lemma_square_raw(radial.x);
    lemma_square_raw(radial.y);
    lemma_square_raw(radial.z);
    let m1 = magnitude(u1);
    let m2 = magnitude(u2);
    let m3 = magnitude(u3);
    assert(m1 * m1 == u1 * u1 && m2 * m2 == u2 * u2 && m3 * m3 == u3 * u3 && 0 <= m1 * m1 && 0
        <= m2 * m2 && 0 <= m3 * m3) by (nonlinear_arith)
        requires
            m1 == magnitude(u1),
            m2 == magnitude(u2),
            m3 == magnitude(u3),
    ;
    lemma_floor_bounds(m1 * m1, s);
    lemma_floor_bounds(m2 * m2, s);
    lemma_floor_bounds(m3 * m3, s);
    let q = radial.len_sq().raw as int;
    assert(q == (m1 * m1) / s + (m2 * m2) / s + (m3 * m3) / s);
    assert(q * s == ((m1 * m1) / s) * s + ((m2 * m2) / s) * s + ((m3 * m3) / s) * s)
        by (nonlinear_arith)
        requires
            q == (m1 * m1) / s + (m2 * m2) / s + (m3 * m3) / s,
    ;
    assert(0 <= q * s) by (nonlinear_arith)
        requires
            0 <= q,
            0 < s,
    ;
    lemma_root_exists(q * s);
    let len = root(q * s);
    assert(len < 0x8000_0000_0000) by (nonlinear_arith)
        requires
            0 <= len,
            len * len <= q * s,
            q <= 0x3000_0000_0000_0000,
            s == 0x1_0000_0000,
    {
        if len >= 0x8000_0000_0000 {
            assert(len * len >= 0x8000_0000_0000 * 0x8000_0000_0000);
        }
    }
    lemma_radial_of_integers(s, r, v1, v2, v3, sum_v, u1, u2, u3, e1, e2, e3, q, len);
    assert(radial.norm() > 0) by (nonlinear_arith)
        requires
            radial.norm() == u1 * u1 + u2 * u2 + u3 * u3,
            m1 * m1 == u1 * u1 && m2 * m2 == u2 * u2 && m3 * m3 == u3 * u3,
            q * s <= m1 * m1 + m2 * m2 + m3 * m3,
            len * len <= q * s,
            2 * len >= s,
            s == 0x1_0000_0000,
    {
        assert(len * len > 0);
    }
    lemma_hit_normal_length(sphere, ray, min_t, max_t);
}

/// A component of moderate size over a radius of at least 1/4: the radius
/// times the quotient is the component times the raw value of one, less what
/// rounding toward zero took away.
pub proof fn lemma_radial_raw(x: Fixed, radius: Fixed)
    requires
        -320 * SCALE <= x.raw <= 320 * SCALE,
        SCALE <= 4 * radius.raw,
    ensures
        radius.raw * x.div(radius).raw == x.raw * SCALE - lost(x.raw * SCALE, radius.raw as int),
        -radius.raw < lost(x.raw * SCALE, radius.raw as int) < radius.raw,
        -1281 * SCALE <= x.div(radius).raw <= 1281 * SCALE,
{
    reveal(Fixed::spec_div);
    let s = SCALE as int;
    let n = x.raw * SCALE;
    let r = radius.raw as int;
    lemma_lost(n, r);
    let q = quotient(n, r);
    assert(-1281 * s <= q <= 1281 * s) by (nonlinear_arith)
        requires
            n == x.raw * s,
            -320 * s <= x.raw <= 320 * s,
            0 < s <= 4 * r,
            -r < n - r * q < r,
    {
        assert(n <= (320 * s) * s);
        assert(n >= -((320 * s) * s));
        assert((320 * s) * s <= (320 * s) * (4 * r));
        if q >= 1281 * s + 1 {
            assert(r * q >= r * (1281 * s + 1));
        }
        if q <= -1281 * s - 1 {
            assert(r * q <= r * (-1281 * s - 1));
        }
    }
}

} // verus!
