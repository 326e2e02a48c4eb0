//! How far rounding takes the results of the vector operations from the
//! exact values.
use super::hittable::Hittable;
use super::ray::Ray;
use super::sphere::Sphere;
use super::vector3::{lemma_span_positive, lemma_vectors_in_range, Vector3};
use crate::fixed::{
    is_root, lemma_mul_neg, lemma_mul_whole, lemma_quotient_sign, lemma_root_exists, quotient, root,
    Fixed, SCALE,
};
use vstd::prelude::*;

verus! {

/// The largest raw value of a component of a vector of moderate size:
/// `2^46`, the number 16384.
pub const COMPONENT_MAX: i64 = 70368744177664;

/// Whether every component of `a` lies within `tolerance` raw units of the
/// same component of `b`.
pub open spec fn within(a: Vector3, b: Vector3, tolerance: int) -> bool {
    &&& -tolerance <= a.x.raw - b.x.raw <= tolerance
    &&& -tolerance <= a.y.raw - b.y.raw <= tolerance
    &&& -tolerance <= a.z.raw - b.z.raw <= tolerance
}

/// Whether the vector is nearly a unit vector: the squared length between
/// `1 - 11 / 2^32` and `1 + 18 / 2^32`, and no component further than
/// `8 / 2^32` outside the interval from -1 to 1. Every vector that `unit`
/// returns for a vector other than the zero vector is one.
pub open spec fn is_nearly_unit(n: Vector3) -> bool {
    &&& -(SCALE + 8) <= n.x.raw <= SCALE + 8
    &&& -(SCALE + 8) <= n.y.raw <= SCALE + 8
    &&& -(SCALE + 8) <= n.z.raw <= SCALE + 8
    &&& SCALE - 11 <= n.len_sq().raw <= SCALE + 18
}

/// The absolute value of an integer.
pub open spec fn magnitude(x: int) -> int {
    if x < 0 {
        -x
    } else {
        x
    }
}

/// The quotient rounded down lies within one divisor of the dividend.
pub proof fn lemma_floor_bounds(n: int, d: int)
    requires
        0 <= n,
        0 < d,
    ensures
        0 <= n / d,
        (n / d) * d <= n < (n / d) * d + d,
{
    vstd::arithmetic::div_mod::lemma_fundamental_div_mod(n, d);
    vstd::arithmetic::div_mod::lemma_mod_bound(n, d);
    vstd::arithmetic::div_mod::lemma_div_pos_is_pos(n, d);
    assert(d * (n / d) == (n / d) * d) by (nonlinear_arith);
}

/// Squares keep the order of numbers that are not negative.
pub proof fn lemma_square_order(a: int, b: int)
    by (nonlinear_arith)
    requires
        0 <= a,
    ensures
        a <= b ==> a * a <= b * b,
        a < b ==> a * a < b * b,
{
}

/// A product of two squares is the square of the product.
pub proof fn lemma_square_of_product(a: int, b: int)
    by (nonlinear_arith)
    ensures
        (a * b) * (a * b) == (a * a) * (b * b),
{
}

/// One component of a vector scaled to unit length, squared: between the
/// exact value and what the rounding of the division takes away.
///
/// `a` is the magnitude of the component, `len` the length of the vector and
/// `u` the magnitude of the scaled component, `a * s / len` rounded down.
pub proof fn lemma_scaled_component(a: int, s: int, len: int, u: int)
    requires
        0 <= a,
        0 < s,
        0 < len,
        u == (a * s) / len,
    ensures
        0 <= u,
        (u * u) * (len * len) <= (a * a) * (s * s),
        (a * a) * (s * s) < ((u + 1) * (u + 1)) * (len * len),
{
    assert(0 <= a * s) by (nonlinear_arith)
        requires
            0 <= a,
            0 < s,
    ;
    lemma_floor_bounds(a * s, len);
    assert(0 <= u * len) by (nonlinear_arith)
        requires
            0 <= u,
            0 < len,
    ;
    lemma_square_order(u * len, a * s);
    lemma_square_of_product(u, len);
    lemma_square_of_product(a, s);
    assert(u * len + len == (u + 1) * len) by (nonlinear_arith);
    lemma_square_order(a * s, (u + 1) * len);
    lemma_square_of_product(u + 1, len);
}

/// The components of a vector scaled to unit length, in integers.
///
/// `b1`, `b2`, `b3` are the magnitudes of the components, `wide` is the sum
/// of their squares and `d` its root rounded down, at least `s`, the raw
/// value of one; `u1`, `u2`, `u3` are the components times `s` over `d`,
/// rounded down. Then no component is above `s`, and the sum of their
/// squares lies between `(s - 4)^2` and `(s + 1)^2`.
pub proof fn lemma_unit_of_integers(
    b1: int,
    b2: int,
    b3: int,
    s: int,
    wide: int,
    d: int,
    u1: int,
    u2: int,
    u3: int,
)
    requires
        0 <= b1,
        0 <= b2,
        0 <= b3,
        17 <= s <= d,
        wide == b1 * b1 + b2 * b2 + b3 * b3,
        is_root(wide, d),
        u1 == (b1 * s) / d,
        u2 == (b2 * s) / d,
        u3 == (b3 * s) / d,
    ensures
        0 <= u1 <= s,
        0 <= u2 <= s,
        0 <= u3 <= s,
        (s - 4) * (s - 4) <= u1 * u1 + u2 * u2 + u3 * u3 < (s + 1) * (s + 1),
{
    let scaled = u1 * u1 + u2 * u2 + u3 * u3;
    let raised = (u1 + 1) * (u1 + 1) + (u2 + 1) * (u2 + 1) + (u3 + 1) * (u3 + 1);
    let ss = s * s;
    let dd = d * d;
    lemma_scaled_component(b1, s, d, u1);
    lemma_scaled_component(b2, s, d, u2);
    lemma_scaled_component(b3, s, d, u3);
    assert(scaled * dd == (u1 * u1) * dd + (u2 * u2) * dd + (u3 * u3) * dd) by (nonlinear_arith)
        requires
            scaled == u1 * u1 + u2 * u2 + u3 * u3,
    ;
    assert(wide * ss == (b1 * b1) * ss + (b2 * b2) * ss + (b3 * b3) * ss) by (nonlinear_arith)
        requires
            wide == b1 * b1 + b2 * b2 + b3 * b3,
    ;
    assert(raised * dd == ((u1 + 1) * (u1 + 1)) * dd + ((u2 + 1) * (u2 + 1)) * dd + ((u3 + 1) * (u3
        + 1)) * dd) by (nonlinear_arith)
        requires
            raised == (u1 + 1) * (u1 + 1) + (u2 + 1) * (u2 + 1) + (u3 + 1) * (u3 + 1),
    ;
    assert(scaled * dd <= wide * ss < raised * dd);
    // From above: wide < (d + 1)^2 and s (d + 1) <= (s + 1) d.
    assert(scaled < (s + 1) * (s + 1)) by (nonlinear_arith)
        requires
            scaled * dd <= wide * ss,
            wide < (d + 1) * (d + 1),
            0 < s <= d,
            ss == s * s,
            dd == d * d,
    {
        assert(wide * ss < ((d + 1) * (d + 1)) * ss);
        assert(((d + 1) * (d + 1)) * ss == (s * (d + 1)) * (s * (d + 1)));
        assert(0 <= s * (d + 1) <= (s + 1) * d);
        assert((s * (d + 1)) * (s * (d + 1)) <= ((s + 1) * d) * ((s + 1) * d));
        assert(((s + 1) * d) * ((s + 1) * d) == ((s + 1) * (s + 1)) * dd);
        if scaled >= (s + 1) * (s + 1) {
            assert(scaled * dd >= ((s + 1) * (s + 1)) * dd);
        }
    }
    assert(0 <= u1 * u1 && 0 <= u2 * u2 && 0 <= u3 * u3) by (nonlinear_arith);
    assert(u1 <= s) by {
        if u1 >= s + 1 {
            lemma_square_order(s + 1, u1);
        }
    }
    assert(u2 <= s) by {
        if u2 >= s + 1 {
            lemma_square_order(s + 1, u2);
        }
    }
    assert(u3 <= s) by {
        if u3 >= s + 1 {
            lemma_square_order(s + 1, u3);
        }
    }
    // From below: d^2 s^2 <= wide s^2 < raised d^2.
    assert(ss < raised) by (nonlinear_arith)
        requires
            wide * ss < raised * dd,
            dd <= wide,
            0 < s <= d,
            ss == s * s,
            dd == d * d,
    {
        assert(dd * ss <= wide * ss);
        assert(ss * dd < raised * dd);
    }
    assert(raised == scaled + 2 * (u1 + u2 + u3) + 3) by (nonlinear_arith)
        requires
            scaled == u1 * u1 + u2 * u2 + u3 * u3,
            raised == (u1 + 1) * (u1 + 1) + (u2 + 1) * (u2 + 1) + (u3 + 1) * (u3 + 1),
    ;
    assert((s - 4) * (s - 4) == ss - 8 * s + 16) by (nonlinear_arith)
        requires
            ss == s * s,
    ;
}

/// The square of a number of moderate size is the square of the raw value
/// over the raw value of one, rounded down.
pub proof fn lemma_square_raw(x: Fixed)
    requires
        -COMPONENT_MAX <= x.raw <= COMPONENT_MAX,
    ensures
        x.mul(x).raw == (magnitude(x.raw as int) * magnitude(x.raw as int)) / (SCALE as int),
        0 <= x.mul(x).raw <= 0x1000_0000_0000_0000,
{
    reveal(Fixed::spec_mul);
    let a = magnitude(x.raw as int);
    assert(x.raw * x.raw == a * a && 0 <= a * a <= 0x1000_0000_0000_0000 * SCALE)
        by (nonlinear_arith)
        requires
            a == magnitude(x.raw as int),
            0 <= a <= 0x4000_0000_0000,
            SCALE == 0x1_0000_0000,
    ;
    lemma_floor_bounds(a * a, SCALE as int);
    assert((a * a) / (SCALE as int) <= 0x1000_0000_0000_0000) by (nonlinear_arith)
        requires
            ((a * a) / (SCALE as int)) * SCALE <= a * a,
            a * a <= 0x1000_0000_0000_0000 * SCALE,
            SCALE == 0x1_0000_0000,
    ;
}

/// One component of the unit vector: its magnitude is the magnitude of the
/// stretched component times `2^32` over the span, rounded down, and its
/// sign that of the component.
pub proof fn lemma_unit_component(x: Fixed, stretch: int, span: int)
    requires
        stretch == 1 || stretch == 0x1_0000_0000,
        0 < span,
        (magnitude(x.raw as int) * stretch * SCALE) / span <= SCALE,
    ensures
        magnitude(Fixed::of(quotient(x.raw * SCALE * stretch, span)).raw as int) == (magnitude(
            x.raw as int,
        ) * stretch * SCALE) / span,
        x.raw >= 0 ==> Fixed::of(quotient(x.raw * SCALE * stretch, span)).raw >= 0,
        x.raw <= 0 ==> Fixed::of(quotient(x.raw * SCALE * stretch, span)).raw <= 0,
        Fixed::of(quotient(x.raw * SCALE * stretch, span)).raw == quotient(
            x.raw * SCALE * stretch,
            span,
        ),
{
    let a = magnitude(x.raw as int);
    let n = x.raw * SCALE * stretch;
    assert(0 <= a * stretch * SCALE && (x.raw >= 0 ==> n == a * stretch * SCALE) && (x.raw < 0
        ==> -n == a * stretch * SCALE)) by (nonlinear_arith)
        requires
            a == magnitude(x.raw as int),
            n == x.raw * SCALE * stretch,
            stretch == 1 || stretch == 0x1_0000_0000,
            SCALE == 0x1_0000_0000,
    ;
    lemma_floor_bounds(a * stretch * SCALE, span);
}

/// The exact squared length of the stretched vector is the sum of the
/// squares of the stretched magnitudes.
pub proof fn lemma_stretched_norm(v: Vector3)
    ensures
        v.norm() * (v.stretch() * v.stretch()) == (magnitude(v.x.raw as int) * v.stretch()) * (
        magnitude(v.x.raw as int) * v.stretch()) + (magnitude(v.y.raw as int) * v.stretch()) * (
        magnitude(v.y.raw as int) * v.stretch()) + (magnitude(v.z.raw as int) * v.stretch()) * (
        magnitude(v.z.raw as int) * v.stretch()),
        v.norm() >= 0,
{
    let t = v.stretch();
    let x = v.x.raw as int;
    let y = v.y.raw as int;
    let z = v.z.raw as int;
    let a1 = magnitude(x);
    let a2 = magnitude(y);
    let a3 = magnitude(z);
    assert(a1 * a1 == x * x && a2 * a2 == y * y && a3 * a3 == z * z && x * x >= 0 && y * y >= 0
        && z * z >= 0) by (nonlinear_arith)
        requires
            a1 == magnitude(x),
            a2 == magnitude(y),
            a3 == magnitude(z),
    ;
    assert((a1 * t) * (a1 * t) == (a1 * a1) * (t * t) && (a2 * t) * (a2 * t) == (a2 * a2) * (t * t)
        && (a3 * t) * (a3 * t) == (a3 * a3) * (t * t)) by (nonlinear_arith);
    assert((x * x + y * y + z * z) * (t * t) == (x * x) * (t * t) + (y * y) * (t * t) + (z * z) * (
    t * t)) by (nonlinear_arith);
}

/// The length of a vector is the root of its exact squared length, up to
/// the largest number.
pub proof fn lemma_length(v: Vector3)
    ensures
        v.len().raw >= 0,
        is_root(v.norm(), root(v.norm())),
        root(v.norm()) <= 0x7fff_ffff_ffff_ffff ==> v.len().raw == root(v.norm()),
{
    reveal(Vector3::spec_len);
    lemma_stretched_norm(v);
    lemma_root_exists(v.norm());
}

/// Every vector but the zero vector has a length between `1 - 4 / 2^32` and
/// 1 once it is scaled to unit length, and no component of the scaled vector
/// lies outside the interval from -1 to 1. In short, the scaled vector is
/// nearly a unit vector. Its components have the signs of the components of
/// the vector.
pub proof fn lemma_unit_length(v: Vector3)
    requires
        v.norm() > 0,
    ensures
        SCALE - 4 <= v.unit().len().raw <= SCALE,
        -SCALE <= v.unit().x.raw <= SCALE,
        -SCALE <= v.unit().y.raw <= SCALE,
        -SCALE <= v.unit().z.raw <= SCALE,
        (SCALE - 4) * (SCALE - 4) <= v.unit().norm() < (SCALE + 1) * (SCALE + 1),
        is_nearly_unit(v.unit()),
        v.x.raw >= 0 ==> v.unit().x.raw >= 0,
        v.x.raw <= 0 ==> v.unit().x.raw <= 0,
        v.y.raw >= 0 ==> v.unit().y.raw >= 0,
        v.y.raw <= 0 ==> v.unit().y.raw <= 0,
        v.z.raw >= 0 ==> v.unit().z.raw >= 0,
        v.z.raw <= 0 ==> v.unit().z.raw <= 0,
{
    reveal(Vector3::spec_unit);
    let s = SCALE as int;
    let t = v.stretch();
    let d = v.span();
    let u = v.unit();
    lemma_span_positive(v);
    lemma_stretched_norm(v);
    let b1 = magnitude(v.x.raw as int) * t;
    let b2 = magnitude(v.y.raw as int) * t;
    let b3 = magnitude(v.z.raw as int) * t;
    let wide = v.norm() * (t * t);
    let u1 = (b1 * s) / d;
    let u2 = (b2 * s) / d;
    let u3 = (b3 * s) / d;
    assert(0 <= b1 && 0 <= b2 && 0 <= b3) by (nonlinear_arith)
        requires
            b1 == magnitude(v.x.raw as int) * t,
            b2 == magnitude(v.y.raw as int) * t,
            b3 == magnitude(v.z.raw as int) * t,
            t >= 1,
    ;
    lemma_unit_of_integers(b1, b2, b3, s, wide, d, u1, u2, u3);
    lemma_unit_component(v.x, t, d);
    lemma_unit_component(v.y, t, d);
    lemma_unit_component(v.z, t, d);
    assert(magnitude(u.x.raw as int) == u1 && magnitude(u.y.raw as int) == u2 && magnitude(
        u.z.raw as int,
    ) == u3);
    lemma_stretched_norm(u);
    assert(u.norm() == u1 * u1 + u2 * u2 + u3 * u3) by (nonlinear_arith)
        requires
            u.norm() == u.x.raw * u.x.raw + u.y.raw * u.y.raw + u.z.raw * u.z.raw,
            u1 == magnitude(u.x.raw as int),
            u2 == magnitude(u.y.raw as int),
            u3 == magnitude(u.z.raw as int),
    ;
    // The length of the unit vector.
    lemma_length(u);
    let len = root(u.norm());
    assert(s - 4 <= len <= s) by {
        if len >= s + 1 {
            lemma_square_order(s + 1, len);
        }
        if len <= s - 5 {
            lemma_square_order(len + 1, s - 4);
        }
    }
    // The rounded squared length of the unit vector.
    lemma_square_raw(u.x);
    lemma_square_raw(u.y);
    lemma_square_raw(u.z);
    assert(0 <= u1 * u1 && 0 <= u2 * u2 && 0 <= u3 * u3) by (nonlinear_arith);
    lemma_floor_bounds(u1 * u1, s);
    lemma_floor_bounds(u2 * u2, s);
    lemma_floor_bounds(u3 * u3, s);
    let p = u.len_sq().raw as int;
    assert(p == (u1 * u1) / s + (u2 * u2) / s + (u3 * u3) / s);
    assert(p * s == ((u1 * u1) / s) * s + ((u2 * u2) / s) * s + ((u3 * u3) / s) * s)
        by (nonlinear_arith)
        requires
            p == (u1 * u1) / s + (u2 * u2) / s + (u3 * u3) / s,
    ;
    assert(s - 11 <= p <= s + 18) by (nonlinear_arith)
        requires
            p * s <= u.norm() < p * s + 3 * s,
            (s - 4) * (s - 4) <= u.norm() < (s + 1) * (s + 1),
            s == 0x1_0000_0000,
    {
        if p <= s - 12 {
            assert(p * s <= (s - 12) * s);
        }
        if p >= s + 19 {
            assert(p * s >= (s + 19) * s);
        }
    }
}

/// A vector and its opposite are equally long.
pub proof fn lemma_opposite_length(v: Vector3)
    requires
        v.in_range(),
    ensures
        v.neg().norm() == v.norm(),
        v.neg().len() == v.len(),
{
    reveal(Vector3::spec_len);
    let x = v.x.raw as int;
    let y = v.y.raw as int;
    let z = v.z.raw as int;
    assert((-x) * (-x) == x * x && (-y) * (-y) == y * y && (-z) * (-z) == z * z)
        by (nonlinear_arith);
}

/// The normal of a hit on a sphere is a unit vector within the bounds of
/// `lemma_unit_length`, wherever the point of the hit is not the centre of
/// the sphere to the last bit.
pub proof fn lemma_hit_normal_length(sphere: Sphere, ray: Ray, min_t: Fixed, max_t: Fixed)
    requires
        sphere.spec_hit(&ray, min_t, max_t) matches Some(hit) && hit.point.sub(sphere.origin).div(
            sphere.radius,
        ).norm() > 0,
    ensures
        sphere.spec_hit(&ray, min_t, max_t) matches Some(hit) && SCALE - 4 <= hit.normal.len().raw
            <= SCALE && is_nearly_unit(hit.normal),
{
    let hit = sphere.spec_hit(&ray, min_t, max_t)->0;
    let radial = hit.point.sub(sphere.origin).div(sphere.radius);
    let outward = radial.unit();
    lemma_unit_length(radial);
    lemma_opposite_length(outward);
    lemma_neg_nearly_unit(outward);
}

/// The opposite of a vector that is nearly a unit vector is nearly one too.
pub proof fn lemma_neg_nearly_unit(n: Vector3)
    requires
        is_nearly_unit(n),
    ensures
        is_nearly_unit(n.neg()),
        n.neg().len_sq() == n.len_sq(),
{
    lemma_mul_neg(n.x, n.x);
    lemma_mul_neg(n.y, n.y);
    lemma_mul_neg(n.z, n.z);
    lemma_mul_neg(n.x.neg(), n.x);
    lemma_mul_neg(n.y.neg(), n.y);
    lemma_mul_neg(n.z.neg(), n.z);
}

/// The product of two numbers of moderate size is the product of the
/// magnitudes of the raw values over the raw value of one, rounded down,
/// with the sign of the exact product.
pub proof fn lemma_product_raw(x: Fixed, y: Fixed)
    requires
        -COMPONENT_MAX <= x.raw <= COMPONENT_MAX,
        -COMPONENT_MAX <= y.raw <= COMPONENT_MAX,
    ensures
        magnitude(x.mul(y).raw as int) == (magnitude(x.raw as int) * magnitude(y.raw as int)) / (
        SCALE as int),
        (x.raw < 0) == (y.raw < 0) ==> x.mul(y).raw >= 0,
        (x.raw < 0) != (y.raw < 0) ==> x.mul(y).raw <= 0,
        x.raw == 0 || y.raw == 0 ==> x.mul(y).raw == 0,
{
    reveal(Fixed::spec_mul);
    let a = magnitude(x.raw as int);
    let b = magnitude(y.raw as int);
    assert(x.raw == 0 || y.raw == 0 ==> x.raw * y.raw == 0) by (nonlinear_arith);
    assert(0 <= a * b <= 0x1000_0000_0000_0000 * SCALE && ((x.raw < 0) == (y.raw < 0) ==> x.raw
        * y.raw == a * b) && ((x.raw < 0) != (y.raw < 0) ==> x.raw * y.raw == -(a * b)))
        by (nonlinear_arith)
        requires
            a == magnitude(x.raw as int),
            b == magnitude(y.raw as int),
            0 <= a <= 0x4000_0000_0000,
            0 <= b <= 0x4000_0000_0000,
            SCALE == 0x1_0000_0000,
    ;
    lemma_floor_bounds(a * b, SCALE as int);
    assert((a * b) / (SCALE as int) <= 0x1000_0000_0000_0000) by (nonlinear_arith)
        requires
            ((a * b) / (SCALE as int)) * SCALE <= a * b,
            a * b <= 0x1000_0000_0000_0000 * SCALE,
            SCALE == 0x1_0000_0000,
    ;
}

/// One component of a mirrored vector, in integers.
///
/// `a` is the magnitude of a component of the normal and `c` the length of
/// the vector that falls onto the mirror along the normal; `m` is the
/// magnitude of that component of the vector, `a * c / s` rounded down, and
/// `g` its share of the dot product, `m * a / s` rounded down.
pub proof fn lemma_mirrored_share(a: int, c: int, s: int, m: int, g: int)
    requires
        0 <= a,
        0 <= c,
        0 < s,
        m == (a * c) / s,
        g == (m * a) / s,
    ensures
        0 <= m,
        0 <= g,
        m * s <= a * c < m * s + s,
        g * (s * s) <= (a * a) * c,
        (a * a) * c < g * (s * s) + a * s + s * s,
{
    assert(0 <= a * c) by (nonlinear_arith)
        requires
            0 <= a,
            0 <= c,
    ;
    lemma_floor_bounds(a * c, s);
    assert(0 <= m * a) by (nonlinear_arith)
        requires
            0 <= a,
            0 <= m,
    ;
    lemma_floor_bounds(m * a, s);
    assert(g * (s * s) <= (a * a) * c) by (nonlinear_arith)
        requires
            g * s <= m * a,
            m * s <= a * c,
            0 <= a,
            0 < s,
    {
        assert((g * s) * s <= (m * a) * s);
        assert((m * a) * s == (m * s) * a);
        assert((m * s) * a <= (a * c) * a);
    }
    assert((a * a) * c < g * (s * s) + a * s + s * s) by (nonlinear_arith)
        requires
            m * a < g * s + s,
            a * c < m * s + s,
            0 <= a,
            0 < s,
    {
        assert((a * c) * a <= (m * s + s) * a);
        assert((m * s + s) * a == (m * a) * s + a * s);
        assert((m * a) * s < (g * s + s) * s);
        assert((g * s + s) * s == g * (s * s) + s * s);
    }
}

/// The size of one component of a mirrored vector, in integers: for a
/// vector no longer than `k`, neither the component nor its share of the dot
/// product lies beyond `k (s + 17)`.
pub proof fn lemma_mirrored_size(a: int, c: int, s: int, k: int, m: int, g: int)
    requires
        0 <= a <= s + 8,
        0 <= c <= k * s,
        1 <= k <= 4096,
        s == 0x1_0000_0000,
        0 <= m,
        0 <= g,
        m * s <= a * c,
        g * (s * s) <= (a * a) * c,
    ensures
        m <= (s + 8) * k,
        g <= (s + 17) * k,
{
    assert(m <= (s + 8) * k) by (nonlinear_arith)
        requires
            m * s <= a * c,
            0 <= a <= s + 8,
            0 <= c <= k * s,
            0 < s,
    {
        assert(a * c <= (s + 8) * c);
        assert((s + 8) * c <= (s + 8) * (k * s));
        assert((s + 8) * (k * s) == ((s + 8) * k) * s);
        if m > (s + 8) * k {
            assert(m * s >= ((s + 8) * k + 1) * s);
        }
    }
    assert(g <= (s + 17) * k) by (nonlinear_arith)
        requires
            g * (s * s) <= (a * a) * c,
            0 <= a <= s + 8,
            0 <= c <= k * s,
            1 <= k,
            s == 0x1_0000_0000,
    {
        assert(a * a <= (s + 8) * (s + 8));
        assert((a * a) * c <= ((s + 8) * (s + 8)) * c);
        assert(((s + 8) * (s + 8)) * c <= ((s + 8) * (s + 8)) * (k * s));
        assert((s + 8) * (s + 8) <= (s + 17) * s);
        assert(((s + 8) * (s + 8)) * (k * s) <= ((s + 17) * s) * (k * s));
        assert(((s + 17) * s) * (k * s) == ((s + 17) * k) * (s * s));
        if g > (s + 17) * k {
            assert(g * (s * s) >= ((s + 17) * k + 1) * (s * s));
        }
    }
}

/// One component of a mirrored vector against the same component of the
/// vector turned round, in integers.
///
/// `total` is the dot product of the vector and the normal, without its
/// sign, `h` the magnitude of the component of the normal scaled by twice
/// that, and `m` the magnitude of the component of the vector. Where
/// `total` lies within `spread / s` of the length `c`, for a spread of at
/// most `(21 k + 7) s`, `h` lies within `42 k + 17` of `2 m`.
pub proof fn lemma_mirrored_component(
    a: int,
    c: int,
    s: int,
    k: int,
    m: int,
    total: int,
    h: int,
    spread: int,
)
    requires
        0 <= a <= s + 8,
        0 <= c,
        1 <= k <= 4096,
        s == 0x1_0000_0000,
        0 <= total,
        m == (a * c) / s,
        h == (2 * total * a) / s,
        (total - c) * s <= spread,
        (c - total) * s <= spread,
        0 <= spread <= (21 * k + 7) * s,
    ensures
        -(42 * k + 17) <= h - 2 * m <= 42 * k + 17,
{
    let bound = 42 * k + 17;
    assert(0 <= a * c && 0 <= 2 * total * a) by (nonlinear_arith)
        requires
            0 <= a,
            0 <= c,
            0 <= total,
    ;
    lemma_floor_bounds(a * c, s);
    lemma_floor_bounds(2 * total * a, s);
    // h s lies in (2 total a - s, 2 total a] and 2 m s in (2 a c - 2 s, 2 a c].
    assert(2 * (s + 8) * ((21 * k + 7) * s) + 2 * (s * s) <= bound * (s * s)) by (nonlinear_arith)
        requires
            bound == 42 * k + 17,
            1 <= k <= 4096,
            s == 0x1_0000_0000,
    {
        assert(2 * (s + 8) * ((21 * k + 7) * s) == (42 * k + 14) * (s * s) + (336 * k + 112) * s);
        assert((336 * k + 112) * s <= s * s);
    }
    assert((h - 2 * m) * (s * s) <= bound * (s * s) && (2 * m - h) * (s * s) <= bound * (s * s))
        by (nonlinear_arith)
        requires
            h * s <= 2 * total * a < h * s + s,
            m * s <= a * c < m * s + s,
            0 <= a <= s + 8,
            448 <= s,
            (total - c) * s <= spread,
            (c - total) * s <= spread,
            0 <= spread <= (21 * k + 7) * s,
            2 * (s + 8) * ((21 * k + 7) * s) + 2 * (s * s) <= bound * (s * s),
    {
        // (h - 2 m) s <= 2 a (total - c) + 2 s and
        // (2 m - h) s < 2 a (c - total) + s.
        assert((h - 2 * m) * s <= 2 * a * (total - c) + 2 * s);
        assert((2 * m - h) * s <= 2 * a * (c - total) + s);
        assert(2 * a * ((total - c) * s) <= 2 * a * spread);
        assert(2 * a * ((c - total) * s) <= 2 * a * spread);
        assert(2 * a * spread <= 2 * (s + 8) * spread);
        assert(2 * (s + 8) * spread <= 2 * (s + 8) * ((21 * k + 7) * s));
        assert(((h - 2 * m) * s) * s <= (2 * a * (total - c) + 2 * s) * s);
        assert(((2 * m - h) * s) * s <= (2 * a * (c - total) + s) * s);
    }
    assert(h - 2 * m <= bound) by (nonlinear_arith)
        requires
            (h - 2 * m) * (s * s) <= bound * (s * s),
            0 < s,
    ;
    assert(2 * m - h <= bound) by (nonlinear_arith)
        requires
            (2 * m - h) * (s * s) <= bound * (s * s),
            0 < s,
    ;
}

/// A vector that falls straight onto a mirror comes straight back: for a
/// normal of nearly unit length and a vector along it that is no longer
/// than the whole number `k`, up to 4096, the mirror image lies within
/// `(42 k + 17) / 2^32` of the vector turned round, in every component:
/// within `59 / 2^32` for a vector no longer than 1.
pub proof fn lemma_reflect_opposite(normal: Vector3, length: Fixed, k: int)
    requires
        is_nearly_unit(normal),
        1 <= k <= 4096,
        0 <= length.raw <= k * SCALE,
    ensures
        within(
            normal.scale(length).neg().reflect(&normal),
            normal.scale(length),
            42 * k + 17,
        ),
{
    let s = SCALE as int;
    let c = length.raw as int;
    let a1 = magnitude(normal.x.raw as int);
    let a2 = magnitude(normal.y.raw as int);
    let a3 = magnitude(normal.z.raw as int);
    let along = normal.scale(length);
    let v = along.neg();
    lemma_product_raw(normal.x, length);
    lemma_product_raw(normal.y, length);
    lemma_product_raw(normal.z, length);
    let m1 = (a1 * c) / s;
    let m2 = (a2 * c) / s;
    let m3 = (a3 * c) / s;
    let g1 = (m1 * a1) / s;
    let g2 = (m2 * a2) / s;
    let g3 = (m3 * a3) / s;
    lemma_mirrored_share(a1, c, s, m1, g1);
    lemma_mirrored_share(a2, c, s, m2, g2);
    lemma_mirrored_share(a3, c, s, m3, g3);
    let top = (s + 8) * k;
    assert(top <= 4097 * s);
    lemma_mirrored_size(a1, c, s, k, m1, g1);
    lemma_mirrored_size(a2, c, s, k, m2, g2);
    lemma_mirrored_size(a3, c, s, k, m3, g3);
    assert(magnitude(v.x.raw as int) == m1 && magnitude(v.y.raw as int) == m2 && magnitude(
        v.z.raw as int,
    ) == m3);

    // The dot product of the vector and the normal.
    lemma_product_raw(v.x, normal.x);
    lemma_product_raw(v.y, normal.y);
    lemma_product_raw(v.z, normal.z);
    let total = g1 + g2 + g3;
    let dot = Vector3::dot(&v, &normal);
    assert(dot.raw == -total);

    // The squared length of the normal.
    lemma_square_raw(normal.x);
    lemma_square_raw(normal.y);
    lemma_square_raw(normal.z);
    let q = normal.len_sq().raw as int;
    let squares = a1 * a1 + a2 * a2 + a3 * a3;
    assert(0 <= a1 * a1 && 0 <= a2 * a2 && 0 <= a3 * a3) by (nonlinear_arith);
    lemma_floor_bounds(a1 * a1, s);
    lemma_floor_bounds(a2 * a2, s);
    lemma_floor_bounds(a3 * a3, s);
    assert(q * s == ((a1 * a1) / s) * s + ((a2 * a2) / s) * s + ((a3 * a3) / s) * s)
        by (nonlinear_arith)
        requires
            q == (a1 * a1) / s + (a2 * a2) / s + (a3 * a3) / s,
    ;
    assert(q * s <= squares < q * s + 3 * s);

    // The dot product lies close to the length.
    assert((total - c) * s <= (21 * k + 7) * s && (c - total) * s <= (21 * k + 7) * s)
        by (nonlinear_arith)
        requires
            1 <= k,
            total == g1 + g2 + g3,
            squares == a1 * a1 + a2 * a2 + a3 * a3,
            g1 * (s * s) <= (a1 * a1) * c,
            g2 * (s * s) <= (a2 * a2) * c,
            g3 * (s * s) <= (a3 * a3) * c,
            (a1 * a1) * c < g1 * (s * s) + a1 * s + s * s,
            (a2 * a2) * c < g2 * (s * s) + a2 * s + s * s,
            (a3 * a3) * c < g3 * (s * s) + a3 * s + s * s,
            q * s <= squares < q * s + 3 * s,
            s - 11 <= q <= s + 18,
            0 <= a1 <= s + 8,
            0 <= a2 <= s + 8,
            0 <= a3 <= s + 8,
            0 <= c <= k * s,
            s == 0x1_0000_0000,
    {
        assert(total * (s * s) == g1 * (s * s) + g2 * (s * s) + g3 * (s * s));
        assert(squares * c == (a1 * a1) * c + (a2 * a2) * c + (a3 * a3) * c);
        assert(total * (s * s) <= squares * c);
        assert(squares * c < total * (s * s) + (a1 + a2 + a3) * s + 3 * (s * s));
        // From above.
        assert(squares * c <= (q * s + 3 * s) * c);
        assert((q * s + 3 * s) * c <= ((s + 21) * s) * c);
        assert(((s + 21) * s) * c == (c * s) * s + (21 * c) * s);
        assert((21 * c) * s <= (21 * (k * s)) * s);
        assert(total * (s * s) <= (c * s + 21 * (k * s)) * s);
        assert((total * s) * s == total * (s * s));
        assert(total * s <= c * s + 21 * (k * s));
        assert(21 * (k * s) <= (21 * k + 7) * s);
        // From below.
        assert(squares * c >= (q * s) * c);
        assert((q * s) * c >= ((s - 11) * s) * c);
        assert(((s - 11) * s) * c == (c * s) * s - (11 * c) * s);
        assert((11 * c) * s <= (11 * (k * s)) * s);
        assert((a1 + a2 + a3) * s <= (3 * s + 24) * s);
        assert((c * s) * s - (11 * (k * s)) * s < total * (s * s) + (3 * s + 24) * s + 3 * (s
            * s));
        assert((c * s - 11 * (k * s) - 6 * s - 24) * s < (total * s) * s);
        assert(c * s - 11 * (k * s) - 6 * s - 24 < total * s);
        assert(11 * (k * s) + 6 * s + 24 <= (21 * k + 7) * s);
    }
    assert(total <= 4097 * s) by (nonlinear_arith)
        requires
            (total - c) * s <= (21 * k + 7) * s,
            0 <= c <= k * s,
            1 <= k <= 4096,
            s == 0x1_0000_0000,
    {
        if total > 4097 * s {
            assert((total - c) * s >= (4097 * s - k * s + 1) * s);
        }
    }

    // Twice the dot product, and the normal scaled by it.
    lemma_mul_whole(2i64, dot);
    let twice = Fixed::from_int(2i64).mul(dot);
    assert(twice.raw == -2 * total);
    lemma_product_raw(normal.x, twice);
    lemma_product_raw(normal.y, twice);
    lemma_product_raw(normal.z, twice);
    let h1 = (2 * total * a1) / s;
    let h2 = (2 * total * a2) / s;
    let h3 = (2 * total * a3) / s;
    assert(a1 * (2 * total) == 2 * total * a1 && a2 * (2 * total) == 2 * total * a2 && a3 * (2
        * total) == 2 * total * a3) by (nonlinear_arith);
    lemma_mirrored_component(a1, c, s, k, m1, total, h1, (21 * k + 7) * s);
    lemma_mirrored_component(a2, c, s, k, m2, total, h2, (21 * k + 7) * s);
    lemma_mirrored_component(a3, c, s, k, m3, total, h3, (21 * k + 7) * s);
    let back = normal.scale(twice);
    assert(magnitude(back.x.raw as int) == h1);
    assert(magnitude(back.y.raw as int) == h2);
    assert(magnitude(back.z.raw as int) == h3);
}

/// What rounding toward zero takes away from a quotient, times the divisor:
/// `n - d * quotient(n, d)`.
pub open spec fn lost(n: int, d: int) -> int {
    n - d * quotient(n, d)
}

/// Rounding toward zero takes away less than one divisor.
pub proof fn lemma_lost(n: int, d: int)
    requires
        0 < d,
    ensures
        -d < lost(n, d) < d,
        n >= 0 ==> lost(n, d) >= 0,
        n <= 0 ==> lost(n, d) <= 0,
{
    if n >= 0 {
        lemma_floor_bounds(n, d);
        assert(d * (n / d) == (n / d) * d) by (nonlinear_arith);
    } else {
        lemma_floor_bounds(-n, d);
        assert(d * (-((-n) / d)) == -(((-n) / d) * d)) by (nonlinear_arith);
    }
}

/// The product of two sums of three terms is the sum of the nine products.
pub proof fn lemma_product_of_sums(x1: int, x2: int, x3: int, y1: int, y2: int, y3: int)
    by (nonlinear_arith)
    ensures
        (x1 + x2 + x3) * (y1 + y2 + y3) == x1 * y1 + x1 * y2 + x1 * y3 + x2 * y1 + x2 * y2 + x2
            * y3 + x3 * y1 + x3 * y2 + x3 * y3,
{
}

/// The product of two numbers whose exact product is at most `2^92` in
/// magnitude is the exact quotient, rounded toward zero.
pub proof fn lemma_product_exact(x: Fixed, y: Fixed)
    requires
        -0x1000_0000_0000_0000_0000_0000 <= x.raw * y.raw <= 0x1000_0000_0000_0000_0000_0000,
    ensures
        x.mul(y).raw == quotient(x.raw * y.raw, SCALE as int),
        SCALE * x.mul(y).raw == x.raw * y.raw - lost(x.raw * y.raw, SCALE as int),
        -0x1000_0000_0000_0000 <= x.mul(y).raw <= 0x1000_0000_0000_0000,
{
    reveal(Fixed::spec_mul);
    let p = x.raw * y.raw;
    lemma_quotient_sign(p, SCALE as int);
    lemma_lost(p, SCALE as int);
    let q = quotient(p, SCALE as int);
    assert(-0x1000_0000_0000_0000 <= q <= 0x1000_0000_0000_0000) by (nonlinear_arith)
        requires
            -0x1000_0000_0000_0000_0000_0000 <= p <= 0x1000_0000_0000_0000_0000_0000,
            -0x1_0000_0000 < p - 0x1_0000_0000 * q < 0x1_0000_0000,
    ;
}

/// The cross product of two vectors is at right angles to the second, in
/// integers.
///
/// `c1`, `c2`, `c3` are `s` times the components of the cross product of
/// `(a1, a2, a3)` and `(b1, b2, b3)`, each less up to `2 s` that the rounding
/// of two products took away, and `d` is `s^2` times the dot product of the
/// cross product and the second vector, less what the rounding of three
/// more products took away, `e` in all. Then `d` is at most `2 s` times the
/// magnitudes of `b1`, `b2` and `b3`, and `3 s^2`, away from zero.
pub proof fn lemma_cross_of_integers(
    a1: int,
    a2: int,
    a3: int,
    b1: int,
    b2: int,
    b3: int,
    s: int,
    e1: int,
    e2: int,
    e3: int,
    c1: int,
    c2: int,
    c3: int,
    e: int,
    d: int,
)
    requires
        0 < s,
        -2 * s < e1 < 2 * s,
        -2 * s < e2 < 2 * s,
        -2 * s < e3 < 2 * s,
        c1 == a2 * b3 - a3 * b2 - e1,
        c2 == a3 * b1 - a1 * b3 - e2,
        c3 == a1 * b2 - a2 * b1 - e3,
        -3 * s < e < 3 * s,
        d == c1 * b1 + c2 * b2 + c3 * b3 - s * e,
    ensures
        d <= 2 * s * (magnitude(b1) + magnitude(b2) + magnitude(b3)) + 3 * (s * s),
        -d <= 2 * s * (magnitude(b1) + magnitude(b2) + magnitude(b3)) + 3 * (s * s),
{
    let x23 = a2 * b3;
    let x32 = a3 * b2;
    let x31 = a3 * b1;
    let x13 = a1 * b3;
    let x12 = a1 * b2;
    let x21 = a2 * b1;
    assert(c1 * b1 == x23 * b1 - x32 * b1 - e1 * b1) by (nonlinear_arith)
        requires
            c1 == x23 - x32 - e1,
    ;
    assert(c2 * b2 == x31 * b2 - x13 * b2 - e2 * b2) by (nonlinear_arith)
        requires
            c2 == x31 - x13 - e2,
    ;
    assert(c3 * b3 == x12 * b3 - x21 * b3 - e3 * b3) by (nonlinear_arith)
        requires
            c3 == x12 - x21 - e3,
    ;
    assert(x23 * b1 == x21 * b3) by (nonlinear_arith)
        requires
            x23 == a2 * b3,
            x21 == a2 * b1,
    ;
    assert(x31 * b2 == x32 * b1) by (nonlinear_arith)
        requires
            x31 == a3 * b1,
            x32 == a3 * b2,
    ;
    assert(x12 * b3 == x13 * b2) by (nonlinear_arith)
        requires
            x12 == a1 * b2,
            x13 == a1 * b3,
    ;
    assert(c1 * b1 + c2 * b2 + c3 * b3 == -(e1 * b1) - e2 * b2 - e3 * b3);
    lemma_bounded_product(e1, b1, 2 * s);
    lemma_bounded_product(e2, b2, 2 * s);
    lemma_bounded_product(e3, b3, 2 * s);
    assert(-3 * (s * s) <= s * e <= 3 * (s * s)) by (nonlinear_arith)
        requires
            -3 * s < e < 3 * s,
            0 < s,
    ;
    assert(2 * s * (magnitude(b1) + magnitude(b2) + magnitude(b3)) == (2 * s) * magnitude(b1) + (2
        * s) * magnitude(b2) + (2 * s) * magnitude(b3)) by (nonlinear_arith);
}

/// A product is no larger than the bounds of its factors allow.
pub proof fn lemma_bounded_product(e: int, b: int, bound: int)
    by (nonlinear_arith)
    requires
        -bound <= e <= bound,
    ensures
        -(bound * magnitude(b)) <= e * b <= bound * magnitude(b),
{
}

/// Whether no component of `a` lies beyond 4096 in either direction.
pub open spec fn is_small(a: Vector3) -> bool {
    &&& -0x1000_0000_0000 <= a.x.raw <= 0x1000_0000_0000
    &&& -0x1000_0000_0000 <= a.y.raw <= 0x1000_0000_0000
    &&& -0x1000_0000_0000 <= a.z.raw <= 0x1000_0000_0000
}

/// Whether no component of `b` lies further than `8 / 2^32` outside the
/// interval from -1 to 1, as holds of the vectors that are nearly unit
/// vectors.
pub open spec fn is_short(b: Vector3) -> bool {
    &&& -(SCALE + 8) <= b.x.raw <= SCALE + 8
    &&& -(SCALE + 8) <= b.y.raw <= SCALE + 8
    &&& -(SCALE + 8) <= b.z.raw <= SCALE + 8
}

/// The product of a small number and a short one, either way round.
proof fn lemma_small_times_short(x: Fixed, y: Fixed)
    requires
        -0x2001_0000_0000 <= x.raw <= 0x2001_0000_0000,
        -(SCALE + 8) <= y.raw <= SCALE + 8,
    ensures
        x.mul(y) == y.mul(x),
        SCALE * x.mul(y).raw == x.raw * y.raw - lost(x.raw * y.raw, SCALE as int),
        -SCALE < lost(x.raw * y.raw, SCALE as int) < SCALE,
        -0x2001_0002_0000 <= x.mul(y).raw <= 0x2001_0002_0000,
        -0x1000_0000_0000 <= x.raw <= 0x1000_0000_0000 ==> -0x1000_0000_8000 <= x.mul(y).raw
            <= 0x1000_0000_8000,
{
    let p = x.raw * y.raw;
    assert(-0x2001_0002_0000 * SCALE <= p <= 0x2001_0002_0000 * SCALE && p == y.raw * x.raw && (
    -0x1000_0000_0000 <= x.raw <= 0x1000_0000_0000 ==> -0x1000_0000_8000 * SCALE <= p
        <= 0x1000_0000_8000 * SCALE)) by (nonlinear_arith)
        requires
            p == x.raw * y.raw,
            -0x2001_0000_0000 <= x.raw <= 0x2001_0000_0000,
            -0x1_0000_0008 <= y.raw <= 0x1_0000_0008,
            SCALE == 0x1_0000_0000,
    ;
    lemma_product_exact(x, y);
    lemma_lost(p, SCALE as int);
    assert(x.mul(y) == y.mul(x)) by {
        reveal(Fixed::spec_mul);
    }
    let q = x.mul(y).raw as int;
    assert(-0x2001_0002_0000 <= q <= 0x2001_0002_0000 && (-0x1000_0000_8000 * SCALE <= p
        <= 0x1000_0000_8000 * SCALE ==> -0x1000_0000_8000 <= q <= 0x1000_0000_8000))
        by (nonlinear_arith)
        requires
            SCALE * q == p - lost(p, SCALE as int),
            -SCALE < lost(p, SCALE as int) < SCALE,
            -0x2001_0002_0000 * SCALE <= p <= 0x2001_0002_0000 * SCALE,
            SCALE == 0x1_0000_0000,
    ;
}

/// The cross product of a vector and a unit vector is at right angles to
/// the unit vector: their dot product lies within `9 / 2^32` of zero,
/// whichever of the two vectors comes first in the cross product.
pub proof fn lemma_cross_is_orthogonal(a: Vector3, b: Vector3)
    requires
        is_small(a),
        is_short(b),
    ensures
        -9 <= Vector3::dot(&a.cross(&b), &b).raw <= 9,
        -9 <= Vector3::dot(&b.cross(&a), &b).raw <= 9,
        b.cross(&a) == a.cross(&b).neg(),
        a.cross(&b).is_moderate(),
        b.cross(&a).is_moderate(),
{
    let s = SCALE as int;
    let c = a.cross(&b);
    lemma_small_times_short(a.y, b.z);
    lemma_small_times_short(a.z, b.y);
    lemma_small_times_short(a.z, b.x);
    lemma_small_times_short(a.x, b.z);
    lemma_small_times_short(a.x, b.y);
    lemma_small_times_short(a.y, b.x);
    let e1 = lost(a.y.raw * b.z.raw, s) - lost(a.z.raw * b.y.raw, s);
    let e2 = lost(a.z.raw * b.x.raw, s) - lost(a.x.raw * b.z.raw, s);
    let e3 = lost(a.x.raw * b.y.raw, s) - lost(a.y.raw * b.x.raw, s);
    assert(c.x.raw == a.y.mul(b.z).raw - a.z.mul(b.y).raw);
    assert(c.y.raw == a.z.mul(b.x).raw - a.x.mul(b.z).raw);
    assert(c.z.raw == a.x.mul(b.y).raw - a.y.mul(b.x).raw);
    assert(b.cross(&a) == c.neg());
    let c1 = s * c.x.raw;
    let c2 = s * c.y.raw;
    let c3 = s * c.z.raw;
    assert(c1 == a.y.raw * b.z.raw - a.z.raw * b.y.raw - e1);
    assert(c2 == a.z.raw * b.x.raw - a.x.raw * b.z.raw - e2);
    assert(c3 == a.x.raw * b.y.raw - a.y.raw * b.x.raw - e3);

    // The dot product with `b`.
    lemma_small_times_short(c.x, b.x);
    lemma_small_times_short(c.y, b.y);
    lemma_small_times_short(c.z, b.z);
    let dot = Vector3::dot(&c, &b).raw as int;
    assert(dot == c.x.mul(b.x).raw + c.y.mul(b.y).raw + c.z.mul(b.z).raw);
    let e = lost(c.x.raw * b.x.raw, s) + lost(c.y.raw * b.y.raw, s) + lost(c.z.raw * b.z.raw, s);
    assert(s * dot == c.x.raw * b.x.raw + c.y.raw * b.y.raw + c.z.raw * b.z.raw - e);
    let d = s * (s * dot);
    assert(s * (c.x.raw * b.x.raw) == c1 * b.x.raw) by (nonlinear_arith)
        requires
            c1 == s * c.x.raw,
    ;
    assert(s * (c.y.raw * b.y.raw) == c2 * b.y.raw) by (nonlinear_arith)
        requires
            c2 == s * c.y.raw,
    ;
    assert(s * (c.z.raw * b.z.raw) == c3 * b.z.raw) by (nonlinear_arith)
        requires
            c3 == s * c.z.raw,
    ;
    assert(d == c1 * b.x.raw + c2 * b.y.raw + c3 * b.z.raw - s * e) by (nonlinear_arith)
        requires
            s * dot == c.x.raw * b.x.raw + c.y.raw * b.y.raw + c.z.raw * b.z.raw - e,
            d == s * (s * dot),
            s * (c.x.raw * b.x.raw) == c1 * b.x.raw,
            s * (c.y.raw * b.y.raw) == c2 * b.y.raw,
            s * (c.z.raw * b.z.raw) == c3 * b.z.raw,
    ;
    lemma_cross_of_integers(
        a.x.raw as int,
        a.y.raw as int,
        a.z.raw as int,
        b.x.raw as int,
        b.y.raw as int,
        b.z.raw as int,
        s,
        e1,
        e2,
        e3,
        c1,
        c2,
        c3,
        e,
        d,
    );
    assert(-9 <= dot <= 9) by (nonlinear_arith)
        requires
            d == s * (s * dot),
            d <= 2 * s * (magnitude(b.x.raw as int) + magnitude(b.y.raw as int) + magnitude(
                b.z.raw as int,
            )) + 3 * (s * s),
            -d <= 2 * s * (magnitude(b.x.raw as int) + magnitude(b.y.raw as int) + magnitude(
                b.z.raw as int,
            )) + 3 * (s * s),
            magnitude(b.x.raw as int) <= s + 8,
            magnitude(b.y.raw as int) <= s + 8,
            magnitude(b.z.raw as int) <= s + 8,
            s == 0x1_0000_0000,
    {
        let bound = 2 * s * (3 * s + 24) + 3 * (s * s);
        assert(bound < 10 * (s * s));
        if dot >= 10 {
            assert(s * (s * dot) >= 10 * (s * s));
        }
        if dot <= -10 {
            assert(s * (s * dot) <= -10 * (s * s));
        }
    }
    // The other way round the cross product is the opposite vector.
    lemma_mul_neg(b.x, c.x);
    lemma_mul_neg(b.y, c.y);
    lemma_mul_neg(b.z, c.z);
}

/// Scaling a vector to unit length keeps it nearly at right angles to what
/// it was nearly at right angles to, in integers.
///
/// `sum` is the exact dot product of the vector and a short vector whose
/// magnitudes add up to `reach`, `len` the length of the stretched vector,
/// at least half of `k`, which is `s` times the stretch, and `d` is
/// `len * s` times the dot product of the scaled vector and the short one:
/// `k * sum` less what the rounding of three quotients, `r` in all, and of
/// three products, `e` in all, took away.
pub proof fn lemma_scaled_dot_of_integers(
    sum: int,
    len: int,
    s: int,
    k: int,
    r: int,
    e: int,
    reach: int,
    d: int,
    dot: int,
)
    requires
        64 <= s <= k <= 2 * len,
        -12 * s < sum < 12 * s,
        0 <= reach <= 3 * s + 24,
        -(len * reach) <= r <= len * reach,
        -3 * s < e < 3 * s,
        d == k * sum - r - len * e,
        d == (len * s) * dot,
    ensures
        -30 <= dot <= 30,
{
    assert(-31 * (len * s) < d < 31 * (len * s)) by (nonlinear_arith)
        requires
            64 <= s <= k <= 2 * len,
            -12 * s < sum < 12 * s,
            0 <= reach <= 3 * s + 24,
            -(len * reach) <= r <= len * reach,
            -3 * s < e < 3 * s,
            d == k * sum - r - len * e,
    {
        assert(-12 * (k * s) < k * sum < 12 * (k * s));
        assert(k * s <= (2 * len) * s);
        assert(len * reach <= len * (3 * s + 24));
        assert(len * (3 * s + 24) == 3 * (len * s) + 24 * len);
        assert(24 * len <= len * s);
        assert(-3 * (len * s) < len * e < 3 * (len * s));
    }
    assert(-30 <= dot <= 30) by (nonlinear_arith)
        requires
            -31 * (len * s) < d < 31 * (len * s),
            d == (len * s) * dot,
            0 < len * s,
    {
        if dot >= 31 {
            assert((len * s) * dot >= (len * s) * 31);
        }
        if dot <= -31 {
            assert((len * s) * dot <= (len * s) * (-31));
        }
    }
}

/// Each component of the unit vector, times the span of the vector, is the
/// stretched component times `2^32` less what the rounding took away.
pub proof fn lemma_unit_exact(v: Vector3)
    requires
        v.norm() > 0,
    ensures
        v.span() > 0,
        v.span() * v.unit().x.raw == v.x.raw * SCALE * v.stretch() - lost(
            v.x.raw * SCALE * v.stretch(),
            v.span(),
        ),
        v.span() * v.unit().y.raw == v.y.raw * SCALE * v.stretch() - lost(
            v.y.raw * SCALE * v.stretch(),
            v.span(),
        ),
        v.span() * v.unit().z.raw == v.z.raw * SCALE * v.stretch() - lost(
            v.z.raw * SCALE * v.stretch(),
            v.span(),
        ),
        -v.span() < lost(v.x.raw * SCALE * v.stretch(), v.span()) < v.span(),
        -v.span() < lost(v.y.raw * SCALE * v.stretch(), v.span()) < v.span(),
        -v.span() < lost(v.z.raw * SCALE * v.stretch(), v.span()) < v.span(),
{
    reveal(Vector3::spec_unit);
    let t = v.stretch();
    let d = v.span();
    lemma_span_positive(v);
    lemma_unit_length(v);
    lemma_unit_component(v.x, t, d);
    lemma_unit_component(v.y, t, d);
    lemma_unit_component(v.z, t, d);
    lemma_lost(v.x.raw * SCALE * t, d);
    lemma_lost(v.y.raw * SCALE * t, d);
    lemma_lost(v.z.raw * SCALE * t, d);
}

/// The root of a number times the square of `t` lies between the root of the
/// number times `t` and the next whole number times `t`.
pub proof fn lemma_stretched_root(n: int, t: int, low: int, d: int)
    requires
        1 <= t,
        is_root(n, low),
        is_root(n * (t * t), d),
    ensures
        low * t <= d < (low + 1) * t,
{
    assert(0 <= low * t && 0 < (low + 1) * t && (low * t) * (low * t) <= n * (t * t) && n * (t
        * t) < ((low + 1) * t) * ((low + 1) * t)) by (nonlinear_arith)
        requires
            0 <= low,
            low * low <= n < (low + 1) * (low + 1),
            1 <= t,
    {
        assert((low * t) * (low * t) == (low * low) * (t * t));
        assert(((low + 1) * t) * ((low + 1) * t) == ((low + 1) * (low + 1)) * (t * t));
        assert(0 < t * t);
        assert((low * low) * (t * t) <= n * (t * t));
        assert(n * (t * t) < ((low + 1) * (low + 1)) * (t * t));
    }
    if d < low * t {
        lemma_square_order(d + 1, low * t);
    }
    if d >= (low + 1) * t {
        lemma_square_order((low + 1) * t, d);
    }
}

/// The span of a vector that is at least 1/2 long is at least half of
/// `2^32` times the stretch.
pub proof fn lemma_span_of_long(v: Vector3)
    requires
        2 * v.len().raw >= SCALE,
    ensures
        v.norm() > 0,
        SCALE * v.stretch() <= 2 * v.span(),
{
    reveal(Vector3::spec_len);
    lemma_stretched_norm(v);
    lemma_root_exists(v.norm());
    let low = root(v.norm());
    let t = v.stretch();
    assert(2 * low >= SCALE);
    lemma_span_positive(v);
    lemma_stretched_root(v.norm(), t, low, v.span());
    assert(SCALE * t <= 2 * (low * t)) by (nonlinear_arith)
        requires
            2 * low >= SCALE,
            t >= 1,
    ;
}

/// A vector that is nearly at right angles to a unit vector stays so when
/// it is scaled to unit length: where the dot product of the two lies within
/// `9 / 2^32` of zero, that of the scaled vector and the unit vector lies
/// within `30 / 2^32`.
pub proof fn lemma_unit_keeps_right_angle(w: Vector3, f: Vector3)
    requires
        w.is_moderate(),
        2 * w.len().raw >= SCALE,
        is_short(f),
        -9 <= Vector3::dot(&w, &f).raw <= 9,
    ensures
        -30 <= Vector3::dot(&w.unit(), &f).raw <= 30,
{
    let s = SCALE as int;
    let len = w.span();
    let k = s * w.stretch();
    let u = w.unit();
    lemma_span_of_long(w);
    lemma_unit_length(w);
    lemma_unit_exact(w);
    assert(s <= k) by (nonlinear_arith)
        requires
            k == s * w.stretch(),
            w.stretch() >= 1,
            s >= 0,
    ;

    // The dot product of `w` and `f`, exactly.
    lemma_moderate_times_short(w.x, f.x);
    lemma_moderate_times_short(w.y, f.y);
    lemma_moderate_times_short(w.z, f.z);
    let sum = w.x.raw * f.x.raw + w.y.raw * f.y.raw + w.z.raw * f.z.raw;
    let dot_w = Vector3::dot(&w, &f).raw as int;
    assert(dot_w == w.x.mul(f.x).raw + w.y.mul(f.y).raw + w.z.mul(f.z).raw);
    assert(-12 * s < sum < 12 * s);

    // The components of the unit vector.
    let r1 = lost(w.x.raw * SCALE * w.stretch(), len);
    let r2 = lost(w.y.raw * SCALE * w.stretch(), len);
    let r3 = lost(w.z.raw * SCALE * w.stretch(), len);
    assert(w.x.raw * SCALE * w.stretch() == w.x.raw * k && w.y.raw * SCALE * w.stretch() == w.y.raw
        * k && w.z.raw * SCALE * w.stretch() == w.z.raw * k) by (nonlinear_arith)
        requires
            k == s * w.stretch(),
            s == SCALE,
    ;
    let r = r1 * f.x.raw + r2 * f.y.raw + r3 * f.z.raw;
    let reach = magnitude(f.x.raw as int) + magnitude(f.y.raw as int) + magnitude(f.z.raw as int);
    lemma_bounded_product(r1, f.x.raw as int, len);
    lemma_bounded_product(r2, f.y.raw as int, len);
    lemma_bounded_product(r3, f.z.raw as int, len);
    assert(len * reach == len * magnitude(f.x.raw as int) + len * magnitude(f.y.raw as int) + len
        * magnitude(f.z.raw as int)) by (nonlinear_arith)
        requires
            reach == magnitude(f.x.raw as int) + magnitude(f.y.raw as int) + magnitude(
                f.z.raw as int,
            ),
    ;

    // The dot product of the unit vector and `f`.
    lemma_small_times_short(u.x, f.x);
    lemma_small_times_short(u.y, f.y);
    lemma_small_times_short(u.z, f.z);
    let dot = Vector3::dot(&u, &f).raw as int;
    assert(dot == u.x.mul(f.x).raw + u.y.mul(f.y).raw + u.z.mul(f.z).raw);
    let e = lost(u.x.raw * f.x.raw, s) + lost(u.y.raw * f.y.raw, s) + lost(u.z.raw * f.z.raw, s);
    assert(s * dot == u.x.raw * f.x.raw + u.y.raw * f.y.raw + u.z.raw * f.z.raw - e);
    let d = (len * s) * dot;
    assert(len * (u.x.raw * f.x.raw) == (w.x.raw * k - r1) * f.x.raw) by (nonlinear_arith)
        requires
            len * u.x.raw == w.x.raw * k - r1,
    ;
    assert(len * (u.y.raw * f.y.raw) == (w.y.raw * k - r2) * f.y.raw) by (nonlinear_arith)
        requires
            len * u.y.raw == w.y.raw * k - r2,
    ;
    assert(len * (u.z.raw * f.z.raw) == (w.z.raw * k - r3) * f.z.raw) by (nonlinear_arith)
        requires
            len * u.z.raw == w.z.raw * k - r3,
    ;
    assert(d == k * sum - r - len * e) by (nonlinear_arith)
        requires
            d == (len * s) * dot,
            s * dot == u.x.raw * f.x.raw + u.y.raw * f.y.raw + u.z.raw * f.z.raw - e,
            len * (u.x.raw * f.x.raw) == (w.x.raw * k - r1) * f.x.raw,
            len * (u.y.raw * f.y.raw) == (w.y.raw * k - r2) * f.y.raw,
            len * (u.z.raw * f.z.raw) == (w.z.raw * k - r3) * f.z.raw,
            sum == w.x.raw * f.x.raw + w.y.raw * f.y.raw + w.z.raw * f.z.raw,
            r == r1 * f.x.raw + r2 * f.y.raw + r3 * f.z.raw,
    {
        assert((len * s) * dot == len * (s * dot));
        assert(len * (s * dot) == len * (u.x.raw * f.x.raw) + len * (u.y.raw * f.y.raw) + len * (
        u.z.raw * f.z.raw) - len * e);
        assert((w.x.raw * k - r1) * f.x.raw == k * (w.x.raw * f.x.raw) - r1 * f.x.raw);
        assert((w.y.raw * k - r2) * f.y.raw == k * (w.y.raw * f.y.raw) - r2 * f.y.raw);
        assert((w.z.raw * k - r3) * f.z.raw == k * (w.z.raw * f.z.raw) - r3 * f.z.raw);
    }
    lemma_scaled_dot_of_integers(sum, len, s, k, r, e, reach, d, dot);
}

/// The product of a number of moderate size and a short one.
proof fn lemma_moderate_times_short(x: Fixed, y: Fixed)
    requires
        -COMPONENT_MAX <= x.raw <= COMPONENT_MAX,
        -(SCALE + 8) <= y.raw <= SCALE + 8,
    ensures
        SCALE * x.mul(y).raw == x.raw * y.raw - lost(x.raw * y.raw, SCALE as int),
        -SCALE < lost(x.raw * y.raw, SCALE as int) < SCALE,
        -2 * COMPONENT_MAX <= x.mul(y).raw <= 2 * COMPONENT_MAX,
{
    let p = x.raw * y.raw;
    assert(-2 * COMPONENT_MAX * SCALE + SCALE <= p <= 2 * COMPONENT_MAX * SCALE - SCALE)
        by (nonlinear_arith)
        requires
            p == x.raw * y.raw,
            -0x4000_0000_0000 <= x.raw <= 0x4000_0000_0000,
            -0x1_0000_0008 <= y.raw <= 0x1_0000_0008,
            SCALE == 0x1_0000_0000,
            COMPONENT_MAX == 0x4000_0000_0000,
    ;
    lemma_product_exact(x, y);
    lemma_lost(p, SCALE as int);
    let q = x.mul(y).raw as int;
    assert(-2 * COMPONENT_MAX <= q <= 2 * COMPONENT_MAX) by (nonlinear_arith)
        requires
            SCALE * q == p - lost(p, SCALE as int),
            -SCALE < lost(p, SCALE as int) < SCALE,
            -2 * COMPONENT_MAX * SCALE + SCALE <= p <= 2 * COMPONENT_MAX * SCALE - SCALE,
            SCALE == 0x1_0000_0000,
    ;
}

/// Lagrange's identity: the squared length of a cross product is the product
/// of the squared lengths less the square of the dot product.
pub proof fn lemma_lagrange(a1: int, a2: int, a3: int, b1: int, b2: int, b3: int)
    ensures
        (a2 * b3 - a3 * b2) * (a2 * b3 - a3 * b2) + (a3 * b1 - a1 * b3) * (a3 * b1 - a1 * b3) + (a1
            * b2 - a2 * b1) * (a1 * b2 - a2 * b1) == (a1 * a1 + a2 * a2 + a3 * a3) * (b1 * b1 + b2
            * b2 + b3 * b3) - (a1 * b1 + a2 * b2 + a3 * b3) * (a1 * b1 + a2 * b2 + a3 * b3),
{
    let p11 = a1 * b1;
    let p12 = a1 * b2;
    let p13 = a1 * b3;
    let p21 = a2 * b1;
    let p22 = a2 * b2;
    let p23 = a2 * b3;
    let p31 = a3 * b1;
    let p32 = a3 * b2;
    let p33 = a3 * b3;
    // The squares of the sides.
    assert((a1 * a1) * (b1 * b1) == p11 * p11 && (a1 * a1) * (b2 * b2) == p12 * p12 && (a1 * a1) * (
    b3 * b3) == p13 * p13) by (nonlinear_arith)
        requires
            p11 == a1 * b1,
            p12 == a1 * b2,
            p13 == a1 * b3,
    ;
    assert((a2 * a2) * (b1 * b1) == p21 * p21 && (a2 * a2) * (b2 * b2) == p22 * p22 && (a2 * a2) * (
    b3 * b3) == p23 * p23) by (nonlinear_arith)
        requires
            p21 == a2 * b1,
            p22 == a2 * b2,
            p23 == a2 * b3,
    ;
    assert((a3 * a3) * (b1 * b1) == p31 * p31 && (a3 * a3) * (b2 * b2) == p32 * p32 && (a3 * a3) * (
    b3 * b3) == p33 * p33) by (nonlinear_arith)
        requires
            p31 == a3 * b1,
            p32 == a3 * b2,
            p33 == a3 * b3,
    ;
    // The mixed products.
    assert(p23 * p32 == p22 * p33 && p31 * p13 == p11 * p33 && p12 * p21 == p11 * p22)
        by (nonlinear_arith)
        requires
            p11 == a1 * b1,
            p12 == a1 * b2,
            p13 == a1 * b3,
            p21 == a2 * b1,
            p22 == a2 * b2,
            p23 == a2 * b3,
            p31 == a3 * b1,
            p32 == a3 * b2,
            p33 == a3 * b3,
    ;
    let na = a1 * a1 + a2 * a2 + a3 * a3;
    let nb = b1 * b1 + b2 * b2 + b3 * b3;
    lemma_product_of_sums(a1 * a1, a2 * a2, a3 * a3, b1 * b1, b2 * b2, b3 * b3);
    assert((p11 + p22 + p33) * (p11 + p22 + p33) == p11 * p11 + p22 * p22 + p33 * p33 + 2 * (p11
        * p22) + 2 * (p11 * p33) + 2 * (p22 * p33)) by (nonlinear_arith);
    assert((p23 - p32) * (p23 - p32) == p23 * p23 + p32 * p32 - 2 * (p23 * p32))
        by (nonlinear_arith);
    assert((p31 - p13) * (p31 - p13) == p31 * p31 + p13 * p13 - 2 * (p31 * p13))
        by (nonlinear_arith);
    assert((p12 - p21) * (p12 - p21) == p12 * p12 + p21 * p21 - 2 * (p12 * p21))
        by (nonlinear_arith);
}

/// The squared length of the cross product of two unit vectors that are at
/// right angles, in integers.
///
/// `na` and `nb` are the exact squared lengths of the two vectors and `dd`
/// their exact dot product; `x1`, `x2`, `x3` are the exact components of the
/// cross product and `c1`, `c2`, `c3` the rounded ones, `cs` the sum of
/// their squares and `q` that sum over `s`, rounded down.
pub proof fn lemma_cross_length_of_integers(
    s: int,
    na: int,
    nb: int,
    dd: int,
    x1: int,
    x2: int,
    x3: int,
    e1: int,
    e2: int,
    e3: int,
    c1: int,
    c2: int,
    c3: int,
    cs: int,
    q: int,
)
    requires
        4096 <= s,
        s * s - 11 * s <= na < s * s + 21 * s,
        s * s - 11 * s <= nb < s * s + 21 * s,
        -33 * s < dd < 33 * s,
        x1 * x1 + x2 * x2 + x3 * x3 == na * nb - dd * dd,
        -2 * s < e1 < 2 * s,
        -2 * s < e2 < 2 * s,
        -2 * s < e3 < 2 * s,
        s * c1 == x1 - e1,
        s * c2 == x2 - e2,
        s * c3 == x3 - e3,
        cs == c1 * c1 + c2 * c2 + c3 * c3,
        q * s <= cs < q * s + 3 * s,
    ensures
        s - 37 <= q <= s + 54,
{
    let t = s * s;
    let xs = x1 * x1 + x2 * x2 + x3 * x3;
    let top = t + 21 * s;
    // The exact squared length of the cross product.
    assert(0 <= t - 11 * s) by (nonlinear_arith)
        requires
            t == s * s,
            4096 <= s,
    ;
    assert(na * nb < top * top && (t - 11 * s) * (t - 11 * s) <= na * nb) by (nonlinear_arith)
        requires
            t - 11 * s <= na < top,
            t - 11 * s <= nb < top,
            0 <= t - 11 * s,
    ;
    assert(0 <= dd * dd < 1089 * t) by (nonlinear_arith)
        requires
            -33 * s < dd < 33 * s,
            t == s * s,
            0 < s,
    {
        if dd >= 0 {
            assert(dd * dd <= dd * (33 * s));
            assert(dd * (33 * s) < (33 * s) * (33 * s));
        } else {
            assert(dd * dd <= (-dd) * (33 * s));
            assert((-dd) * (33 * s) < (33 * s) * (33 * s));
        }
    }
    assert((t - 11 * s) * (t - 11 * s) == t * t - 22 * (s * t) + 121 * t) by (nonlinear_arith)
        requires
            t == s * s,
    ;
    assert(top * top == t * t + 42 * (s * t) + 441 * t) by (nonlinear_arith)
        requires
            top == t + 21 * s,
            t == s * s,
    ;
    assert(t * t - 22 * (s * t) - 968 * t < xs < t * t + 42 * (s * t) + 441 * t);

    // The components, and what the rounding took away.
    assert(0 <= x1 * x1 && 0 <= x2 * x2 && 0 <= x3 * x3) by (nonlinear_arith);
    assert(-top < x1 < top) by {
        if x1 >= top {
            lemma_square_order(top, x1);
        }
        if x1 <= -top {
            lemma_square_order(top, -x1);
            assert((-x1) * (-x1) == x1 * x1) by (nonlinear_arith);
        }
    }
    assert(-top < x2 < top) by {
        if x2 >= top {
            lemma_square_order(top, x2);
        }
        if x2 <= -top {
            lemma_square_order(top, -x2);
            assert((-x2) * (-x2) == x2 * x2) by (nonlinear_arith);
        }
    }
    assert(-top < x3 < top) by {
        if x3 >= top {
            lemma_square_order(top, x3);
        }
        if x3 <= -top {
            lemma_square_order(top, -x3);
            assert((-x3) * (-x3) == x3 * x3) by (nonlinear_arith);
        }
    }
    lemma_bounded_product(e1, x1, 2 * s);
    lemma_bounded_product(e2, x2, 2 * s);
    lemma_bounded_product(e3, x3, 2 * s);
    assert((2 * s) * magnitude(x1) <= (2 * s) * top && (2 * s) * magnitude(x2) <= (2 * s) * top
        && (2 * s) * magnitude(x3) <= (2 * s) * top) by (nonlinear_arith)
        requires
            magnitude(x1) <= top,
            magnitude(x2) <= top,
            magnitude(x3) <= top,
            0 < s,
    ;
    assert((2 * s) * top == 2 * (s * t) + 42 * t) by (nonlinear_arith)
        requires
            top == t + 21 * s,
            t == s * s,
    ;
    let mixed = e1 * x1 + e2 * x2 + e3 * x3;
    assert(-(6 * (s * t) + 126 * t) <= mixed <= 6 * (s * t) + 126 * t);
    let slack = e1 * e1 + e2 * e2 + e3 * e3;
    assert(0 <= slack < 12 * t) by (nonlinear_arith)
        requires
            slack == e1 * e1 + e2 * e2 + e3 * e3,
            -2 * s < e1 < 2 * s,
            -2 * s < e2 < 2 * s,
            -2 * s < e3 < 2 * s,
            t == s * s,
    {
        assert(e1 * e1 < 4 * (s * s));
        assert(e2 * e2 < 4 * (s * s));
        assert(e3 * e3 < 4 * (s * s));
    }

    // The rounded squared length.
    assert((s * c1) * (s * c1) == x1 * x1 - 2 * (e1 * x1) + e1 * e1) by (nonlinear_arith)
        requires
            s * c1 == x1 - e1,
    ;
    assert((s * c2) * (s * c2) == x2 * x2 - 2 * (e2 * x2) + e2 * e2) by (nonlinear_arith)
        requires
            s * c2 == x2 - e2,
    ;
    assert((s * c3) * (s * c3) == x3 * x3 - 2 * (e3 * x3) + e3 * e3) by (nonlinear_arith)
        requires
            s * c3 == x3 - e3,
    ;
    assert((s * c1) * (s * c1) == t * (c1 * c1) && (s * c2) * (s * c2) == t * (c2 * c2) && (s * c3)
        * (s * c3) == t * (c3 * c3)) by (nonlinear_arith)
        requires
            t == s * s,
    ;
    assert(t * cs == t * (c1 * c1) + t * (c2 * c2) + t * (c3 * c3)) by (nonlinear_arith)
        requires
            cs == c1 * c1 + c2 * c2 + c3 * c3,
    ;
    assert(t * cs == xs - 2 * mixed + slack);
    assert(t * t - 34 * (s * t) - 1220 * t < t * cs < t * t + 54 * (s * t) + 705 * t);
    assert(s - 37 <= q <= s + 54) by (nonlinear_arith)
        requires
            t * t - 34 * (s * t) - 1220 * t < t * cs < t * t + 54 * (s * t) + 705 * t,
            q * s <= cs < q * s + 3 * s,
            t == s * s,
            4096 <= s,
    {
        assert(t * (q * s) <= t * cs);
        assert(t * cs < t * (q * s + 3 * s));
        if q >= s + 55 {
            assert(q * s >= (s + 55) * s);
            assert(t * (q * s) >= t * ((s + 55) * s));
            assert(t * ((s + 55) * s) == t * t + 55 * (s * t));
            assert(705 * t < s * t);
        }
        if q <= s - 38 {
            assert(q * s + 3 * s <= (s - 35) * s);
            assert(t * (q * s + 3 * s) <= t * ((s - 35) * s));
            assert(t * ((s - 35) * s) == t * t - 35 * (s * t));
            assert(1220 * t < s * t);
        }
    }
}

/// The exact squared length of a short vector, whose rounded squared length
/// lies between `1 - 11 / 2^32` and `1 + 18 / 2^32`.
pub proof fn lemma_exact_length(a: Vector3)
    requires
        is_nearly_unit(a),
    ensures
        SCALE * SCALE - 11 * SCALE <= a.x.raw * a.x.raw + a.y.raw * a.y.raw + a.z.raw * a.z.raw
            < SCALE * SCALE + 21 * SCALE,
{
    let s = SCALE as int;
    lemma_square_raw(a.x);
    lemma_square_raw(a.y);
    lemma_square_raw(a.z);
    let m1 = magnitude(a.x.raw as int);
    let m2 = magnitude(a.y.raw as int);
    let m3 = magnitude(a.z.raw as int);
    assert(m1 * m1 == a.x.raw * a.x.raw && m2 * m2 == a.y.raw * a.y.raw && m3 * m3 == a.z.raw
        * a.z.raw && 0 <= m1 * m1 && 0 <= m2 * m2 && 0 <= m3 * m3) by (nonlinear_arith)
        requires
            m1 == magnitude(a.x.raw as int),
            m2 == magnitude(a.y.raw as int),
            m3 == magnitude(a.z.raw as int),
    ;
    lemma_floor_bounds(m1 * m1, s);
    lemma_floor_bounds(m2 * m2, s);
    lemma_floor_bounds(m3 * m3, s);
    let q = a.len_sq().raw as int;
    assert(q == (m1 * m1) / s + (m2 * m2) / s + (m3 * m3) / s);
    assert(q * s == ((m1 * m1) / s) * s + ((m2 * m2) / s) * s + ((m3 * m3) / s) * s)
        by (nonlinear_arith)
        requires
            q == (m1 * m1) / s + (m2 * m2) / s + (m3 * m3) / s,
    ;
    assert((s - 11) * s <= q * s <= (s + 18) * s) by (nonlinear_arith)
        requires
            s - 11 <= q <= s + 18,
            0 < s,
    ;
}

/// The cross product of two unit vectors at right angles is nearly a unit
/// vector: where the dot product of the two lies within `30 / 2^32` of zero,
/// the squared length of their cross product lies between `1 - 37 / 2^32`
/// and `1 + 54 / 2^32`.
pub proof fn lemma_cross_of_units(a: Vector3, b: Vector3)
    requires
        is_nearly_unit(a),
        is_nearly_unit(b),
        -30 <= Vector3::dot(&a, &b).raw <= 30,
    ensures
        SCALE - 37 <= a.cross(&b).len_sq().raw <= SCALE + 54,
{
    let s = SCALE as int;
    let c = a.cross(&b);
    lemma_exact_length(a);
    lemma_exact_length(b);
    let na = a.x.raw * a.x.raw + a.y.raw * a.y.raw + a.z.raw * a.z.raw;
    let nb = b.x.raw * b.x.raw + b.y.raw * b.y.raw + b.z.raw * b.z.raw;

    // The exact dot product.
    lemma_small_times_short(a.x, b.x);
    lemma_small_times_short(a.y, b.y);
    lemma_small_times_short(a.z, b.z);
    let dd = a.x.raw * b.x.raw + a.y.raw * b.y.raw + a.z.raw * b.z.raw;
    let dot = Vector3::dot(&a, &b).raw as int;
    assert(dot == a.x.mul(b.x).raw + a.y.mul(b.y).raw + a.z.mul(b.z).raw);
    assert(-33 * s < dd < 33 * s);

    // The cross product, exact and rounded.
    lemma_small_times_short(a.y, b.z);
    lemma_small_times_short(a.z, b.y);
    lemma_small_times_short(a.z, b.x);
    lemma_small_times_short(a.x, b.z);
    lemma_small_times_short(a.x, b.y);
    lemma_small_times_short(a.y, b.x);
    let x1 = a.y.raw * b.z.raw - a.z.raw * b.y.raw;
    let x2 = a.z.raw * b.x.raw - a.x.raw * b.z.raw;
    let x3 = a.x.raw * b.y.raw - a.y.raw * b.x.raw;
    let e1 = lost(a.y.raw * b.z.raw, s) - lost(a.z.raw * b.y.raw, s);
    let e2 = lost(a.z.raw * b.x.raw, s) - lost(a.x.raw * b.z.raw, s);
    let e3 = lost(a.x.raw * b.y.raw, s) - lost(a.y.raw * b.x.raw, s);
    assert(c.x.raw == a.y.mul(b.z).raw - a.z.mul(b.y).raw);
    assert(c.y.raw == a.z.mul(b.x).raw - a.x.mul(b.z).raw);
    assert(c.z.raw == a.x.mul(b.y).raw - a.y.mul(b.x).raw);
    assert(s * c.x.raw == x1 - e1);
    assert(s * c.y.raw == x2 - e2);
    assert(s * c.z.raw == x3 - e3);
    lemma_lagrange(
        a.x.raw as int,
        a.y.raw as int,
        a.z.raw as int,
        b.x.raw as int,
        b.y.raw as int,
        b.z.raw as int,
    );
    assert(x1 * x1 + x2 * x2 + x3 * x3 == na * nb - dd * dd);

    // The rounded squared length.
    lemma_square_raw(c.x);
    lemma_square_raw(c.y);
    lemma_square_raw(c.z);
    let m1 = magnitude(c.x.raw as int);
    let m2 = magnitude(c.y.raw as int);
    let m3 = magnitude(c.z.raw as int);
    assert(m1 * m1 == c.x.raw * c.x.raw && m2 * m2 == c.y.raw * c.y.raw && m3 * m3 == c.z.raw
        * c.z.raw && 0 <= m1 * m1 && 0 <= m2 * m2 && 0 <= m3 * m3) by (nonlinear_arith)
        requires
            m1 == magnitude(c.x.raw as int),
            m2 == magnitude(c.y.raw as int),
            m3 == magnitude(c.z.raw as int),
    ;
    lemma_floor_bounds(m1 * m1, s);
    lemma_floor_bounds(m2 * m2, s);
    lemma_floor_bounds(m3 * m3, s);
    let q = c.len_sq().raw as int;
    let cs = c.x.raw * c.x.raw + c.y.raw * c.y.raw + c.z.raw * c.z.raw;
    assert(q == (m1 * m1) / s + (m2 * m2) / s + (m3 * m3) / s);
    assert(q * s == ((m1 * m1) / s) * s + ((m2 * m2) / s) * s + ((m3 * m3) / s) * s)
        by (nonlinear_arith)
        requires
            q == (m1 * m1) / s + (m2 * m2) / s + (m3 * m3) / s,
    ;
    lemma_cross_length_of_integers(
        s,
        na,
        nb,
        dd,
        x1,
        x2,
        x3,
        e1,
        e2,
        e3,
        c.x.raw as int,
        c.y.raw as int,
        c.z.raw as int,
        cs,
        q,
    );
}

/// The dot product of two short vectors is the same either way round.
pub proof fn lemma_dot_commutes(a: Vector3, b: Vector3)
    requires
        is_short(a),
        is_short(b),
    ensures
        Vector3::dot(&a, &b) == Vector3::dot(&b, &a),
{
    lemma_small_times_short(a.x, b.x);
    lemma_small_times_short(a.y, b.y);
    lemma_small_times_short(a.z, b.z);
}

} // verus!
