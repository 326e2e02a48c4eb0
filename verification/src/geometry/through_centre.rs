//! Where a ray that passes through the centre of a sphere hits the sphere,
//! and how close that lies to where it would without rounding.
use super::accuracy::{
    is_nearly_unit, lemma_bounded_product, lemma_exact_length, lemma_lost, lemma_square_order,
    lemma_stretched_root, lemma_unit_exact, lost, magnitude, within,
};
use super::hit_accuracy::{is_bounded, lemma_bounded_mul, lemma_radial_raw};
use super::hittable::Hittable;
use super::ray::Ray;
use super::refraction::lemma_scaled_normal_component;
use super::sphere::Sphere;
use super::vector3::{lemma_span_positive, Vector3};
use crate::fixed::{lemma_root_exists, quotient, root, Fixed, SCALE};
use vstd::prelude::*;

verus! {

/// The coefficients of the equation of the hit for a ray through the centre,
/// in integers: for a distance of at most `n`, half the middle coefficient
/// lies within `21 n + 7` of the distance to the centre, turned round, and
/// the square of it lies within `(3 n^2 + 6 n + 8) s` of the product of the
/// other two coefficients, before the radius comes in.
///
/// `k` is the distance to the centre, `nd` the exact squared length of the
/// direction, `mix` and `sum_e` the sums over what the rounding of the
/// vector to the centre took away. `b` is half the middle coefficient, `a`
/// the squared length of the direction and `w` that of the vector to the
/// centre, all rounded, with `e_b`, `e_a`, `e_w` taken away by the rounding.
pub proof fn lemma_centre_coefficients(
    s: int,
    n: int,
    k: int,
    nd: int,
    mix: int,
    sum_e: int,
    sum_dk: int,
    sum_k: int,
    b: int,
    e_b: int,
    a: int,
    e_a: int,
    w: int,
    e_w: int,
)
    requires
        s == 0x1_0000_0000,
        1 <= n <= 128,
        0 <= k <= n * s,
        s * s - 11 * s <= nd < s * s + 21 * s,
        -3 * (s * (s + 8)) <= mix <= 3 * (s * (s + 8)),
        0 <= sum_e < 3 * (s * s),
        s * sum_dk == k * nd - mix,
        (s * s) * sum_k == (k * k) * nd - 2 * (k * mix) + sum_e,
        s * b == -sum_dk - e_b,
        -3 * s < e_b < 3 * s,
        s * a == nd - e_a,
        0 <= e_a < 3 * s,
        s * w == sum_k - e_w,
        0 <= e_w < 3 * s,
    ensures
        -(21 * n + 7) <= b + k <= 21 * n + 7,
        s - 14 <= a <= s + 21,
        -((3 * (n * n) + 6 * n + 8) * s) <= b * b - a * w <= (3 * (n * n) + 6 * n + 8) * s,
{
    let ss = s * s;
    let sss = ss * s;
    let nn = n * n;
    let c1 = 21 * n + 7;
    let c2 = 3 * nn + 6 * n + 8;
    assert(1 <= nn <= 16384) by (nonlinear_arith)
        requires
            nn == n * n,
            1 <= n <= 128,
    ;
    // Half the middle coefficient.
    let u = mix - s * e_b;
    assert(ss * b == -(k * nd) + u) by (nonlinear_arith)
        requires
            s * b == -sum_dk - e_b,
            s * sum_dk == k * nd - mix,
            u == mix - s * e_b,
            ss == s * s,
    {
        assert(s * (s * b) == s * (-sum_dk - e_b));
        assert(s * (-sum_dk - e_b) == -(s * sum_dk) - s * e_b);
    }
    assert(-7 * ss <= u <= 7 * ss) by (nonlinear_arith)
        requires
            u == mix - s * e_b,
            -3 * (s * (s + 8)) <= mix <= 3 * (s * (s + 8)),
            -3 * s < e_b < 3 * s,
            ss == s * s,
            s == 0x1_0000_0000,
    {
        assert(3 * (s * (s + 8)) <= 4 * (s * s));
        assert(-3 * (s * s) <= s * e_b <= 3 * (s * s));
    }
    assert(ss * (b + k) == -(k * (nd - ss)) + u) by (nonlinear_arith)
        requires
            ss * b == -(k * nd) + u,
    ;
    lemma_bounded_product(nd - ss, k, 21 * s);
    assert(-(c1 * ss) <= ss * (b + k) <= c1 * ss) by (nonlinear_arith)
        requires
            ss * (b + k) == -(k * (nd - ss)) + u,
            -((21 * s) * magnitude(k)) <= (nd - ss) * k <= (21 * s) * magnitude(k),
            0 <= k <= n * s,
            -7 * ss <= u <= 7 * ss,
            c1 == 21 * n + 7,
            ss == s * s,
            0 < s,
    {
        assert((21 * s) * magnitude(k) <= (21 * s) * (n * s));
        assert((21 * s) * (n * s) == (21 * n) * ss);
        assert(c1 * ss == (21 * n) * ss + 7 * ss);
        assert(k * (nd - ss) == (nd - ss) * k);
    }
    assert(-c1 <= b + k <= c1) by (nonlinear_arith)
        requires
            -(c1 * ss) <= ss * (b + k) <= c1 * ss,
            0 < ss,
    {
        if b + k >= c1 + 1 {
            assert(ss * (b + k) >= ss * (c1 + 1));
            assert(ss * (c1 + 1) == c1 * ss + ss);
        }
        if b + k <= -c1 - 1 {
            assert(ss * (b + k) <= ss * (-c1 - 1));
            assert(ss * (-c1 - 1) == -(c1 * ss) - ss);
        }
    }
    // The squared length of the direction.
    assert(s - 14 <= a <= s + 21) by (nonlinear_arith)
        requires
            s * a == nd - e_a,
            0 <= e_a < 3 * s,
            s * s - 11 * s <= nd < s * s + 21 * s,
            0 < s,
    {
        if a >= s + 22 {
            assert(s * a >= s * (s + 22));
        }
        if a <= s - 15 {
            assert(s * a <= s * (s - 15));
        }
    }
    // The square of the one against the product of the others.
    let z = -2 * (k * mix) + sum_e - ss * e_w;
    let qw = ss * (s * w);
    assert(qw == (k * k) * nd + z) by (nonlinear_arith)
        requires
            qw == ss * (s * w),
            s * w == sum_k - e_w,
            ss * sum_k == (k * k) * nd - 2 * (k * mix) + sum_e,
            z == -2 * (k * mix) + sum_e - ss * e_w,
    {
        assert(ss * (sum_k - e_w) == ss * sum_k - ss * e_w);
    }
    let p = ss * b;
    let qa = s * a;
    let kk = k * k;
    assert(p * p == (ss * ss) * (b * b)) by (nonlinear_arith)
        requires
            p == ss * b,
    ;
    assert(qa * qw == (ss * ss) * (a * w)) by (nonlinear_arith)
        requires
            qa == s * a,
            qw == ss * (s * w),
            ss == s * s,
    ;
    let knd = k * nd;
    assert(p * p == knd * knd - 2 * (knd * u) + u * u) by (nonlinear_arith)
        requires
            p == -knd + u,
    ;
    assert(qa * qw == nd * (kk * nd) + nd * z - e_a * (kk * nd) - e_a * z) by (nonlinear_arith)
        requires
            qa == nd - e_a,
            qw == kk * nd + z,
    ;
    assert(knd * knd == nd * (kk * nd)) by (nonlinear_arith)
        requires
            knd == k * nd,
            kk == k * k,
    ;
    // -2 knd u - nd z = nd (2 k s e_b - sum_e + ss e_w).
    let core = 2 * (k * (s * e_b)) - sum_e + ss * e_w;
    assert(-2 * (knd * u) - nd * z == nd * core) by (nonlinear_arith)
        requires
            knd == k * nd,
            u == mix - s * e_b,
            z == -2 * (k * mix) + sum_e - ss * e_w,
            core == 2 * (k * (s * e_b)) - sum_e + ss * e_w,
    {
        assert(knd * u == nd * (k * u));
        assert(k * u == k * mix - k * (s * e_b));
        assert(nd * z == nd * (-2 * (k * mix)) + nd * sum_e - nd * (ss * e_w));
        assert(nd * core == nd * (2 * (k * (s * e_b))) - nd * sum_e + nd * (ss * e_w));
        assert(nd * (k * u) == nd * (k * mix) - nd * (k * (s * e_b)));
        assert(nd * (-2 * (k * mix)) == -2 * (nd * (k * mix)));
        assert(nd * (2 * (k * (s * e_b))) == 2 * (nd * (k * (s * e_b))));
    }
    let y = b * b - a * w;
    assert((ss * ss) * y == nd * core + u * u + e_a * (kk * nd) + e_a * z) by (nonlinear_arith)
        requires
            y == b * b - a * w,
            p * p == (ss * ss) * (b * b),
            qa * qw == (ss * ss) * (a * w),
            p * p == knd * knd - 2 * (knd * u) + u * u,
            qa * qw == nd * (kk * nd) + nd * z - e_a * (kk * nd) - e_a * z,
            knd * knd == nd * (kk * nd),
            -2 * (knd * u) - nd * z == nd * core,
    {
        assert((ss * ss) * (b * b - a * w) == (ss * ss) * (b * b) - (ss * ss) * (a * w));
    }
    // The bounds of the terms.
    assert(-((6 * n) * sss) <= k * (s * e_b) * 2 <= (6 * n) * sss) by (nonlinear_arith)
        requires
            0 <= k <= n * s,
            -3 * s < e_b < 3 * s,
            sss == (s * s) * s,
            0 < s,
    {
        assert(-3 * (s * s) <= s * e_b <= 3 * (s * s));
        assert(k * (s * e_b) <= k * (3 * (s * s)));
        assert(k * (s * e_b) >= k * (-3 * (s * s)));
        assert(k * (3 * (s * s)) <= (n * s) * (3 * (s * s)));
        assert((n * s) * (3 * (s * s)) == (3 * n) * ((s * s) * s));
    }
    assert(0 <= ss * e_w <= 3 * sss) by (nonlinear_arith)
        requires
            0 <= e_w < 3 * s,
            sss == ss * s,
            0 < ss,
    ;
    assert(3 * ss <= sss) by (nonlinear_arith)
        requires
            sss == ss * s,
            0 < ss,
            s == 0x1_0000_0000,
    ;
    let top = (6 * n + 3) * sss;
    assert(top == (6 * n) * sss + 3 * sss) by (nonlinear_arith)
        requires
            top == (6 * n + 3) * sss,
    ;
    assert(-top <= core <= top);
    lemma_bounded_product(core, nd, top);
    assert(0 <= nd <= ss + 21 * s);
    let high = (6 * n + 4) * (ss * sss);
    assert(-high <= nd * core <= high) by (nonlinear_arith)
        requires
            -(top * magnitude(nd)) <= core * nd <= top * magnitude(nd),
            0 <= nd <= ss + 21 * s,
            top == (6 * n + 3) * sss,
            high == (6 * n + 4) * (ss * sss),
            1 <= n <= 128,
            sss == ss * s,
            ss == s * s,
            s == 0x1_0000_0000,
    {
        assert(0 <= top);
        assert(top * magnitude(nd) <= top * (ss + 21 * s));
        assert(top * (ss + 21 * s) == (6 * n + 3) * (ss * sss) + (21 * (6 * n + 3)) * (sss * s));
        assert(sss * s == ss * ss);
        assert(ss * sss == (ss * ss) * s);
        assert((21 * (6 * n + 3)) * (ss * ss) <= s * (ss * ss));
        assert(high == (6 * n + 3) * (ss * sss) + ss * sss);
        assert(nd * core == core * nd);
    }
    assert(0 <= u * u <= 49 * (ss * ss)) by (nonlinear_arith)
        requires
            -7 * ss <= u <= 7 * ss,
    {
        lemma_bounded_product(u, u, 7 * ss);
        assert((7 * ss) * magnitude(u) <= (7 * ss) * (7 * ss));
    }
    assert(0 <= kk <= nn * ss) by (nonlinear_arith)
        requires
            kk == k * k,
            0 <= k <= n * s,
            nn == n * n,
            ss == s * s,
    {
        assert(k * k <= k * (n * s));
        assert(k * (n * s) <= (n * s) * (n * s));
        assert((n * s) * (n * s) == (n * n) * (s * s));
    }
    assert(0 <= kk * nd <= (nn + 1) * (ss * ss)) by (nonlinear_arith)
        requires
            0 <= kk <= nn * ss,
            0 <= nd <= ss + 21 * s,
            1 <= nn <= 16384,
            ss == s * s,
            s == 0x1_0000_0000,
    {
        assert(kk * nd <= (nn * ss) * nd);
        assert((nn * ss) * nd <= (nn * ss) * (ss + 21 * s));
        assert((nn * ss) * (ss + 21 * s) == nn * (ss * ss) + (21 * nn) * (ss * s));
        assert((21 * nn) * (ss * s) <= s * (ss * s));
        assert(s * (ss * s) == ss * ss);
        assert((nn + 1) * (ss * ss) == nn * (ss * ss) + ss * ss);
    }
    let third = (3 * (nn + 1)) * (ss * sss);
    assert(0 <= e_a * (kk * nd) <= third) by (nonlinear_arith)
        requires
            0 <= e_a < 3 * s,
            0 <= kk * nd <= (nn + 1) * (ss * ss),
            third == (3 * (nn + 1)) * (ss * sss),
            sss == ss * s,
    {
        assert(e_a * (kk * nd) <= (3 * s) * (kk * nd));
        assert((3 * s) * (kk * nd) <= (3 * s) * ((nn + 1) * (ss * ss)));
        assert((3 * s) * ((nn + 1) * (ss * ss)) == (3 * (nn + 1)) * (ss * (ss * s)));
    }
    let wide = (6 * n + 4) * sss;
    assert(-wide <= z <= wide) by (nonlinear_arith)
        requires
            z == -2 * (k * mix) + sum_e - ss * e_w,
            0 <= k <= n * s,
            1 <= n <= 128,
            -3 * (s * (s + 8)) <= mix <= 3 * (s * (s + 8)),
            0 <= sum_e < 3 * ss,
            0 <= ss * e_w <= 3 * sss,
            3 * ss <= sss,
            wide == (6 * n + 4) * sss,
            sss == ss * s,
            ss == s * s,
            s == 0x1_0000_0000,
    {
        let m = 3 * (s * (s + 8));
        assert(k * mix <= k * m);
        assert(k * mix >= k * (-m));
        assert(k * m <= (n * s) * m);
        assert((n * s) * m == (3 * n) * sss + (24 * n) * ss);
        assert((48 * n) * ss <= sss);
        assert(wide == (6 * n) * sss + 4 * sss);
    }
    lemma_bounded_product(z, e_a, wide);
    let fourth = (18 * n + 12) * (ss * ss);
    assert(-fourth <= e_a * z <= fourth) by (nonlinear_arith)
        requires
            -(wide * magnitude(e_a)) <= z * e_a <= wide * magnitude(e_a),
            0 <= e_a < 3 * s,
            wide == (6 * n + 4) * sss,
            fourth == (18 * n + 12) * (ss * ss),
            1 <= n,
            sss == ss * s,
            ss == s * s,
            0 < ss,
    {
        assert(0 <= wide);
        assert(wide * magnitude(e_a) <= wide * (3 * s));
        assert(wide * (3 * s) == (18 * n + 12) * (ss * (s * s)));
        assert(e_a * z == z * e_a);
    }
    let unit = ss * sss;
    assert(49 * (ss * ss) + fourth <= unit) by (nonlinear_arith)
        requires
            fourth == (18 * n + 12) * (ss * ss),
            unit == ss * sss,
            1 <= n <= 128,
            sss == ss * s,
            ss == s * s,
            s == 0x1_0000_0000,
    {
        assert(ss * sss == (ss * ss) * s);
        assert(49 * (ss * ss) + (18 * n + 12) * (ss * ss) == (18 * n + 61) * (ss * ss));
        assert((18 * n + 61) * (ss * ss) <= s * (ss * ss));
    }
    assert(high + third + unit == c2 * unit) by (nonlinear_arith)
        requires
            high == (6 * n + 4) * unit,
            third == (3 * (nn + 1)) * unit,
            c2 == 3 * nn + 6 * n + 8,
    ;
    assert(-(c2 * unit) <= (ss * ss) * y <= c2 * unit);
    assert(-(c2 * s) <= y <= c2 * s) by (nonlinear_arith)
        requires
            -(c2 * unit) <= (ss * ss) * y <= c2 * unit,
            unit == ss * sss,
            sss == ss * s,
            0 < ss,
            0 <= c2,
    {
        assert(unit == (ss * ss) * s);
        assert(c2 * unit == (ss * ss) * (c2 * s));
        if y >= c2 * s + 1 {
            assert((ss * ss) * y >= (ss * ss) * (c2 * s + 1));
        }
        if y <= -(c2 * s) - 1 {
            assert((ss * ss) * y <= (ss * ss) * (-(c2 * s) - 1));
        }
    }
}

/// The discriminant of the equation of the hit for a ray through the centre,
/// in integers: for a distance of at most `n`, it lies within
/// `24 n^2 + 6 n + 10` of the square of the radius, and so above zero.
///
/// `rr` is the exact square of the radius, `r_sq` the rounded one; `h` is
/// the square of `b` and `m` the product of `a` and `w - r_sq`, rounded.
pub proof fn lemma_centre_discriminant(
    s: int,
    n: int,
    a: int,
    b: int,
    w: int,
    r: int,
    r_sq: int,
    e_r: int,
    h: int,
    e_h: int,
    m: int,
    e_m: int,
)
    requires
        s == 0x1_0000_0000,
        1 <= n <= 128,
        s - 14 <= a <= s + 21,
        -((3 * (n * n) + 6 * n + 8) * s) <= b * b - a * w <= (3 * (n * n) + 6 * n + 8) * s,
        s <= 4 * r,
        r <= n * s,
        s * r_sq == r * r - e_r,
        0 <= e_r < s,
        s * h == b * b - e_h,
        0 <= e_h < s,
        s * m == a * (w - r_sq) - e_m,
        -s < e_m < s,
    ensures
        -(24 * (n * n) + 6 * n + 10) <= (h - m) - r_sq <= 24 * (n * n) + 6 * n + 10,
        0 < h - m,
        r * r - (24 * (n * n) + 6 * n + 11) * s < (h - m) * s <= r * r + (24 * (n * n) + 6 * n
            + 10) * s,
{
    let delta = h - m;
    let nn = n * n;
    let c2 = 3 * nn + 6 * n + 8;
    let c3 = 24 * nn + 6 * n + 10;
    assert(1 <= nn <= 16384) by (nonlinear_arith)
        requires
            nn == n * n,
            1 <= n <= 128,
    ;
    assert(0 <= r_sq <= nn * s) by (nonlinear_arith)
        requires
            s * r_sq == r * r - e_r,
            0 <= e_r < s,
            0 < r <= n * s,
            nn == n * n,
            0 < s,
    {
        assert(r * r <= r * (n * s));
        assert(r * (n * s) <= (n * s) * (n * s));
        assert((n * s) * (n * s) == s * ((n * n) * s));
        assert(r * r >= 0);
        if r_sq >= nn * s + 1 {
            assert(s * r_sq >= s * (nn * s + 1));
        }
        if r_sq <= -1 {
            assert(s * r_sq <= s * (-1));
        }
    }
    assert(s * delta == (b * b - a * w) + a * r_sq - e_h + e_m) by (nonlinear_arith)
        requires
            delta == h - m,
            s * h == b * b - e_h,
            s * m == a * (w - r_sq) - e_m,
    {
        assert(a * (w - r_sq) == a * w - a * r_sq);
    }
    lemma_bounded_product(a - s, r_sq, 21);
    assert(a * r_sq == s * r_sq + (a - s) * r_sq) by (nonlinear_arith);
    assert(-(c3 * s) <= s * (delta - r_sq) <= c3 * s) by (nonlinear_arith)
        requires
            s * delta == (b * b - a * w) + a * r_sq - e_h + e_m,
            a * r_sq == s * r_sq + (a - s) * r_sq,
            -(21 * magnitude(r_sq)) <= (a - s) * r_sq <= 21 * magnitude(r_sq),
            0 <= r_sq <= nn * s,
            -(c2 * s) <= b * b - a * w <= c2 * s,
            0 <= e_h < s,
            -s < e_m < s,
            c3 == c2 + 21 * nn + 2,
    {
        assert(s * (delta - r_sq) == s * delta - s * r_sq);
        assert(21 * magnitude(r_sq) <= 21 * (nn * s));
        assert(c3 * s == c2 * s + 21 * (nn * s) + 2 * s);
    }
    assert(-c3 <= delta - r_sq <= c3) by (nonlinear_arith)
        requires
            -(c3 * s) <= s * (delta - r_sq) <= c3 * s,
            0 < s,
    {
        if delta - r_sq >= c3 + 1 {
            assert(s * (delta - r_sq) >= s * (c3 + 1));
            assert(s * (c3 + 1) == c3 * s + s);
        }
        if delta - r_sq <= -c3 - 1 {
            assert(s * (delta - r_sq) <= s * (-c3 - 1));
            assert(s * (-c3 - 1) == -(c3 * s) - s);
        }
    }
    assert(r_sq >= 0x800_0000) by (nonlinear_arith)
        requires
            s * r_sq == r * r - e_r,
            0 <= e_r < s,
            s <= 4 * r,
            s == 0x1_0000_0000,
    {
        assert(16 * (r * r) >= s * s);
        if r_sq < 0x800_0000 {
            assert(s * r_sq <= s * (0x800_0000 - 1));
        }
    }
    assert(c3 < 0x800_0000);
    assert(delta * s == s * r_sq + s * (delta - r_sq)) by (nonlinear_arith);
    assert((c3 + 1) * s == c3 * s + s) by (nonlinear_arith);
}

/// How far, in raw units, the parameter of the hit of a ray through the
/// centre may lie from the distance to the surface, for a centre no further
/// than `n` away: `72 n^2 + 60 n + 62`.
pub open spec fn centre_tolerance(n: int) -> int {
    72 * (n * n) + 60 * n + 62
}

/// The root of the discriminant and the smaller solution of the equation for
/// a ray through the centre, in integers: for a distance of at most `n`, the
/// root lies within `72 n^2 + 18 n + 33` of the radius, and the solution
/// within `72 n^2 + 60 n + 62` of the distance to the centre less the radius.
///
/// `delta_s` is `s` times the discriminant, `spread` its root rounded down,
/// and `t` the solution, `(-b - spread) * s / a` rounded toward zero.
pub proof fn lemma_centre_root(
    s: int,
    n: int,
    a: int,
    b: int,
    k: int,
    r: int,
    delta_s: int,
    spread: int,
    t: int,
    e_t: int,
)
    requires
        s == 0x1_0000_0000,
        1 <= n <= 128,
        s - 14 <= a <= s + 21,
        -(21 * n + 7) <= b + k <= 21 * n + 7,
        s <= 4 * r,
        r <= k <= n * s,
        r * r - (24 * (n * n) + 6 * n + 11) * s < delta_s <= r * r + (24 * (n * n) + 6 * n + 10)
            * s,
        0 <= spread,
        spread * spread <= delta_s < (spread + 1) * (spread + 1),
        a * t == (-b - spread) * s - e_t,
        -a < e_t < a,
    ensures
        -(72 * (n * n) + 18 * n + 33) <= spread - r <= 72 * (n * n) + 18 * n + 33,
        -centre_tolerance(n) <= t - (k - r) <= centre_tolerance(n),
{
    let rr = r * r;
    let nn = n * n;
    let c1 = 21 * n + 7;
    let c3 = 24 * nn + 6 * n + 10;
    let c4 = 72 * nn + 18 * n + 33;
    assert(1 <= nn <= 16384) by (nonlinear_arith)
        requires
            nn == n * n,
            1 <= n <= 128,
    ;
    assert(c4 == 3 * (c3 + 1));
    assert(0 < c4 <= 1182000);
    if spread >= r + c4 + 1 {
        lemma_square_order(r + c4 + 1, spread);
        assert((r + c4 + 1) * (r + c4 + 1) > rr + c3 * s) by (nonlinear_arith)
            requires
                rr == r * r,
                s <= 4 * r,
                c4 == 3 * (c3 + 1),
                0 < c3,
                0 < s,
        {
            assert((r + c4 + 1) * (r + c4 + 1) == rr + 2 * (r * (c4 + 1)) + (c4 + 1) * (c4 + 1));
            assert((c4 + 1) * (c4 + 1) > 0);
            assert(4 * (r * (c4 + 1)) >= s * (c4 + 1));
            assert(s * (c4 + 1) >= s * (3 * c3));
            assert(s * (3 * c3) == 3 * (c3 * s));
            assert(c3 * s > 0);
        }
    }
    if spread <= r - c4 - 1 {
        lemma_square_order(spread + 1, r - c4);
        assert((r - c4) * (r - c4) <= rr - (c3 + 1) * s) by (nonlinear_arith)
            requires
                rr == r * r,
                s <= 4 * r,
                c4 == 3 * (c3 + 1),
                0 < c4 <= 1182000,
                s == 0x1_0000_0000,
        {
            assert((r - c4) * (r - c4) == rr - 2 * (r * c4) + c4 * c4);
            assert(4 * (r * c4) >= s * c4);
            assert(s * c4 == 3 * ((c3 + 1) * s));
            assert(c4 * c4 <= 1182000 * c4);
            assert(2 * (1182000 * c4) <= s * c4);
            assert(c4 * c4 <= (c3 + 1) * s) by {
                assert(2 * (c4 * c4) <= s * c4);
                assert(s * c4 == 3 * ((c3 + 1) * s));
                assert(((c3 + 1) * s) >= 0);
            }
        }
    }
    let numerator = -b - spread;
    assert(-(c1 + c4) <= numerator - (k - r) <= c1 + c4);
    assert(a * (t - numerator) == numerator * (s - a) - e_t) by (nonlinear_arith)
        requires
            a * t == numerator * s - e_t,
    ;
    lemma_bounded_product(s - a, numerator, 21);
    let top = (n + 1) * s;
    assert(magnitude(numerator) <= top) by (nonlinear_arith)
        requires
            -(c1 + c4) <= numerator - (k - r) <= c1 + c4,
            0 < r <= k <= n * s,
            0 < c1 + c4 <= 1185000,
            top == (n + 1) * s,
            s == 0x1_0000_0000,
    {
        assert(top == n * s + s);
    }
    let c5 = 21 * n + 22;
    assert(-c5 <= t - numerator <= c5) by (nonlinear_arith)
        requires
            a * (t - numerator) == numerator * (s - a) - e_t,
            -(21 * magnitude(numerator)) <= (s - a) * numerator <= 21 * magnitude(numerator),
            magnitude(numerator) <= top,
            top == (n + 1) * s,
            c5 == 21 * n + 22,
            1 <= n <= 128,
            -a < e_t < a,
            s - 14 <= a <= s + 21,
            s == 0x1_0000_0000,
    {
        assert(numerator * (s - a) == (s - a) * numerator);
        assert(21 * magnitude(numerator) <= 21 * top);
        assert(21 * top == (21 * n + 21) * s);
        assert(a * (c5 + 1) >= (s - 14) * (c5 + 1));
        assert((s - 14) * (c5 + 1) == (21 * n + 23) * s - 14 * (21 * n + 23));
        assert((21 * n + 23) * s == (21 * n + 21) * s + 2 * s);
        if t - numerator >= c5 + 1 {
            assert(a * (t - numerator) >= a * (c5 + 1));
        }
        if t - numerator <= -c5 - 1 {
            assert(a * (t - numerator) <= a * (-c5 - 1));
            assert(a * (-c5 - 1) == -(a * (c5 + 1)));
        }
    }
    assert(centre_tolerance(n) == c4 + c1 + c5);
}

/// One component of the vector from the centre to the point of the hit, over
/// the radius, squared and times the square of the radius, in integers.
///
/// `d` is the component of the direction, `m` the distance from the point
/// of the hit to the centre along the ray, and `rho` the component of the
/// vector over the radius, `-d * m / r` and the `theta / r` that rounding
/// added.
pub proof fn lemma_radial_square(r: int, d: int, m: int, theta: int, rho: int)
    requires
        r * rho == -(d * m) + theta,
    ensures
        (r * r) * (rho * rho) == (m * m) * (d * d) - 2 * (m * (d * theta)) + theta * theta,
{
    let x = d * m;
    assert((r * rho) * (r * rho) == x * x - 2 * (x * theta) + theta * theta) by (nonlinear_arith)
        requires
            r * rho == -x + theta,
    ;
    assert((r * rho) * (r * rho) == (r * r) * (rho * rho)) by (nonlinear_arith);
    assert(x * x == (m * m) * (d * d)) by (nonlinear_arith)
        requires
            x == d * m,
    ;
    assert(x * theta == m * (d * theta)) by (nonlinear_arith)
        requires
            x == d * m,
    ;
}

/// The length of the vector from the centre to the point of the hit, over
/// the radius, in integers: times the radius it lies within `181 r` of `s`
/// times the distance `m` from the point of the hit to the centre along the
/// ray, which lies within `tol` of the radius.
///
/// `nd` is the exact squared length of the direction, `mix` and `sum_t` the
/// sums over what rounding added to the vector, `sum_rho` the exact squared
/// length of the vector over the radius and `len` its root.
pub proof fn lemma_radial_length(
    s: int,
    r: int,
    m: int,
    nd: int,
    mix: int,
    sum_t: int,
    sum_rho: int,
    len: int,
    tol: int,
)
    requires
        s == 0x1_0000_0000,
        s <= 4 * r,
        0 <= 64 * tol <= r,
        -tol <= m - r <= tol,
        s * s - 11 * s <= nd < s * s + 21 * s,
        -(27 * ((s + 8) * r)) <= mix <= 27 * ((s + 8) * r),
        0 <= sum_t <= 243 * (r * r),
        (r * r) * sum_rho == (m * m) * nd - 2 * (m * mix) + sum_t,
        0 <= len,
        len * len <= sum_rho < (len + 1) * (len + 1),
    ensures
        -181 * r <= len * r - m * s <= 181 * r,
        s - (4 * tol + 182) <= len <= s + 4 * tol + 182,
{
    let rr = r * r;
    let ss = s * s;
    let mm = m * m;
    assert(0 < m <= 2 * r && 2 * m >= r);
    assert(64 * mm <= 67 * rr) by (nonlinear_arith)
        requires
            rr == r * r,
            mm == m * m,
            0 < m,
            64 * m <= 65 * r,
    {
        assert(64 * (m * m) <= (65 * r) * m);
        assert(64 * ((65 * r) * m) <= (65 * r) * (65 * r));
        assert((65 * r) * (65 * r) == 4225 * (r * r));
    }
    // A first bound on the length.
    assert(mm <= 4 * rr && 0 <= mm) by (nonlinear_arith)
        requires
            mm == m * m,
            rr == r * r,
            0 < m <= 2 * r,
    {
        assert(m * m <= m * (2 * r));
        assert(m * (2 * r) <= (2 * r) * (2 * r));
    }
    assert(0 <= mm * nd <= 5 * (rr * ss)) by (nonlinear_arith)
        requires
            0 <= mm,
            mm <= 4 * rr,
            0 <= nd < ss + 21 * s,
            ss == s * s,
            s == 0x1_0000_0000,
            0 <= rr,
    {
        assert(mm * nd <= (4 * rr) * nd);
        assert((4 * rr) * nd <= (4 * rr) * (ss + 21 * s));
        assert((4 * rr) * (21 * s) <= rr * ss);
    }
    lemma_bounded_product(mix, m, 27 * ((s + 8) * r));
    assert(-(55 * (rr * s)) <= m * mix <= 55 * (rr * s)) by (nonlinear_arith)
        requires
            -((27 * ((s + 8) * r)) * magnitude(m)) <= mix * m <= (27 * ((s + 8) * r)) * magnitude(
                m,
            ),
            0 < m <= 2 * r,
            rr == r * r,
            s == 0x1_0000_0000,
    {
        assert((27 * ((s + 8) * r)) * magnitude(m) <= (27 * ((s + 8) * r)) * (2 * r));
        assert((27 * ((s + 8) * r)) * (2 * r) == 54 * ((s + 8) * (r * r)));
        assert(54 * ((s + 8) * (r * r)) <= 55 * ((r * r) * s));
        assert(m * mix == mix * m);
    }
    assert(rr * s <= rr * ss && 243 * rr <= rr * s && 0 < rr) by (nonlinear_arith)
        requires
            rr == r * r,
            ss == s * s,
            s == 0x1_0000_0000,
            0 < r,
    ;
    assert(rr * sum_rho <= 6 * (rr * ss));
    assert(sum_rho <= 6 * ss) by (nonlinear_arith)
        requires
            rr * sum_rho <= 6 * (rr * ss),
            0 < rr,
    {
        if sum_rho >= 6 * ss + 1 {
            assert(rr * sum_rho >= rr * (6 * ss + 1));
        }
    }
    assert(len <= 3 * s) by (nonlinear_arith)
        requires
            0 <= len,
            len * len <= sum_rho,
            sum_rho <= 6 * ss,
            ss == s * s,
            0 < s,
    {
        if len >= 3 * s + 1 {
            assert(len * len >= (3 * s + 1) * (3 * s + 1));
        }
    }

    // The square of the length against that of the distance.
    let zeta = sum_rho - len * len;
    assert((len + 1) * (len + 1) == len * len + 2 * len + 1) by (nonlinear_arith);
    assert(0 <= zeta <= 10 * s);
    let gap = rr * (len * len) - mm * ss;
    assert(gap == mm * (nd - ss) - 2 * (m * mix) + sum_t - rr * zeta) by (nonlinear_arith)
        requires
            gap == rr * (len * len) - mm * ss,
            rr * sum_rho == mm * nd - 2 * (m * mix) + sum_t,
            zeta == sum_rho - len * len,
    {
        assert(rr * (sum_rho - zeta) == rr * sum_rho - rr * zeta);
        assert(mm * (nd - ss) == mm * nd - mm * ss);
    }
    lemma_bounded_product(nd - ss, mm, 21 * s);
    assert(-(22 * (rr * s)) <= mm * (nd - ss) <= 22 * (rr * s)) by (nonlinear_arith)
        requires
            -((21 * s) * magnitude(mm)) <= (nd - ss) * mm <= (21 * s) * magnitude(mm),
            0 <= mm,
            64 * mm <= 67 * rr,
            0 < s,
    {
        assert(magnitude(mm) == mm);
        assert(64 * ((21 * s) * mm) == (21 * s) * (64 * mm));
        assert((21 * s) * (64 * mm) <= (21 * s) * (67 * rr));
        assert((21 * s) * (67 * rr) == 1407 * (rr * s));
        assert(64 * (22 * (rr * s)) == 1408 * (rr * s));
        assert(rr * s >= 0);
        assert(mm * (nd - ss) == (nd - ss) * mm);
    }
    assert(0 <= rr * zeta <= 10 * (rr * s)) by (nonlinear_arith)
        requires
            0 <= zeta <= 10 * s,
            0 < rr,
    ;
    assert(-(143 * (rr * s)) <= gap <= 133 * (rr * s));
    // From the squares to the numbers.
    let x = len * r;
    let y = m * s;
    assert(x * x - y * y == gap) by (nonlinear_arith)
        requires
            x == len * r,
            y == m * s,
            gap == rr * (len * len) - mm * ss,
            rr == r * r,
            mm == m * m,
            ss == s * s,
    ;
    assert(64 * y >= 63 * (r * s) && y >= 0 && x >= 0) by (nonlinear_arith)
        requires
            y == m * s,
            x == len * r,
            64 * m >= 63 * r,
            0 < m,
            0 < s,
            0 <= len,
            0 < r,
    {
        assert((64 * m) * s >= (63 * r) * s);
    }
    assert(-181 * r <= x - y <= 181 * r) by (nonlinear_arith)
        requires
            x * x - y * y == gap,
            -(143 * (rr * s)) <= gap <= 133 * (rr * s),
            64 * y >= 63 * (r * s),
            y >= 0,
            x >= 0,
            rr == r * r,
            0 < r,
            0 < s,
    {
        assert(x * x - y * y == (x - y) * (x + y));
        assert(rr * s == r * (r * s));
        assert(r * s > 0);
        assert(64 * ((181 * r + 1) * y) > 64 * (143 * (rr * s))) by {
            assert((181 * r + 1) * (64 * y) >= (181 * r + 1) * (63 * (r * s)));
            assert((181 * r + 1) * (63 * (r * s)) == 11403 * (r * (r * s)) + 63 * (r * s));
            assert(64 * (143 * (rr * s)) == 9152 * (r * (r * s)));
            assert(r * (r * s) > 0);
        }
        if x - y >= 181 * r + 1 {
            assert(x + y >= y);
            assert((x - y) * (x + y) >= (181 * r + 1) * y);
        }
        if x - y <= -181 * r - 1 {
            assert(x + y >= y);
            assert((y - x) * (x + y) >= (181 * r + 1) * y);
            assert((x - y) * (x + y) == -((y - x) * (x + y)));
        }
    }
    assert(s - (4 * tol + 182) <= len <= s + 4 * tol + 182) by (nonlinear_arith)
        requires
            -181 * r <= len * r - m * s <= 181 * r,
            -tol <= m - r <= tol,
            0 <= tol,
            s <= 4 * r,
            s == 0x1_0000_0000,
    {
        assert(m * s <= (r + tol) * s);
        assert(m * s >= (r - tol) * s);
        assert(tol * s <= tol * (4 * r));
        assert((r + tol) * s == r * s + tol * s);
        assert((r - tol) * s == r * s - tol * s);
        if len >= s + 4 * tol + 183 {
            assert(len * r >= (s + 4 * tol + 183) * r);
            assert((s + 4 * tol + 183) * r == r * s + tol * (4 * r) + 183 * r);
        }
        if len <= s - 4 * tol - 183 {
            assert(len * r <= (s - 4 * tol - 183) * r);
            assert((s - 4 * tol - 183) * r == r * s - tol * (4 * r) - 183 * r);
        }
    }
}

/// One component of the normal of the hit against the same component of the
/// direction turned round, in integers: the two lie within 193 of each
/// other.
///
/// `upsilon` is the component of the normal, `rho * s * t / len` rounded,
/// with `rho` the component of the vector from the centre over the radius,
/// `t` the stretch of that vector and `len` its span, which lies no further
/// than `slack` times the stretch below `s` times the stretch.
pub proof fn lemma_normal_component(
    s: int,
    r: int,
    t: int,
    slack: int,
    m: int,
    d: int,
    theta: int,
    rho: int,
    len: int,
    upsilon: int,
    g: int,
)
    requires
        s == 0x1_0000_0000,
        s <= 4 * r,
        1 <= t,
        0 <= slack <= 0x100_0000,
        -(s + 8) <= d <= s + 8,
        -9 * r <= theta <= 9 * r,
        r * rho == -(d * m) + theta,
        -182 * (r * t) <= len * r - m * (s * t) <= 182 * (r * t),
        (s - slack) * t <= len,
        len * upsilon == rho * (s * t) - g,
        -len < g < len,
    ensures
        -193 <= upsilon + d <= 193,
        -(s + 201) <= upsilon <= s + 201,
{
    let k = s * t;
    let b = r * t;
    let shift = len * r - m * k;
    assert(0 < b && 0 < k && 0 < len) by (nonlinear_arith)
        requires
            b == r * t,
            k == s * t,
            (s - slack) * t <= len,
            0 <= slack <= 0x100_0000,
            1 <= t,
            0 < r,
            s == 0x1_0000_0000,
    ;
    assert((r * len) * (upsilon + d) == d * shift + theta * k - r * g) by (nonlinear_arith)
        requires
            len * upsilon == rho * k - g,
            r * rho == -(d * m) + theta,
            shift == len * r - m * k,
    {
        assert(r * (len * upsilon) == (r * rho) * k - r * g);
        assert((-(d * m) + theta) * k == -(d * (m * k)) + theta * k);
        assert(d * shift == d * (len * r) - d * (m * k));
        assert((r * len) * (upsilon + d) == r * (len * upsilon) + d * (len * r));
    }
    lemma_bounded_product(shift, d, 182 * b);
    lemma_bounded_product(g, r, len);
    lemma_bounded_product(theta, k, 9 * r);
    assert(r * len >= b * (s - slack) && (9 * r) * k == 9 * (b * s)) by (nonlinear_arith)
        requires
            b == r * t,
            k == s * t,
            (s - slack) * t <= len,
            0 < r,
    {
        assert(r * len >= r * ((s - slack) * t));
    }
    assert(-(193 * (r * len)) <= (r * len) * (upsilon + d) <= 193 * (r * len))
        by (nonlinear_arith)
        requires
            (r * len) * (upsilon + d) == d * shift + theta * k - r * g,
            -((182 * b) * magnitude(d)) <= shift * d <= (182 * b) * magnitude(d),
            -(len * magnitude(r)) <= g * r <= len * magnitude(r),
            -((9 * r) * magnitude(k)) <= theta * k <= (9 * r) * magnitude(k),
            magnitude(k) == k,
            magnitude(r) == r,
            (9 * r) * k == 9 * (b * s),
            magnitude(d) <= s + 8,
            r * len >= b * (s - slack),
            0 <= slack <= 0x100_0000,
            0 < b,
            s == 0x1_0000_0000,
    {
        assert(d * shift == shift * d);
        assert(r * g == g * r);
        assert((182 * b) * magnitude(d) <= (182 * b) * (s + 8));
        assert(len * r == r * len);
        assert((182 * b) * (s + 8) + 9 * (b * s) == b * (191 * s + 1456));
        assert(192 * (b * (s - slack)) == b * (192 * s - 192 * slack));
        assert(b * (191 * s + 1456) <= b * (192 * s - 192 * slack));
    }
    assert(-193 <= upsilon + d <= 193) by (nonlinear_arith)
        requires
            -(193 * (r * len)) <= (r * len) * (upsilon + d) <= 193 * (r * len),
            0 < r,
            0 < len,
    {
        assert(0 < r * len);
        if upsilon + d >= 194 {
            assert((r * len) * (upsilon + d) >= (r * len) * 194);
        }
        if upsilon + d <= -194 {
            assert((r * len) * (upsilon + d) <= (r * len) * (-194));
        }
    }
}

/// The size of a reach and of its tolerance in raw units.
pub proof fn lemma_reach(n: int)
    requires
        1 <= n <= 128,
    ensures
        SCALE <= n * SCALE <= 128 * SCALE,
        194 <= centre_tolerance(n) <= 1187390,
        64 * centre_tolerance(n) <= 0x4000_0000,
        4 * centre_tolerance(n) + 182 <= 0x100_0000,
{
    assert(1 <= n * n <= 16384) by (nonlinear_arith)
        requires
            1 <= n <= 128,
    ;
    assert(SCALE <= n * SCALE <= 128 * SCALE) by (nonlinear_arith)
        requires
            1 <= n <= 128,
            SCALE == 0x1_0000_0000,
    ;
}

/// One component of the vector from the centre to the point of the hit, in
/// integers: it is no longer than the distance `m` along the ray allows.
pub proof fn lemma_near_component(s: int, d: int, m: int, x: int, v: int)
    requires
        s == 0x1_0000_0000,
        -(s + 8) <= d <= s + 8,
        0 <= m <= 129 * s,
        -2 * s < x < 2 * s,
        s * v == -(d * m) + x,
    ensures
        -320 * s <= v <= 320 * s,
{
    lemma_bounded_product(d, m, s + 8);
    assert(-320 * s <= v <= 320 * s) by (nonlinear_arith)
        requires
            s * v == -(d * m) + x,
            -((s + 8) * magnitude(m)) <= d * m <= (s + 8) * magnitude(m),
            0 <= magnitude(m) <= 129 * s,
            -2 * s < x < 2 * s,
            s == 0x1_0000_0000,
    {
        assert((s + 8) * magnitude(m) <= (s + 8) * (129 * s));
        assert((s + 8) * (129 * s) == s * (129 * s + 1032));
        if v >= 320 * s + 1 {
            assert(s * v >= s * (320 * s + 1));
        }
        if v <= -320 * s - 1 {
            assert(s * v <= s * (-320 * s - 1));
        }
    }
}

/// The largest distance to the centre, and the largest coordinate of the
/// origin, for which `lemma_hit_through_centre_nearly` speaks.
pub const CENTRE_MAX: i64 = 128;

/// Whether the origin, the direction, the distance to the centre and the
/// radius lie within the reach `n` of `lemma_hit_through_centre_nearly`: a
/// unit direction, an origin within `n` of the origin of coordinates, a
/// radius of at least 1/4 and a distance to the centre between the radius
/// and `n`, for a whole number `n` from 1 to 128.
pub open spec fn is_through_centre(
    origin: Vector3,
    direction: Vector3,
    distance: Fixed,
    radius: Fixed,
    n: int,
) -> bool {
    &&& 1 <= n <= CENTRE_MAX
    &&& is_nearly_unit(direction)
    &&& is_bounded(origin, n * SCALE)
    &&& SCALE <= 4 * radius.raw
    &&& radius.raw <= distance.raw <= n * SCALE
}

/// The smaller solution of the equation of the hit for a ray through the
/// centre: the discriminant is not negative, and the solution lies within
/// `13205 / 2^32` of the distance to the centre less the radius.
pub proof fn lemma_centre_equation(
    origin: Vector3,
    direction: Vector3,
    distance: Fixed,
    radius: Fixed,
    n: int,
)
    requires
        is_through_centre(origin, direction, distance, radius, n),
    ensures
        ({
            let sphere = Sphere { origin: origin.add(direction.scale(distance)), radius };
            let ray = Ray { origin, direction };
            &&& sphere.discriminant(&ray).raw >= 0
            &&& -centre_tolerance(n) <= sphere.near_root(&ray).raw - (distance.raw - radius.raw)
                <= centre_tolerance(n)
        }),
{
    let s = SCALE as int;
    lemma_reach(n);
    let ss = s * s;
    let k = distance.raw as int;
    let r = radius.raw as int;
    let d = direction;
    let d1 = d.x.raw as int;
    let d2 = d.y.raw as int;
    let d3 = d.z.raw as int;
    lemma_exact_length(d);
    let nd = d1 * d1 + d2 * d2 + d3 * d3;

    // The vector to the centre.
    lemma_bounded_mul(d.x, distance, s + 8, 128 * s, 256 * s);
    lemma_bounded_mul(d.y, distance, s + 8, 128 * s, 256 * s);
    lemma_bounded_mul(d.z, distance, s + 8, 128 * s, 256 * s);
    let to_centre = d.scale(distance);
    let k1 = to_centre.x.raw as int;
    let k2 = to_centre.y.raw as int;
    let k3 = to_centre.z.raw as int;
    let e1 = lost(d1 * k, s);
    let e2 = lost(d2 * k, s);
    let e3 = lost(d3 * k, s);
    let sphere = Sphere { origin: origin.add(to_centre), radius };
    let ray = Ray { origin, direction };
    let back = ray.origin.sub(sphere.origin);
    assert(back.x.raw == -k1 && back.y.raw == -k2 && back.z.raw == -k3);
    lemma_scaled_normal_component(s, d1, d1, k, e1, k1);
    lemma_scaled_normal_component(s, d2, d2, k, e2, k2);
    lemma_scaled_normal_component(s, d3, d3, k, e3, k3);
    let sum_k = k1 * k1 + k2 * k2 + k3 * k3;
    let sum_dk = d1 * k1 + d2 * k2 + d3 * k3;
    let mix = d1 * e1 + d2 * e2 + d3 * e3;
    let sum_e = e1 * e1 + e2 * e2 + e3 * e3;
    let kk = k * k;
    assert(ss * sum_k == ss * (k1 * k1) + ss * (k2 * k2) + ss * (k3 * k3)) by (nonlinear_arith)
        requires
            sum_k == k1 * k1 + k2 * k2 + k3 * k3,
    ;
    assert(kk * nd == kk * (d1 * d1) + kk * (d2 * d2) + kk * (d3 * d3)) by (nonlinear_arith)
        requires
            nd == d1 * d1 + d2 * d2 + d3 * d3,
    ;
    assert(k * mix == k * (d1 * e1) + k * (d2 * e2) + k * (d3 * e3)) by (nonlinear_arith)
        requires
            mix == d1 * e1 + d2 * e2 + d3 * e3,
    ;
    assert(ss * sum_k == kk * nd - 2 * (k * mix) + sum_e);
    assert(s * sum_dk == s * (d1 * k1) + s * (d2 * k2) + s * (d3 * k3)) by (nonlinear_arith)
        requires
            sum_dk == d1 * k1 + d2 * k2 + d3 * k3,
    ;
    assert(k * nd == k * (d1 * d1) + k * (d2 * d2) + k * (d3 * d3)) by (nonlinear_arith)
        requires
            nd == d1 * d1 + d2 * d2 + d3 * d3,
    ;
    assert(s * sum_dk == k * nd - mix);
    lemma_bounded_product(e1, d1, s);
    lemma_bounded_product(e2, d2, s);
    lemma_bounded_product(e3, d3, s);
    assert(-3 * (s * (s + 8)) <= mix <= 3 * (s * (s + 8)) && 0 <= sum_e < 3 * (s * s))
        by (nonlinear_arith)
        requires
            mix == d1 * e1 + d2 * e2 + d3 * e3,
            sum_e == e1 * e1 + e2 * e2 + e3 * e3,
            -(s * magnitude(d1)) <= e1 * d1 <= s * magnitude(d1),
            -(s * magnitude(d2)) <= e2 * d2 <= s * magnitude(d2),
            -(s * magnitude(d3)) <= e3 * d3 <= s * magnitude(d3),
            magnitude(d1) <= s + 8,
            magnitude(d2) <= s + 8,
            magnitude(d3) <= s + 8,
            -s < e1 < s,
            -s < e2 < s,
            -s < e3 < s,
            0 < s,
    {
        assert(s * magnitude(d1) <= s * (s + 8));
        assert(s * magnitude(d2) <= s * (s + 8));
        assert(s * magnitude(d3) <= s * (s + 8));
        assert(d1 * e1 == e1 * d1 && d2 * e2 == e2 * d2 && d3 * e3 == e3 * d3);
        assert(e1 * e1 < s * s);
        assert(e2 * e2 < s * s);
        assert(e3 * e3 < s * s);
        assert(0 <= e1 * e1 && 0 <= e2 * e2 && 0 <= e3 * e3);
    }

    // The coefficients of the equation.
    lemma_bounded_mul(d.x, back.x, s + 8, 256 * s, 512 * s);
    lemma_bounded_mul(d.y, back.y, s + 8, 256 * s, 512 * s);
    lemma_bounded_mul(d.z, back.z, s + 8, 256 * s, 512 * s);
    let half_b = Vector3::dot(&d, &back);
    let b = half_b.raw as int;
    assert(b == d.x.mul(back.x).raw + d.y.mul(back.y).raw + d.z.mul(back.z).raw);
    let e_b = lost(d1 * (-k1), s) + lost(d2 * (-k2), s) + lost(d3 * (-k3), s);
    assert(d1 * (-k1) == -(d1 * k1) && d2 * (-k2) == -(d2 * k2) && d3 * (-k3) == -(d3 * k3))
        by (nonlinear_arith);
    assert(s * b == -sum_dk - e_b);
    lemma_bounded_mul(d.x, d.x, s + 8, s + 8, 2 * s);
    lemma_bounded_mul(d.y, d.y, s + 8, s + 8, 2 * s);
    lemma_bounded_mul(d.z, d.z, s + 8, s + 8, 2 * s);
    assert(d1 * d1 >= 0 && d2 * d2 >= 0 && d3 * d3 >= 0) by (nonlinear_arith);
    let a = d.len_sq().raw as int;
    assert(a == d.x.mul(d.x).raw + d.y.mul(d.y).raw + d.z.mul(d.z).raw);
    let e_a = lost(d1 * d1, s) + lost(d2 * d2, s) + lost(d3 * d3, s);
    assert(s * a == nd - e_a);
    lemma_bounded_mul(back.x, back.x, 256 * s, 256 * s, 65536 * s);
    lemma_bounded_mul(back.y, back.y, 256 * s, 256 * s, 65536 * s);
    lemma_bounded_mul(back.z, back.z, 256 * s, 256 * s, 65536 * s);
    assert((-k1) * (-k1) == k1 * k1 && (-k2) * (-k2) == k2 * k2 && (-k3) * (-k3) == k3 * k3 && k1
        * k1 >= 0 && k2 * k2 >= 0 && k3 * k3 >= 0) by (nonlinear_arith);
    let w = back.len_sq().raw as int;
    assert(w == back.x.mul(back.x).raw + back.y.mul(back.y).raw + back.z.mul(back.z).raw);
    let e_w = lost(k1 * k1, s) + lost(k2 * k2, s) + lost(k3 * k3, s);
    assert(s * w == sum_k - e_w);
    lemma_centre_coefficients(s, n, k, nd, mix, sum_e, sum_dk, sum_k, b, e_b, a, e_a, w, e_w);

    // The discriminant and its root.
    lemma_bounded_mul(radius, radius, 128 * s, 128 * s, 16384 * s);
    let rr = r * r;
    assert(rr >= 0) by (nonlinear_arith)
        requires
            rr == r * r,
    ;
    let r_sq = radius.mul(radius).raw as int;
    let e_r = lost(rr, s);
    let gap = back.len_sq().sub(radius.mul(radius));
    assert(gap.raw == w - r_sq);
    lemma_bounded_mul(half_b, half_b, 129 * s, 129 * s, 16641 * s);
    assert(b * b >= 0) by (nonlinear_arith);
    let h = half_b.mul(half_b).raw as int;
    let e_h = lost(b * b, s);
    lemma_bounded_mul(d.len_sq(), gap, 2 * s, 212992 * s, 425984 * s);
    let m = d.len_sq().mul(gap).raw as int;
    let e_m = lost(a * (w - r_sq), s);
    lemma_centre_discriminant(s, n, a, b, w, r, r_sq, e_r, h, e_h, m, e_m);
    let discriminant = sphere.discriminant(&ray);
    assert(discriminant.raw == h - m);
    let delta_s = (h - m) * s;
    lemma_root_exists(delta_s);
    let spread = root(delta_s);
    assert(spread <= 129 * s) by (nonlinear_arith)
        requires
            0 <= spread,
            spread * spread <= delta_s,
            delta_s <= r * r + 0x800_0000 * s,
            0 < r <= 128 * s,
            s == 0x1_0000_0000,
    {
        assert(r * r <= (128 * s) * (128 * s));
        if spread >= 129 * s + 1 {
            assert(spread * spread >= (129 * s + 1) * (129 * s + 1));
        }
    }
    assert(discriminant.sqrt().raw == spread) by {
        reveal(Fixed::spec_sqrt);
    }

    // The smaller solution.
    let numerator = half_b.neg().sub(discriminant.sqrt());
    assert(numerator.raw == -b - spread);
    let near = sphere.near_root(&ray);
    assert(near == numerator.div(d.len_sq()));
    let scaled = numerator.raw * s;
    lemma_lost(scaled, a);
    let e_t = lost(scaled, a);
    assert(a * near.raw == (-b - spread) * s - e_t) by {
        reveal(Fixed::spec_div);
        let q = quotient(scaled, a);
        assert(-520 * s <= q <= 520 * s) by (nonlinear_arith)
            requires
                scaled == numerator.raw * s,
                -258 * s <= numerator.raw <= 258 * s,
                -a < scaled - a * q < a,
                s - 14 <= a,
                s == 0x1_0000_0000,
        {
            assert(scaled <= (258 * s) * s);
            assert(scaled >= -((258 * s) * s));
            if q >= 520 * s + 1 {
                assert(a * q >= a * (520 * s + 1));
                assert(a * (520 * s + 1) >= (s - 14) * (520 * s + 1));
            }
            if q <= -520 * s - 1 {
                assert(a * q <= a * (-520 * s - 1));
                assert(a * (520 * s + 1) >= (s - 14) * (520 * s + 1));
            }
        }
    }
    let t = near.raw as int;
    lemma_centre_root(s, n, a, b, k, r, delta_s, spread, t, e_t);
}

/// The normal of a sphere where a ray through its centre enters it: at a
/// parameter within the tolerance for the reach `n` of the distance to the
/// centre less the radius, the outward normal lies within `193 / 2^32` of
/// the direction turned round, in every component, and points against the
/// ray.
pub proof fn lemma_centre_normal(
    origin: Vector3,
    direction: Vector3,
    distance: Fixed,
    radius: Fixed,
    near: Fixed,
    n: int,
)
    requires
        is_through_centre(origin, direction, distance, radius, n),
        -centre_tolerance(n) <= near.raw - (distance.raw - radius.raw) <= centre_tolerance(n),
    ensures
        ({
            let sphere = Sphere { origin: origin.add(direction.scale(distance)), radius };
            let ray = Ray { origin, direction };
            let outward = sphere.outward_normal(ray.at(near));
            &&& within(outward, direction.neg(), 193)
            &&& Vector3::dot(&direction, &outward).raw <= 0
        }),
{
    let s = SCALE as int;
    lemma_reach(n);
    let tol = centre_tolerance(n);
    let k = distance.raw as int;
    let r = radius.raw as int;
    let d = direction;
    let d1 = d.x.raw as int;
    let d2 = d.y.raw as int;
    let d3 = d.z.raw as int;
    lemma_exact_length(d);
    let nd = d1 * d1 + d2 * d2 + d3 * d3;

    // The vector to the centre.
    lemma_bounded_mul(d.x, distance, s + 8, 128 * s, 256 * s);
    lemma_bounded_mul(d.y, distance, s + 8, 128 * s, 256 * s);
    lemma_bounded_mul(d.z, distance, s + 8, 128 * s, 256 * s);
    let to_centre = d.scale(distance);
    let k1 = to_centre.x.raw as int;
    let k2 = to_centre.y.raw as int;
    let k3 = to_centre.z.raw as int;
    let e1 = lost(d1 * k, s);
    let e2 = lost(d2 * k, s);
    let e3 = lost(d3 * k, s);
    let sphere = Sphere { origin: origin.add(to_centre), radius };
    let ray = Ray { origin, direction };
    let t = near.raw as int;
    let rr = r * r;
    // The vector from the centre to the point of the hit.
    lemma_bounded_mul(d.x, near, s + 8, 129 * s, 258 * s);
    lemma_bounded_mul(d.y, near, s + 8, 129 * s, 258 * s);
    lemma_bounded_mul(d.z, near, s + 8, 129 * s, 258 * s);
    let step = d.scale(near);
    let point = ray.at(near);
    assert(point == origin.add(step));
    let v = point.sub(sphere.origin);
    assert(v.x.raw == step.x.raw - k1 && v.y.raw == step.y.raw - k2 && v.z.raw == step.z.raw - k3);
    let away = k - t;
    let x1 = e1 - lost(d1 * t, s);
    let x2 = e2 - lost(d2 * t, s);
    let x3 = e3 - lost(d3 * t, s);
    assert(d1 * t - d1 * k == -(d1 * away) && d2 * t - d2 * k == -(d2 * away) && d3 * t - d3 * k
        == -(d3 * away)) by (nonlinear_arith)
        requires
            away == k - t,
    ;
    assert(s * v.x.raw == -(d1 * away) + x1);
    assert(s * v.y.raw == -(d2 * away) + x2);
    assert(s * v.z.raw == -(d3 * away) + x3);
    assert(0 <= away <= 129 * s);
    lemma_near_component(s, d1, away, x1, v.x.raw as int);
    lemma_near_component(s, d2, away, x2, v.y.raw as int);
    lemma_near_component(s, d3, away, x3, v.z.raw as int);

    // That vector over the radius.
    let radial = v.div(radius);
    lemma_radial_raw(v.x, radius);
    lemma_radial_raw(v.y, radius);
    lemma_radial_raw(v.z, radius);
    let t1 = x1 - lost(v.x.raw * s, r);
    let t2 = x2 - lost(v.y.raw * s, r);
    let t3 = x3 - lost(v.z.raw * s, r);
    let rho1 = radial.x.raw as int;
    let rho2 = radial.y.raw as int;
    let rho3 = radial.z.raw as int;
    assert(v.x.raw * s == s * v.x.raw && v.y.raw * s == s * v.y.raw && v.z.raw * s == s * v.z.raw)
        by (nonlinear_arith);
    assert(r * rho1 == -(d1 * away) + t1);
    assert(r * rho2 == -(d2 * away) + t2);
    assert(r * rho3 == -(d3 * away) + t3);
    lemma_radial_square(r, d1, away, t1, rho1);
    lemma_radial_square(r, d2, away, t2, rho2);
    lemma_radial_square(r, d3, away, t3, rho3);
    let sum_rho = rho1 * rho1 + rho2 * rho2 + rho3 * rho3;
    let mix_t = d1 * t1 + d2 * t2 + d3 * t3;
    let sum_t = t1 * t1 + t2 * t2 + t3 * t3;
    let aa = away * away;
    assert(rr * sum_rho == rr * (rho1 * rho1) + rr * (rho2 * rho2) + rr * (rho3 * rho3))
        by (nonlinear_arith)
        requires
            sum_rho == rho1 * rho1 + rho2 * rho2 + rho3 * rho3,
    ;
    assert(aa * nd == aa * (d1 * d1) + aa * (d2 * d2) + aa * (d3 * d3)) by (nonlinear_arith)
        requires
            nd == d1 * d1 + d2 * d2 + d3 * d3,
    ;
    assert(away * mix_t == away * (d1 * t1) + away * (d2 * t2) + away * (d3 * t3))
        by (nonlinear_arith)
        requires
            mix_t == d1 * t1 + d2 * t2 + d3 * t3,
    ;
    assert(rr * sum_rho == aa * nd - 2 * (away * mix_t) + sum_t);
    lemma_bounded_product(t1, d1, 9 * r);
    lemma_bounded_product(t2, d2, 9 * r);
    lemma_bounded_product(t3, d3, 9 * r);
    assert(-(27 * ((s + 8) * r)) <= mix_t <= 27 * ((s + 8) * r) && 0 <= sum_t <= 243 * (r * r))
        by (nonlinear_arith)
        requires
            mix_t == d1 * t1 + d2 * t2 + d3 * t3,
            sum_t == t1 * t1 + t2 * t2 + t3 * t3,
            -((9 * r) * magnitude(d1)) <= t1 * d1 <= (9 * r) * magnitude(d1),
            -((9 * r) * magnitude(d2)) <= t2 * d2 <= (9 * r) * magnitude(d2),
            -((9 * r) * magnitude(d3)) <= t3 * d3 <= (9 * r) * magnitude(d3),
            magnitude(d1) <= s + 8,
            magnitude(d2) <= s + 8,
            magnitude(d3) <= s + 8,
            -9 * r <= t1 <= 9 * r,
            -9 * r <= t2 <= 9 * r,
            -9 * r <= t3 <= 9 * r,
            0 < r,
    {
        assert((9 * r) * magnitude(d1) <= (9 * r) * (s + 8));
        assert((9 * r) * magnitude(d2) <= (9 * r) * (s + 8));
        assert((9 * r) * magnitude(d3) <= (9 * r) * (s + 8));
        assert((9 * r) * (s + 8) == 9 * ((s + 8) * r));
        assert(d1 * t1 == t1 * d1 && d2 * t2 == t2 * d2 && d3 * t3 == t3 * d3);
        lemma_bounded_product(t1, t1, 9 * r);
        lemma_bounded_product(t2, t2, 9 * r);
        lemma_bounded_product(t3, t3, 9 * r);
        assert((9 * r) * magnitude(t1) <= (9 * r) * (9 * r));
        assert((9 * r) * magnitude(t2) <= (9 * r) * (9 * r));
        assert((9 * r) * magnitude(t3) <= (9 * r) * (9 * r));
        assert(0 <= t1 * t1 && 0 <= t2 * t2 && 0 <= t3 * t3);
    }
    assert(rho1 * rho1 >= 0 && rho2 * rho2 >= 0 && rho3 * rho3 >= 0) by (nonlinear_arith);
    assert(radial.norm() == sum_rho);
    lemma_root_exists(sum_rho);
    let low = root(sum_rho);
    lemma_radial_length(s, r, away, nd, mix_t, sum_t, sum_rho, low, tol);
    let slack = 4 * tol + 182;
    assert(sum_rho > 0) by (nonlinear_arith)
        requires
            low * low <= sum_rho,
            low >= 1,
    ;

    // The normal.
    let outward = radial.unit();
    let t = radial.stretch();
    let len = radial.span();
    lemma_span_positive(radial);
    lemma_stretched_root(sum_rho, t, low, len);
    lemma_unit_exact(radial);
    assert(-182 * (r * t) <= len * r - away * (s * t) <= 182 * (r * t) && (s - slack) * t <= len)
        by (nonlinear_arith)
        requires
            low * t <= len < (low + 1) * t,
            -181 * r <= low * r - away * s <= 181 * r,
            s - slack <= low,
            1 <= t,
            0 < r,
    {
        assert((low * t) * r <= len * r);
        assert(len * r <= ((low + 1) * t) * r);
        assert((low * t) * r - away * (s * t) == (low * r - away * s) * t);
        assert(((low + 1) * t) * r == (low * t) * r + r * t);
        assert((low * r - away * s) * t <= (181 * r) * t);
        assert((low * r - away * s) * t >= (-181 * r) * t);
        assert((s - slack) * t <= low * t);
    }
    let g1 = lost(rho1 * SCALE * t, len);
    let g2 = lost(rho2 * SCALE * t, len);
    let g3 = lost(rho3 * SCALE * t, len);
    assert(rho1 * SCALE * t == rho1 * (s * t) && rho2 * SCALE * t == rho2 * (s * t) && rho3
        * SCALE * t == rho3 * (s * t)) by (nonlinear_arith)
        requires
            s == SCALE,
    ;
    lemma_normal_component(s, r, t, slack, away, d1, t1, rho1, len, outward.x.raw as int, g1);
    lemma_normal_component(s, r, t, slack, away, d2, t2, rho2, len, outward.y.raw as int, g2);
    lemma_normal_component(s, r, t, slack, away, d3, t3, rho3, len, outward.z.raw as int, g3);
    assert(sphere.outward_normal(point) == outward);
    assert(within(outward, d.neg(), 193));

    // The normal points against the ray.
    lemma_bounded_mul(d.x, outward.x, s + 8, s + 201, 2 * s);
    lemma_bounded_mul(d.y, outward.y, s + 8, s + 201, 2 * s);
    lemma_bounded_mul(d.z, outward.z, s + 8, s + 201, 2 * s);
    let facing = Vector3::dot(&d, &outward).raw as int;
    assert(facing == d.x.mul(outward.x).raw + d.y.mul(outward.y).raw + d.z.mul(outward.z).raw);
    lemma_bounded_product(outward.x.raw + d1, d1, 193);
    lemma_bounded_product(outward.y.raw + d2, d2, 193);
    lemma_bounded_product(outward.z.raw + d3, d3, 193);
    assert(facing <= 0) by (nonlinear_arith)
        requires
            s * facing == d1 * outward.x.raw + d2 * outward.y.raw + d3 * outward.z.raw - (lost(
                d1 * outward.x.raw,
                s,
            ) + lost(d2 * outward.y.raw, s) + lost(d3 * outward.z.raw, s)),
            -s < lost(d1 * outward.x.raw, s) < s,
            -s < lost(d2 * outward.y.raw, s) < s,
            -s < lost(d3 * outward.z.raw, s) < s,
            -(193 * magnitude(d1)) <= (outward.x.raw + d1) * d1 <= 193 * magnitude(d1),
            -(193 * magnitude(d2)) <= (outward.y.raw + d2) * d2 <= 193 * magnitude(d2),
            -(193 * magnitude(d3)) <= (outward.z.raw + d3) * d3 <= 193 * magnitude(d3),
            magnitude(d1) <= s + 8,
            magnitude(d2) <= s + 8,
            magnitude(d3) <= s + 8,
            nd == d1 * d1 + d2 * d2 + d3 * d3,
            s * s - 11 * s <= nd,
            s == 0x1_0000_0000,
    {
        assert(d1 * outward.x.raw == (outward.x.raw + d1) * d1 - d1 * d1);
        assert(d2 * outward.y.raw == (outward.y.raw + d2) * d2 - d2 * d2);
        assert(d3 * outward.z.raw == (outward.z.raw + d3) * d3 - d3 * d3);
        if facing >= 1 {
            assert(s * facing >= s);
        }
    }
}


/// A ray through the centre of a sphere hits the sphere at the distance of
/// the centre less the radius, and the normal there points back along the
/// ray: for a unit direction, an origin and a distance to the centre of at
/// most `n`, a whole number up to 128, and a radius of at least 1/4, the
/// parameter of the hit lies within `(72 n^2 + 60 n + 62) / 2^32` of the
/// distance to the surface, and the normal within `193 / 2^32` of the
/// direction turned round, in every component. The bound on the parameter
/// grows with the square of the distance: it is `194 / 2^32` within 1 of the
/// origin, and less than three ten-thousandths within 128.
pub proof fn lemma_hit_through_centre_nearly(
    origin: Vector3,
    direction: Vector3,
    distance: Fixed,
    radius: Fixed,
    n: int,
    min_t: Fixed,
    max_t: Fixed,
)
    requires
        is_through_centre(origin, direction, distance, radius, n),
        min_t.raw <= distance.raw - radius.raw - centre_tolerance(n),
        distance.raw - radius.raw + centre_tolerance(n) <= max_t.raw,
    ensures
        ({
            let sphere = Sphere { origin: origin.add(direction.scale(distance)), radius };
            let ray = Ray { origin, direction };
            sphere.spec_hit(&ray, min_t, max_t) matches Some(hit) && {
                &&& -centre_tolerance(n) <= hit.t.raw - (distance.raw - radius.raw)
                    <= centre_tolerance(n)
                &&& within(hit.normal, direction.neg(), 193)
                &&& hit.front_face
            }
        }),
{
    let sphere = Sphere { origin: origin.add(direction.scale(distance)), radius };
    let ray = Ray { origin, direction };
    lemma_centre_equation(origin, direction, distance, radius, n);
    let near = sphere.near_root(&ray);
    lemma_centre_normal(origin, direction, distance, radius, near, n);
    assert(sphere.root(&ray, min_t, max_t) == Some(near));
}

} // verus!
