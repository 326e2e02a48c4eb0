//! How close to its direction a ray stays that passes a surface between two
//! materials of the same index.
use super::accuracy::{
    is_nearly_unit, lemma_bounded_product, lemma_exact_length, lemma_lagrange, lemma_square_order,
    lost, magnitude, within,
};
use super::hit_accuracy::lemma_bounded_mul;
use super::vector3::Vector3;
use crate::fixed::{
    lemma_mul_whole, lemma_results_in_range, lemma_root_exists, root, Fixed, SCALE,
};
use vstd::prelude::*;

verus! {

/// One component of the normal scaled by the cosine, in integers: its square
/// and its product with the same component of the direction.
///
/// `n` and `d` are the components of the normal and of the direction,
/// `gamma` is the cosine and `c` the scaled component, `n * gamma / s` less
/// the `e / s` that rounding took away.
pub proof fn lemma_scaled_normal_component(s: int, n: int, d: int, gamma: int, e: int, c: int)
    requires
        s * c == n * gamma - e,
    ensures
        (s * s) * (c * c) == (gamma * gamma) * (n * n) - 2 * (gamma * (n * e)) + e * e,
        s * (d * c) == gamma * (d * n) - d * e,
{
    let x = n * gamma;
    assert((s * c) * (s * c) == x * x - 2 * (x * e) + e * e) by (nonlinear_arith)
        requires
            s * c == x - e,
    ;
    assert((s * c) * (s * c) == (s * s) * (c * c)) by (nonlinear_arith);
    assert(x * x == (gamma * gamma) * (n * n)) by (nonlinear_arith)
        requires
            x == n * gamma,
    ;
    assert(x * e == gamma * (n * e)) by (nonlinear_arith)
        requires
            x == n * gamma,
    ;
    assert(s * (d * c) == d * (s * c)) by (nonlinear_arith);
    assert(d * (x - e) == gamma * (d * n) - d * e) by (nonlinear_arith)
        requires
            x == n * gamma,
    ;
}

/// The squared length of the part of a direction across the normal, in
/// integers: where direction and normal are unit vectors and the cosine of
/// the angle between them is `gamma / s`, it lies within `109 s` of
/// `s^2 - gamma^2`.
///
/// `nd` and `nn` are the exact squared lengths of the direction and of the
/// normal and `dn` their exact dot product; `dot` is the rounded dot product
/// of the direction turned round and the normal, `gamma` that cut to `s`.
/// `sum_c`, `sum_dc` are the squared length of the normal scaled by the
/// cosine and its dot product with the direction, and `mix_d`, `mix_n`,
/// `sum_e` the sums over what the rounding of that scaling took away.
pub proof fn lemma_across_of_integers(
    s: int,
    nd: int,
    nn: int,
    dn: int,
    dot: int,
    e_dot: int,
    gamma: int,
    sum_c: int,
    sum_dc: int,
    mix_d: int,
    mix_n: int,
    sum_e: int,
    sum_p: int,
)
    requires
        s == 0x1_0000_0000,
        s * s - 11 * s <= nd < s * s + 21 * s,
        s * s - 11 * s <= nn < s * s + 21 * s,
        dn * dn <= nd * nn,
        s * dot == -dn - e_dot,
        -3 * s < e_dot < 3 * s,
        0 <= dot,
        gamma == if dot <= s {
            dot
        } else {
            s
        },
        (s * s) * sum_c == (gamma * gamma) * nn - 2 * (gamma * mix_n) + sum_e,
        s * sum_dc == gamma * dn - mix_d,
        -3 * (s * (s + 8)) <= mix_d <= 3 * (s * (s + 8)),
        -3 * (s * (s + 8)) <= mix_n <= 3 * (s * (s + 8)),
        0 <= sum_e < 3 * (s * s),
        sum_p == nd + 2 * sum_dc + sum_c,
    ensures
        0 <= dot - gamma <= 24,
        -109 * s <= sum_p - (s * s - gamma * gamma) <= 109 * s,
{
    let ss = s * s;
    let top = ss + 21 * s;
    // The dot product is at most 24 above one.
    assert(nd * nn < top * top) by (nonlinear_arith)
        requires
            0 <= nd < top,
            0 <= nn < top,
    ;
    assert(0 <= top) by (nonlinear_arith)
        requires
            top == s * s + 21 * s,
            0 < s,
    ;
    assert(-top < dn < top) by {
        if dn >= top {
            lemma_square_order(top, dn);
        }
        if dn <= -top {
            lemma_square_order(top, -dn);
            assert((-dn) * (-dn) == dn * dn) by (nonlinear_arith);
        }
    }
    assert(dot <= s + 24) by (nonlinear_arith)
        requires
            s * dot == -dn - e_dot,
            -top < dn,
            -3 * s < e_dot,
            top == s * s + 21 * s,
            0 < s,
    {
        if dot >= s + 25 {
            assert(s * dot >= s * (s + 25));
        }
    }
    let x = dot - gamma;
    assert(0 <= x <= 24);
    assert(0 <= gamma <= s);

    // s^2 times the squared length, term by term.
    assert(ss * sum_p == ss * nd + 2 * (s * (s * sum_dc)) + ss * sum_c) by (nonlinear_arith)
        requires
            sum_p == nd + 2 * sum_dc + sum_c,
            ss == s * s,
    ;
    assert(s * (s * sum_dc) == gamma * (s * dn) - s * mix_d) by (nonlinear_arith)
        requires
            s * sum_dc == gamma * dn - mix_d,
    ;
    assert(gamma * (s * dn) == -(ss * (gamma * dot)) - gamma * (s * e_dot)) by (nonlinear_arith)
        requires
            s * dot == -dn - e_dot,
            ss == s * s,
    {
        assert(s * dn == -(s * (s * dot)) - s * e_dot);
        assert(gamma * (s * (s * dot)) == (s * s) * (gamma * dot));
    }
    assert(gamma * dot == gamma * gamma + gamma * x) by (nonlinear_arith)
        requires
            x == dot - gamma,
    ;
    let gg = gamma * gamma;
    let a_d = nd - ss;
    let a_n = nn - ss;
    assert(gg * nn == gg * ss + gg * a_n) by (nonlinear_arith)
        requires
            a_n == nn - ss,
    ;
    assert(ss * nd == ss * ss + ss * a_d) by (nonlinear_arith)
        requires
            a_d == nd - ss,
    ;
    assert(ss * (gamma * dot) == ss * gg + ss * (gamma * x)) by (nonlinear_arith)
        requires
            gamma * dot == gg + gamma * x,
    ;
    // ss * sum_p = ss * (ss - gg) + ss * a_d - 2 ss gamma x + gg a_n
    //     - 2 gamma s e_dot - 2 s mix_d - 2 gamma mix_n + sum_e.
    let rest = ss * a_d - 2 * (ss * (gamma * x)) + gg * a_n - 2 * (gamma * (s * e_dot)) - 2 * (s
        * mix_d) - 2 * (gamma * mix_n) + sum_e;
    assert(ss * sum_p == ss * ss - ss * gg + rest) by (nonlinear_arith)
        requires
            ss * sum_p == ss * nd + 2 * (s * (s * sum_dc)) + ss * sum_c,
            s * (s * sum_dc) == gamma * (s * dn) - s * mix_d,
            gamma * (s * dn) == -(ss * (gamma * dot)) - gamma * (s * e_dot),
            ss * (gamma * dot) == ss * gg + ss * (gamma * x),
            ss * sum_c == gg * nn - 2 * (gamma * mix_n) + sum_e,
            gg * nn == gg * ss + gg * a_n,
            ss * nd == ss * ss + ss * a_d,
            rest == ss * a_d - 2 * (ss * (gamma * x)) + gg * a_n - 2 * (gamma * (s * e_dot)) - 2
                * (s * mix_d) - 2 * (gamma * mix_n) + sum_e,
    ;
    // The bounds of the terms.
    assert(-11 * (ss * s) <= ss * a_d <= 21 * (ss * s)) by (nonlinear_arith)
        requires
            -11 * s <= a_d < 21 * s,
            0 < ss,
    ;
    assert(0 <= ss * (gamma * x) <= 24 * (ss * s)) by (nonlinear_arith)
        requires
            0 <= x <= 24,
            0 <= gamma <= s,
            0 < ss,
    {
        assert(gamma * x <= s * 24);
        assert(0 <= gamma * x);
    }
    assert(0 <= gg <= ss) by (nonlinear_arith)
        requires
            gg == gamma * gamma,
            ss == s * s,
            0 <= gamma <= s,
    ;
    lemma_bounded_product(a_n, gg, 21 * s);
    assert(-21 * (ss * s) <= gg * a_n <= 21 * (ss * s)) by (nonlinear_arith)
        requires
            -((21 * s) * magnitude(gg)) <= a_n * gg <= (21 * s) * magnitude(gg),
            0 <= gg <= ss,
            0 < s,
    {
        assert((21 * s) * magnitude(gg) <= (21 * s) * ss);
        assert(gg * a_n == a_n * gg);
    }
    assert(-3 * (ss * s) <= gamma * (s * e_dot) <= 3 * (ss * s)) by (nonlinear_arith)
        requires
            -3 * s < e_dot < 3 * s,
            0 <= gamma <= s,
            ss == s * s,
            0 < s,
    {
        assert(-3 * ss <= s * e_dot <= 3 * ss);
        assert(gamma * (s * e_dot) <= gamma * (3 * ss));
        assert(gamma * (s * e_dot) >= gamma * (-3 * ss));
        assert(gamma * (3 * ss) <= s * (3 * ss));
    }
    assert(-4 * (ss * s) <= s * mix_d <= 4 * (ss * s)) by (nonlinear_arith)
        requires
            -3 * (s * (s + 8)) <= mix_d <= 3 * (s * (s + 8)),
            ss == s * s,
            s == 0x1_0000_0000,
    {
        assert(3 * (s * (s + 8)) <= 4 * ss);
    }
    assert(-4 * (ss * s) <= gamma * mix_n <= 4 * (ss * s)) by (nonlinear_arith)
        requires
            -3 * (s * (s + 8)) <= mix_n <= 3 * (s * (s + 8)),
            0 <= gamma <= s,
            ss == s * s,
            s == 0x1_0000_0000,
    {
        assert(3 * (s * (s + 8)) <= 4 * ss);
        assert(gamma * mix_n <= gamma * (4 * ss));
        assert(gamma * mix_n >= gamma * (-4 * ss));
        assert(gamma * (4 * ss) <= s * (4 * ss));
    }
    assert(sum_e <= ss * s) by (nonlinear_arith)
        requires
            sum_e < 3 * ss,
            ss == s * s,
            s == 0x1_0000_0000,
    ;
    assert(-109 * (ss * s) <= rest <= 109 * (ss * s));
    assert(-109 * s <= sum_p - (ss - gg) <= 109 * s) by (nonlinear_arith)
        requires
            ss * sum_p == ss * ss - ss * gg + rest,
            -109 * (ss * s) <= rest <= 109 * (ss * s),
            0 < ss,
    {
        let z = sum_p - (ss - gg);
        assert(ss * z == rest);
        if z >= 109 * s + 1 {
            assert(ss * z >= ss * (109 * s + 1));
        }
        if z <= -109 * s - 1 {
            assert(ss * z <= ss * (-109 * s - 1));
        }
    }
}

/// The root of a number close to a square is close to the root of the
/// square: where `q * s` lies within `112 s` of `gamma^2`, and `gamma` is at
/// least `s / p`, the root of `q * s`, rounded down, lies within `112 p + 1`
/// of `gamma`.
pub proof fn lemma_root_near(s: int, gamma: int, qs: int, rho: int, p: int)
    requires
        s == 0x1_0000_0000,
        2 <= p <= 4096,
        s <= p * gamma,
        gamma <= s,
        gamma * gamma - 109 * s <= qs <= gamma * gamma + 112 * s,
        0 <= rho,
        rho * rho <= qs < (rho + 1) * (rho + 1),
    ensures
        -(112 * p + 1) <= rho - gamma <= 112 * p + 1,
{
    let gg = gamma * gamma;
    let d = 112 * p + 1;
    assert(0 < gamma) by (nonlinear_arith)
        requires
            s <= p * gamma,
            2 <= p,
            0 < s,
    ;
    // 2 gamma d >= 224 s, and d^2 < 64 s.
    assert(2 * (gamma * d) >= 224 * s) by (nonlinear_arith)
        requires
            d == 112 * p + 1,
            s <= p * gamma,
            0 <= gamma,
            2 <= p,
    {
        assert(gamma * d == 112 * (p * gamma) + gamma);
    }
    assert(0 < d * d < 64 * s) by (nonlinear_arith)
        requires
            d == 112 * p + 1,
            2 <= p <= 4096,
            s == 0x1_0000_0000,
    {
        assert(d * d <= 458753 * 458753);
    }
    if rho >= gamma + d + 1 {
        lemma_square_order(gamma + d + 1, rho);
        assert((gamma + d + 1) * (gamma + d + 1) > gg + 112 * s) by (nonlinear_arith)
            requires
                gg == gamma * gamma,
                2 * (gamma * d) >= 224 * s,
                0 < d,
                0 <= gamma,
        {
            assert((gamma + d + 1) * (gamma + d + 1) == gg + 2 * (gamma * d) + 2 * gamma + (d + 1)
                * (d + 1));
            assert((d + 1) * (d + 1) > 0);
        }
    }
    if rho <= gamma - d - 1 {
        lemma_square_order(rho + 1, gamma - d);
        assert((gamma - d) * (gamma - d) < gg - 109 * s) by (nonlinear_arith)
            requires
                gg == gamma * gamma,
                2 * (gamma * d) >= 224 * s,
                0 < d * d < 64 * s,
        {
            assert((gamma - d) * (gamma - d) == gg - 2 * (gamma * d) + d * d);
        }
    }
}

/// One component of a ray bent at a matched index against the same
/// component of the ray, in integers.
///
/// `n` is the component of the normal, `c` that component scaled by the
/// cosine `gamma` and `back` the component of the opposite normal scaled by
/// `rho`, each less what rounding took away; `rho` lies within `d` of
/// `gamma`.
pub proof fn lemma_straight_component(
    s: int,
    n: int,
    gamma: int,
    rho: int,
    c: int,
    e: int,
    back: int,
    f: int,
    d: int,
)
    requires
        s == 0x1_0000_0000,
        0 < d <= 0x10_0000,
        -(s + 8) <= n <= s + 8,
        -d <= rho - gamma <= d,
        s * c == n * gamma - e,
        s * back == -(n * rho) - f,
        -s < e < s,
        -s < f < s,
    ensures
        -(d + 2) <= c + back <= d + 2,
{
    assert(s * (c + back) == n * (gamma - rho) - e - f) by (nonlinear_arith)
        requires
            s * c == n * gamma - e,
            s * back == -(n * rho) - f,
    ;
    lemma_bounded_product(gamma - rho, n, d);
    assert(-(d + 2) <= c + back <= d + 2) by (nonlinear_arith)
        requires
            s * (c + back) == n * (gamma - rho) - e - f,
            -(d * magnitude(n)) <= (gamma - rho) * n <= d * magnitude(n),
            magnitude(n) <= s + 8,
            -s < e < s,
            -s < f < s,
            0 < d <= 0x10_0000,
            s == 0x1_0000_0000,
    {
        assert(n * (gamma - rho) == (gamma - rho) * n);
        assert(d * magnitude(n) <= d * (s + 8));
        assert(d * (s + 8) == d * s + 8 * d);
        if c + back >= d + 3 {
            assert(s * (c + back) >= s * (d + 3));
            assert(s * (d + 3) == d * s + 3 * s);
        }
        if c + back <= -(d + 3) {
            assert(s * (c + back) <= s * (-(d + 3)));
            assert(s * (-(d + 3)) == -(d * s) - 3 * s);
        }
    }
}

/// The cosine of the angle between a direction turned round and a normal,
/// and 1 where rounding took it above, as `refract` takes it.
pub open spec fn matched_cosine(direction: Vector3, normal: Vector3) -> Fixed {
    Vector3::dot(&direction.neg(), &normal).min(Fixed::one())
}

/// The part of a direction across a normal, as `refract` takes it where the
/// two materials have the same index.
pub open spec fn matched_across(direction: Vector3, normal: Vector3) -> Vector3 {
    direction.add(normal.scale(matched_cosine(direction, normal))).scale(Fixed::one())
}

/// One less the squared length of that part, whose root `refract` takes
/// along the normal.
pub open spec fn matched_rest(direction: Vector3, normal: Vector3) -> Fixed {
    Fixed::one().sub(matched_across(direction, normal).len_sq())
}

/// The part of a unit direction across a unit normal: one less its squared
/// length lies within `112 / 2^32` of the square of the cosine.
pub proof fn lemma_matched_across(direction: Vector3, normal: Vector3)
    requires
        is_nearly_unit(direction),
        is_nearly_unit(normal),
        Vector3::dot(&direction.neg(), &normal).raw >= 0,
    ensures
        0 <= matched_cosine(direction, normal).raw <= SCALE,
        matched_across(direction, normal) == direction.add(
            normal.scale(matched_cosine(direction, normal)),
        ),
        matched_cosine(direction, normal).raw * matched_cosine(direction, normal).raw - 109
            * SCALE <= matched_rest(direction, normal).raw * SCALE <= matched_cosine(
            direction,
            normal,
        ).raw * matched_cosine(direction, normal).raw + 112 * SCALE,
{
    let s = SCALE as int;
    let one = Fixed::one();
    let d1 = direction.x.raw as int;
    let d2 = direction.y.raw as int;
    let d3 = direction.z.raw as int;
    let n1 = normal.x.raw as int;
    let n2 = normal.y.raw as int;
    let n3 = normal.z.raw as int;
    lemma_exact_length(direction);
    lemma_exact_length(normal);
    let nd = d1 * d1 + d2 * d2 + d3 * d3;
    let nn = n1 * n1 + n2 * n2 + n3 * n3;
    let dn = d1 * n1 + d2 * n2 + d3 * n3;
    lemma_lagrange(d1, d2, d3, n1, n2, n3);
    assert(dn * dn <= nd * nn) by (nonlinear_arith)
        requires
            (d2 * n3 - d3 * n2) * (d2 * n3 - d3 * n2) + (d3 * n1 - d1 * n3) * (d3 * n1 - d1 * n3)
                + (d1 * n2 - d2 * n1) * (d1 * n2 - d2 * n1) == nd * nn - dn * dn,
    ;

    // The cosine.
    let back = direction.neg();
    lemma_bounded_mul(back.x, normal.x, s + 8, s + 8, 2 * s);
    lemma_bounded_mul(back.y, normal.y, s + 8, s + 8, 2 * s);
    lemma_bounded_mul(back.z, normal.z, s + 8, s + 8, 2 * s);
    let dot = Vector3::dot(&back, &normal).raw as int;
    assert(dot == back.x.mul(normal.x).raw + back.y.mul(normal.y).raw + back.z.mul(normal.z).raw);
    let e_dot = lost((-d1) * n1, s) + lost((-d2) * n2, s) + lost((-d3) * n3, s);
    assert((-d1) * n1 == -(d1 * n1) && (-d2) * n2 == -(d2 * n2) && (-d3) * n3 == -(d3 * n3))
        by (nonlinear_arith);
    assert(s * dot == -dn - e_dot);
    let cos = Vector3::dot(&back, &normal).min(one);
    let gamma = cos.raw as int;

    // The normal scaled by the cosine.
    lemma_bounded_mul(normal.x, cos, s + 8, s, 2 * s);
    lemma_bounded_mul(normal.y, cos, s + 8, s, 2 * s);
    lemma_bounded_mul(normal.z, cos, s + 8, s, 2 * s);
    let scaled = normal.scale(cos);
    let c1 = scaled.x.raw as int;
    let c2 = scaled.y.raw as int;
    let c3 = scaled.z.raw as int;
    let e1 = lost(n1 * gamma, s);
    let e2 = lost(n2 * gamma, s);
    let e3 = lost(n3 * gamma, s);
    lemma_scaled_normal_component(s, n1, d1, gamma, e1, c1);
    lemma_scaled_normal_component(s, n2, d2, gamma, e2, c2);
    lemma_scaled_normal_component(s, n3, d3, gamma, e3, c3);
    let ss = s * s;
    let gg = gamma * gamma;
    let sum_c = c1 * c1 + c2 * c2 + c3 * c3;
    let sum_dc = d1 * c1 + d2 * c2 + d3 * c3;
    let mix_d = d1 * e1 + d2 * e2 + d3 * e3;
    let mix_n = n1 * e1 + n2 * e2 + n3 * e3;
    let sum_e = e1 * e1 + e2 * e2 + e3 * e3;
    assert(ss * sum_c == ss * (c1 * c1) + ss * (c2 * c2) + ss * (c3 * c3)) by (nonlinear_arith)
        requires
            sum_c == c1 * c1 + c2 * c2 + c3 * c3,
    ;
    assert(gg * nn == gg * (n1 * n1) + gg * (n2 * n2) + gg * (n3 * n3)) by (nonlinear_arith)
        requires
            nn == n1 * n1 + n2 * n2 + n3 * n3,
    ;
    assert(gamma * mix_n == gamma * (n1 * e1) + gamma * (n2 * e2) + gamma * (n3 * e3))
        by (nonlinear_arith)
        requires
            mix_n == n1 * e1 + n2 * e2 + n3 * e3,
    ;
    assert(ss * sum_c == gg * nn - 2 * (gamma * mix_n) + sum_e);
    assert(s * sum_dc == s * (d1 * c1) + s * (d2 * c2) + s * (d3 * c3)) by (nonlinear_arith)
        requires
            sum_dc == d1 * c1 + d2 * c2 + d3 * c3,
    ;
    assert(gamma * dn == gamma * (d1 * n1) + gamma * (d2 * n2) + gamma * (d3 * n3))
        by (nonlinear_arith)
        requires
            dn == d1 * n1 + d2 * n2 + d3 * n3,
    ;
    assert(s * sum_dc == gamma * dn - mix_d);
    lemma_bounded_product(e1, d1, s);
    lemma_bounded_product(e2, d2, s);
    lemma_bounded_product(e3, d3, s);
    lemma_bounded_product(e1, n1, s);
    lemma_bounded_product(e2, n2, s);
    lemma_bounded_product(e3, n3, s);
    assert(-3 * (s * (s + 8)) <= mix_d <= 3 * (s * (s + 8)) && -3 * (s * (s + 8)) <= mix_n <= 3 * (
    s * (s + 8)) && 0 <= sum_e < 3 * (s * s)) by (nonlinear_arith)
        requires
            mix_d == d1 * e1 + d2 * e2 + d3 * e3,
            mix_n == n1 * e1 + n2 * e2 + n3 * e3,
            sum_e == e1 * e1 + e2 * e2 + e3 * e3,
            -(s * magnitude(d1)) <= e1 * d1 <= s * magnitude(d1),
            -(s * magnitude(d2)) <= e2 * d2 <= s * magnitude(d2),
            -(s * magnitude(d3)) <= e3 * d3 <= s * magnitude(d3),
            -(s * magnitude(n1)) <= e1 * n1 <= s * magnitude(n1),
            -(s * magnitude(n2)) <= e2 * n2 <= s * magnitude(n2),
            -(s * magnitude(n3)) <= e3 * n3 <= s * magnitude(n3),
            magnitude(d1) <= s + 8,
            magnitude(d2) <= s + 8,
            magnitude(d3) <= s + 8,
            magnitude(n1) <= s + 8,
            magnitude(n2) <= s + 8,
            magnitude(n3) <= s + 8,
            -s < e1 < s,
            -s < e2 < s,
            -s < e3 < s,
            0 < s,
    {
        assert(s * magnitude(d1) <= s * (s + 8));
        assert(s * magnitude(d2) <= s * (s + 8));
        assert(s * magnitude(d3) <= s * (s + 8));
        assert(s * magnitude(n1) <= s * (s + 8));
        assert(s * magnitude(n2) <= s * (s + 8));
        assert(s * magnitude(n3) <= s * (s + 8));
        assert(d1 * e1 == e1 * d1 && d2 * e2 == e2 * d2 && d3 * e3 == e3 * d3);
        assert(n1 * e1 == e1 * n1 && n2 * e2 == e2 * n2 && n3 * e3 == e3 * n3);
        assert(e1 * e1 < s * s);
        assert(e2 * e2 < s * s);
        assert(e3 * e3 < s * s);
        assert(0 <= e1 * e1 && 0 <= e2 * e2 && 0 <= e3 * e3);
    }

    // The part of the direction across the normal.
    let across = direction.add(scaled);
    let p1 = d1 + c1;
    let p2 = d2 + c2;
    let p3 = d3 + c3;
    assert(across.x.raw == p1 && across.y.raw == p2 && across.z.raw == p3);
    lemma_mul_whole(1i64, across.x);
    lemma_mul_whole(1i64, across.y);
    lemma_mul_whole(1i64, across.z);
    let perp = across.scale(one);
    assert(perp == across);
    let sum_p = p1 * p1 + p2 * p2 + p3 * p3;
    assert(sum_p == nd + 2 * sum_dc + sum_c) by (nonlinear_arith)
        requires
            sum_p == (d1 + c1) * (d1 + c1) + (d2 + c2) * (d2 + c2) + (d3 + c3) * (d3 + c3),
            nd == d1 * d1 + d2 * d2 + d3 * d3,
            sum_dc == d1 * c1 + d2 * c2 + d3 * c3,
            sum_c == c1 * c1 + c2 * c2 + c3 * c3,
    ;
    lemma_across_of_integers(
        s,
        nd,
        nn,
        dn,
        dot,
        e_dot,
        gamma,
        sum_c,
        sum_dc,
        mix_d,
        mix_n,
        sum_e,
        sum_p,
    );

    // The part along the normal.
    lemma_bounded_mul(perp.x, perp.x, 4 * s, 4 * s, 16 * s);
    lemma_bounded_mul(perp.y, perp.y, 4 * s, 4 * s, 16 * s);
    lemma_bounded_mul(perp.z, perp.z, 4 * s, 4 * s, 16 * s);
    assert(p1 * p1 >= 0 && p2 * p2 >= 0 && p3 * p3 >= 0) by (nonlinear_arith);
    let p = perp.len_sq().raw as int;
    assert(p == perp.x.mul(perp.x).raw + perp.y.mul(perp.y).raw + perp.z.mul(perp.z).raw);
    let e_p = lost(p1 * p1, s) + lost(p2 * p2, s) + lost(p3 * p3, s);
    assert(s * p == sum_p - e_p);
    let q = one.sub(perp.len_sq());
    assert(q.raw == s - p);
    let qs = q.raw * s;
    assert(qs == gg - (sum_p - (ss - gg)) + e_p) by (nonlinear_arith)
        requires
            qs == (s - p) * s,
            s * p == sum_p - e_p,
            ss == s * s,
    ;
    assert(gg - 109 * s <= qs <= gg + 112 * s);
    assert(q == matched_rest(direction, normal));
}

/// The root of a number close to the square of a cosine, whatever the
/// cosine: it lies within 693582 of the cosine, in raw units.
pub proof fn lemma_root_anywhere(s: int, gamma: int, qs: int, rho: int)
    requires
        s == 0x1_0000_0000,
        0 <= gamma <= s,
        gamma * gamma - 109 * s <= qs <= gamma * gamma + 112 * s,
        rho == root(qs),
    ensures
        0 <= rho,
        -693582 <= rho - gamma <= 693582,
{
    let gg = gamma * gamma;
    let d: int = 693582;
    assert(d * d > 112 * s);
    if qs <= 0 {
        if gamma > d {
            lemma_square_order(d, gamma);
        }
    } else {
        lemma_root_exists(qs);
        if rho >= gamma + d + 1 {
            lemma_square_order(gamma + d + 1, rho);
            assert((gamma + d + 1) * (gamma + d + 1) > gg + 112 * s) by (nonlinear_arith)
                requires
                    gg == gamma * gamma,
                    d * d > 112 * s,
                    0 <= gamma,
                    0 < d,
            {
                assert((gamma + d + 1) * (gamma + d + 1) == gg + 2 * (gamma * (d + 1)) + (d + 1)
                    * (d + 1));
                assert((d + 1) * (d + 1) > d * d);
                assert(gamma * (d + 1) >= 0);
            }
        }
        if rho <= gamma - d - 1 {
            lemma_square_order(rho + 1, gamma - d);
            assert((gamma - d) * (gamma - d) <= gg - 112 * s) by (nonlinear_arith)
                requires
                    gg == gamma * gamma,
                    d * d > 112 * s,
                    gamma >= d,
                    0 < d,
            {
                assert((gamma - d) * (gamma - d) == gg - 2 * (gamma * d) + d * d);
                assert(gamma * d >= d * d);
            }
        }
    }
}

/// A ray that passes a surface between two materials of the same index goes
/// on as straight as the root that `refract` takes lies close to the cosine:
/// where the two lie within `bound` of each other, the bent direction lies
/// within `bound + 2` of the direction, in every component.
pub proof fn lemma_matched_along(direction: Vector3, normal: Vector3, bound: int)
    requires
        is_nearly_unit(direction),
        is_nearly_unit(normal),
        Vector3::dot(&direction.neg(), &normal).raw >= 0,
        0 < bound <= 0x10_0000,
        -bound <= matched_rest(direction, normal).sqrt().raw - matched_cosine(
            direction,
            normal,
        ).raw <= bound,
    ensures
        within(Vector3::refract(&direction, &normal, Fixed::one()), direction, bound + 2),
{
    let s = SCALE as int;
    let one = Fixed::one();
    let n1 = normal.x.raw as int;
    let n2 = normal.y.raw as int;
    let n3 = normal.z.raw as int;
    lemma_matched_across(direction, normal);
    let cos = matched_cosine(direction, normal);
    let gamma = cos.raw as int;
    lemma_bounded_mul(normal.x, cos, s + 8, s, 2 * s);
    lemma_bounded_mul(normal.y, cos, s + 8, s, 2 * s);
    lemma_bounded_mul(normal.z, cos, s + 8, s, 2 * s);
    let scaled = normal.scale(cos);
    let c1 = scaled.x.raw as int;
    let c2 = scaled.y.raw as int;
    let c3 = scaled.z.raw as int;
    let e1 = lost(n1 * gamma, s);
    let e2 = lost(n2 * gamma, s);
    let e3 = lost(n3 * gamma, s);
    let perp = matched_across(direction, normal);
    assert(perp == direction.add(scaled));
    let q = matched_rest(direction, normal);
    lemma_results_in_range(q, q);
    let rho = q.sqrt().raw as int;
    let along = normal.neg().scale(q.sqrt());
    lemma_bounded_mul(normal.neg().x, q.sqrt(), s + 8, 2 * s, 4 * s);
    lemma_bounded_mul(normal.neg().y, q.sqrt(), s + 8, 2 * s, 4 * s);
    lemma_bounded_mul(normal.neg().z, q.sqrt(), s + 8, 2 * s, 4 * s);
    let f1 = lost((-n1) * rho, s);
    let f2 = lost((-n2) * rho, s);
    let f3 = lost((-n3) * rho, s);
    assert((-n1) * rho == -(n1 * rho) && (-n2) * rho == -(n2 * rho) && (-n3) * rho == -(n3 * rho))
        by (nonlinear_arith);
    lemma_straight_component(s, n1, gamma, rho, c1, e1, along.x.raw as int, f1, bound);
    lemma_straight_component(s, n2, gamma, rho, c2, e2, along.y.raw as int, f2, bound);
    lemma_straight_component(s, n3, gamma, rho, c3, e3, along.z.raw as int, f3, bound);
    let bent = Vector3::refract(&direction, &normal, one);
    assert(bent == perp.add(along));
}

/// A ray that passes a surface between two materials of the same index goes
/// straight on: for a unit direction and a unit normal, and a cosine of the
/// angle between them of at least `1 / k`, for a whole number `k` from 2 to
/// 4096, the bent direction lies within `(112 k + 3) / 2^32` of the
/// direction, in every component: within `227 / 2^32` under 60 degrees.
pub proof fn lemma_refract_matched(direction: Vector3, normal: Vector3, k: int)
    requires
        is_nearly_unit(direction),
        is_nearly_unit(normal),
        2 <= k <= 4096,
        k * Vector3::dot(&direction.neg(), &normal).raw >= SCALE,
    ensures
        within(Vector3::refract(&direction, &normal, Fixed::one()), direction, 112 * k + 3),
{
    let s = SCALE as int;
    let dot = Vector3::dot(&direction.neg(), &normal).raw as int;
    assert(0 < dot) by (nonlinear_arith)
        requires
            k * dot >= s,
            2 <= k,
            0 < s,
    ;
    lemma_matched_across(direction, normal);
    let gamma = matched_cosine(direction, normal).raw as int;
    let q = matched_rest(direction, normal);
    let qs = q.raw * s;
    assert(s <= k * gamma) by (nonlinear_arith)
        requires
            k * dot >= s,
            gamma == dot || (gamma == s && dot > s),
            2 <= k,
            0 < s,
    ;
    assert(gamma * gamma >= 109 * s) by (nonlinear_arith)
        requires
            s <= k * gamma,
            2 <= k <= 4096,
            s == 0x1_0000_0000,
    {
        assert(gamma >= 1048576);
        assert(gamma * gamma >= 1048576 * 1048576);
    }
    lemma_root_exists(qs);
    let rho = root(qs);
    lemma_root_near(s, gamma, qs, rho, k);
    assert(q.sqrt().raw == rho) by {
        reveal(Fixed::spec_sqrt);
    }
    lemma_matched_along(direction, normal, 112 * k + 1);
}

/// A ray that passes a surface between two materials of the same index goes
/// straight on at every angle: for a unit direction and a unit normal that
/// the direction does not point along, the bent direction lies within
/// `693584 / 2^32` of the direction, less than two ten-thousandths, in every
/// component.
pub proof fn lemma_refract_matched_anywhere(direction: Vector3, normal: Vector3)
    requires
        is_nearly_unit(direction),
        is_nearly_unit(normal),
        Vector3::dot(&direction.neg(), &normal).raw >= 0,
    ensures
        within(Vector3::refract(&direction, &normal, Fixed::one()), direction, 693584),
{
    let s = SCALE as int;
    lemma_matched_across(direction, normal);
    let gamma = matched_cosine(direction, normal).raw as int;
    let q = matched_rest(direction, normal);
    let qs = q.raw * s;
    let rho = root(qs);
    lemma_root_anywhere(s, gamma, qs, rho);
    assert(q.sqrt().raw == rho) by {
        reveal(Fixed::spec_sqrt);
    }
    lemma_matched_along(direction, normal, 693582);
}

} // verus!
