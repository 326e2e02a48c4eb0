//! How long the direction of a ray is that a surface between two materials
//! has bent.
use super::accuracy::{
    is_nearly_unit, lemma_bounded_product, lemma_exact_length, lemma_lagrange, lemma_lost, lost,
    magnitude,
};
use super::hit_accuracy::lemma_bounded_mul;
use super::refraction::{lemma_matched_across, matched_across, matched_cosine, matched_rest};
use super::vector3::Vector3;
use crate::fixed::{lemma_mul_whole, lemma_root_exists, root, Fixed, SCALE};
use vstd::prelude::*;

verus! {

/// The largest ratio of refractive indices for which `lemma_bent_length`
/// speaks: the number 4.
pub const RATIO_MAX: i64 = 17179869184;

/// The part of the direction `uv` across the normal `n`, scaled by the ratio
/// `ir` of the refractive indices, as `refract` takes it.
pub open spec fn bent_across(uv: Vector3, n: Vector3, ir: Fixed) -> Vector3 {
    uv.add(n.scale(Vector3::dot(&uv.neg(), &n).min(Fixed::one()))).scale(ir)
}

/// One component of the part across the normal, times the same component of
/// the normal, in integers.
///
/// `d` and `n` are the components of the direction and of the normal,
/// `gamma` is the cosine and `a` the component of the part across the
/// normal, with `e` taken away by the rounding.
pub proof fn lemma_across_component(s: int, d: int, n: int, gamma: int, e: int, a: int)
    requires
        s * a == s * d + n * gamma - e,
    ensures
        s * (a * n) == s * (d * n) + gamma * (n * n) - e * n,
{
    assert(s * (a * n) == (s * a) * n) by (nonlinear_arith);
    assert((s * d + n * gamma - e) * n == s * (d * n) + gamma * (n * n) - e * n)
        by (nonlinear_arith);
}

/// The same component scaled by the ratio `kappa`, with `g` taken away by
/// the rounding.
pub proof fn lemma_ratio_component(s: int, a: int, n: int, kappa: int, g: int, p: int)
    requires
        s * p == a * kappa - g,
    ensures
        s * (p * n) == kappa * (a * n) - g * n,
{
    assert(s * (p * n) == (s * p) * n) by (nonlinear_arith);
    assert((a * kappa - g) * n == kappa * (a * n) - g * n) by (nonlinear_arith);
}

/// One component of the part along the normal, in integers: its square, and
/// its product with the same component `p` of the part across.
///
/// `n` is the component of the normal, `rho` the length of the part along
/// the normal and `b` its component, with `f` taken away by the rounding.
pub proof fn lemma_along_component(s: int, n: int, rho: int, f: int, p: int, b: int)
    requires
        s * b == -(n * rho) - f,
    ensures
        (s * s) * (b * b) == (rho * rho) * (n * n) + 2 * (rho * (n * f)) + f * f,
        s * (p * b) == -(rho * (p * n)) - p * f,
{
    let y = n * rho;
    assert((s * b) * (s * b) == y * y + 2 * (y * f) + f * f) by (nonlinear_arith)
        requires
            s * b == -y - f,
    ;
    assert((s * b) * (s * b) == (s * s) * (b * b)) by (nonlinear_arith);
    assert(y * y == (rho * rho) * (n * n) && y * f == rho * (n * f)) by (nonlinear_arith)
        requires
            y == n * rho,
    ;
    assert(s * (p * b) == p * (s * b)) by (nonlinear_arith);
    assert(p * (-(n * rho) - f) == -(rho * (p * n)) - p * f) by (nonlinear_arith);
}

/// A sum of three terms times a factor is the sum of the terms times the
/// factor.
pub proof fn lemma_sum_times(k: int, x: int, y: int, z: int)
    by (nonlinear_arith)
    ensures
        k * (x + y + z) == k * x + k * y + k * z,
{
}

/// The dot product of two unit vectors, in integers: it lies no further than
/// `24 / 2^32` beyond 1.
///
/// `nd` and `nn` are the exact squared lengths, `dn` the exact dot product
/// and `dot` the rounded one, with `e` taken away by the rounding.
pub proof fn lemma_dot_of_units(s: int, nd: int, nn: int, dn: int, dot: int, e: int)
    requires
        s == 0x1_0000_0000,
        s * s - 11 * s <= nd < s * s + 21 * s,
        s * s - 11 * s <= nn < s * s + 21 * s,
        dn * dn <= nd * nn,
        s * dot == dn - e,
        -3 * s < e < 3 * s,
    ensures
        -s - 24 <= dot <= s + 24,
        -(s * s + 21 * s) < dn < s * s + 21 * s,
{
    let top = s * s + 21 * s;
    assert(nd * nn < top * top) by (nonlinear_arith)
        requires
            0 <= nd < top,
            0 <= nn < top,
    {
        assert(nd * nn <= nd * top);
        assert(nd * top <= top * top);
    }
    assert(-top < dn < top) by (nonlinear_arith)
        requires
            dn * dn < top * top,
            0 < top,
    {
        if dn >= top {
            assert(dn * dn >= top * top);
        }
        if dn <= -top {
            assert((-dn) * (-dn) >= top * top);
            assert((-dn) * (-dn) == dn * dn);
        }
    }
    assert(-s - 24 <= dot <= s + 24) by (nonlinear_arith)
        requires
            s * dot == dn - e,
            -3 * s < e < 3 * s,
            -top < dn < top,
            top == s * s + 21 * s,
            0 < s,
    {
        if dot >= s + 25 {
            assert(s * dot >= s * (s + 25));
        }
        if dot <= -s - 25 {
            assert(s * dot <= s * (-s - 25));
        }
    }
}

/// The part of a direction across the normal is nearly at right angles to
/// the normal, in integers: the exact dot product `an` of the two lies
/// within `52 s` of zero.
///
/// `gamma` is the cosine, the rounded dot product `dot` of the direction
/// turned round and the normal cut to `s`; `en` is the sum over what the
/// rounding of the normal scaled by the cosine took away.
pub proof fn lemma_across_is_level(
    s: int,
    nn: int,
    dn: int,
    dot: int,
    e_dot: int,
    gamma: int,
    en: int,
    an: int,
)
    requires
        s == 0x1_0000_0000,
        s * s - 11 * s <= nn < s * s + 21 * s,
        s * dot == -dn - e_dot,
        -3 * s < e_dot < 3 * s,
        0 <= dot <= s + 24,
        gamma == if dot <= s {
            dot
        } else {
            s
        },
        -3 * (s * (s + 8)) <= en <= 3 * (s * (s + 8)),
        s * an == s * dn + gamma * nn - en,
    ensures
        -52 * s <= an <= 52 * s,
{
    let ss = s * s;
    let x = dot - gamma;
    let gap = nn - ss;
    assert(0 <= x <= 24 && 0 <= gamma <= s);
    assert(s * an == -(ss * x) - s * e_dot + gamma * gap - en) by (nonlinear_arith)
        requires
            s * an == s * dn + gamma * nn - en,
            s * dot == -dn - e_dot,
            x == dot - gamma,
            gap == nn - ss,
            ss == s * s,
    {
        assert(s * dn == -(s * (s * dot)) - s * e_dot);
        assert(s * (s * dot) == ss * gamma + ss * x);
        assert(gamma * nn == gamma * gap + gamma * ss);
    }
    lemma_bounded_product(gap, gamma, 21 * s);
    assert(-52 * ss <= s * an <= 52 * ss) by (nonlinear_arith)
        requires
            s * an == -(ss * x) - s * e_dot + gamma * gap - en,
            0 <= x <= 24,
            -3 * s < e_dot < 3 * s,
            -((21 * s) * magnitude(gamma)) <= gap * gamma <= (21 * s) * magnitude(gamma),
            0 <= gamma <= s,
            -3 * (s * (s + 8)) <= en <= 3 * (s * (s + 8)),
            ss == s * s,
            s == 0x1_0000_0000,
    {
        assert(ss * x <= ss * 24);
        assert(ss * x >= 0);
        assert(-3 * ss < s * e_dot < 3 * ss);
        assert((21 * s) * magnitude(gamma) <= (21 * s) * s);
        assert(gamma * gap == gap * gamma);
        assert(3 * (s * (s + 8)) <= 4 * ss);
    }
    assert(-52 * s <= an <= 52 * s) by (nonlinear_arith)
        requires
            -52 * ss <= s * an <= 52 * ss,
            ss == s * s,
            0 < s,
    {
        if an >= 52 * s + 1 {
            assert(s * an >= s * (52 * s + 1));
        }
        if an <= -52 * s - 1 {
            assert(s * an <= s * (-52 * s - 1));
        }
    }
}

/// The bent part across the normal and the part along it are nearly at
/// right angles, in integers: their exact dot product `x` lies within
/// `240 s` of zero.
///
/// `kappa` is the ratio of the indices, `an` the dot product of the part
/// across and the normal before it is scaled by the ratio, `pn` after it;
/// `rho` is the length of the part along the normal, and `gn`, `pf` are the
/// sums over what rounding took away.
pub proof fn lemma_parts_are_level(
    s: int,
    kappa: int,
    an: int,
    gn: int,
    pn: int,
    rho: int,
    pf: int,
    x: int,
)
    requires
        s == 0x1_0000_0000,
        0 <= kappa <= 4 * s,
        -52 * s <= an <= 52 * s,
        -3 * (s * (s + 8)) <= gn <= 3 * (s * (s + 8)),
        s * pn == kappa * an - gn,
        0 <= rho <= s,
        -27 * (s * s) <= pf <= 27 * (s * s),
        s * x == -(rho * pn) - pf,
    ensures
        -212 * s <= pn <= 212 * s,
        -240 * s <= x <= 240 * s,
{
    let ss = s * s;
    lemma_bounded_product(an, kappa, 52 * s);
    assert(-212 * ss <= s * pn <= 212 * ss) by (nonlinear_arith)
        requires
            s * pn == kappa * an - gn,
            -((52 * s) * magnitude(kappa)) <= an * kappa <= (52 * s) * magnitude(kappa),
            0 <= kappa <= 4 * s,
            -3 * (s * (s + 8)) <= gn <= 3 * (s * (s + 8)),
            ss == s * s,
            s == 0x1_0000_0000,
    {
        assert((52 * s) * magnitude(kappa) <= (52 * s) * (4 * s));
        assert(kappa * an == an * kappa);
        assert(3 * (s * (s + 8)) <= 4 * ss);
    }
    assert(-212 * s <= pn <= 212 * s) by (nonlinear_arith)
        requires
            -212 * ss <= s * pn <= 212 * ss,
            ss == s * s,
            0 < s,
    {
        if pn >= 212 * s + 1 {
            assert(s * pn >= s * (212 * s + 1));
        }
        if pn <= -212 * s - 1 {
            assert(s * pn <= s * (-212 * s - 1));
        }
    }
    lemma_bounded_product(pn, rho, 212 * s);
    assert(-240 * ss <= s * x <= 240 * ss) by (nonlinear_arith)
        requires
            s * x == -(rho * pn) - pf,
            -((212 * s) * magnitude(rho)) <= pn * rho <= (212 * s) * magnitude(rho),
            0 <= rho <= s,
            -27 * (s * s) <= pf <= 27 * (s * s),
            ss == s * s,
    {
        assert((212 * s) * magnitude(rho) <= (212 * s) * s);
        assert(rho * pn == pn * rho);
    }
    assert(-240 * s <= x <= 240 * s) by (nonlinear_arith)
        requires
            -240 * ss <= s * x <= 240 * ss,
            ss == s * s,
            0 < s,
    {
        if x >= 240 * s + 1 {
            assert(s * x >= s * (240 * s + 1));
        }
        if x <= -240 * s - 1 {
            assert(s * x <= s * (-240 * s - 1));
        }
    }
}

/// The squared length of a bent direction, in integers: it lies within
/// `514 s` of `s^2`.
///
/// `pp` is the exact squared length of the part across the normal and `p`
/// the rounded one, `q` is `s - p` and `rho` its root; `r` is the exact
/// squared length of the part along the normal, `x` the dot product of the
/// two parts and `o` the exact squared length of the bent direction.
pub proof fn lemma_bent_length_of_integers(
    s: int,
    nn: int,
    pp: int,
    p: int,
    e_p: int,
    q: int,
    rho: int,
    f_n: int,
    f_2: int,
    r: int,
    x: int,
    o: int,
)
    requires
        s == 0x1_0000_0000,
        s * s - 11 * s <= nn < s * s + 21 * s,
        s * p == pp - e_p,
        0 <= e_p < 3 * s,
        q == s - p,
        0 <= q <= s,
        0 <= rho,
        rho * rho <= q * s < (rho + 1) * (rho + 1),
        -3 * (s * (s + 8)) <= f_n <= 3 * (s * (s + 8)),
        0 <= f_2 < 3 * (s * s),
        (s * s) * r == (rho * rho) * nn + 2 * (rho * f_n) + f_2,
        -240 * s <= x <= 240 * s,
        o == pp + 2 * x + r,
    ensures
        rho <= s,
        -514 * s <= o - s * s <= 514 * s,
{
    let ss = s * s;
    let sss = ss * s;
    let square = rho * rho;
    assert(rho <= s) by (nonlinear_arith)
        requires
            0 <= rho,
            rho * rho <= q * s,
            0 <= q <= s,
            0 < s,
    {
        assert(q * s <= s * s);
        if rho >= s + 1 {
            assert(rho * rho >= (s + 1) * (s + 1));
        }
    }
    assert(0 <= square <= ss) by (nonlinear_arith)
        requires
            square == rho * rho,
            0 <= rho <= s,
            ss == s * s,
    {
        assert(rho * rho <= rho * s);
        assert(rho * s <= s * s);
    }
    let gap = nn - ss;
    assert(ss * (r - square) == square * gap + 2 * (rho * f_n) + f_2) by (nonlinear_arith)
        requires
            ss * r == square * nn + 2 * (rho * f_n) + f_2,
            gap == nn - ss,
    {
        assert(square * nn == square * gap + square * ss);
        assert(ss * (r - square) == ss * r - ss * square);
    }
    lemma_bounded_product(gap, square, 21 * s);
    lemma_bounded_product(f_n, rho, 3 * (s * (s + 8)));
    assert(-(29 * sss) <= ss * (r - square) <= 29 * sss) by (nonlinear_arith)
        requires
            ss * (r - square) == square * gap + 2 * (rho * f_n) + f_2,
            -((21 * s) * magnitude(square)) <= gap * square <= (21 * s) * magnitude(square),
            -((3 * (s * (s + 8))) * magnitude(rho)) <= f_n * rho <= (3 * (s * (s + 8)))
                * magnitude(rho),
            0 <= square <= ss,
            0 <= rho <= s,
            0 <= f_2 < 3 * ss,
            sss == ss * s,
            ss == s * s,
            s == 0x1_0000_0000,
    {
        assert((21 * s) * magnitude(square) <= (21 * s) * ss);
        assert((21 * s) * ss == 21 * sss);
        assert((3 * (s * (s + 8))) * magnitude(rho) <= (3 * (s * (s + 8))) * s);
        assert((3 * (s * (s + 8))) * s == 3 * sss + 24 * ss);
        assert(square * gap == gap * square);
        assert(rho * f_n == f_n * rho);
        assert(51 * ss <= sss);
    }
    assert(-29 * s <= r - square <= 29 * s) by (nonlinear_arith)
        requires
            -(29 * sss) <= ss * (r - square) <= 29 * sss,
            sss == ss * s,
            0 < ss,
    {
        if r - square >= 29 * s + 1 {
            assert(ss * (r - square) >= ss * (29 * s + 1));
        }
        if r - square <= -29 * s - 1 {
            assert(ss * (r - square) <= ss * (-29 * s - 1));
        }
    }
    let zeta = q * s - square;
    assert((rho + 1) * (rho + 1) == square + 2 * rho + 1) by (nonlinear_arith)
        requires
            square == rho * rho,
    ;
    assert(0 <= zeta <= 2 * s);
    assert(pp == ss - q * s + e_p) by (nonlinear_arith)
        requires
            s * p == pp - e_p,
            q == s - p,
            ss == s * s,
    {
        assert(s * p == s * s - s * q);
        assert(s * q == q * s);
    }
    assert(o - ss == e_p + 2 * x + (r - square) - zeta);
}

/// A surface between two materials bends a ray without stretching it: for a
/// unit direction and a unit normal that the direction does not point along,
/// a ratio of the indices of at most 4, and a part across the normal that is
/// no longer than 1, so that a bent ray exists, the squared length of the
/// bent direction lies within `517 / 2^32` of 1.
pub proof fn lemma_bent_length(uv: Vector3, n: Vector3, ir: Fixed)
    requires
        is_nearly_unit(uv),
        is_nearly_unit(n),
        Vector3::dot(&uv.neg(), &n).raw >= 0,
        0 <= ir.raw <= RATIO_MAX,
        bent_across(uv, n, ir).len_sq().raw <= SCALE,
    ensures
        SCALE - 517 <= Vector3::refract(&uv, &n, ir).len_sq().raw <= SCALE + 514,
{
    let s = SCALE as int;
    let ss = s * s;
    let one = Fixed::one();
    let d1 = uv.x.raw as int;
    let d2 = uv.y.raw as int;
    let d3 = uv.z.raw as int;
    let n1 = n.x.raw as int;
    let n2 = n.y.raw as int;
    let n3 = n.z.raw as int;
    let kappa = ir.raw as int;
    lemma_exact_length(uv);
    lemma_exact_length(n);
    let nd = d1 * d1 + d2 * d2 + d3 * d3;
    let nn = n1 * n1 + n2 * n2 + n3 * n3;
    let dn = d1 * n1 + d2 * n2 + d3 * n3;
    lemma_lagrange(d1, d2, d3, n1, n2, n3);
    assert(dn * dn <= nd * nn) by (nonlinear_arith)
        requires
            (d2 * n3 - d3 * n2) * (d2 * n3 - d3 * n2) + (d3 * n1 - d1 * n3) * (d3 * n1 - d1 * n3)
                + (d1 * n2 - d2 * n1) * (d1 * n2 - d2 * n1) == nd * nn - dn * dn,
    ;

    // The cosine.
    let back = uv.neg();
    lemma_bounded_mul(back.x, n.x, s + 8, s + 8, 2 * s);
    lemma_bounded_mul(back.y, n.y, s + 8, s + 8, 2 * s);
    lemma_bounded_mul(back.z, n.z, s + 8, s + 8, 2 * s);
    let dot = Vector3::dot(&back, &n).raw as int;
    assert(dot == back.x.mul(n.x).raw + back.y.mul(n.y).raw + back.z.mul(n.z).raw);
    let e_dot = lost((-d1) * n1, s) + lost((-d2) * n2, s) + lost((-d3) * n3, s);
    assert((-d1) * n1 == -(d1 * n1) && (-d2) * n2 == -(d2 * n2) && (-d3) * n3 == -(d3 * n3))
        by (nonlinear_arith);
    assert(s * dot == -dn - e_dot);
    assert((-dn) * (-dn) == dn * dn) by (nonlinear_arith);
    lemma_dot_of_units(s, nd, nn, -dn, dot, e_dot);
    let cos = Vector3::dot(&back, &n).min(one);
    let gamma = cos.raw as int;

    // The normal scaled by the cosine, and the part across the normal.
    lemma_bounded_mul(n.x, cos, s + 8, s, s + 8);
    lemma_bounded_mul(n.y, cos, s + 8, s, s + 8);
    lemma_bounded_mul(n.z, cos, s + 8, s, s + 8);
    let scaled = n.scale(cos);
    let e1 = lost(n1 * gamma, s);
    let e2 = lost(n2 * gamma, s);
    let e3 = lost(n3 * gamma, s);
    let across = uv.add(scaled);
    let a1 = across.x.raw as int;
    let a2 = across.y.raw as int;
    let a3 = across.z.raw as int;
    assert(s * a1 == s * d1 + n1 * gamma - e1 && s * a2 == s * d2 + n2 * gamma - e2 && s * a3 == s
        * d3 + n3 * gamma - e3);
    let en = e1 * n1 + e2 * n2 + e3 * n3;
    let an = a1 * n1 + a2 * n2 + a3 * n3;
    lemma_bounded_product(e1, n1, s);
    lemma_bounded_product(e2, n2, s);
    lemma_bounded_product(e3, n3, s);
    assert(-3 * (s * (s + 8)) <= en <= 3 * (s * (s + 8))) by (nonlinear_arith)
        requires
            en == e1 * n1 + e2 * n2 + e3 * n3,
            -(s * magnitude(n1)) <= e1 * n1 <= s * magnitude(n1),
            -(s * magnitude(n2)) <= e2 * n2 <= s * magnitude(n2),
            -(s * magnitude(n3)) <= e3 * n3 <= s * magnitude(n3),
            magnitude(n1) <= s + 8,
            magnitude(n2) <= s + 8,
            magnitude(n3) <= s + 8,
            0 < s,
    {
        assert(s * magnitude(n1) <= s * (s + 8));
        assert(s * magnitude(n2) <= s * (s + 8));
        assert(s * magnitude(n3) <= s * (s + 8));
    }
    lemma_across_component(s, d1, n1, gamma, e1, a1);
    lemma_across_component(s, d2, n2, gamma, e2, a2);
    lemma_across_component(s, d3, n3, gamma, e3, a3);
    lemma_sum_times(s, a1 * n1, a2 * n2, a3 * n3);
    lemma_sum_times(s, d1 * n1, d2 * n2, d3 * n3);
    lemma_sum_times(gamma, n1 * n1, n2 * n2, n3 * n3);
    assert(s * an == s * dn + gamma * nn - en);
    lemma_across_is_level(s, nn, dn, dot, e_dot, gamma, en, an);

    // That part scaled by the ratio.
    lemma_bounded_mul(across.x, ir, 2 * s + 16, 4 * s, 9 * s);
    lemma_bounded_mul(across.y, ir, 2 * s + 16, 4 * s, 9 * s);
    lemma_bounded_mul(across.z, ir, 2 * s + 16, 4 * s, 9 * s);
    let perp = across.scale(ir);
    assert(perp == bent_across(uv, n, ir));
    let p1 = perp.x.raw as int;
    let p2 = perp.y.raw as int;
    let p3 = perp.z.raw as int;
    let g1 = lost(a1 * kappa, s);
    let g2 = lost(a2 * kappa, s);
    let g3 = lost(a3 * kappa, s);
    let gn = g1 * n1 + g2 * n2 + g3 * n3;
    let pn = p1 * n1 + p2 * n2 + p3 * n3;
    lemma_bounded_product(g1, n1, s);
    lemma_bounded_product(g2, n2, s);
    lemma_bounded_product(g3, n3, s);
    assert(-3 * (s * (s + 8)) <= gn <= 3 * (s * (s + 8))) by (nonlinear_arith)
        requires
            gn == g1 * n1 + g2 * n2 + g3 * n3,
            -(s * magnitude(n1)) <= g1 * n1 <= s * magnitude(n1),
            -(s * magnitude(n2)) <= g2 * n2 <= s * magnitude(n2),
            -(s * magnitude(n3)) <= g3 * n3 <= s * magnitude(n3),
            magnitude(n1) <= s + 8,
            magnitude(n2) <= s + 8,
            magnitude(n3) <= s + 8,
            0 < s,
    {
        assert(s * magnitude(n1) <= s * (s + 8));
        assert(s * magnitude(n2) <= s * (s + 8));
        assert(s * magnitude(n3) <= s * (s + 8));
    }
    lemma_ratio_component(s, a1, n1, kappa, g1, p1);
    lemma_ratio_component(s, a2, n2, kappa, g2, p2);
    lemma_ratio_component(s, a3, n3, kappa, g3, p3);
    lemma_sum_times(s, p1 * n1, p2 * n2, p3 * n3);
    lemma_sum_times(kappa, a1 * n1, a2 * n2, a3 * n3);
    assert(s * pn == kappa * an - gn);

    // Its squared length, and what is left of 1.
    lemma_bounded_mul(perp.x, perp.x, 9 * s, 9 * s, 81 * s);
    lemma_bounded_mul(perp.y, perp.y, 9 * s, 9 * s, 81 * s);
    lemma_bounded_mul(perp.z, perp.z, 9 * s, 9 * s, 81 * s);
    assert(p1 * p1 >= 0 && p2 * p2 >= 0 && p3 * p3 >= 0) by (nonlinear_arith);
    let p = perp.len_sq().raw as int;
    assert(p == perp.x.mul(perp.x).raw + perp.y.mul(perp.y).raw + perp.z.mul(perp.z).raw);
    let pp = p1 * p1 + p2 * p2 + p3 * p3;
    let e_p = lost(p1 * p1, s) + lost(p2 * p2, s) + lost(p3 * p3, s);
    assert(s * p == pp - e_p);
    let rest = one.sub(perp.len_sq());
    let q = rest.raw as int;
    assert(q == s - p && 0 <= q <= s);
    let qs = q * s;
    assert(0 <= qs) by (nonlinear_arith)
        requires
            qs == q * s,
            0 <= q,
            0 < s,
    ;
    lemma_root_exists(qs);
    let rho = root(qs);
    assert(rho <= s) by (nonlinear_arith)
        requires
            0 <= rho,
            rho * rho <= qs,
            qs == q * s,
            0 <= q <= s,
            0 < s,
    {
        assert(q * s <= s * s);
        if rho >= s + 1 {
            assert(rho * rho >= (s + 1) * (s + 1));
        }
    }
    assert(rest.sqrt().raw == rho) by {
        reveal(Fixed::spec_sqrt);
    }

    // The part along the normal.
    let along = n.neg().scale(rest.sqrt());
    lemma_bounded_mul(n.neg().x, rest.sqrt(), s + 8, s, 2 * s);
    lemma_bounded_mul(n.neg().y, rest.sqrt(), s + 8, s, 2 * s);
    lemma_bounded_mul(n.neg().z, rest.sqrt(), s + 8, s, 2 * s);
    let b1 = along.x.raw as int;
    let b2 = along.y.raw as int;
    let b3 = along.z.raw as int;
    let f1 = lost((-n1) * rho, s);
    let f2 = lost((-n2) * rho, s);
    let f3 = lost((-n3) * rho, s);
    assert((-n1) * rho == -(n1 * rho) && (-n2) * rho == -(n2 * rho) && (-n3) * rho == -(n3 * rho))
        by (nonlinear_arith);
    assert(s * b1 == -(n1 * rho) - f1 && s * b2 == -(n2 * rho) - f2 && s * b3 == -(n3 * rho) - f3);
    let f_n = n1 * f1 + n2 * f2 + n3 * f3;
    let f_2 = f1 * f1 + f2 * f2 + f3 * f3;
    let pf = p1 * f1 + p2 * f2 + p3 * f3;
    let r = b1 * b1 + b2 * b2 + b3 * b3;
    let x = p1 * b1 + p2 * b2 + p3 * b3;
    lemma_bounded_product(f1, n1, s);
    lemma_bounded_product(f2, n2, s);
    lemma_bounded_product(f3, n3, s);
    lemma_bounded_product(f1, p1, s);
    lemma_bounded_product(f2, p2, s);
    lemma_bounded_product(f3, p3, s);
    assert(-3 * (s * (s + 8)) <= f_n <= 3 * (s * (s + 8)) && 0 <= f_2 < 3 * ss && -27 * ss <= pf
        <= 27 * ss) by (nonlinear_arith)
        requires
            f_n == n1 * f1 + n2 * f2 + n3 * f3,
            f_2 == f1 * f1 + f2 * f2 + f3 * f3,
            pf == p1 * f1 + p2 * f2 + p3 * f3,
            -(s * magnitude(n1)) <= f1 * n1 <= s * magnitude(n1),
            -(s * magnitude(n2)) <= f2 * n2 <= s * magnitude(n2),
            -(s * magnitude(n3)) <= f3 * n3 <= s * magnitude(n3),
            -(s * magnitude(p1)) <= f1 * p1 <= s * magnitude(p1),
            -(s * magnitude(p2)) <= f2 * p2 <= s * magnitude(p2),
            -(s * magnitude(p3)) <= f3 * p3 <= s * magnitude(p3),
            magnitude(n1) <= s + 8,
            magnitude(n2) <= s + 8,
            magnitude(n3) <= s + 8,
            magnitude(p1) <= 9 * s,
            magnitude(p2) <= 9 * s,
            magnitude(p3) <= 9 * s,
            -s < f1 < s,
            -s < f2 < s,
            -s < f3 < s,
            ss == s * s,
            0 < s,
    {
        assert(s * magnitude(n1) <= s * (s + 8));
        assert(s * magnitude(n2) <= s * (s + 8));
        assert(s * magnitude(n3) <= s * (s + 8));
        assert(s * magnitude(p1) <= s * (9 * s));
        assert(s * magnitude(p2) <= s * (9 * s));
        assert(s * magnitude(p3) <= s * (9 * s));
        assert(n1 * f1 == f1 * n1 && n2 * f2 == f2 * n2 && n3 * f3 == f3 * n3);
        assert(p1 * f1 == f1 * p1 && p2 * f2 == f2 * p2 && p3 * f3 == f3 * p3);
        assert(f1 * f1 < s * s);
        assert(f2 * f2 < s * s);
        assert(f3 * f3 < s * s);
        assert(0 <= f1 * f1 && 0 <= f2 * f2 && 0 <= f3 * f3);
    }
    let square = rho * rho;
    lemma_along_component(s, n1, rho, f1, p1, b1);
    lemma_along_component(s, n2, rho, f2, p2, b2);
    lemma_along_component(s, n3, rho, f3, p3, b3);
    lemma_sum_times(ss, b1 * b1, b2 * b2, b3 * b3);
    lemma_sum_times(square, n1 * n1, n2 * n2, n3 * n3);
    lemma_sum_times(rho, n1 * f1, n2 * f2, n3 * f3);
    assert(ss * r == square * nn + 2 * (rho * f_n) + f_2);
    lemma_sum_times(s, p1 * b1, p2 * b2, p3 * b3);
    lemma_sum_times(rho, p1 * n1, p2 * n2, p3 * n3);
    assert(s * x == -(rho * pn) - pf);
    lemma_parts_are_level(s, kappa, an, gn, pn, rho, pf, x);

    // The bent direction and its squared length.
    let bent = Vector3::refract(&uv, &n, ir);
    assert(bent == perp.add(along));
    let o1 = bent.x.raw as int;
    let o2 = bent.y.raw as int;
    let o3 = bent.z.raw as int;
    assert(o1 == p1 + b1 && o2 == p2 + b2 && o3 == p3 + b3);
    let o = o1 * o1 + o2 * o2 + o3 * o3;
    assert(o == pp + 2 * x + r) by (nonlinear_arith)
        requires
            o == (p1 + b1) * (p1 + b1) + (p2 + b2) * (p2 + b2) + (p3 + b3) * (p3 + b3),
            pp == p1 * p1 + p2 * p2 + p3 * p3,
            x == p1 * b1 + p2 * b2 + p3 * b3,
            r == b1 * b1 + b2 * b2 + b3 * b3,
    ;
    lemma_bent_length_of_integers(s, nn, pp, p, e_p, q, rho, f_n, f_2, r, x, o);
    lemma_bounded_mul(bent.x, bent.x, 11 * s, 11 * s, 121 * s);
    lemma_bounded_mul(bent.y, bent.y, 11 * s, 11 * s, 121 * s);
    lemma_bounded_mul(bent.z, bent.z, 11 * s, 11 * s, 121 * s);
    assert(o1 * o1 >= 0 && o2 * o2 >= 0 && o3 * o3 >= 0) by (nonlinear_arith);
    let l = bent.len_sq().raw as int;
    assert(l == bent.x.mul(bent.x).raw + bent.y.mul(bent.y).raw + bent.z.mul(bent.z).raw);
    let e_l = lost(o1 * o1, s) + lost(o2 * o2, s) + lost(o3 * o3, s);
    assert(s * l == o - e_l);
    assert(s - 517 <= l <= s + 514) by (nonlinear_arith)
        requires
            s * l == o - e_l,
            0 <= e_l < 3 * s,
            -514 * s <= o - s * s <= 514 * s,
            0 < s,
    {
        if l >= s + 515 {
            assert(s * l >= s * (s + 515));
        }
        if l <= s - 518 {
            assert(s * l <= s * (s - 518));
        }
    }
}

/// The sine of the angle between a direction turned round and a normal, as
/// a clear material takes it: the root of one less the square of the cosine.
pub open spec fn bent_sine(uv: Vector3, n: Vector3) -> Fixed {
    Fixed::one().sub(matched_cosine(uv, n).mul(matched_cosine(uv, n))).sqrt()
}

/// Rounding toward zero does not lengthen: the square of `s` times a
/// rounded quotient `p` is at most the square of the dividend `t`.
pub proof fn lemma_square_shrinks(s: int, t: int, g: int, p: int)
    requires
        0 < s,
        s * p == t - g,
        t >= 0 ==> 0 <= g < s,
        t <= 0 ==> -s < g <= 0,
    ensures
        (s * s) * (p * p) <= t * t,
{
    let y = s * p;
    assert((s * s) * (p * p) == y * y) by (nonlinear_arith)
        requires
            y == s * p,
    ;
    if t >= 0 {
        assert(0 <= y <= t) by (nonlinear_arith)
            requires
                y == s * p,
                y == t - g,
                0 <= g < s,
                0 <= t,
                0 < s,
        {
            if p <= -1 {
                assert(s * p <= -s);
            }
        }
        assert(y * y <= t * t) by (nonlinear_arith)
            requires
                0 <= y <= t,
        {
            assert(y * y <= y * t);
            assert(y * t <= t * t);
        }
    } else {
        assert(t <= y <= 0) by (nonlinear_arith)
            requires
                y == s * p,
                y == t - g,
                -s < g <= 0,
                t <= 0,
                0 < s,
        {
            if p >= 1 {
                assert(s * p >= s);
            }
        }
        assert(y * y <= t * t) by (nonlinear_arith)
            requires
                t <= y <= 0,
        {
            assert((-y) * (-y) <= (-y) * (-t));
            assert((-y) * (-t) <= (-t) * (-t));
            assert((-y) * (-y) == y * y && (-t) * (-t) == t * t);
        }
    }
}

/// The part across the normal of a ray that is not mirrored is hardly
/// longer than 1, in integers: its rounded squared length `p` lies no more
/// than 1803 above `s`.
///
/// `kappa` is the ratio of the indices, `gamma` the cosine and `sine` the
/// sine, the root of `w * s`; `aa` is the exact squared length of the part
/// across before it is scaled by the ratio and `pp` after it.
pub proof fn lemma_across_of_unmirrored(
    s: int,
    kappa: int,
    gamma: int,
    aa: int,
    w: int,
    sine: int,
    pp: int,
    p: int,
)
    requires
        s == 0x1_0000_0000,
        0 <= kappa <= 4 * s,
        0 <= gamma <= s,
        0 <= aa <= s * s - gamma * gamma + 112 * s,
        w * s >= s * s - gamma * gamma,
        0 <= sine,
        w * s < (sine + 1) * (sine + 1),
        sine * kappa < s * s + s,
        (s * s) * pp <= (kappa * kappa) * aa,
        s * p <= pp,
    ensures
        p <= s + 1803,
{
    let ss = s * s;
    let gg = gamma * gamma;
    let kk = kappa * kappa;
    let level = ss - gg;
    assert(0 <= level) by (nonlinear_arith)
        requires
            level == s * s - gamma * gamma,
            0 <= gamma <= s,
    {
        assert(gamma * gamma <= gamma * s);
        assert(gamma * s <= s * s);
    }
    assert(0 <= kk <= 16 * ss) by (nonlinear_arith)
        requires
            kk == kappa * kappa,
            0 <= kappa <= 4 * s,
            ss == s * s,
    {
        assert(kappa * kappa <= kappa * (4 * s));
        assert(kappa * (4 * s) <= (4 * s) * (4 * s));
    }
    let reach = sine * kappa + kappa;
    assert(kk * ((sine + 1) * (sine + 1)) == reach * reach) by (nonlinear_arith)
        requires
            kk == kappa * kappa,
            reach == sine * kappa + kappa,
    ;
    assert(0 <= reach <= ss + 5 * s) by (nonlinear_arith)
        requires
            reach == sine * kappa + kappa,
            0 <= sine,
            0 <= kappa <= 4 * s,
            sine * kappa < ss + s,
    ;
    assert(reach * reach <= (ss + 5 * s) * (ss + 5 * s)) by (nonlinear_arith)
        requires
            0 <= reach <= ss + 5 * s,
    {
        assert(reach * reach <= reach * (ss + 5 * s));
        assert(reach * (ss + 5 * s) <= (ss + 5 * s) * (ss + 5 * s));
    }
    assert(kk * level <= reach * reach) by (nonlinear_arith)
        requires
            0 <= kk,
            level <= w * s,
            w * s < (sine + 1) * (sine + 1),
            kk * ((sine + 1) * (sine + 1)) == reach * reach,
    {
        assert(kk * level <= kk * (w * s));
        assert(kk * (w * s) <= kk * ((sine + 1) * (sine + 1)));
    }
    assert(kk * aa <= kk * level + 1792 * (ss * s)) by (nonlinear_arith)
        requires
            0 <= kk <= 16 * ss,
            aa <= level + 112 * s,
            0 < s,
    {
        assert(kk * aa <= kk * (level + 112 * s));
        assert(kk * (level + 112 * s) == kk * level + kk * (112 * s));
        assert(kk * (112 * s) <= (16 * ss) * (112 * s));
        assert((16 * ss) * (112 * s) == 1792 * (ss * s));
    }
    assert((ss + 5 * s) * (ss + 5 * s) + 1792 * (ss * s) <= ss * (ss + 1803 * s))
        by (nonlinear_arith)
        requires
            ss == s * s,
            s == 0x1_0000_0000,
    {
        assert((ss + 5 * s) * (ss + 5 * s) == ss * ss + 10 * (ss * s) + 25 * ss);
        assert(ss * (ss + 1803 * s) == ss * ss + 1803 * (ss * s));
        assert(25 * ss <= ss * s);
    }
    assert(ss * pp <= ss * (ss + 1803 * s));
    assert(pp <= ss + 1803 * s) by (nonlinear_arith)
        requires
            ss * pp <= ss * (ss + 1803 * s),
            0 < ss,
    {
        if pp >= ss + 1803 * s + 1 {
            assert(ss * pp >= ss * (ss + 1803 * s + 1));
        }
    }
    assert(p <= s + 1803) by (nonlinear_arith)
        requires
            s * p <= pp,
            pp <= s * s + 1803 * s,
            0 < s,
    {
        if p >= s + 1804 {
            assert(s * p >= s * (s + 1804));
        }
    }
}

/// The part across the normal of a ray that a clear surface does not mirror
/// is hardly longer than 1: for a unit direction and a unit normal that the
/// direction does not point along, and a ratio of the indices of at most 4,
/// where the sine times the ratio is at most 1, the squared length of the
/// part across the normal is at most `1 + 1803 / 2^32`.
pub proof fn lemma_across_within_one(uv: Vector3, n: Vector3, ir: Fixed)
    requires
        is_nearly_unit(uv),
        is_nearly_unit(n),
        Vector3::dot(&uv.neg(), &n).raw >= 0,
        0 <= ir.raw <= RATIO_MAX,
        bent_sine(uv, n).mul(ir).raw <= SCALE,
    ensures
        bent_across(uv, n, ir).len_sq().raw <= SCALE + 1803,
{
    let s = SCALE as int;
    let ss = s * s;
    let one = Fixed::one();
    let kappa = ir.raw as int;
    lemma_matched_across(uv, n);
    let cos = matched_cosine(uv, n);
    let gamma = cos.raw as int;
    let gg = gamma * gamma;
    assert(0 <= gg) by (nonlinear_arith)
        requires
            gg == gamma * gamma,
    ;

    // The part across the normal, before the ratio.
    lemma_bounded_mul(n.x, cos, s + 8, s, s + 8);
    lemma_bounded_mul(n.y, cos, s + 8, s, s + 8);
    lemma_bounded_mul(n.z, cos, s + 8, s, s + 8);
    let across = uv.add(n.scale(cos));
    assert(matched_across(uv, n) == across);
    let a1 = across.x.raw as int;
    let a2 = across.y.raw as int;
    let a3 = across.z.raw as int;
    assert((2 * s + 16) * (2 * s + 16) <= (5 * s) * SCALE) by (nonlinear_arith)
        requires
            s == 0x1_0000_0000,
            SCALE == 0x1_0000_0000,
    ;
    lemma_bounded_mul(across.x, across.x, 2 * s + 16, 2 * s + 16, 5 * s);
    lemma_bounded_mul(across.y, across.y, 2 * s + 16, 2 * s + 16, 5 * s);
    lemma_bounded_mul(across.z, across.z, 2 * s + 16, 2 * s + 16, 5 * s);
    assert(a1 * a1 >= 0 && a2 * a2 >= 0 && a3 * a3 >= 0) by (nonlinear_arith);
    let aa = a1 * a1 + a2 * a2 + a3 * a3;
    let span = across.len_sq().raw as int;
    assert(span == across.x.mul(across.x).raw + across.y.mul(across.y).raw + across.z.mul(
        across.z,
    ).raw);
    let e_a = lost(a1 * a1, s) + lost(a2 * a2, s) + lost(a3 * a3, s);
    assert(s * span == aa - e_a);
    assert(matched_rest(uv, n).raw == s - span);
    assert(aa <= ss - gg + 112 * s) by (nonlinear_arith)
        requires
            gg - 109 * s <= (s - span) * s,
            s * span == aa - e_a,
            0 <= e_a < 3 * s,
            ss == s * s,
    {
        assert((s - span) * s == ss - s * span);
    }

    // The sine.
    lemma_bounded_mul(cos, cos, s, s, s);
    let squared = cos.mul(cos);
    let e_c = lost(gg, s);
    assert(s * squared.raw == gg - e_c && 0 <= e_c < s);
    assert(0 <= squared.raw <= s) by (nonlinear_arith)
        requires
            s * squared.raw == gg - e_c,
            0 <= e_c < s,
            0 <= gg,
            gg == gamma * gamma,
            0 <= gamma <= s,
            0 < s,
    {
        assert(gamma * gamma <= gamma * s);
        assert(gamma * s <= s * s);
        if squared.raw >= s + 1 {
            assert(s * squared.raw >= s * (s + 1));
        }
        if squared.raw <= -1 {
            assert(s * squared.raw <= -s);
        }
    }
    let left = one.sub(squared);
    let w = left.raw as int;
    assert(w == s - squared.raw);
    assert(w * s >= ss - gg && 0 <= w * s <= ss) by (nonlinear_arith)
        requires
            w == s - squared.raw,
            s * squared.raw == gg - e_c,
            0 <= e_c < s,
            0 <= squared.raw <= s,
            ss == s * s,
            0 < s,
    {
        assert(w * s == ss - s * squared.raw);
    }
    lemma_root_exists(w * s);
    let sine = root(w * s);
    assert(sine <= s) by (nonlinear_arith)
        requires
            0 <= sine,
            sine * sine <= w * s,
            w * s <= ss,
            ss == s * s,
            0 < s,
    {
        if sine >= s + 1 {
            assert(sine * sine >= (s + 1) * (s + 1));
        }
    }
    assert(bent_sine(uv, n).raw == sine) by {
        reveal(Fixed::spec_sqrt);
    }
    lemma_bounded_mul(bent_sine(uv, n), ir, s, 4 * s, 4 * s);
    let e_m = lost(sine * kappa, s);
    assert(sine * kappa < ss + s) by (nonlinear_arith)
        requires
            s * bent_sine(uv, n).mul(ir).raw == sine * kappa - e_m,
            bent_sine(uv, n).mul(ir).raw <= s,
            -s < e_m < s,
            ss == s * s,
            0 < s,
    {
        assert(s * bent_sine(uv, n).mul(ir).raw <= s * s);
    }

    // The part across the normal, scaled by the ratio.
    lemma_bounded_mul(across.x, ir, 2 * s + 16, 4 * s, 9 * s);
    lemma_bounded_mul(across.y, ir, 2 * s + 16, 4 * s, 9 * s);
    lemma_bounded_mul(across.z, ir, 2 * s + 16, 4 * s, 9 * s);
    let perp = across.scale(ir);
    assert(perp == bent_across(uv, n, ir));
    let p1 = perp.x.raw as int;
    let p2 = perp.y.raw as int;
    let p3 = perp.z.raw as int;
    lemma_lost(a1 * kappa, s);
    lemma_lost(a2 * kappa, s);
    lemma_lost(a3 * kappa, s);
    lemma_square_shrinks(s, a1 * kappa, lost(a1 * kappa, s), p1);
    lemma_square_shrinks(s, a2 * kappa, lost(a2 * kappa, s), p2);
    lemma_square_shrinks(s, a3 * kappa, lost(a3 * kappa, s), p3);
    let kk = kappa * kappa;
    assert((a1 * kappa) * (a1 * kappa) == kk * (a1 * a1) && (a2 * kappa) * (a2 * kappa) == kk * (a2
        * a2) && (a3 * kappa) * (a3 * kappa) == kk * (a3 * a3)) by (nonlinear_arith)
        requires
            kk == kappa * kappa,
    ;
    let pp = p1 * p1 + p2 * p2 + p3 * p3;
    lemma_sum_times(ss, p1 * p1, p2 * p2, p3 * p3);
    lemma_sum_times(kk, a1 * a1, a2 * a2, a3 * a3);
    assert(ss * pp <= kk * aa);
    lemma_bounded_mul(perp.x, perp.x, 9 * s, 9 * s, 81 * s);
    lemma_bounded_mul(perp.y, perp.y, 9 * s, 9 * s, 81 * s);
    lemma_bounded_mul(perp.z, perp.z, 9 * s, 9 * s, 81 * s);
    assert(p1 * p1 >= 0 && p2 * p2 >= 0 && p3 * p3 >= 0) by (nonlinear_arith);
    let p = perp.len_sq().raw as int;
    assert(p == perp.x.mul(perp.x).raw + perp.y.mul(perp.y).raw + perp.z.mul(perp.z).raw);
    assert(s * p <= pp);
    lemma_across_of_unmirrored(s, kappa, gamma, aa, w, sine, pp, p);
}

/// A clear surface bends a ray that it does not mirror without stretching
/// it: for a unit direction and a unit normal that the direction does not
/// point along, and a ratio of the indices of at most 4, where the sine
/// times the ratio is at most 1, the squared length of the bent direction
/// lies between `1 - 517 / 2^32` and `1 + 1803 / 2^32`.
pub proof fn lemma_unmirrored_length(uv: Vector3, n: Vector3, ir: Fixed)
    requires
        is_nearly_unit(uv),
        is_nearly_unit(n),
        Vector3::dot(&uv.neg(), &n).raw >= 0,
        0 <= ir.raw <= RATIO_MAX,
        bent_sine(uv, n).mul(ir).raw <= SCALE,
    ensures
        SCALE - 517 <= Vector3::refract(&uv, &n, ir).len_sq().raw <= SCALE + 1803,
{
    let s = SCALE as int;
    lemma_across_within_one(uv, n, ir);
    let perp = bent_across(uv, n, ir);
    if perp.len_sq().raw <= SCALE {
        lemma_bent_length(uv, n, ir);
    } else {
        let rest = Fixed::one().sub(perp.len_sq());
        assert(rest.raw < 0);
        assert(rest.raw * s <= 0) by (nonlinear_arith)
            requires
                rest.raw < 0,
                0 < s,
        ;
        assert(rest.sqrt() == Fixed::zero()) by {
            reveal(Fixed::spec_sqrt);
        }
        lemma_mul_whole(0i64, n.neg().x);
        lemma_mul_whole(0i64, n.neg().y);
        lemma_mul_whole(0i64, n.neg().z);
        let along = n.neg().scale(rest.sqrt());
        assert(along == Vector3 { x: Fixed::zero(), y: Fixed::zero(), z: Fixed::zero() });
        lemma_matched_across(uv, n);
        let cos = matched_cosine(uv, n);
        lemma_bounded_mul(n.x, cos, s + 8, s, s + 8);
        lemma_bounded_mul(n.y, cos, s + 8, s, s + 8);
        lemma_bounded_mul(n.z, cos, s + 8, s, s + 8);
        let across = uv.add(n.scale(cos));
        lemma_bounded_mul(across.x, ir, 2 * s + 16, 4 * s, 9 * s);
        lemma_bounded_mul(across.y, ir, 2 * s + 16, 4 * s, 9 * s);
        lemma_bounded_mul(across.z, ir, 2 * s + 16, 4 * s, 9 * s);
        assert(Vector3::refract(&uv, &n, ir) == perp.add(along));
        assert(perp.add(along) == perp);
    }
}

} // verus!
