//! How long the mirror image of a unit vector is.
use super::accuracy::{
    is_nearly_unit, lemma_bounded_product, lemma_exact_length, lemma_lagrange,
    lemma_product_of_sums, lost, magnitude,
};
use super::hit_accuracy::lemma_bounded_mul;
use super::vector3::Vector3;
use crate::fixed::{lemma_mul_whole, Fixed, SCALE};
use vstd::prelude::*;

verus! {

/// The square of one component of a mirror image, in integers.
///
/// `v` and `n` are the components of the vector and of the normal, `t` is
/// twice their dot product, `f` what the rounding of `n * t / s` took away
/// and `r` the component of the mirror image.
pub proof fn lemma_mirror_component(s: int, v: int, n: int, t: int, f: int, r: int)
    requires
        s * r == s * v - n * t + f,
    ensures
        (s * s) * (r * r) == (s * s) * (v * v) + (t * t) * (n * n) + f * f - 2 * (s * (t * (v * n)))
            + 2 * (s * (v * f)) - 2 * (t * (n * f)),
{
    let a = s * v;
    let b = n * t;
    assert((s * r) * (s * r) == (a - b + f) * (a - b + f));
    assert((a - b + f) * (a - b + f) == a * a + b * b + f * f - 2 * (a * b) + 2 * (a * f) - 2 * (b
        * f)) by (nonlinear_arith);
    assert((s * r) * (s * r) == (s * s) * (r * r)) by (nonlinear_arith);
    assert(a * a == (s * s) * (v * v) && b * b == (t * t) * (n * n) && a * b == s * (t * (v * n))
        && a * f == s * (v * f) && b * f == t * (n * f)) by (nonlinear_arith)
        requires
            a == s * v,
            b == n * t,
    ;
}

/// The squared length of the mirror image of a unit vector at a surface
/// with a unit normal, in integers: it lies within `115 s` of that of the
/// vector.
///
/// `nd` and `nn` are the exact squared lengths of the vector and of the
/// normal, `dn` their exact dot product and `dot` the rounded one, with `e`
/// taken away by the rounding; `t` is twice `dot`. `sum_vf`, `sum_nf` and
/// `sum_f` are the sums over what the rounding of the scaled normal took
/// away, and `sum_r` is the exact squared length of the mirror image.
pub proof fn lemma_mirror_length_of_integers(
    s: int,
    nd: int,
    nn: int,
    dn: int,
    dot: int,
    e: int,
    t: int,
    sum_vf: int,
    sum_nf: int,
    sum_f: int,
    sum_r: int,
)
    requires
        s == 0x1_0000_0000,
        s * s - 11 * s <= nd < s * s + 21 * s,
        s * s - 11 * s <= nn < s * s + 21 * s,
        dn * dn <= nd * nn,
        s * dot == dn - e,
        -3 * s < e < 3 * s,
        t == 2 * dot,
        -3 * (s * (s + 8)) <= sum_vf <= 3 * (s * (s + 8)),
        -3 * (s * (s + 8)) <= sum_nf <= 3 * (s * (s + 8)),
        0 <= sum_f < 3 * (s * s),
        (s * s) * sum_r == (s * s) * nd + (t * t) * nn + sum_f - 2 * (s * (t * dn)) + 2 * (s
            * sum_vf) - 2 * (t * sum_nf),
    ensures
        -2 * s - 48 <= t <= 2 * s + 48,
        -115 * s <= sum_r - nd <= 115 * s,
{
    let ss = s * s;
    let sss = ss * s;
    let top = ss + 21 * s;
    // The dot product is at most 24 beyond one.
    assert(nd * nn < top * top) by (nonlinear_arith)
        requires
            0 <= nd < top,
            0 <= nn < top,
    {
        assert(nd * nn <= nd * top);
        assert(nd * top <= top * top);
    }
    assert(-top < dn < top) by (nonlinear_arith)
        requires
            dn * dn < top * top,
            0 < top,
    {
        if dn >= top {
            assert(dn * dn >= top * top);
        }
        if dn <= -top {
            assert((-dn) * (-dn) >= top * top);
            assert((-dn) * (-dn) == dn * dn);
        }
    }
    assert(-s - 24 <= dot <= s + 24) by (nonlinear_arith)
        requires
            s * dot == dn - e,
            -3 * s < e < 3 * s,
            -top < dn < top,
            top == s * s + 21 * s,
            0 < s,
    {
        if dot >= s + 25 {
            assert(s * dot >= s * (s + 25));
        }
        if dot <= -s - 25 {
            assert(s * dot <= s * (-s - 25));
        }
    }
    // s^2 t^2 is twice s t dn less twice s t e.
    let gap = nn - ss;
    assert(ss * sum_r - ss * nd == (t * t) * gap - 2 * (s * (t * e)) + 2 * (s * sum_vf) - 2 * (t
        * sum_nf) + sum_f) by (nonlinear_arith)
        requires
            ss * sum_r == ss * nd + (t * t) * nn + sum_f - 2 * (s * (t * dn)) + 2 * (s * sum_vf)
                - 2 * (t * sum_nf),
            s * dot == dn - e,
            t == 2 * dot,
            gap == nn - ss,
            ss == s * s,
    {
        assert(2 * dn == s * t + 2 * e);
        assert(2 * (s * (t * dn)) == (s * t) * (2 * dn));
        assert((s * t) * (s * t + 2 * e) == ss * (t * t) + 2 * (s * (t * e)));
        assert((t * t) * nn == (t * t) * gap + (t * t) * ss);
        assert((t * t) * ss == ss * (t * t));
    }
    let limit = 2 * s + 48;
    assert(0 <= t * t <= limit * limit) by (nonlinear_arith)
        requires
            -limit <= t <= limit,
    {
        assert((limit - t) * (limit + t) >= 0);
        assert((limit - t) * (limit + t) == limit * limit - t * t);
    }
    lemma_bounded_product(gap, t * t, 21 * s);
    lemma_bounded_product(e, t, 3 * s);
    lemma_bounded_product(sum_nf, t, 3 * (s * (s + 8)));
    assert(magnitude(t) <= limit && magnitude(t * t) == t * t);
    assert(-(84 * sss + 4033 * ss) <= (t * t) * gap <= 84 * sss + 4033 * ss) by (nonlinear_arith)
        requires
            -((21 * s) * (t * t)) <= gap * (t * t) <= (21 * s) * (t * t),
            0 <= t * t <= limit * limit,
            limit == 2 * s + 48,
            sss == (s * s) * s,
            ss == s * s,
            s == 0x1_0000_0000,
    {
        assert((21 * s) * (t * t) <= (21 * s) * (limit * limit));
        assert((21 * s) * (limit * limit) == 84 * sss + 4032 * (s * s) + 48384 * s);
        assert(48384 * s <= s * s);
        assert((t * t) * gap == gap * (t * t));
    }
    assert(-(12 * sss + 288 * ss) <= 2 * (s * (t * e)) <= 12 * sss + 288 * ss)
        by (nonlinear_arith)
        requires
            -((3 * s) * magnitude(t)) <= e * t <= (3 * s) * magnitude(t),
            0 <= magnitude(t) <= limit,
            limit == 2 * s + 48,
            sss == (s * s) * s,
            ss == s * s,
            s == 0x1_0000_0000,
    {
        assert((3 * s) * magnitude(t) <= (3 * s) * limit);
        assert(t * e == e * t);
        assert(2 * (s * ((3 * s) * limit)) == 12 * sss + 288 * (s * s));
        assert(s * (t * e) <= s * ((3 * s) * limit));
        assert(s * (t * e) >= s * (-((3 * s) * limit)));
    }
    assert(-(12 * sss + 385 * ss) <= 2 * (t * sum_nf) <= 12 * sss + 385 * ss)
        by (nonlinear_arith)
        requires
            -((3 * (s * (s + 8))) * magnitude(t)) <= sum_nf * t <= (3 * (s * (s + 8)))
                * magnitude(t),
            0 <= magnitude(t) <= limit,
            limit == 2 * s + 48,
            sss == (s * s) * s,
            ss == s * s,
            s == 0x1_0000_0000,
    {
        assert((3 * (s * (s + 8))) * magnitude(t) <= (3 * (s * (s + 8))) * limit);
        assert(t * sum_nf == sum_nf * t);
        assert(2 * ((3 * (s * (s + 8))) * limit) == 12 * sss + 384 * (s * s) + 2304 * s);
        assert(2304 * s <= s * s);
    }
    assert(-(6 * sss + 48 * ss) <= 2 * (s * sum_vf) <= 6 * sss + 48 * ss) by (nonlinear_arith)
        requires
            -3 * (s * (s + 8)) <= sum_vf <= 3 * (s * (s + 8)),
            sss == (s * s) * s,
            ss == s * s,
            s == 0x1_0000_0000,
    {
        assert(s * sum_vf <= s * (3 * (s * (s + 8))));
        assert(s * sum_vf >= s * (-3 * (s * (s + 8))));
        assert(2 * (s * (3 * (s * (s + 8)))) == 6 * sss + 48 * (s * s));
    }
    assert(-(115 * sss) <= ss * (sum_r - nd) <= 115 * sss) by (nonlinear_arith)
        requires
            ss * sum_r - ss * nd == (t * t) * gap - 2 * (s * (t * e)) + 2 * (s * sum_vf) - 2 * (t
                * sum_nf) + sum_f,
            -(84 * sss + 4033 * ss) <= (t * t) * gap <= 84 * sss + 4033 * ss,
            -(12 * sss + 288 * ss) <= 2 * (s * (t * e)) <= 12 * sss + 288 * ss,
            -(12 * sss + 385 * ss) <= 2 * (t * sum_nf) <= 12 * sss + 385 * ss,
            -(6 * sss + 48 * ss) <= 2 * (s * sum_vf) <= 6 * sss + 48 * ss,
            0 <= sum_f < 3 * ss,
            sss == ss * s,
            ss == s * s,
            s == 0x1_0000_0000,
    {
        assert(ss * (sum_r - nd) == ss * sum_r - ss * nd);
        assert(4757 * ss <= sss);
    }
    assert(-115 * s <= sum_r - nd <= 115 * s) by (nonlinear_arith)
        requires
            -(115 * sss) <= ss * (sum_r - nd) <= 115 * sss,
            sss == ss * s,
            0 < ss,
    {
        if sum_r - nd >= 115 * s + 1 {
            assert(ss * (sum_r - nd) >= ss * (115 * s + 1));
        }
        if sum_r - nd <= -115 * s - 1 {
            assert(ss * (sum_r - nd) <= ss * (-115 * s - 1));
        }
    }
}

/// A mirror keeps the length of what it mirrors: for a vector and a normal
/// of nearly unit length, the squared length of the mirror image lies
/// between `1 - 129 / 2^32` and `1 + 136 / 2^32`, whatever the angle.
pub proof fn lemma_mirror_length(v: Vector3, normal: Vector3)
    requires
        is_nearly_unit(v),
        is_nearly_unit(normal),
    ensures
        SCALE - 129 <= v.reflect(&normal).len_sq().raw <= SCALE + 136,
{
    let s = SCALE as int;
    let v1 = v.x.raw as int;
    let v2 = v.y.raw as int;
    let v3 = v.z.raw as int;
    let n1 = normal.x.raw as int;
    let n2 = normal.y.raw as int;
    let n3 = normal.z.raw as int;
    lemma_exact_length(v);
    lemma_exact_length(normal);
    let nd = v1 * v1 + v2 * v2 + v3 * v3;
    let nn = n1 * n1 + n2 * n2 + n3 * n3;
    let dn = v1 * n1 + v2 * n2 + v3 * n3;
    lemma_lagrange(v1, v2, v3, n1, n2, n3);
    assert(dn * dn <= nd * nn) by (nonlinear_arith)
        requires
            (v2 * n3 - v3 * n2) * (v2 * n3 - v3 * n2) + (v3 * n1 - v1 * n3) * (v3 * n1 - v1 * n3)
                + (v1 * n2 - v2 * n1) * (v1 * n2 - v2 * n1) == nd * nn - dn * dn,
    ;

    // The dot product, and twice it.
    lemma_bounded_mul(v.x, normal.x, s + 8, s + 8, 2 * s);
    lemma_bounded_mul(v.y, normal.y, s + 8, s + 8, 2 * s);
    lemma_bounded_mul(v.z, normal.z, s + 8, s + 8, 2 * s);
    let dot = Vector3::dot(&v, &normal);
    assert(dot.raw == v.x.mul(normal.x).raw + v.y.mul(normal.y).raw + v.z.mul(normal.z).raw);
    let e = lost(v1 * n1, s) + lost(v2 * n2, s) + lost(v3 * n3, s);
    assert(s * dot.raw == dn - e);
    lemma_mul_whole(2i64, dot);
    let twice = Fixed::from_int(2i64).mul(dot);
    let t = twice.raw as int;
    assert(t == 2 * dot.raw);

    // The normal scaled by it, and the mirror image.
    lemma_bounded_mul(normal.x, twice, s + 8, 12 * s, 16 * s);
    lemma_bounded_mul(normal.y, twice, s + 8, 12 * s, 16 * s);
    lemma_bounded_mul(normal.z, twice, s + 8, 12 * s, 16 * s);
    let back = normal.scale(twice);
    let f1 = lost(n1 * t, s);
    let f2 = lost(n2 * t, s);
    let f3 = lost(n3 * t, s);
    let image = v.reflect(&normal);
    assert(image == v.sub(back));
    let r1 = image.x.raw as int;
    let r2 = image.y.raw as int;
    let r3 = image.z.raw as int;
    assert(r1 == v1 - back.x.raw && r2 == v2 - back.y.raw && r3 == v3 - back.z.raw);
    lemma_mirror_component(s, v1, n1, t, f1, r1);
    lemma_mirror_component(s, v2, n2, t, f2, r2);
    lemma_mirror_component(s, v3, n3, t, f3, r3);
    let sum_vf = v1 * f1 + v2 * f2 + v3 * f3;
    let sum_nf = n1 * f1 + n2 * f2 + n3 * f3;
    let sum_f = f1 * f1 + f2 * f2 + f3 * f3;
    let sum_r = r1 * r1 + r2 * r2 + r3 * r3;
    let ss = s * s;
    let tt = t * t;
    assert(ss * sum_r == ss * (r1 * r1) + ss * (r2 * r2) + ss * (r3 * r3) && ss * nd == ss * (v1
        * v1) + ss * (v2 * v2) + ss * (v3 * v3) && tt * nn == tt * (n1 * n1) + tt * (n2 * n2)
        + tt * (n3 * n3)) by (nonlinear_arith)
        requires
            sum_r == r1 * r1 + r2 * r2 + r3 * r3,
            nd == v1 * v1 + v2 * v2 + v3 * v3,
            nn == n1 * n1 + n2 * n2 + n3 * n3,
    ;
    assert(s * (t * dn) == s * (t * (v1 * n1)) + s * (t * (v2 * n2)) + s * (t * (v3 * n3)) && s
        * sum_vf == s * (v1 * f1) + s * (v2 * f2) + s * (v3 * f3) && t * sum_nf == t * (n1 * f1)
        + t * (n2 * f2) + t * (n3 * f3)) by (nonlinear_arith)
        requires
            dn == v1 * n1 + v2 * n2 + v3 * n3,
            sum_vf == v1 * f1 + v2 * f2 + v3 * f3,
            sum_nf == n1 * f1 + n2 * f2 + n3 * f3,
    ;
    lemma_bounded_product(f1, v1, s);
    lemma_bounded_product(f2, v2, s);
    lemma_bounded_product(f3, v3, s);
    lemma_bounded_product(f1, n1, s);
    lemma_bounded_product(f2, n2, s);
    lemma_bounded_product(f3, n3, s);
    lemma_bounded_product(f1, f1, s);
    lemma_bounded_product(f2, f2, s);
    lemma_bounded_product(f3, f3, s);
    assert(-3 * (s * (s + 8)) <= sum_vf <= 3 * (s * (s + 8)) && -3 * (s * (s + 8)) <= sum_nf <= 3
        * (s * (s + 8)) && 0 <= sum_f < 3 * (s * s)) by (nonlinear_arith)
        requires
            sum_vf == v1 * f1 + v2 * f2 + v3 * f3,
            sum_nf == n1 * f1 + n2 * f2 + n3 * f3,
            sum_f == f1 * f1 + f2 * f2 + f3 * f3,
            -(s * magnitude(v1)) <= f1 * v1 <= s * magnitude(v1),
            -(s * magnitude(v2)) <= f2 * v2 <= s * magnitude(v2),
            -(s * magnitude(v3)) <= f3 * v3 <= s * magnitude(v3),
            -(s * magnitude(n1)) <= f1 * n1 <= s * magnitude(n1),
            -(s * magnitude(n2)) <= f2 * n2 <= s * magnitude(n2),
            -(s * magnitude(n3)) <= f3 * n3 <= s * magnitude(n3),
            magnitude(v1) <= s + 8,
            magnitude(v2) <= s + 8,
            magnitude(v3) <= s + 8,
            magnitude(n1) <= s + 8,
            magnitude(n2) <= s + 8,
            magnitude(n3) <= s + 8,
            -s < f1 < s,
            -s < f2 < s,
            -s < f3 < s,
            0 < s,
    {
        assert(s * magnitude(v1) <= s * (s + 8));
        assert(s * magnitude(v2) <= s * (s + 8));
        assert(s * magnitude(v3) <= s * (s + 8));
        assert(s * magnitude(n1) <= s * (s + 8));
        assert(s * magnitude(n2) <= s * (s + 8));
        assert(s * magnitude(n3) <= s * (s + 8));
        assert(v1 * f1 == f1 * v1 && v2 * f2 == f2 * v2 && v3 * f3 == f3 * v3);
        assert(n1 * f1 == f1 * n1 && n2 * f2 == f2 * n2 && n3 * f3 == f3 * n3);
        assert(f1 * f1 < s * s);
        assert(f2 * f2 < s * s);
        assert(f3 * f3 < s * s);
        assert(0 <= f1 * f1 && 0 <= f2 * f2 && 0 <= f3 * f3);
    }
    lemma_mirror_length_of_integers(
        s,
        nd,
        nn,
        dn,
        dot.raw as int,
        e,
        t,
        sum_vf,
        sum_nf,
        sum_f,
        sum_r,
    );

    // The rounded squared length.
    lemma_bounded_mul(image.x, image.x, 20 * s, 20 * s, 400 * s);
    lemma_bounded_mul(image.y, image.y, 20 * s, 20 * s, 400 * s);
    lemma_bounded_mul(image.z, image.z, 20 * s, 20 * s, 400 * s);
    assert(r1 * r1 >= 0 && r2 * r2 >= 0 && r3 * r3 >= 0) by (nonlinear_arith);
    let q = image.len_sq().raw as int;
    assert(q == image.x.mul(image.x).raw + image.y.mul(image.y).raw + image.z.mul(image.z).raw);
    let e_q = lost(r1 * r1, s) + lost(r2 * r2, s) + lost(r3 * r3, s);
    assert(s * q == sum_r - e_q);
    assert(s - 129 <= q <= s + 136) by (nonlinear_arith)
        requires
            s * q == sum_r - e_q,
            0 <= e_q < 3 * s,
            -115 * s <= sum_r - nd <= 115 * s,
            s * s - 11 * s <= nd < s * s + 21 * s,
            s == 0x1_0000_0000,
    {
        if q >= s + 137 {
            assert(s * q >= s * (s + 137));
        }
        if q <= s - 130 {
            assert(s * q <= s * (s - 130));
        }
    }
}

} // verus!
