//! The formulas of the group law as polynomials over the integers.
//!
//! Every coordinate that a formula computes in the field is congruent to a
//! polynomial in the coordinates it starts from, and stays so where the
//! coordinates are replaced by integers congruent to them. The laws of the
//! group are proved on these polynomials.
use crate::jacobian::{
    add_distinct, add_mixed_distinct, double_a_zero, double_general, is_point, AffinePoint,
    JacobianPoint,
};
use crate::modular::{congruent, fadd, fmul, fsub, lemma_fadd, lemma_fmul, lemma_fsub};
use vstd::prelude::*;

verus! {

/// Whether the coordinates of two triples are congruent, one by one.
pub open spec fn congruent_point(p: int, lhs: JacobianPoint, rhs: JacobianPoint) -> bool {
    congruent(p, lhs.x, rhs.x) && congruent(p, lhs.y, rhs.y) && congruent(p, lhs.z, rhs.z)
}

/// Whether the coordinates of two affine points are congruent, one by one.
pub open spec fn congruent_affine(p: int, lhs: AffinePoint, rhs: AffinePoint) -> bool {
    congruent(p, lhs.x, rhs.x) && congruent(p, lhs.y, rhs.y)
}

/// Twice a point, over the integers: with `M = 3 * X^2 + a * Z^4` and
/// `S = 4 * X * Y^2`, the triple `(M^2 - 2 * S, M * (S - X3) - 8 * Y^4,
/// 2 * Y * Z)`.
pub open spec fn poly_double(a: int, pt: JacobianPoint) -> JacobianPoint {
    let m = 3 * (pt.x * pt.x) + a * ((pt.z * pt.z) * (pt.z * pt.z));
    let s = 4 * (pt.x * (pt.y * pt.y));
    let x3 = m * m - 2 * s;
    JacobianPoint {
        x: x3,
        y: m * (s - x3) - 8 * ((pt.y * pt.y) * (pt.y * pt.y)),
        z: 2 * (pt.y * pt.z),
    }
}

/// The sum of two points, over the integers, from `U1`, `S1`, `H = U2 - U1`,
/// `R = S2 - S1` and `Z1 * Z2`: the triple `(4 * R^2 - 4 * H^3 - 8 * U1 * H^2,
/// 2 * R * (4 * U1 * H^2 - X3) - 8 * S1 * H^3, 2 * Z1 * Z2 * H)`.
pub open spec fn poly_sum(u1: int, s1: int, h: int, r: int, zz: int) -> JacobianPoint {
    let x3 = 4 * (r * r) - 4 * (h * h * h) - 8 * (u1 * (h * h));
    JacobianPoint {
        x: x3,
        y: 2 * (r * (4 * (u1 * (h * h)) - x3)) - 8 * (s1 * (h * h * h)),
        z: 2 * (zz * h),
    }
}

/// The sum of two Jacobian points, over the integers.
pub open spec fn poly_add(lhs: JacobianPoint, rhs: JacobianPoint) -> JacobianPoint {
    let u1 = lhs.x * (rhs.z * rhs.z);
    let u2 = rhs.x * (lhs.z * lhs.z);
    let s1 = lhs.y * rhs.z * (rhs.z * rhs.z);
    let s2 = rhs.y * lhs.z * (lhs.z * lhs.z);
    poly_sum(u1, s1, u2 - u1, s2 - s1, lhs.z * rhs.z)
}

/// The sum of a Jacobian point and an affine point, over the integers.
pub open spec fn poly_add_mixed(lhs: JacobianPoint, rhs: AffinePoint) -> JacobianPoint {
    let u2 = rhs.x * (lhs.z * lhs.z);
    let s2 = rhs.y * lhs.z * (lhs.z * lhs.z);
    poly_sum(lhs.x, lhs.y, u2 - lhs.x, s2 - lhs.y, lhs.z)
}

/// Doubling on a curve with `a = 0` computes the polynomials of doubling.
pub proof fn lemma_lift_double_a_zero(p: int, pt: JacobianPoint, raw: JacobianPoint)
    requires
        p > 0,
        congruent_point(p, pt, raw),
    ensures
        congruent_point(p, double_a_zero(p, pt), poly_double(0, raw)),
        is_point(p, double_a_zero(p, pt)),
{
    let x = pt.x;
    let y = pt.y;
    let z = pt.z;
    let rx = raw.x;
    let ry = raw.y;
    let rz = raw.z;
    // every step of the formula, with the integer that it is congruent to
    let a = fmul(p, x, x);
    let r_a = rx * rx;
    lemma_fmul(p, x, rx, x, rx);
    let b = fmul(p, y, y);
    let r_b = ry * ry;
    lemma_fmul(p, y, ry, y, ry);
    let c = fmul(p, b, b);
    let r_c = r_b * r_b;
    lemma_fmul(p, b, r_b, b, r_b);
    let t1 = fadd(p, x, b);
    let r_t1 = rx + r_b;
    lemma_fadd(p, x, rx, b, r_b);
    let t2 = fmul(p, t1, t1);
    let r_t2 = r_t1 * r_t1;
    lemma_fmul(p, t1, r_t1, t1, r_t1);
    let t3 = fsub(p, t2, a);
    let r_t3 = r_t2 - r_a;
    lemma_fsub(p, t2, r_t2, a, r_a);
    let t4 = fsub(p, t3, c);
    let r_t4 = r_t3 - r_c;
    lemma_fsub(p, t3, r_t3, c, r_c);
    let d = fadd(p, t4, t4);
    let r_d = r_t4 + r_t4;
    lemma_fadd(p, t4, r_t4, t4, r_t4);
    let t5 = fadd(p, a, a);
    let r_t5 = r_a + r_a;
    lemma_fadd(p, a, r_a, a, r_a);
    let e = fadd(p, a, t5);
    let r_e = r_a + r_t5;
    lemma_fadd(p, a, r_a, t5, r_t5);
    let f = fmul(p, e, e);
    let r_f = r_e * r_e;
    lemma_fmul(p, e, r_e, e, r_e);
    let t6 = fmul(p, z, y);
    let r_t6 = rz * ry;
    lemma_fmul(p, z, rz, y, ry);
    let z3 = fadd(p, t6, t6);
    let r_z3 = r_t6 + r_t6;
    lemma_fadd(p, t6, r_t6, t6, r_t6);
    let t7 = fadd(p, d, d);
    let r_t7 = r_d + r_d;
    lemma_fadd(p, d, r_d, d, r_d);
    let x3 = fsub(p, f, t7);
    let r_x3 = r_f - r_t7;
    lemma_fsub(p, f, r_f, t7, r_t7);
    let t8 = fsub(p, d, x3);
    let r_t8 = r_d - r_x3;
    lemma_fsub(p, d, r_d, x3, r_x3);
    let t9 = fmul(p, t8, e);
    let r_t9 = r_t8 * r_e;
    lemma_fmul(p, t8, r_t8, e, r_e);
    let t10 = fadd(p, c, c);
    let r_t10 = r_c + r_c;
    lemma_fadd(p, c, r_c, c, r_c);
    let t11 = fadd(p, t10, t10);
    let r_t11 = r_t10 + r_t10;
    lemma_fadd(p, t10, r_t10, t10, r_t10);
    let t12 = fadd(p, t11, t11);
    let r_t12 = r_t11 + r_t11;
    lemma_fadd(p, t11, r_t11, t11, r_t11);
    let y3 = fsub(p, t9, t12);
    let r_y3 = r_t9 - r_t12;
    lemma_fsub(p, t9, r_t9, t12, r_t12);
    // the integers, gathered into the polynomials
    let m = 3 * (rx * rx) + 0 * ((rz * rz) * (rz * rz));
    let s = 4 * (rx * (ry * ry));
    assert(r_d == s && r_e == m && r_t12 == 8 * (r_b * r_b) && r_z3 == 2 * (ry * rz))
        by (nonlinear_arith)
        requires
            r_d == 2 * ((rx + r_b) * (rx + r_b) - r_a - r_b * r_b),
            r_e == 3 * r_a,
            r_a == rx * rx,
            r_b == ry * ry,
            r_t12 == 8 * r_c,
            r_c == r_b * r_b,
            r_z3 == 2 * (rz * ry),
            m == 3 * (rx * rx) + 0 * ((rz * rz) * (rz * rz)),
            s == 4 * (rx * (ry * ry)),
    ;
    assert(r_y3 == m * (s - r_x3) - r_t12) by (nonlinear_arith)
        requires
            r_y3 == (r_d - r_x3) * r_e - r_t12,
            r_d == s,
            r_e == m,
    ;
}

/// Doubling on a curve with any `a` computes the polynomials of doubling.
pub proof fn lemma_lift_double_general(
    p: int,
    a: int,
    ra: int,
    pt: JacobianPoint,
    raw: JacobianPoint,
)
    requires
        p > 0,
        congruent(p, a, ra),
        congruent_point(p, pt, raw),
    ensures
        congruent_point(p, double_general(p, a, pt), poly_double(ra, raw)),
        is_point(p, double_general(p, a, pt)),
{
    let x = pt.x;
    let y = pt.y;
    let z = pt.z;
    let rx = raw.x;
    let ry = raw.y;
    let rz = raw.z;
    // every step of the formula, with the integer that it is congruent to
    let xx = fmul(p, x, x);
    let r_xx = rx * rx;
    lemma_fmul(p, x, rx, x, rx);
    let yy = fmul(p, y, y);
    let r_yy = ry * ry;
    lemma_fmul(p, y, ry, y, ry);
    let yyyy = fmul(p, yy, yy);
    let r_yyyy = r_yy * r_yy;
    lemma_fmul(p, yy, r_yy, yy, r_yy);
    let zz = fmul(p, z, z);
    let r_zz = rz * rz;
    lemma_fmul(p, z, rz, z, rz);
    let t1 = fadd(p, x, yy);
    let r_t1 = rx + r_yy;
    lemma_fadd(p, x, rx, yy, r_yy);
    let t2 = fmul(p, t1, t1);
    let r_t2 = r_t1 * r_t1;
    lemma_fmul(p, t1, r_t1, t1, r_t1);
    let t3 = fsub(p, t2, xx);
    let r_t3 = r_t2 - r_xx;
    lemma_fsub(p, t2, r_t2, xx, r_xx);
    let t4 = fsub(p, t3, yyyy);
    let r_t4 = r_t3 - r_yyyy;
    lemma_fsub(p, t3, r_t3, yyyy, r_yyyy);
    let s = fadd(p, t4, t4);
    let r_s = r_t4 + r_t4;
    lemma_fadd(p, t4, r_t4, t4, r_t4);
    let t5 = fadd(p, xx, xx);
    let r_t5 = r_xx + r_xx;
    lemma_fadd(p, xx, r_xx, xx, r_xx);
    let t6 = fadd(p, t5, xx);
    let r_t6 = r_t5 + r_xx;
    lemma_fadd(p, t5, r_t5, xx, r_xx);
    let t7 = fmul(p, zz, zz);
    let r_t7 = r_zz * r_zz;
    lemma_fmul(p, zz, r_zz, zz, r_zz);
    let t8 = fmul(p, a, t7);
    let r_t8 = ra * r_t7;
    lemma_fmul(p, a, ra, t7, r_t7);
    let m = fadd(p, t6, t8);
    let r_m = r_t6 + r_t8;
    lemma_fadd(p, t6, r_t6, t8, r_t8);
    let t9 = fmul(p, m, m);
    let r_t9 = r_m * r_m;
    lemma_fmul(p, m, r_m, m, r_m);
    let t10 = fadd(p, s, s);
    let r_t10 = r_s + r_s;
    lemma_fadd(p, s, r_s, s, r_s);
    let t = fsub(p, t9, t10);
    let r_t = r_t9 - r_t10;
    lemma_fsub(p, t9, r_t9, t10, r_t10);
    let t11 = fsub(p, s, t);
    let r_t11 = r_s - r_t;
    lemma_fsub(p, s, r_s, t, r_t);
    let t12 = fmul(p, m, t11);
    let r_t12 = r_m * r_t11;
    lemma_fmul(p, m, r_m, t11, r_t11);
    let t13 = fadd(p, yyyy, yyyy);
    let r_t13 = r_yyyy + r_yyyy;
    lemma_fadd(p, yyyy, r_yyyy, yyyy, r_yyyy);
    let t14 = fadd(p, t13, t13);
    let r_t14 = r_t13 + r_t13;
    lemma_fadd(p, t13, r_t13, t13, r_t13);
    let t15 = fadd(p, t14, t14);
    let r_t15 = r_t14 + r_t14;
    lemma_fadd(p, t14, r_t14, t14, r_t14);
    let y3 = fsub(p, t12, t15);
    let r_y3 = r_t12 - r_t15;
    lemma_fsub(p, t12, r_t12, t15, r_t15);
    let t16 = fadd(p, y, z);
    let r_t16 = ry + rz;
    lemma_fadd(p, y, ry, z, rz);
    let t17 = fmul(p, t16, t16);
    let r_t17 = r_t16 * r_t16;
    lemma_fmul(p, t16, r_t16, t16, r_t16);
    let t18 = fsub(p, t17, yy);
    let r_t18 = r_t17 - r_yy;
    lemma_fsub(p, t17, r_t17, yy, r_yy);
    let z3 = fsub(p, t18, zz);
    let r_z3 = r_t18 - r_zz;
    lemma_fsub(p, t18, r_t18, zz, r_zz);
    // the integers, gathered into the polynomials
    let pm = 3 * (rx * rx) + ra * ((rz * rz) * (rz * rz));
    let ps = 4 * (rx * (ry * ry));
    assert(r_s == ps && r_m == pm && r_t15 == 8 * (r_yy * r_yy) && r_z3 == 2 * (ry * rz))
        by (nonlinear_arith)
        requires
            r_s == 2 * ((rx + r_yy) * (rx + r_yy) - r_xx - r_yy * r_yy),
            r_m == 3 * r_xx + ra * (r_zz * r_zz),
            r_xx == rx * rx,
            r_yy == ry * ry,
            r_zz == rz * rz,
            r_t15 == 8 * r_yyyy,
            r_yyyy == r_yy * r_yy,
            r_z3 == (ry + rz) * (ry + rz) - r_yy - r_zz,
            pm == 3 * (rx * rx) + ra * ((rz * rz) * (rz * rz)),
            ps == 4 * (rx * (ry * ry)),
    ;
}

/// Adding two distinct Jacobian points computes the polynomials of the sum.
pub proof fn lemma_lift_add_distinct(
    p: int,
    lhs: JacobianPoint,
    rhs: JacobianPoint,
    raw_lhs: JacobianPoint,
    raw_rhs: JacobianPoint,
)
    requires
        p > 0,
        congruent_point(p, lhs, raw_lhs),
        congruent_point(p, rhs, raw_rhs),
    ensures
        congruent_point(p, add_distinct(p, lhs, rhs), poly_add(raw_lhs, raw_rhs)),
        is_point(p, add_distinct(p, lhs, rhs)),
{
    let x1 = lhs.x;
    let y1 = lhs.y;
    let z1 = lhs.z;
    let x2 = rhs.x;
    let y2 = rhs.y;
    let z2 = rhs.z;
    let rx1 = raw_lhs.x;
    let ry1 = raw_lhs.y;
    let rz1 = raw_lhs.z;
    let rx2 = raw_rhs.x;
    let ry2 = raw_rhs.y;
    let rz2 = raw_rhs.z;
    // every step of the formula, with the integer that it is congruent to
    let z1z1 = fmul(p, z1, z1);
    let r_z1z1 = rz1 * rz1;
    lemma_fmul(p, z1, rz1, z1, rz1);
    let z2z2 = fmul(p, z2, z2);
    let r_z2z2 = rz2 * rz2;
    lemma_fmul(p, z2, rz2, z2, rz2);
    let u1 = fmul(p, x1, z2z2);
    let r_u1 = rx1 * r_z2z2;
    lemma_fmul(p, x1, rx1, z2z2, r_z2z2);
    let u2 = fmul(p, x2, z1z1);
    let r_u2 = rx2 * r_z1z1;
    lemma_fmul(p, x2, rx2, z1z1, r_z1z1);
    let t1 = fmul(p, y1, z2);
    let r_t1 = ry1 * rz2;
    lemma_fmul(p, y1, ry1, z2, rz2);
    let s1 = fmul(p, t1, z2z2);
    let r_s1 = r_t1 * r_z2z2;
    lemma_fmul(p, t1, r_t1, z2z2, r_z2z2);
    let t2 = fmul(p, y2, z1);
    let r_t2 = ry2 * rz1;
    lemma_fmul(p, y2, ry2, z1, rz1);
    let s2 = fmul(p, t2, z1z1);
    let r_s2 = r_t2 * r_z1z1;
    lemma_fmul(p, t2, r_t2, z1z1, r_z1z1);
    let h = fsub(p, u2, u1);
    let r_h = r_u2 - r_u1;
    lemma_fsub(p, u2, r_u2, u1, r_u1);
    let t3 = fadd(p, h, h);
    let r_t3 = r_h + r_h;
    lemma_fadd(p, h, r_h, h, r_h);
    let i = fmul(p, t3, t3);
    let r_i = r_t3 * r_t3;
    lemma_fmul(p, t3, r_t3, t3, r_t3);
    let j = fmul(p, h, i);
    let r_j = r_h * r_i;
    lemma_fmul(p, h, r_h, i, r_i);
    let t4 = fsub(p, s2, s1);
    let r_t4 = r_s2 - r_s1;
    lemma_fsub(p, s2, r_s2, s1, r_s1);
    let r = fadd(p, t4, t4);
    let r_r = r_t4 + r_t4;
    lemma_fadd(p, t4, r_t4, t4, r_t4);
    let v = fmul(p, u1, i);
    let r_v = r_u1 * r_i;
    lemma_fmul(p, u1, r_u1, i, r_i);
    let t5 = fmul(p, r, r);
    let r_t5 = r_r * r_r;
    lemma_fmul(p, r, r_r, r, r_r);
    let t6 = fsub(p, t5, j);
    let r_t6 = r_t5 - r_j;
    lemma_fsub(p, t5, r_t5, j, r_j);
    let t7 = fadd(p, v, v);
    let r_t7 = r_v + r_v;
    lemma_fadd(p, v, r_v, v, r_v);
    let x3 = fsub(p, t6, t7);
    let r_x3 = r_t6 - r_t7;
    lemma_fsub(p, t6, r_t6, t7, r_t7);
    let t8 = fsub(p, v, x3);
    let r_t8 = r_v - r_x3;
    lemma_fsub(p, v, r_v, x3, r_x3);
    let t9 = fmul(p, r, t8);
    let r_t9 = r_r * r_t8;
    lemma_fmul(p, r, r_r, t8, r_t8);
    let t10 = fadd(p, s1, s1);
    let r_t10 = r_s1 + r_s1;
    lemma_fadd(p, s1, r_s1, s1, r_s1);
    let t11 = fmul(p, t10, j);
    let r_t11 = r_t10 * r_j;
    lemma_fmul(p, t10, r_t10, j, r_j);
    let y3 = fsub(p, t9, t11);
    let r_y3 = r_t9 - r_t11;
    lemma_fsub(p, t9, r_t9, t11, r_t11);
    let t12 = fadd(p, z1, z2);
    let r_t12 = rz1 + rz2;
    lemma_fadd(p, z1, rz1, z2, rz2);
    let t13 = fmul(p, t12, t12);
    let r_t13 = r_t12 * r_t12;
    lemma_fmul(p, t12, r_t12, t12, r_t12);
    let t14 = fsub(p, t13, z1z1);
    let r_t14 = r_t13 - r_z1z1;
    lemma_fsub(p, t13, r_t13, z1z1, r_z1z1);
    let t15 = fsub(p, t14, z2z2);
    let r_t15 = r_t14 - r_z2z2;
    lemma_fsub(p, t14, r_t14, z2z2, r_z2z2);
    let z3 = fmul(p, t15, h);
    let r_z3 = r_t15 * r_h;
    lemma_fmul(p, t15, r_t15, h, r_h);
    // the integers, gathered into the polynomials
    let ph = r_u2 - r_u1;
    let pr = r_s2 - r_s1;
    let sum = poly_sum(r_u1, r_s1, ph, pr, rz1 * rz2);
    assert(r_x3 == sum.x) by (nonlinear_arith)
        requires
            r_x3 == (2 * pr) * (2 * pr) - ph * ((2 * ph) * (2 * ph)) - 2 * (r_u1 * ((2 * ph) * (2
                * ph))),
            sum.x == 4 * (pr * pr) - 4 * (ph * ph * ph) - 8 * (r_u1 * (ph * ph)),
    ;
    assert(r_y3 == sum.y) by (nonlinear_arith)
        requires
            r_y3 == (2 * pr) * (r_u1 * ((2 * ph) * (2 * ph)) - r_x3) - (2 * r_s1) * (ph * ((2 * ph)
                * (2 * ph))),
            r_x3 == sum.x,
            sum.y == 2 * (pr * (4 * (r_u1 * (ph * ph)) - sum.x)) - 8 * (r_s1 * (ph * ph * ph)),
    ;
    assert(r_z3 == sum.z) by (nonlinear_arith)
        requires
            r_z3 == ((rz1 + rz2) * (rz1 + rz2) - rz1 * rz1 - rz2 * rz2) * ph,
            sum.z == 2 * ((rz1 * rz2) * ph),
    ;
}

/// Adding an affine point to a distinct Jacobian point computes the
/// polynomials of the sum.
pub proof fn lemma_lift_add_mixed_distinct(
    p: int,
    lhs: JacobianPoint,
    rhs: AffinePoint,
    raw_lhs: JacobianPoint,
    raw_rhs: AffinePoint,
)
    requires
        p > 0,
        congruent_point(p, lhs, raw_lhs),
        congruent_affine(p, rhs, raw_rhs),
    ensures
        congruent_point(p, add_mixed_distinct(p, lhs, rhs), poly_add_mixed(raw_lhs, raw_rhs)),
        is_point(p, add_mixed_distinct(p, lhs, rhs)),
{
    let x1 = lhs.x;
    let y1 = lhs.y;
    let z1 = lhs.z;
    let x2 = rhs.x;
    let y2 = rhs.y;
    let rx1 = raw_lhs.x;
    let ry1 = raw_lhs.y;
    let rz1 = raw_lhs.z;
    let rx2 = raw_rhs.x;
    let ry2 = raw_rhs.y;
    // every step of the formula, with the integer that it is congruent to
    let z1z1 = fmul(p, z1, z1);
    let r_z1z1 = rz1 * rz1;
    lemma_fmul(p, z1, rz1, z1, rz1);
    let u2 = fmul(p, x2, z1z1);
    let r_u2 = rx2 * r_z1z1;
    lemma_fmul(p, x2, rx2, z1z1, r_z1z1);
    let t2 = fmul(p, y2, z1);
    let r_t2 = ry2 * rz1;
    lemma_fmul(p, y2, ry2, z1, rz1);
    let s2 = fmul(p, t2, z1z1);
    let r_s2 = r_t2 * r_z1z1;
    lemma_fmul(p, t2, r_t2, z1z1, r_z1z1);
    let h = fsub(p, u2, x1);
    let r_h = r_u2 - rx1;
    lemma_fsub(p, u2, r_u2, x1, rx1);
    let hh = fmul(p, h, h);
    let r_hh = r_h * r_h;
    lemma_fmul(p, h, r_h, h, r_h);
    let t3 = fadd(p, hh, hh);
    let r_t3 = r_hh + r_hh;
    lemma_fadd(p, hh, r_hh, hh, r_hh);
    let i = fadd(p, t3, t3);
    let r_i = r_t3 + r_t3;
    lemma_fadd(p, t3, r_t3, t3, r_t3);
    let j = fmul(p, h, i);
    let r_j = r_h * r_i;
    lemma_fmul(p, h, r_h, i, r_i);
    let t4 = fsub(p, s2, y1);
    let r_t4 = r_s2 - ry1;
    lemma_fsub(p, s2, r_s2, y1, ry1);
    let r = fadd(p, t4, t4);
    let r_r = r_t4 + r_t4;
    lemma_fadd(p, t4, r_t4, t4, r_t4);
    let v = fmul(p, x1, i);
    let r_v = rx1 * r_i;
    lemma_fmul(p, x1, rx1, i, r_i);
    let t5 = fmul(p, r, r);
    let r_t5 = r_r * r_r;
    lemma_fmul(p, r, r_r, r, r_r);
    let t6 = fsub(p, t5, j);
    let r_t6 = r_t5 - r_j;
    lemma_fsub(p, t5, r_t5, j, r_j);
    let t7 = fadd(p, v, v);
    let r_t7 = r_v + r_v;
    lemma_fadd(p, v, r_v, v, r_v);
    let x3 = fsub(p, t6, t7);
    let r_x3 = r_t6 - r_t7;
    lemma_fsub(p, t6, r_t6, t7, r_t7);
    let t8 = fsub(p, v, x3);
    let r_t8 = r_v - r_x3;
    lemma_fsub(p, v, r_v, x3, r_x3);
    let t9 = fmul(p, r, t8);
    let r_t9 = r_r * r_t8;
    lemma_fmul(p, r, r_r, t8, r_t8);
    let t10 = fadd(p, y1, y1);
    let r_t10 = ry1 + ry1;
    lemma_fadd(p, y1, ry1, y1, ry1);
    let t11 = fmul(p, t10, j);
    let r_t11 = r_t10 * r_j;
    lemma_fmul(p, t10, r_t10, j, r_j);
    let y3 = fsub(p, t9, t11);
    let r_y3 = r_t9 - r_t11;
    lemma_fsub(p, t9, r_t9, t11, r_t11);
    let t12 = fadd(p, z1, h);
    let r_t12 = rz1 + r_h;
    lemma_fadd(p, z1, rz1, h, r_h);
    let t13 = fmul(p, t12, t12);
    let r_t13 = r_t12 * r_t12;
    lemma_fmul(p, t12, r_t12, t12, r_t12);
    let t14 = fsub(p, t13, z1z1);
    let r_t14 = r_t13 - r_z1z1;
    lemma_fsub(p, t13, r_t13, z1z1, r_z1z1);
    let z3 = fsub(p, t14, hh);
    let r_z3 = r_t14 - r_hh;
    lemma_fsub(p, t14, r_t14, hh, r_hh);
    // the integers, gathered into the polynomials
    let ph = r_u2 - rx1;
    let pr = r_s2 - ry1;
    let sum = poly_sum(rx1, ry1, ph, pr, rz1);
    assert(r_x3 == sum.x) by (nonlinear_arith)
        requires
            r_x3 == (2 * pr) * (2 * pr) - ph * (4 * (ph * ph)) - 2 * (rx1 * (4 * (ph * ph))),
            sum.x == 4 * (pr * pr) - 4 * (ph * ph * ph) - 8 * (rx1 * (ph * ph)),
    ;
    assert(r_y3 == sum.y) by (nonlinear_arith)
        requires
            r_y3 == (2 * pr) * (rx1 * (4 * (ph * ph)) - r_x3) - (2 * ry1) * (ph * (4 * (ph * ph))),
            r_x3 == sum.x,
            sum.y == 2 * (pr * (4 * (rx1 * (ph * ph)) - sum.x)) - 8 * (ry1 * (ph * ph * ph)),
    ;
    assert(r_z3 == sum.z) by (nonlinear_arith)
        requires
            r_z3 == (rz1 + ph) * (rz1 + ph) - rz1 * rz1 - ph * ph,
            sum.z == 2 * (rz1 * ph),
    ;
}

} // verus!
