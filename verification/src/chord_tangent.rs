//! The group law in affine coordinates, by chords and tangents, and the proof
//! that the formulas in Jacobian coordinates compute it.
use crate::jacobian::{
    add_distinct, add_mixed, add_points, affine_identity, affine_negate, double, from_affine,
    is_affine_point, is_identity, is_point, negate, same_point, to_affine, AffinePoint,
    JacobianPoint,
};
use crate::laws::{
    lemma_add_mixed_is_add, lemma_double_is_residue, lemma_same_point_is_scaled,
    lemma_scale_lift,
};
use crate::modular::{
    congruent, fadd, fdouble, finv, fmul, fneg, fsquare, fsub, is_prime, is_residue, lemma_cancel,
    lemma_congruent_mul, lemma_congruent_residues, lemma_fadd, lemma_finv, lemma_fmul,
    lemma_fneg, lemma_fsub, lemma_product_nonzero, lemma_residue, lemma_rewrite,
};
use crate::identities::{
    lemma_chord_x, lemma_chord_y, lemma_poly_double_affine, lemma_poly_sum_affine,
    lemma_tangent_x, lemma_tangent_y,
};
use crate::polynomial::{
    lemma_lift_add_distinct, lemma_lift_double_a_zero, lemma_lift_double_general, poly_add,
    poly_double, poly_sum,
};
use vstd::prelude::*;

verus! {

/// The third point of the curve on the line through `pt` with the given
/// slope, mirrored at the axis: `x3 = slope^2 - x1 - x2` and
/// `y3 = slope * (x1 - x3) - y1`, where `x2` is the `x` of the second point
/// on the line.
pub open spec fn third_point(p: int, slope: int, pt: AffinePoint, x2: int) -> AffinePoint {
    let x3 = fsub(p, fsub(p, fsquare(p, slope), pt.x), x2);
    AffinePoint { x: x3, y: fsub(p, fmul(p, slope, fsub(p, pt.x, x3)), pt.y), infinity: false }
}

/// Twice an affine point, by the tangent at the point: its slope is
/// `(3 * x^2 + a) / (2 * y)`, and the tangent at a point with `y = 0` is
/// vertical.
pub open spec fn affine_double(p: int, a: int, pt: AffinePoint) -> AffinePoint {
    if pt.infinity {
        pt
    } else if fdouble(p, pt.y) == 0 {
        affine_identity()
    } else {
        let slope = fmul(
            p,
            fadd(p, fmul(p, 3, fsquare(p, pt.x)), a),
            finv(p, fdouble(p, pt.y)),
        );
        third_point(p, slope, pt, pt.x)
    }
}

/// The sum of two affine points, by the chord through them: its slope is
/// `(y2 - y1) / (x2 - x1)`, the chord through two points with the same `x`
/// is vertical, and the chord through a point and itself is the tangent.
pub open spec fn affine_add(p: int, a: int, lhs: AffinePoint, rhs: AffinePoint) -> AffinePoint {
    if lhs.infinity {
        rhs
    } else if rhs.infinity {
        lhs
    } else if lhs.x == rhs.x {
        if lhs.y == rhs.y {
            affine_double(p, a, lhs)
        } else {
            affine_identity()
        }
    } else {
        let slope = fmul(p, fsub(p, rhs.y, lhs.y), finv(p, fsub(p, rhs.x, lhs.x)));
        third_point(p, slope, lhs, rhs.x)
    }
}

/// The affine coordinates `(x, y)` of a triple away from infinity are
/// residues with `X = x * Z^2` and `Y = y * Z^3`.
pub proof fn lemma_affine_coordinates(p: int, pt: JacobianPoint) -> (zi: int)
    requires
        is_prime(p),
        is_point(p, pt),
        !is_identity(pt),
    ensures
        0 < zi < p,
        congruent(p, pt.z * zi, 1),
        !to_affine(p, pt).infinity,
        is_affine_point(p, to_affine(p, pt)),
        congruent(p, to_affine(p, pt).x, pt.x * (zi * zi)),
        congruent(p, to_affine(p, pt).y, pt.y * (zi * zi * zi)),
        congruent(p, pt.x, to_affine(p, pt).x * (pt.z * pt.z)),
        congruent(p, pt.y, to_affine(p, pt).y * (pt.z * pt.z * pt.z)),
{
    let (x, y, z) = (pt.x, pt.y, pt.z);
    lemma_residue(p, 1);
    lemma_residue(p, x);
    lemma_residue(p, y);
    let zi = if z == 1 {
        1
    } else {
        finv(p, z)
    };
    if z == 1 {
        assert(z * zi == 1 && x * (zi * zi) == x && y * (zi * zi * zi) == y) by (nonlinear_arith)
            requires
                z == 1,
                zi == 1,
        ;
    } else {
        lemma_finv(p, z);
        let zi2 = fsquare(p, zi);
        lemma_fmul(p, zi, zi, zi, zi);
        lemma_fmul(p, x, x, zi2, zi * zi);
        lemma_fmul(p, zi2, zi * zi, zi, zi);
        lemma_fmul(p, y, y, fmul(p, zi2, zi), zi * zi * zi);
    }
    let ax = to_affine(p, pt).x;
    let ay = to_affine(p, pt).y;
    let v = z * zi;
    // x * Z^2 = X * (Z * zi)^2 = X
    lemma_congruent_mul(p, ax, x * (zi * zi), z * z, z * z);
    assert((x * (zi * zi)) * (z * z) - x == (x * (v + 1)) * (v - 1)) by (nonlinear_arith)
        requires
            v == z * zi,
    ;
    lemma_rewrite(p, (x * (zi * zi)) * (z * z), x, x * (v + 1), v, 1);
    // y * Z^3 = Y * (Z * zi)^3 = Y
    lemma_congruent_mul(p, ay, y * (zi * zi * zi), z * z * z, z * z * z);
    assert((y * (zi * zi * zi)) * (z * z * z) - y == (y * (v * v + v + 1)) * (v - 1))
        by (nonlinear_arith)
        requires
            v == z * zi,
    ;
    lemma_rewrite(p, (y * (zi * zi * zi)) * (z * z * z), y, y * (v * v + v + 1), v, 1);
    zi
}

/// A triple away from infinity stands for the affine point `(x, y)` where
/// `x * Z^2 = X` and `y * Z^3 = Y`.
pub proof fn lemma_to_affine_by_scaling(p: int, pt: JacobianPoint, x: int, y: int)
    requires
        is_prime(p),
        is_point(p, pt),
        !is_identity(pt),
        is_residue(p, x),
        is_residue(p, y),
        congruent(p, x * (pt.z * pt.z), pt.x),
        congruent(p, y * (pt.z * pt.z * pt.z), pt.y),
    ensures
        to_affine(p, pt) == (AffinePoint { x, y, infinity: false }),
{
    let zi = lemma_affine_coordinates(p, pt);
    let z = pt.z;
    let v = z * zi;
    let ax = to_affine(p, pt).x;
    let ay = to_affine(p, pt).y;
    // X * zi^2 = x * (Z * zi)^2 = x
    lemma_congruent_mul(p, pt.x, x * (z * z), zi * zi, zi * zi);
    assert((x * (z * z)) * (zi * zi) - x == (x * (v + 1)) * (v - 1)) by (nonlinear_arith)
        requires
            v == z * zi,
    ;
    lemma_rewrite(p, (x * (z * z)) * (zi * zi), x, x * (v + 1), v, 1);
    lemma_congruent_residues(p, ax, x);
    lemma_congruent_mul(p, pt.y, y * (z * z * z), zi * zi * zi, zi * zi * zi);
    assert((y * (z * z * z)) * (zi * zi * zi) - y == (y * (v * v + v + 1)) * (v - 1))
        by (nonlinear_arith)
        requires
            v == z * zi,
    ;
    lemma_rewrite(p, (y * (z * z * z)) * (zi * zi * zi), y, y * (v * v + v + 1), v, 1);
    lemma_congruent_residues(p, ay, y);
}

/// Two triples stand for the same point exactly where they have the same
/// affine coordinates.
pub proof fn lemma_same_point_is_same_affine(p: int, lhs: JacobianPoint, rhs: JacobianPoint)
    requires
        is_prime(p),
        is_point(p, lhs),
        is_point(p, rhs),
    ensures
        same_point(p, lhs, rhs) <==> to_affine(p, lhs) == to_affine(p, rhs),
{
    if lhs.z != 0 && rhs.z != 0 {
        let zi1 = lemma_affine_coordinates(p, lhs);
        let zi2 = lemma_affine_coordinates(p, rhs);
        let (x1, y1, z1) = (lhs.x, lhs.y, lhs.z);
        let (x2, y2, z2) = (rhs.x, rhs.y, rhs.z);
        let a1 = to_affine(p, lhs);
        let a2 = to_affine(p, rhs);
        if same_point(p, lhs, rhs) {
            let c = lemma_same_point_is_scaled(p, lhs, rhs);
            lemma_scale_lift(p, lhs, c, c);
            // x1 * Z2^2 = x1 * c^2 * Z1^2 = c^2 * X1 = X2
            lemma_congruent_mul(p, z2, c * z1, z2, c * z1);
            lemma_congruent_mul(p, a1.x, a1.x, z2 * z2, (c * z1) * (c * z1));
            lemma_congruent_mul(p, c * c, c * c, a1.x * (z1 * z1), x1);
            assert(a1.x * ((c * z1) * (c * z1)) == (c * c) * (a1.x * (z1 * z1)))
                by (nonlinear_arith);
            lemma_congruent_mul(p, z2 * z2, (c * z1) * (c * z1), z2, c * z1);
            lemma_congruent_mul(p, a1.y, a1.y, z2 * z2 * z2, (c * z1) * (c * z1) * (c * z1));
            lemma_congruent_mul(p, c * c * c, c * c * c, a1.y * (z1 * z1 * z1), y1);
            assert(a1.y * ((c * z1) * (c * z1) * (c * z1)) == (c * c * c) * (a1.y * (z1 * z1
                * z1))) by (nonlinear_arith);
            lemma_to_affine_by_scaling(p, rhs, a1.x, a1.y);
        }
        if a1 == a2 {
            // X1 * Z2^2 = x * Z1^2 * Z2^2 = X2 * Z1^2
            lemma_fmul(p, z1, z1, z1, z1);
            lemma_fmul(p, z2, z2, z2, z2);
            lemma_fmul(p, x1, a1.x * (z1 * z1), fsquare(p, z2), z2 * z2);
            lemma_fmul(p, x2, a1.x * (z2 * z2), fsquare(p, z1), z1 * z1);
            assert((a1.x * (z1 * z1)) * (z2 * z2) == (a1.x * (z2 * z2)) * (z1 * z1))
                by (nonlinear_arith);
            lemma_congruent_residues(
                p,
                fmul(p, x1, fsquare(p, z2)),
                fmul(p, x2, fsquare(p, z1)),
            );
            lemma_fmul(p, fsquare(p, z1), z1 * z1, z1, z1);
            lemma_fmul(p, fsquare(p, z2), z2 * z2, z2, z2);
            lemma_fmul(
                p,
                y1,
                a1.y * (z1 * z1 * z1),
                fmul(p, fsquare(p, z2), z2),
                z2 * z2 * z2,
            );
            lemma_fmul(
                p,
                y2,
                a1.y * (z2 * z2 * z2),
                fmul(p, fsquare(p, z1), z1),
                z1 * z1 * z1,
            );
            assert((a1.y * (z1 * z1 * z1)) * (z2 * z2 * z2) == (a1.y * (z2 * z2 * z2)) * (z1 * z1
                * z1)) by (nonlinear_arith);
            lemma_congruent_residues(
                p,
                fmul(p, y1, fmul(p, fsquare(p, z2), z2)),
                fmul(p, y2, fmul(p, fsquare(p, z1), z1)),
            );
        }
    }
}

/// The inverse of a triple stands for the inverse of the affine point.
pub proof fn lemma_negate_affine(p: int, pt: JacobianPoint)
    requires
        is_prime(p),
        is_point(p, pt),
    ensures
        to_affine(p, negate(p, pt)) == affine_negate(p, to_affine(p, pt)),
{
    if pt.z != 0 {
        let zi = lemma_affine_coordinates(p, pt);
        let a = to_affine(p, pt);
        let n = negate(p, pt);
        lemma_fneg(p, pt.y, pt.y);
        lemma_fneg(p, a.y, a.y);
        // (-y) * Z^3 = -(y * Z^3) = -Y
        lemma_congruent_mul(p, fneg(p, a.y), -a.y, pt.z * pt.z * pt.z, pt.z * pt.z * pt.z);
        lemma_congruent_mul(p, -1, -1, a.y * (pt.z * pt.z * pt.z), pt.y);
        assert((-a.y) * (pt.z * pt.z * pt.z) == (-1) * (a.y * (pt.z * pt.z * pt.z)))
            by (nonlinear_arith);
        assert((-1) * pt.y == -pt.y);
        lemma_to_affine_by_scaling(p, n, a.x, fneg(p, a.y));
    }
}

/// Modulo a prime other than two, twice a residue is zero only where the
/// residue is.
proof fn lemma_double_nonzero(p: int, y: int)
    requires
        is_prime(p),
        p > 2,
        0 < y < p,
    ensures
        fdouble(p, y) != 0,
        congruent(p, fdouble(p, y), y + y),
        is_residue(p, fdouble(p, y)),
{
    lemma_fadd(p, y, y, y, y);
    lemma_residue(p, 2);
    lemma_residue(p, y);
    lemma_residue(p, 0);
    lemma_product_nonzero(p, 2, y);
    assert(2 * y == y + y);
}

/// Doubling in Jacobian coordinates is doubling by the tangent: twice a
/// triple stands for twice the affine point that the triple stands for.
pub proof fn lemma_double_affine(p: int, a: int, pt: JacobianPoint)
    requires
        is_prime(p),
        p > 2,
        is_point(p, pt),
    ensures
        to_affine(p, double(p, a, pt)) == affine_double(p, a, to_affine(p, pt)),
{
    if pt.z != 0 {
        let zi = lemma_affine_coordinates(p, pt);
        let q = to_affine(p, pt);
        let (x, y, z) = (q.x, q.y, pt.z);
        let raw = JacobianPoint { x: x * (z * z), y: y * (z * z * z), z };
        if a == 0 {
            lemma_lift_double_a_zero(p, pt, raw);
        } else {
            lemma_lift_double_general(p, a, a, pt, raw);
        }
        lemma_poly_double_affine(a, x, y, z);
        let d = double(p, a, pt);
        let e = poly_double(a, raw);
        let z4 = (z * z) * (z * z);
        let n = 3 * (x * x) + a;
        lemma_residue(p, 0);
        lemma_residue(p, 1);
        lemma_residue(p, z);
        lemma_residue(p, d.z);
        lemma_product_nonzero(p, z, z);
        lemma_product_nonzero(p, z * z, z * z);
        if y == 0 {
            assert(e.z == 0) by (nonlinear_arith)
                requires
                    e.z == 2 * (y * z4),
                    y == 0,
            ;
            assert(fdouble(p, y) == 0);
        } else {
            lemma_double_nonzero(p, y);
            lemma_residue(p, y);
            lemma_residue(p, 2);
            lemma_product_nonzero(p, 2, y);
            lemma_product_nonzero(p, 2 * y, z4);
            assert(2 * (y * z4) == (2 * y) * z4) by (nonlinear_arith);
            let g = fdouble(p, y);
            let w = finv(p, g);
            lemma_finv(p, g);
            lemma_congruent_mul(p, g, y + y, w, w);
            let v = (y + y) * w;
            // the slope of the tangent
            lemma_fmul(p, x, x, x, x);
            lemma_fmul(p, 3, 3, fsquare(p, x), x * x);
            lemma_fadd(p, fmul(p, 3, fsquare(p, x)), 3 * (x * x), a, a);
            let slope = fmul(p, fadd(p, fmul(p, 3, fsquare(p, x)), a), w);
            lemma_fmul(p, fadd(p, fmul(p, 3, fsquare(p, x)), a), n, w, w);
            // the third point
            let t = third_point(p, slope, q, x);
            let tx = (n * w) * (n * w) - x - x;
            let ty = (n * w) * (x - tx) - y;
            lemma_fmul(p, slope, n * w, slope, n * w);
            lemma_fsub(p, fsquare(p, slope), (n * w) * (n * w), x, x);
            lemma_fsub(p, fsub(p, fsquare(p, slope), x), (n * w) * (n * w) - x, x, x);
            lemma_fsub(p, x, x, t.x, tx);
            lemma_fmul(p, slope, n * w, fsub(p, x, t.x), x - tx);
            lemma_fsub(p, fmul(p, slope, fsub(p, x, t.x)), (n * w) * (x - tx), y, y);
            // x3 * Z3^2 = X3
            lemma_congruent_mul(p, d.z, e.z, d.z, e.z);
            lemma_congruent_mul(p, t.x, tx, d.z * d.z, e.z * e.z);
            lemma_tangent_x(n, w, x, y, z4);
            lemma_rewrite(p, tx * (e.z * e.z), e.x, (z4 * z4) * (n * n) * (v + 1), v, 1);
            // y3 * Z3^3 = Y3
            lemma_congruent_mul(p, d.z * d.z, e.z * e.z, d.z, e.z);
            lemma_congruent_mul(p, t.y, ty, d.z * d.z * d.z, e.z * e.z * e.z);
            lemma_tangent_y(n, w, x, y, z4);
            lemma_rewrite(
                p,
                ty * (e.z * e.z * e.z),
                e.y,
                (z4 * z4 * z4) * n * (12 * (x * (y * y)) - (n * n) * (v * v + v + 1)),
                v,
                1,
            );
            lemma_to_affine_by_scaling(p, d, t.x, t.y);
        }
    }
}

/// An integer strictly between `-p` and `p`, other than zero, is no multiple
/// of `p`.
pub proof fn lemma_difference_nonzero(p: int, a: int, b: int)
    requires
        p > 0,
        is_residue(p, a),
        is_residue(p, b),
        a != b,
    ensures
        (a - b) % p != 0,
        fsub(p, a, b) != 0,
        is_residue(p, fsub(p, a, b)),
        congruent(p, fsub(p, a, b), a - b),
{
    lemma_fsub(p, a, a, b, b);
    lemma_residue(p, 0);
    if (a - b) % p == 0 {
        lemma_residue(p, b);
        lemma_residue(p, a);
        // a = (a - b) + b is congruent to b
        crate::modular::lemma_congruent_add(p, a - b, 0, b, b);
    }
}

/// Addition in Jacobian coordinates is addition by chords and tangents: the
/// sum of two triples stands for the sum of the affine points that the
/// triples stand for.
pub proof fn lemma_add_affine(p: int, a: int, lhs: JacobianPoint, rhs: JacobianPoint)
    requires
        is_prime(p),
        p > 2,
        is_point(p, lhs),
        is_point(p, rhs),
    ensures
        to_affine(p, add_points(p, a, lhs, rhs)) == affine_add(
            p,
            a,
            to_affine(p, lhs),
            to_affine(p, rhs),
        ),
{
    if lhs.z != 0 && rhs.z != 0 {
        let zi1 = lemma_affine_coordinates(p, lhs);
        let zi2 = lemma_affine_coordinates(p, rhs);
        let q1 = to_affine(p, lhs);
        let q2 = to_affine(p, rhs);
        let (x1, y1, z1) = (q1.x, q1.y, lhs.z);
        let (x2, y2, z2) = (q2.x, q2.y, rhs.z);
        let t = z1 * z2;
        let tt = t * t;
        let t3 = t * t * t;
        let raw1 = JacobianPoint { x: x1 * (z1 * z1), y: y1 * (z1 * z1 * z1), z: z1 };
        let raw2 = JacobianPoint { x: x2 * (z2 * z2), y: y2 * (z2 * z2 * z2), z: z2 };
        lemma_residue(p, 0);
        lemma_residue(p, 1);
        lemma_residue(p, 2);
        lemma_residue(p, z1);
        lemma_residue(p, z2);
        lemma_product_nonzero(p, z1, z2);
        lemma_product_nonzero(p, t, t);
        lemma_product_nonzero(p, t * t, t);
        // U1, U2, S1, S2 in affine terms
        let z1z1 = fsquare(p, z1);
        let z2z2 = fsquare(p, z2);
        let u1 = fmul(p, lhs.x, z2z2);
        let u2 = fmul(p, rhs.x, z1z1);
        let s1 = fmul(p, fmul(p, lhs.y, z2), z2z2);
        let s2 = fmul(p, fmul(p, rhs.y, z1), z1z1);
        lemma_fmul(p, z1, z1, z1, z1);
        lemma_fmul(p, z2, z2, z2, z2);
        lemma_fmul(p, lhs.x, raw1.x, z2z2, z2 * z2);
        lemma_fmul(p, rhs.x, raw2.x, z1z1, z1 * z1);
        lemma_fmul(p, lhs.y, raw1.y, z2, z2);
        lemma_fmul(p, fmul(p, lhs.y, z2), raw1.y * z2, z2z2, z2 * z2);
        lemma_fmul(p, rhs.y, raw2.y, z1, z1);
        lemma_fmul(p, fmul(p, rhs.y, z1), raw2.y * z1, z1z1, z1 * z1);
        assert(raw1.x * (z2 * z2) == x1 * tt && raw2.x * (z1 * z1) == x2 * tt) by (nonlinear_arith)
            requires
                raw1.x == x1 * (z1 * z1),
                raw2.x == x2 * (z2 * z2),
                tt == (z1 * z2) * (z1 * z2),
        ;
        assert(raw1.y * z2 * (z2 * z2) == y1 * t3 && raw2.y * z1 * (z1 * z1) == y2 * t3)
            by (nonlinear_arith)
            requires
                raw1.y == y1 * (z1 * z1 * z1),
                raw2.y == y2 * (z2 * z2 * z2),
                t3 == (z1 * z2) * (z1 * z2) * (z1 * z2),
        ;
        // the same U exactly where the same x, the same S exactly where the same y
        if u1 == u2 {
            lemma_cancel(p, x1, x2, tt);
            lemma_congruent_residues(p, x1, x2);
        }
        if x1 == x2 {
            lemma_congruent_residues(p, u1, u2);
        }
        if s1 == s2 {
            lemma_cancel(p, y1, y2, t3);
            lemma_congruent_residues(p, y1, y2);
        }
        if y1 == y2 {
            lemma_congruent_residues(p, s1, s2);
        }
        if u1 == u2 && s1 == s2 {
            lemma_double_affine(p, a, lhs);
        } else {
            let sum = add_distinct(p, lhs, rhs);
            lemma_lift_add_distinct(p, lhs, rhs, raw1, raw2);
            let (d, e) = (x2 - x1, y2 - y1);
            let ps = poly_sum(x1 * tt, y1 * t3, d * tt, e * t3, t);
            assert(poly_add(raw1, raw2) == ps) by {
                assert(x2 * tt - x1 * tt == d * tt && y2 * t3 - y1 * t3 == e * t3)
                    by (nonlinear_arith)
                    requires
                        d == x2 - x1,
                        e == y2 - y1,
                ;
            }
            lemma_poly_sum_affine(x1, y1, d, e, t);
            lemma_residue(p, sum.z);
            if x1 == x2 {
                assert(ps.z == 0) by (nonlinear_arith)
                    requires
                        ps.z == 2 * (t3 * d),
                        d == 0,
                ;
            } else {
                lemma_difference_nonzero(p, x2, x1);
                lemma_product_nonzero(p, t3, d);
                lemma_product_nonzero(p, 2, t3 * d);
                let w = finv(p, fsub(p, x2, x1));
                lemma_finv(p, fsub(p, x2, x1));
                lemma_congruent_mul(p, fsub(p, x2, x1), d, w, w);
                let v = d * w;
                // the slope of the chord and the third point
                lemma_fsub(p, y2, y2, y1, y1);
                let slope = fmul(p, fsub(p, y2, y1), w);
                lemma_fmul(p, fsub(p, y2, y1), e, w, w);
                let third = third_point(p, slope, q1, x2);
                let tx = (e * w) * (e * w) - x1 - x2;
                let ty = (e * w) * (x1 - tx) - y1;
                lemma_fmul(p, slope, e * w, slope, e * w);
                lemma_fsub(p, fsquare(p, slope), (e * w) * (e * w), x1, x1);
                lemma_fsub(p, fsub(p, fsquare(p, slope), x1), (e * w) * (e * w) - x1, x2, x2);
                lemma_fsub(p, x1, x1, third.x, tx);
                lemma_fmul(p, slope, e * w, fsub(p, x1, third.x), x1 - tx);
                lemma_fsub(p, fmul(p, slope, fsub(p, x1, third.x)), (e * w) * (x1 - tx), y1, y1);
                let t6 = t3 * t3;
                let t9 = t3 * t3 * t3;
                // x3 * Z3^2 = X3
                lemma_congruent_mul(p, sum.z, ps.z, sum.z, ps.z);
                lemma_congruent_mul(p, third.x, tx, sum.z * sum.z, ps.z * ps.z);
                lemma_chord_x(e, w, x1, d, t6, t3);
                lemma_rewrite(p, tx * (ps.z * ps.z), ps.x, (4 * t6) * (e * e) * (v + 1), v, 1);
                // y3 * Z3^3 = Y3
                lemma_congruent_mul(p, sum.z * sum.z, ps.z * ps.z, sum.z, ps.z);
                lemma_congruent_mul(
                    p,
                    third.y,
                    ty,
                    sum.z * sum.z * sum.z,
                    ps.z * ps.z * ps.z,
                );
                lemma_chord_y(e, w, x1, y1, d, t9, t3);
                lemma_rewrite(
                    p,
                    ty * (ps.z * ps.z * ps.z),
                    ps.y,
                    (8 * t9) * e * ((d * d) * (3 * x1 + d) - (e * e) * (v * v + v + 1)),
                    v,
                    1,
                );
                lemma_to_affine_by_scaling(p, sum, third.x, third.y);
            }
        }
    }
}

/// Adding an affine point in Jacobian coordinates is addition by chords and
/// tangents.
pub proof fn lemma_add_mixed_affine(p: int, a: int, lhs: JacobianPoint, rhs: AffinePoint)
    requires
        is_prime(p),
        p > 2,
        is_point(p, lhs),
        is_affine_point(p, rhs),
    ensures
        to_affine(p, add_mixed(p, a, lhs, rhs)) == affine_add(
            p,
            a,
            to_affine(p, lhs),
            to_affine(p, from_affine(rhs)),
        ),
{
    lemma_add_mixed_is_add(p, a, lhs, rhs);
    lemma_residue(p, 1);
    lemma_add_affine(p, a, lhs, from_affine(rhs));
}

/// The coordinates of a sum are residues.
pub proof fn lemma_add_is_residue(p: int, a: int, lhs: JacobianPoint, rhs: JacobianPoint)
    requires
        p > 0,
        is_point(p, lhs),
        is_point(p, rhs),
    ensures
        is_point(p, add_points(p, a, lhs, rhs)),
{
    lemma_double_is_residue(p, a, lhs);
    lemma_lift_add_distinct(p, lhs, rhs, lhs, rhs);
}

/// Addition respects the points that triples stand for: the sums of the
/// same points are the same point, whatever triples the points come in.
pub proof fn lemma_add_same_point(
    p: int,
    a: int,
    lhs: JacobianPoint,
    rhs: JacobianPoint,
    other_lhs: JacobianPoint,
    other_rhs: JacobianPoint,
)
    requires
        is_prime(p),
        p > 2,
        is_point(p, lhs),
        is_point(p, rhs),
        is_point(p, other_lhs),
        is_point(p, other_rhs),
        same_point(p, lhs, other_lhs),
        same_point(p, rhs, other_rhs),
    ensures
        same_point(p, add_points(p, a, lhs, rhs), add_points(p, a, other_lhs, other_rhs)),
{
    lemma_same_point_is_same_affine(p, lhs, other_lhs);
    lemma_same_point_is_same_affine(p, rhs, other_rhs);
    lemma_add_affine(p, a, lhs, rhs);
    lemma_add_affine(p, a, other_lhs, other_rhs);
    lemma_add_is_residue(p, a, lhs, rhs);
    lemma_add_is_residue(p, a, other_lhs, other_rhs);
    lemma_same_point_is_same_affine(
        p,
        add_points(p, a, lhs, rhs),
        add_points(p, a, other_lhs, other_rhs),
    );
}

} // verus!
