//! The laws that the group operations obey, proved of the formulas.
use crate::jacobian::{
    add_distinct, add_mixed, add_mixed_distinct, add_points, affine_identity, double, from_affine,
    identity, is_affine_point, is_identity, is_normalized, is_point, negate, normalize, same_point,
    scale, AffinePoint, JacobianPoint,
};
use crate::modular::{
    congruent, fadd, finv, fmul, fneg, fsquare, fsub, is_prime, lemma_cancel, lemma_congruent_mul,
    lemma_congruent_residues, lemma_finv, lemma_fmul, lemma_fneg, lemma_product_nonzero,
    lemma_residue, lemma_rewrite,
};
use crate::polynomial::{
    lemma_lift_add_distinct, lemma_lift_add_mixed_distinct, lemma_lift_double_a_zero,
    lemma_lift_double_general, poly_add, poly_add_mixed, poly_double, poly_sum,
};
use vstd::prelude::*;

verus! {

/// Every triple stands for the same point as itself.
pub proof fn lemma_same_point_reflexive(p: int, pt: JacobianPoint)
    ensures
        same_point(p, pt, pt),
{
}

/// Where one triple stands for the same point as another, the other stands
/// for the same point as the one.
pub proof fn lemma_same_point_symmetric(p: int, lhs: JacobianPoint, rhs: JacobianPoint)
    requires
        same_point(p, lhs, rhs),
    ensures
        same_point(p, rhs, lhs),
{
}

/// Two triples stand for the same point where one is the other scaled: where
/// `(X', Y', Z')` is congruent to `(c^2 * X, c^3 * Y, c * Z)` for a `c` that
/// is no multiple of the prime.
pub proof fn lemma_same_point_scaled(p: int, lhs: JacobianPoint, rhs: JacobianPoint, c: int)
    requires
        is_prime(p),
        is_point(p, lhs),
        is_point(p, rhs),
        c % p != 0,
        congruent(p, rhs.x, c * c * lhs.x),
        congruent(p, rhs.y, c * c * c * lhs.y),
        congruent(p, rhs.z, c * lhs.z),
    ensures
        same_point(p, lhs, rhs),
{
    lemma_residue(p, lhs.z);
    lemma_residue(p, rhs.z);
    if lhs.z == 0 {
        assert(c * lhs.z == 0) by (nonlinear_arith)
            requires
                lhs.z == 0,
        ;
        lemma_residue(p, 0);
    } else {
        lemma_product_nonzero(p, c, lhs.z);
        let (x1, y1, z1) = (lhs.x, lhs.y, lhs.z);
        let (x2, y2, z2) = (rhs.x, rhs.y, rhs.z);
        // X * Z'^2 = X' * Z^2
        lemma_fmul(p, z2, c * z1, z2, c * z1);
        lemma_fmul(p, x1, x1, fsquare(p, z2), (c * z1) * (c * z1));
        lemma_fmul(p, z1, z1, z1, z1);
        lemma_fmul(p, x2, c * c * x1, fsquare(p, z1), z1 * z1);
        assert(x1 * ((c * z1) * (c * z1)) == (c * c * x1) * (z1 * z1)) by (nonlinear_arith);
        lemma_congruent_residues(p, fmul(p, x1, fsquare(p, z2)), fmul(p, x2, fsquare(p, z1)));
        // Y * Z'^3 = Y' * Z^3
        lemma_fmul(p, fsquare(p, z2), (c * z1) * (c * z1), z2, c * z1);
        lemma_fmul(p, y1, y1, fmul(p, fsquare(p, z2), z2), (c * z1) * (c * z1) * (c * z1));
        lemma_fmul(p, fsquare(p, z1), z1 * z1, z1, z1);
        lemma_fmul(p, y2, c * c * c * y1, fmul(p, fsquare(p, z1), z1), z1 * z1 * z1);
        assert(y1 * ((c * z1) * (c * z1) * (c * z1)) == (c * c * c * y1) * (z1 * z1 * z1))
            by (nonlinear_arith);
        lemma_congruent_residues(
            p,
            fmul(p, y1, fmul(p, fsquare(p, z2), z2)),
            fmul(p, y2, fmul(p, fsquare(p, z1), z1)),
        );
    }
}

/// Doubling a point is adding it to itself.
pub proof fn lemma_double_is_add(p: int, a: int, pt: JacobianPoint)
    ensures
        add_points(p, a, pt, pt) == double(p, a, pt),
{
}

/// The point at infinity is the identity of addition: added on either side,
/// it leaves a point as it is, and the canonical triple `(0, 1, 0)` added to
/// itself gives itself.
pub proof fn lemma_add_identity(p: int, a: int, pt: JacobianPoint)
    ensures
        add_points(p, a, identity(), pt) == pt,
        !is_identity(pt) ==> add_points(p, a, pt, identity()) == pt,
        same_point(p, add_points(p, a, pt, identity()), pt),
        add_mixed(p, a, pt, affine_identity()) == pt,
        double(p, a, identity()) == identity(),
{
}

/// A point and its inverse add up to the point at infinity.
pub proof fn lemma_add_inverse(p: int, a: int, pt: JacobianPoint)
    requires
        is_prime(p),
        is_point(p, pt),
    ensures
        is_identity(add_points(p, a, pt, negate(p, pt))),
        is_identity(add_points(p, a, negate(p, pt), pt)),
{
    if pt.z != 0 {
        let (x, y, z) = (pt.x, pt.y, pt.z);
        let ny = fneg(p, y);
        let zz = fsquare(p, z);
        let s1 = fmul(p, fmul(p, y, z), zz);
        let s2 = fmul(p, fmul(p, ny, z), zz);
        lemma_residue(p, 0);
        lemma_residue(p, z);
        lemma_fneg(p, y, y);
        if s1 == s2 {
            // 2 * Y * Z^3 = 0, so that 2 * Y * Z = 0
            lemma_fmul(p, z, z, z, z);
            lemma_fmul(p, y, y, z, z);
            lemma_fmul(p, fmul(p, y, z), y * z, zz, z * z);
            lemma_fmul(p, ny, -y, z, z);
            lemma_fmul(p, fmul(p, ny, z), (-y) * z, zz, z * z);
            lemma_product_nonzero(p, z, z);
            assert(congruent(p, (2 * (y * z)) * (z * z), 0 * (z * z))) by {
                assert((2 * (y * z)) * (z * z) - 0 == 1 * ((y * z) * (z * z) - ((-y) * z) * (z
                    * z))) by (nonlinear_arith);
                lemma_rewrite(
                    p,
                    (2 * (y * z)) * (z * z),
                    0,
                    1,
                    (y * z) * (z * z),
                    ((-y) * z) * (z * z),
                );
                assert(0 * (z * z) == 0);
            }
            lemma_cancel(p, 2 * (y * z), 0, z * z);
            assert(2 * (ny * z) - (-1) * (2 * (y * z)) == (2 * z) * (ny - (-y)))
                by (nonlinear_arith);
            lemma_rewrite(p, 2 * (ny * z), (-1) * (2 * (y * z)), 2 * z, ny, -y);
            lemma_congruent_mul(p, -1, -1, 2 * (y * z), 0);
            lemma_double_is_residue(p, a, pt);
            lemma_double_is_residue(p, a, negate(p, pt));
            lemma_residue(p, double(p, a, pt).z);
            lemma_residue(p, double(p, a, negate(p, pt)).z);
            if a == 0 {
                lemma_lift_double_a_zero(p, pt, pt);
                lemma_lift_double_a_zero(p, negate(p, pt), negate(p, pt));
            } else {
                lemma_lift_double_general(p, a, a, pt, pt);
                lemma_lift_double_general(p, a, a, negate(p, pt), negate(p, pt));
            }
        } else {
            let u = fmul(p, x, zz);
            assert(fsub(p, u, u) == 0);
            let left = add_distinct(p, pt, negate(p, pt));
            let right = add_distinct(p, negate(p, pt), pt);
            assert(left.z == 0) by {
                let t = fsub(p, fsub(p, fsquare(p, fadd(p, z, z)), zz), zz);
                assert(t * 0 == 0);
            }
            assert(right.z == 0) by {
                let t = fsub(p, fsub(p, fsquare(p, fadd(p, z, z)), zz), zz);
                assert(t * 0 == 0);
            }
        }
    }
}

/// The coordinates of twice a point are residues.
pub proof fn lemma_double_is_residue(p: int, a: int, pt: JacobianPoint)
    requires
        p > 0,
        is_point(p, pt),
    ensures
        is_point(p, double(p, a, pt)),
{
    if pt.z != 0 {
        if a == 0 {
            lemma_lift_double_a_zero(p, pt, pt);
        } else {
            lemma_lift_double_general(p, a, a, pt, pt);
        }
    }
}

/// Scaling a triple by a nonzero `c` to `(c^2 * X, c^3 * Y, c * Z)` gives a
/// triple that stands for the same point.
pub proof fn lemma_scale_same_point(p: int, pt: JacobianPoint, c: int)
    requires
        is_prime(p),
        is_point(p, pt),
        0 < c < p,
    ensures
        same_point(p, pt, scale(p, pt, c)),
        is_point(p, scale(p, pt, c)),
        is_identity(scale(p, pt, c)) == is_identity(pt),
{
    lemma_scale_lift(p, pt, c, c);
    lemma_residue(p, c);
    lemma_same_point_scaled(p, pt, scale(p, pt, c), c);
}

/// The coordinates of a scaled triple are residues congruent to
/// `(c^2 * X, c^3 * Y, c * Z)`.
pub proof fn lemma_scale_lift(p: int, pt: JacobianPoint, c: int, rc: int)
    requires
        p > 0,
        congruent(p, c, rc),
    ensures
        is_point(p, scale(p, pt, c)),
        congruent(p, scale(p, pt, c).x, rc * rc * pt.x),
        congruent(p, scale(p, pt, c).y, rc * rc * rc * pt.y),
        congruent(p, scale(p, pt, c).z, rc * pt.z),
{
    let c2 = fsquare(p, c);
    lemma_fmul(p, c, rc, c, rc);
    lemma_fmul(p, c2, rc * rc, pt.x, pt.x);
    lemma_fmul(p, c2, rc * rc, c, rc);
    lemma_fmul(p, fmul(p, c2, c), rc * rc * rc, pt.y, pt.y);
    lemma_fmul(p, c, rc, pt.z, pt.z);
}

/// Normalization gives a normalized triple that stands for the same point,
/// and leaves a normalized triple as it is.
pub proof fn lemma_normalize(p: int, pt: JacobianPoint)
    requires
        is_prime(p),
        is_point(p, pt),
    ensures
        is_normalized(normalize(p, pt)),
        is_point(p, normalize(p, pt)),
        same_point(p, pt, normalize(p, pt)),
        is_identity(normalize(p, pt)) == is_identity(pt),
        is_normalized(pt) ==> normalize(p, pt) == pt,
        normalize(p, normalize(p, pt)) == normalize(p, pt),
{
    if !is_normalized(pt) {
        let zi = finv(p, pt.z);
        lemma_finv(p, pt.z);
        lemma_residue(p, zi);
        let zi2 = fsquare(p, zi);
        let n = normalize(p, pt);
        lemma_fmul(p, zi, zi, zi, zi);
        lemma_fmul(p, pt.x, pt.x, zi2, zi * zi);
        lemma_fmul(p, zi2, zi * zi, zi, zi);
        lemma_fmul(p, pt.y, pt.y, fmul(p, zi2, zi), zi * zi * zi);
        assert(pt.x * (zi * zi) == zi * zi * pt.x && pt.y * (zi * zi * zi) == zi * zi * zi * pt.y
            && pt.z * zi == zi * pt.z) by (nonlinear_arith);
        lemma_residue(p, 1);
        lemma_same_point_scaled(p, pt, n, zi);
    }
}

/// Adding an affine point gives the same point as adding the Jacobian point
/// that it lifts to; the very same triple, unless both points are at
/// infinity.
pub proof fn lemma_add_mixed_is_add(p: int, a: int, lhs: JacobianPoint, rhs: AffinePoint)
    requires
        p > 1,
        is_point(p, lhs),
        is_affine_point(p, rhs),
    ensures
        same_point(p, add_points(p, a, lhs, from_affine(rhs)), add_mixed(p, a, lhs, rhs)),
        !(is_identity(lhs) && rhs.infinity) ==> add_points(p, a, lhs, from_affine(rhs))
            == add_mixed(p, a, lhs, rhs),
{
    if !rhs.infinity && lhs.z != 0 {
        let lifted = from_affine(rhs);
        lemma_residue(p, 1);
        lemma_residue(p, lhs.x);
        lemma_residue(p, lhs.y);
        assert(fsquare(p, 1) == 1);
        assert(lhs.x * 1 == lhs.x && lhs.y * 1 == lhs.y);
        assert(fmul(p, lhs.x, 1) == lhs.x);
        assert(fmul(p, fmul(p, lhs.y, 1), 1) == lhs.y);
        let z1z1 = fsquare(p, lhs.z);
        let u2 = fmul(p, rhs.x, z1z1);
        let s2 = fmul(p, fmul(p, rhs.y, lhs.z), z1z1);
        if !(lhs.x == u2 && lhs.y == s2) {
            lemma_lift_add_distinct(p, lhs, lifted, lhs, lifted);
            lemma_lift_add_mixed_distinct(p, lhs, rhs, lhs, rhs);
            let general = add_distinct(p, lhs, lifted);
            let mixed = add_mixed_distinct(p, lhs, rhs);
            assert(poly_add(lhs, lifted) == poly_add_mixed(lhs, rhs)) by {
                assert(lhs.x * (1 * 1) == lhs.x);
                assert(lhs.y * 1 * (1 * 1) == lhs.y);
                assert(lhs.z * 1 == lhs.z);
            }
            lemma_congruent_residues(p, general.x, mixed.x);
            lemma_congruent_residues(p, general.y, mixed.y);
            lemma_congruent_residues(p, general.z, mixed.z);
        }
    }
}

/// Two triples that stand for the same point, not the one at infinity, are
/// scalings of each other: the second is the first scaled by `Z2 / Z1`.
pub proof fn lemma_same_point_is_scaled(p: int, lhs: JacobianPoint, rhs: JacobianPoint) -> (c: int)
    requires
        is_prime(p),
        is_point(p, lhs),
        is_point(p, rhs),
        !is_identity(lhs),
        same_point(p, lhs, rhs),
    ensures
        0 < c < p,
        rhs == scale(p, lhs, c),
{
    let (x1, y1, z1) = (lhs.x, lhs.y, lhs.z);
    let (x2, y2, z2) = (rhs.x, rhs.y, rhs.z);
    let zi = finv(p, z1);
    lemma_finv(p, z1);
    lemma_residue(p, zi);
    lemma_residue(p, z1);
    lemma_residue(p, z2);
    lemma_residue(p, 1);
    let c = fmul(p, z2, zi);
    lemma_fmul(p, z2, z2, zi, zi);
    lemma_product_nonzero(p, z2, zi);
    lemma_scale_lift(p, lhs, c, z2 * zi);
    let scaled = scale(p, lhs, c);
    let w = z2 * zi;
    // Z: (z2 * zi) * z1 = z2
    assert(w * z1 - z2 == z2 * (z1 * zi - 1)) by (nonlinear_arith)
        requires
            w == z2 * zi,
    ;
    lemma_rewrite(p, w * z1, z2, z2, z1 * zi, 1);
    lemma_congruent_residues(p, scaled.z, z2);
    // X: (z2 * zi)^2 * x1 = zi^2 * (x1 * z2^2) = zi^2 * (x2 * z1^2) = x2
    lemma_fmul(p, z1, z1, z1, z1);
    lemma_fmul(p, z2, z2, z2, z2);
    lemma_fmul(p, x1, x1, fsquare(p, z2), z2 * z2);
    lemma_fmul(p, x2, x2, fsquare(p, z1), z1 * z1);
    assert(w * w * x1 - (zi * zi) * (x2 * (z1 * z1)) == (zi * zi) * (x1 * (z2 * z2) - x2 * (z1
        * z1))) by (nonlinear_arith)
        requires
            w == z2 * zi,
    ;
    lemma_rewrite(
        p,
        w * w * x1,
        (zi * zi) * (x2 * (z1 * z1)),
        zi * zi,
        x1 * (z2 * z2),
        x2 * (z1 * z1),
    );
    assert((zi * zi) * (x2 * (z1 * z1)) - x2 == (x2 * (z1 * zi + 1)) * (z1 * zi - 1))
        by (nonlinear_arith);
    lemma_rewrite(p, (zi * zi) * (x2 * (z1 * z1)), x2, x2 * (z1 * zi + 1), z1 * zi, 1);
    lemma_congruent_residues(p, scaled.x, x2);
    // Y: (z2 * zi)^3 * y1 = zi^3 * (y1 * z2^3) = zi^3 * (y2 * z1^3) = y2
    lemma_fmul(p, fsquare(p, z2), z2 * z2, z2, z2);
    lemma_fmul(p, fsquare(p, z1), z1 * z1, z1, z1);
    lemma_fmul(p, y1, y1, fmul(p, fsquare(p, z2), z2), z2 * z2 * z2);
    lemma_fmul(p, y2, y2, fmul(p, fsquare(p, z1), z1), z1 * z1 * z1);
    assert(w * w * w * y1 - (zi * zi * zi) * (y2 * (z1 * z1 * z1)) == (zi * zi * zi) * (y1 * (z2
        * z2 * z2) - y2 * (z1 * z1 * z1))) by (nonlinear_arith)
        requires
            w == z2 * zi,
    ;
    lemma_rewrite(
        p,
        w * w * w * y1,
        (zi * zi * zi) * (y2 * (z1 * z1 * z1)),
        zi * zi * zi,
        y1 * (z2 * z2 * z2),
        y2 * (z1 * z1 * z1),
    );
    let t = z1 * zi;
    assert((zi * zi * zi) * (y2 * (z1 * z1 * z1)) - y2 == (y2 * (t * t + t + 1)) * (t - 1))
        by (nonlinear_arith)
        requires
            t == z1 * zi,
    ;
    lemma_rewrite(p, (zi * zi * zi) * (y2 * (z1 * z1 * z1)), y2, y2 * (t * t + t + 1), t, 1);
    lemma_congruent_residues(p, scaled.y, y2);
    c
}

/// Doubling a scaled triple gives the doubled triple, scaled: away from the
/// point at infinity, twice `(c^2 * X, c^3 * Y, c * Z)` is twice `(X, Y, Z)`
/// scaled by `c^4`.
pub proof fn lemma_double_scaled(p: int, a: int, pt: JacobianPoint, c: int)
    requires
        is_prime(p),
        is_point(p, pt),
        !is_identity(pt),
        0 < c < p,
    ensures
        double(p, a, scale(p, pt, c)) == scale(
            p,
            double(p, a, pt),
            fmul(p, fsquare(p, c), fsquare(p, c)),
        ),
        0 < fmul(p, fsquare(p, c), fsquare(p, c)) < p,
{
    let c2 = fsquare(p, c);
    let c4 = fmul(p, c2, c2);
    let k = (c * c) * (c * c);
    lemma_residue(p, c);
    lemma_residue(p, 0);
    lemma_fmul(p, c, c, c, c);
    lemma_fmul(p, c2, c * c, c2, c * c);
    lemma_product_nonzero(p, c, c);
    lemma_product_nonzero(p, c * c, c * c);
    let scaled = scale(p, pt, c);
    lemma_scale_lift(p, pt, c, c);
    let raw = JacobianPoint { x: c * c * pt.x, y: c * c * c * pt.y, z: c * pt.z };
    let doubled = double(p, a, pt);
    lemma_double_is_residue(p, a, pt);
    lemma_scale_lift(p, doubled, c4, k);
    {
        lemma_residue(p, pt.z);
        lemma_product_nonzero(p, c, pt.z);
        lemma_residue(p, scaled.z);
        if a == 0 {
            lemma_lift_double_a_zero(p, scaled, raw);
            lemma_lift_double_a_zero(p, pt, pt);
        } else {
            lemma_lift_double_general(p, a, a, scaled, raw);
            lemma_lift_double_general(p, a, a, pt, pt);
        }
        lemma_double_is_residue(p, a, scaled);
        let left = double(p, a, scaled);
        let right = scale(p, doubled, c4);
        let d = poly_double(a, pt);
        let e = poly_double(a, raw);
        lemma_poly_double_scaled(a, pt, c);
        // the right-hand side is congruent to the scaled polynomials
        lemma_congruent_mul(p, k * k, k * k, doubled.x, d.x);
        lemma_congruent_mul(p, k * k * k, k * k * k, doubled.y, d.y);
        lemma_congruent_mul(p, k, k, doubled.z, d.z);
        lemma_congruent_residues(p, left.x, right.x);
        lemma_congruent_residues(p, left.y, right.y);
        lemma_congruent_residues(p, left.z, right.z);
    }
}

/// The polynomials of doubling at `(c^2 * X, c^3 * Y, c * Z)` are those at
/// `(X, Y, Z)` times `c^8`, `c^12` and `c^4`.
proof fn lemma_poly_double_scaled(a: int, pt: JacobianPoint, c: int)
    ensures
        ({
            let k = (c * c) * (c * c);
            let raw = JacobianPoint { x: c * c * pt.x, y: c * c * c * pt.y, z: c * pt.z };
            let d = poly_double(a, pt);
            let e = poly_double(a, raw);
            e.x == k * k * d.x && e.y == k * k * k * d.y && e.z == k * d.z
        }),
{
    let (x, y, z) = (pt.x, pt.y, pt.z);
    let k = (c * c) * (c * c);
    let (sx, sy, sz) = (c * c * x, c * c * c * y, c * z);
    let m = 3 * (x * x) + a * ((z * z) * (z * z));
    let s = 4 * (x * (y * y));
    let x3 = m * m - 2 * s;
    let y4 = (y * y) * (y * y);
    let sm = 3 * (sx * sx) + a * ((sz * sz) * (sz * sz));
    let ss = 4 * (sx * (sy * sy));
    let sx3 = sm * sm - 2 * ss;
    let sy4 = (sy * sy) * (sy * sy);
    assert(sx * sx == k * (x * x) && (sz * sz) * (sz * sz) == k * ((z * z) * (z * z)))
        by (nonlinear_arith)
        requires
            sx == c * c * x,
            sz == c * z,
            k == (c * c) * (c * c),
    ;
    assert(sm == k * m) by (nonlinear_arith)
        requires
            sm == 3 * (sx * sx) + a * ((sz * sz) * (sz * sz)),
            sx * sx == k * (x * x),
            (sz * sz) * (sz * sz) == k * ((z * z) * (z * z)),
            m == 3 * (x * x) + a * ((z * z) * (z * z)),
    ;
    assert(sy * sy == (c * c) * k * (y * y)) by (nonlinear_arith)
        requires
            sy == c * c * c * y,
            k == (c * c) * (c * c),
    ;
    assert(ss == k * k * s) by (nonlinear_arith)
        requires
            ss == 4 * (sx * (sy * sy)),
            sx == c * c * x,
            sy * sy == (c * c) * k * (y * y),
            s == 4 * (x * (y * y)),
            k == (c * c) * (c * c),
    ;
    assert(sx3 == k * k * x3) by (nonlinear_arith)
        requires
            sx3 == sm * sm - 2 * ss,
            sm == k * m,
            ss == k * k * s,
            x3 == m * m - 2 * s,
    ;
    assert(sy4 == k * k * k * y4) by (nonlinear_arith)
        requires
            sy4 == (sy * sy) * (sy * sy),
            sy * sy == (c * c) * k * (y * y),
            y4 == (y * y) * (y * y),
            k == (c * c) * (c * c),
    ;
    assert(sm * (ss - sx3) - 8 * sy4 == k * k * k * (m * (s - x3) - 8 * y4)) by (nonlinear_arith)
        requires
            sm == k * m,
            ss == k * k * s,
            sx3 == k * k * x3,
            sy4 == k * k * k * y4,
    ;
    assert(2 * (sy * sz) == k * (2 * (y * z))) by (nonlinear_arith)
        requires
            sy == c * c * c * y,
            sz == c * z,
            k == (c * c) * (c * c),
    ;
}

/// Doubling respects the points that triples stand for: twice the same point
/// is the same point.
pub proof fn lemma_double_same_point(p: int, a: int, lhs: JacobianPoint, rhs: JacobianPoint)
    requires
        is_prime(p),
        is_point(p, lhs),
        is_point(p, rhs),
        same_point(p, lhs, rhs),
    ensures
        same_point(p, double(p, a, lhs), double(p, a, rhs)),
{
    if lhs.z != 0 {
        let c = lemma_same_point_is_scaled(p, lhs, rhs);
        lemma_double_scaled(p, a, lhs, c);
        lemma_double_is_residue(p, a, lhs);
        lemma_scale_same_point(p, double(p, a, lhs), fmul(p, fsquare(p, c), fsquare(p, c)));
    }
}

/// Addition is commutative: the two sums stand for the same point.
pub proof fn lemma_add_commutative(p: int, a: int, lhs: JacobianPoint, rhs: JacobianPoint)
    requires
        is_prime(p),
        is_point(p, lhs),
        is_point(p, rhs),
    ensures
        same_point(p, add_points(p, a, lhs, rhs), add_points(p, a, rhs, lhs)),
{
    if lhs.z != 0 && rhs.z != 0 {
        let z1z1 = fsquare(p, lhs.z);
        let z2z2 = fsquare(p, rhs.z);
        let u1 = fmul(p, lhs.x, z2z2);
        let u2 = fmul(p, rhs.x, z1z1);
        let s1 = fmul(p, fmul(p, lhs.y, rhs.z), z2z2);
        let s2 = fmul(p, fmul(p, rhs.y, lhs.z), z1z1);
        if u1 == u2 && s1 == s2 {
            // Y1 * (Z2^2 * Z2) = (Y1 * Z2) * Z2^2, and so on the other side
            lemma_fmul(p, rhs.z, rhs.z, rhs.z, rhs.z);
            lemma_fmul(p, lhs.z, lhs.z, lhs.z, lhs.z);
            lemma_fmul(p, lhs.y, lhs.y, rhs.z, rhs.z);
            lemma_fmul(p, fmul(p, lhs.y, rhs.z), lhs.y * rhs.z, z2z2, rhs.z * rhs.z);
            lemma_fmul(p, z2z2, rhs.z * rhs.z, rhs.z, rhs.z);
            lemma_fmul(p, lhs.y, lhs.y, fmul(p, z2z2, rhs.z), rhs.z * rhs.z * rhs.z);
            lemma_fmul(p, rhs.y, rhs.y, lhs.z, lhs.z);
            lemma_fmul(p, fmul(p, rhs.y, lhs.z), rhs.y * lhs.z, z1z1, lhs.z * lhs.z);
            lemma_fmul(p, z1z1, lhs.z * lhs.z, lhs.z, lhs.z);
            lemma_fmul(p, rhs.y, rhs.y, fmul(p, z1z1, lhs.z), lhs.z * lhs.z * lhs.z);
            assert((lhs.y * rhs.z) * (rhs.z * rhs.z) == lhs.y * (rhs.z * rhs.z * rhs.z) && (rhs.y
                * lhs.z) * (lhs.z * lhs.z) == rhs.y * (lhs.z * lhs.z * lhs.z)) by (nonlinear_arith);
            lemma_congruent_residues(p, s1, fmul(p, lhs.y, fmul(p, z2z2, rhs.z)));
            lemma_congruent_residues(p, s2, fmul(p, rhs.y, fmul(p, z1z1, lhs.z)));
            assert(same_point(p, lhs, rhs));
            lemma_double_same_point(p, a, lhs, rhs);
        } else {
            lemma_lift_add_distinct(p, lhs, rhs, lhs, rhs);
            lemma_lift_add_distinct(p, rhs, lhs, rhs, lhs);
            let left = add_distinct(p, lhs, rhs);
            let right = add_distinct(p, rhs, lhs);
            let pl = poly_add(lhs, rhs);
            let pr = poly_add(rhs, lhs);
            lemma_poly_add_swapped(lhs, rhs);
            // the sum the other way round is the sum scaled by -1
            lemma_congruent_mul(p, (-1) * (-1), 1, left.x, pl.x);
            lemma_congruent_mul(p, (-1) * (-1) * (-1), -1, left.y, pl.y);
            lemma_congruent_mul(p, -1, -1, left.z, pl.z);
            assert(1 * pl.x == pr.x && (-1) * pl.y == pr.y && (-1) * pl.z == pr.z);
            assert((-1int) % p != 0) by {
                lemma_fneg(p, 1, 1);
                lemma_residue(p, 1);
                crate::modular::lemma_fneg_value(p, 1);
            }
            lemma_same_point_scaled(p, left, right, -1);
        }
    }
}

/// The polynomials of the sum with the summands exchanged: the same `X`, and
/// `Y` and `Z` with the other sign.
proof fn lemma_poly_add_swapped(lhs: JacobianPoint, rhs: JacobianPoint)
    ensures
        poly_add(rhs, lhs).x == poly_add(lhs, rhs).x,
        poly_add(rhs, lhs).y == -poly_add(lhs, rhs).y,
        poly_add(rhs, lhs).z == -poly_add(lhs, rhs).z,
{
    let u1 = lhs.x * (rhs.z * rhs.z);
    let u2 = rhs.x * (lhs.z * lhs.z);
    let s1 = lhs.y * rhs.z * (rhs.z * rhs.z);
    let s2 = rhs.y * lhs.z * (lhs.z * lhs.z);
    let h = u2 - u1;
    let r = s2 - s1;
    let zz = lhs.z * rhs.z;
    let a = poly_sum(u1, s1, h, r, zz);
    let b = poly_sum(u2, s2, -h, -r, rhs.z * lhs.z);
    assert(rhs.z * lhs.z == zz) by (nonlinear_arith)
        requires
            zz == lhs.z * rhs.z,
    ;
    assert(b.x == a.x) by (nonlinear_arith)
        requires
            a.x == 4 * (r * r) - 4 * (h * h * h) - 8 * (u1 * (h * h)),
            b.x == 4 * ((-r) * (-r)) - 4 * ((-h) * (-h) * (-h)) - 8 * (u2 * ((-h) * (-h))),
            h == u2 - u1,
    ;
    assert(b.y == -a.y) by (nonlinear_arith)
        requires
            a.y == 2 * (r * (4 * (u1 * (h * h)) - a.x)) - 8 * (s1 * (h * h * h)),
            b.y == 2 * ((-r) * (4 * (u2 * ((-h) * (-h))) - b.x)) - 8 * (s2 * ((-h) * (-h) * (-h))),
            b.x == a.x,
            h == u2 - u1,
            r == s2 - s1,
    ;
    assert(b.z == -a.z) by (nonlinear_arith)
        requires
            a.z == 2 * (zz * h),
            b.z == 2 * (zz * (-h)),
    ;
    assert(u1 - u2 == -h && s1 - s2 == -r);
}

} // verus!
