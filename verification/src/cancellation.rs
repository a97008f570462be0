//! Taking away what was added: `(P + Q) - Q = P` for the points of a curve
//! without singular points.
use crate::chord_tangent::{
    affine_add, lemma_add_affine, lemma_add_is_residue, lemma_difference_nonzero,
    lemma_negate_affine, lemma_same_point_is_same_affine, third_point,
};
use crate::identities::{cubic, lemma_line_meets_cubic};
use crate::jacobian::{
    add_points, affine_identity, affine_negate, is_affine_point, is_nonsingular, is_on_curve,
    is_point, lies_on_curve, negate, same_point, subtract, to_affine, AffinePoint,
    JacobianPoint,
};
use crate::modular::{
    congruent, fadd, fdouble, finv, fmul, fneg, fsquare, fsub, is_prime, is_residue, lemma_cancel,
    lemma_congruent_add, lemma_congruent_mul, lemma_congruent_neg, lemma_congruent_residues,
    lemma_congruent_sub, lemma_fadd, lemma_finv, lemma_fmul, lemma_fneg, lemma_fsub,
    lemma_product_nonzero, lemma_residue, lemma_rewrite,
};
use crate::on_curve::{lemma_curve_rhs, lemma_to_affine_is_affine_point};
use vstd::prelude::*;

verus! {

/// The cubic of a curve without singular points and its derivative have no
/// common root.
pub proof fn lemma_no_double_root(p: int, a: int, b: int, x: int)
    requires
        is_prime(p),
        is_nonsingular(p, a, b),
    ensures
        !(congruent(p, cubic(a, b, x), 0) && congruent(p, 3 * (x * x) + a, 0)),
{
    if congruent(p, cubic(a, b, x), 0) && congruent(p, 3 * (x * x) + a, 0) {
        lemma_common_root(p, a, b, x);
    }
}

/// Where the cubic and its derivative have a common root, the discriminant
/// is zero.
proof fn lemma_common_root(p: int, a: int, b: int, x: int)
    requires
        is_prime(p),
        congruent(p, cubic(a, b, x), 0),
        congruent(p, 3 * (x * x) + a, 0),
    ensures
        !is_nonsingular(p, a, b),
{
    let g = cubic(a, b, x);
    let h = 3 * (x * x) + a;
    // 3 * g - x * h = 2 * a * x + 3 * b
    let line = 2 * (a * x) + 3 * b;
    assert(3 * g - x * h == line) by (nonlinear_arith)
        requires
            g == (x * x) * x + a * x + b,
            h == 3 * (x * x) + a,
            line == 2 * (a * x) + 3 * b,
    ;
    lemma_congruent_mul(p, 3, 3, g, 0);
    lemma_congruent_mul(p, x, x, h, 0);
    lemma_congruent_sub(p, 3 * g, 3 * 0int, x * h, x * 0);
    assert(3 * 0int - x * 0 == 0);
    // 4 * a^2 * h - 3 * (line - 3 * b)^2 = 4 * a^3, and so
    // 4 * a^2 * h - 3 * line * (line - 6 * b) = 4 * a^3 + 27 * b^2
    let ax = a * x;
    let disc = 4 * (a * a * a) + 27 * (b * b);
    let aa = 4 * (a * a);
    assert(aa * h - (3 * (line - 6 * b)) * line == disc) by (nonlinear_arith)
        requires
            h == 3 * (x * x) + a,
            line == 2 * ax + 3 * b,
            ax == a * x,
            aa == 4 * (a * a),
            disc == 4 * (a * a * a) + 27 * (b * b),
    ;
    lemma_congruent_mul(p, aa, aa, h, 0);
    lemma_congruent_mul(p, 3 * (line - 6 * b), 3 * (line - 6 * b), line, 0);
    lemma_congruent_sub(p, aa * h, aa * 0, (3 * (line - 6 * b)) * line, (3 * (line - 6 * b)) * 0);
    assert(aa * 0 - (3 * (line - 6 * b)) * 0 == 0);
    lemma_residue(p, 0);
}

/// The third point on a line is congruent to what the chord and the tangent
/// make of the slope.
pub proof fn lemma_third_point_lift(p: int, s: int, pt: AffinePoint, x2: int)
    requires
        p > 0,
    ensures
        is_affine_point(p, third_point(p, s, pt, x2)),
        !third_point(p, s, pt, x2).infinity,
        congruent(p, third_point(p, s, pt, x2).x, s * s - pt.x - x2),
        congruent(
            p,
            third_point(p, s, pt, x2).y,
            s * (pt.x - (s * s - pt.x - x2)) - pt.y,
        ),
{
    let third = third_point(p, s, pt, x2);
    let rx = s * s - pt.x - x2;
    lemma_fmul(p, s, s, s, s);
    lemma_fsub(p, fsquare(p, s), s * s, pt.x, pt.x);
    lemma_fsub(p, fsub(p, fsquare(p, s), pt.x), s * s - pt.x, x2, x2);
    lemma_fsub(p, pt.x, pt.x, third.x, rx);
    lemma_fmul(p, s, s, fsub(p, pt.x, third.x), pt.x - rx);
    lemma_fsub(p, fmul(p, s, fsub(p, pt.x, third.x)), s * (pt.x - rx), pt.y, pt.y);
}

/// Back along the mirrored line: where `sum` is the third point on the line
/// through `pt` with slope `s` and second point at `x2`, the third point on
/// the line through `sum` with the slope `-s` and second point at `x2` is
/// `pt`.
proof fn lemma_mirrored_line(p: int, s: int, back: int, pt: AffinePoint, x2: int)
    requires
        p > 0,
        is_affine_point(p, pt),
        !pt.infinity,
        congruent(p, back, -s),
    ensures
        third_point(p, back, third_point(p, s, pt, x2), x2) == pt,
{
    let sum = third_point(p, s, pt, x2);
    let (x1, y1) = (pt.x, pt.y);
    let rx = s * s - x1 - x2;
    let ry = s * (x1 - rx) - y1;
    lemma_third_point_lift(p, s, pt, x2);
    let again = third_point(p, back, sum, x2);
    // x' = s^2 - xs - x2 = x1
    lemma_fmul(p, back, -s, back, -s);
    lemma_fsub(p, fsquare(p, back), (-s) * (-s), sum.x, rx);
    lemma_fsub(p, fsub(p, fsquare(p, back), sum.x), (-s) * (-s) - rx, x2, x2);
    assert((-s) * (-s) - rx - x2 == x1) by (nonlinear_arith)
        requires
            rx == s * s - x1 - x2,
    ;
    lemma_congruent_residues(p, again.x, x1);
    // y' = -s * (xs - x1) - ys = y1
    lemma_fsub(p, sum.x, rx, again.x, x1);
    lemma_fmul(p, back, -s, fsub(p, sum.x, again.x), rx - x1);
    lemma_fsub(p, fmul(p, back, fsub(p, sum.x, again.x)), (-s) * (rx - x1), sum.y, ry);
    assert((-s) * (rx - x1) - ry == y1) by (nonlinear_arith)
        requires
            ry == s * (x1 - rx) - y1,
    ;
    lemma_congruent_residues(p, again.y, y1);
}

/// The slope of the chord through two points with different `x`, times the
/// difference of their `x`, is the difference of their `y`.
pub proof fn lemma_chord_slope(p: int, lhs: AffinePoint, rhs: AffinePoint) -> (s: int)
    requires
        is_prime(p),
        is_affine_point(p, lhs),
        is_affine_point(p, rhs),
        lhs.x != rhs.x,
    ensures
        s == fmul(p, fsub(p, rhs.y, lhs.y), finv(p, fsub(p, rhs.x, lhs.x))),
        is_residue(p, s),
        congruent(p, s * (rhs.x - lhs.x), rhs.y - lhs.y),
        (rhs.x - lhs.x) % p != 0,
{
    let (d, e) = (rhs.x - lhs.x, rhs.y - lhs.y);
    lemma_residue(p, 1);
    lemma_difference_nonzero(p, rhs.x, lhs.x);
    let w = finv(p, fsub(p, rhs.x, lhs.x));
    lemma_finv(p, fsub(p, rhs.x, lhs.x));
    lemma_congruent_mul(p, fsub(p, rhs.x, lhs.x), d, w, w);
    lemma_fsub(p, rhs.y, rhs.y, lhs.y, lhs.y);
    let s = fmul(p, fsub(p, rhs.y, lhs.y), w);
    lemma_fmul(p, fsub(p, rhs.y, lhs.y), e, w, w);
    lemma_congruent_mul(p, s, e * w, d, d);
    assert((e * w) * d - e == e * (d * w - 1)) by (nonlinear_arith);
    lemma_rewrite(p, (e * w) * d, e, e, d * w, 1);
    s
}

/// The slope of the tangent at a point with `2 * y != 0`, times `2 * y`, is
/// `3 * x^2 + a`.
pub proof fn lemma_tangent_slope(p: int, a: int, pt: AffinePoint) -> (s: int)
    requires
        is_prime(p),
        is_affine_point(p, pt),
        fdouble(p, pt.y) != 0,
    ensures
        s == fmul(
            p,
            fadd(p, fmul(p, 3, fsquare(p, pt.x)), a),
            finv(p, fdouble(p, pt.y)),
        ),
        is_residue(p, s),
        congruent(p, s * (pt.y + pt.y), 3 * (pt.x * pt.x) + a),
        (pt.y + pt.y) % p != 0,
{
    let (x, y) = (pt.x, pt.y);
    lemma_residue(p, 1);
    lemma_residue(p, 0);
    let g = fdouble(p, y);
    lemma_fadd(p, y, y, y, y);
    lemma_residue(p, g);
    let w = finv(p, g);
    lemma_finv(p, g);
    lemma_congruent_mul(p, g, y + y, w, w);
    let n = 3 * (x * x) + a;
    lemma_fmul(p, x, x, x, x);
    lemma_fmul(p, 3, 3, fsquare(p, x), x * x);
    lemma_fadd(p, fmul(p, 3, fsquare(p, x)), 3 * (x * x), a, a);
    let s = fmul(p, fadd(p, fmul(p, 3, fsquare(p, x)), a), w);
    lemma_fmul(p, fadd(p, fmul(p, 3, fsquare(p, x)), a), n, w, w);
    lemma_congruent_mul(p, s, n * w, y + y, y + y);
    assert((n * w) * (y + y) - n == n * ((y + y) * w - 1)) by (nonlinear_arith);
    lemma_rewrite(p, (n * w) * (y + y), n, n, (y + y) * w, 1);
    s
}

/// The inverse of a point has `2 * y = 0` exactly where the point has, and
/// twice its `y` is the negation of twice the `y` of the point.
pub proof fn lemma_negated_double(p: int, y: int)
    requires
        p > 0,
        is_residue(p, y),
    ensures
        fdouble(p, fneg(p, y)) == 0 <==> fdouble(p, y) == 0,
        congruent(p, fneg(p, y) + fneg(p, y), -(y + y)),
        is_residue(p, fneg(p, y)),
{
    let n = fneg(p, y);
    lemma_fneg(p, y, y);
    lemma_fadd(p, n, -y, n, -y);
    lemma_fadd(p, y, y, y, y);
    lemma_residue(p, 0);
    lemma_congruent_add(p, n, -y, n, -y);
    assert((-y) + (-y) == -(y + y));
    if fdouble(p, y) == 0 {
        lemma_congruent_neg(p, y + y, 0);
    }
    if fdouble(p, n) == 0 {
        lemma_congruent_neg(p, -(y + y), 0);
    }
}

/// Adding the inverse of the second summand to the third point on a line
/// through two points goes back to the first point: the second step of
/// `(P + Q) - Q`, where the sum is the third point on a line through `P`
/// that passes `Q` and, where it touches the curve at `Q`, has the slope of
/// the tangent there.
proof fn lemma_back_to_first(p: int, a: int, s: int, pt: AffinePoint, other: AffinePoint)
    requires
        is_prime(p),
        is_affine_point(p, pt),
        is_affine_point(p, other),
        !pt.infinity,
        !other.infinity,
        is_residue(p, s),
        congruent(p, other.y, s * (other.x - pt.x) + pt.y),
        third_point(p, s, pt, other.x).x == other.x ==> fdouble(p, other.y) != 0 && congruent(
            p,
            s * (other.y + other.y),
            3 * (other.x * other.x) + a,
        ),
    ensures
        affine_add(p, a, third_point(p, s, pt, other.x), affine_negate(p, other)) == pt,
{
    let sum = third_point(p, s, pt, other.x);
    let inverse = affine_negate(p, other);
    let (x1, y1, x2, y2) = (pt.x, pt.y, other.x, other.y);
    let rx = s * s - x1 - x2;
    let ry = s * (x1 - rx) - y1;
    lemma_third_point_lift(p, s, pt, x2);
    lemma_fneg(p, y2, y2);
    lemma_residue(p, 0);
    // -y2 - ys = -s * (x2 - xs)
    lemma_congruent_neg(p, y2, s * (x2 - x1) + y1);
    lemma_congruent_sub(p, -y2, -(s * (x2 - x1) + y1), sum.y, ry);
    assert(-(s * (x2 - x1) + y1) - ry == (-s) * (x2 - rx)) by (nonlinear_arith)
        requires
            ry == s * (x1 - rx) - y1,
    ;
    if sum.x != x2 {
        let back = lemma_chord_slope(p, sum, inverse);
        // both slopes times x2 - xs are -y2 - ys
        lemma_congruent_sub(p, x2, x2, sum.x, rx);
        lemma_congruent_mul(p, -s, -s, x2 - sum.x, x2 - rx);
        lemma_congruent_sub(p, inverse.y, -y2, sum.y, sum.y);
        lemma_cancel(p, back, -s, x2 - sum.x);
        lemma_mirrored_line(p, s, back, pt, x2);
    } else {
        // the sum is the inverse of the second summand
        lemma_congruent_sub(p, x2, rx, x2, x2);
        assert(x2 - x2 == 0 && rx - x2 == -(x2 - rx));
        lemma_congruent_neg(p, 0, rx - x2);
        lemma_congruent_mul(p, -s, -s, x2 - rx, 0);
        assert((-s) * 0 == 0);
        lemma_congruent_sub(p, -y2, -y2, -y2 - sum.y, 0);
        assert(-y2 - (-y2 - sum.y) == sum.y);
        lemma_congruent_residues(p, sum.y, inverse.y);
        assert(sum == inverse);
        // the tangent at the inverse has the slope -s
        lemma_negated_double(p, y2);
        let back = lemma_tangent_slope(p, a, inverse);
        lemma_congruent_mul(p, back, back, inverse.y + inverse.y, -(y2 + y2));
        lemma_congruent_neg(p, s * (y2 + y2), 3 * (x2 * x2) + a);
        assert(back * (-(y2 + y2)) == (-back) * (y2 + y2) && -(s * (y2 + y2)) == (-s) * (y2 + y2))
            by (nonlinear_arith);
        lemma_congruent_neg(p, (-back) * (y2 + y2), 3 * (x2 * x2) + a);
        assert(-((-back) * (y2 + y2)) == back * (y2 + y2)) by (nonlinear_arith);
        assert(congruent(p, back * (y2 + y2), -(3 * (x2 * x2) + a)));
        assert(congruent(p, (-s) * (y2 + y2), -(3 * (x2 * x2) + a)));
        lemma_congruent_residues(p, fdouble(p, y2), fdouble(p, y2));
        lemma_fadd(p, y2, y2, y2, y2);
        lemma_cancel(p, back, -s, y2 + y2);
        lemma_mirrored_line(p, s, back, pt, x2);
    }
}

/// Taking away what was added, in affine coordinates: `(P + Q) - Q = P` for
/// points of a curve without singular points.
pub proof fn lemma_affine_add_then_subtract(
    p: int,
    a: int,
    b: int,
    lhs: AffinePoint,
    rhs: AffinePoint,
)
    requires
        is_prime(p),
        p > 2,
        is_nonsingular(p, a, b),
        is_affine_point(p, lhs),
        is_affine_point(p, rhs),
        is_on_curve(p, a, b, lhs),
        is_on_curve(p, a, b, rhs),
        lhs.infinity ==> lhs == affine_identity(),
        rhs.infinity ==> rhs == affine_identity(),
    ensures
        affine_add(p, a, affine_add(p, a, lhs, rhs), affine_negate(p, rhs)) == lhs,
{
    let (x1, y1, x2, y2) = (lhs.x, lhs.y, rhs.x, rhs.y);
    lemma_residue(p, 0);
    lemma_residue(p, 1);
    lemma_residue(p, 2);
    if rhs.infinity {
    } else if lhs.infinity {
        // Q - Q
        lemma_negated_double(p, y2);
        lemma_fneg(p, y2, y2);
        if y2 == fneg(p, y2) {
            lemma_congruent_add(p, y2, -y2, y2, y2);
            assert(-y2 + y2 == 0);
        }
    } else {
        lemma_negated_double(p, y2);
        lemma_fneg(p, y2, y2);
        lemma_fadd(p, y1, y1, y1, y1);
        lemma_fmul(p, y1, y1, y1, y1);
        lemma_fmul(p, y2, y2, y2, y2);
        lemma_curve_rhs(p, a, b, x1, x1);
        lemma_curve_rhs(p, a, b, x2, x2);
        if x1 != x2 {
            let s = lemma_chord_slope(p, lhs, rhs);
            let d = x2 - x1;
            lemma_congruent_add(p, s * d, y2 - y1, y1, y1);
            let sum = third_point(p, s, lhs, x2);
            lemma_third_point_lift(p, s, lhs, x2);
            if sum.x == x2 {
                // the line touches the curve at the second point: seen from
                // there, it meets the curve again at the first point
                lemma_line_meets_cubic(s, x2, y2, -d, a, b);
                let at = 3 * (x2 * x2) + a - 2 * (s * y2) + (-d) * (3 * x2 - s * s + (-d));
                assert(x2 + (-d) == x1);
                let line = s * (-d) + y2;
                lemma_congruent_neg(p, s * d, y2 - y1);
                assert(-(s * d) == s * (-d)) by (nonlinear_arith);
                lemma_congruent_add(p, s * (-d), -(y2 - y1), y2, y2);
                lemma_congruent_mul(p, line, y1, line, y1);
                lemma_congruent_sub(p, cubic(a, b, x1), y1 * y1, line * line, y1 * y1);
                lemma_congruent_sub(p, cubic(a, b, x2), y2 * y2, y2 * y2, y2 * y2);
                lemma_congruent_sub(
                    p,
                    cubic(a, b, x1) - line * line,
                    0,
                    cubic(a, b, x2) - y2 * y2,
                    0,
                );
                assert(congruent(p, (-d) * at, 0));
                assert((-d) * at == at * (-d) && 0 * (-d) == 0) by (nonlinear_arith);
                lemma_congruent_neg(p, d, d);
                lemma_difference_nonzero(p, x1, x2);
                assert(x1 - x2 == -d);
                lemma_cancel(p, at, 0, -d);
                // s^2 = x1 + 2 * x2, so that the slope is that of the tangent
                let rx = s * s - x1 - x2;
                lemma_congruent_sub(p, rx, x2, x2, x2);
                let gap = 3 * x2 - s * s + (-d);
                assert(gap == -(rx - x2));
                lemma_congruent_neg(p, rx - x2, 0);
                lemma_congruent_mul(p, -d, -d, gap, 0);
                assert((-d) * 0 == 0);
                lemma_congruent_sub(p, at, 0, (-d) * gap, 0);
                assert(at - (-d) * gap == 3 * (x2 * x2) + a - 2 * (s * y2));
                let n = 3 * (x2 * x2) + a;
                assert(2 * (s * y2) == s * (y2 + y2)) by (nonlinear_arith);
                // n - s * 2 * y2 = 0
                lemma_congruent_sub(p, n, n, n - s * (y2 + y2), 0);
                assert(n - (n - s * (y2 + y2)) == s * (y2 + y2));
                if fdouble(p, y2) == 0 {
                    // a singular point
                    lemma_fadd(p, y2, y2, y2, y2);
                    lemma_congruent_mul(p, s, s, y2 + y2, 0);
                    assert(s * 0 == 0);
                    if y2 != 0 {
                        lemma_residue(p, y2);
                        lemma_product_nonzero(p, 2, y2);
                        assert(2 * y2 == y2 + y2);
                    }
                    assert(y2 == 0);
                    assert(y2 * y2 == 0) by (nonlinear_arith)
                        requires
                            y2 == 0,
                    ;
                    lemma_no_double_root(p, a, b, x2);
                }
            }
            lemma_back_to_first(p, a, s, lhs, rhs);
        } else if y1 == y2 {
            if fdouble(p, y1) != 0 {
                let s = lemma_tangent_slope(p, a, lhs);
                assert(s * (x2 - x1) + y1 == y1) by (nonlinear_arith)
                    requires
                        x2 == x1,
                ;
                lemma_back_to_first(p, a, s, lhs, rhs);
            } else {
                // a point of order two is its own inverse
                if y1 != 0 {
                    lemma_residue(p, y1);
                    lemma_product_nonzero(p, 2, y1);
                    assert(2 * y1 == y1 + y1);
                }
                assert(y1 == 0);
            }
        } else {
            // the same x and another y: the second point is the inverse of
            // the first
            assert(cubic(a, b, x1) == cubic(a, b, x2));
            lemma_congruent_sub(p, y1 * y1, y2 * y2, y2 * y2, y2 * y2);
            assert(y1 * y1 - y2 * y2 == (y1 - y2) * (y1 + y2)) by (nonlinear_arith);
            lemma_difference_nonzero(p, y1, y2);
            assert((y1 + y2) * (y1 - y2) == (y1 - y2) * (y1 + y2) && 0 * (y1 - y2) == 0)
                by (nonlinear_arith);
            lemma_cancel(p, y1 + y2, 0, y1 - y2);
            lemma_congruent_sub(p, y1 + y2, 0, y2, y2);
            assert(y1 + y2 - y2 == y1 && 0 - y2 == -y2);
            lemma_congruent_residues(p, y1, fneg(p, y2));
        }
    }
}

/// Taking away what was added: `(P + Q) - Q` stands for the point `P`, for
/// triples that stand for points of a curve without singular points.
pub proof fn lemma_add_then_subtract(
    p: int,
    a: int,
    b: int,
    lhs: JacobianPoint,
    rhs: JacobianPoint,
)
    requires
        is_prime(p),
        p > 2,
        is_nonsingular(p, a, b),
        is_point(p, lhs),
        is_point(p, rhs),
        lies_on_curve(p, a, b, lhs),
        lies_on_curve(p, a, b, rhs),
    ensures
        same_point(p, subtract(p, a, add_points(p, a, lhs, rhs), rhs), lhs),
{
    let sum = add_points(p, a, lhs, rhs);
    let inverse = negate(p, rhs);
    lemma_to_affine_is_affine_point(p, lhs);
    lemma_to_affine_is_affine_point(p, rhs);
    lemma_add_is_residue(p, a, lhs, rhs);
    lemma_fneg(p, rhs.y, rhs.y);
    lemma_add_is_residue(p, a, sum, inverse);
    lemma_add_affine(p, a, lhs, rhs);
    lemma_negate_affine(p, rhs);
    lemma_add_affine(p, a, sum, inverse);
    lemma_affine_add_then_subtract(p, a, b, to_affine(p, lhs), to_affine(p, rhs));
    lemma_same_point_is_same_affine(p, add_points(p, a, sum, inverse), lhs);
}

} // verus!
