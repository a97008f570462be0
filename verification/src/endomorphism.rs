//! The endomorphism `(x, y) -> (beta * x, y)` of a curve `y^2 = x^3 + b`,
//! where `beta` is a cube root of unity: it maps the curve to itself and
//! sums to sums.
use crate::associativity::{is_curve_point, lemma_sum_by_line, meets};
use crate::cancellation::{lemma_chord_slope, lemma_tangent_slope, lemma_third_point_lift};
use crate::chord_tangent::{affine_add, third_point};
use crate::identities::cubic;
use crate::jacobian::{curve_rhs, AffinePoint};
use crate::modular::{
    congruent, fmul, is_residue, lemma_cancel, lemma_congruent_mul, lemma_congruent_residues,
    lemma_congruent_sub, lemma_fmul, lemma_residue, lemma_rewrite,
};
use crate::multiples::is_curve;
use crate::on_curve::lemma_curve_rhs;
use vstd::prelude::*;

verus! {

/// The point with its `x` multiplied by `beta`.
pub open spec fn scale_x(p: int, beta: int, pt: AffinePoint) -> AffinePoint {
    AffinePoint { x: fmul(p, beta, pt.x), y: pt.y, infinity: pt.infinity }
}

/// A cube root of unity is no multiple of the prime.
proof fn lemma_root_of_unity(p: int, beta: int)
    requires
        p > 1,
        congruent(p, beta * beta * beta, 1),
    ensures
        beta % p != 0,
{
    lemma_residue(p, 0);
    lemma_residue(p, 1);
    if beta % p == 0 {
        lemma_congruent_mul(p, beta * beta, beta * beta, beta, 0);
        assert((beta * beta) * 0 == 0);
    }
}

/// The endomorphism maps points of the curve to points of the curve.
pub proof fn lemma_scale_x_is_curve_point(p: int, b: int, beta: int, pt: AffinePoint)
    requires
        is_curve(p, 0, b),
        congruent(p, beta * beta * beta, 1),
        is_curve_point(p, 0, b, pt),
    ensures
        is_curve_point(p, 0, b, scale_x(p, beta, pt)),
{
    lemma_residue(p, 0);
    lemma_residue(p, 1);
    lemma_fmul(p, beta, beta, pt.x, pt.x);
    if pt.infinity {
        assert(beta * 0 == 0);
    } else {
        // (beta * x)^3 = beta^3 * x^3 = x^3
        let x = pt.x;
        let image = fmul(p, beta, x);
        lemma_curve_rhs(p, 0, b, image, beta * x);
        lemma_curve_rhs(p, 0, b, x, x);
        let cube = beta * beta * beta;
        assert(cubic(0, b, beta * x) - cubic(0, b, x) == ((x * x) * x) * (cube - 1))
            by (nonlinear_arith)
            requires
                cube == beta * beta * beta,
                cubic(0, b, beta * x) == ((beta * x) * (beta * x)) * (beta * x) + 0 * (beta * x)
                    + b,
                cubic(0, b, x) == (x * x) * x + 0 * x + b,
        ;
        lemma_rewrite(p, cubic(0, b, beta * x), cubic(0, b, x), (x * x) * x, cube, 1);
        lemma_congruent_residues(p, curve_rhs(p, 0, b, image), curve_rhs(p, 0, b, x));
    }
}

/// The third point on the image of a line: where the slope of the image
/// times `beta` is the slope of the line, the third point on the image is
/// the image of the third point.
proof fn lemma_scale_x_third_point(
    p: int,
    beta: int,
    s: int,
    image_slope: int,
    pt: AffinePoint,
    x2: int,
)
    requires
        p > 1,
        congruent(p, beta * beta * beta, 1),
        is_residue(p, pt.x),
        is_residue(p, pt.y),
        !pt.infinity,
        congruent(p, image_slope * beta, s),
    ensures
        third_point(p, image_slope, scale_x(p, beta, pt), fmul(p, beta, x2)) == scale_x(
            p,
            beta,
            third_point(p, s, pt, x2),
        ),
{
    let (x1, y1) = (pt.x, pt.y);
    let m = image_slope;
    let sum = third_point(p, s, pt, x2);
    let image = third_point(p, m, scale_x(p, beta, pt), fmul(p, beta, x2));
    let rx = s * s - x1 - x2;
    let bx1 = fmul(p, beta, x1);
    let bx2 = fmul(p, beta, x2);
    let mx = m * m - bx1 - bx2;
    lemma_residue(p, 1);
    lemma_third_point_lift(p, s, pt, x2);
    lemma_third_point_lift(p, m, scale_x(p, beta, pt), bx2);
    lemma_fmul(p, beta, beta, x1, x1);
    lemma_fmul(p, beta, beta, x2, x2);
    lemma_fmul(p, beta, beta, sum.x, rx);
    // s^2 = m^2 * beta^2, so that beta * s^2 = m^2
    lemma_congruent_mul(p, m * beta, s, m * beta, s);
    assert((m * beta) * (m * beta) == (m * m) * (beta * beta)) by (nonlinear_arith);
    lemma_congruent_mul(p, beta, beta, s * s, (m * m) * (beta * beta));
    let cube = beta * beta * beta;
    assert(beta * ((m * m) * (beta * beta)) - m * m == (m * m) * (cube - 1)) by (nonlinear_arith)
        requires
            cube == beta * beta * beta,
    ;
    lemma_rewrite(p, beta * ((m * m) * (beta * beta)), m * m, m * m, cube, 1);
    // the same x
    lemma_congruent_sub(p, m * m, beta * (s * s), bx1, beta * x1);
    lemma_congruent_sub(p, m * m - bx1, beta * (s * s) - beta * x1, bx2, beta * x2);
    assert(beta * (s * s) - beta * x1 - beta * x2 == beta * rx) by (nonlinear_arith)
        requires
            rx == s * s - x1 - x2,
    ;
    lemma_congruent_residues(p, image.x, fmul(p, beta, sum.x));
    // the same y: m * beta * (x1 - x3) = s * (x1 - x3)
    lemma_congruent_sub(p, bx1, beta * x1, mx, beta * rx);
    assert(beta * x1 - beta * rx == beta * (x1 - rx)) by (nonlinear_arith);
    lemma_congruent_mul(p, m, m, bx1 - mx, beta * (x1 - rx));
    assert(m * (beta * (x1 - rx)) == (m * beta) * (x1 - rx)) by (nonlinear_arith);
    lemma_congruent_mul(p, m * beta, s, x1 - rx, x1 - rx);
    lemma_congruent_sub(p, m * (bx1 - mx), s * (x1 - rx), y1, y1);
    lemma_congruent_residues(p, image.y, sum.y);
}

/// The endomorphism maps sums to sums.
pub proof fn lemma_scale_x_add(p: int, b: int, beta: int, lhs: AffinePoint, rhs: AffinePoint)
    requires
        is_curve(p, 0, b),
        congruent(p, beta * beta * beta, 1),
        is_curve_point(p, 0, b, lhs),
        is_curve_point(p, 0, b, rhs),
    ensures
        scale_x(p, beta, affine_add(p, 0, lhs, rhs)) == affine_add(
            p,
            0,
            scale_x(p, beta, lhs),
            scale_x(p, beta, rhs),
        ),
{
    lemma_residue(p, 0);
    lemma_residue(p, 1);
    lemma_root_of_unity(p, beta);
    lemma_scale_x_is_curve_point(p, b, beta, lhs);
    lemma_scale_x_is_curve_point(p, b, beta, rhs);
    let (from, to) = (scale_x(p, beta, lhs), scale_x(p, beta, rhs));
    if lhs.infinity || rhs.infinity {
        assert(beta * 0 == 0);
    } else {
        let (x1, y1, x2, y2) = (lhs.x, lhs.y, rhs.x, rhs.y);
        lemma_fmul(p, beta, beta, x1, x1);
        lemma_fmul(p, beta, beta, x2, x2);
        lemma_sum_by_line(p, 0, lhs, rhs);
        lemma_sum_by_line(p, 0, from, to);
        // the images have the same x exactly where the points have
        if from.x == to.x && x1 != x2 {
            assert(beta * x1 == x1 * beta && beta * x2 == x2 * beta) by (nonlinear_arith);
            lemma_cancel(p, x1, x2, beta);
            lemma_congruent_residues(p, x1, x2);
        }
        if meets(p, lhs, rhs) {
            if x1 != x2 {
                let s = lemma_chord_slope(p, lhs, rhs);
                let m = lemma_chord_slope(p, from, to);
                // m * beta * (x2 - x1) = y2 - y1 = s * (x2 - x1)
                lemma_congruent_sub(p, to.x, beta * x2, from.x, beta * x1);
                lemma_congruent_mul(p, m, m, to.x - from.x, beta * x2 - beta * x1);
                assert(m * (beta * x2 - beta * x1) == (m * beta) * (x2 - x1)) by (nonlinear_arith);
                lemma_cancel(p, m * beta, s, x2 - x1);
                lemma_scale_x_third_point(p, beta, s, m, lhs, x2);
            } else {
                let s = lemma_tangent_slope(p, 0, lhs);
                let m = lemma_tangent_slope(p, 0, from);
                // m * 2 * y = 3 * beta^2 * x^2 = beta^2 * s * 2 * y
                let twice = y1 + y1;
                lemma_congruent_mul(p, from.x, beta * x1, from.x, beta * x1);
                lemma_congruent_mul(p, 3, 3, from.x * from.x, (beta * x1) * (beta * x1));
                assert(3 * ((beta * x1) * (beta * x1)) + 0 == (beta * beta) * (3 * (x1 * x1) + 0))
                    by (nonlinear_arith);
                lemma_congruent_mul(p, beta * beta, beta * beta, s * twice, 3 * (x1 * x1) + 0);
                assert((beta * beta) * (s * twice) == ((beta * beta) * s) * twice)
                    by (nonlinear_arith);
                lemma_cancel(p, m, (beta * beta) * s, twice);
                // m * beta = beta^3 * s = s
                let cube = beta * beta * beta;
                lemma_congruent_mul(p, m, (beta * beta) * s, beta, beta);
                assert(((beta * beta) * s) * beta - s == s * (cube - 1)) by (nonlinear_arith)
                    requires
                        cube == beta * beta * beta,
                ;
                lemma_rewrite(p, ((beta * beta) * s) * beta, s, s, cube, 1);
                lemma_scale_x_third_point(p, beta, s, m, lhs, x2);
            }
        }
    }
}

} // verus!
