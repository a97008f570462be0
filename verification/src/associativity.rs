//! Addition is associative on the points of a curve without singular
//! points: `(P + Q) + R = P + (Q + R)`.
//!
//! Where all four sums are carried by lines, the slopes `s` of the line
//! through `P` and `Q`, `t` through `Q` and `R`, `u` through `P + Q` and `R`,
//! and `v` through `P` and `Q + R` obey `(t - s) * (u + s) = x3 - x1` and
//! `(t - s) * (v + t) = x3 - x1`, from which both coordinates of the two
//! sums follow to be the same. The other cases rest on commutativity and on
//! `(P + Q) - Q = P`.
use crate::cancellation::{
    lemma_affine_add_then_subtract, lemma_chord_slope, lemma_negated_double,
    lemma_tangent_slope, lemma_third_point_lift,
};
use crate::chord_tangent::{
    affine_add, lemma_add_affine, lemma_add_is_residue, lemma_difference_nonzero,
    lemma_same_point_is_same_affine, third_point,
};
use crate::identities::{cubic, lemma_line_meets_cubic};
use crate::jacobian::{
    add_points, affine_identity, affine_negate, is_affine_point, is_nonsingular, is_on_curve,
    is_point, lies_on_curve, same_point, to_affine, AffinePoint, JacobianPoint,
};
use crate::modular::{
    congruent, fadd, fdouble, finv, fmul, fneg, fsquare, fsub, is_prime, is_residue, lemma_cancel,
    lemma_congruent_add, lemma_congruent_mul, lemma_congruent_neg, lemma_congruent_residues,
    lemma_congruent_sub, lemma_fmul, lemma_fneg, lemma_product_nonzero, lemma_residue,
};
use crate::on_curve::{
    lemma_affine_add_on_curve, lemma_affine_negate_on_curve, lemma_curve_rhs,
    lemma_to_affine_is_affine_point,
};
use vstd::prelude::*;

verus! {

/// Whether a line carries the sum of two points: whether both are finite
/// and either differ in `x`, so that the chord does, or are the same point
/// with `2 * y != 0`, so that the tangent does.
pub open spec fn meets(p: int, lhs: AffinePoint, rhs: AffinePoint) -> bool {
    !lhs.infinity && !rhs.infinity && (lhs.x != rhs.x || (lhs.y == rhs.y && fdouble(p, lhs.y)
        != 0))
}

/// The slope of the line that carries the sum of two points: of the chord,
/// or of the tangent where the points are the same.
pub open spec fn slope(p: int, a: int, lhs: AffinePoint, rhs: AffinePoint) -> int {
    if lhs.x == rhs.x {
        fmul(p, fadd(p, fmul(p, 3, fsquare(p, lhs.x)), a), finv(p, fdouble(p, lhs.y)))
    } else {
        fmul(p, fsub(p, rhs.y, lhs.y), finv(p, fsub(p, rhs.x, lhs.x)))
    }
}

/// What a line through a point of the curve has to do with the curve: the
/// value `3 * x1^2 + a - 2 * s * y1 + d * (3 * x1 - s^2 + d)` is zero where
/// the line with slope `s` through `(x1, y1)` meets the curve again `d` away
/// from `x1`, or touches it at the point (`d = 0`).
pub open spec fn line_relation(a: int, s: int, x1: int, y1: int, d: int) -> int {
    3 * (x1 * x1) + a - 2 * (s * y1) + d * (3 * x1 - s * s + d)
}

/// The sum of two points is the third point on the line that carries it,
/// and the point at infinity where no line does.
pub proof fn lemma_sum_by_line(p: int, a: int, lhs: AffinePoint, rhs: AffinePoint)
    requires
        !lhs.infinity,
        !rhs.infinity,
    ensures
        meets(p, lhs, rhs) ==> affine_add(p, a, lhs, rhs) == third_point(
            p,
            slope(p, a, lhs, rhs),
            lhs,
            rhs.x,
        ),
        !meets(p, lhs, rhs) ==> affine_add(p, a, lhs, rhs) == affine_identity(),
{
}

/// The line that carries the sum of two points of the curve: its slope
/// times the difference of `x` is the difference of `y`, and the relation of
/// the line to the curve holds at both points.
pub proof fn lemma_line(p: int, a: int, b: int, lhs: AffinePoint, rhs: AffinePoint) -> (s: int)
    requires
        is_prime(p),
        is_affine_point(p, lhs),
        is_affine_point(p, rhs),
        is_on_curve(p, a, b, lhs),
        is_on_curve(p, a, b, rhs),
        meets(p, lhs, rhs),
    ensures
        s == slope(p, a, lhs, rhs),
        is_residue(p, s),
        congruent(p, s * (rhs.x - lhs.x), rhs.y - lhs.y),
        congruent(p, line_relation(a, s, lhs.x, lhs.y, rhs.x - lhs.x), 0),
        congruent(p, line_relation(a, s, rhs.x, rhs.y, lhs.x - rhs.x), 0),
{
    let (x1, y1, x2, y2) = (lhs.x, lhs.y, rhs.x, rhs.y);
    let d = x2 - x1;
    lemma_residue(p, 0);
    let s = if x1 == x2 {
        let s = lemma_tangent_slope(p, a, lhs);
        assert(s * (x2 - x1) == 0) by (nonlinear_arith)
            requires
                x2 - x1 == 0,
        ;
        // 3 * x^2 + a - s * 2 * y = 0
        let n = 3 * (x1 * x1) + a;
        lemma_congruent_sub(p, n, n, s * (y1 + y1), n);
        assert(n - s * (y1 + y1) == line_relation(a, s, x1, y1, d)) by (nonlinear_arith)
            requires
                n == 3 * (x1 * x1) + a,
                d == 0,
                line_relation(a, s, x1, y1, d) == 3 * (x1 * x1) + a - 2 * (s * y1) + d * (3 * x1
                    - s * s + d),
        ;
        s
    } else {
        let s = lemma_chord_slope(p, lhs, rhs);
        // the cubic along the line, at the second point
        lemma_congruent_add(p, s * d, y2 - y1, y1, y1);
        lemma_congruent_mul(p, s * d + y1, y2, s * d + y1, y2);
        lemma_curve_rhs(p, a, b, x1, x1);
        lemma_curve_rhs(p, a, b, x2, x2);
        lemma_fmul(p, y1, y1, y1, y1);
        lemma_fmul(p, y2, y2, y2, y2);
        lemma_line_meets_cubic(s, x1, y1, d, a, b);
        let line = (s * d + y1) * (s * d + y1);
        lemma_congruent_sub(p, cubic(a, b, x2), y2 * y2, line, y2 * y2);
        lemma_congruent_sub(p, cubic(a, b, x1), y1 * y1, y1 * y1, y1 * y1);
        lemma_congruent_sub(p, cubic(a, b, x2) - line, 0, cubic(a, b, x1) - y1 * y1, 0);
        assert(x1 + d == x2);
        let at = line_relation(a, s, x1, y1, d);
        assert(congruent(p, d * at, 0));
        assert(d * at == at * d && 0 * d == 0) by (nonlinear_arith);
        lemma_cancel(p, at, 0, d);
        s
    };
    // the relation at the second point differs by a multiple of
    // y2 - y1 - s * d
    let gap = y2 - y1 - s * d;
    lemma_congruent_sub(p, y2 - y1, s * d, s * d, s * d);
    assert(gap == y2 - y1 - s * d);
    let ss = s * s;
    let here = d * (3 * x1 - ss + d);
    let there = (x1 - x2) * (3 * x2 - ss + (x1 - x2));
    assert(here == d * (3 * x1 + d) - ss * d) by (nonlinear_arith)
        requires
            here == d * (3 * x1 - ss + d),
    ;
    assert(there == ss * d - d * (3 * x2 - d)) by (nonlinear_arith)
        requires
            there == (-d) * (3 * x2 - ss - d),
    ;
    assert(d * (3 * x1 + d) + d * (3 * x2 - d) == 3 * (x2 * x2) - 3 * (x1 * x1))
        by (nonlinear_arith)
        requires
            d == x2 - x1,
    ;
    assert(3 * (x2 * x2) - 3 * (x1 * x1) + there - here == 2 * (ss * d));
    let sd = s * d;
    assert(s * gap == s * y2 - s * y1 - s * sd && s * sd == ss * d) by (nonlinear_arith)
        requires
            gap == y2 - y1 - sd,
            sd == s * d,
            ss == s * s,
    ;
    assert((-2 * s) * gap == -2 * (s * gap)) by (nonlinear_arith);
    assert((-2 * s) * gap == 2 * (s * y1) - 2 * (s * y2) + 2 * (ss * d));
    assert(line_relation(a, s, x2, y2, x1 - x2) - line_relation(a, s, x1, y1, d) == (-2 * s)
        * gap);
    lemma_congruent_mul(p, -2 * s, -2 * s, gap, 0);
    assert((-2 * s) * 0 == 0);
    lemma_congruent_add(
        p,
        line_relation(a, s, x1, y1, d),
        0,
        (-2 * s) * gap,
        0,
    );
    s
}

/// The slope of the chord from the first point to the sum of the other
/// two. With `s` the slope of the line through the first two points and `t`
/// that through the last two, both seen from the second point `(x2, y2)`,
/// the slope `v` of the chord from `(x1, y1)` to the third point on the
/// second line obeys `(t - s) * (v + t) = x3 - x1`.
proof fn lemma_second_slope_chord(
    p: int,
    a: int,
    x1: int,
    x2: int,
    x3: int,
    y2: int,
    s: int,
    t: int,
    v: int,
)
    requires
        is_prime(p),
        congruent(p, line_relation(a, s, x1, y2 + s * (x1 - x2), x2 - x1), 0),
        congruent(p, line_relation(a, t, x2, y2, x3 - x2), 0),
        congruent(
            p,
            v * ((t * t - x2 - x3) - x1),
            (t * (x2 - (t * t - x2 - x3)) - y2) - (y2 + s * (x1 - x2)),
        ),
        ((t * t - x2 - x3) - x1) % p != 0,
    ensures
        congruent(p, (t - s) * (v + t) + (x1 - x3), 0),
{
    let y1 = y2 + s * (x1 - x2);
    let x6 = t * t - x2 - x3;
    let y6 = t * (x2 - x6) - y2;
    let e = y6 - y1;
    let f = x6 - x1;
    let first = line_relation(a, s, x1, y1, x2 - x1);
    let second = line_relation(a, t, x2, y2, x3 - x2);
    let target = (t - s) * (v + t) + (x1 - x3);
    lemma_two_lines(a, x1, x2, x3, y2, s, t);
    lemma_congruent_sub(p, second, 0, first, 0);
    lemma_congruent_mul(p, t - s, t - s, v * f, e);
    lemma_congruent_add(
        p,
        (t - s) * (v * f),
        (t - s) * e,
        ((x1 - x3) + t * (t - s)) * f,
        ((x1 - x3) + t * (t - s)) * f,
    );
    assert(target * f == (t - s) * (v * f) + ((x1 - x3) + t * (t - s)) * f) by (nonlinear_arith)
        requires
            target == (t - s) * (v + t) + (x1 - x3),
    ;
    assert(0 * f == 0);
    lemma_cancel(p, target, 0, f);
}

/// The relations of two lines through a common point to the curve differ by
/// a combination of the differences between the first point and the third
/// point on the second line.
proof fn lemma_two_lines(a: int, x1: int, x2: int, x3: int, y2: int, s: int, t: int)
    ensures
        ({
            let y1 = y2 + s * (x1 - x2);
            let x6 = t * t - x2 - x3;
            let y6 = t * (x2 - x6) - y2;
            line_relation(a, t, x2, y2, x3 - x2) - line_relation(a, s, x1, y1, x2 - x1) == (t - s)
                * (y6 - y1) + ((x1 - x3) + t * (t - s)) * (x6 - x1)
        }),
{
    let dx = x1 - x2;
    let dz = x3 - x2;
    let y1 = y2 + s * dx;
    let x6 = t * t - x2 - x3;
    let y6 = t * (x2 - x6) - y2;
    let e = y6 - y1;
    let f = x6 - x1;
    let first = line_relation(a, s, x1, y1, x2 - x1);
    let second = line_relation(a, t, x2, y2, x3 - x2);
    let ss = s * s;
    let tt = t * t;
    let sy = s * y2;
    let ty = t * y2;
    // both relations and both differences, as sums of products
    assert(first == 3 * (x1 * x1) + a - 2 * sy - 2 * (ss * dx) - dx * (3 * x1 - ss - dx))
        by (nonlinear_arith)
        requires
            first == 3 * (x1 * x1) + a - 2 * (s * y1) + (x2 - x1) * (3 * x1 - s * s + (x2 - x1)),
            y1 == y2 + s * dx,
            dx == x1 - x2,
            ss == s * s,
            sy == s * y2,
    ;
    assert(second == 3 * (x2 * x2) + a - 2 * ty + dz * (3 * x2 - tt + dz)) by (nonlinear_arith)
        requires
            second == 3 * (x2 * x2) + a - 2 * (t * y2) + (x3 - x2) * (3 * x2 - t * t + (x3 - x2)),
            dz == x3 - x2,
            tt == t * t,
            ty == t * y2,
    ;
    let st = s * t;
    let along = t * (x2 - x6);
    let sdx = s * dx;
    assert((t - s) * e == (t - s) * along - 2 * ((t - s) * y2) - (t - s) * sdx)
        by (nonlinear_arith)
        requires
            e == along - y2 - (y2 + sdx),
    ;
    assert((t - s) * y2 == ty - sy) by (nonlinear_arith)
        requires
            sy == s * y2,
            ty == t * y2,
    ;
    assert((t - s) * sdx == (st - ss) * dx) by (nonlinear_arith)
        requires
            sdx == s * dx,
            st == s * t,
            ss == s * s,
    ;
    assert((t - s) * e == 2 * sy - 2 * ty + (t - s) * (t * (x2 - x6)) - (st - ss) * dx);
    let g = x2 - x6;
    assert((t - s) * (t * g) == (tt - st) * g) by (nonlinear_arith)
        requires
            tt == t * t,
            st == s * t,
    ;
    assert(t * (t - s) == tt - st) by (nonlinear_arith)
        requires
            tt == t * t,
            st == s * t,
    ;
    // the parts with the squares of the slopes, and the part without
    let m = tt - st;
    assert(m * g + ((x1 - x3) + m) * f == (x1 - x3) * f - m * dx) by (nonlinear_arith)
        requires
            g + f == -dx,
    ;
    assert(m * dx + (st - ss) * dx == (tt - ss) * dx) by (nonlinear_arith)
        requires
            m == tt - st,
    ;
    let sum = x1 + x2 + x3;
    assert((x1 - x3) * f == (x1 - x3) * tt - (x1 - x3) * sum) by (nonlinear_arith)
        requires
            f == tt - sum,
    ;
    assert((tt - ss) * dx == tt * dx - ss * dx && (x1 - x3) * tt == tt * dx - tt * dz)
        by (nonlinear_arith)
        requires
            dx == x1 - x2,
            dz == x3 - x2,
    ;
    assert(dz * (3 * x2 - tt + dz) == dz * (3 * x2 + dz) - tt * dz && dx * (3 * x1 - ss - dx) == dx
        * (3 * x1 - dx) - ss * dx) by (nonlinear_arith);
    assert(dz * (3 * x2 + dz) == x3 * x3 + x2 * x3 - 2 * (x2 * x2)) by (nonlinear_arith)
        requires
            dz == x3 - x2,
    ;
    assert(dx * (3 * x1 - dx) == 2 * (x1 * x1) - x1 * x2 - x2 * x2) by (nonlinear_arith)
        requires
            dx == x1 - x2,
    ;
    assert((x1 - x3) * sum == x1 * x1 + x1 * x2 - x2 * x3 - x3 * x3) by (nonlinear_arith)
        requires
            sum == x1 + x2 + x3,
    ;
}

/// The slope of the tangent at the first point, where the sum of the other
/// two is the first point: it obeys `(t - s) * (v + t) = x3 - x1` as the
/// slope of a chord does.
proof fn lemma_second_slope_tangent(
    p: int,
    a: int,
    x1: int,
    x2: int,
    x3: int,
    y2: int,
    s: int,
    t: int,
    v: int,
)
    requires
        is_prime(p),
        congruent(p, line_relation(a, s, x1, y2 + s * (x1 - x2), x2 - x1), 0),
        congruent(p, (t * t - x2 - x3) - x1, 0),
        congruent(p, (t * (x2 - (t * t - x2 - x3)) - y2) - (y2 + s * (x1 - x2)), 0),
        congruent(
            p,
            v * ((y2 + s * (x1 - x2)) + (y2 + s * (x1 - x2))),
            3 * (x1 * x1) + a,
        ),
        ((y2 + s * (x1 - x2)) + (y2 + s * (x1 - x2))) % p != 0,
    ensures
        congruent(p, (t - s) * (v + t) + (x1 - x3), 0),
{
    let dx = x1 - x2;
    let y1 = y2 + s * dx;
    let x6 = t * t - x2 - x3;
    let y6 = t * (x2 - x6) - y2;
    let e = y6 - y1;
    let f = x6 - x1;
    let twice = y1 + y1;
    let first = line_relation(a, s, x1, y1, x2 - x1);
    let target = (t - s) * (v + t) + (x1 - x3);
    let g = 3 * x1 - s * s - dx;
    lemma_residue(p, 0);
    // 2 * y1 = (x1 - x2) * (s - t)
    assert(twice - dx * (s - t) == -e - t * f) by (nonlinear_arith)
        requires
            twice == (y2 + s * dx) + (y2 + s * dx),
            e == t * (x2 - x6) - y2 - (y2 + s * dx),
            f == x6 - x1,
            dx == x1 - x2,
    ;
    lemma_congruent_neg(p, e, 0);
    lemma_congruent_mul(p, t, t, f, 0);
    assert(t * 0 == 0);
    lemma_congruent_sub(p, -e, -0, t * f, 0);
    lemma_congruent_add(p, twice - dx * (s - t), 0, dx * (s - t), dx * (s - t));
    assert(congruent(p, twice, dx * (s - t)));
    if dx % p == 0 {
        lemma_congruent_mul(p, dx, 0, s - t, s - t);
        assert(0 * (s - t) == 0);
    }
    // (v - s) * 2 * y1 = (x1 - x2) * (3 * x1 - s^2 - (x1 - x2))
    assert(3 * (x1 * x1) + a == first + s * twice + dx * g) by (nonlinear_arith)
        requires
            first == 3 * (x1 * x1) + a - 2 * (s * y1) + (x2 - x1) * (3 * x1 - s * s + (x2 - x1)),
            twice == y1 + y1,
            dx == x1 - x2,
            g == 3 * x1 - s * s - dx,
    ;
    lemma_congruent_add(p, first, 0, s * twice + dx * g, s * twice + dx * g);
    lemma_congruent_sub(p, v * twice, s * twice + dx * g, s * twice, s * twice);
    assert(v * twice - s * twice == (v - s) * twice && s * twice + dx * g - s * twice == dx * g)
        by (nonlinear_arith);
    // (v - s) * (s - t) = 3 * x1 - s^2 - (x1 - x2)
    lemma_congruent_mul(p, v - s, v - s, twice, dx * (s - t));
    assert((v - s) * (dx * (s - t)) == ((v - s) * (s - t)) * dx && dx * g == g * dx)
        by (nonlinear_arith);
    lemma_cancel(p, (v - s) * (s - t), g, dx);
    // and the claim is what is left of it
    let left = (v - s) * (s - t);
    assert(target == f - (left - g)) by (nonlinear_arith)
        requires
            target == (t - s) * (v + t) + (x1 - x3),
            left == (v - s) * (s - t),
            g == 3 * x1 - s * s - (x1 - x2),
            f == (t * t - x2 - x3) - x1,
    ;
    lemma_congruent_sub(p, left, g, g, g);
    lemma_congruent_sub(p, f, 0, left - g, g - g);
}

/// Where two lines meet: with `(t - s) * (u + s) = x3 - x1` and
/// `(t - s) * (v + t) = x3 - x1`, the third points on the lines with the
/// slopes `u` and `v` are the same point.
proof fn lemma_ninth_point(
    p: int,
    x1: int,
    x2: int,
    x3: int,
    y1: int,
    y3: int,
    s: int,
    t: int,
    u: int,
    v: int,
)
    requires
        is_prime(p),
        congruent(p, (t - s) * (u + s) + (x1 - x3), 0),
        congruent(p, (t - s) * (v + t) + (x1 - x3), 0),
        (x1 - x3) % p != 0,
        congruent(p, y3 - y1, s * (x2 - x1) + t * (x3 - x2)),
    ensures
        congruent(p, u * u - (s * s - x1 - x2) - x3, v * v - x1 - (t * t - x2 - x3)),
        congruent(
            p,
            u * (x3 - (v * v - x1 - (t * t - x2 - x3))) - y3,
            v * (x1 - (v * v - x1 - (t * t - x2 - x3))) - y1,
        ),
{
    let lu = (t - s) * (u + s) + (x1 - x3);
    let lv = (t - s) * (v + t) + (x1 - x3);
    let dt = t - s;
    let k = s * s - t * t - 2 * (x1 - x3);
    let x = v * v - x1 - (t * t - x2 - x3);
    lemma_residue(p, 0);
    // the slopes s and t differ
    if dt % p == 0 {
        lemma_congruent_mul(p, dt, 0, v + t, v + t);
        assert(0 * (v + t) == 0);
        lemma_congruent_add(p, dt * (v + t), 0, x1 - x3, x1 - x3);
    }
    // u - v = t - s
    lemma_congruent_sub(p, lu, 0, lv, 0);
    assert(lu - lv == (u - v - dt) * dt) by (nonlinear_arith)
        requires
            lu == dt * (u + s) + (x1 - x3),
            lv == dt * (v + t) + (x1 - x3),
            dt == t - s,
    ;
    assert(0 * dt == 0);
    lemma_cancel(p, u - v - dt, 0, dt);
    lemma_congruent_add(p, u - v - dt, 0, dt, dt);
    assert(u - v - dt + dt == u - v);
    // (t - s) * (u + v) = s^2 - t^2 - 2 * (x1 - x3)
    lemma_congruent_add(p, lu, 0, lv, 0);
    assert(lu + lv == dt * (u + v) - k) by (nonlinear_arith)
        requires
            lu == dt * (u + s) + (x1 - x3),
            lv == dt * (v + t) + (x1 - x3),
            dt == t - s,
            k == s * s - t * t - 2 * (x1 - x3),
    ;
    lemma_congruent_add(p, dt * (u + v) - k, 0, k, k);
    assert(dt * (u + v) - k + k == dt * (u + v));
    // the same x
    lemma_congruent_mul(p, u - v, dt, u + v, u + v);
    assert((u - v) * (u + v) == u * u - v * v) by (nonlinear_arith);
    assert(congruent(p, u * u - v * v, k));
    lemma_congruent_sub(p, u * u - v * v, k, k, k);
    assert(u * u - (s * s - x1 - x2) - x3 - (v * v - x1 - (t * t - x2 - x3)) == u * u - v * v - k);
    lemma_congruent_add(p, u * u - v * v - k, 0, x, x);
    // the same y
    let gap = x3 - x;
    lemma_congruent_mul(p, u - v, dt, gap, gap);
    let rest = v * (x3 - x1) - (s * (x2 - x1) + t * (x3 - x2));
    lemma_congruent_neg(p, y3 - y1, s * (x2 - x1) + t * (x3 - x2));
    lemma_congruent_add(p, v * (x3 - x1), v * (x3 - x1), -(y3 - y1), -(s * (x2 - x1) + t * (x3
        - x2)));
    lemma_congruent_add(
        p,
        (u - v) * gap,
        dt * gap,
        v * (x3 - x1) + -(y3 - y1),
        v * (x3 - x1) + -(s * (x2 - x1) + t * (x3 - x2)),
    );
    assert((u * gap - y3) - (v * (x1 - x) - y1) == (u - v) * gap + (v * (x3 - x1) + -(y3 - y1)))
        by (nonlinear_arith)
        requires
            gap == x3 - x,
    ;
    let diff = t * t - v * v;
    assert((t - v) * (v + t) == diff) by (nonlinear_arith)
        requires
            diff == t * t - v * v,
    ;
    assert((t - v) * lv == dt * ((t - v) * (v + t)) + (t - v) * (x1 - x3)) by (nonlinear_arith)
        requires
            lv == dt * (v + t) + (x1 - x3),
    ;
    assert(dt * gap == dt * (x1 - x2) + dt * diff) by (nonlinear_arith)
        requires
            gap == (x1 - x2) + diff,
    ;
    assert(dt * (x1 - x2) + rest == (t - v) * (x1 - x3)) by (nonlinear_arith)
        requires
            rest == v * (x3 - x1) - (s * (x2 - x1) + t * (x3 - x2)),
            dt == t - s,
    ;
    assert(dt * gap + rest == (t - v) * lv);
    lemma_congruent_mul(p, t - v, t - v, lv, 0);
    assert((t - v) * 0 == 0);
    let right = v * (x1 - x) - y1;
    lemma_congruent_add(p, (u * gap - y3) - right, 0, right, right);
    assert((u * gap - y3) - right + right == u * gap - y3);
}

/// Replacing `y1` in the relation of a line to the curve by a congruent
/// number.
proof fn lemma_line_relation_congruent(p: int, a: int, s: int, x1: int, y1: int, other: int, d: int)
    requires
        p > 0,
        congruent(p, y1, other),
    ensures
        congruent(p, line_relation(a, s, x1, y1, d), line_relation(a, s, x1, other, d)),
{
    lemma_congruent_sub(p, y1, other, other, other);
    lemma_congruent_mul(p, -2 * s, -2 * s, y1 - other, 0);
    assert((-2 * s) * 0 == 0);
    assert(line_relation(a, s, x1, y1, d) - line_relation(a, s, x1, other, d) == (-2 * s) * (y1
        - other)) by (nonlinear_arith)
        requires
            line_relation(a, s, x1, y1, d) == 3 * (x1 * x1) + a - 2 * (s * y1) + d * (3 * x1 - s * s
                + d),
            line_relation(a, s, x1, other, d) == 3 * (x1 * x1) + a - 2 * (s * other) + d * (3 * x1
                - s * s + d),
    ;
    let rhs = line_relation(a, s, x1, other, d);
    lemma_congruent_add(p, line_relation(a, s, x1, y1, d) - rhs, 0, rhs, rhs);
}

/// The slope of the line from the first point to the sum of the other two,
/// be it a chord or the tangent at the first point, obeys
/// `(t - s) * (v + t) = x3 - x1`.
proof fn lemma_outer_slope(
    p: int,
    a: int,
    x1: int,
    y1: int,
    x2: int,
    y2: int,
    x3: int,
    s: int,
    t: int,
    sum: AffinePoint,
    v: int,
)
    requires
        is_prime(p),
        congruent(p, s * (x2 - x1), y2 - y1),
        congruent(p, line_relation(a, s, x1, y1, x2 - x1), 0),
        congruent(p, line_relation(a, t, x2, y2, x3 - x2), 0),
        congruent(p, sum.x, t * t - x2 - x3),
        congruent(p, sum.y, t * (x2 - (t * t - x2 - x3)) - y2),
        congruent(p, v * (sum.x - x1), sum.y - y1),
        congruent(p, line_relation(a, v, x1, y1, sum.x - x1), 0),
        (sum.x - x1) % p != 0 || (congruent(p, sum.y, y1) && (y1 + y1) % p != 0),
    ensures
        congruent(p, (t - s) * (v + t) + (x1 - x3), 0),
{
    let raw = y2 + s * (x1 - x2);
    let x6 = t * t - x2 - x3;
    let y6 = t * (x2 - x6) - y2;
    lemma_residue(p, 0);
    // y1 = y2 - s * (x2 - x1)
    lemma_congruent_sub(p, y2, y2, s * (x2 - x1), y2 - y1);
    assert(y2 - (y2 - y1) == y1);
    assert(y2 - s * (x2 - x1) == raw) by (nonlinear_arith)
        requires
            raw == y2 + s * (x1 - x2),
    ;
    lemma_line_relation_congruent(p, a, s, x1, y1, raw, x2 - x1);
    lemma_congruent_sub(p, sum.x, x6, x1, x1);
    lemma_congruent_sub(p, sum.y, y6, y1, raw);
    if (sum.x - x1) % p != 0 {
        lemma_congruent_mul(p, v, v, sum.x - x1, x6 - x1);
        lemma_second_slope_chord(p, a, x1, x2, x3, y2, s, t, v);
    } else {
        // the tangent: 3 * x1^2 + a - 2 * v * y1 = 0
        let d = sum.x - x1;
        lemma_congruent_mul(p, d, 0, 3 * x1 - v * v + d, 3 * x1 - v * v + d);
        assert(0 * (3 * x1 - v * v + d) == 0);
        let n = 3 * (x1 * x1) + a;
        assert(line_relation(a, v, x1, y1, d) == n - v * (y1 + y1) + d * (3 * x1 - v * v + d))
            by (nonlinear_arith)
            requires
                line_relation(a, v, x1, y1, d) == 3 * (x1 * x1) + a - 2 * (v * y1) + d * (3 * x1 - v
                    * v + d),
                n == 3 * (x1 * x1) + a,
        ;
        lemma_congruent_sub(
            p,
            line_relation(a, v, x1, y1, d),
            0,
            d * (3 * x1 - v * v + d),
            0,
        );
        lemma_congruent_sub(p, n, n, n - v * (y1 + y1), 0);
        assert(n - (n - v * (y1 + y1)) == v * (y1 + y1));
        lemma_congruent_add(p, y1, raw, y1, raw);
        lemma_congruent_mul(p, v, v, y1 + y1, raw + raw);
        lemma_congruent_sub(p, sum.y, y6, sum.y, y1);
        assert(sum.y - sum.y == 0);
        lemma_congruent_neg(p, 0, y6 - y1);
        lemma_congruent_sub(p, raw, y1, y1, y1);
        lemma_congruent_sub(p, y6 - y1, 0, raw - y1, 0);
        assert(y6 - y1 - (raw - y1) == y6 - raw);
        lemma_second_slope_tangent(p, a, x1, x2, x3, y2, s, t, v);
    }
}

/// What `meets` says of two points, as congruences.
proof fn lemma_meets(p: int, lhs: AffinePoint, rhs: AffinePoint)
    requires
        p > 0,
        is_affine_point(p, lhs),
        is_affine_point(p, rhs),
        meets(p, lhs, rhs),
    ensures
        (rhs.x - lhs.x) % p != 0 || (congruent(p, rhs.y, lhs.y) && (lhs.y + lhs.y) % p != 0),
        (lhs.x - rhs.x) % p != 0 || (congruent(p, lhs.y, rhs.y) && (rhs.y + rhs.y) % p != 0),
{
    if lhs.x != rhs.x {
        lemma_difference_nonzero(p, rhs.x, lhs.x);
        lemma_difference_nonzero(p, lhs.x, rhs.x);
    }
}

/// Addition is associative where lines carry all four sums and the first
/// and the last point differ in `x`.
proof fn lemma_associative_by_lines(
    p: int,
    a: int,
    b: int,
    first: AffinePoint,
    middle: AffinePoint,
    last: AffinePoint,
)
    requires
        is_prime(p),
        is_affine_point(p, first),
        is_affine_point(p, middle),
        is_affine_point(p, last),
        is_on_curve(p, a, b, first),
        is_on_curve(p, a, b, middle),
        is_on_curve(p, a, b, last),
        meets(p, first, middle),
        meets(p, middle, last),
        first.x != last.x,
        meets(p, affine_add(p, a, first, middle), last),
        meets(p, first, affine_add(p, a, middle, last)),
    ensures
        affine_add(p, a, affine_add(p, a, first, middle), last) == affine_add(
            p,
            a,
            first,
            affine_add(p, a, middle, last),
        ),
{
    let (x1, y1, x2, y2, x3, y3) = (first.x, first.y, middle.x, middle.y, last.x, last.y);
    lemma_residue(p, 0);
    let s = lemma_line(p, a, b, first, middle);
    let t = lemma_line(p, a, b, middle, last);
    lemma_sum_by_line(p, a, first, middle);
    lemma_sum_by_line(p, a, middle, last);
    let left = affine_add(p, a, first, middle);
    let right = affine_add(p, a, middle, last);
    lemma_affine_add_on_curve(p, a, b, first, middle);
    lemma_affine_add_on_curve(p, a, b, middle, last);
    lemma_third_point_lift(p, s, first, x2);
    lemma_third_point_lift(p, t, middle, x3);
    let u = lemma_line(p, a, b, left, last);
    let v = lemma_line(p, a, b, first, right);
    lemma_sum_by_line(p, a, left, last);
    lemma_sum_by_line(p, a, first, right);
    lemma_meets(p, left, last);
    lemma_meets(p, first, right);
    let x4 = s * s - x1 - x2;
    let x6 = t * t - x2 - x3;
    // the slope v, from the first point to the sum of the other two
    lemma_outer_slope(p, a, x1, y1, x2, y2, x3, s, t, right, v);
    // the slope u, from the last point to the sum of the other two
    lemma_congruent_neg(p, t * (x3 - x2), y3 - y2);
    assert(-(t * (x3 - x2)) == t * (x2 - x3)) by (nonlinear_arith);
    assert(-(y3 - y2) == y2 - y3);
    lemma_congruent_neg(p, u * (x3 - left.x), y3 - left.y);
    assert(-(u * (x3 - left.x)) == u * (left.x - x3)) by (nonlinear_arith);
    assert(-(y3 - left.y) == left.y - y3);
    // the sum of the first two points, seen from the second
    let seen = s * (x2 - (s * s - x2 - x1)) - y2;
    assert(seen - (s * (x1 - x4) - y1) == s * (x2 - x1) - (y2 - y1)) by (nonlinear_arith)
        requires
            seen == s * (x2 - (s * s - x2 - x1)) - y2,
            x4 == s * s - x1 - x2,
    ;
    lemma_congruent_sub(p, s * (x2 - x1), y2 - y1, y2 - y1, y2 - y1);
    assert(y2 - y1 - (y2 - y1) == 0);
    lemma_congruent_add(p, seen - (s * (x1 - x4) - y1), 0, s * (x1 - x4) - y1, s * (x1 - x4) - y1);
    assert(congruent(p, seen, s * (x1 - x4) - y1));
    assert(s * s - x2 - x1 == x4);
    lemma_outer_slope(p, a, x3, y3, x2, y2, x1, t, s, left, u);
    lemma_congruent_neg(p, (s - t) * (u + s) + (x3 - x1), 0);
    assert(-((s - t) * (u + s) + (x3 - x1)) == (t - s) * (u + s) + (x1 - x3)) by (nonlinear_arith);
    // where the lines with the slopes u and v meet
    lemma_difference_nonzero(p, x1, x3);
    lemma_congruent_add(p, y3 - y2, t * (x3 - x2), y2 - y1, s * (x2 - x1));
    assert(y3 - y2 + (y2 - y1) == y3 - y1);
    assert(t * (x3 - x2) + s * (x2 - x1) == s * (x2 - x1) + t * (x3 - x2));
    lemma_ninth_point(p, x1, x2, x3, y1, y3, s, t, u, v);
    let outer_left = affine_add(p, a, left, last);
    let outer_right = affine_add(p, a, first, right);
    lemma_third_point_lift(p, u, left, x3);
    lemma_third_point_lift(p, v, first, right.x);
    // the same x
    let xl = u * u - left.x - x3;
    let xr = v * v - x1 - right.x;
    let x = v * v - x1 - x6;
    lemma_congruent_sub(p, u * u, u * u, left.x, x4);
    lemma_congruent_sub(p, u * u - left.x, u * u - x4, x3, x3);
    lemma_congruent_sub(p, v * v - x1, v * v - x1, right.x, x6);
    lemma_congruent_residues(p, outer_left.x, outer_right.x);
    // the same y
    lemma_congruent_sub(p, x1, x1, xr, x);
    lemma_congruent_mul(p, v, v, x1 - xr, x1 - x);
    lemma_congruent_sub(p, v * (x1 - xr), v * (x1 - x), y1, y1);
    // u * (x4 - X) - y4 = u * (x3 - X) - y3, as u * (x4 - x3) = y4 - y3
    lemma_congruent_sub(p, xl, x, xl, xl);
    assert(xl - xl == 0);
    lemma_congruent_mul(p, u, u, x - xl, 0);
    assert(u * 0 == 0);
    lemma_congruent_sub(p, u * (left.x - x3), left.y - y3, left.y - y3, left.y - y3);
    lemma_congruent_add(p, u * (left.x - x3) - (left.y - y3), 0, u * (x - xl), 0);
    assert((u * (left.x - xl) - left.y) - (u * (x3 - x) - y3) == u * (left.x - x3) - (left.y - y3)
        + u * (x - xl)) by (nonlinear_arith);
    let target = u * (x3 - x) - y3;
    lemma_congruent_add(p, (u * (left.x - xl) - left.y) - target, 0, target, target);
    assert((u * (left.x - xl) - left.y) - target + target == u * (left.x - xl) - left.y);
    lemma_congruent_residues(p, outer_left.y, outer_right.y);
}

/// Whether an affine point is a pair of residues, or the canonical point at
/// infinity.
pub open spec fn is_canonical(p: int, pt: AffinePoint) -> bool {
    is_affine_point(p, pt) && (pt.infinity ==> pt == affine_identity())
}

/// The inverse of the inverse of a point is the point.
pub proof fn lemma_affine_negate_twice(p: int, pt: AffinePoint)
    requires
        p > 0,
        is_affine_point(p, pt),
    ensures
        affine_negate(p, affine_negate(p, pt)) == pt,
        is_canonical(p, pt) ==> is_canonical(p, affine_negate(p, pt)),
{
    lemma_fneg(p, pt.y, pt.y);
    lemma_fneg(p, fneg(p, pt.y), -pt.y);
    assert(-(-pt.y) == pt.y);
    lemma_congruent_residues(p, fneg(p, fneg(p, pt.y)), pt.y);
}

/// A point and its inverse add up to the point at infinity.
pub proof fn lemma_affine_add_inverse(p: int, a: int, pt: AffinePoint)
    requires
        p > 0,
        is_canonical(p, pt),
    ensures
        affine_add(p, a, pt, affine_negate(p, pt)) == affine_identity(),
        affine_add(p, a, affine_negate(p, pt), pt) == affine_identity(),
{
    if !pt.infinity {
        let y = pt.y;
        lemma_fneg(p, y, y);
        lemma_negated_double(p, y);
        if y == fneg(p, y) {
            lemma_congruent_add(p, y, -y, y, y);
            assert(-y + y == 0);
            lemma_residue(p, 0);
        }
    }
}

/// Two finite points of the curve whose sum no line carries are inverses of
/// each other.
proof fn lemma_no_line(p: int, a: int, b: int, lhs: AffinePoint, rhs: AffinePoint)
    requires
        is_prime(p),
        p > 2,
        is_affine_point(p, lhs),
        is_affine_point(p, rhs),
        is_on_curve(p, a, b, lhs),
        is_on_curve(p, a, b, rhs),
        !lhs.infinity,
        !rhs.infinity,
        !meets(p, lhs, rhs),
    ensures
        rhs == affine_negate(p, lhs),
        lhs == affine_negate(p, rhs),
{
    let (y1, y2) = (lhs.y, rhs.y);
    lemma_residue(p, 0);
    lemma_residue(p, 2);
    lemma_fneg(p, y1, y1);
    lemma_fneg(p, y2, y2);
    if y1 == y2 {
        // 2 * y = 0
        if y1 != 0 {
            lemma_residue(p, y1);
            lemma_product_nonzero(p, 2, y1);
            assert(2 * y1 == y1 + y1);
        }
    } else {
        // the same x: y1^2 = y2^2
        lemma_fmul(p, y1, y1, y1, y1);
        lemma_fmul(p, y2, y2, y2, y2);
        lemma_congruent_sub(p, y1 * y1, y2 * y2, y2 * y2, y2 * y2);
        assert(y1 * y1 - y2 * y2 == (y1 + y2) * (y1 - y2) && 0 * (y1 - y2) == 0)
            by (nonlinear_arith);
        lemma_difference_nonzero(p, y1, y2);
        lemma_cancel(p, y1 + y2, 0, y1 - y2);
        lemma_congruent_sub(p, y1 + y2, 0, y2, y2);
        assert(y1 + y2 - y2 == y1 && 0 - y2 == -y2);
        lemma_congruent_residues(p, y1, fneg(p, y2));
        lemma_congruent_sub(p, y1 + y2, 0, y1, y1);
        assert(y1 + y2 - y1 == y2 && 0 - y1 == -y1);
        lemma_congruent_residues(p, y2, fneg(p, y1));
    }
}

/// Addition is commutative, in affine coordinates.
pub proof fn lemma_affine_add_commutative(p: int, a: int, lhs: AffinePoint, rhs: AffinePoint)
    requires
        is_prime(p),
        is_canonical(p, lhs),
        is_canonical(p, rhs),
    ensures
        affine_add(p, a, lhs, rhs) == affine_add(p, a, rhs, lhs),
        is_canonical(p, affine_add(p, a, lhs, rhs)),
{
    lemma_residue(p, 0);
    lemma_residue(p, 1);
    if !lhs.infinity && !rhs.infinity {
        if lhs.x != rhs.x {
            let s = lemma_chord_slope(p, lhs, rhs);
            let back = lemma_chord_slope(p, rhs, lhs);
            let (x1, y1, x2, y2) = (lhs.x, lhs.y, rhs.x, rhs.y);
            // the same slope
            lemma_congruent_neg(p, back * (x1 - x2), y1 - y2);
            assert(-(back * (x1 - x2)) == back * (x2 - x1) && -(y1 - y2) == y2 - y1)
                by (nonlinear_arith);
            lemma_cancel(p, s, back, x2 - x1);
            lemma_congruent_residues(p, s, back);
            // the same third point
            let here = third_point(p, s, lhs, x2);
            let there = third_point(p, s, rhs, x1);
            lemma_third_point_lift(p, s, lhs, x2);
            lemma_third_point_lift(p, s, rhs, x1);
            assert(s * s - x1 - x2 == s * s - x2 - x1);
            lemma_congruent_residues(p, here.x, there.x);
            let x3 = s * s - x1 - x2;
            lemma_congruent_sub(p, s * (x2 - x1), y2 - y1, y2 - y1, y2 - y1);
            assert((s * (x2 - x3) - y2) - (s * (x1 - x3) - y1) == s * (x2 - x1) - (y2 - y1))
                by (nonlinear_arith);
            lemma_congruent_add(
                p,
                (s * (x2 - x3) - y2) - (s * (x1 - x3) - y1),
                0,
                s * (x1 - x3) - y1,
                s * (x1 - x3) - y1,
            );
            lemma_congruent_residues(p, here.y, there.y);
        } else if lhs.y == rhs.y && fdouble(p, lhs.y) != 0 {
            lemma_third_point_lift(
                p,
                slope(p, a, lhs, rhs),
                lhs,
                lhs.x,
            );
        }
    }
}

/// The inverse of a sum is the sum of the inverses.
pub proof fn lemma_affine_negate_add(p: int, a: int, lhs: AffinePoint, rhs: AffinePoint)
    requires
        is_prime(p),
        is_canonical(p, lhs),
        is_canonical(p, rhs),
    ensures
        affine_add(p, a, affine_negate(p, lhs), affine_negate(p, rhs)) == affine_negate(
            p,
            affine_add(p, a, lhs, rhs),
        ),
{
    lemma_residue(p, 0);
    lemma_residue(p, 1);
    if !lhs.infinity && !rhs.infinity {
        let (x1, y1, x2, y2) = (lhs.x, lhs.y, rhs.x, rhs.y);
        let (n1, n2) = (affine_negate(p, lhs), affine_negate(p, rhs));
        lemma_fneg(p, y1, y1);
        lemma_fneg(p, y2, y2);
        lemma_negated_double(p, y1);
        if fneg(p, y1) == fneg(p, y2) {
            lemma_congruent_neg(p, -y1, -y2);
            assert(-(-y1) == y1 && -(-y2) == y2);
            lemma_congruent_residues(p, y1, y2);
        }
        if meets(p, lhs, rhs) {
            // the mirrored line has the slope -s
            let (s, back) = if x1 != x2 {
                let s = lemma_chord_slope(p, lhs, rhs);
                let back = lemma_chord_slope(p, n1, n2);
                lemma_congruent_sub(p, n2.y, -y2, n1.y, -y1);
                lemma_congruent_neg(p, s * (x2 - x1), y2 - y1);
                assert(-(s * (x2 - x1)) == (-s) * (x2 - x1) && -(y2 - y1) == -y2 - (-y1))
                    by (nonlinear_arith);
                lemma_cancel(p, back, -s, x2 - x1);
                (s, back)
            } else {
                let s = lemma_tangent_slope(p, a, lhs);
                let back = lemma_tangent_slope(p, a, n1);
                lemma_congruent_mul(p, back, back, n1.y + n1.y, -(y1 + y1));
                lemma_congruent_neg(p, s * (y1 + y1), 3 * (x1 * x1) + a);
                lemma_congruent_neg(p, back * (-(y1 + y1)), 3 * (x1 * x1) + a);
                assert(-(back * (-(y1 + y1))) == back * (y1 + y1) && -(s * (y1 + y1)) == (-s) * (y1
                    + y1)) by (nonlinear_arith);
                lemma_cancel(p, back, -s, y1 + y1);
                (s, back)
            };
            let sum = third_point(p, s, lhs, x2);
            let mirrored = third_point(p, back, n1, x2);
            lemma_third_point_lift(p, s, lhs, x2);
            lemma_third_point_lift(p, back, n1, x2);
            let x3 = s * s - x1 - x2;
            lemma_congruent_mul(p, back, -s, back, -s);
            assert((-s) * (-s) == s * s) by (nonlinear_arith);
            lemma_congruent_sub(p, back * back, s * s, x1, x1);
            lemma_congruent_sub(p, back * back - x1, s * s - x1, x2, x2);
            lemma_congruent_residues(p, mirrored.x, sum.x);
            let bx = back * back - x1 - x2;
            lemma_congruent_sub(p, x1, x1, bx, x3);
            lemma_congruent_mul(p, back, -s, x1 - bx, x1 - x3);
            lemma_congruent_sub(p, back * (x1 - bx), (-s) * (x1 - x3), n1.y, -y1);
            assert((-s) * (x1 - x3) - (-y1) == -(s * (x1 - x3) - y1)) by (nonlinear_arith);
            lemma_fneg(p, sum.y, s * (x1 - x3) - y1);
            lemma_congruent_residues(p, mirrored.y, fneg(p, sum.y));
        }
    }
}

/// Whether an affine point is a point of the curve, in canonical form.
pub open spec fn is_curve_point(p: int, a: int, b: int, pt: AffinePoint) -> bool {
    is_canonical(p, pt) && is_on_curve(p, a, b, pt)
}

/// Sums and inverses of points of the curve are points of the curve.
pub proof fn lemma_curve_points(p: int, a: int, b: int, lhs: AffinePoint, rhs: AffinePoint)
    requires
        is_prime(p),
        is_curve_point(p, a, b, lhs),
        is_curve_point(p, a, b, rhs),
    ensures
        is_curve_point(p, a, b, affine_add(p, a, lhs, rhs)),
        is_curve_point(p, a, b, affine_negate(p, lhs)),
        affine_negate(p, affine_negate(p, lhs)) == lhs,
        affine_add(p, a, lhs, rhs) == affine_add(p, a, rhs, lhs),
{
    lemma_affine_add_commutative(p, a, lhs, rhs);
    lemma_affine_add_on_curve(p, a, b, lhs, rhs);
    lemma_affine_negate_on_curve(p, a, b, lhs);
    lemma_affine_negate_twice(p, lhs);
}

/// Associativity where the first two points are inverses of each other:
/// `(P - P) + R = P + (-P + R)`.
proof fn lemma_associative_first_vanishes(p: int, a: int, b: int, pt: AffinePoint, last: AffinePoint)
    requires
        is_prime(p),
        p > 2,
        is_nonsingular(p, a, b),
        is_curve_point(p, a, b, pt),
        is_curve_point(p, a, b, last),
    ensures
        affine_add(p, a, pt, affine_add(p, a, affine_negate(p, pt), last)) == last,
{
    let inverse = affine_negate(p, pt);
    lemma_curve_points(p, a, b, pt, last);
    lemma_curve_points(p, a, b, inverse, last);
    lemma_curve_points(p, a, b, last, inverse);
    let inner = affine_add(p, a, last, inverse);
    assert(affine_add(p, a, inverse, last) == inner);
    lemma_curve_points(p, a, b, pt, inner);
    // (R - P) + P = R
    lemma_affine_add_then_subtract(p, a, b, last, inverse);
}

/// Associativity where the first and the last point are the same or
/// inverses of each other.
proof fn lemma_associative_same_x(
    p: int,
    a: int,
    b: int,
    first: AffinePoint,
    middle: AffinePoint,
    last: AffinePoint,
)
    requires
        is_prime(p),
        p > 2,
        is_nonsingular(p, a, b),
        is_curve_point(p, a, b, first),
        is_curve_point(p, a, b, middle),
        is_curve_point(p, a, b, last),
        last == first || last == affine_negate(p, first),
    ensures
        affine_add(p, a, affine_add(p, a, first, middle), last) == affine_add(
            p,
            a,
            first,
            affine_add(p, a, middle, last),
        ),
{
    lemma_curve_points(p, a, b, first, middle);
    lemma_curve_points(p, a, b, middle, first);
    let sum = affine_add(p, a, first, middle);
    if last == first {
        lemma_curve_points(p, a, b, sum, first);
    } else {
        // (Q + P) - P = Q and (Q - P) + P = Q
        let inverse = affine_negate(p, first);
        lemma_affine_add_then_subtract(p, a, b, middle, first);
        lemma_curve_points(p, a, b, middle, inverse);
        let inner = affine_add(p, a, middle, inverse);
        lemma_curve_points(p, a, b, first, inner);
        lemma_affine_add_then_subtract(p, a, b, middle, inverse);
    }
}

/// Where the sum of the first two points is the inverse of the third, the
/// sum of the last two is the inverse of the first.
proof fn lemma_associative_vanishes(
    p: int,
    a: int,
    b: int,
    first: AffinePoint,
    middle: AffinePoint,
    last: AffinePoint,
)
    requires
        is_prime(p),
        p > 2,
        is_nonsingular(p, a, b),
        is_curve_point(p, a, b, first),
        is_curve_point(p, a, b, middle),
        is_curve_point(p, a, b, last),
        last == affine_negate(p, affine_add(p, a, first, middle)),
    ensures
        affine_add(p, a, middle, last) == affine_negate(p, first),
{
    let (n1, n2) = (affine_negate(p, first), affine_negate(p, middle));
    lemma_curve_points(p, a, b, first, middle);
    lemma_curve_points(p, a, b, middle, last);
    lemma_curve_points(p, a, b, n1, n2);
    // R = -P - Q
    lemma_affine_negate_add(p, a, first, middle);
    assert(last == affine_add(p, a, n1, n2));
    // Q + (-P - Q) = (-P - Q) + Q = -P
    lemma_curve_points(p, a, b, last, middle);
    lemma_affine_add_then_subtract(p, a, b, n1, n2);
}

/// Addition is associative on the points of a curve without singular
/// points, in affine coordinates.
pub proof fn lemma_affine_add_associative(
    p: int,
    a: int,
    b: int,
    first: AffinePoint,
    middle: AffinePoint,
    last: AffinePoint,
)
    requires
        is_prime(p),
        p > 2,
        is_nonsingular(p, a, b),
        is_curve_point(p, a, b, first),
        is_curve_point(p, a, b, middle),
        is_curve_point(p, a, b, last),
    ensures
        affine_add(p, a, affine_add(p, a, first, middle), last) == affine_add(
            p,
            a,
            first,
            affine_add(p, a, middle, last),
        ),
{
    lemma_curve_points(p, a, b, first, middle);
    lemma_curve_points(p, a, b, middle, last);
    let left = affine_add(p, a, first, middle);
    let right = affine_add(p, a, middle, last);
    if first.infinity || middle.infinity || last.infinity {
    } else if !meets(p, first, middle) {
        // (P - P) + R
        lemma_no_line(p, a, b, first, middle);
        lemma_sum_by_line(p, a, first, middle);
        lemma_associative_first_vanishes(p, a, b, first, last);
    } else if !meets(p, middle, last) {
        // (P + Q) - Q
        lemma_no_line(p, a, b, middle, last);
        lemma_sum_by_line(p, a, middle, last);
        lemma_affine_add_then_subtract(p, a, b, first, middle);
    } else if first.x == last.x {
        if first.y != last.y {
            lemma_no_line(p, a, b, first, last);
        }
        lemma_associative_same_x(p, a, b, first, middle, last);
    } else {
        lemma_sum_by_line(p, a, first, middle);
        lemma_sum_by_line(p, a, middle, last);
        lemma_third_point_lift(p, slope(p, a, first, middle), first, middle.x);
        lemma_third_point_lift(p, slope(p, a, middle, last), middle, last.x);
        if !meets(p, left, last) {
            // the sum of the first two is the inverse of the third
            lemma_no_line(p, a, b, left, last);
            lemma_sum_by_line(p, a, left, last);
            lemma_associative_vanishes(p, a, b, first, middle, last);
            lemma_affine_add_inverse(p, a, first);
        } else if !meets(p, first, right) {
            // the sum of the last two is the inverse of the first: the same,
            // read from the other end
            lemma_no_line(p, a, b, first, right);
            lemma_sum_by_line(p, a, first, right);
            lemma_curve_points(p, a, b, last, middle);
            lemma_associative_vanishes(p, a, b, last, middle, first);
            lemma_curve_points(p, a, b, left, last);
            lemma_affine_add_inverse(p, a, last);
        } else {
            lemma_associative_by_lines(p, a, b, first, middle, last);
        }
    }
}

/// Addition is associative: `(P + Q) + R` and `P + (Q + R)` stand for the
/// same point, for triples that stand for points of a curve without
/// singular points.
pub proof fn lemma_add_associative(
    p: int,
    a: int,
    b: int,
    first: JacobianPoint,
    middle: JacobianPoint,
    last: JacobianPoint,
)
    requires
        is_prime(p),
        p > 2,
        is_nonsingular(p, a, b),
        is_point(p, first),
        is_point(p, middle),
        is_point(p, last),
        lies_on_curve(p, a, b, first),
        lies_on_curve(p, a, b, middle),
        lies_on_curve(p, a, b, last),
    ensures
        same_point(
            p,
            add_points(p, a, add_points(p, a, first, middle), last),
            add_points(p, a, first, add_points(p, a, middle, last)),
        ),
{
    let left = add_points(p, a, first, middle);
    let right = add_points(p, a, middle, last);
    lemma_to_affine_is_affine_point(p, first);
    lemma_to_affine_is_affine_point(p, middle);
    lemma_to_affine_is_affine_point(p, last);
    lemma_add_is_residue(p, a, first, middle);
    lemma_add_is_residue(p, a, middle, last);
    lemma_add_is_residue(p, a, left, last);
    lemma_add_is_residue(p, a, first, right);
    lemma_add_affine(p, a, first, middle);
    lemma_add_affine(p, a, middle, last);
    lemma_add_affine(p, a, left, last);
    lemma_add_affine(p, a, first, right);
    lemma_affine_add_associative(
        p,
        a,
        b,
        to_affine(p, first),
        to_affine(p, middle),
        to_affine(p, last),
    );
    lemma_same_point_is_same_affine(
        p,
        add_points(p, a, left, last),
        add_points(p, a, first, right),
    );
}

} // verus!
