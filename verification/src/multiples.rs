//! The multiples of a point of the curve: what it is to add a point to
//! itself `n` times, and that the multiples of a point behave as the
//! multiples of a number do.
use crate::associativity::{
    is_curve_point, lemma_affine_add_associative, lemma_affine_negate_add, lemma_curve_points,
};
use crate::cancellation::{lemma_affine_add_then_subtract, lemma_third_point_lift};
use crate::chord_tangent::{affine_add, lemma_difference_nonzero, third_point};
use crate::jacobian::{
    affine_identity, affine_negate, is_affine_point, is_nonsingular, AffinePoint,
};
use crate::modular::{
    congruent, fadd, fdouble, finv, fmul, fsquare, fsub, is_prime, lemma_congruent_residues,
    lemma_congruent_shift, lemma_congruent_sub, lemma_congruent_mul, lemma_fadd, lemma_finv,
    lemma_fmul, lemma_fsub, lemma_inverse_unique, lemma_residue,
};
use vstd::arithmetic::div_mod::lemma_fundamental_div_mod;
use vstd::prelude::*;

verus! {

/// Whether the numbers describe a curve that the laws of the group hold on:
/// a prime other than two, and a curve without singular points.
pub open spec fn is_curve(p: int, a: int, b: int) -> bool {
    is_prime(p) && p > 2 && is_nonsingular(p, a, b)
}

/// The point added to itself `n` times.
pub open spec fn multiple(p: int, a: int, n: nat, pt: AffinePoint) -> AffinePoint
    decreases n,
{
    if n == 0 {
        affine_identity()
    } else {
        affine_add(p, a, multiple(p, a, (n - 1) as nat, pt), pt)
    }
}

/// The multiple of a point by an integer: by a negative one, the inverse of
/// the multiple by its absolute value.
pub open spec fn times(p: int, a: int, z: int, pt: AffinePoint) -> AffinePoint {
    if z >= 0 {
        multiple(p, a, z as nat, pt)
    } else {
        affine_negate(p, multiple(p, a, (-z) as nat, pt))
    }
}

/// The point at infinity is a point of every curve.
pub proof fn lemma_identity_is_curve_point(p: int, a: int, b: int)
    requires
        p > 1,
    ensures
        is_curve_point(p, a, b, affine_identity()),
        affine_negate(p, affine_identity()) == affine_identity(),
{
}

/// The multiples of a point of the curve are points of the curve.
pub proof fn lemma_multiple_is_curve_point(p: int, a: int, b: int, n: nat, pt: AffinePoint)
    requires
        is_curve(p, a, b),
        is_curve_point(p, a, b, pt),
    ensures
        is_curve_point(p, a, b, multiple(p, a, n, pt)),
    decreases n,
{
    if n > 0 {
        lemma_multiple_is_curve_point(p, a, b, (n - 1) as nat, pt);
        lemma_curve_points(p, a, b, multiple(p, a, (n - 1) as nat, pt), pt);
    }
}

/// The multiples of a point of the curve by integers are points of the
/// curve.
pub proof fn lemma_times_is_curve_point(p: int, a: int, b: int, z: int, pt: AffinePoint)
    requires
        is_curve(p, a, b),
        is_curve_point(p, a, b, pt),
    ensures
        is_curve_point(p, a, b, times(p, a, z, pt)),
{
    if z >= 0 {
        lemma_multiple_is_curve_point(p, a, b, z as nat, pt);
    } else {
        lemma_multiple_is_curve_point(p, a, b, (-z) as nat, pt);
        lemma_curve_points(p, a, b, multiple(p, a, (-z) as nat, pt), pt);
    }
}

/// The multiple by one is the point, and the multiple by two is the point
/// added to itself.
pub proof fn lemma_small_multiples(p: int, a: int, b: int, pt: AffinePoint)
    requires
        is_curve(p, a, b),
        is_curve_point(p, a, b, pt),
    ensures
        times(p, a, 0, pt) == affine_identity(),
        times(p, a, 1, pt) == pt,
        times(p, a, 2, pt) == affine_add(p, a, pt, pt),
        times(p, a, -1, pt) == affine_negate(p, pt),
{
    reveal_with_fuel(multiple, 3);
}

/// The multiple by the negated integer is the inverse of the multiple.
pub proof fn lemma_times_negate(p: int, a: int, b: int, z: int, pt: AffinePoint)
    requires
        is_curve(p, a, b),
        is_curve_point(p, a, b, pt),
    ensures
        times(p, a, -z, pt) == affine_negate(p, times(p, a, z, pt)),
{
    if z > 0 {
    } else if z < 0 {
        lemma_multiple_is_curve_point(p, a, b, (-z) as nat, pt);
        lemma_curve_points(p, a, b, multiple(p, a, (-z) as nat, pt), pt);
    } else {
    }
}

/// The multiple by the next integer is the multiple with the point added.
pub proof fn lemma_times_successor(p: int, a: int, b: int, z: int, pt: AffinePoint)
    requires
        is_curve(p, a, b),
        is_curve_point(p, a, b, pt),
    ensures
        times(p, a, z + 1, pt) == affine_add(p, a, times(p, a, z, pt), pt),
{
    if z < 0 {
        // -(n * P) + P = -((n - 1) * P + P) + P = (-(n - 1) * P - P) + P
        let n = (-z) as nat;
        let before = multiple(p, a, (n - 1) as nat, pt);
        let inverse = affine_negate(p, pt);
        lemma_multiple_is_curve_point(p, a, b, (n - 1) as nat, pt);
        lemma_curve_points(p, a, b, before, pt);
        lemma_curve_points(p, a, b, pt, pt);
        lemma_affine_negate_add(p, a, before, pt);
        let lower = affine_negate(p, before);
        lemma_affine_add_then_subtract(p, a, b, lower, inverse);
        if z + 1 == 0 {
            lemma_identity_is_curve_point(p, a, b);
        }
    }
}

/// The multiple by a sum is the sum of the multiples.
pub proof fn lemma_times_add(p: int, a: int, b: int, z: int, w: int, pt: AffinePoint)
    requires
        is_curve(p, a, b),
        is_curve_point(p, a, b, pt),
    ensures
        times(p, a, z + w, pt) == affine_add(p, a, times(p, a, z, pt), times(p, a, w, pt)),
    decreases
            if w >= 0 {
                w
            } else {
                -w + 1
            },
{
    lemma_times_is_curve_point(p, a, b, z, pt);
    lemma_times_is_curve_point(p, a, b, w, pt);
    if w == 0 {
    } else if w > 0 {
        // (z + (w - 1)) * P + P = (z * P + (w - 1) * P) + P
        lemma_times_add(p, a, b, z, w - 1, pt);
        lemma_times_successor(p, a, b, z + (w - 1), pt);
        lemma_times_successor(p, a, b, w - 1, pt);
        lemma_times_is_curve_point(p, a, b, w - 1, pt);
        lemma_affine_add_associative(
            p,
            a,
            b,
            times(p, a, z, pt),
            times(p, a, w - 1, pt),
            pt,
        );
        assert(z + (w - 1) + 1 == z + w);
    } else {
        // -((-z) * P + (-w) * P)
        lemma_times_add(p, a, b, -z, -w, pt);
        lemma_times_negate(p, a, b, -z + -w, pt);
        assert(-(-z + -w) == z + w);
        lemma_times_is_curve_point(p, a, b, -z, pt);
        lemma_times_is_curve_point(p, a, b, -w, pt);
        lemma_affine_negate_add(p, a, times(p, a, -z, pt), times(p, a, -w, pt));
        lemma_times_negate(p, a, b, -z, pt);
        lemma_times_negate(p, a, b, -w, pt);
        assert(-(-z) == z && -(-w) == w);
    }
}

/// Every multiple of the point at infinity is the point at infinity.
pub proof fn lemma_times_of_identity(p: int, a: int, b: int, z: int)
    requires
        is_curve(p, a, b),
    ensures
        times(p, a, z, affine_identity()) == affine_identity(),
    decreases
            if z >= 0 {
                z
            } else {
                -z + 1
            },
{
    lemma_identity_is_curve_point(p, a, b);
    if z > 0 {
        lemma_times_of_identity(p, a, b, z - 1);
        lemma_times_successor(p, a, b, z - 1, affine_identity());
    } else if z < 0 {
        lemma_times_of_identity(p, a, b, -z);
    }
}

/// The multiples of the inverse are the inverses of the multiples.
pub proof fn lemma_times_of_inverse(p: int, a: int, b: int, z: int, pt: AffinePoint)
    requires
        is_curve(p, a, b),
        is_curve_point(p, a, b, pt),
    ensures
        times(p, a, z, affine_negate(p, pt)) == affine_negate(p, times(p, a, z, pt)),
    decreases
            if z >= 0 {
                z
            } else {
                -z + 1
            },
{
    let inverse = affine_negate(p, pt);
    lemma_curve_points(p, a, b, pt, pt);
    lemma_identity_is_curve_point(p, a, b);
    if z > 0 {
        lemma_times_of_inverse(p, a, b, z - 1, pt);
        lemma_times_successor(p, a, b, z - 1, pt);
        lemma_times_successor(p, a, b, z - 1, inverse);
        lemma_times_is_curve_point(p, a, b, z - 1, pt);
        lemma_affine_negate_add(p, a, times(p, a, z - 1, pt), pt);
    } else if z < 0 {
        lemma_times_of_inverse(p, a, b, -z, pt);
        lemma_times_negate(p, a, b, -z, pt);
        lemma_times_negate(p, a, b, -z, inverse);
        assert(-(-z) == z);
    }
}

/// The multiple by a product is the multiple of the multiple.
pub proof fn lemma_times_times(p: int, a: int, b: int, z: int, w: int, pt: AffinePoint)
    requires
        is_curve(p, a, b),
        is_curve_point(p, a, b, pt),
    ensures
        times(p, a, z * w, pt) == times(p, a, z, times(p, a, w, pt)),
    decreases
            if z >= 0 {
                z
            } else {
                -z + 1
            },
{
    let inner = times(p, a, w, pt);
    lemma_times_is_curve_point(p, a, b, w, pt);
    if z == 0 {
        assert(z * w == 0) by (nonlinear_arith)
            requires
                z == 0,
        ;
    } else if z > 0 {
        // ((z - 1) * w + w) * P
        lemma_times_times(p, a, b, z - 1, w, pt);
        assert(z * w == (z - 1) * w + w) by (nonlinear_arith);
        lemma_times_add(p, a, b, (z - 1) * w, w, pt);
        lemma_times_successor(p, a, b, z - 1, inner);
    } else {
        lemma_times_times(p, a, b, -z, w, pt);
        assert((-z) * w == -(z * w)) by (nonlinear_arith);
        lemma_times_negate(p, a, b, -(z * w), pt);
        assert(-(-(z * w)) == z * w);
        lemma_times_negate(p, a, b, -z, inner);
        assert(-(-z) == z);
    }
}

/// Where the multiple of a point by `r` is the point at infinity, the
/// multiples by integers that differ by a multiple of `r` are the same.
pub proof fn lemma_times_modulo(p: int, a: int, b: int, r: int, z: int, w: int, pt: AffinePoint)
    requires
        is_curve(p, a, b),
        is_curve_point(p, a, b, pt),
        r > 0,
        times(p, a, r, pt) == affine_identity(),
        z % r == w % r,
    ensures
        times(p, a, z, pt) == times(p, a, w, pt),
{
    // z = w + m * r
    let m = z / r - w / r;
    lemma_fundamental_div_mod(z, r);
    lemma_fundamental_div_mod(w, r);
    assert(z == w + m * r) by (nonlinear_arith)
        requires
            z == r * (z / r) + z % r,
            w == r * (w / r) + w % r,
            z % r == w % r,
            m == z / r - w / r,
    ;
    lemma_times_add(p, a, b, w, m * r, pt);
    lemma_times_times(p, a, b, m, r, pt);
    lemma_times_of_identity(p, a, b, m);
    lemma_times_is_curve_point(p, a, b, w, pt);
}

/// Four points may be added in pairs either way:
/// `(A + B) + (C + D) = (A + C) + (B + D)`.
pub proof fn lemma_add_interchange(
    p: int,
    a: int,
    b: int,
    first: AffinePoint,
    second: AffinePoint,
    third: AffinePoint,
    fourth: AffinePoint,
)
    requires
        is_curve(p, a, b),
        is_curve_point(p, a, b, first),
        is_curve_point(p, a, b, second),
        is_curve_point(p, a, b, third),
        is_curve_point(p, a, b, fourth),
    ensures
        affine_add(p, a, affine_add(p, a, first, second), affine_add(p, a, third, fourth))
            == affine_add(p, a, affine_add(p, a, first, third), affine_add(p, a, second, fourth)),
{
    let cd = affine_add(p, a, third, fourth);
    let bd = affine_add(p, a, second, fourth);
    let bc = affine_add(p, a, second, third);
    lemma_curve_points(p, a, b, third, fourth);
    lemma_curve_points(p, a, b, second, fourth);
    lemma_curve_points(p, a, b, second, third);
    // A + (B + (C + D)) = A + ((B + C) + D) = A + ((C + B) + D) = A + (C + (B + D))
    lemma_affine_add_associative(p, a, b, first, second, cd);
    lemma_affine_add_associative(p, a, b, second, third, fourth);
    lemma_affine_add_associative(p, a, b, third, second, fourth);
    lemma_affine_add_associative(p, a, b, first, third, bd);
}

/// The multiple of a sum is the sum of the multiples.
pub proof fn lemma_times_of_sum(
    p: int,
    a: int,
    b: int,
    z: int,
    lhs: AffinePoint,
    rhs: AffinePoint,
)
    requires
        is_curve(p, a, b),
        is_curve_point(p, a, b, lhs),
        is_curve_point(p, a, b, rhs),
    ensures
        times(p, a, z, affine_add(p, a, lhs, rhs)) == affine_add(
            p,
            a,
            times(p, a, z, lhs),
            times(p, a, z, rhs),
        ),
    decreases
            if z >= 0 {
                z
            } else {
                -z + 1
            },
{
    let sum = affine_add(p, a, lhs, rhs);
    lemma_curve_points(p, a, b, lhs, rhs);
    lemma_identity_is_curve_point(p, a, b);
    if z > 0 {
        lemma_times_of_sum(p, a, b, z - 1, lhs, rhs);
        lemma_times_successor(p, a, b, z - 1, sum);
        lemma_times_successor(p, a, b, z - 1, lhs);
        lemma_times_successor(p, a, b, z - 1, rhs);
        lemma_times_is_curve_point(p, a, b, z - 1, lhs);
        lemma_times_is_curve_point(p, a, b, z - 1, rhs);
        lemma_add_interchange(
            p,
            a,
            b,
            times(p, a, z - 1, lhs),
            times(p, a, z - 1, rhs),
            lhs,
            rhs,
        );
    } else if z < 0 {
        lemma_times_of_sum(p, a, b, -z, lhs, rhs);
        lemma_times_negate(p, a, b, -z, sum);
        lemma_times_negate(p, a, b, -z, lhs);
        lemma_times_negate(p, a, b, -z, rhs);
        assert(-(-z) == z);
        lemma_times_is_curve_point(p, a, b, -z, lhs);
        lemma_times_is_curve_point(p, a, b, -z, rhs);
        lemma_affine_negate_add(p, a, times(p, a, -z, lhs), times(p, a, -z, rhs));
    }
}

/// An integer is congruent to the remainder that it leaves with a given
/// quotient.
proof fn lemma_remainder(p: int, v: int, q: int, r: int)
    requires
        p > 0,
        v == r + q * p,
    ensures
        congruent(p, v, r),
{
    lemma_congruent_shift(p, r, q);
}

/// The third point on a line, from the quotients that its coordinates leave.
proof fn lemma_third_point_value(
    p: int,
    s: int,
    pt: AffinePoint,
    x2: int,
    sum: AffinePoint,
    qx: int,
    qy: int,
)
    requires
        p > 0,
        is_affine_point(p, sum),
        !sum.infinity,
        s * s - pt.x - x2 == sum.x + qx * p,
        s * (pt.x - sum.x) - pt.y == sum.y + qy * p,
    ensures
        third_point(p, s, pt, x2) == sum,
{
    let raw = s * s - pt.x - x2;
    let third = third_point(p, s, pt, x2);
    lemma_third_point_lift(p, s, pt, x2);
    lemma_remainder(p, raw, qx, sum.x);
    lemma_congruent_residues(p, third.x, sum.x);
    lemma_congruent_sub(p, pt.x, pt.x, raw, sum.x);
    lemma_congruent_mul(p, s, s, pt.x - raw, pt.x - sum.x);
    lemma_congruent_sub(p, s * (pt.x - raw), s * (pt.x - sum.x), pt.y, pt.y);
    lemma_remainder(p, s * (pt.x - sum.x) - pt.y, qy, sum.y);
    lemma_congruent_residues(p, third.y, sum.y);
}

/// The sum of two points with different `x`, from the inverse of the
/// difference of their `x`, the slope, and the quotients that are left.
pub proof fn lemma_chord_value(
    p: int,
    a: int,
    lhs: AffinePoint,
    rhs: AffinePoint,
    sum: AffinePoint,
    inverse: int,
    s: int,
    quotients: (int, int, int, int),
)
    requires
        is_prime(p),
        is_affine_point(p, lhs),
        is_affine_point(p, rhs),
        is_affine_point(p, sum),
        !lhs.infinity,
        !rhs.infinity,
        !sum.infinity,
        lhs.x != rhs.x,
        0 <= inverse < p,
        0 <= s < p,
        (rhs.x - lhs.x) * inverse == 1 + quotients.0 * p,
        (rhs.y - lhs.y) * inverse == s + quotients.1 * p,
        s * s - lhs.x - rhs.x == sum.x + quotients.2 * p,
        s * (lhs.x - sum.x) - lhs.y == sum.y + quotients.3 * p,
    ensures
        affine_add(p, a, lhs, rhs) == sum,
{
    let d = fsub(p, rhs.x, lhs.x);
    lemma_residue(p, 1);
    lemma_difference_nonzero(p, rhs.x, lhs.x);
    lemma_fmul(p, d, rhs.x - lhs.x, inverse, inverse);
    lemma_remainder(p, (rhs.x - lhs.x) * inverse, quotients.0, 1);
    lemma_residue(p, fmul(p, d, inverse));
    lemma_finv(p, d);
    lemma_inverse_unique(p, d, inverse, finv(p, d));
    lemma_fsub(p, rhs.y, rhs.y, lhs.y, lhs.y);
    lemma_fmul(p, fsub(p, rhs.y, lhs.y), rhs.y - lhs.y, inverse, inverse);
    lemma_remainder(p, (rhs.y - lhs.y) * inverse, quotients.1, s);
    lemma_congruent_residues(p, fmul(p, fsub(p, rhs.y, lhs.y), inverse), s);
    lemma_third_point_value(p, s, lhs, rhs.x, sum, quotients.2, quotients.3);
}

/// Twice a point, from the inverse of twice its `y`, the slope, and the
/// quotients that are left.
pub proof fn lemma_tangent_value(
    p: int,
    a: int,
    pt: AffinePoint,
    sum: AffinePoint,
    inverse: int,
    s: int,
    quotients: (int, int, int, int),
)
    requires
        is_prime(p),
        is_affine_point(p, pt),
        is_affine_point(p, sum),
        !pt.infinity,
        !sum.infinity,
        0 <= inverse < p,
        0 <= s < p,
        (pt.y + pt.y) * inverse == 1 + quotients.0 * p,
        (3 * (pt.x * pt.x) + a) * inverse == s + quotients.1 * p,
        s * s - pt.x - pt.x == sum.x + quotients.2 * p,
        s * (pt.x - sum.x) - pt.y == sum.y + quotients.3 * p,
    ensures
        affine_add(p, a, pt, pt) == sum,
{
    let g = fdouble(p, pt.y);
    lemma_residue(p, 1);
    lemma_residue(p, 0);
    lemma_fadd(p, pt.y, pt.y, pt.y, pt.y);
    lemma_fmul(p, g, pt.y + pt.y, inverse, inverse);
    lemma_remainder(p, (pt.y + pt.y) * inverse, quotients.0, 1);
    lemma_residue(p, fmul(p, g, inverse));
    if g == 0 {
        assert(0 * inverse == 0);
    }
    lemma_finv(p, g);
    lemma_inverse_unique(p, g, inverse, finv(p, g));
    let n = 3 * (pt.x * pt.x) + a;
    lemma_fmul(p, pt.x, pt.x, pt.x, pt.x);
    lemma_fmul(p, 3, 3, fsquare(p, pt.x), pt.x * pt.x);
    lemma_fadd(p, fmul(p, 3, fsquare(p, pt.x)), 3 * (pt.x * pt.x), a, a);
    lemma_fmul(p, fadd(p, fmul(p, 3, fsquare(p, pt.x)), a), n, inverse, inverse);
    lemma_remainder(p, n * inverse, quotients.1, s);
    lemma_congruent_residues(
        p,
        fmul(p, fadd(p, fmul(p, 3, fsquare(p, pt.x)), a), inverse),
        s,
    );
    lemma_third_point_value(p, s, pt, pt.x, sum, quotients.2, quotients.3);
}

/// From a multiple of a point to the multiple by twice the number.
pub proof fn lemma_double_multiple(
    p: int,
    a: int,
    b: int,
    base: AffinePoint,
    e: int,
    pt: AffinePoint,
    sum: AffinePoint,
    inverse: int,
    s: int,
    quotients: (int, int, int, int),
)
    requires
        is_curve(p, a, b),
        is_curve_point(p, a, b, base),
        times(p, a, e, base) == pt,
        is_affine_point(p, sum),
        !pt.infinity,
        !sum.infinity,
        0 <= inverse < p,
        0 <= s < p,
        (pt.y + pt.y) * inverse == 1 + quotients.0 * p,
        (3 * (pt.x * pt.x) + a) * inverse == s + quotients.1 * p,
        s * s - pt.x - pt.x == sum.x + quotients.2 * p,
        s * (pt.x - sum.x) - pt.y == sum.y + quotients.3 * p,
    ensures
        times(p, a, 2 * e, base) == sum,
{
    lemma_times_is_curve_point(p, a, b, e, base);
    lemma_times_add(p, a, b, e, e, base);
    lemma_tangent_value(p, a, pt, sum, inverse, s, quotients);
}

/// From a multiple of a point to the multiple by the next number.
pub proof fn lemma_next_multiple(
    p: int,
    a: int,
    b: int,
    base: AffinePoint,
    e: int,
    pt: AffinePoint,
    sum: AffinePoint,
    inverse: int,
    s: int,
    quotients: (int, int, int, int),
)
    requires
        is_curve(p, a, b),
        is_curve_point(p, a, b, base),
        !base.infinity,
        times(p, a, e, base) == pt,
        is_affine_point(p, sum),
        !pt.infinity,
        !sum.infinity,
        pt.x != base.x,
        0 <= inverse < p,
        0 <= s < p,
        (base.x - pt.x) * inverse == 1 + quotients.0 * p,
        (base.y - pt.y) * inverse == s + quotients.1 * p,
        s * s - pt.x - base.x == sum.x + quotients.2 * p,
        s * (pt.x - sum.x) - pt.y == sum.y + quotients.3 * p,
    ensures
        times(p, a, e + 1, base) == sum,
{
    lemma_times_is_curve_point(p, a, b, e, base);
    lemma_times_successor(p, a, b, e, base);
    lemma_chord_value(p, a, pt, base, sum, inverse, s, quotients);
}

} // verus!
