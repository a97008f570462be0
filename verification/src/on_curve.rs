//! Points stay on the curve: whatever the group operations and scalar
//! multiplication make of points of the curve is a point of the curve.
use crate::affine::{from_x_coordinate, lemma_from_x_coordinate};
use crate::biginteger::bits_le;
use crate::chord_tangent::{
    affine_add, affine_double, lemma_add_affine, lemma_add_is_residue, lemma_add_mixed_affine,
    lemma_affine_coordinates, lemma_difference_nonzero, lemma_double_affine,
    lemma_negate_affine, lemma_same_point_is_same_affine, third_point,
};
use crate::field::Field;
use crate::glv::{
    combine, endomorphism_table, first_recoding, lemma_recoding_digits, magnitude, naf_add,
    odd_multiple, odd_multiples, scalar_mul, second_recoding,
};
use crate::identities::{cubic, lemma_line_meets_cubic};
use crate::jacobian::{
    add_mixed, add_points, affine_negate, curve_rhs, double, double_and_add, from_affine,
    is_affine_point, is_on_curve, is_point, lies_on_curve, negate, normalize, to_affine,
    AffinePoint, JacobianPoint,
};
use crate::laws::{lemma_add_mixed_is_add, lemma_double_is_residue, lemma_normalize};
use crate::modular::{
    congruent, fadd, fdouble, finv, fmul, fneg, fsquare, fsub, is_prime, is_residue, lemma_cancel,
    lemma_congruent_add, lemma_congruent_mul, lemma_congruent_residues, lemma_congruent_sub,
    lemma_fadd, lemma_finv, lemma_fmul, lemma_fneg, lemma_fsub, lemma_residue, lemma_rewrite,
};
use crate::parameters::Parameters;
use crate::projective::sample_from;
use crate::wnaf::is_wnaf_digit;
use vstd::prelude::*;

verus! {

/// The right-hand side of the curve's equation is congruent to the cubic.
pub proof fn lemma_curve_rhs(p: int, a: int, b: int, x: int, rx: int)
    requires
        p > 0,
        congruent(p, x, rx),
    ensures
        congruent(p, curve_rhs(p, a, b, x), cubic(a, b, rx)),
        is_residue(p, curve_rhs(p, a, b, x)),
{
    lemma_fmul(p, x, rx, x, rx);
    lemma_fmul(p, fsquare(p, x), rx * rx, x, rx);
    lemma_fmul(p, a, a, x, rx);
    lemma_fadd(p, fmul(p, fsquare(p, x), x), (rx * rx) * rx, fmul(p, a, x), a * rx);
    lemma_fadd(
        p,
        fadd(p, fmul(p, fsquare(p, x), x), fmul(p, a, x)),
        (rx * rx) * rx + a * rx,
        b,
        b,
    );
}

/// The third point on a line lies on the curve: where the line through a
/// point `(x1, y1)` of the curve with slope `s` meets the curve a second
/// time `d` away from `x1`, or touches it at the point (`d = 0`), the third
/// point lies on the curve.
proof fn lemma_third_point_on_curve(p: int, a: int, b: int, s: int, pt: AffinePoint, x2: int)
    requires
        is_prime(p),
        is_affine_point(p, pt),
        !pt.infinity,
        is_on_curve(p, a, b, pt),
        is_residue(p, x2),
        is_residue(p, s),
        congruent(
            p,
            3 * (pt.x * pt.x) + a - 2 * (s * pt.y) + (x2 - pt.x) * (3 * pt.x - s * s + (x2 - pt.x)),
            0,
        ),
    ensures
        is_on_curve(p, a, b, third_point(p, s, pt, x2)),
        is_affine_point(p, third_point(p, s, pt, x2)),
{
    let (x1, y1) = (pt.x, pt.y);
    let d = x2 - x1;
    let third = third_point(p, s, pt, x2);
    let rx = s * s - x1 - x2;
    let q = rx - x1;
    let ry = s * (x1 - rx) - y1;
    lemma_fmul(p, s, s, s, s);
    lemma_fsub(p, fsquare(p, s), s * s, x1, x1);
    lemma_fsub(p, fsub(p, fsquare(p, s), x1), s * s - x1, x2, x2);
    lemma_fsub(p, x1, x1, third.x, rx);
    lemma_fmul(p, s, s, fsub(p, x1, third.x), x1 - rx);
    lemma_fsub(p, fmul(p, s, fsub(p, x1, third.x)), s * (x1 - rx), y1, y1);
    // the equation at the point itself
    lemma_curve_rhs(p, a, b, x1, x1);
    lemma_fmul(p, y1, y1, y1, y1);
    // the cubic along the line, at the third point
    lemma_line_meets_cubic(s, x1, y1, q, a, b);
    let at_d = 3 * (x1 * x1) + a - 2 * (s * y1) + d * (3 * x1 - s * s + d);
    let at_q = 3 * (x1 * x1) + a - 2 * (s * y1) + q * (3 * x1 - s * s + q);
    assert(at_q == at_d) by (nonlinear_arith)
        requires
            q + d == s * s - 3 * x1,
            at_d == 3 * (x1 * x1) + a - 2 * (s * y1) + d * (3 * x1 - s * s + d),
            at_q == 3 * (x1 * x1) + a - 2 * (s * y1) + q * (3 * x1 - s * s + q),
    ;
    lemma_congruent_mul(p, q, q, at_q, 0);
    assert(q * 0 == 0);
    let line = (s * q + y1) * (s * q + y1);
    // cubic(x3) - line^2 = (cubic(x1) - y1^2) + q * at_q = 0
    lemma_congruent_sub(p, cubic(a, b, x1), y1 * y1, y1 * y1, y1 * y1);
    lemma_congruent_add(p, cubic(a, b, x1) - y1 * y1, 0, q * at_q, 0);
    lemma_congruent_add(p, cubic(a, b, x1 + q) - line, 0, line, line);
    assert(x1 + q == rx);
    // y3^2 = line^2
    lemma_fmul(p, third.y, ry, third.y, ry);
    assert(ry * ry == line) by (nonlinear_arith)
        requires
            ry == s * (x1 - rx) - y1,
            q == rx - x1,
            line == (s * q + y1) * (s * q + y1),
    ;
    lemma_curve_rhs(p, a, b, third.x, rx);
    lemma_congruent_residues(p, fsquare(p, third.y), curve_rhs(p, a, b, third.x));
}

/// Twice a point of the curve is a point of the curve.
pub proof fn lemma_affine_double_on_curve(p: int, a: int, b: int, pt: AffinePoint)
    requires
        is_prime(p),
        is_affine_point(p, pt),
        is_on_curve(p, a, b, pt),
    ensures
        is_on_curve(p, a, b, affine_double(p, a, pt)),
        is_affine_point(p, affine_double(p, a, pt)),
{
    lemma_residue(p, 0);
    lemma_residue(p, 1);
    if !pt.infinity && fdouble(p, pt.y) != 0 {
        let (x, y) = (pt.x, pt.y);
        let g = fdouble(p, y);
        lemma_fadd(p, y, y, y, y);
        let w = finv(p, g);
        lemma_finv(p, g);
        lemma_congruent_mul(p, g, y + y, w, w);
        let n = 3 * (x * x) + a;
        lemma_fmul(p, x, x, x, x);
        lemma_fmul(p, 3, 3, fsquare(p, x), x * x);
        lemma_fadd(p, fmul(p, 3, fsquare(p, x)), 3 * (x * x), a, a);
        let s = fmul(p, fadd(p, fmul(p, 3, fsquare(p, x)), a), w);
        lemma_fmul(p, fadd(p, fmul(p, 3, fsquare(p, x)), a), n, w, w);
        // the slope times 2 * y is 3 * x^2 + a
        lemma_congruent_mul(p, s, n * w, y + y, y + y);
        assert((n * w) * (y + y) - n == n * ((y + y) * w - 1)) by (nonlinear_arith);
        lemma_rewrite(p, (n * w) * (y + y), n, n, (y + y) * w, 1);
        lemma_congruent_sub(p, n, n, s * (y + y), n);
        assert(n - s * (y + y) == 3 * (x * x) + a - 2 * (s * y) + (x - x) * (3 * x - s * s + (x
            - x))) by (nonlinear_arith)
            requires
                n == 3 * (x * x) + a,
        ;
        lemma_third_point_on_curve(p, a, b, s, pt, x);
    }
}

/// The sum of two points of the curve is a point of the curve.
pub proof fn lemma_affine_add_on_curve(p: int, a: int, b: int, lhs: AffinePoint, rhs: AffinePoint)
    requires
        is_prime(p),
        is_affine_point(p, lhs),
        is_affine_point(p, rhs),
        is_on_curve(p, a, b, lhs),
        is_on_curve(p, a, b, rhs),
    ensures
        is_on_curve(p, a, b, affine_add(p, a, lhs, rhs)),
        is_affine_point(p, affine_add(p, a, lhs, rhs)),
{
    lemma_residue(p, 0);
    lemma_residue(p, 1);
    if !lhs.infinity && !rhs.infinity {
        if lhs.x == rhs.x {
            if lhs.y == rhs.y {
                lemma_affine_double_on_curve(p, a, b, lhs);
            }
        } else {
            let (x1, y1, x2, y2) = (lhs.x, lhs.y, rhs.x, rhs.y);
            let (d, e) = (x2 - x1, y2 - y1);
            lemma_difference_nonzero(p, x2, x1);
            let w = finv(p, fsub(p, x2, x1));
            lemma_finv(p, fsub(p, x2, x1));
            lemma_congruent_mul(p, fsub(p, x2, x1), d, w, w);
            lemma_fsub(p, y2, y2, y1, y1);
            let s = fmul(p, fsub(p, y2, y1), w);
            lemma_fmul(p, fsub(p, y2, y1), e, w, w);
            // the slope times the difference of x is the difference of y
            lemma_congruent_mul(p, s, e * w, d, d);
            assert((e * w) * d - e == e * (d * w - 1)) by (nonlinear_arith);
            lemma_rewrite(p, (e * w) * d, e, e, d * w, 1);
            // the line meets the curve at the second point
            lemma_congruent_add(p, s * d, e, y1, y1);
            lemma_congruent_mul(p, s * d + y1, y2, s * d + y1, y2);
            lemma_curve_rhs(p, a, b, x1, x1);
            lemma_curve_rhs(p, a, b, x2, x2);
            lemma_fmul(p, y1, y1, y1, y1);
            lemma_fmul(p, y2, y2, y2, y2);
            lemma_line_meets_cubic(s, x1, y1, d, a, b);
            let at_d = 3 * (x1 * x1) + a - 2 * (s * y1) + d * (3 * x1 - s * s + d);
            let line = (s * d + y1) * (s * d + y1);
            lemma_congruent_sub(p, cubic(a, b, x2), y2 * y2, line, y2 * y2);
            lemma_congruent_sub(p, cubic(a, b, x1), y1 * y1, y1 * y1, y1 * y1);
            lemma_congruent_sub(
                p,
                cubic(a, b, x2) - line,
                0,
                cubic(a, b, x1) - y1 * y1,
                0,
            );
            assert(x1 + d == x2);
            assert(congruent(p, d * at_d, 0));
            assert(d * at_d == at_d * d && 0 * d == 0) by (nonlinear_arith);
            lemma_cancel(p, at_d, 0, d);
            lemma_third_point_on_curve(p, a, b, s, lhs, x2);
        }
    }
}

/// The inverse of a point of the curve is a point of the curve.
pub proof fn lemma_affine_negate_on_curve(p: int, a: int, b: int, pt: AffinePoint)
    requires
        p > 0,
        is_affine_point(p, pt),
        is_on_curve(p, a, b, pt),
    ensures
        is_on_curve(p, a, b, affine_negate(p, pt)),
        is_affine_point(p, affine_negate(p, pt)),
{
    if !pt.infinity {
        let negy = fneg(p, pt.y);
        lemma_fneg(p, pt.y, pt.y);
        lemma_fmul(p, negy, -pt.y, negy, -pt.y);
        lemma_fmul(p, pt.y, pt.y, pt.y, pt.y);
        assert((-pt.y) * (-pt.y) == pt.y * pt.y) by (nonlinear_arith);
        lemma_congruent_residues(p, fsquare(p, negy), fsquare(p, pt.y));
    }
}

/// The group operations stay on the curve: the sum, the double and the
/// inverse of triples that stand for points of the curve stand for points of
/// the curve.
pub proof fn lemma_operations_stay_on_curve(
    p: int,
    a: int,
    b: int,
    lhs: JacobianPoint,
    rhs: JacobianPoint,
)
    requires
        is_prime(p),
        p > 2,
        is_point(p, lhs),
        is_point(p, rhs),
        lies_on_curve(p, a, b, lhs),
        lies_on_curve(p, a, b, rhs),
    ensures
        lies_on_curve(p, a, b, add_points(p, a, lhs, rhs)),
        lies_on_curve(p, a, b, double(p, a, lhs)),
        lies_on_curve(p, a, b, negate(p, lhs)),
        lies_on_curve(p, a, b, normalize(p, lhs)),
{
    lemma_to_affine_is_affine_point(p, lhs);
    lemma_to_affine_is_affine_point(p, rhs);
    lemma_add_affine(p, a, lhs, rhs);
    lemma_affine_add_on_curve(p, a, b, to_affine(p, lhs), to_affine(p, rhs));
    lemma_double_affine(p, a, lhs);
    lemma_affine_double_on_curve(p, a, b, to_affine(p, lhs));
    lemma_negate_affine(p, lhs);
    lemma_affine_negate_on_curve(p, a, b, to_affine(p, lhs));
    lemma_normalize(p, lhs);
    lemma_same_point_is_same_affine(p, lhs, normalize(p, lhs));
}

/// The affine coordinates of a triple are residues.
pub proof fn lemma_to_affine_is_affine_point(p: int, pt: JacobianPoint)
    requires
        is_prime(p),
        is_point(p, pt),
    ensures
        is_affine_point(p, to_affine(p, pt)),
{
    if pt.z != 0 {
        let zi = lemma_affine_coordinates(p, pt);
    }
}

/// Adding an affine point of the curve to a triple that stands for a point
/// of the curve gives a triple that stands for a point of the curve.
pub proof fn lemma_add_mixed_stays_on_curve(
    p: int,
    a: int,
    b: int,
    lhs: JacobianPoint,
    rhs: AffinePoint,
)
    requires
        is_prime(p),
        p > 2,
        is_point(p, lhs),
        is_affine_point(p, rhs),
        lies_on_curve(p, a, b, lhs),
        is_on_curve(p, a, b, rhs),
    ensures
        lies_on_curve(p, a, b, add_mixed(p, a, lhs, rhs)),
        is_point(p, add_mixed(p, a, lhs, rhs)),
{
    lemma_residue(p, 1);
    lemma_residue(p, 0);
    lemma_add_mixed_affine(p, a, lhs, rhs);
    lemma_to_affine_is_affine_point(p, lhs);
    lemma_affine_add_on_curve(p, a, b, to_affine(p, lhs), to_affine(p, from_affine(rhs)));
    lemma_add_mixed_is_add(p, a, lhs, rhs);
    lemma_add_is_residue(p, a, lhs, from_affine(rhs));
}

/// Twice a triple that stands for a point of the curve stands for a point
/// of the curve, and so does the point in affine coordinates.
pub proof fn lemma_double_stays_on_curve(p: int, a: int, b: int, pt: JacobianPoint)
    requires
        is_prime(p),
        p > 2,
        is_point(p, pt),
        lies_on_curve(p, a, b, pt),
    ensures
        lies_on_curve(p, a, b, double(p, a, pt)),
        is_point(p, double(p, a, pt)),
        is_affine_point(p, to_affine(p, pt)),
{
    lemma_operations_stay_on_curve(p, a, b, pt, pt);
    lemma_double_is_residue(p, a, pt);
    lemma_to_affine_is_affine_point(p, pt);
}

/// Every multiple of a point of the curve that doubling and adding computes
/// is a point of the curve.
pub proof fn lemma_double_and_add_stays_on_curve(
    p: int,
    a: int,
    b: int,
    pt: AffinePoint,
    bits: Seq<bool>,
    from: int,
)
    requires
        is_prime(p),
        p > 2,
        is_affine_point(p, pt),
        is_on_curve(p, a, b, pt),
    ensures
        lies_on_curve(p, a, b, double_and_add(p, a, pt, bits, from)),
        is_point(p, double_and_add(p, a, pt, bits, from)),
    decreases bits.len() - from,
{
    lemma_residue(p, 0);
    lemma_residue(p, 1);
    if !(from < 0 || from >= bits.len()) {
        let before = double_and_add(p, a, pt, bits, from + 1);
        lemma_double_and_add_stays_on_curve(p, a, b, pt, bits, from + 1);
        lemma_double_stays_on_curve(p, a, b, before);
        lemma_add_mixed_stays_on_curve(p, a, b, double(p, a, before), pt);
    }
}

/// One attempt at a random point gives a point of the curve.
pub proof fn lemma_sample_lies_on_curve<P: Parameters>(x: int, greatest: bool)
    requires
        is_residue(P::BaseField::modulus(), x),
    ensures
        match sample_from::<P>(x, greatest) {
            Some(pt) => is_point(P::BaseField::modulus(), pt) && lies_on_curve(
                P::BaseField::modulus(),
                P::a(),
                P::b(),
                pt,
            ),
            None => true,
        },
{
    P::BaseField::lemma_modulus_prime();
    P::lemma_curve();
    lemma_from_x_coordinate::<P>(x, greatest);
    match from_x_coordinate::<P>(x, greatest) {
        Some(pt) => {
            lemma_double_and_add_stays_on_curve(
                P::BaseField::modulus(),
                P::a(),
                P::b(),
                pt,
                bits_le(P::cofactor_spec()),
                0,
            );
        },
        None => {},
    }
}

/// Every odd multiple in the table of a point of the curve is a point of the
/// curve.
pub proof fn lemma_odd_multiple_stays_on_curve(p: int, a: int, b: int, pt: JacobianPoint, n: nat)
    requires
        is_prime(p),
        p > 2,
        is_point(p, pt),
        lies_on_curve(p, a, b, pt),
    ensures
        lies_on_curve(p, a, b, odd_multiple(p, a, pt, n)),
        is_point(p, odd_multiple(p, a, pt, n)),
    decreases n,
{
    if n > 0 {
        lemma_odd_multiple_stays_on_curve(p, a, b, pt, (n - 1) as nat);
        lemma_double_stays_on_curve(p, a, b, pt);
        lemma_to_affine_is_affine_point(p, double(p, a, pt));
        lemma_add_mixed_stays_on_curve(
            p,
            a,
            b,
            odd_multiple(p, a, pt, (n - 1) as nat),
            to_affine(p, double(p, a, pt)),
        );
    }
}

/// The accumulator stays on the curve when a digit is added from a table of
/// points of the curve.
proof fn lemma_naf_add_stays_on_curve(
    p: int,
    a: int,
    b: int,
    table: Seq<AffinePoint>,
    digit: i32,
    acc: JacobianPoint,
)
    requires
        is_prime(p),
        p > 2,
        table.len() == 8,
        forall|j: int|
            0 <= j < 8 ==> is_affine_point(p, #[trigger] table[j]) && is_on_curve(
                p,
                a,
                b,
                table[j],
            ),
        is_wnaf_digit(digit),
        is_point(p, acc),
        lies_on_curve(p, a, b, acc),
    ensures
        is_point(p, naf_add(p, a, table, digit, acc)),
        lies_on_curve(p, a, b, naf_add(p, a, table, digit, acc)),
{
    if digit != 0 {
        let entry = table[magnitude(digit) / 2];
        assert(is_affine_point(p, entry) && is_on_curve(p, a, b, entry));
        lemma_affine_negate_on_curve(p, a, b, entry);
        lemma_add_mixed_stays_on_curve(
            p,
            a,
            b,
            acc,
            if digit < 0 {
                affine_negate(p, entry)
            } else {
                entry
            },
        );
    }
}

/// The accumulator stays on the curve over tables of points of the curve.
proof fn lemma_combine_stays_on_curve(
    p: int,
    a: int,
    b: int,
    table_1: Seq<AffinePoint>,
    table_2: Seq<AffinePoint>,
    naf_1: Seq<i32>,
    naf_2: Seq<i32>,
    i: int,
)
    requires
        is_prime(p),
        p > 2,
        table_1.len() == 8,
        table_2.len() == 8,
        forall|j: int|
            0 <= j < 8 ==> is_affine_point(p, #[trigger] table_1[j]) && is_on_curve(
                p,
                a,
                b,
                table_1[j],
            ),
        forall|j: int|
            0 <= j < 8 ==> is_affine_point(p, #[trigger] table_2[j]) && is_on_curve(
                p,
                a,
                b,
                table_2[j],
            ),
        forall|j: int| 0 <= j < naf_1.len() ==> is_wnaf_digit(#[trigger] naf_1[j]),
        forall|j: int| 0 <= j < naf_2.len() ==> is_wnaf_digit(#[trigger] naf_2[j]),
    ensures
        is_point(p, combine(p, a, table_1, table_2, naf_1, naf_2, i)),
        lies_on_curve(p, a, b, combine(p, a, table_1, table_2, naf_1, naf_2, i)),
    decreases naf_1.len() + naf_2.len() - i,
{
    lemma_residue(p, 0);
    lemma_residue(p, 1);
    if !(i < 0 || (i >= naf_1.len() && i >= naf_2.len())) {
        lemma_combine_stays_on_curve(p, a, b, table_1, table_2, naf_1, naf_2, i + 1);
        let acc = combine(p, a, table_1, table_2, naf_1, naf_2, i + 1);
        let acc_1 = if i < naf_1.len() {
            naf_add(p, a, table_1, naf_1[i], acc)
        } else {
            acc
        };
        if i < naf_1.len() {
            lemma_naf_add_stays_on_curve(p, a, b, table_1, naf_1[i], acc);
        }
        let acc_2 = if i < naf_2.len() {
            naf_add(p, a, table_2, naf_2[i], acc_1)
        } else {
            acc_1
        };
        if i < naf_2.len() {
            lemma_naf_add_stays_on_curve(p, a, b, table_2, naf_2[i], acc_1);
        }
        lemma_double_stays_on_curve(p, a, b, acc_2);
    }
}

/// Every multiple of a point of the curve is a point of the curve.
pub proof fn lemma_scalar_mul_stays_on_curve<P: Parameters>(pt: JacobianPoint, k: int)
    requires
        is_point(P::BaseField::modulus(), pt),
        lies_on_curve(P::BaseField::modulus(), P::a(), P::b(), pt),
        is_residue(P::ScalarField::modulus(), k),
    ensures
        is_point(P::BaseField::modulus(), scalar_mul::<P>(pt, k)),
        lies_on_curve(P::BaseField::modulus(), P::a(), P::b(), scalar_mul::<P>(pt, k)),
{
    let p = P::BaseField::modulus();
    let (a, b) = (P::a(), P::b());
    P::BaseField::lemma_modulus_prime();
    P::lemma_curve();
    P::lemma_decompose(k);
    let halves = P::decompose_spec(k);
    let table_1 = odd_multiples(p, a, pt, 8);
    let table_2 = endomorphism_table::<P>(table_1);
    let naf_1 = first_recoding(halves.0, halves.2);
    let naf_2 = second_recoding(halves.1, halves.3);
    assert forall|j: int| 0 <= j < 8 implies is_affine_point(p, #[trigger] table_1[j])
        && is_on_curve(p, a, b, table_1[j]) by {
        lemma_odd_multiple_stays_on_curve(p, a, b, pt, j as nat);
        lemma_to_affine_is_affine_point(p, odd_multiple(p, a, pt, j as nat));
    }
    assert forall|j: int| 0 <= j < 8 implies is_affine_point(p, #[trigger] table_2[j])
        && is_on_curve(p, a, b, table_2[j]) by {
        assert(is_affine_point(p, table_1[j]) && is_on_curve(p, a, b, table_1[j]));
        P::lemma_endomorphism(table_1[j]);
    }
    assert forall|j: int| 0 <= j < naf_1.len() implies is_wnaf_digit(#[trigger] naf_1[j]) by {
        lemma_recoding_digits(halves.0, halves.2, j);
    }
    assert forall|j: int| 0 <= j < naf_2.len() implies is_wnaf_digit(#[trigger] naf_2[j]) by {
        lemma_recoding_digits(halves.1, halves.3, j);
    }
    lemma_combine_stays_on_curve(p, a, b, table_1, table_2, naf_1, naf_2, 0);
}

} // verus!
