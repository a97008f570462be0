//! Scalar multiplication multiplies: on the subgroup that the endomorphism
//! multiplies by `lambda`, what the interleaved recodings compute is `k`
//! times the point, and so is what doubling and adding computes.
use crate::associativity::is_curve_point;
use crate::biginteger::{bits_le, bits_value, lemma_bits_value};
use crate::chord_tangent::{
    lemma_add_mixed_affine, lemma_double_affine, lemma_same_point_is_same_affine,
};
use crate::field::Field;
use crate::glv::{
    combine, endomorphism_table, first_recoding, lemma_recoding_digits, magnitude, naf_add,
    odd_multiple, odd_multiples, scalar_mul, second_recoding,
};
use crate::jacobian::{
    add_mixed, affine_identity, affine_negate, double, double_and_add, from_affine, is_point,
    lies_on_curve, same_point, to_affine, AffinePoint, JacobianPoint,
};
use crate::modular::{is_residue, lemma_residue};
use crate::multiples::{
    is_curve, lemma_small_multiples, lemma_times_add, lemma_times_is_curve_point,
    lemma_times_modulo, lemma_times_negate, lemma_times_of_identity, lemma_times_times, multiple,
    times,
};
use crate::on_curve::{
    lemma_add_mixed_stays_on_curve, lemma_double_stays_on_curve, lemma_to_affine_is_affine_point,
};
use crate::parameters::{sign_of, Parameters};
use crate::wnaf::{
    digits_value, is_wnaf_digit, lemma_negated_value, lemma_wnaf_digits, lemma_wnaf_value,
    wnaf_digits,
};
use vstd::arithmetic::div_mod::{lemma_mod_bound, lemma_mod_twice};
use vstd::prelude::*;

verus! {

/// The number that the digits from position `i` on stand for, the digit at
/// `i` counting once.
pub open spec fn tail_value(digits: Seq<i32>, i: int) -> int
    decreases digits.len() - i,
{
    if i < 0 || i >= digits.len() {
        0
    } else {
        digits[i] + 2 * tail_value(digits, i + 1)
    }
}

/// The number that the bits from position `i` on stand for, the bit at `i`
/// counting once.
pub open spec fn tail_bits(bits: Seq<bool>, i: int) -> nat
    decreases bits.len() - i,
{
    if i < 0 || i >= bits.len() {
        0
    } else {
        (if bits[i] {
            1nat
        } else {
            0nat
        }) + 2 * tail_bits(bits, i + 1)
    }
}

/// The digits from a position on stand for what the digits after the first
/// stand for, from one position lower on.
proof fn lemma_tail_value_shift(digits: Seq<i32>, i: int)
    requires
        digits.len() > 0,
        0 <= i,
    ensures
        tail_value(digits, i + 1) == tail_value(digits.drop_first(), i),
    decreases digits.len() - i,
{
    if i + 1 < digits.len() {
        lemma_tail_value_shift(digits, i + 1);
        assert(digits.drop_first()[i] == digits[i + 1]);
    }
}

/// All digits together stand for the number of the sequence.
pub proof fn lemma_tail_value(digits: Seq<i32>)
    ensures
        tail_value(digits, 0) == digits_value(digits),
    decreases digits.len(),
{
    if digits.len() > 0 {
        lemma_tail_value(digits.drop_first());
        lemma_tail_value_shift(digits, 0);
    }
}

/// The bits from a position on stand for what the bits after the first
/// stand for, from one position lower on.
proof fn lemma_tail_bits_shift(bits: Seq<bool>, i: int)
    requires
        bits.len() > 0,
        0 <= i,
    ensures
        tail_bits(bits, i + 1) == tail_bits(bits.drop_first(), i),
    decreases bits.len() - i,
{
    if i + 1 < bits.len() {
        lemma_tail_bits_shift(bits, i + 1);
        assert(bits.drop_first()[i] == bits[i + 1]);
    }
}

/// All bits together stand for the number of the sequence.
pub proof fn lemma_tail_bits(bits: Seq<bool>)
    ensures
        tail_bits(bits, 0) == bits_value(bits),
    decreases bits.len(),
{
    if bits.len() > 0 {
        lemma_tail_bits(bits.drop_first());
        lemma_tail_bits_shift(bits, 0);
    }
}

/// A triple that stands for a point of the curve has a point of the curve
/// for its affine point, in canonical form.
pub proof fn lemma_to_affine_is_curve_point(p: int, a: int, b: int, pt: JacobianPoint)
    requires
        is_curve(p, a, b),
        is_point(p, pt),
        lies_on_curve(p, a, b, pt),
    ensures
        is_curve_point(p, a, b, to_affine(p, pt)),
{
    lemma_to_affine_is_affine_point(p, pt);
}

/// Doubling a triple doubles the multiple that it stands for.
proof fn lemma_double_times(p: int, a: int, b: int, pt: JacobianPoint, e: int, base: AffinePoint)
    requires
        is_curve(p, a, b),
        is_curve_point(p, a, b, base),
        is_point(p, pt),
        lies_on_curve(p, a, b, pt),
        to_affine(p, pt) == times(p, a, e, base),
    ensures
        to_affine(p, double(p, a, pt)) == times(p, a, 2 * e, base),
        is_point(p, double(p, a, pt)),
        lies_on_curve(p, a, b, double(p, a, pt)),
{
    lemma_double_stays_on_curve(p, a, b, pt);
    lemma_double_affine(p, a, pt);
    lemma_times_add(p, a, b, e, e, base);
    lemma_residue(p, 0);
}

/// Adding an affine point to a triple adds the multiples that they stand
/// for.
proof fn lemma_add_mixed_times(
    p: int,
    a: int,
    b: int,
    pt: JacobianPoint,
    other: AffinePoint,
    e: int,
    c: int,
    base: AffinePoint,
)
    requires
        is_curve(p, a, b),
        is_curve_point(p, a, b, base),
        is_point(p, pt),
        lies_on_curve(p, a, b, pt),
        to_affine(p, pt) == times(p, a, e, base),
        other == times(p, a, c, base),
    ensures
        to_affine(p, add_mixed(p, a, pt, other)) == times(p, a, e + c, base),
        is_point(p, add_mixed(p, a, pt, other)),
        lies_on_curve(p, a, b, add_mixed(p, a, pt, other)),
{
    lemma_times_is_curve_point(p, a, b, c, base);
    lemma_add_mixed_stays_on_curve(p, a, b, pt, other);
    lemma_add_mixed_affine(p, a, pt, other);
    lemma_residue(p, 1);
    lemma_residue(p, 0);
    assert(to_affine(p, from_affine(other)) == other);
    lemma_times_add(p, a, b, e, c, base);
}

/// The entries of the table of odd multiples are the odd multiples.
proof fn lemma_odd_multiple_times(p: int, a: int, b: int, pt: JacobianPoint, n: nat)
    requires
        is_curve(p, a, b),
        is_point(p, pt),
        lies_on_curve(p, a, b, pt),
    ensures
        to_affine(p, odd_multiple(p, a, pt, n)) == times(p, a, 2 * (n as int) + 1, to_affine(p, pt)),
        is_point(p, odd_multiple(p, a, pt, n)),
        lies_on_curve(p, a, b, odd_multiple(p, a, pt, n)),
    decreases n,
{
    let base = to_affine(p, pt);
    lemma_to_affine_is_curve_point(p, a, b, pt);
    lemma_small_multiples(p, a, b, base);
    if n > 0 {
        lemma_odd_multiple_times(p, a, b, pt, (n - 1) as nat);
        lemma_double_times(p, a, b, pt, 1, base);
        lemma_add_mixed_times(
            p,
            a,
            b,
            odd_multiple(p, a, pt, (n - 1) as nat),
            to_affine(p, double(p, a, pt)),
            2 * (n - 1) + 1,
            2,
            base,
        );
    }
}

/// Whether the endomorphism of the curve multiplies a point by `lambda`.
pub open spec fn endomorphism_multiplies<P: Parameters>(pt: AffinePoint) -> bool {
    P::endomorphism(pt) == times(P::BaseField::modulus(), P::a(), P::lambda(), pt)
}

/// Whether a point lies in the subgroup that scalar multiplication is made
/// for: it is a point of the curve, its multiple by the order of the
/// subgroup is the point at infinity, and the endomorphism multiplies every
/// multiple of it by `lambda`.
pub open spec fn in_subgroup<P: Parameters>(pt: AffinePoint) -> bool {
    let p = P::BaseField::modulus();
    is_curve_point(p, P::a(), P::b(), pt) && times(p, P::a(), P::ScalarField::modulus(), pt)
        == affine_identity() && forall|n: nat|
        #[trigger] endomorphism_multiplies::<P>(multiple(p, P::a(), n, pt))
}

/// The accumulator after one digit: where the table holds the odd multiples
/// of a point, times `c`, the digit adds `c` times itself to the multiple
/// that the accumulator stands for.
proof fn lemma_naf_add_times(
    p: int,
    a: int,
    b: int,
    table: Seq<AffinePoint>,
    digit: i32,
    acc: JacobianPoint,
    e: int,
    c: int,
    base: AffinePoint,
)
    requires
        is_curve(p, a, b),
        is_curve_point(p, a, b, base),
        table.len() == 8,
        forall|j: int| 0 <= j < 8 ==> #[trigger] table[j] == times(p, a, c * (2 * j + 1), base),
        is_wnaf_digit(digit),
        is_point(p, acc),
        lies_on_curve(p, a, b, acc),
        to_affine(p, acc) == times(p, a, e, base),
    ensures
        to_affine(p, naf_add(p, a, table, digit, acc)) == times(p, a, e + c * digit, base),
        is_point(p, naf_add(p, a, table, digit, acc)),
        lies_on_curve(p, a, b, naf_add(p, a, table, digit, acc)),
{
    if digit == 0 {
        assert(c * digit == 0) by (nonlinear_arith)
            requires
                digit == 0,
        ;
    } else {
        let j = magnitude(digit) / 2;
        let entry = table[j];
        assert(magnitude(digit) == 2 * j + 1);
        assert(entry == times(p, a, c * (2 * j + 1), base));
        if digit < 0 {
            lemma_times_negate(p, a, b, c * (2 * j + 1), base);
            assert(-(c * (2 * j + 1)) == c * digit) by (nonlinear_arith)
                requires
                    digit == -(2 * j + 1),
            ;
            lemma_add_mixed_times(p, a, b, acc, affine_negate(p, entry), e, c * digit, base);
        } else {
            assert(c * (2 * j + 1) == c * digit) by (nonlinear_arith)
                requires
                    digit == 2 * j + 1,
            ;
            lemma_add_mixed_times(p, a, b, acc, entry, e, c * digit, base);
        }
    }
}

/// What the accumulator stands for: over the tables of the odd multiples of
/// a point and of `lambda` times the odd multiples, after the positions
/// down to `i` it is the multiple by the number that the digits from `i` on
/// stand for, the digits of the second recoding times `lambda`; twice that
/// number after the doubling that follows every position but the last.
proof fn lemma_combine_times(
    p: int,
    a: int,
    b: int,
    lambda: int,
    table_1: Seq<AffinePoint>,
    table_2: Seq<AffinePoint>,
    naf_1: Seq<i32>,
    naf_2: Seq<i32>,
    i: int,
    base: AffinePoint,
)
    requires
        is_curve(p, a, b),
        is_curve_point(p, a, b, base),
        table_1.len() == 8,
        table_2.len() == 8,
        forall|j: int| 0 <= j < 8 ==> #[trigger] table_1[j] == times(p, a, 1 * (2 * j + 1), base),
        forall|j: int|
            0 <= j < 8 ==> #[trigger] table_2[j] == times(p, a, lambda * (2 * j + 1), base),
        forall|j: int| 0 <= j < naf_1.len() ==> is_wnaf_digit(#[trigger] naf_1[j]),
        forall|j: int| 0 <= j < naf_2.len() ==> is_wnaf_digit(#[trigger] naf_2[j]),
        0 <= i,
    ensures
        to_affine(p, combine(p, a, table_1, table_2, naf_1, naf_2, i)) == times(
            p,
            a,
            (if i == 0 {
                1int
            } else {
                2int
            }) * (tail_value(naf_1, i) + lambda * tail_value(naf_2, i)),
            base,
        ),
        is_point(p, combine(p, a, table_1, table_2, naf_1, naf_2, i)),
        lies_on_curve(p, a, b, combine(p, a, table_1, table_2, naf_1, naf_2, i)),
    decreases naf_1.len() + naf_2.len() - i,
{
    lemma_residue(p, 0);
    lemma_residue(p, 1);
    lemma_small_multiples(p, a, b, base);
    let here = tail_value(naf_1, i) + lambda * tail_value(naf_2, i);
    if i >= naf_1.len() && i >= naf_2.len() {
        assert(lambda * 0 == 0);
        assert(here == 0);
        assert(1 * here == 0 && 2 * here == 0);
    } else {
        lemma_combine_times(p, a, b, lambda, table_1, table_2, naf_1, naf_2, i + 1, base);
        let acc = combine(p, a, table_1, table_2, naf_1, naf_2, i + 1);
        let above = tail_value(naf_1, i + 1) + lambda * tail_value(naf_2, i + 1);
        let d1: int = if i < naf_1.len() {
            naf_1[i] as int
        } else {
            0
        };
        let d2: int = if i < naf_2.len() {
            naf_2[i] as int
        } else {
            0
        };
        // the digit of the first recoding
        let acc_1 = if i < naf_1.len() {
            naf_add(p, a, table_1, naf_1[i], acc)
        } else {
            acc
        };
        if i < naf_1.len() {
            lemma_naf_add_times(p, a, b, table_1, naf_1[i], acc, 2 * above, 1, base);
        }
        assert(to_affine(p, acc_1) == times(p, a, 2 * above + d1, base));
        // the digit of the second recoding
        let acc_2 = if i < naf_2.len() {
            naf_add(p, a, table_2, naf_2[i], acc_1)
        } else {
            acc_1
        };
        if i < naf_2.len() {
            lemma_naf_add_times(p, a, b, table_2, naf_2[i], acc_1, 2 * above + d1, lambda, base);
        } else {
            assert(lambda * d2 == 0) by (nonlinear_arith)
                requires
                    d2 == 0,
            ;
        }
        assert(to_affine(p, acc_2) == times(p, a, 2 * above + d1 + lambda * d2, base));
        assert(tail_value(naf_1, i) == d1 + 2 * tail_value(naf_1, i + 1));
        assert(tail_value(naf_2, i) == d2 + 2 * tail_value(naf_2, i + 1));
        assert(2 * above + d1 + lambda * d2 == here) by (nonlinear_arith)
            requires
                above == tail_value(naf_1, i + 1) + lambda * tail_value(naf_2, i + 1),
                here == d1 + 2 * tail_value(naf_1, i + 1) + lambda * (d2 + 2 * tail_value(
                    naf_2,
                    i + 1,
                )),
        ;
        if i != 0 {
            lemma_double_times(p, a, b, acc_2, here, base);
        }
    }
}

/// On the subgroup, scalar multiplication multiplies: for a triple that
/// stands for a point of the subgroup, the result stands for `k` times the
/// point.
pub proof fn lemma_scalar_mul_is_multiple<P: Parameters>(pt: JacobianPoint, k: int)
    requires
        is_point(P::BaseField::modulus(), pt),
        in_subgroup::<P>(to_affine(P::BaseField::modulus(), pt)),
        is_residue(P::ScalarField::modulus(), k),
    ensures
        to_affine(P::BaseField::modulus(), scalar_mul::<P>(pt, k)) == multiple(
            P::BaseField::modulus(),
            P::a(),
            k as nat,
            to_affine(P::BaseField::modulus(), pt),
        ),
        is_point(P::BaseField::modulus(), scalar_mul::<P>(pt, k)),
{
    let p = P::BaseField::modulus();
    let (a, b) = (P::a(), P::b());
    let r = P::ScalarField::modulus();
    let lambda = P::lambda();
    let base = to_affine(p, pt);
    P::BaseField::lemma_modulus_prime();
    P::ScalarField::lemma_modulus_prime();
    P::lemma_curve();
    P::lemma_decompose(k);
    let halves = P::decompose_spec(k);
    let table_1 = odd_multiples(p, a, pt, 8);
    let table_2 = endomorphism_table::<P>(table_1);
    let naf_1 = first_recoding(halves.0, halves.2);
    let naf_2 = second_recoding(halves.1, halves.3);
    // the tables
    assert forall|j: int| 0 <= j < 8 implies #[trigger] table_1[j] == times(
        p,
        a,
        1 * (2 * j + 1),
        base,
    ) by {
        lemma_odd_multiple_times(p, a, b, pt, j as nat);
    }
    assert forall|j: int| 0 <= j < 8 implies #[trigger] table_2[j] == times(
        p,
        a,
        lambda * (2 * j + 1),
        base,
    ) by {
        assert(table_1[j] == times(p, a, 1 * (2 * j + 1), base));
        assert(endomorphism_multiplies::<P>(multiple(p, a, (2 * j + 1) as nat, base)));
        lemma_times_times(p, a, b, lambda, 2 * j + 1, base);
    }
    // the digits
    assert forall|j: int| 0 <= j < naf_1.len() implies is_wnaf_digit(#[trigger] naf_1[j]) by {
        lemma_recoding_digits(halves.0, halves.2, j);
    }
    assert forall|j: int| 0 <= j < naf_2.len() implies is_wnaf_digit(#[trigger] naf_2[j]) by {
        lemma_recoding_digits(halves.1, halves.3, j);
    }
    lemma_combine_times(p, a, b, lambda, table_1, table_2, naf_1, naf_2, 0, base);
    // the number that both recodings stand for
    lemma_recoding_value(halves.0, halves.2);
    lemma_recoding_value(halves.1, !halves.3);
    lemma_tail_value(naf_1);
    lemma_tail_value(naf_2);
    let first = sign_of(!halves.2) * halves.0;
    let second = sign_of(halves.3) * halves.1;
    let total = 1 * (tail_value(naf_1, 0) + lambda * tail_value(naf_2, 0));
    assert(total == first + second * lambda) by (nonlinear_arith)
        requires
            total == 1 * (first + lambda * second),
    ;
    lemma_times_modulo(p, a, b, r, total, k, base);
}

/// The number that the recoding of a half stands for: the half, or its
/// negation where the signs were turned.
proof fn lemma_recoding_value(half: int, turned: bool)
    requires
        0 <= half,
    ensures
        digits_value(first_recoding(half, turned)) == sign_of(!turned) * half,
        digits_value(second_recoding(half, !turned)) == sign_of(!turned) * half,
{
    let digits = wnaf_digits(half as nat);
    lemma_wnaf_value(half as nat);
    assert forall|i: int| 0 <= i < digits.len() implies is_wnaf_digit(#[trigger] digits[i]) by {
        lemma_wnaf_digits(half as nat, i);
    }
    lemma_negated_value(digits);
    assert(1 * half == half && (-1) * half == -half);
}

/// Doubling and adding multiplies: for a point of the curve, the result
/// stands for the point times the number that the bits from `from` on stand
/// for.
pub proof fn lemma_double_and_add_is_multiple(
    p: int,
    a: int,
    b: int,
    pt: AffinePoint,
    bits: Seq<bool>,
    from: int,
)
    requires
        is_curve(p, a, b),
        is_curve_point(p, a, b, pt),
        0 <= from,
    ensures
        to_affine(p, double_and_add(p, a, pt, bits, from)) == times(
            p,
            a,
            tail_bits(bits, from) as int,
            pt,
        ),
        is_point(p, double_and_add(p, a, pt, bits, from)),
        lies_on_curve(p, a, b, double_and_add(p, a, pt, bits, from)),
    decreases bits.len() - from,
{
    lemma_residue(p, 0);
    lemma_residue(p, 1);
    lemma_small_multiples(p, a, b, pt);
    if from < bits.len() {
        lemma_double_and_add_is_multiple(p, a, b, pt, bits, from + 1);
        let above = double_and_add(p, a, pt, bits, from + 1);
        lemma_double_times(p, a, b, above, tail_bits(bits, from + 1) as int, pt);
        if bits[from] {
            lemma_add_mixed_times(
                p,
                a,
                b,
                double(p, a, above),
                pt,
                2 * (tail_bits(bits, from + 1) as int),
                1,
                pt,
            );
        }
    }
}

/// On the subgroup, scalar multiplication gives the point that doubling and
/// adding gives.
pub proof fn lemma_scalar_mul_is_double_and_add<P: Parameters>(pt: JacobianPoint, k: int)
    requires
        is_point(P::BaseField::modulus(), pt),
        in_subgroup::<P>(to_affine(P::BaseField::modulus(), pt)),
        is_residue(P::ScalarField::modulus(), k),
    ensures
        same_point(
            P::BaseField::modulus(),
            scalar_mul::<P>(pt, k),
            double_and_add(
                P::BaseField::modulus(),
                P::a(),
                to_affine(P::BaseField::modulus(), pt),
                bits_le(k as nat),
                0,
            ),
        ),
{
    let p = P::BaseField::modulus();
    let base = to_affine(p, pt);
    P::BaseField::lemma_modulus_prime();
    P::lemma_curve();
    lemma_scalar_mul_is_multiple::<P>(pt, k);
    lemma_double_and_add_is_multiple(p, P::a(), P::b(), base, bits_le(k as nat), 0);
    lemma_tail_bits(bits_le(k as nat));
    lemma_bits_value(k as nat);
    lemma_same_point_is_same_affine(
        p,
        scalar_mul::<P>(pt, k),
        double_and_add(p, P::a(), base, bits_le(k as nat), 0),
    );
}

/// The subgroup holds every multiple of each of its points.
pub proof fn lemma_subgroup_holds_multiples<P: Parameters>(pt: AffinePoint, z: int)
    requires
        in_subgroup::<P>(pt),
    ensures
        in_subgroup::<P>(times(P::BaseField::modulus(), P::a(), z, pt)),
{
    let p = P::BaseField::modulus();
    let (a, b) = (P::a(), P::b());
    let r = P::ScalarField::modulus();
    let other = times(p, a, z, pt);
    P::BaseField::lemma_modulus_prime();
    P::ScalarField::lemma_modulus_prime();
    P::lemma_curve();
    lemma_times_is_curve_point(p, a, b, z, pt);
    // r * (z * P) = z * (r * P)
    lemma_times_times(p, a, b, r, z, pt);
    lemma_times_times(p, a, b, z, r, pt);
    assert(r * z == z * r) by (nonlinear_arith);
    lemma_times_of_identity(p, a, b, z);
    assert forall|n: nat| #[trigger] endomorphism_multiplies::<P>(multiple(p, a, n, other)) by {
        // n * (z * P) = (n * z mod r) * P
        lemma_times_times(p, a, b, n as int, z, pt);
        let product = (n as int) * z;
        let reduced = product % r;
        lemma_mod_bound(product, r);
        lemma_mod_twice(product, r);
        lemma_times_modulo(p, a, b, r, product, reduced, pt);
        assert(endomorphism_multiplies::<P>(multiple(p, a, reduced as nat, pt)));
    }
}

} // verus!
