//! What scalar multiplication computes: two interleaved recodings in
//! windowed non-adjacent form, over a table of odd multiples of the point and
//! the table of their images under the endomorphism.
use crate::affine::Affine;
use crate::field::{Field, PrimeField};
use crate::multiples::multiple;
use crate::multiplication::{in_subgroup, lemma_scalar_mul_is_multiple};
use crate::normalization::affine_views;
use crate::projective::Projective;
use crate::jacobian::{
    add_mixed, affine_identity, affine_negate, double, identity, is_identity, is_point, normalize,
    same_point, to_affine, AffinePoint, JacobianPoint,
};
use crate::laws::{lemma_normalize, lemma_same_point_symmetric};
use crate::modular::is_residue;
use crate::parameters::Parameters;
use crate::wnaf::{
    is_wnaf_digit, lemma_wnaf_digits, negate_digits, negated, to_wnaf, wnaf_digits, TABLE_LENGTH,
};
use vstd::prelude::*;

verus! {

/// The odd multiple `(2 * n + 1) * pt`, as the table is filled: the point
/// itself, and from then on the entry before plus twice the point in affine
/// coordinates.
pub open spec fn odd_multiple(p: int, a: int, pt: JacobianPoint, n: nat) -> JacobianPoint
    decreases n,
{
    if n == 0 {
        pt
    } else {
        add_mixed(p, a, odd_multiple(p, a, pt, (n - 1) as nat), to_affine(p, double(p, a, pt)))
    }
}

/// The table of the first `len` odd multiples of a point, in affine
/// coordinates.
pub open spec fn odd_multiples(p: int, a: int, pt: JacobianPoint, len: nat) -> Seq<AffinePoint> {
    Seq::new(len, |i: int| to_affine(p, odd_multiple(p, a, pt, i as nat)))
}

/// The table of the images of the entries of a table under the endomorphism
/// of the curve.
pub open spec fn endomorphism_table<P: Parameters>(table: Seq<AffinePoint>) -> Seq<AffinePoint> {
    Seq::new(table.len(), |i: int| P::endomorphism(table[i]))
}

/// The absolute value of a digit.
pub open spec fn magnitude(digit: i32) -> int {
    if digit < 0 {
        -digit
    } else {
        digit as int
    }
}

/// The accumulator after one digit: as it was for the digit zero, else with
/// the table's entry for the digit's absolute value added or, for a negative
/// digit, subtracted.
pub open spec fn naf_add(
    p: int,
    a: int,
    table: Seq<AffinePoint>,
    digit: i32,
    acc: JacobianPoint,
) -> JacobianPoint {
    if digit == 0 {
        acc
    } else {
        let entry = table[magnitude(digit) / 2];
        add_mixed(
            p,
            a,
            acc,
            if digit < 0 {
                affine_negate(p, entry)
            } else {
                entry
            },
        )
    }
}

/// The accumulator after one position: the digit of the first recoding, then
/// that of the second, each where the recoding reaches the position; then a
/// doubling, but at position zero.
pub open spec fn combine_step(
    p: int,
    a: int,
    table_1: Seq<AffinePoint>,
    table_2: Seq<AffinePoint>,
    naf_1: Seq<i32>,
    naf_2: Seq<i32>,
    i: int,
    acc: JacobianPoint,
) -> JacobianPoint {
    let acc_1 = if i < naf_1.len() {
        naf_add(p, a, table_1, naf_1[i], acc)
    } else {
        acc
    };
    let acc_2 = if i < naf_2.len() {
        naf_add(p, a, table_2, naf_2[i], acc_1)
    } else {
        acc_1
    };
    if i != 0 {
        double(p, a, acc_2)
    } else {
        acc_2
    }
}

/// The accumulator after the positions from the most significant one down to
/// position `i`, starting from the point at infinity.
pub open spec fn combine(
    p: int,
    a: int,
    table_1: Seq<AffinePoint>,
    table_2: Seq<AffinePoint>,
    naf_1: Seq<i32>,
    naf_2: Seq<i32>,
    i: int,
) -> JacobianPoint
    decreases naf_1.len() + naf_2.len() - i,
{
    if i < 0 || (i >= naf_1.len() && i >= naf_2.len()) {
        identity()
    } else {
        combine_step(
            p,
            a,
            table_1,
            table_2,
            naf_1,
            naf_2,
            i,
            combine(p, a, table_1, table_2, naf_1, naf_2, i + 1),
        )
    }
}

/// The recoding of the first half of a decomposition, with the signs turned
/// where the half counts negatively.
pub open spec fn first_recoding(half: int, negative: bool) -> Seq<i32> {
    if negative {
        negated(wnaf_digits(half as nat))
    } else {
        wnaf_digits(half as nat)
    }
}

/// The recoding of the second half of a decomposition, with the signs turned
/// unless the half counts positively.
pub open spec fn second_recoding(half: int, positive: bool) -> Seq<i32> {
    if !positive {
        negated(wnaf_digits(half as nat))
    } else {
        wnaf_digits(half as nat)
    }
}

/// The product of the scalar `k` and a point, as scalar multiplication
/// computes it.
pub open spec fn scalar_mul<P: Parameters>(pt: JacobianPoint, k: int) -> JacobianPoint {
    let p = P::BaseField::modulus();
    let a = P::a();
    let halves = P::decompose_spec(k);
    let table_1 = odd_multiples(p, a, pt, 8);
    let table_2 = endomorphism_table::<P>(table_1);
    combine(
        p,
        a,
        table_1,
        table_2,
        first_recoding(halves.0, halves.2),
        second_recoding(halves.1, halves.3),
        0,
    )
}

/// Every digit of both recodings of a decomposition is zero, or odd and
/// strictly between -16 and 16.
pub proof fn lemma_recoding_digits(half: int, flag: bool, i: int)
    requires
        0 <= half,
    ensures
        0 <= i < first_recoding(half, flag).len() ==> is_wnaf_digit(
            first_recoding(half, flag)[i],
        ),
        0 <= i < second_recoding(half, flag).len() ==> is_wnaf_digit(
            second_recoding(half, flag)[i],
        ),
{
    if 0 <= i < wnaf_digits(half as nat).len() {
        lemma_wnaf_digits(half as nat, i);
    }
}

/// Every odd multiple of a triple at infinity is that triple.
proof fn lemma_odd_multiple_of_identity(p: int, a: int, pt: JacobianPoint, n: nat)
    requires
        is_identity(pt),
    ensures
        odd_multiple(p, a, pt, n) == pt,
    decreases n,
{
    if n > 0 {
        lemma_odd_multiple_of_identity(p, a, pt, (n - 1) as nat);
    }
}

/// Over tables that hold the point at infinity only, the accumulator stays
/// the point at infinity.
proof fn lemma_combine_identity(
    p: int,
    a: int,
    table_1: Seq<AffinePoint>,
    table_2: Seq<AffinePoint>,
    naf_1: Seq<i32>,
    naf_2: Seq<i32>,
    i: int,
)
    requires
        table_1.len() == 8,
        table_2.len() == 8,
        forall|j: int| 0 <= j < 8 ==> (#[trigger] table_1[j]).infinity,
        forall|j: int| 0 <= j < 8 ==> (#[trigger] table_2[j]).infinity,
        forall|j: int| 0 <= j < naf_1.len() ==> is_wnaf_digit(#[trigger] naf_1[j]),
        forall|j: int| 0 <= j < naf_2.len() ==> is_wnaf_digit(#[trigger] naf_2[j]),
    ensures
        combine(p, a, table_1, table_2, naf_1, naf_2, i) == identity(),
    decreases naf_1.len() + naf_2.len() - i,
{
    if !(i < 0 || (i >= naf_1.len() && i >= naf_2.len())) {
        lemma_combine_identity(p, a, table_1, table_2, naf_1, naf_2, i + 1);
        if i < naf_1.len() {
            assert(is_wnaf_digit(naf_1[i]));
            assert(table_1[magnitude(naf_1[i]) / 2].infinity);
        }
        if i < naf_2.len() {
            assert(is_wnaf_digit(naf_2[i]));
            assert(table_2[magnitude(naf_2[i]) / 2].infinity);
        }
    }
}

/// Any multiple of the point at infinity is the point at infinity.
pub proof fn lemma_scalar_mul_identity<P: Parameters>(pt: JacobianPoint, k: int)
    requires
        is_identity(pt),
        is_residue(P::ScalarField::modulus(), k),
    ensures
        scalar_mul::<P>(pt, k) == identity(),
{
    let p = P::BaseField::modulus();
    let a = P::a();
    let halves = P::decompose_spec(k);
    P::lemma_decompose(k);
    P::BaseField::lemma_modulus_prime();
    let table_1 = odd_multiples(p, a, pt, 8);
    let table_2 = endomorphism_table::<P>(table_1);
    let naf_1 = first_recoding(halves.0, halves.2);
    let naf_2 = second_recoding(halves.1, halves.3);
    assert forall|j: int| 0 <= j < 8 implies (#[trigger] table_1[j]).infinity by {
        lemma_odd_multiple_of_identity(p, a, pt, j as nat);
    }
    assert forall|j: int| 0 <= j < 8 implies (#[trigger] table_2[j]).infinity by {
        assert(table_1[j] == affine_identity());
        P::lemma_endomorphism(table_1[j]);
    }
    assert forall|j: int| 0 <= j < naf_1.len() implies is_wnaf_digit(#[trigger] naf_1[j]) by {
        lemma_recoding_digits(halves.0, halves.2, j);
    }
    assert forall|j: int| 0 <= j < naf_2.len() implies is_wnaf_digit(#[trigger] naf_2[j]) by {
        lemma_recoding_digits(halves.1, halves.3, j);
    }
    lemma_combine_identity(p, a, table_1, table_2, naf_1, naf_2, 0);
}

/// The multiple of any point by zero is the point at infinity.
pub proof fn lemma_scalar_mul_zero<P: Parameters>(pt: JacobianPoint)
    ensures
        scalar_mul::<P>(pt, 0) == identity(),
{
    P::lemma_decompose_small();
    let halves = P::decompose_spec(0);
    assert(first_recoding(halves.0, halves.2).len() == 0);
    assert(second_recoding(halves.1, halves.3).len() == 0);
}

/// The multiple of a point by one is that point.
pub proof fn lemma_scalar_mul_one<P: Parameters>(pt: JacobianPoint)
    requires
        is_point(P::BaseField::modulus(), pt),
    ensures
        same_point(P::BaseField::modulus(), scalar_mul::<P>(pt, 1), pt),
{
    let p = P::BaseField::modulus();
    let a = P::a();
    P::BaseField::lemma_modulus_prime();
    P::lemma_decompose_small();
    let halves = P::decompose_spec(1);
    let table_1 = odd_multiples(p, a, pt, 8);
    let table_2 = endomorphism_table::<P>(table_1);
    let naf_1 = first_recoding(halves.0, halves.2);
    let naf_2 = second_recoding(halves.1, halves.3);
    assert(wnaf_digits(0).len() == 0);
    assert(wnaf_digits(1) =~= seq![1i32]) by {
        reveal_with_fuel(wnaf_digits, 3);
    }
    assert(naf_2.len() == 0);
    assert(naf_1 =~= seq![1i32]);
    assert(combine(p, a, table_1, table_2, naf_1, naf_2, 1) == identity());
    let first = combine(p, a, table_1, table_2, naf_1, naf_2, 0);
    assert(first == add_mixed(p, a, identity(), table_1[0]));
    assert(table_1[0] == to_affine(p, pt));
    lemma_normalize(p, pt);
    if pt.z != 0 {
        assert(first == normalize(p, pt)) by {
            if pt.z == 1 {
            }
        }
        lemma_same_point_symmetric(p, pt, first);
    }
}

impl<P: Parameters> Projective<P> {
    /// The table of the first eight odd multiples of the point, in affine
    /// coordinates.
    fn odd_multiples(&self) -> (table: Vec<Affine<P>>)
        ensures
            table@.len() == TABLE_LENGTH,
            affine_views(table@) == odd_multiples(
                P::BaseField::modulus(),
                P::a(),
                self@,
                TABLE_LENGTH as nat,
            ),
    {
        let ghost p = P::BaseField::modulus();
        let ghost a = P::a();
        let mut t_1: Vec<Self> = Vec::with_capacity(TABLE_LENGTH);
        let doubled = self.double().to_affine();
        t_1.push(*self);
        let mut i: usize = 1;
        while i < TABLE_LENGTH
            invariant
                1 <= i <= TABLE_LENGTH,
                t_1@.len() == i,
                p == P::BaseField::modulus(),
                a == P::a(),
                doubled@ == to_affine(p, double(p, a, self@)),
                forall|j: int| 0 <= j < i ==> (#[trigger] t_1@[j])@ == odd_multiple(p, a, self@, j as nat),
            decreases TABLE_LENGTH - i,
        {
            let ghost partial = t_1@;
            let next = t_1[i - 1].add_mixed(&doubled);
            t_1.push(next);
            assert forall|j: int| 0 <= j < i + 1 implies (#[trigger] t_1@[j])@ == odd_multiple(
                p,
                a,
                self@,
                j as nat,
            ) by {
                if j < i {
                    assert(t_1@[j] == partial[j]);
                } else {
                    assert(partial[i - 1]@ == odd_multiple(p, a, self@, (i - 1) as nat));
                }
            }
            i += 1;
        }
        let table = Self::batch_normalization_into_affine(t_1);
        assert(affine_views(table@) =~= odd_multiples(p, a, self@, TABLE_LENGTH as nat));
        table
    }

    /// The images of the entries of a table under the endomorphism.
    fn endomorphism_table(table: &Vec<Affine<P>>) -> (images: Vec<Affine<P>>)
        ensures
            images@.len() == table@.len(),
            affine_views(images@) == endomorphism_table::<P>(affine_views(table@)),
    {
        let mut images: Vec<Affine<P>> = Vec::with_capacity(table.len());
        let mut i: usize = 0;
        while i < table.len()
            invariant
                i <= table@.len(),
                images@.len() == i,
                forall|j: int| 0 <= j < i ==> (#[trigger] images@[j])@ == P::endomorphism(table@[j]@),
            decreases table@.len() - i,
        {
            let ghost partial = images@;
            images.push(P::glv_endomorphism(table[i]));
            assert forall|j: int| 0 <= j < i + 1 implies (#[trigger] images@[j])@
                == P::endomorphism(table@[j]@) by {
                if j < i {
                    assert(images@[j] == partial[j]);
                }
            }
            i += 1;
        }
        assert(affine_views(images@) =~= endomorphism_table::<P>(affine_views(table@)));
        images
    }

    /// The recodings of the two halves of a decomposition, each with the
    /// signs that its flag asks for.
    fn wnaf(k1: P::ScalarField, k2: P::ScalarField, s1: bool, s2: bool) -> (r: (Vec<i32>, Vec<i32>))
        ensures
            r.0@ == first_recoding(k1.value(), s1),
            r.1@ == second_recoding(k2.value(), s2),
    {
        let mut wnaf_1 = to_wnaf(k1.to_repr());
        let mut wnaf_2 = to_wnaf(k2.to_repr());
        proof {
            k1.lemma_value_is_residue();
            k2.lemma_value_is_residue();
            assert forall|i: int| 0 <= i < wnaf_1@.len() implies is_wnaf_digit(
                #[trigger] wnaf_1@[i],
            ) by {
                lemma_wnaf_digits(k1.value() as nat, i);
            }
            assert forall|i: int| 0 <= i < wnaf_2@.len() implies is_wnaf_digit(
                #[trigger] wnaf_2@[i],
            ) by {
                lemma_wnaf_digits(k2.value() as nat, i);
            }
        }
        if s1 {
            negate_digits(&mut wnaf_1);
        }
        if !s2 {
            negate_digits(&mut wnaf_2);
        }
        (wnaf_1, wnaf_2)
    }

    /// Adds to the accumulator what one digit of a recoding stands for.
    fn naf_add(table: &Vec<Affine<P>>, naf: i32, acc: &mut Self)
        requires
            table@.len() == TABLE_LENGTH,
            -16 < naf < 16,
        ensures
            final(acc)@ == naf_add(
                P::BaseField::modulus(),
                P::a(),
                affine_views(table@),
                naf,
                old(acc)@,
            ),
    {
        if naf != 0 {
            let abs: u32 = if naf < 0 {
                (-naf) as u32
            } else {
                naf as u32
            };
            assert(abs >> 1 == abs / 2) by (bit_vector);
            let mut p_1 = table[(abs >> 1) as usize];
            if naf < 0 {
                p_1 = p_1.neg();
            }
            acc.add_assign_mixed(&p_1);
        }
    }

    /// The product of the scalar and the point.
    pub fn mul(self, other: P::ScalarField) -> (r: Self)
        ensures
            r@ == scalar_mul::<P>(self@, other.value()),
            in_subgroup::<P>(to_affine(P::BaseField::modulus(), self@)) ==> to_affine(
                P::BaseField::modulus(),
                r@,
            ) == multiple(
                P::BaseField::modulus(),
                P::a(),
                other.value() as nat,
                to_affine(P::BaseField::modulus(), self@),
            ),
    {
        let ghost p = P::BaseField::modulus();
        let ghost a = P::a();
        proof {
            self.lemma_view_is_point();
            other.lemma_value_is_residue();
            if in_subgroup::<P>(to_affine(p, self@)) {
                lemma_scalar_mul_is_multiple::<P>(self@, other.value());
            }
        }
        let decomposition = P::decompose(&other);

        // Prepare tables.
        let t_1 = self.odd_multiples();
        let t_2 = Self::endomorphism_table(&t_1);

        // Recode scalars.
        let (naf_1, naf_2) = Self::wnaf(
            decomposition.0,
            decomposition.1,
            decomposition.2,
            decomposition.3,
        );
        let ghost table_1 = affine_views(t_1@);
        let ghost table_2 = affine_views(t_2@);
        proof {
            decomposition.0.lemma_value_is_residue();
            decomposition.1.lemma_value_is_residue();
            assert forall|i: int| 0 <= i < naf_1@.len() implies -16 < #[trigger] naf_1@[i] < 16 by {
                lemma_wnaf_digits(decomposition.0.value() as nat, i);
            }
            assert forall|i: int| 0 <= i < naf_2@.len() implies -16 < #[trigger] naf_2@[i] < 16 by {
                lemma_wnaf_digits(decomposition.1.value() as nat, i);
            }
        }
        let max_len = if naf_1.len() >= naf_2.len() {
            naf_1.len()
        } else {
            naf_2.len()
        };
        let mut acc = Self::zero();
        let mut i: usize = max_len;
        while i > 0
            invariant
                i <= max_len,
                max_len >= naf_1@.len(),
                max_len >= naf_2@.len(),
                p == P::BaseField::modulus(),
                a == P::a(),
                t_1@.len() == TABLE_LENGTH,
                t_2@.len() == TABLE_LENGTH,
                table_1 == affine_views(t_1@),
                table_2 == affine_views(t_2@),
                forall|j: int| 0 <= j < naf_1@.len() ==> -16 < #[trigger] naf_1@[j] < 16,
                forall|j: int| 0 <= j < naf_2@.len() ==> -16 < #[trigger] naf_2@[j] < 16,
                acc@ == combine(p, a, table_1, table_2, naf_1@, naf_2@, i as int),
            decreases i,
        {
            i -= 1;
            if i < naf_1.len() {
                Self::naf_add(&t_1, naf_1[i], &mut acc);
            }
            if i < naf_2.len() {
                Self::naf_add(&t_2, naf_2[i], &mut acc);
            }
            if i != 0 {
                acc.double_in_place();
            }
        }
        acc
    }

    /// Multiplies the point by the scalar.
    pub fn mul_assign(&mut self, other: P::ScalarField)
        ensures
            final(self)@ == scalar_mul::<P>(old(self)@, other.value()),
            in_subgroup::<P>(to_affine(P::BaseField::modulus(), old(self)@)) ==> to_affine(
                P::BaseField::modulus(),
                final(self)@,
            ) == multiple(
                P::BaseField::modulus(),
                P::a(),
                other.value() as nat,
                to_affine(P::BaseField::modulus(), old(self)@),
            ),
    {
        *self = (*self).mul(other)
    }
}

} // verus!
