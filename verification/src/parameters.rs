//! What a short Weierstrass curve `y^2 = x^3 + a*x + b` has to provide.
use crate::affine::Affine;
use crate::field::{Field, PrimeField, SquareRootField};
use crate::biginteger::BigInteger;
use crate::jacobian::{is_affine_point, is_nonsingular, is_on_curve, AffinePoint};
use crate::modular::{congruent, fmul, is_residue};
use vstd::prelude::*;

verus! {

/// The sign that a flag of a decomposition stands for.
pub open spec fn sign_of(positive: bool) -> int {
    if positive {
        1
    } else {
        -1
    }
}

/// The parameters of a short Weierstrass curve with an endomorphism that acts
/// on its prime-order subgroup as multiplication by `lambda()`.
pub trait Parameters: Sized + Copy {
    /// The field that the coordinates are taken from.
    type BaseField: SquareRootField;

    /// The field of scalars: the integers modulo the order of the subgroup.
    type ScalarField: PrimeField;

    /// The coefficient `a` of the curve.
    spec fn a() -> int;

    /// The coefficient `b` of the curve.
    spec fn b() -> int;

    /// The cofactor: the order of the curve divided by that of the subgroup.
    spec fn cofactor_spec() -> nat;

    /// The affine coordinates of the generator of the subgroup.
    spec fn generator_spec() -> (int, int);

    /// What the endomorphism maps an affine point to.
    spec fn endomorphism(pt: AffinePoint) -> AffinePoint;

    /// The scalar that the endomorphism multiplies the points of the subgroup
    /// by.
    spec fn lambda() -> int;

    /// What `decompose` returns for the residue `k`: two residues and two
    /// flags. The first flag says that the first residue counts negatively,
    /// the second that the second residue counts positively.
    spec fn decompose_spec(k: int) -> (int, int, bool, bool);

    /// The two halves of a decomposition are residues and make up the scalar:
    /// `k = ±k1 ± k2 * lambda` modulo the order of the subgroup, with the
    /// signs that the flags give.
    proof fn lemma_decompose(k: int)
        requires
            is_residue(Self::ScalarField::modulus(), k),
        ensures
            is_residue(Self::ScalarField::modulus(), Self::decompose_spec(k).0),
            is_residue(Self::ScalarField::modulus(), Self::decompose_spec(k).1),
            congruent(
                Self::ScalarField::modulus(),
                k,
                sign_of(!Self::decompose_spec(k).2) * Self::decompose_spec(k).0 + sign_of(
                    Self::decompose_spec(k).3,
                ) * Self::decompose_spec(k).1 * Self::lambda(),
            ),
    ;

    /// Zero splits in two halves that are zero, and one in the halves one,
    /// counted positively, and zero.
    proof fn lemma_decompose_small()
        ensures
            Self::decompose_spec(0).0 == 0,
            Self::decompose_spec(0).1 == 0,
            Self::decompose_spec(1).0 == 1,
            Self::decompose_spec(1).1 == 0,
            !Self::decompose_spec(1).2,
    ;

    /// The curve is in short Weierstrass form: the base field has more than
    /// three elements, and the curve has no singular point.
    proof fn lemma_curve()
        ensures
            Self::BaseField::modulus() > 3,
            is_nonsingular(Self::BaseField::modulus(), Self::a(), Self::b()),
    ;

    /// The generator is a point of the curve.
    proof fn lemma_generator()
        ensures
            is_affine_point(
                Self::BaseField::modulus(),
                AffinePoint {
                    x: Self::generator_spec().0,
                    y: Self::generator_spec().1,
                    infinity: false,
                },
            ),
            is_on_curve(
                Self::BaseField::modulus(),
                Self::a(),
                Self::b(),
                AffinePoint {
                    x: Self::generator_spec().0,
                    y: Self::generator_spec().1,
                    infinity: false,
                },
            ),
    ;

    /// The endomorphism keeps the point at infinity, and maps points of the
    /// curve to points of the curve.
    proof fn lemma_endomorphism(pt: AffinePoint)
        requires
            is_affine_point(Self::BaseField::modulus(), pt),
        ensures
            is_affine_point(Self::BaseField::modulus(), Self::endomorphism(pt)),
            Self::endomorphism(pt).infinity == pt.infinity,
            is_on_curve(Self::BaseField::modulus(), Self::a(), Self::b(), pt) ==> is_on_curve(
                Self::BaseField::modulus(),
                Self::a(),
                Self::b(),
                Self::endomorphism(pt),
            ),
    ;

    /// The coefficient `a`.
    fn weierstrass_a() -> (r: Self::BaseField)
        ensures
            r.value() == Self::a(),
    ;

    /// The coefficient `b`.
    fn weierstrass_b() -> (r: Self::BaseField)
        ensures
            r.value() == Self::b(),
    ;

    /// The cofactor.
    fn cofactor() -> (r: BigInteger)
        ensures
            r@ == Self::cofactor_spec(),
    ;

    /// The affine coordinates of the generator of the subgroup.
    fn generator_coordinates() -> (r: (Self::BaseField, Self::BaseField))
        ensures
            r.0.value() == Self::generator_spec().0,
            r.1.value() == Self::generator_spec().1,
    ;

    /// The product of the coefficient `a` and a field element.
    fn mul_by_a(elem: &Self::BaseField) -> (r: Self::BaseField)
        ensures
            r.value() == fmul(Self::BaseField::modulus(), Self::a(), elem.value()),
    ;

    /// Splits a scalar in two halves along the endomorphism.
    fn decompose(k: &Self::ScalarField) -> (r: (
        Self::ScalarField,
        Self::ScalarField,
        bool,
        bool,
    ))
        ensures
            (r.0.value(), r.1.value(), r.2, r.3) == Self::decompose_spec(k.value()),
    ;

    /// The image of an affine point under the endomorphism.
    fn glv_endomorphism(pt: Affine<Self>) -> (r: Affine<Self>)
        ensures
            (AffinePoint { x: r.x.value(), y: r.y.value(), infinity: r.infinity })
                == Self::endomorphism(
                AffinePoint { x: pt.x.value(), y: pt.y.value(), infinity: pt.infinity },
            ),
    ;
}

} // verus!
