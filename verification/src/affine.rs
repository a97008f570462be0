//! Points of a short Weierstrass curve in affine coordinates.
use crate::biginteger::bits_le;
use crate::field::{Field, SquareRootField};
use crate::jacobian::{
    affine_identity, affine_negate, curve_rhs, double_and_add, from_affine, is_affine_point,
    is_on_curve, AffinePoint, JacobianPoint,
};
use crate::modular::{
    fneg, fsquare, is_residue, lemma_congruent_mod, lemma_congruent_residues, lemma_fmul,
    lemma_fneg,
};
use crate::parameters::Parameters;
use crate::projective::Projective;
use vstd::prelude::*;

verus! {

/// A point `(x, y)`, or the point at infinity where `infinity` is set.
#[derive(Clone, Copy, Debug)]
pub struct Affine<P: Parameters> {
    pub x: P::BaseField,
    pub y: P::BaseField,
    pub infinity: bool,
}

impl<P: Parameters> View for Affine<P> {
    type V = AffinePoint;

    open spec fn view(&self) -> AffinePoint {
        AffinePoint { x: self.x.value(), y: self.y.value(), infinity: self.infinity }
    }
}

/// The point with the given `x` whose `y` is the square root that the field
/// finds for `x^3 + a * x + b` or the negation of that root: the one with
/// the greater residue where `greatest` is set, else the other. There is
/// none where the field finds no root.
pub open spec fn from_x_coordinate<P: Parameters>(x: int, greatest: bool) -> Option<AffinePoint> {
    let p = P::BaseField::modulus();
    match P::BaseField::sqrt_spec(curve_rhs(p, P::a(), P::b(), x)) {
        Some(y) => {
            let negy = fneg(p, y);
            Some(
                AffinePoint {
                    x,
                    y: if (y < negy) != greatest {
                        y
                    } else {
                        negy
                    },
                    infinity: false,
                },
            )
        },
        None => None,
    }
}

/// The multiple of an affine point by the cofactor of the curve.
pub open spec fn mul_by_cofactor<P: Parameters>(pt: AffinePoint) -> JacobianPoint {
    double_and_add(P::BaseField::modulus(), P::a(), pt, bits_le(P::cofactor_spec()), 0)
}

/// The generator of the subgroup, in affine coordinates.
pub open spec fn generator<P: Parameters>() -> AffinePoint {
    AffinePoint { x: P::generator_spec().0, y: P::generator_spec().1, infinity: false }
}

/// A point made from its `x` lies on the curve.
pub proof fn lemma_from_x_coordinate<P: Parameters>(x: int, greatest: bool)
    requires
        is_residue(P::BaseField::modulus(), x),
    ensures
        match from_x_coordinate::<P>(x, greatest) {
            Some(pt) => pt.x == x && !pt.infinity && is_affine_point(P::BaseField::modulus(), pt)
                && is_on_curve(P::BaseField::modulus(), P::a(), P::b(), pt),
            None => true,
        },
{
    let p = P::BaseField::modulus();
    P::BaseField::lemma_modulus_prime();
    let rhs = curve_rhs(p, P::a(), P::b(), x);
    lemma_congruent_mod(
        p,
        crate::modular::fadd(
            p,
            crate::modular::fmul(p, fsquare(p, x), x),
            crate::modular::fmul(p, P::a(), x),
        ) + P::b(),
    );
    P::BaseField::lemma_sqrt(rhs);
    match P::BaseField::sqrt_spec(rhs) {
        Some(y) => {
            // the negation of a root is a root
            let negy = fneg(p, y);
            lemma_fneg(p, y, y);
            lemma_fmul(p, negy, -y, negy, -y);
            lemma_fmul(p, y, y, y, y);
            assert((-y) * (-y) == y * y) by (nonlinear_arith);
            lemma_congruent_residues(p, fsquare(p, negy), fsquare(p, y));
        },
        None => {},
    }
}

impl<P: Parameters> Affine<P> {
    /// The point with the given coordinates.
    pub fn new(x: P::BaseField, y: P::BaseField, infinity: bool) -> (r: Self)
        ensures
            r.x == x,
            r.y == y,
            r.infinity == infinity,
    {
        Self { x, y, infinity }
    }

    /// The point at infinity.
    pub fn zero() -> (r: Self)
        ensures
            r@ == affine_identity(),
    {
        Self::new(P::BaseField::zero(), P::BaseField::one(), true)
    }

    /// Whether this is the point at infinity.
    pub fn is_zero(&self) -> (b: bool)
        ensures
            b == self@.infinity,
    {
        self.infinity
    }

    /// Whether the point satisfies the equation of the curve, or is the
    /// point at infinity.
    pub fn is_on_curve(&self) -> (b: bool)
        ensures
            b == is_on_curve(P::BaseField::modulus(), P::a(), P::b(), self@),
    {
        if self.infinity {
            return true;
        }
        // Compute x^3 + ax + b
        let x3b = self.x.square().mul(&self.x).add(&P::mul_by_a(&self.x)).add(
            &P::weierstrass_b(),
        );
        self.y.square().equals(&x3b)
    }

    /// The inverse of the point.
    pub fn neg(self) -> (r: Self)
        ensures
            r@ == affine_negate(P::BaseField::modulus(), self@),
    {
        if !self.is_zero() {
            Self::new(self.x, self.y.neg(), false)
        } else {
            self
        }
    }

    /// The generator of the subgroup of prime order.
    pub fn prime_subgroup_generator() -> (r: Self)
        ensures
            r@ == generator::<P>(),
    {
        let coordinates = P::generator_coordinates();
        Self::new(coordinates.0, coordinates.1, false)
    }

    /// The point in Jacobian coordinates, with `Z = 1`.
    pub fn to_projective(&self) -> (r: Projective<P>)
        ensures
            r@ == from_affine(self@),
    {
        Projective::from_affine(*self)
    }

    /// The point with the given `x`, if the field finds a `y` for it; of the
    /// two points with that `x`, the one with the greater `y` where
    /// `greatest` is set.
    pub fn from_x_coordinate(x: P::BaseField, greatest: bool) -> (r: Option<Self>)
        ensures
            match r {
                Some(pt) => from_x_coordinate::<P>(x.value(), greatest) == Some(pt@),
                None => from_x_coordinate::<P>(x.value(), greatest).is_none(),
            },
    {
        // Compute x^3 + ax + b
        let x3b = x.square().mul(&x).add(&P::mul_by_a(&x)).add(&P::weierstrass_b());
        match x3b.sqrt() {
            Some(y) => {
                let negy = y.neg();
                let y = if y.less_than(&negy) != greatest {
                    y
                } else {
                    negy
                };
                Some(Self::new(x, y, false))
            },
            None => None,
        }
    }

    /// The multiple of the point by the number with the given bits, least
    /// significant first.
    pub fn mul_bits(&self, bits: &Vec<bool>) -> (r: Projective<P>)
        ensures
            r@ == double_and_add(P::BaseField::modulus(), P::a(), self@, bits@, 0),
    {
        let mut res = Projective::zero();
        let mut i: usize = bits.len();
        while i > 0
            invariant
                i <= bits@.len(),
                res@ == double_and_add(P::BaseField::modulus(), P::a(), self@, bits@, i as int),
            decreases i,
        {
            i -= 1;
            res.double_in_place();
            if bits[i] {
                res.add_assign_mixed(self);
            }
        }
        res
    }

    /// The multiple of the point by the cofactor of the curve, which lies in
    /// the subgroup of prime order.
    pub fn mul_by_cofactor_to_projective(&self) -> (r: Projective<P>)
        ensures
            r@ == mul_by_cofactor::<P>(self@),
    {
        let bits = P::cofactor().to_bits_le();
        self.mul_bits(&bits)
    }
}

} // verus!
