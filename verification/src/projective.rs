//! Points of a short Weierstrass curve in Jacobian coordinates, and the
//! operations of the group on them.
use crate::affine::{from_x_coordinate, generator, mul_by_cofactor, Affine};
use crate::chord_tangent::{
    affine_add, affine_double, lemma_add_affine, lemma_add_mixed_affine, lemma_double_affine,
    lemma_negate_affine,
};
use crate::field::{sum_of_products, sum_of_products_spec, Field};
use crate::jacobian::{
    add_mixed, add_points, affine_negate, double, double_a_zero, double_general, from_affine,
    identity, is_identity, is_normalized, is_point, negate, same_point, same_point_affine,
    subtract, to_affine, JacobianPoint,
};
use crate::modular::{
    fadd, fmul, fneg, fsub, is_prime, lemma_congruent_residues, lemma_fadd, lemma_fmul,
    lemma_fneg, lemma_fsub,
};
use crate::parameters::Parameters;
use vstd::prelude::*;
use vstd::std_specs::cmp::PartialEqSpecImpl;

verus! {

/// A point `(X, Y, Z)` in Jacobian coordinates: the affine point `(X / Z^2,
/// Y / Z^3)`, or the point at infinity where `Z = 0`.
#[derive(Clone, Copy, Debug)]
pub struct Projective<P: Parameters> {
    pub x: P::BaseField,
    pub y: P::BaseField,
    pub z: P::BaseField,
}

impl<P: Parameters> View for Projective<P> {
    type V = JacobianPoint;

    open spec fn view(&self) -> JacobianPoint {
        JacobianPoint { x: self.x.value(), y: self.y.value(), z: self.z.value() }
    }
}

impl<P: Parameters> PartialEq for Projective<P> {
    /// Whether two triples stand for the same point of the curve.
    fn eq(&self, other: &Self) -> (b: bool) {
        if self.is_zero() {
            return other.is_zero();
        }
        if other.is_zero() {
            return false;
        }
        // The points (X, Y, Z) and (X', Y', Z')
        // are equal when (X * Z'^2) = (X' * Z^2)
        // and (Y * Z'^3) = (Y' * Z^3).

        let z1 = self.z.square();
        let z2 = other.z.square();
        if !self.x.mul(&z2).equals(&other.x.mul(&z1)) {
            return false;
        }
        self.y.mul(&z2.mul(&other.z)).equals(&other.y.mul(&z1.mul(&self.z)))
    }
}

impl<P: Parameters> PartialEqSpecImpl for Projective<P> {
    open spec fn obeys_eq_spec() -> bool {
        true
    }

    /// Two triples are equal where they stand for the same point.
    open spec fn eq_spec(&self, other: &Self) -> bool {
        same_point(P::BaseField::modulus(), self@, other@)
    }
}

impl<P: Parameters> Eq for Projective<P> {

}

impl<P: Parameters> Default for Projective<P> {
    /// The point at infinity.
    fn default() -> (r: Self)
        ensures
            r@ == identity(),
    {
        Self::zero()
    }
}

/// `r * (v - x3) - 2 * s * j`, as the sum of two products computes it.
proof fn lemma_sum_of_two_products<F: Field>(a: Seq<F>, b: Seq<F>, r: int, d: int, s: int, j: int)
    requires
        a.len() == 2,
        b.len() == 2,
        a[0].value() == r,
        a[1].value() == fneg(F::modulus(), s),
        b[0].value() == d,
        b[1].value() == j,
    ensures
        sum_of_products_spec(a, b, 2) == fsub(
            F::modulus(),
            fmul(F::modulus(), r, d),
            fmul(F::modulus(), s, j),
        ),
{
    let p = F::modulus();
    F::lemma_modulus_prime();
    reveal_with_fuel(sum_of_products_spec, 3);
    let m0 = fmul(p, r, d);
    let m1 = fmul(p, fneg(p, s), j);
    lemma_fmul(p, r, r, d, d);
    lemma_fadd(p, 0, 0, m0, r * d);
    lemma_fneg(p, s, s);
    lemma_fmul(p, fneg(p, s), -s, j, j);
    lemma_fadd(p, fadd(p, 0, m0), r * d, m1, (-s) * j);
    lemma_fmul(p, s, s, j, j);
    lemma_fsub(p, m0, r * d, fmul(p, s, j), s * j);
    assert(0 + r * d + (-s) * j == r * d - s * j) by (nonlinear_arith);
    lemma_congruent_residues(
        p,
        sum_of_products_spec(a, b, 2),
        fsub(p, fmul(p, r, d), fmul(p, s, j)),
    );
}

/// One attempt at a point of the subgroup: the point with the given `x`,
/// multiplied by the cofactor; none where there is no point with that `x`.
pub open spec fn sample_from<P: Parameters>(x: int, greatest: bool) -> Option<JacobianPoint> {
    match from_x_coordinate::<P>(x, greatest) {
        Some(pt) => Some(mul_by_cofactor::<P>(pt)),
        None => None,
    }
}

impl<P: Parameters> Projective<P> {
    /// The point with the given coordinates.
    pub fn new(x: P::BaseField, y: P::BaseField, z: P::BaseField) -> (r: Self)
        ensures
            r.x == x,
            r.y == y,
            r.z == z,
    {
        Self { x, y, z }
    }

    /// The coordinates of a point are residues, and the field has more than
    /// two elements.
    pub proof fn lemma_view_is_point(&self)
        ensures
            is_point(P::BaseField::modulus(), self@),
            is_prime(P::BaseField::modulus()),
            P::BaseField::modulus() > 2,
    {
        self.x.lemma_value_is_residue();
        self.y.lemma_value_is_residue();
        self.z.lemma_value_is_residue();
        P::BaseField::lemma_modulus_prime();
        P::lemma_curve();
    }

    /// The point at infinity, `(0, 1, 0)`.
    pub fn zero() -> (r: Self)
        ensures
            r@ == identity(),
    {
        Self::new(P::BaseField::zero(), P::BaseField::one(), P::BaseField::zero())
    }

    /// Whether this is the point at infinity: whether `Z = 0`.
    pub fn is_zero(&self) -> (b: bool)
        ensures
            b == is_identity(self@),
    {
        self.z.is_zero()
    }

    /// Whether the point is at infinity or has `Z = 1`.
    pub fn is_normalized(&self) -> (b: bool)
        ensures
            b == is_normalized(self@),
    {
        self.is_zero() || self.z.is_one()
    }

    /// Whether the triple stands for the given affine point.
    pub fn eq_affine(&self, other: &Affine<P>) -> (b: bool)
        ensures
            b == same_point_affine(P::BaseField::modulus(), self@, other@),
    {
        if self.is_zero() {
            return other.is_zero();
        }
        if other.is_zero() {
            return false;
        }
        let z1 = self.z.square();
        let x_right = other.x.mul(&z1);
        let y_right = other.y.mul(&z1).mul(&self.z);
        let x_same = self.x.equals(&x_right);
        let y_same = self.y.equals(&y_right);
        x_same && y_same
    }

    /// The Jacobian point that an affine point lifts to, with `Z = 1`.
    pub fn from_affine(p: Affine<P>) -> (r: Self)
        ensures
            r@ == from_affine(p@),
    {
        if p.is_zero() {
            Self::zero()
        } else {
            Self::new(p.x, p.y, P::BaseField::one())
        }
    }

    /// Twice the point.
    pub fn double(&self) -> (r: Self)
        ensures
            r@ == double(P::BaseField::modulus(), P::a(), self@),
            to_affine(P::BaseField::modulus(), r@) == affine_double(
                P::BaseField::modulus(),
                P::a(),
                to_affine(P::BaseField::modulus(), self@),
            ),
    {
        let mut tmp = *self;
        tmp.double_in_place();
        tmp
    }

    /// Doubles the point in place.
    pub fn double_in_place(&mut self)
        ensures
            final(self)@ == double(P::BaseField::modulus(), P::a(), old(self)@),
            to_affine(P::BaseField::modulus(), final(self)@) == affine_double(
                P::BaseField::modulus(),
                P::a(),
                to_affine(P::BaseField::modulus(), old(self)@),
            ),
    {
        proof {
            self.lemma_view_is_point();
            lemma_double_affine(P::BaseField::modulus(), P::a(), self@);
        }
        if self.is_zero() {
            return ;
        }
        if P::weierstrass_a().is_zero() {
            self.double_a_zero();
        } else {
            self.double_general();
        }
    }

    /// Doubles a point that is not at infinity, on a curve with `a = 0`.
    fn double_a_zero(&mut self)
        ensures
            final(self)@ == double_a_zero(P::BaseField::modulus(), old(self)@),
    {
        // A = X1^2
        let a = self.x.square();

        // B = Y1^2
        let b = self.y.square();

        // C = B^2
        let c = b.square();

        // D = 2*((X1+B)^2-A-C)
        let d = self.x.add(&b).square().sub(&a).sub(&c).double();

        // E = 3*A
        let e = a.add(&a.double());

        // F = E^2
        let f = e.square();

        // Z3 = 2*Y1*Z1
        let z3 = self.z.mul(&self.y).double();

        // X3 = F-2*D
        let x3 = f.sub(&d.double());

        // Y3 = E*(D-X3)-8*C
        let c8 = c.double().double().double();
        let y3 = d.sub(&x3).mul(&e).sub(&c8);

        self.x = x3;
        self.y = y3;
        self.z = z3;
    }

    /// Doubles a point that is not at infinity, on a curve with any `a`.
    fn double_general(&mut self)
        ensures
            final(self)@ == double_general(P::BaseField::modulus(), P::a(), old(self)@),
    {
        // XX = X1^2
        let xx = self.x.square();

        // YY = Y1^2
        let yy = self.y.square();

        // YYYY = YY^2
        let yyyy = yy.square();

        // ZZ = Z1^2
        let zz = self.z.square();

        // S = 2*((X1+YY)^2-XX-YYYY)
        let s = self.x.add(&yy).square().sub(&xx).sub(&yyyy).double();

        // M = 3*XX+a*ZZ^2
        let m = xx.double().add(&xx).add(&P::mul_by_a(&zz.square()));

        // T = M^2-2*S
        let t = m.square().sub(&s.double());

        // Y3 = M*(S-T)-8*YYYY
        let yyyy8 = yyyy.double().double().double();
        let y3 = m.mul(&s.sub(&t)).sub(&yyyy8);

        // Z3 = (Y1+Z1)^2-YY-ZZ
        let z3 = self.y.add(&self.z).square().sub(&yy).sub(&zz);

        // X3 = T
        self.x = t;
        self.y = y3;
        self.z = z3;
    }

    /// The sum of the point and an affine point.
    pub fn add_mixed(&self, other: &Affine<P>) -> (r: Self)
        ensures
            r@ == add_mixed(P::BaseField::modulus(), P::a(), self@, other@),
            to_affine(P::BaseField::modulus(), r@) == affine_add(
                P::BaseField::modulus(),
                P::a(),
                to_affine(P::BaseField::modulus(), self@),
                to_affine(P::BaseField::modulus(), from_affine(other@)),
            ),
    {
        let mut copy = *self;
        copy.add_assign_mixed(other);
        copy
    }

    /// Adds an affine point to the point.
    pub fn add_assign_mixed(&mut self, other: &Affine<P>)
        ensures
            final(self)@ == add_mixed(P::BaseField::modulus(), P::a(), old(self)@, other@),
            to_affine(P::BaseField::modulus(), final(self)@) == affine_add(
                P::BaseField::modulus(),
                P::a(),
                to_affine(P::BaseField::modulus(), old(self)@),
                to_affine(P::BaseField::modulus(), from_affine(other@)),
            ),
    {
        proof {
            self.lemma_view_is_point();
            other.x.lemma_value_is_residue();
            other.y.lemma_value_is_residue();
            lemma_add_mixed_affine(P::BaseField::modulus(), P::a(), self@, other@);
        }
        if other.is_zero() {
            return ;
        }
        if self.is_zero() {
            self.x = other.x;
            self.y = other.y;
            self.z = P::BaseField::one();
            return ;
        }
        // Z1Z1 = Z1^2

        let z1z1 = self.z.square();

        // U2 = X2*Z1Z1
        let u2 = other.x.mul(&z1z1);

        // S2 = Y2*Z1*Z1Z1
        let s2 = other.y.mul(&self.z).mul(&z1z1);

        if self.x.equals(&u2) && self.y.equals(&s2) {
            // The two points are equal, so we double.
            self.double_in_place();
        } else {
            // If we're adding -a and a together, self.z becomes zero as H becomes zero.
            // H = U2-X1
            let h = u2.sub(&self.x);

            // HH = H^2
            let hh = h.square();

            // I = 4*HH
            let i = hh.double().double();

            // J = H*I
            let j = h.mul(&i);

            // r = 2*(S2-Y1)
            let r = s2.sub(&self.y).double();

            // V = X1*I
            let v = self.x.mul(&i);

            // X3 = r^2 - J - 2*V
            let x3 = r.square().sub(&j).sub(&v.double());

            // Y3 = r*(V-X3)-2*Y1*J
            let y1_doubled = self.y.double();
            let lhs = [r, y1_doubled.neg()];
            let rhs = [v.sub(&x3), j];
            let y3 = sum_of_products(lhs.as_slice(), rhs.as_slice());
            proof {
                lemma_sum_of_two_products::<P::BaseField>(
                    lhs@,
                    rhs@,
                    r.value(),
                    rhs@[0].value(),
                    y1_doubled.value(),
                    j.value(),
                );
            }

            // Z3 = (Z1+H)^2-Z1Z1-HH
            let z3 = self.z.add(&h).square().sub(&z1z1).sub(&hh);

            self.x = x3;
            self.y = y3;
            self.z = z3;
        }
    }

    /// The inverse of the point.
    pub fn neg(self) -> (r: Self)
        ensures
            r@ == negate(P::BaseField::modulus(), self@),
            to_affine(P::BaseField::modulus(), r@) == affine_negate(
                P::BaseField::modulus(),
                to_affine(P::BaseField::modulus(), self@),
            ),
    {
        proof {
            self.lemma_view_is_point();
            lemma_negate_affine(P::BaseField::modulus(), self@);
        }
        if !self.is_zero() {
            Self::new(self.x, self.y.neg(), self.z)
        } else {
            self
        }
    }

    /// The sum of two points.
    pub fn add(self, other: &Self) -> (r: Self)
        ensures
            r@ == add_points(P::BaseField::modulus(), P::a(), self@, other@),
            to_affine(P::BaseField::modulus(), r@) == affine_add(
                P::BaseField::modulus(),
                P::a(),
                to_affine(P::BaseField::modulus(), self@),
                to_affine(P::BaseField::modulus(), other@),
            ),
    {
        let mut copy = self;
        copy.add_assign(other);
        copy
    }

    /// Adds a point to the point.
    pub fn add_assign(&mut self, other: &Self)
        ensures
            final(self)@ == add_points(P::BaseField::modulus(), P::a(), old(self)@, other@),
            to_affine(P::BaseField::modulus(), final(self)@) == affine_add(
                P::BaseField::modulus(),
                P::a(),
                to_affine(P::BaseField::modulus(), old(self)@),
                to_affine(P::BaseField::modulus(), other@),
            ),
    {
        proof {
            self.lemma_view_is_point();
            other.lemma_view_is_point();
            lemma_add_affine(P::BaseField::modulus(), P::a(), self@, other@);
        }
        if self.is_zero() {
            *self = *other;
            return ;
        }
        if other.is_zero() {
            return ;
        }
        // Z1Z1 = Z1^2

        let z1z1 = self.z.square();

        // Z2Z2 = Z2^2
        let z2z2 = other.z.square();

        // U1 = X1*Z2Z2
        let u1 = self.x.mul(&z2z2);

        // U2 = X2*Z1Z1
        let u2 = other.x.mul(&z1z1);

        // S1 = Y1*Z2*Z2Z2
        let s1 = self.y.mul(&other.z).mul(&z2z2);

        // S2 = Y2*Z1*Z1Z1
        let s2 = other.y.mul(&self.z).mul(&z1z1);

        if u1.equals(&u2) && s1.equals(&s2) {
            // The two points are equal, so we double.
            self.double_in_place();
        } else {
            // If we're adding -a and a together, self.z becomes zero as H becomes zero.
            // H = U2-U1
            let h = u2.sub(&u1);

            // I = (2*H)^2
            let i = h.double().square();

            // J = H*I
            let j = h.mul(&i);

            // r = 2*(S2-S1)
            let r = s2.sub(&s1).double();

            // V = U1*I
            let v = u1.mul(&i);

            // X3 = r^2 - J - 2*V
            let x3 = r.square().sub(&j).sub(&v.double());

            // Y3 = r*(V - X3) - 2*S1*J
            let s1_doubled = s1.double();
            let lhs = [r, s1_doubled.neg()];
            let rhs = [v.sub(&x3), j];
            let y3 = sum_of_products(lhs.as_slice(), rhs.as_slice());
            proof {
                lemma_sum_of_two_products::<P::BaseField>(
                    lhs@,
                    rhs@,
                    r.value(),
                    rhs@[0].value(),
                    s1_doubled.value(),
                    j.value(),
                );
            }

            // Z3 = ((Z1+Z2)^2 - Z1Z1 - Z2Z2)*H
            let z3 = self.z.add(&other.z).square().sub(&z1z1).sub(&z2z2).mul(&h);

            self.x = x3;
            self.y = y3;
            self.z = z3;
        }
    }

    /// The difference of two points.
    pub fn sub(self, other: &Self) -> (r: Self)
        ensures
            r@ == subtract(P::BaseField::modulus(), P::a(), self@, other@),
            to_affine(P::BaseField::modulus(), r@) == affine_add(
                P::BaseField::modulus(),
                P::a(),
                to_affine(P::BaseField::modulus(), self@),
                affine_negate(P::BaseField::modulus(), to_affine(P::BaseField::modulus(), other@)),
            ),
    {
        let mut copy = self;
        copy.sub_assign(other);
        copy
    }

    /// Subtracts a point from the point.
    pub fn sub_assign(&mut self, other: &Self)
        ensures
            final(self)@ == subtract(P::BaseField::modulus(), P::a(), old(self)@, other@),
            to_affine(P::BaseField::modulus(), final(self)@) == affine_add(
                P::BaseField::modulus(),
                P::a(),
                to_affine(P::BaseField::modulus(), old(self)@),
                affine_negate(P::BaseField::modulus(), to_affine(P::BaseField::modulus(), other@)),
            ),
    {
        let negated = other.neg();
        self.add_assign(&negated);
    }

    /// The affine point that the triple stands for.
    pub fn to_affine(&self) -> (r: Affine<P>)
        ensures
            r@ == to_affine(P::BaseField::modulus(), self@),
    {
        if self.is_zero() {
            Affine::zero()
        } else if self.z.is_one() {
            // If Z is one, the point is already normalized.
            Affine::new(self.x, self.y, false)
        } else {
            // Z is nonzero, so it must have an inverse in a field.
            let zinv = self.z.inverse().unwrap();
            let zinv_squared = zinv.square();

            // X/Z^2
            let x = self.x.mul(&zinv_squared);

            // Y/Z^3
            let y = self.y.mul(&zinv_squared.mul(&zinv));

            Affine::new(x, y, false)
        }
    }

    /// The generator of the subgroup of prime order.
    pub fn prime_subgroup_generator() -> (r: Self)
        ensures
            r@ == from_affine(generator::<P>()),
    {
        Self::from_affine(Affine::prime_subgroup_generator())
    }

    /// One attempt at a point of the subgroup of prime order, from a
    /// candidate for `x` and a choice between the two `y`: the point
    /// multiplied by the cofactor, or nothing where no point has that `x`.
    pub fn sample_from(x: P::BaseField, greatest: bool) -> (r: Option<Self>)
        ensures
            match r {
                Some(pt) => sample_from::<P>(x.value(), greatest) == Some(pt@),
                None => sample_from::<P>(x.value(), greatest).is_none(),
            },
    {
        match Affine::<P>::from_x_coordinate(x, greatest) {
            Some(p) => Some(p.mul_by_cofactor_to_projective()),
            None => None,
        }
    }
}

} // verus!
