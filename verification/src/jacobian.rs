//! The group law of a short Weierstrass curve `y^2 = x^3 + a*x + b` in
//! Jacobian coordinates, stated over residues.
//!
//! A triple `(X, Y, Z)` with `Z != 0` stands for the affine point
//! `(X / Z^2, Y / Z^3)`; every triple with `Z = 0` stands for the point at
//! infinity. The formulas are those of the Explicit-Formulas Database for
//! Jacobian coordinates: "dbl-2009-l" for doubling, "madd-2007-bl" for adding
//! an affine point and "add-2007-bl" for adding two Jacobian points.
use crate::modular::{fadd, fdouble, finv, fmul, fneg, fsquare, fsub};
use vstd::prelude::*;

verus! {

/// A point in Jacobian coordinates, as three residues.
pub struct JacobianPoint {
    pub x: int,
    pub y: int,
    pub z: int,
}

/// A point in affine coordinates, or the point at infinity.
pub struct AffinePoint {
    pub x: int,
    pub y: int,
    pub infinity: bool,
}

/// The canonical representative of the point at infinity.
pub open spec fn identity() -> JacobianPoint {
    JacobianPoint { x: 0, y: 1, z: 0 }
}

/// The affine point with the given coordinates.
pub open spec fn finite(x: int, y: int) -> AffinePoint {
    AffinePoint { x, y, infinity: false }
}

/// The affine point at infinity.
pub open spec fn affine_identity() -> AffinePoint {
    AffinePoint { x: 0, y: 1, infinity: true }
}

/// Whether the triple stands for the point at infinity.
pub open spec fn is_identity(pt: JacobianPoint) -> bool {
    pt.z == 0
}

/// Whether the triple is the point at infinity or has `Z = 1`.
pub open spec fn is_normalized(pt: JacobianPoint) -> bool {
    pt.z == 0 || pt.z == 1
}

/// Whether all three coordinates are residues modulo `p`.
pub open spec fn is_point(p: int, pt: JacobianPoint) -> bool {
    0 <= pt.x < p && 0 <= pt.y < p && 0 <= pt.z < p
}

/// Whether both coordinates are residues modulo `p`.
pub open spec fn is_affine_point(p: int, pt: AffinePoint) -> bool {
    0 <= pt.x < p && 0 <= pt.y < p
}

/// Whether two triples stand for the same point of the curve:
/// `X1 * Z2^2 = X2 * Z1^2` and `Y1 * Z2^3 = Y2 * Z1^3`, and the point at
/// infinity is the same as itself only.
pub open spec fn same_point(p: int, lhs: JacobianPoint, rhs: JacobianPoint) -> bool {
    if lhs.z == 0 {
        rhs.z == 0
    } else if rhs.z == 0 {
        false
    } else {
        let z1 = fsquare(p, lhs.z);
        let z2 = fsquare(p, rhs.z);
        fmul(p, lhs.x, z2) == fmul(p, rhs.x, z1) && fmul(p, lhs.y, fmul(p, z2, rhs.z)) == fmul(
            p,
            rhs.y,
            fmul(p, z1, lhs.z),
        )
    }
}

/// Whether a triple and an affine point stand for the same point.
pub open spec fn same_point_affine(p: int, lhs: JacobianPoint, rhs: AffinePoint) -> bool {
    if lhs.z == 0 {
        rhs.infinity
    } else if rhs.infinity {
        false
    } else {
        let z1 = fsquare(p, lhs.z);
        lhs.x == fmul(p, rhs.x, z1) && lhs.y == fmul(p, fmul(p, rhs.y, z1), lhs.z)
    }
}

/// The triple `(c^2 * X, c^3 * Y, c * Z)`.
pub open spec fn scale(p: int, pt: JacobianPoint, c: int) -> JacobianPoint {
    let c2 = fsquare(p, c);
    JacobianPoint {
        x: fmul(p, c2, pt.x),
        y: fmul(p, fmul(p, c2, c), pt.y),
        z: fmul(p, c, pt.z),
    }
}

/// The inverse of a point: `(X, -Y, Z)`, and the point at infinity as it is.
pub open spec fn negate(p: int, pt: JacobianPoint) -> JacobianPoint {
    if pt.z == 0 {
        pt
    } else {
        JacobianPoint { x: pt.x, y: fneg(p, pt.y), z: pt.z }
    }
}

/// The inverse of an affine point.
pub open spec fn affine_negate(p: int, pt: AffinePoint) -> AffinePoint {
    if pt.infinity {
        pt
    } else {
        AffinePoint { x: pt.x, y: fneg(p, pt.y), infinity: false }
    }
}

/// Eight times a residue, by three doublings.
pub open spec fn foctuple(p: int, v: int) -> int {
    fdouble(p, fdouble(p, fdouble(p, v)))
}

/// Doubling on a curve with `a = 0`, for a point that is not at infinity.
pub open spec fn double_a_zero(p: int, pt: JacobianPoint) -> JacobianPoint {
    let a = fsquare(p, pt.x);
    let b = fsquare(p, pt.y);
    let c = fsquare(p, b);
    let d = fdouble(p, fsub(p, fsub(p, fsquare(p, fadd(p, pt.x, b)), a), c));
    let e = fadd(p, a, fdouble(p, a));
    let f = fsquare(p, e);
    let z3 = fdouble(p, fmul(p, pt.z, pt.y));
    let x3 = fsub(p, f, fdouble(p, d));
    let y3 = fsub(p, fmul(p, fsub(p, d, x3), e), foctuple(p, c));
    JacobianPoint { x: x3, y: y3, z: z3 }
}

/// Doubling on a curve with any `a`, for a point that is not at infinity.
pub open spec fn double_general(p: int, a: int, pt: JacobianPoint) -> JacobianPoint {
    let xx = fsquare(p, pt.x);
    let yy = fsquare(p, pt.y);
    let yyyy = fsquare(p, yy);
    let zz = fsquare(p, pt.z);
    let s = fdouble(p, fsub(p, fsub(p, fsquare(p, fadd(p, pt.x, yy)), xx), yyyy));
    let m = fadd(p, fadd(p, fdouble(p, xx), xx), fmul(p, a, fsquare(p, zz)));
    let t = fsub(p, fsquare(p, m), fdouble(p, s));
    let y3 = fsub(p, fmul(p, m, fsub(p, s, t)), foctuple(p, yyyy));
    let z3 = fsub(p, fsub(p, fsquare(p, fadd(p, pt.y, pt.z)), yy), zz);
    JacobianPoint { x: t, y: y3, z: z3 }
}

/// Twice a point. The point at infinity stays as it is; the formula is chosen
/// by whether the coefficient `a` of the curve is zero.
pub open spec fn double(p: int, a: int, pt: JacobianPoint) -> JacobianPoint {
    if pt.z == 0 {
        pt
    } else if a == 0 {
        double_a_zero(p, pt)
    } else {
        double_general(p, a, pt)
    }
}

/// The sum of a Jacobian point and an affine point that are both not at
/// infinity and are not the same point.
pub open spec fn add_mixed_distinct(p: int, lhs: JacobianPoint, rhs: AffinePoint) -> JacobianPoint {
    let z1z1 = fsquare(p, lhs.z);
    let u2 = fmul(p, rhs.x, z1z1);
    let s2 = fmul(p, fmul(p, rhs.y, lhs.z), z1z1);
    let h = fsub(p, u2, lhs.x);
    let hh = fsquare(p, h);
    let i = fdouble(p, fdouble(p, hh));
    let j = fmul(p, h, i);
    let r = fdouble(p, fsub(p, s2, lhs.y));
    let v = fmul(p, lhs.x, i);
    let x3 = fsub(p, fsub(p, fsquare(p, r), j), fdouble(p, v));
    let y3 = fsub(p, fmul(p, r, fsub(p, v, x3)), fmul(p, fdouble(p, lhs.y), j));
    let z3 = fsub(p, fsub(p, fsquare(p, fadd(p, lhs.z, h)), z1z1), hh);
    JacobianPoint { x: x3, y: y3, z: z3 }
}

/// The sum of a Jacobian point and an affine point.
pub open spec fn add_mixed(p: int, a: int, lhs: JacobianPoint, rhs: AffinePoint) -> JacobianPoint {
    if rhs.infinity {
        lhs
    } else if lhs.z == 0 {
        JacobianPoint { x: rhs.x, y: rhs.y, z: 1 }
    } else {
        let z1z1 = fsquare(p, lhs.z);
        let u2 = fmul(p, rhs.x, z1z1);
        let s2 = fmul(p, fmul(p, rhs.y, lhs.z), z1z1);
        if lhs.x == u2 && lhs.y == s2 {
            double(p, a, lhs)
        } else {
            add_mixed_distinct(p, lhs, rhs)
        }
    }
}

/// The sum of two Jacobian points that are both not at infinity and are not
/// the same point.
pub open spec fn add_distinct(p: int, lhs: JacobianPoint, rhs: JacobianPoint) -> JacobianPoint {
    let z1z1 = fsquare(p, lhs.z);
    let z2z2 = fsquare(p, rhs.z);
    let u1 = fmul(p, lhs.x, z2z2);
    let u2 = fmul(p, rhs.x, z1z1);
    let s1 = fmul(p, fmul(p, lhs.y, rhs.z), z2z2);
    let s2 = fmul(p, fmul(p, rhs.y, lhs.z), z1z1);
    let h = fsub(p, u2, u1);
    let i = fsquare(p, fdouble(p, h));
    let j = fmul(p, h, i);
    let r = fdouble(p, fsub(p, s2, s1));
    let v = fmul(p, u1, i);
    let x3 = fsub(p, fsub(p, fsquare(p, r), j), fdouble(p, v));
    let y3 = fsub(p, fmul(p, r, fsub(p, v, x3)), fmul(p, fdouble(p, s1), j));
    let z3 = fmul(p, fsub(p, fsub(p, fsquare(p, fadd(p, lhs.z, rhs.z)), z1z1), z2z2), h);
    JacobianPoint { x: x3, y: y3, z: z3 }
}

/// The sum of two Jacobian points.
pub open spec fn add_points(p: int, a: int, lhs: JacobianPoint, rhs: JacobianPoint) -> JacobianPoint {
    if lhs.z == 0 {
        rhs
    } else if rhs.z == 0 {
        lhs
    } else {
        let z1z1 = fsquare(p, lhs.z);
        let z2z2 = fsquare(p, rhs.z);
        let u1 = fmul(p, lhs.x, z2z2);
        let u2 = fmul(p, rhs.x, z1z1);
        let s1 = fmul(p, fmul(p, lhs.y, rhs.z), z2z2);
        let s2 = fmul(p, fmul(p, rhs.y, lhs.z), z1z1);
        if u1 == u2 && s1 == s2 {
            double(p, a, lhs)
        } else {
            add_distinct(p, lhs, rhs)
        }
    }
}

/// The difference of two Jacobian points.
pub open spec fn subtract(p: int, a: int, lhs: JacobianPoint, rhs: JacobianPoint) -> JacobianPoint {
    add_points(p, a, lhs, negate(p, rhs))
}

/// The Jacobian point that an affine point is lifted to: `Z = 1`, and the
/// canonical representative for the point at infinity.
pub open spec fn from_affine(pt: AffinePoint) -> JacobianPoint {
    if pt.infinity {
        identity()
    } else {
        JacobianPoint { x: pt.x, y: pt.y, z: 1 }
    }
}

/// The triple with `Z = 1` that stands for the same point: `(X / Z^2, Y / Z^3,
/// 1)`. A triple that is normalized already stays as it is.
pub open spec fn normalize(p: int, pt: JacobianPoint) -> JacobianPoint {
    if is_normalized(pt) {
        pt
    } else {
        let zinv = finv(p, pt.z);
        let zinv2 = fsquare(p, zinv);
        JacobianPoint { x: fmul(p, pt.x, zinv2), y: fmul(p, pt.y, fmul(p, zinv2, zinv)), z: 1 }
    }
}

/// The affine point that a triple stands for.
pub open spec fn to_affine(p: int, pt: JacobianPoint) -> AffinePoint {
    if pt.z == 0 {
        affine_identity()
    } else {
        let n = normalize(p, pt);
        AffinePoint { x: n.x, y: n.y, infinity: false }
    }
}

/// The right-hand side of the curve's equation at `x`: `x^3 + a * x + b`.
pub open spec fn curve_rhs(p: int, a: int, b: int, x: int) -> int {
    fadd(p, fadd(p, fmul(p, fsquare(p, x), x), fmul(p, a, x)), b)
}

/// Whether an affine point satisfies the curve's equation
/// `y^2 = x^3 + a * x + b`, or is the point at infinity.
pub open spec fn is_on_curve(p: int, a: int, b: int, pt: AffinePoint) -> bool {
    pt.infinity || fsquare(p, pt.y) == curve_rhs(p, a, b, pt.x)
}

/// Whether the curve `y^2 = x^3 + a * x + b` has no singular point: whether
/// its discriminant, which is `-16 * (4 * a^3 + 27 * b^2)`, is not zero.
pub open spec fn is_nonsingular(p: int, a: int, b: int) -> bool {
    (4 * (a * a * a) + 27 * (b * b)) % p != 0
}

/// Whether a triple stands for a point of the curve.
pub open spec fn lies_on_curve(p: int, a: int, b: int, pt: JacobianPoint) -> bool {
    is_on_curve(p, a, b, to_affine(p, pt))
}

/// The multiple of an affine point by the number whose bits from index
/// `from` on are given, least significant first: by doubling and adding from
/// the most significant bit down.
pub open spec fn double_and_add(
    p: int,
    a: int,
    pt: AffinePoint,
    bits: Seq<bool>,
    from: int,
) -> JacobianPoint
    decreases bits.len() - from,
{
    if from < 0 || from >= bits.len() {
        identity()
    } else {
        let doubled = double(p, a, double_and_add(p, a, pt, bits, from + 1));
        if bits[from] {
            add_mixed(p, a, doubled, pt)
        } else {
            doubled
        }
    }
}

} // verus!
