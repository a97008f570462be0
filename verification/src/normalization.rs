//! Batch normalization: many points brought to `Z = 1` with one inversion in
//! the field, by Montgomery's trick.
use crate::affine::Affine;
use crate::field::Field;
use crate::jacobian::{
    is_normalized, normalize, same_point, to_affine, AffinePoint, JacobianPoint,
};
use crate::laws::lemma_normalize;
use crate::modular::{
    finv, fmul, fsquare, is_prime, is_residue, lemma_congruent_residues, lemma_finv, lemma_fmul,
    lemma_inverse_unique, lemma_no_zero_divisors,
};
use crate::parameters::Parameters;
use crate::projective::Projective;
use vstd::arithmetic::div_mod::lemma_small_mod;
use vstd::prelude::*;

verus! {

/// What is left to do on a point whose `Z` was replaced by its inverse:
/// `(X * Z^2, Y * Z^3, 1)`. A normalized point stays as it is.
pub open spec fn apply_inverse(p: int, pt: JacobianPoint) -> JacobianPoint {
    if is_normalized(pt) {
        pt
    } else {
        let z2 = fsquare(p, pt.z);
        JacobianPoint { x: fmul(p, pt.x, z2), y: fmul(p, pt.y, fmul(p, z2, pt.z)), z: 1 }
    }
}

/// The point with its `Z` replaced by the inverse of `Z`. A normalized point
/// stays as it is.
pub open spec fn invert_z(p: int, pt: JacobianPoint) -> JacobianPoint {
    if is_normalized(pt) {
        pt
    } else {
        JacobianPoint { x: pt.x, y: pt.y, z: finv(p, pt.z) }
    }
}

/// The number of points among the first `n` that are not normalized.
pub open spec fn pending_count(pts: Seq<JacobianPoint>, n: int) -> nat
    decreases n,
{
    if n <= 0 {
        0
    } else {
        pending_count(pts, n - 1) + if is_normalized(pts[n - 1]) {
            0nat
        } else {
            1nat
        }
    }
}

/// The product of the `Z` of the points among the first `n` that are not
/// normalized.
pub open spec fn pending_product(p: int, pts: Seq<JacobianPoint>, n: int) -> int
    decreases n,
{
    if n <= 0 {
        1
    } else if is_normalized(pts[n - 1]) {
        pending_product(p, pts, n - 1)
    } else {
        fmul(p, pending_product(p, pts, n - 1), pts[n - 1].z)
    }
}

/// The models of a sequence of points.
pub open spec fn views<P: Parameters>(pts: Seq<Projective<P>>) -> Seq<JacobianPoint> {
    Seq::new(pts.len(), |i: int| pts[i]@)
}

/// The models of a sequence of affine points.
pub open spec fn affine_views<P: Parameters>(pts: Seq<Affine<P>>) -> Seq<AffinePoint> {
    Seq::new(pts.len(), |i: int| pts[i]@)
}

/// The product of the pending `Z` is a nonzero residue, and it is one where
/// no point is pending.
proof fn lemma_pending_product(p: int, pts: Seq<JacobianPoint>, n: int)
    requires
        is_prime(p),
        0 <= n <= pts.len(),
        forall|j: int| 0 <= j < pts.len() ==> 0 <= (#[trigger] pts[j]).z < p,
    ensures
        0 < pending_product(p, pts, n) < p,
        pending_count(pts, n) == 0 ==> pending_product(p, pts, n) == 1,
    decreases n,
{
    if n > 0 {
        lemma_pending_product(p, pts, n - 1);
        if !is_normalized(pts[n - 1]) {
            lemma_no_zero_divisors(p, pending_product(p, pts, n - 1), pts[n - 1].z);
            lemma_fmul(
                p,
                pending_product(p, pts, n - 1),
                pending_product(p, pts, n - 1),
                pts[n - 1].z,
                pts[n - 1].z,
            );
        }
    }
}

/// One step backwards through the pending points: from the inverse of the
/// product up to a point, the inverse of the point's `Z` and the inverse of
/// the product before it.
proof fn lemma_inverse_step(p: int, tmp: int, before: int, z: int)
    requires
        is_prime(p),
        is_residue(p, tmp),
        is_residue(p, before),
        0 < z < p,
        fmul(p, tmp, fmul(p, before, z)) == 1,
    ensures
        fmul(p, tmp, before) == finv(p, z),
        fmul(p, fmul(p, tmp, z), before) == 1,
{
    lemma_fmul(p, before, before, z, z);
    lemma_fmul(p, tmp, tmp, fmul(p, before, z), before * z);
    lemma_fmul(p, tmp, tmp, before, before);
    lemma_fmul(p, z, z, fmul(p, tmp, before), tmp * before);
    lemma_fmul(p, tmp, tmp, z, z);
    lemma_fmul(p, fmul(p, tmp, z), tmp * z, before, before);
    assert(tmp * (before * z) == z * (tmp * before) && tmp * (before * z) == (tmp * z) * before)
        by (nonlinear_arith);
    assert(1int % p == 1) by {
        lemma_small_mod(1, p as nat);
    }
    lemma_congruent_residues(p, fmul(p, z, fmul(p, tmp, before)), 1);
    lemma_congruent_residues(p, fmul(p, fmul(p, tmp, z), before), 1);
    lemma_finv(p, z);
    lemma_inverse_unique(p, z, fmul(p, tmp, before), finv(p, z));
}

/// The inverse of a residue other than zero and one is neither zero nor one.
proof fn lemma_inverse_not_trivial(p: int, z: int)
    requires
        is_prime(p),
        1 < z < p,
    ensures
        1 < finv(p, z) < p,
{
    lemma_finv(p, z);
    if finv(p, z) == 1 {
        assert(z * 1 == z);
        lemma_small_mod(z as nat, p as nat);
    }
}

impl<P: Parameters> Projective<P> {
    /// Replaces the `Z` of every point that is not normalized by its
    /// inverse, with one inversion in the field for all of them.
    pub fn batch_inversion(v: &mut [Self])
        ensures
            final(v)@.len() == old(v)@.len(),
            forall|i: int|
                0 <= i < old(v)@.len() ==> (#[trigger] final(v)@[i])@ == invert_z(
                    P::BaseField::modulus(),
                    old(v)@[i]@,
                ),
    {
        // Montgomery's Trick and Fast Implementation of Masked AES
        // Genelle, Prouff and Quisquater
        // Section 3.2
        let ghost p = P::BaseField::modulus();
        let ghost before = v@;
        let ghost pts = views(v@);
        proof {
            P::BaseField::lemma_modulus_prime();
            assert forall|j: int| 0 <= j < pts.len() implies 0 <= (#[trigger] pts[j]).z < p by {
                before[j].z.lemma_value_is_residue();
            }
        }
        let n = v.len();

        // First pass: compute [a, ab, abc, ...]
        let mut prod: Vec<P::BaseField> = Vec::with_capacity(n);
        let mut tmp = P::BaseField::one();
        let mut i: usize = 0;
        while i < n
            invariant
                i <= n,
                n == before.len(),
                v@ == before,
                pts == views(before),
                p == P::BaseField::modulus(),
                is_prime(p),
                forall|j: int| 0 <= j < pts.len() ==> 0 <= (#[trigger] pts[j]).z < p,
                prod@.len() == pending_count(pts, i as int),
                tmp.value() == pending_product(p, pts, i as int),
                forall|j: int|
                    0 <= j <= i && #[trigger] pending_count(pts, j) >= 1 ==> pending_count(pts, j)
                        <= prod@.len() && prod@[pending_count(pts, j) - 1].value()
                        == pending_product(p, pts, j),
            decreases n - i,
        {
            let ghost partial = prod@;
            assert(pts[i as int] == before[i as int]@);
            // Ignore normalized elements
            if !v[i].is_normalized() {
                tmp = tmp.mul(&v[i].z);
                prod.push(tmp);
            }
            assert forall|j: int|
                0 <= j <= i + 1 && #[trigger] pending_count(pts, j) >= 1 implies pending_count(
                pts,
                j,
            ) <= prod@.len() && prod@[pending_count(pts, j) - 1].value() == pending_product(
                p,
                pts,
                j,
            ) by {
                if j <= i {
                    assert(prod@[pending_count(pts, j) - 1] == partial[pending_count(pts, j) - 1]);
                } else if is_normalized(pts[i as int]) {
                    assert(pending_count(pts, i as int) >= 1);
                }
            }
            i += 1;
        }

        // Invert `tmp`.
        proof {
            lemma_pending_product(p, pts, n as int);
        }
        tmp = tmp.inverse().unwrap();  // Guaranteed to be nonzero.
        proof {
            lemma_finv(p, pending_product(p, pts, n as int));
            assert(pending_product(p, pts, n as int) * tmp.value() == tmp.value()
                * pending_product(p, pts, n as int)) by (nonlinear_arith);
        }

        // Second pass: iterate backwards to compute inverses
        let mut k: usize = prod.len();
        while i > 0
            invariant
                i <= n,
                n == before.len(),
                v@.len() == n,
                pts == views(before),
                p == P::BaseField::modulus(),
                is_prime(p),
                forall|j: int| 0 <= j < pts.len() ==> 0 <= (#[trigger] pts[j]).z < p,
                k == pending_count(pts, i as int),
                k <= prod@.len(),
                is_residue(p, tmp.value()),
                fmul(p, tmp.value(), pending_product(p, pts, i as int)) == 1,
                forall|j: int|
                    0 <= j <= n && #[trigger] pending_count(pts, j) >= 1 ==> pending_count(pts, j)
                        <= prod@.len() && prod@[pending_count(pts, j) - 1].value()
                        == pending_product(p, pts, j),
                forall|j: int| 0 <= j < i ==> v@[j] == before[j],
                forall|j: int| i <= j < n ==> (#[trigger] v@[j])@ == invert_z(p, before[j]@),
            decreases i,
        {
            i -= 1;
            let ghost cur = v@;
            assert(pts[i as int] == before[i as int]@);
            // Ignore normalized elements
            if !v[i].is_normalized() {
                k -= 1;
                // Backwards, skip last element, fill in one for last term.
                let s = if k == 0 {
                    P::BaseField::one()
                } else {
                    prod[k - 1]
                };
                proof {
                    lemma_pending_product(p, pts, i as int);
                    lemma_inverse_step(
                        p,
                        tmp.value(),
                        pending_product(p, pts, i as int),
                        pts[i as int].z,
                    );
                }
                // tmp := tmp * g.z; g.z := tmp * s = 1/z
                let mut g = v[i];
                let newtmp = tmp.mul(&g.z);
                g.z = tmp.mul(&s);
                v[i] = g;
                tmp = newtmp;
                proof {
                    tmp.lemma_value_is_residue();
                }
            }
            assert forall|j: int| i <= j < n implies (#[trigger] v@[j])@ == invert_z(
                p,
                before[j]@,
            ) by {
                if j > i {
                    assert(v@[j] == cur[j]);
                }
            }
        }
    }

    /// Finishes the normalization of a point whose `Z` holds the inverse of
    /// what it was: `(X * Z^2, Y * Z^3, 1)`. A normalized point stays as it
    /// is.
    pub fn apply_inverse(&mut self)
        ensures
            final(self)@ == apply_inverse(P::BaseField::modulus(), old(self)@),
    {
        if !self.is_normalized() {
            let z2 = self.z.square();  // 1/z
            self.x = self.x.mul(&z2);  // x/z^2
            self.y = self.y.mul(&z2.mul(&self.z));  // y/z^3
            self.z = P::BaseField::one();  // z = 1
        }
    }

    /// Normalizes every point of the slice: each gets `Z = 1` and stands for
    /// the same point as before, and a point that is at infinity or has
    /// `Z = 1` already stays as it is. One inversion in the field serves all
    /// points.
    pub fn batch_normalization(v: &mut [Self])
        ensures
            final(v)@.len() == old(v)@.len(),
            forall|i: int|
                0 <= i < old(v)@.len() ==> (#[trigger] final(v)@[i])@ == normalize(
                    P::BaseField::modulus(),
                    old(v)@[i]@,
                ),
            forall|i: int|
                0 <= i < old(v)@.len() ==> is_normalized((#[trigger] final(v)@[i])@) && same_point(
                    P::BaseField::modulus(),
                    old(v)@[i]@,
                    final(v)@[i]@,
                ),
    {
        let ghost p = P::BaseField::modulus();
        let ghost before = v@;
        proof {
            assert forall|i: int| 0 <= i < before.len() implies is_normalized(
                normalize(p, #[trigger] before[i]@),
            ) && same_point(p, before[i]@, normalize(p, before[i]@)) by {
                before[i].lemma_view_is_point();
                lemma_normalize(p, before[i]@);
            }
        }
        Self::batch_inversion(v);
        let ghost inverted = v@;
        let n = v.len();
        let mut i: usize = 0;
        // Perform affine transformations
        while i < n
            invariant
                i <= n,
                n == before.len(),
                v@.len() == n,
                inverted.len() == n,
                p == P::BaseField::modulus(),
                forall|j: int| 0 <= j < n ==> (#[trigger] inverted[j])@ == invert_z(p, before[j]@),
                forall|j: int| i <= j < n ==> v@[j] == inverted[j],
                forall|j: int| 0 <= j < i ==> (#[trigger] v@[j])@ == normalize(p, before[j]@),
            decreases n - i,
        {
            let ghost cur = v@;
            let mut g = v[i];
            g.apply_inverse();
            v[i] = g;
            proof {
                P::BaseField::lemma_modulus_prime();
                before[i as int].z.lemma_value_is_residue();
                assert(inverted[i as int]@ == invert_z(p, before[i as int]@));
                if !is_normalized(before[i as int]@) {
                    lemma_inverse_not_trivial(p, before[i as int]@.z);
                }
                assert forall|j: int| 0 <= j < i + 1 implies (#[trigger] v@[j])@ == normalize(
                    p,
                    before[j]@,
                ) by {
                    if j < i {
                        assert(v@[j] == cur[j]);
                    }
                }
            }
            i += 1;
        }
    }

    /// Normalizes the points and hands them out in affine coordinates.
    pub fn batch_normalization_into_affine(v: Vec<Self>) -> (r: Vec<Affine<P>>)
        ensures
            r@.len() == v@.len(),
            forall|i: int|
                0 <= i < v@.len() ==> (#[trigger] r@[i])@ == to_affine(
                    P::BaseField::modulus(),
                    v@[i]@,
                ),
    {
        let ghost before = v@;
        let ghost p = P::BaseField::modulus();
        let mut v = v;
        Self::batch_normalization(v.as_mut_slice());
        let mut r: Vec<Affine<P>> = Vec::with_capacity(v.len());
        let mut i: usize = 0;
        while i < v.len()
            invariant
                i <= v@.len(),
                v@.len() == before.len(),
                r@.len() == i,
                p == P::BaseField::modulus(),
                forall|j: int| 0 <= j < v@.len() ==> (#[trigger] v@[j])@ == normalize(p, before[j]@),
                forall|j: int| 0 <= j < i ==> (#[trigger] r@[j])@ == to_affine(p, before[j]@),
            decreases v@.len() - i,
        {
            let ghost partial = r@;
            r.push(v[i].to_affine());
            proof {
                assert(v@[i as int]@ == normalize(p, before[i as int]@));
                assert forall|j: int| 0 <= j < i + 1 implies (#[trigger] r@[j])@ == to_affine(
                    p,
                    before[j]@,
                ) by {
                    if j < i {
                        assert(r@[j] == partial[j]);
                    }
                }
            }
            i += 1;
        }
        r
    }
}

} // verus!
