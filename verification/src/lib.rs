//! Short Weierstrass curves in Jacobian coordinates: the group law, batch
//! normalization, scalar multiplication by endomorphism and windowed
//! non-adjacent form, and the byte encoding of points; with the proofs that
//! the formulas compute the group law of the curve, that this law is the law
//! of an abelian group, and that scalar multiplication multiplies.
//!
//! The arithmetic is generic over the fields and the parameters of the curve
//! (`field`, `parameters`); `m31` holds two curves over the field of
//! `2^31 - 1` elements, with every obligation proved, and `m31_subgroup`
//! shows that their generators lie in the subgroups of prime order.
//!
//! What is computed: `projective` and `affine` (the points and the group
//! operations), `normalization`, `glv` and `wnaf` (scalar multiplication),
//! `encoding`, `biginteger` and `word`.
//!
//! What is proved of it: `jacobian` states the formulas over residues;
//! `laws` holds what is true of every triple of residues; `chord_tangent`
//! shows that the formulas are the chord and the tangent; `on_curve`,
//! `cancellation`, `associativity` and `multiples` make the points of the
//! curve an abelian group; `endomorphism` and `multiplication` show what
//! scalar multiplication computes. `modular`, `polynomial` and `identities`
//! carry the algebra.
pub mod affine;
pub mod associativity;
pub mod biginteger;
pub mod cancellation;
pub mod chord_tangent;
pub mod encoding;
pub mod endomorphism;
pub mod field;
pub mod glv;
pub mod identities;
pub mod jacobian;
pub mod laws;
pub mod m31;
pub mod m31_subgroup;
pub mod modular;
pub mod multiples;
pub mod multiplication;
pub mod normalization;
pub mod on_curve;
pub mod parameters;
pub mod polynomial;
pub mod projective;
pub mod wnaf;
pub mod word;
