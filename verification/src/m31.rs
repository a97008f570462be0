//! Two curves over the field of `2^31 - 1` elements, small enough for every
//! fact about their fields to be proved here.
//!
//! `y^2 = x^3 + 5` has 13 times 165188041 points and the endomorphism
//! `(x, y) -> (beta * x, y)`, where `beta` is a cube root of unity; on the
//! subgroup of prime order it multiplies by `lambda`, a cube root of unity
//! modulo 165188041. `y^2 = x^3 + 29 * x + 1948768455` has as many points and
//! no such endomorphism: its scalars are not split.
use crate::affine::Affine;
use crate::biginteger::BigInteger;
use crate::field::{Field, PrimeField, ReadError, SquareRootField};
use crate::identities::cubic;
use crate::associativity::is_curve_point;
use crate::jacobian::{affine_identity, curve_rhs, is_on_curve, AffinePoint};
use crate::multiples::{lemma_multiple_is_curve_point, lemma_small_multiples, multiple, times};
use crate::multiplication::{endomorphism_multiplies, in_subgroup};
use crate::on_curve::lemma_curve_rhs;
use crate::modular::{
    congruent, fmul, fsquare, is_prime, lemma_congruent_residues, lemma_congruent_shift,
    lemma_fmul, lemma_rewrite,
};
use crate::parameters::{sign_of, Parameters};
use crate::word::{
    add_mod, encode_word, fpow, inv_mod, lemma_encode_word, lemma_fpow_is_residue,
    lemma_prime_by_trial_division, mul_mod, neg_mod, pow_mod, read_word, sub_mod, write_word,
};
use vstd::arithmetic::div_mod::{lemma_mod_bound, lemma_small_mod};
use vstd::prelude::*;

verus! {

/// The number of elements of the base field: `2^31 - 1`.
pub const FQ_MODULUS: u64 = 2147483647;

/// The number of elements of the scalar field: the prime order of the
/// subgroup that both curves have.
pub const FR_MODULUS: u64 = 165188041;

/// The cube root of unity in the base field that the endomorphism multiplies
/// `x` by.
pub const BETA: u64 = 1513477735;

/// The scalar that the endomorphism multiplies by: a cube root of unity in
/// the scalar field.
pub const LAMBDA: u64 = 52238662;

#[verifier::rlimit(100)]
proof fn lemma_fq_trial_division(d: u32)
    requires
        2 <= d < 46341,
    ensures
        2147483647u32 % d != 0,
{
    assert(2 <= d < 46341u32 ==> 2147483647u32 % d != 0) by (bit_vector);
}

#[verifier::rlimit(100)]
proof fn lemma_fr_trial_division(d: u32)
    requires
        2 <= d < 12853,
    ensures
        165188041u32 % d != 0,
{
    assert(2 <= d < 12853u32 ==> 165188041u32 % d != 0) by (bit_vector);
}

/// `2^31 - 1` is prime.
pub proof fn lemma_fq_modulus_prime()
    ensures
        is_prime(FQ_MODULUS as int),
{
    assert forall|d: int| 2 <= d < 46341 implies #[trigger] (2147483647int % d) != 0 by {
        lemma_fq_trial_division(d as u32);
    }
    lemma_prime_by_trial_division(2147483647, 46341);
}

/// 165188041 is prime.
pub proof fn lemma_fr_modulus_prime()
    ensures
        is_prime(FR_MODULUS as int),
{
    assert forall|d: int| 2 <= d < 12853 implies #[trigger] (165188041int % d) != 0 by {
        lemma_fr_trial_division(d as u32);
    }
    lemma_prime_by_trial_division(165188041, 12853);
}

/// An element of the field of `2^31 - 1` elements.
#[derive(Clone, Copy, Debug, PartialEq, Eq, Hash)]
pub struct Fq {
    v: u64,
}

impl Fq {
    #[verifier::type_invariant]
    spec fn well_formed(self) -> bool {
        self.v < FQ_MODULUS
    }

    /// The element that the integer `v` stands for.
    pub fn new(v: u64) -> (r: Self)
        ensures
            r.value() == v as int % (FQ_MODULUS as int),
    {
        proof {
            lemma_mod_bound(v as int, FQ_MODULUS as int);
            lemma_small_mod((v % FQ_MODULUS) as nat, FQ_MODULUS as nat);
        }
        Fq { v: v % FQ_MODULUS }
    }

    /// The canonical residue.
    pub fn to_u64(&self) -> (r: u64)
        ensures
            r == self.value(),
    {
        proof {
            use_type_invariant(self);
            lemma_small_mod(self.v as nat, FQ_MODULUS as nat);
        }
        self.v
    }
}

impl Field for Fq {
    open spec fn modulus() -> int {
        FQ_MODULUS as int
    }

    closed spec fn value(&self) -> int {
        self.v as int % (FQ_MODULUS as int)
    }

    open spec fn byte_size() -> nat {
        8
    }

    open spec fn encode(v: int) -> Seq<u8> {
        encode_word(v)
    }

    proof fn lemma_modulus_prime() {
        lemma_fq_modulus_prime();
    }

    proof fn lemma_value_is_residue(&self) {
        lemma_mod_bound(self.v as int, FQ_MODULUS as int);
    }

    proof fn lemma_encode(v: int, w: int) {
        lemma_encode_word(v, w);
    }

    fn zero() -> (r: Self) {
        Fq::new(0)
    }

    fn one() -> (r: Self) {
        Fq::new(1)
    }

    fn is_zero(&self) -> (b: bool) {
        self.to_u64() == 0
    }

    fn is_one(&self) -> (b: bool) {
        self.to_u64() == 1
    }

    fn equals(&self, other: &Self) -> (b: bool) {
        self.to_u64() == other.to_u64()
    }

    fn less_than(&self, other: &Self) -> (b: bool) {
        self.to_u64() < other.to_u64()
    }

    fn add(&self, other: &Self) -> (r: Self) {
        Fq::new(add_mod(self.to_u64(), other.to_u64(), FQ_MODULUS))
    }

    fn sub(&self, other: &Self) -> (r: Self) {
        Fq::new(sub_mod(self.to_u64(), other.to_u64(), FQ_MODULUS))
    }

    fn mul(&self, other: &Self) -> (r: Self) {
        Fq::new(mul_mod(self.to_u64(), other.to_u64(), FQ_MODULUS))
    }

    fn neg(&self) -> (r: Self) {
        Fq::new(neg_mod(self.to_u64(), FQ_MODULUS))
    }

    fn square(&self) -> (r: Self) {
        Fq::new(mul_mod(self.to_u64(), self.to_u64(), FQ_MODULUS))
    }

    fn double(&self) -> (r: Self) {
        Fq::new(add_mod(self.to_u64(), self.to_u64(), FQ_MODULUS))
    }

    fn inverse(&self) -> (r: Option<Self>) {
        if self.is_zero() {
            None
        } else {
            proof {
                lemma_fq_modulus_prime();
            }
            Some(Fq::new(inv_mod(self.to_u64(), FQ_MODULUS)))
        }
    }

    fn serialized_size() -> (n: usize) {
        8
    }

    fn write_le(&self, out: &mut Vec<u8>) {
        write_word(self.to_u64(), out);
    }

    fn read_le(bytes: &[u8], start: usize) -> (r: Result<Self, ReadError>) {
        match read_word(bytes, start, FQ_MODULUS) {
            Ok(v) => Ok(Fq::new(v)),
            Err(e) => Err(e),
        }
    }
}

impl SquareRootField for Fq {
    /// The modulus leaves the remainder three modulo four, so that a square
    /// has the root `v^((p + 1) / 4)`.
    open spec fn sqrt_spec(v: int) -> Option<int> {
        let root = fpow(FQ_MODULUS as int, v, 536870912);
        if fsquare(FQ_MODULUS as int, root) == v {
            Some(root)
        } else {
            None
        }
    }

    proof fn lemma_sqrt(v: int) {
        lemma_fpow_is_residue(FQ_MODULUS as int, v, 536870912);
    }

    fn sqrt(&self) -> (r: Option<Self>) {
        let root = pow_mod(self.to_u64(), 536870912, FQ_MODULUS);
        if mul_mod(root, root, FQ_MODULUS) == self.to_u64() {
            Some(Fq::new(root))
        } else {
            None
        }
    }
}

/// An element of the field of 165188041 elements, the scalars of both curves.
#[derive(Clone, Copy, Debug, PartialEq, Eq, Hash)]
pub struct Fr {
    v: u64,
}

impl Fr {
    #[verifier::type_invariant]
    spec fn well_formed(self) -> bool {
        self.v < FR_MODULUS
    }

    /// The element that the integer `v` stands for.
    pub fn new(v: u64) -> (r: Self)
        ensures
            r.value() == v as int % (FR_MODULUS as int),
    {
        proof {
            lemma_mod_bound(v as int, FR_MODULUS as int);
            lemma_small_mod((v % FR_MODULUS) as nat, FR_MODULUS as nat);
        }
        Fr { v: v % FR_MODULUS }
    }

    /// The canonical residue.
    pub fn to_u64(&self) -> (r: u64)
        ensures
            r == self.value(),
    {
        proof {
            use_type_invariant(self);
            lemma_small_mod(self.v as nat, FR_MODULUS as nat);
        }
        self.v
    }
}

impl Field for Fr {
    open spec fn modulus() -> int {
        FR_MODULUS as int
    }

    closed spec fn value(&self) -> int {
        self.v as int % (FR_MODULUS as int)
    }

    open spec fn byte_size() -> nat {
        8
    }

    open spec fn encode(v: int) -> Seq<u8> {
        encode_word(v)
    }

    proof fn lemma_modulus_prime() {
        lemma_fr_modulus_prime();
    }

    proof fn lemma_value_is_residue(&self) {
        lemma_mod_bound(self.v as int, FR_MODULUS as int);
    }

    proof fn lemma_encode(v: int, w: int) {
        lemma_encode_word(v, w);
    }

    fn zero() -> (r: Self) {
        Fr::new(0)
    }

    fn one() -> (r: Self) {
        Fr::new(1)
    }

    fn is_zero(&self) -> (b: bool) {
        self.to_u64() == 0
    }

    fn is_one(&self) -> (b: bool) {
        self.to_u64() == 1
    }

    fn equals(&self, other: &Self) -> (b: bool) {
        self.to_u64() == other.to_u64()
    }

    fn less_than(&self, other: &Self) -> (b: bool) {
        self.to_u64() < other.to_u64()
    }

    fn add(&self, other: &Self) -> (r: Self) {
        Fr::new(add_mod(self.to_u64(), other.to_u64(), FR_MODULUS))
    }

    fn sub(&self, other: &Self) -> (r: Self) {
        Fr::new(sub_mod(self.to_u64(), other.to_u64(), FR_MODULUS))
    }

    fn mul(&self, other: &Self) -> (r: Self) {
        Fr::new(mul_mod(self.to_u64(), other.to_u64(), FR_MODULUS))
    }

    fn neg(&self) -> (r: Self) {
        Fr::new(neg_mod(self.to_u64(), FR_MODULUS))
    }

    fn square(&self) -> (r: Self) {
        Fr::new(mul_mod(self.to_u64(), self.to_u64(), FR_MODULUS))
    }

    fn double(&self) -> (r: Self) {
        Fr::new(add_mod(self.to_u64(), self.to_u64(), FR_MODULUS))
    }

    fn inverse(&self) -> (r: Option<Self>) {
        if self.is_zero() {
            None
        } else {
            proof {
                lemma_fr_modulus_prime();
            }
            Some(Fr::new(inv_mod(self.to_u64(), FR_MODULUS)))
        }
    }

    fn serialized_size() -> (n: usize) {
        8
    }

    fn write_le(&self, out: &mut Vec<u8>) {
        write_word(self.to_u64(), out);
    }

    fn read_le(bytes: &[u8], start: usize) -> (r: Result<Self, ReadError>) {
        match read_word(bytes, start, FR_MODULUS) {
            Ok(v) => Ok(Fr::new(v)),
            Err(e) => Err(e),
        }
    }
}

impl PrimeField for Fr {
    fn to_repr(&self) -> (r: BigInteger) {
        BigInteger::from_u64(self.to_u64())
    }
}

/// The two halves of a scalar, with their signs: `k - c1 * 9749 - c2 * 4816`
/// and `c1 * 4816 - c2 * 14565`, where `c1` and `c2` are `14565 * k` and
/// `4816 * k` divided by the order and rounded. The vectors `(9749, -4816)`
/// and `(4816, 14565)` span the lattice of the pairs `(x, y)` with
/// `x + y * lambda = 0` modulo the order.
pub open spec fn split(k: int) -> (int, int) {
    let c1 = (14565 * k + 82594020) / 165188041;
    let c2 = (4816 * k + 82594020) / 165188041;
    (k - c1 * 9749 - c2 * 4816, c1 * 4816 - c2 * 14565)
}

/// The absolute value.
pub open spec fn abs(v: int) -> int {
    if v < 0 {
        -v
    } else {
        v
    }
}

/// The two halves of a scalar are congruent to it, taken together.
proof fn lemma_split(k: int)
    ensures
        congruent(FR_MODULUS as int, k, split(k).0 + split(k).1 * (LAMBDA as int)),
{
    let r = FR_MODULUS as int;
    let c1 = (14565 * k + 82594020) / 165188041;
    let c2 = (4816 * k + 82594020) / 165188041;
    // 9749 - 4816 * lambda = -1523 * r and 4816 + 14565 * lambda = 4606 * r
    assert(split(k).0 + split(k).1 * 52238662 == k + (c1 * 1523 - c2 * 4606) * r)
        by (nonlinear_arith)
        requires
            r == 165188041,
            split(k).0 == k - c1 * 9749 - c2 * 4816,
            split(k).1 == c1 * 4816 - c2 * 14565,
    ;
    lemma_congruent_shift(r, k, c1 * 1523 - c2 * 4606);
}

/// The curve `y^2 = x^3 + 5` over the field of `2^31 - 1` elements.
#[derive(Clone, Copy, Debug)]
pub struct M31Parameters {}

impl Parameters for M31Parameters {
    type BaseField = Fq;

    type ScalarField = Fr;

    open spec fn a() -> int {
        0
    }

    open spec fn b() -> int {
        5
    }

    open spec fn cofactor_spec() -> nat {
        13
    }

    open spec fn generator_spec() -> (int, int) {
        (2051576885, 897205941)
    }

    open spec fn endomorphism(pt: AffinePoint) -> AffinePoint {
        AffinePoint { x: fmul(FQ_MODULUS as int, BETA as int, pt.x), y: pt.y, infinity: pt.infinity }
    }

    open spec fn lambda() -> int {
        LAMBDA as int
    }

    open spec fn decompose_spec(k: int) -> (int, int, bool, bool) {
        let halves = split(k);
        if abs(halves.0) < FR_MODULUS && abs(halves.1) < FR_MODULUS {
            (abs(halves.0), abs(halves.1), halves.0 < 0, halves.1 >= 0)
        } else {
            (k, 0, false, true)
        }
    }

    proof fn lemma_decompose(k: int) {
        let halves = split(k);
        lemma_split(k);
        if abs(halves.0) < FR_MODULUS && abs(halves.1) < FR_MODULUS {
            assert(sign_of(!(halves.0 < 0)) * abs(halves.0) + sign_of(halves.1 >= 0) * abs(
                halves.1,
            ) * (LAMBDA as int) == halves.0 + halves.1 * (LAMBDA as int)) by (nonlinear_arith);
        } else {
            assert(sign_of(true) * k + sign_of(true) * 0 * (LAMBDA as int) == k)
                by (nonlinear_arith);
        }
    }

    proof fn lemma_decompose_small() {
    }

    proof fn lemma_curve() {
        assert((4 * (0int * 0 * 0) + 27 * (5int * 5)) % 2147483647 == 675);
    }

    proof fn lemma_generator() {
        assert(897205941int * 897205941 % 2147483647 == 6501206);
        assert(2051576885int * 2051576885 % 2147483647 == 745526950);
        assert(745526950int * 2051576885 % 2147483647 == 6501201);
        assert(0int * 2051576885 % 2147483647 == 0);
        assert((6501201int + 0) % 2147483647 == 6501201);
        assert((6501201int + 5) % 2147483647 == 6501206);
    }

    proof fn lemma_endomorphism(pt: AffinePoint) {
        let p = FQ_MODULUS as int;
        let beta = BETA as int;
        lemma_mod_bound(beta * pt.x, p);
        if !pt.infinity && is_on_curve(p, 0, 5, pt) {
            // (beta * x)^3 = beta^3 * x^3 = x^3
            let x = pt.x;
            let image = fmul(p, beta, x);
            lemma_fmul(p, beta, beta, x, x);
            lemma_curve_rhs(p, 0, 5, image, beta * x);
            lemma_curve_rhs(p, 0, 5, x, x);
            let cube = beta * beta * beta;
            assert(cube % p == 1) by {
                assert(1513477735int * 1513477735 * 1513477735 % 2147483647 == 1);
            }
            lemma_small_mod(1, p as nat);
            assert(cubic(0, 5, beta * x) - cubic(0, 5, x) == ((x * x) * x) * (cube - 1))
                by (nonlinear_arith)
                requires
                    cube == beta * beta * beta,
                    cubic(0, 5, beta * x) == ((beta * x) * (beta * x)) * (beta * x) + 0 * (beta
                        * x) + 5,
                    cubic(0, 5, x) == (x * x) * x + 0 * x + 5,
            ;
            lemma_rewrite(p, cubic(0, 5, beta * x), cubic(0, 5, x), (x * x) * x, cube, 1);
            lemma_congruent_residues(p, curve_rhs(p, 0, 5, image), curve_rhs(p, 0, 5, x));
        }
    }

    fn weierstrass_a() -> (r: Fq) {
        Fq::new(0)
    }

    fn weierstrass_b() -> (r: Fq) {
        Fq::new(5)
    }

    fn cofactor() -> (r: BigInteger) {
        BigInteger::from_u64(13)
    }

    fn generator_coordinates() -> (r: (Fq, Fq)) {
        (Fq::new(2051576885), Fq::new(897205941))
    }

    fn mul_by_a(elem: &Fq) -> (r: Fq) {
        Self::weierstrass_a().mul(elem)
    }

    fn decompose(k: &Fr) -> (r: (Fr, Fr, bool, bool)) {
        proof {
            k.lemma_value_is_residue();
        }
        let k = k.to_u64() as i64;
        assert(0 <= k < 165188041);
        let c1 = (14565 * k + 82594020) / 165188041;
        let c2 = (4816 * k + 82594020) / 165188041;
        assert(0 <= c1 <= 14565 && 0 <= c2 <= 4816);
        assert(0 <= c1 * 9749 <= 141994185 && 0 <= c2 * 4816 <= 23193856);
        assert(0 <= c1 * 4816 <= 70145040 && 0 <= c2 * 14565 <= 70145040);
        let h1 = k - c1 * 9749 - c2 * 4816;
        let h2 = c1 * 4816 - c2 * 14565;
        let a1 = if h1 < 0 {
            -h1
        } else {
            h1
        };
        let a2 = if h2 < 0 {
            -h2
        } else {
            h2
        };
        if a1 < 165188041 && a2 < 165188041 {
            (Fr::new(a1 as u64), Fr::new(a2 as u64), h1 < 0, h2 >= 0)
        } else {
            (Fr::new(k as u64), Fr::new(0), false, true)
        }
    }

    fn glv_endomorphism(pt: Affine<Self>) -> (r: Affine<Self>) {
        Affine { x: Fq::new(BETA).mul(&pt.x), y: pt.y, infinity: pt.infinity }
    }
}

/// The curve `y^2 = x^3 + 29 * x + 1948768455` over the field of `2^31 - 1`
/// elements. Its endomorphism is the identity, and a scalar is its own first
/// half.
#[derive(Clone, Copy, Debug)]
pub struct M31IsogenousParameters {}

impl Parameters for M31IsogenousParameters {
    type BaseField = Fq;

    type ScalarField = Fr;

    open spec fn a() -> int {
        29
    }

    open spec fn b() -> int {
        1948768455
    }

    open spec fn cofactor_spec() -> nat {
        13
    }

    open spec fn generator_spec() -> (int, int) {
        (172902292, 1003529148)
    }

    open spec fn endomorphism(pt: AffinePoint) -> AffinePoint {
        pt
    }

    open spec fn lambda() -> int {
        1
    }

    open spec fn decompose_spec(k: int) -> (int, int, bool, bool) {
        (k, 0, false, true)
    }

    proof fn lemma_decompose(k: int) {
        assert(sign_of(true) * k + sign_of(true) * 0 * 1 == k) by (nonlinear_arith);
    }

    proof fn lemma_decompose_small() {
    }

    proof fn lemma_curve() {
        assert((4 * (29int * 29 * 29) + 27 * (1948768455int * 1948768455)) % 2147483647 == 391253323);
    }

    proof fn lemma_generator() {
        assert(1003529148int * 1003529148 % 2147483647 == 1043111190);
        assert(172902292int * 172902292 % 2147483647 == 1124587678);
        assert(1124587678int * 172902292 % 2147483647 == 522627208);
        assert(29int * 172902292 % 2147483647 == 719199174);
        assert((522627208int + 719199174) % 2147483647 == 1241826382);
        assert((1241826382int + 1948768455) % 2147483647 == 1043111190);
    }

    proof fn lemma_endomorphism(pt: AffinePoint) {
    }

    fn weierstrass_a() -> (r: Fq) {
        Fq::new(29)
    }

    fn weierstrass_b() -> (r: Fq) {
        Fq::new(1948768455)
    }

    fn cofactor() -> (r: BigInteger) {
        BigInteger::from_u64(13)
    }

    fn generator_coordinates() -> (r: (Fq, Fq)) {
        (Fq::new(172902292), Fq::new(1003529148))
    }

    fn mul_by_a(elem: &Fq) -> (r: Fq) {
        Self::weierstrass_a().mul(elem)
    }

    fn decompose(k: &Fr) -> (r: (Fr, Fr, bool, bool)) {
        (*k, Fr::new(0), false, true)
    }

    fn glv_endomorphism(pt: Affine<Self>) -> (r: Affine<Self>) {
        pt
    }
}

/// On the curve whose endomorphism is the identity, the subgroup holds
/// every point of the curve whose multiple by the order of the subgroup is
/// the point at infinity.
pub proof fn lemma_isogenous_subgroup(pt: AffinePoint)
    requires
        is_curve_point(FQ_MODULUS as int, 29, 1948768455, pt),
        times(FQ_MODULUS as int, 29, FR_MODULUS as int, pt) == affine_identity(),
    ensures
        in_subgroup::<M31IsogenousParameters>(pt),
{
    let p = FQ_MODULUS as int;
    lemma_fq_modulus_prime();
    M31IsogenousParameters::lemma_curve();
    assert forall|n: nat| #[trigger]
        endomorphism_multiplies::<M31IsogenousParameters>(multiple(p, 29, n, pt)) by {
        lemma_multiple_is_curve_point(p, 29, 1948768455, n, pt);
        lemma_small_multiples(p, 29, 1948768455, multiple(p, 29, n, pt));
    }
}

} // verus!
