//! Arithmetic modulo a prime, stated over mathematical integers.
//!
//! Every field element is modelled by its canonical residue in `0..p`. The
//! functions here say what each field operation computes on residues, and the
//! lemmas relate residues to the integers they stand for.
use vstd::arithmetic::div_mod::*;
use vstd::prelude::*;

verus! {

/// Whether `p` is a prime number.
pub open spec fn is_prime(p: int) -> bool {
    p >= 2 && forall|d: int| 1 < d < p ==> #[trigger] (p % d) != 0
}

/// Whether `a` is a canonical residue modulo `p`.
pub open spec fn is_residue(p: int, a: int) -> bool {
    0 <= a < p
}

/// Sum of two residues.
pub open spec fn fadd(p: int, a: int, b: int) -> int {
    (a + b) % p
}

/// Difference of two residues.
pub open spec fn fsub(p: int, a: int, b: int) -> int {
    (a - b) % p
}

/// Product of two residues.
pub open spec fn fmul(p: int, a: int, b: int) -> int {
    (a * b) % p
}

/// Additive inverse of a residue.
pub open spec fn fneg(p: int, a: int) -> int {
    (-a) % p
}

/// Square of a residue.
pub open spec fn fsquare(p: int, a: int) -> int {
    fmul(p, a, a)
}

/// Twice a residue.
pub open spec fn fdouble(p: int, a: int) -> int {
    fadd(p, a, a)
}

/// Whether `b` is the multiplicative inverse of `a` modulo `p`.
pub open spec fn is_inverse(p: int, a: int, b: int) -> bool {
    is_residue(p, b) && fmul(p, a, b) == 1
}

/// The multiplicative inverse of `a` modulo `p`, where there is one.
pub open spec fn finv(p: int, a: int) -> int {
    choose|b: int| is_inverse(p, a, b)
}

/// Whether `a` and `b` leave the same remainder modulo `p`.
pub open spec fn congruent(p: int, a: int, b: int) -> bool {
    a % p == b % p
}

/// Every integer is congruent to its remainder.
pub proof fn lemma_congruent_mod(p: int, a: int)
    requires
        p > 0,
    ensures
        congruent(p, a % p, a),
        is_residue(p, a % p),
{
    lemma_mod_twice(a, p);
    lemma_mod_bound(a, p);
}

/// Two congruent residues are the same number.
pub proof fn lemma_congruent_residues(p: int, a: int, b: int)
    requires
        p > 0,
        is_residue(p, a),
        is_residue(p, b),
        congruent(p, a, b),
    ensures
        a == b,
{
    lemma_small_mod(a as nat, p as nat);
    lemma_small_mod(b as nat, p as nat);
}

/// A multiple of the modulus may be added without changing the residue.
pub proof fn lemma_congruent_shift(p: int, a: int, k: int)
    requires
        p > 0,
    ensures
        congruent(p, a + k * p, a),
{
    lemma_mod_multiples_vanish(k, a, p);
    assert(k * p + a == a + k * p);
    assert(p * k == k * p) by (nonlinear_arith);
}

/// Congruence is preserved by addition.
pub proof fn lemma_congruent_add(p: int, a: int, x: int, b: int, y: int)
    requires
        p > 0,
        congruent(p, a, x),
        congruent(p, b, y),
    ensures
        congruent(p, a + b, x + y),
{
    lemma_add_mod_noop(a, b, p);
    lemma_add_mod_noop(x, y, p);
}

/// Congruence is preserved by subtraction.
pub proof fn lemma_congruent_sub(p: int, a: int, x: int, b: int, y: int)
    requires
        p > 0,
        congruent(p, a, x),
        congruent(p, b, y),
    ensures
        congruent(p, a - b, x - y),
{
    lemma_sub_mod_noop(a, b, p);
    lemma_sub_mod_noop(x, y, p);
}

/// Congruence is preserved by multiplication.
pub proof fn lemma_congruent_mul(p: int, a: int, x: int, b: int, y: int)
    requires
        p > 0,
        congruent(p, a, x),
        congruent(p, b, y),
    ensures
        congruent(p, a * b, x * y),
{
    lemma_mul_mod_noop_general(a, b, p);
    lemma_mul_mod_noop_general(x, y, p);
}

/// Congruence is preserved by negation.
pub proof fn lemma_congruent_neg(p: int, a: int, x: int)
    requires
        p > 0,
        congruent(p, a, x),
    ensures
        congruent(p, -a, -x),
{
    lemma_congruent_sub(p, 0, 0, a, x);
}

/// The sum of two residues stands for the sum of what they stand for.
pub proof fn lemma_fadd(p: int, a: int, x: int, b: int, y: int)
    requires
        p > 0,
        congruent(p, a, x),
        congruent(p, b, y),
    ensures
        congruent(p, fadd(p, a, b), x + y),
        is_residue(p, fadd(p, a, b)),
{
    lemma_congruent_add(p, a, x, b, y);
    lemma_congruent_mod(p, a + b);
}

/// The difference of two residues stands for the difference of what they stand for.
pub proof fn lemma_fsub(p: int, a: int, x: int, b: int, y: int)
    requires
        p > 0,
        congruent(p, a, x),
        congruent(p, b, y),
    ensures
        congruent(p, fsub(p, a, b), x - y),
        is_residue(p, fsub(p, a, b)),
{
    lemma_congruent_sub(p, a, x, b, y);
    lemma_congruent_mod(p, a - b);
}

/// The product of two residues stands for the product of what they stand for.
pub proof fn lemma_fmul(p: int, a: int, x: int, b: int, y: int)
    requires
        p > 0,
        congruent(p, a, x),
        congruent(p, b, y),
    ensures
        congruent(p, fmul(p, a, b), x * y),
        is_residue(p, fmul(p, a, b)),
{
    lemma_congruent_mul(p, a, x, b, y);
    lemma_congruent_mod(p, a * b);
}

/// The negation of a residue stands for the negation of what it stands for.
pub proof fn lemma_fneg(p: int, a: int, x: int)
    requires
        p > 0,
        congruent(p, a, x),
    ensures
        congruent(p, fneg(p, a), -x),
        is_residue(p, fneg(p, a)),
{
    lemma_congruent_neg(p, a, x);
    lemma_congruent_mod(p, -a);
}

/// The negation of a residue, written without a remainder.
pub proof fn lemma_fneg_value(p: int, a: int)
    requires
        p > 0,
        is_residue(p, a),
    ensures
        fneg(p, a) == if a == 0 {
            0
        } else {
            p - a
        },
{
    if a == 0 {
        lemma_small_mod(0, p as nat);
    } else {
        lemma_congruent_shift(p, -a, 1);
        assert(-a + 1 * p == p - a);
        lemma_small_mod((p - a) as nat, p as nat);
    }
}

/// Modulo a prime every nonzero residue has an inverse.
pub proof fn lemma_inverse_exists(p: int, a: int) -> (b: int)
    requires
        is_prime(p),
        0 < a < p,
    ensures
        is_inverse(p, a, b),
    decreases a,
{
    if a == 1 {
        lemma_small_mod(1, p as nat);
        1
    } else {
        let q = p / a;
        let r = p % a;
        lemma_fundamental_div_mod(p, a);
        lemma_mod_bound(p, a);
        assert(r != 0);
        let s = lemma_inverse_exists(p, r);
        let b = (-(q * s)) % p;
        lemma_mod_bound(-(q * s), p);
        // a * (-(q * s)) = (r - p) * s = r * s - s * p
        assert(a * (-(q * s)) == r * s + (-s) * p) by (nonlinear_arith)
            requires
                p == a * q + r,
        ;
        lemma_congruent_shift(p, r * s, -s);
        lemma_congruent_mod(p, -(q * s));
        lemma_congruent_mul(p, a, a, b, -(q * s));
        b
    }
}

/// Where some residue has an inverse, the modulus exceeds one.
pub proof fn lemma_one_is_residue(p: int, a: int, b: int)
    requires
        p > 0,
        is_inverse(p, a, b),
    ensures
        p > 1,
        1int % p == 1,
{
    lemma_mod_bound(a * b, p);
    lemma_small_mod(1, p as nat);
}

/// A residue has at most one inverse.
pub proof fn lemma_inverse_unique(p: int, a: int, b: int, c: int)
    requires
        p > 0,
        is_inverse(p, a, b),
        is_inverse(p, a, c),
    ensures
        b == c,
{
    // b = b * (a * c) = (b * a) * c = c
    lemma_one_is_residue(p, a, b);
    lemma_congruent_mul(p, b, b, a * c, 1);
    lemma_congruent_mul(p, a * b, 1, c, c);
    assert(b * (a * c) == (a * b) * c) by (nonlinear_arith);
    assert(b * 1 == b && 1 * c == c);
    lemma_congruent_residues(p, b, c);
}

/// Modulo a prime, `finv` is the inverse of every nonzero residue.
pub proof fn lemma_finv(p: int, a: int)
    requires
        is_prime(p),
        0 < a < p,
    ensures
        is_inverse(p, a, finv(p, a)),
        finv(p, a) != 0,
{
    let b = lemma_inverse_exists(p, a);
    assert(is_inverse(p, a, finv(p, a)));
    if finv(p, a) == 0 {
        assert(a * 0 == 0);
        lemma_small_mod(0, p as nat);
    }
}

/// Modulo a prime, the product of two nonzero residues is nonzero.
pub proof fn lemma_no_zero_divisors(p: int, a: int, b: int)
    requires
        is_prime(p),
        0 < a < p,
        0 < b < p,
    ensures
        fmul(p, a, b) != 0,
{
    if fmul(p, a, b) == 0 {
        let c = lemma_inverse_exists(p, a);
        // b = (c * a) * b = c * (a * b) = 0
        lemma_one_is_residue(p, a, c);
        lemma_congruent_mul(p, c, c, a * b, 0);
        lemma_congruent_mul(p, a * c, 1, b, b);
        assert(c * (a * b) == (a * c) * b) by (nonlinear_arith);
        assert(c * 0 == 0 && 1 * b == b);
        lemma_small_mod(0, p as nat);
        lemma_congruent_residues(p, b, 0);
    }
}

/// Replacing `x` by a congruent `y` inside an expression: where two
/// expressions differ by a multiple of `x - y`, they are congruent.
pub proof fn lemma_rewrite(p: int, e1: int, e2: int, q: int, x: int, y: int)
    requires
        p > 0,
        congruent(p, x, y),
        e1 - e2 == q * (x - y),
    ensures
        congruent(p, e1, e2),
{
    lemma_congruent_mul(p, q, q, x, y);
    lemma_congruent_sub(p, q * x, q * y, q * y, q * y);
    lemma_congruent_add(p, e2, e2, q * x - q * y, q * y - q * y);
    assert(e2 + (q * x - q * y) == e1) by (nonlinear_arith)
        requires
            e1 - e2 == q * (x - y),
    ;
}

/// Modulo a prime, an integer that is no multiple of the prime has an
/// inverse.
pub proof fn lemma_inverse_of(p: int, c: int) -> (ci: int)
    requires
        is_prime(p),
        c % p != 0,
    ensures
        congruent(p, c * ci, 1),
        is_residue(p, ci),
        ci != 0,
{
    lemma_mod_bound(c, p);
    let ci = lemma_inverse_exists(p, c % p);
    lemma_congruent_mod(p, c);
    lemma_congruent_mul(p, c % p, c, ci, ci);
    lemma_small_mod(1, p as nat);
    if ci == 0 {
        assert((c % p) * 0 == 0);
        lemma_small_mod(0, p as nat);
    }
    ci
}

/// Modulo a prime, a factor that is no multiple of the prime cancels.
pub proof fn lemma_cancel(p: int, a: int, b: int, c: int)
    requires
        is_prime(p),
        c % p != 0,
        congruent(p, a * c, b * c),
    ensures
        congruent(p, a, b),
{
    let ci = lemma_inverse_of(p, c);
    lemma_congruent_mul(p, a * c, b * c, ci, ci);
    assert(a * c * ci - a == a * (c * ci - 1)) by (nonlinear_arith);
    lemma_rewrite(p, a * c * ci, a, a, c * ci, 1);
    assert(b * c * ci - b == b * (c * ci - 1)) by (nonlinear_arith);
    lemma_rewrite(p, b * c * ci, b, b, c * ci, 1);
}

/// Modulo a prime, a product is a multiple of the prime only where a factor
/// is.
pub proof fn lemma_product_nonzero(p: int, a: int, b: int)
    requires
        is_prime(p),
        a % p != 0,
        b % p != 0,
    ensures
        (a * b) % p != 0,
{
    lemma_mod_bound(a, p);
    lemma_mod_bound(b, p);
    lemma_no_zero_divisors(p, a % p, b % p);
    lemma_mul_mod_noop_general(a, b, p);
}

/// A residue is its own remainder.
pub proof fn lemma_residue(p: int, a: int)
    requires
        is_residue(p, a),
    ensures
        a % p == a,
{
    lemma_small_mod(a as nat, p as nat);
}

} // verus!
