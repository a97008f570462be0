//! Modular arithmetic on residues that fit in half a machine word.
use crate::modular::{
    congruent, fadd, finv, fmul, fneg, fsquare, fsub, is_inverse, is_prime, is_residue,
    lemma_congruent_add, lemma_congruent_mul, lemma_congruent_shift, lemma_congruent_sub,
    lemma_finv, lemma_fmul, lemma_fneg, lemma_fneg_value, lemma_inverse_unique,
};
use crate::field::ReadError;
use vstd::arithmetic::div_mod::*;
use vstd::bytes::{
    lemma_auto_spec_u64_to_from_le_bytes, spec_u64_from_le_bytes, spec_u64_to_le_bytes,
    u64_from_le_bytes, u64_to_le_bytes,
};
use vstd::prelude::*;
use vstd::slice::slice_subrange;

verus! {

/// The moduli that this module computes with: more than one, below `2^32`.
pub open spec fn is_word_modulus(m: u64) -> bool {
    1 < m < 0x1_0000_0000
}

/// A number is prime where it has no divisor from two up to a bound whose
/// square exceeds it.
pub proof fn lemma_prime_by_trial_division(p: int, bound: int)
    requires
        p >= 2,
        bound >= 2,
        bound * bound > p,
        forall|d: int| 2 <= d < bound ==> #[trigger] (p % d) != 0,
    ensures
        is_prime(p),
{
    assert forall|d: int| 1 < d < p implies #[trigger] (p % d) != 0 by {
        if p % d == 0 {
            let e = p / d;
            lemma_fundamental_div_mod(p, d);
            assert(p == d * e);
            assert(e >= 2 && e < p) by (nonlinear_arith)
                requires
                    p == d * e,
                    1 < d < p,
            ;
            assert(p % e == 0) by {
                lemma_mod_multiples_basic(d, e);
            }
            if d >= bound && e >= bound {
                assert(d * e >= bound * bound) by (nonlinear_arith)
                    requires
                        d >= bound,
                        e >= bound,
                        bound >= 2,
                ;
            }
        }
    }
}

/// The eight bytes that encode a residue: the residue as a 64-bit word, least
/// significant byte first.
pub open spec fn encode_word(v: int) -> Seq<u8> {
    spec_u64_to_le_bytes(v as u64)
}

/// Encodings have eight bytes, and distinct words have distinct encodings.
pub proof fn lemma_encode_word(v: int, w: int)
    requires
        0 <= v < 0x1_0000_0000_0000_0000,
        0 <= w < 0x1_0000_0000_0000_0000,
    ensures
        encode_word(v).len() == 8,
        encode_word(v) == encode_word(w) ==> v == w,
{
    lemma_auto_spec_u64_to_from_le_bytes();
    assert(spec_u64_from_le_bytes(spec_u64_to_le_bytes(v as u64)) == v as u64);
    assert(spec_u64_from_le_bytes(spec_u64_to_le_bytes(w as u64)) == w as u64);
}

/// Appends the encoding of a word to `out`.
pub(crate) fn write_word(v: u64, out: &mut Vec<u8>)
    ensures
        final(out)@ == old(out)@ + encode_word(v as int),
{
    let mut bytes = u64_to_le_bytes(v);
    out.append(&mut bytes);
}

/// Decodes the residue modulo `m` whose encoding starts at `bytes[start]`.
pub(crate) fn read_word(bytes: &[u8], start: usize, m: u64) -> (r: Result<u64, ReadError>)
    ensures
        match r {
            Ok(v) => start + 8 <= bytes@.len() && v < m && encode_word(v as int)
                == bytes@.subrange(start as int, start + 8),
            Err(ReadError::UnexpectedEof) => bytes@.len() < start + 8,
            Err(ReadError::InvalidFieldElement) => start + 8 <= bytes@.len() && forall|v: int|
                0 <= v < m ==> #[trigger] encode_word(v) != bytes@.subrange(
                    start as int,
                    start + 8,
                ),
        },
{
    if bytes.len() < 8 || start > bytes.len() - 8 {
        return Err(ReadError::UnexpectedEof);
    }
    let chunk = slice_subrange(bytes, start, start + 8);
    let v = u64_from_le_bytes(chunk);
    proof {
        lemma_auto_spec_u64_to_from_le_bytes();
        assert(spec_u64_to_le_bytes(spec_u64_from_le_bytes(chunk@)) == chunk@);
    }
    if v < m {
        Ok(v)
    } else {
        assert forall|w: int| 0 <= w < m implies #[trigger] encode_word(w) != chunk@ by {
            assert(spec_u64_from_le_bytes(spec_u64_to_le_bytes(w as u64)) == w as u64);
        }
        Err(ReadError::InvalidFieldElement)
    }
}

/// The power `a^e` of a residue, by repeated squaring.
pub open spec fn fpow(p: int, a: int, e: nat) -> int
    decreases e,
{
    if e == 0 {
        1int % p
    } else if e % 2 == 1 {
        fmul(p, a, fpow(p, fsquare(p, a), e / 2))
    } else {
        fpow(p, fsquare(p, a), e / 2)
    }
}

/// A power of a residue is a residue.
pub proof fn lemma_fpow_is_residue(p: int, a: int, e: nat)
    requires
        p > 0,
    ensures
        is_residue(p, fpow(p, a, e)),
    decreases e,
{
    if e == 0 {
        lemma_mod_bound(1, p);
    } else {
        lemma_fpow_is_residue(p, fsquare(p, a), e / 2);
        lemma_mod_bound(a * fpow(p, fsquare(p, a), e / 2), p);
    }
}

/// The sum of two residues.
pub(crate) fn add_mod(a: u64, b: u64, m: u64) -> (r: u64)
    requires
        is_word_modulus(m),
        a < m,
        b < m,
    ensures
        r == fadd(m as int, a as int, b as int),
        r < m,
{
    let s: u64 = a + b;
    if s >= m {
        proof {
            lemma_congruent_shift(m as int, s - m, 1);
            lemma_small_mod((s - m) as nat, m as nat);
        }
        s - m
    } else {
        proof {
            lemma_small_mod(s as nat, m as nat);
        }
        s
    }
}

/// The difference of two residues.
pub(crate) fn sub_mod(a: u64, b: u64, m: u64) -> (r: u64)
    requires
        is_word_modulus(m),
        a < m,
        b < m,
    ensures
        r == fsub(m as int, a as int, b as int),
        r < m,
{
    if a >= b {
        proof {
            lemma_small_mod((a - b) as nat, m as nat);
        }
        a - b
    } else {
        proof {
            lemma_congruent_shift(m as int, a - b, 1);
            lemma_small_mod((a + m - b) as nat, m as nat);
        }
        a + m - b
    }
}

/// The additive inverse of a residue.
pub(crate) fn neg_mod(a: u64, m: u64) -> (r: u64)
    requires
        is_word_modulus(m),
        a < m,
    ensures
        r == fneg(m as int, a as int),
        r < m,
{
    proof {
        lemma_fneg_value(m as int, a as int);
    }
    if a == 0 {
        0
    } else {
        m - a
    }
}

/// The product of two residues.
pub(crate) fn mul_mod(a: u64, b: u64, m: u64) -> (r: u64)
    requires
        is_word_modulus(m),
        a < m,
        b < m,
    ensures
        r == fmul(m as int, a as int, b as int),
        r < m,
{
    assert(a * b <= 0xffff_ffff * 0xffff_ffff) by (nonlinear_arith)
        requires
            a <= 0xffff_ffff,
            b <= 0xffff_ffff,
    ;
    proof {
        lemma_mod_bound(a * b, m as int);
    }
    (a * b) % m
}

/// The power `a^e`.
pub(crate) fn pow_mod(a: u64, e: u64, m: u64) -> (r: u64)
    requires
        is_word_modulus(m),
        a < m,
    ensures
        r == fpow(m as int, a as int, e as nat),
        r < m,
    decreases e,
{
    proof {
        lemma_fpow_is_residue(m as int, a as int, e as nat);
    }
    if e == 0 {
        1 % m
    } else {
        let sq = mul_mod(a, a, m);
        let rest = pow_mod(sq, e / 2, m);
        if e % 2 == 1 {
            mul_mod(a, rest, m)
        } else {
            rest
        }
    }
}

/// The multiplicative inverse of a nonzero residue modulo a prime.
pub(crate) fn inv_mod(a: u64, m: u64) -> (r: u64)
    requires
        is_word_modulus(m),
        is_prime(m as int),
        0 < a < m,
    ensures
        r == finv(m as int, a as int),
        0 < r < m,
{
    let ghost p = m as int;
    let mut acc: u64 = 1;
    let mut cur: u64 = a;
    proof {
        lemma_small_mod(a as nat, m as nat);
        assert(a * 1 == a);
    }
    while cur > 1
        invariant
            is_word_modulus(m),
            is_prime(m as int),
            p == m,
            0 < a < m,
            0 < cur < m,
            acc < m,
            congruent(p, a * acc, cur as int),
        decreases cur,
    {
        let q = m / cur;
        let rem = m % cur;
        proof {
            lemma_fundamental_div_mod(p, cur as int);
            // the remainder stands for -q * cur
            assert(a * acc * (-(q as int)) + q * (a * acc - cur) == rem + (-1) * p)
                by (nonlinear_arith)
                requires
                    p == cur * q + rem,
            ;
            lemma_congruent_shift(p, rem as int, -1);
            lemma_congruent_sub(p, a * acc, cur as int, cur as int, cur as int);
            lemma_congruent_mul(p, q as int, q as int, a * acc - cur, cur - cur);
            assert(q * (cur - cur) == 0);
            lemma_congruent_add(
                p,
                a * acc * (-(q as int)),
                a * acc * (-(q as int)),
                q * (a * acc - cur),
                0,
            );
            assert(congruent(p, a * acc * (-(q as int)), rem as int));
        }
        assert(q < m) by {
            lemma_div_is_ordered_by_denominator(p, 1, cur as int);
            lemma_div_basics_3(p);
            lemma_div_decreases(p, cur as int);
        }
        let nq = neg_mod(q, m);
        let next = mul_mod(acc, nq, m);
        proof {
            lemma_fneg(p, q as int, q as int);
            lemma_fmul(p, acc as int, acc as int, nq as int, -(q as int));
            lemma_congruent_mul(p, a as int, a as int, next as int, acc * (-(q as int)));
            assert(a * (acc * (-(q as int))) == a * acc * (-(q as int))) by (nonlinear_arith);
        }
        acc = next;
        cur = rem;
    }
    proof {
        lemma_small_mod(1, m as nat);
        lemma_mod_bound(a * acc, p);
        assert(is_inverse(p, a as int, acc as int));
        lemma_finv(p, a as int);
        lemma_inverse_unique(p, a as int, acc as int, finv(p, a as int));
    }
    acc
}

} // verus!
