//! Recoding of a scalar into windowed non-adjacent form.
//!
//! With a window of four bits, the digits are zero or odd, lie strictly
//! between -16 and 16, and every nonzero digit is followed by at least four
//! zeros.
use crate::biginteger::BigInteger;
use vstd::prelude::*;

verus! {

/// The size of the window, in bits.
pub const GLV_WINDOW_SIZE: usize = 4;

/// The number of residues that a digit is taken from: `2^(window + 1)`.
pub const TABLE_SIZE: i64 = 32;

/// Half the number of residues: the digits lie below it in absolute value.
pub const HALF_TABLE_SIZE: i64 = 16;

/// The mask that reduces a limb modulo `TABLE_SIZE`.
pub const MASK_FOR_MOD_TABLE_SIZE: u64 = 31;

/// The number of multiples in a table: `2^(window - 1)`.
pub const TABLE_LENGTH: usize = 8;

/// The residue of `v` modulo 32 that lies in `-16..16`.
pub open spec fn signed_residue(v: nat) -> int {
    let m = (v % 32) as int;
    if m >= 16 {
        m - 32
    } else {
        m
    }
}

/// The digits of `e` in windowed non-adjacent form, least significant
/// first: an even number gives the digit zero, an odd one its signed residue,
/// which is taken off before the number is halved.
pub open spec fn wnaf_digits(e: nat) -> Seq<i32>
    decreases e,
{
    if e == 0 {
        Seq::empty()
    } else if e % 2 == 1 {
        let d = signed_residue(e);
        seq![d as i32] + wnaf_digits(((e - d) / 2) as nat)
    } else {
        seq![0i32] + wnaf_digits(e / 2)
    }
}

/// The number that a sequence of signed digits stands for: the sum of
/// `digits[i] * 2^i`.
pub open spec fn digits_value(digits: Seq<i32>) -> int
    decreases digits.len(),
{
    if digits.len() == 0 {
        0
    } else {
        digits[0] + 2 * digits_value(digits.drop_first())
    }
}

/// The digits with every sign turned.
pub open spec fn negated(digits: Seq<i32>) -> Seq<i32> {
    Seq::new(digits.len(), |i: int| (-digits[i]) as i32)
}

/// Whether a digit is one that the recoding gives: zero, or odd and
/// strictly between -16 and 16.
pub open spec fn is_wnaf_digit(d: i32) -> bool {
    d == 0 || (-16 < d < 16 && d % 2 == 1)
}

/// The recoding stands for the number that was recoded.
pub proof fn lemma_wnaf_value(e: nat)
    ensures
        digits_value(wnaf_digits(e)) == e,
    decreases e,
{
    if e != 0 {
        if e % 2 == 1 {
            let d = signed_residue(e);
            let rest = ((e - d) / 2) as nat;
            lemma_wnaf_value(rest);
            assert(wnaf_digits(e).drop_first() =~= wnaf_digits(rest));
            assert((e - d) % 2 == 0);
        } else {
            lemma_wnaf_value(e / 2);
            assert(wnaf_digits(e).drop_first() =~= wnaf_digits(e / 2));
        }
    }
}

/// Every digit of the recoding is zero, or odd and strictly between -16 and
/// 16.
pub proof fn lemma_wnaf_digits(e: nat, i: int)
    requires
        0 <= i < wnaf_digits(e).len(),
    ensures
        is_wnaf_digit(wnaf_digits(e)[i]),
    decreases e,
{
    if e % 2 == 1 {
        let d = signed_residue(e);
        let rest = ((e - d) / 2) as nat;
        if i > 0 {
            lemma_wnaf_digits(rest, i - 1);
            assert(wnaf_digits(e)[i] == wnaf_digits(rest)[i - 1]);
        }
    } else {
        if i > 0 {
            lemma_wnaf_digits(e / 2, i - 1);
            assert(wnaf_digits(e)[i] == wnaf_digits(e / 2)[i - 1]);
        }
    }
}

/// Every nonzero digit of the recoding is followed by four zeros, as far as
/// the recoding goes on.
pub proof fn lemma_wnaf_non_adjacent(e: nat, i: int, k: int)
    requires
        0 <= i,
        1 <= k <= 4,
        i + k < wnaf_digits(e).len(),
        wnaf_digits(e)[i] != 0,
    ensures
        wnaf_digits(e)[i + k] == 0,
    decreases e,
{
    if e % 2 == 1 {
        let d = signed_residue(e);
        let rest = ((e - d) / 2) as nat;
        assert(wnaf_digits(e) =~= seq![d as i32] + wnaf_digits(rest));
        if i > 0 {
            lemma_wnaf_non_adjacent(rest, i - 1, k);
        } else {
            assert((e - d) % 32 == 0);
            lemma_wnaf_of_multiple(rest, k - 1);
        }
    } else {
        assert(wnaf_digits(e) =~= seq![0i32] + wnaf_digits(e / 2));
        lemma_wnaf_non_adjacent(e / 2, i - 1, k);
    }
}

/// The recoding of an even number starts with a zero and goes on with the
/// recoding of its half.
proof fn lemma_wnaf_of_even(e: nat)
    requires
        e % 2 == 0,
        e != 0,
    ensures
        wnaf_digits(e) == seq![0i32] + wnaf_digits(e / 2),
{
}

/// The recoding of a multiple of 16 starts with four zeros.
proof fn lemma_wnaf_of_multiple(e: nat, k: int)
    requires
        e % 16 == 0,
        0 <= k < 4,
        k < wnaf_digits(e).len(),
    ensures
        wnaf_digits(e)[k] == 0,
{
    let e1 = e / 2;
    let e2 = e1 / 2;
    let e3 = e2 / 2;
    assert(e % 2 == 0 && e1 % 2 == 0 && e2 % 2 == 0 && e3 % 2 == 0);
    lemma_wnaf_of_even(e);
    if k >= 1 {
        assert(wnaf_digits(e)[k] == wnaf_digits(e1)[k - 1]);
        assert(e1 != 0);
        lemma_wnaf_of_even(e1);
        if k >= 2 {
            assert(wnaf_digits(e1)[k - 1] == wnaf_digits(e2)[k - 2]);
            assert(e2 != 0);
            lemma_wnaf_of_even(e2);
            if k >= 3 {
                assert(wnaf_digits(e2)[k - 2] == wnaf_digits(e3)[k - 3]);
                assert(e3 != 0);
                lemma_wnaf_of_even(e3);
            }
        }
    }
}

/// Turning every sign turns the sign of the number.
pub proof fn lemma_negated_value(digits: Seq<i32>)
    requires
        forall|i: int| 0 <= i < digits.len() ==> is_wnaf_digit(#[trigger] digits[i]),
    ensures
        digits_value(negated(digits)) == -digits_value(digits),
    decreases digits.len(),
{
    if digits.len() > 0 {
        let rest = digits.drop_first();
        assert forall|i: int| 0 <= i < rest.len() implies is_wnaf_digit(#[trigger] rest[i]) by {
            assert(rest[i] == digits[i + 1]);
        }
        lemma_negated_value(rest);
        assert(negated(digits).drop_first() =~= negated(rest));
        assert(is_wnaf_digit(digits[0]));
    }
}

/// The residue of a limb modulo 32 that lies in `-16..16`.
pub fn mod_signed(d: u64) -> (r: i64)
    ensures
        r == signed_residue(d as nat),
{
    let m = d & MASK_FOR_MOD_TABLE_SIZE;
    assert(m == d % 32) by (bit_vector)
        requires
            m == d & 31,
    ;
    let d_mod_window_size = m as i64;
    if d_mod_window_size >= HALF_TABLE_SIZE {
        d_mod_window_size - TABLE_SIZE
    } else {
        d_mod_window_size
    }
}

/// Recodes `e` into windowed non-adjacent form, least significant digit
/// first.
pub fn to_wnaf(e: BigInteger) -> (naf: Vec<i32>)
    ensures
        naf@ == wnaf_digits(e@),
{
    let ghost start = e@;
    let mut e = e;
    let mut naf: Vec<i32> = Vec::new();
    while !e.is_zero()
        invariant
            naf@ + wnaf_digits(e@) == wnaf_digits(start),
        decreases e@,
    {
        let ghost before = e@;
        let ghost digits = naf@;
        let next: i32 = if e.is_odd() {
            let low = e.low_u64();
            let naf_sign = mod_signed(low);
            assert(signed_residue(low as nat) == signed_residue(before)) by {
                assert((before % 0x1_0000_0000_0000_0000) % 32 == before % 32) by (nonlinear_arith);
            }
            if naf_sign < 0 {
                e.add_nocarry((-naf_sign) as u64);
            } else {
                e.sub_noborrow(naf_sign as u64);
            }
            naf_sign as i32
        } else {
            0
        };
        naf.push(next);
        e.div2();
        assert(naf@ + wnaf_digits(e@) =~= digits + wnaf_digits(before));
    }
    assert(naf@ + wnaf_digits(e@) =~= naf@);
    naf
}

/// Turns the sign of every digit. No digit is the least number of its type,
/// which has no negation.
pub fn negate_digits(naf: &mut Vec<i32>)
    requires
        forall|i: int| 0 <= i < old(naf)@.len() ==> #[trigger] old(naf)@[i] > i32::MIN,
    ensures
        final(naf)@ == negated(old(naf)@),
{
    let ghost before = naf@;
    let mut i: usize = 0;
    while i < naf.len()
        invariant
            i <= naf@.len(),
            naf@.len() == before.len(),
            forall|j: int| 0 <= j < i ==> naf@[j] == negated(before)[j],
            forall|j: int| i <= j < naf@.len() ==> naf@[j] == before[j],
            forall|j: int| 0 <= j < before.len() ==> #[trigger] before[j] > i32::MIN,
        decreases naf@.len() - i,
    {
        let d = naf[i];
        assert(before[i as int] > i32::MIN);
        naf.set(i, -d);
        i += 1;
    }
    assert(naf@ =~= negated(before));
}

} // verus!
