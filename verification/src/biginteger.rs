//! Unsigned integers of any size, as little-endian sequences of 64-bit limbs,
//! with the few operations that recoding a scalar takes.
use vstd::prelude::*;

verus! {

/// The number that the limbs from index `from` on stand for, the limb at
/// `from` being the least significant.
pub open spec fn limbs_value(limbs: Seq<u64>, from: int) -> nat
    decreases limbs.len() - from,
{
    if 0 <= from < limbs.len() {
        limbs[from] as nat + 0x1_0000_0000_0000_0000 * limbs_value(limbs, from + 1)
    } else {
        0
    }
}

/// The bits of `v`, least significant first, without leading zeros.
pub open spec fn bits_le(v: nat) -> Seq<bool>
    decreases v,
{
    if v == 0 {
        Seq::empty()
    } else {
        seq![v % 2 == 1] + bits_le(v / 2)
    }
}

/// The number that a sequence of bits stands for, least significant first.
pub open spec fn bits_value(bits: Seq<bool>) -> nat
    decreases bits.len(),
{
    if bits.len() == 0 {
        0
    } else {
        (if bits[0] {
            1nat
        } else {
            0nat
        }) + 2 * bits_value(bits.drop_first())
    }
}

/// The bits of a number stand for that number.
pub proof fn lemma_bits_value(v: nat)
    ensures
        bits_value(bits_le(v)) == v,
    decreases v,
{
    if v != 0 {
        lemma_bits_value(v / 2);
        let rest = bits_le(v / 2);
        assert(bits_le(v).drop_first() =~= rest);
    }
}

/// The value from `from` on depends on the limbs from `from` on only.
pub proof fn lemma_limbs_value_frame(a: Seq<u64>, b: Seq<u64>, from: int)
    requires
        a.len() == b.len(),
        0 <= from,
        forall|j: int| from <= j < a.len() ==> a[j] == b[j],
    ensures
        limbs_value(a, from) == limbs_value(b, from),
    decreases a.len() - from,
{
    if from < a.len() {
        lemma_limbs_value_frame(a, b, from + 1);
    }
}

/// A limb appended at the top, when zero, leaves the value as it is; so does
/// any limb appended above a position past the end.
pub proof fn lemma_limbs_value_push(a: Seq<u64>, top: u64, from: int)
    requires
        0 <= from <= a.len(),
    ensures
        from == a.len() ==> limbs_value(a.push(top), from) == top,
        top == 0 ==> limbs_value(a.push(top), from) == limbs_value(a, from),
    decreases a.len() - from,
{
    let b = a.push(top);
    if from < a.len() {
        lemma_limbs_value_push(a, top, from + 1);
        assert(b[from] == a[from]);
    } else {
        assert(limbs_value(b, from + 1) == 0);
        assert(b[from] == top);
    }
}

/// The value is zero exactly when every limb is zero.
pub proof fn lemma_limbs_value_zero(a: Seq<u64>, from: int)
    requires
        0 <= from,
    ensures
        limbs_value(a, from) == 0 <==> forall|j: int| from <= j < a.len() ==> a[j] == 0,
    decreases a.len() - from,
{
    if from < a.len() {
        lemma_limbs_value_zero(a, from + 1);
        if limbs_value(a, from) == 0 {
            assert(a[from] == 0);
            assert(limbs_value(a, from + 1) == 0);
            assert forall|j: int| from <= j < a.len() implies a[j] == 0 by {
                if j > from {
                    assert(from + 1 <= j);
                }
            }
        }
    }
}

/// An unsigned integer, held as limbs of 64 bits, least significant first.
pub struct BigInteger {
    pub limbs: Vec<u64>,
}

impl View for BigInteger {
    type V = nat;

    /// The number that the limbs stand for.
    open spec fn view(&self) -> nat {
        limbs_value(self.limbs@, 0)
    }
}

impl BigInteger {
    /// The integer with the given limbs, least significant first.
    pub fn new(limbs: Vec<u64>) -> (r: Self)
        ensures
            r.limbs@ == limbs@,
    {
        BigInteger { limbs }
    }

    /// The integer `v`.
    pub fn from_u64(v: u64) -> (r: Self)
        ensures
            r@ == v,
            r.limbs@ == seq![v],
    {
        let mut limbs: Vec<u64> = Vec::new();
        limbs.push(v);
        proof {
            lemma_limbs_value_push(Seq::empty(), v, 0);
            assert(limbs@ =~= Seq::<u64>::empty().push(v));
        }
        BigInteger { limbs }
    }

    /// A copy of this integer.
    pub fn duplicate(&self) -> (r: Self)
        ensures
            r.limbs@ == self.limbs@,
    {
        let mut limbs: Vec<u64> = Vec::new();
        let mut i: usize = 0;
        while i < self.limbs.len()
            invariant
                i <= self.limbs@.len(),
                limbs@ == self.limbs@.take(i as int),
            decreases self.limbs@.len() - i,
        {
            limbs.push(self.limbs[i]);
            assert(limbs@ =~= self.limbs@.take(i + 1));
            i += 1;
        }
        assert(limbs@ =~= self.limbs@);
        BigInteger { limbs }
    }

    /// Whether the integer is zero.
    pub fn is_zero(&self) -> (b: bool)
        ensures
            b == (self@ == 0),
    {
        proof {
            lemma_limbs_value_zero(self.limbs@, 0);
        }
        let mut i: usize = 0;
        while i < self.limbs.len()
            invariant
                i <= self.limbs@.len(),
                forall|j: int| 0 <= j < i ==> self.limbs@[j] == 0,
            decreases self.limbs@.len() - i,
        {
            if self.limbs[i] != 0 {
                proof {
                    lemma_limbs_value_zero(self.limbs@, 0);
                    assert(self.limbs@[i as int] != 0);
                }
                return false;
            }
            i += 1;
        }
        true
    }

    /// Whether the integer is odd.
    pub fn is_odd(&self) -> (b: bool)
        ensures
            b == (self@ % 2 == 1),
    {
        if self.limbs.len() == 0 {
            false
        } else {
            let low = self.limbs[0];
            assert((low as nat + 0x1_0000_0000_0000_0000 * limbs_value(self.limbs@, 1)) % 2 == low
                % 2) by (nonlinear_arith);
            low % 2 == 1
        }
    }

    /// The least significant limb: the integer modulo `2^64`.
    pub fn low_u64(&self) -> (r: u64)
        ensures
            r == self@ % 0x1_0000_0000_0000_0000,
    {
        if self.limbs.len() == 0 {
            0
        } else {
            let low = self.limbs[0];
            assert((low as nat + 0x1_0000_0000_0000_0000 * limbs_value(self.limbs@, 1))
                % 0x1_0000_0000_0000_0000 == low) by (nonlinear_arith)
                requires
                    low < 0x1_0000_0000_0000_0000,
            ;
            low
        }
    }

    /// Adds `carry` to the number held from limb `from` on, growing the
    /// integer by one limb where the sum does not fit.
    fn add_from(&mut self, from: usize, carry: u64)
        requires
            from <= old(self).limbs@.len(),
        ensures
            final(self).limbs@.len() >= old(self).limbs@.len(),
            final(self).limbs@.len() <= old(self).limbs@.len() + 1,
            forall|j: int| 0 <= j < from ==> final(self).limbs@[j] == old(self).limbs@[j],
            limbs_value(final(self).limbs@, from as int) == limbs_value(
                old(self).limbs@,
                from as int,
            ) + carry,
        decreases old(self).limbs@.len() - from,
    {
        let ghost before = self.limbs@;
        if carry == 0 {
            return ;
        }
        if from == self.limbs.len() {
            self.limbs.push(carry);
            proof {
                lemma_limbs_value_push(before, carry, from as int);
            }
            return ;
        }
        let len = self.limbs.len();
        assert(from < len);
        let limb = self.limbs[from];
        let sum = limb.wrapping_add(carry);
        self.limbs.set(from, sum);
        let ghost mid = self.limbs@;
        proof {
            lemma_limbs_value_frame(before, mid, from + 1);
        }
        if sum < limb {
            assert(sum == limb + carry - 0x1_0000_0000_0000_0000);
            self.add_from(from + 1, 1);
            assert(self.limbs@[from as int] == mid[from as int]);
        } else {
            assert(sum == limb + carry);
        }
    }

    /// Adds `v`. The integer grows by a limb where the sum takes one more.
    pub fn add_nocarry(&mut self, v: u64)
        ensures
            final(self)@ == old(self)@ + v,
    {
        self.add_from(0, v);
    }

    /// Subtracts `borrow` from the number held from limb `from` on.
    fn sub_from(&mut self, from: usize, borrow: u64)
        requires
            from <= old(self).limbs@.len(),
            limbs_value(old(self).limbs@, from as int) >= borrow,
        ensures
            final(self).limbs@.len() == old(self).limbs@.len(),
            forall|j: int| 0 <= j < from ==> final(self).limbs@[j] == old(self).limbs@[j],
            limbs_value(final(self).limbs@, from as int) == limbs_value(
                old(self).limbs@,
                from as int,
            ) - borrow,
        decreases old(self).limbs@.len() - from,
    {
        let ghost before = self.limbs@;
        if borrow == 0 {
            return ;
        }
        assert(from < self.limbs@.len());
        let len = self.limbs.len();
        assert(from < len);
        let limb = self.limbs[from];
        let diff = limb.wrapping_sub(borrow);
        self.limbs.set(from, diff);
        let ghost mid = self.limbs@;
        proof {
            lemma_limbs_value_frame(before, mid, from + 1);
        }
        if limb < borrow {
            assert(diff == limb - borrow + 0x1_0000_0000_0000_0000);
            assert(limbs_value(before, from + 1) >= 1) by {
                if limbs_value(before, from + 1) == 0 {
                    assert(limbs_value(before, from as int) == limb);
                }
            }
            self.sub_from(from + 1, 1);
            assert(self.limbs@[from as int] == mid[from as int]);
        } else {
            assert(diff == limb - borrow);
        }
    }

    /// Subtracts `v`, which is at most the integer.
    pub fn sub_noborrow(&mut self, v: u64)
        requires
            old(self)@ >= v,
        ensures
            final(self)@ == old(self)@ - v,
            final(self).limbs@.len() == old(self).limbs@.len(),
    {
        self.sub_from(0, v);
    }

    /// Halves the integer, rounding down.
    pub fn div2(&mut self)
        ensures
            final(self)@ == old(self)@ / 2,
            final(self).limbs@.len() == old(self).limbs@.len(),
    {
        let ghost before = self.limbs@;
        let mut i: usize = self.limbs.len();
        let mut carry: u64 = 0;
        while i > 0
            invariant
                i <= before.len(),
                self.limbs@.len() == before.len(),
                carry <= 1,
                forall|j: int| 0 <= j < i ==> self.limbs@[j] == before[j],
                2 * limbs_value(self.limbs@, i as int) + carry == limbs_value(before, i as int),
            decreases i,
        {
            i -= 1;
            let limb = self.limbs[i];
            let ghost prev = self.limbs@;
            let half = (limb >> 1) | (carry << 63);
            assert(half == limb / 2 + carry * 0x8000_0000_0000_0000 && limb & 1 == limb % 2) by (bit_vector)
                requires
                    half == (limb >> 1) | (carry << 63),
                    carry <= 1,
            ;
            self.limbs.set(i, half);
            proof {
                lemma_limbs_value_frame(prev, self.limbs@, i + 1);
            }
            carry = limb & 1;
        }
    }

    /// The bits of the integer, least significant first, without leading
    /// zeros.
    pub fn to_bits_le(&self) -> (bits: Vec<bool>)
        ensures
            bits@ == bits_le(self@),
    {
        let mut rest = self.duplicate();
        let mut bits: Vec<bool> = Vec::new();
        while !rest.is_zero()
            invariant
                bits@ + bits_le(rest@) == bits_le(self@),
            decreases rest@,
        {
            let ghost v = rest@;
            let bit = rest.is_odd();
            rest.div2();
            bits.push(bit);
            assert(bits@ + bits_le(rest@) =~= bits@.drop_last() + bits_le(v));
        }
        assert(bits@ + bits_le(rest@) =~= bits@);
        bits
    }
}

} // verus!
