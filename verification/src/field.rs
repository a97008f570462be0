//! The interface of a prime field, as the curve arithmetic consumes it.
use crate::biginteger::BigInteger;
use crate::modular::{fadd, fdouble, finv, fmul, fneg, fsquare, fsub, is_prime, is_residue};
use vstd::prelude::*;

verus! {

/// Why a sequence of bytes does not decode.
#[derive(Clone, Copy, Debug, PartialEq, Eq, Structural)]
pub enum ReadError {
    /// The bytes end before the value does.
    UnexpectedEof,
    /// The bytes encode a number that is no canonical field element.
    InvalidFieldElement,
}

/// A prime field. An element is modelled by its canonical residue,
/// `value()`, below the prime `modulus()`.
pub trait Field: Sized + Copy {
    /// The prime that the field is taken modulo.
    spec fn modulus() -> int;

    /// The canonical residue that this element stands for.
    spec fn value(&self) -> int;

    /// The number of bytes in the encoding of an element.
    spec fn byte_size() -> nat;

    /// The bytes that encode the residue `v`.
    spec fn encode(v: int) -> Seq<u8>;

    /// The modulus is prime.
    proof fn lemma_modulus_prime()
        ensures
            is_prime(Self::modulus()),
    ;

    /// The model of an element is a canonical residue.
    proof fn lemma_value_is_residue(&self)
        ensures
            is_residue(Self::modulus(), self.value()),
    ;

    /// Encodings have the fixed size, and distinct residues have distinct
    /// encodings.
    proof fn lemma_encode(v: int, w: int)
        requires
            is_residue(Self::modulus(), v),
            is_residue(Self::modulus(), w),
        ensures
            Self::encode(v).len() == Self::byte_size(),
            Self::encode(v) == Self::encode(w) ==> v == w,
    ;

    /// The additive identity.
    fn zero() -> (r: Self)
        ensures
            r.value() == 0,
    ;

    /// The multiplicative identity.
    fn one() -> (r: Self)
        ensures
            r.value() == 1,
    ;

    /// Whether this is the additive identity.
    fn is_zero(&self) -> (b: bool)
        ensures
            b == (self.value() == 0),
    ;

    /// Whether this is the multiplicative identity.
    fn is_one(&self) -> (b: bool)
        ensures
            b == (self.value() == 1),
    ;

    /// Whether two elements are the same element of the field.
    fn equals(&self, other: &Self) -> (b: bool)
        ensures
            b == (self.value() == other.value()),
    ;

    /// Whether this element's residue is the smaller one.
    fn less_than(&self, other: &Self) -> (b: bool)
        ensures
            b == (self.value() < other.value()),
    ;

    /// The sum.
    fn add(&self, other: &Self) -> (r: Self)
        ensures
            r.value() == fadd(Self::modulus(), self.value(), other.value()),
    ;

    /// The difference.
    fn sub(&self, other: &Self) -> (r: Self)
        ensures
            r.value() == fsub(Self::modulus(), self.value(), other.value()),
    ;

    /// The product.
    fn mul(&self, other: &Self) -> (r: Self)
        ensures
            r.value() == fmul(Self::modulus(), self.value(), other.value()),
    ;

    /// The additive inverse.
    fn neg(&self) -> (r: Self)
        ensures
            r.value() == fneg(Self::modulus(), self.value()),
    ;

    /// The square.
    fn square(&self) -> (r: Self)
        ensures
            r.value() == fsquare(Self::modulus(), self.value()),
    ;

    /// Twice the element.
    fn double(&self) -> (r: Self)
        ensures
            r.value() == fdouble(Self::modulus(), self.value()),
    ;

    /// The multiplicative inverse; there is none of zero only.
    fn inverse(&self) -> (r: Option<Self>)
        ensures
            match r {
                Some(inv) => self.value() != 0 && inv.value() == finv(
                    Self::modulus(),
                    self.value(),
                ),
                None => self.value() == 0,
            },
    ;

    /// The number of bytes in the encoding of an element.
    fn serialized_size() -> (n: usize)
        ensures
            n == Self::byte_size(),
    ;

    /// Appends the encoding of this element to `out`.
    fn write_le(&self, out: &mut Vec<u8>)
        ensures
            final(out)@ == old(out)@ + Self::encode(self.value()),
    ;

    /// Decodes the element whose encoding starts at `bytes[start]`.
    fn read_le(bytes: &[u8], start: usize) -> (r: Result<Self, ReadError>)
        ensures
            match r {
                Ok(e) => start + Self::byte_size() <= bytes@.len() && Self::encode(e.value())
                    == bytes@.subrange(start as int, start + Self::byte_size()),
                Err(ReadError::UnexpectedEof) => bytes@.len() < start + Self::byte_size(),
                Err(ReadError::InvalidFieldElement) => start + Self::byte_size() <= bytes@.len()
                    && forall|v: int|
                        is_residue(Self::modulus(), v) ==> #[trigger] Self::encode(v)
                            != bytes@.subrange(start as int, start + Self::byte_size()),
            },
    ;
}

/// A field in which square roots can be computed.
pub trait SquareRootField: Field {
    /// The square root that `sqrt` picks for the residue `v`, if it finds one.
    spec fn sqrt_spec(v: int) -> Option<int>;

    /// What `sqrt` picks is a residue that squares to the argument.
    proof fn lemma_sqrt(v: int)
        requires
            is_residue(Self::modulus(), v),
        ensures
            match Self::sqrt_spec(v) {
                Some(r) => is_residue(Self::modulus(), r) && fsquare(Self::modulus(), r) == v,
                None => true,
            },
    ;

    /// A square root, where the implementation finds one.
    fn sqrt(&self) -> (r: Option<Self>)
        ensures
            match r {
                Some(root) => Self::sqrt_spec(self.value()) == Some(root.value()),
                None => Self::sqrt_spec(self.value()).is_none(),
            },
    ;
}

/// A prime field whose elements serve as scalars: each has an integer
/// representation.
pub trait PrimeField: Field {
    /// The canonical residue as an integer.
    fn to_repr(&self) -> (r: BigInteger)
        ensures
            r@ == self.value(),
    ;
}

/// The sum of the products of the first `n` pairs of `a` and `b`, added up
/// from the first pair on.
pub open spec fn sum_of_products_spec<F: Field>(a: Seq<F>, b: Seq<F>, n: nat) -> int
    decreases n,
{
    if n == 0 {
        0
    } else {
        fadd(
            F::modulus(),
            sum_of_products_spec(a, b, (n - 1) as nat),
            fmul(F::modulus(), a[n - 1].value(), b[n - 1].value()),
        )
    }
}

/// The sum of the products of the pairs of `a` and `b`, as far as the shorter
/// of the two goes.
pub fn sum_of_products<F: Field>(a: &[F], b: &[F]) -> (r: F)
    ensures
        r.value() == sum_of_products_spec(
            a@,
            b@,
            if a@.len() <= b@.len() {
                a@.len()
            } else {
                b@.len()
            },
        ),
{
    let n = if a.len() <= b.len() {
        a.len()
    } else {
        b.len()
    };
    let mut acc = F::zero();
    let mut i: usize = 0;
    while i < n
        invariant
            i <= n,
            n <= a@.len(),
            n <= b@.len(),
            acc.value() == sum_of_products_spec(a@, b@, i as nat),
        decreases n - i,
    {
        let term = a[i].mul(&b[i]);
        acc = acc.add(&term);
        i += 1;
    }
    acc
}

} // verus!
