//! The byte encoding of points: `X`, then `Y`, then `Z`, each in the
//! encoding of the field, with no length and no tag.
use crate::field::{Field, ReadError};
use crate::jacobian::JacobianPoint;
use crate::modular::is_residue;
use crate::parameters::Parameters;
use crate::projective::Projective;
use vstd::prelude::*;

verus! {

/// The bytes that encode a point: the encodings of `X`, `Y` and `Z`, in this
/// order and with nothing between or around them.
pub open spec fn encode_point<F: Field>(pt: JacobianPoint) -> Seq<u8> {
    F::encode(pt.x) + F::encode(pt.y) + F::encode(pt.z)
}

/// Whether the bytes from `start` on start with the encoding of the residue
/// `v`.
pub open spec fn is_encoded_at<F: Field>(bytes: Seq<u8>, start: int, v: int) -> bool {
    is_residue(F::modulus(), v) && F::encode(v) == bytes.subrange(
        start,
        start + F::byte_size() as int,
    )
}

/// What the bytes from `start` on decode to as an element of the field: the
/// residue whose encoding they start with; an error where they are too few,
/// or where they start with the encoding of no residue.
pub open spec fn decode_field<F: Field>(bytes: Seq<u8>, start: int) -> Result<int, ReadError> {
    if bytes.len() < start + F::byte_size() {
        Err(ReadError::UnexpectedEof)
    } else if exists|v: int| is_encoded_at::<F>(bytes, start, v) {
        Ok(choose|v: int| is_encoded_at::<F>(bytes, start, v))
    } else {
        Err(ReadError::InvalidFieldElement)
    }
}

/// What a sequence of bytes decodes to as a point: `X`, `Y` and `Z` one
/// after the other, and the error of the first of them that fails.
pub open spec fn decode_point<F: Field>(bytes: Seq<u8>) -> Result<JacobianPoint, ReadError> {
    match decode_field::<F>(bytes, 0) {
        Err(e) => Err(e),
        Ok(x) => match decode_field::<F>(bytes, F::byte_size() as int) {
            Err(e) => Err(e),
            Ok(y) => match decode_field::<F>(bytes, 2 * F::byte_size() as int) {
                Err(e) => Err(e),
                Ok(z) => Ok(JacobianPoint { x, y, z }),
            },
        },
    }
}

/// What `read_le` of the field returns is what the bytes decode to.
proof fn lemma_decode_field<F: Field>(bytes: Seq<u8>, start: int, r: Result<F, ReadError>)
    requires
        0 <= start,
        match r {
            Ok(e) => start + F::byte_size() <= bytes.len() && F::encode(e.value())
                == bytes.subrange(start, start + F::byte_size()),
            Err(ReadError::UnexpectedEof) => bytes.len() < start + F::byte_size(),
            Err(ReadError::InvalidFieldElement) => start + F::byte_size() <= bytes.len()
                && forall|v: int|
                    is_residue(F::modulus(), v) ==> #[trigger] F::encode(v) != bytes.subrange(
                        start,
                        start + F::byte_size(),
                    ),
        },
    ensures
        match r {
            Ok(e) => decode_field::<F>(bytes, start) == Ok::<int, ReadError>(e.value()),
            Err(e) => decode_field::<F>(bytes, start) == Err::<int, ReadError>(e),
        },
{
    match r {
        Ok(e) => {
            e.lemma_value_is_residue();
            assert(is_encoded_at::<F>(bytes, start, e.value()));
            let v = choose|v: int| is_encoded_at::<F>(bytes, start, v);
            F::lemma_encode(v, e.value());
        },
        Err(ReadError::UnexpectedEof) => {},
        Err(ReadError::InvalidFieldElement) => {
            assert forall|v: int| !is_encoded_at::<F>(bytes, start, v) by {
                if is_residue(F::modulus(), v) {
                    assert(F::encode(v) != bytes.subrange(start, start + F::byte_size()));
                }
            }
        },
    }
}

/// Decoding what a point was encoded to gives the point, whatever bytes
/// follow the encoding.
pub proof fn lemma_decode_encode<F: Field>(pt: JacobianPoint, rest: Seq<u8>)
    requires
        is_residue(F::modulus(), pt.x),
        is_residue(F::modulus(), pt.y),
        is_residue(F::modulus(), pt.z),
    ensures
        decode_point::<F>(encode_point::<F>(pt) + rest) == Ok::<JacobianPoint, ReadError>(pt),
{
    let n = F::byte_size() as int;
    let bytes = encode_point::<F>(pt) + rest;
    F::lemma_encode(pt.x, pt.x);
    F::lemma_encode(pt.y, pt.y);
    F::lemma_encode(pt.z, pt.z);
    assert(bytes.subrange(0, n) =~= F::encode(pt.x));
    assert(bytes.subrange(n, n + n) =~= F::encode(pt.y));
    let twice = 2 * n;
    assert(bytes.subrange(twice, twice + n) =~= F::encode(pt.z));
    assert(is_encoded_at::<F>(bytes, 0, pt.x));
    assert(is_encoded_at::<F>(bytes, n, pt.y));
    assert(is_encoded_at::<F>(bytes, twice, pt.z));
    let x = choose|v: int| is_encoded_at::<F>(bytes, 0, v);
    let y = choose|v: int| is_encoded_at::<F>(bytes, n, v);
    let z = choose|v: int| is_encoded_at::<F>(bytes, twice, v);
    F::lemma_encode(x, pt.x);
    F::lemma_encode(y, pt.y);
    F::lemma_encode(z, pt.z);
}

impl<P: Parameters> Projective<P> {
    /// Appends the encoding of the point to `out`: `X`, then `Y`, then `Z`.
    pub fn write_le(&self, out: &mut Vec<u8>)
        ensures
            final(out)@ == old(out)@ + encode_point::<P::BaseField>(self@),
    {
        let ghost before = out@;
        self.x.write_le(out);
        self.y.write_le(out);
        self.z.write_le(out);
        assert(out@ =~= before + encode_point::<P::BaseField>(self@));
    }

    /// Decodes the point that the bytes start with.
    pub fn read_le(bytes: &[u8]) -> (r: Result<Self, ReadError>)
        ensures
            match r {
                Ok(pt) => decode_point::<P::BaseField>(bytes@) == Ok::<JacobianPoint, ReadError>(
                    pt@,
                ),
                Err(e) => decode_point::<P::BaseField>(bytes@) == Err::<JacobianPoint, ReadError>(
                    e,
                ),
            },
    {
        let n = P::BaseField::serialized_size();
        let rx = P::BaseField::read_le(bytes, 0);
        proof {
            lemma_decode_field::<P::BaseField>(bytes@, 0, rx);
        }
        let x = match rx {
            Ok(x) => x,
            Err(e) => {
                return Err(e);
            },
        };
        let ry = P::BaseField::read_le(bytes, n);
        proof {
            lemma_decode_field::<P::BaseField>(bytes@, n as int, ry);
        }
        let y = match ry {
            Ok(y) => y,
            Err(e) => {
                return Err(e);
            },
        };
        let len = bytes.len();
        assert(n + n <= len);
        let rz = P::BaseField::read_le(bytes, 2 * n);
        proof {
            lemma_decode_field::<P::BaseField>(bytes@, 2 * n, rz);
        }
        let z = match rz {
            Ok(z) => z,
            Err(e) => {
                return Err(e);
            },
        };
        Ok(Self::new(x, y, z))
    }
}

} // verus!
