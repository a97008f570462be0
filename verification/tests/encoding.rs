use rand::rngs::StdRng;
use rand::{Rng, SeedableRng};
use sw_jacobian::field::{Field, ReadError};
use sw_jacobian::m31::{Fq, Fr, M31Parameters, FQ_MODULUS};
use sw_jacobian::projective::Projective;

type G = Projective<M31Parameters>;

fn coordinates(p: &G) -> (u64, u64, u64) {
    (p.x.to_u64(), p.y.to_u64(), p.z.to_u64())
}

#[test]
fn a_point_is_written_as_x_then_y_then_z() {
    let p = G::new(Fq::new(0x0102_0304), Fq::new(0x7fff_fffe), Fq::new(1));
    let mut out = vec![0xaa];
    p.write_le(&mut out);
    assert_eq!(
        out,
        vec![
            0xaa, 0x04, 0x03, 0x02, 0x01, 0, 0, 0, 0, 0xfe, 0xff, 0xff, 0x7f, 0, 0, 0, 0, 1, 0, 0, 0, 0, 0, 0, 0
        ]
    );
    let mut zero = Vec::new();
    G::zero().write_le(&mut zero);
    assert_eq!(zero, vec![0, 0, 0, 0, 0, 0, 0, 0, 1, 0, 0, 0, 0, 0, 0, 0, 0, 0, 0, 0, 0, 0, 0, 0]);
    assert_eq!(Fq::serialized_size(), 8);
}

#[test]
fn reading_gives_back_what_was_written() {
    let mut rng = StdRng::seed_from_u64(41);
    let mut points = vec![G::zero(), G::prime_subgroup_generator(), G::prime_subgroup_generator().double()];
    for _ in 0..50 {
        points.push(G::new(
            Fq::new(rng.gen_range(0..FQ_MODULUS)),
            Fq::new(rng.gen_range(0..FQ_MODULUS)),
            Fq::new(rng.gen_range(0..FQ_MODULUS)),
        ));
    }
    for p in points {
        let mut bytes = Vec::new();
        p.write_le(&mut bytes);
        assert_eq!(bytes.len(), 24);
        let q = G::read_le(&bytes).unwrap();
        assert_eq!(coordinates(&q), coordinates(&p));
        // bytes after the point are left alone
        bytes.push(0xff);
        bytes.push(0xff);
        let q = G::read_le(&bytes).unwrap();
        assert_eq!(coordinates(&q), coordinates(&p));
    }
}

#[test]
fn reading_too_few_bytes_fails() {
    let mut bytes = Vec::new();
    G::prime_subgroup_generator().write_le(&mut bytes);
    for len in 0..24 {
        assert_eq!(G::read_le(&bytes[..len]).err(), Some(ReadError::UnexpectedEof));
    }
    assert!(G::read_le(&bytes).is_ok());
    assert_eq!(Fq::read_le(&bytes, 17).err(), Some(ReadError::UnexpectedEof));
    assert_eq!(Fq::read_le(&bytes, usize::MAX).err(), Some(ReadError::UnexpectedEof));
    assert_eq!(Fq::read_le(&bytes, 16).unwrap().to_u64(), 1);
}

#[test]
fn reading_a_number_that_is_no_field_element_fails() {
    let mut bytes = Vec::new();
    G::prime_subgroup_generator().write_le(&mut bytes);
    // the modulus itself in place of Y
    let mut wrong = bytes.clone();
    wrong[8..16].copy_from_slice(&FQ_MODULUS.to_le_bytes());
    assert_eq!(G::read_le(&wrong).err(), Some(ReadError::InvalidFieldElement));
    // the greatest element in place of Y
    wrong[8..16].copy_from_slice(&(FQ_MODULUS - 1).to_le_bytes());
    assert_eq!(G::read_le(&wrong).unwrap().y.to_u64(), FQ_MODULUS - 1);
    // a high byte set in Z
    let mut wrong = bytes.clone();
    wrong[23] = 1;
    assert_eq!(G::read_le(&wrong).err(), Some(ReadError::InvalidFieldElement));
    // the first error wins: X is wrong and Z is missing
    let mut wrong = bytes.clone();
    wrong[7] = 0x80;
    assert_eq!(G::read_le(&wrong[..20]).err(), Some(ReadError::InvalidFieldElement));
    // X is fine and Y is cut short
    assert_eq!(G::read_le(&bytes[..12]).err(), Some(ReadError::UnexpectedEof));
    assert_eq!(Fr::read_le(&165188041u64.to_le_bytes(), 0).err(), Some(ReadError::InvalidFieldElement));
    assert_eq!(Fr::read_le(&165188040u64.to_le_bytes(), 0).unwrap().to_u64(), 165188040);
}
