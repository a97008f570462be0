use rand::rngs::StdRng;
use rand::{Rng, SeedableRng};
use sw_jacobian::biginteger::BigInteger;
use sw_jacobian::field::{sum_of_products, Field, PrimeField, SquareRootField};
use sw_jacobian::m31::{Fq, Fr, BETA, FQ_MODULUS, FR_MODULUS, LAMBDA};
use sw_jacobian::wnaf::{mod_signed, negate_digits, to_wnaf};

#[test]
fn field_elements_are_reduced() {
    assert_eq!(Fq::new(FQ_MODULUS).to_u64(), 0);
    assert_eq!(Fq::new(FQ_MODULUS + 5).to_u64(), 5);
    assert_eq!(Fq::new(u64::MAX).to_u64(), u64::MAX % FQ_MODULUS);
    assert_eq!(Fr::new(FR_MODULUS + 1).to_u64(), 1);
    assert_eq!(Fq::zero().to_u64(), 0);
    assert_eq!(Fq::one().to_u64(), 1);
    assert!(Fq::zero().is_zero());
    assert!(!Fq::one().is_zero());
    assert!(Fq::one().is_one());
    assert!(!Fq::new(2).is_one());
    assert!(Fq::new(7).equals(&Fq::new(FQ_MODULUS + 7)));
    assert!(Fq::new(7).less_than(&Fq::new(8)));
    assert!(!Fq::new(8).less_than(&Fq::new(8)));
}

#[test]
fn field_arithmetic() {
    let a = Fq::new(2147483640);
    let b = Fq::new(100);
    assert_eq!(a.add(&b).to_u64(), 93);
    assert_eq!(b.sub(&a).to_u64(), 107);
    assert_eq!(a.sub(&b).to_u64(), 2147483540);
    assert_eq!(a.mul(&b).to_u64(), 2147482947);
    assert_eq!(a.neg().to_u64(), 7);
    assert_eq!(Fq::zero().neg().to_u64(), 0);
    assert_eq!(a.square().to_u64(), 49);
    assert_eq!(a.double().to_u64(), 2147483633);
    assert_eq!(Fr::new(165188040).add(&Fr::new(2)).to_u64(), 1);
    assert_eq!(Fr::new(165188040).mul(&Fr::new(165188040)).to_u64(), 1);
    assert_eq!(Fq::new(BETA).square().mul(&Fq::new(BETA)).to_u64(), 1);
    assert_eq!(Fr::new(LAMBDA).square().mul(&Fr::new(LAMBDA)).to_u64(), 1);
}

#[test]
fn inverses() {
    assert!(Fq::zero().inverse().is_none());
    assert!(Fr::zero().inverse().is_none());
    assert_eq!(Fq::one().inverse().unwrap().to_u64(), 1);
    assert_eq!(Fq::new(2).inverse().unwrap().to_u64(), 1073741824);
    assert_eq!(Fq::new(5).inverse().unwrap().to_u64(), 858993459);
    assert_eq!(Fq::new(1234567).inverse().unwrap().to_u64(), 934930065);
    let mut rng = StdRng::seed_from_u64(51);
    for _ in 0..200 {
        let a = Fq::new(rng.gen_range(1..FQ_MODULUS));
        assert_eq!(a.mul(&a.inverse().unwrap()).to_u64(), 1);
        let s = Fr::new(rng.gen_range(1..FR_MODULUS));
        assert_eq!(s.mul(&s.inverse().unwrap()).to_u64(), 1);
    }
}

#[test]
fn square_roots() {
    assert_eq!(Fq::new(4).sqrt().unwrap().to_u64(), 2);
    assert_eq!(Fq::new(13).sqrt().unwrap().to_u64(), 909664331);
    assert_eq!(Fq::new(2).sqrt().unwrap().to_u64(), 65536);
    assert_eq!(Fq::zero().sqrt().unwrap().to_u64(), 0);
    assert!(Fq::new(5).sqrt().is_none());
    assert!(Fq::new(3).sqrt().is_none());
    let mut rng = StdRng::seed_from_u64(52);
    for _ in 0..100 {
        let a = Fq::new(rng.gen_range(0..FQ_MODULUS));
        let root = a.square().sqrt().unwrap();
        assert_eq!(root.square().to_u64(), a.square().to_u64());
    }
}

#[test]
fn sums_of_products() {
    let a = [Fq::new(3), Fq::new(2147483646), Fq::new(10)];
    let b = [Fq::new(5), Fq::new(7), Fq::new(2147483000)];
    assert_eq!(sum_of_products(&a, &b).to_u64(), (15 + 2147483647 - 7 + 2147483647 * 3 - 6470) % 2147483647);
    assert_eq!(sum_of_products(&a[..2], &b).to_u64(), 8);
    assert_eq!(sum_of_products(&a, &b[..1]).to_u64(), 15);
    assert_eq!(sum_of_products::<Fq>(&[], &[]).to_u64(), 0);
}

#[test]
fn big_integers() {
    let mut n = BigInteger::new(vec![u64::MAX, u64::MAX]);
    assert!(n.is_odd());
    assert!(!n.is_zero());
    assert_eq!(n.low_u64(), u64::MAX);
    n.add_nocarry(1);
    assert_eq!(n.limbs, vec![0, 0, 1]);
    assert!(!n.is_odd());
    n.sub_noborrow(1);
    assert_eq!(n.limbs, vec![u64::MAX, u64::MAX, 0]);
    n.div2();
    assert_eq!(n.limbs, vec![u64::MAX, u64::MAX >> 1, 0]);
    let mut m = BigInteger::new(vec![6, 1]);
    m.div2();
    assert_eq!(m.limbs, vec![3 + (1 << 63), 0]);
    m.sub_noborrow(3 + (1 << 63));
    assert!(m.is_zero());
    assert!(BigInteger::new(vec![]).is_zero());
    assert!(!BigInteger::new(vec![]).is_odd());
    assert_eq!(BigInteger::new(vec![]).low_u64(), 0);
    let mut e = BigInteger::new(vec![]);
    e.add_nocarry(9);
    assert_eq!(e.limbs, vec![9]);
    e.add_nocarry(0);
    assert_eq!(e.limbs, vec![9]);
    assert_eq!(BigInteger::from_u64(13).to_bits_le(), vec![true, false, true, true]);
    assert_eq!(BigInteger::from_u64(0).to_bits_le(), Vec::<bool>::new());
    assert_eq!(BigInteger::new(vec![0, 1]).to_bits_le().len(), 65);
    assert_eq!(BigInteger::new(vec![5, 7]).duplicate().limbs, vec![5, 7]);
    assert_eq!(Fr::new(77).to_repr().limbs, vec![77]);
}

#[test]
fn signed_residues() {
    assert_eq!(mod_signed(0), 0);
    assert_eq!(mod_signed(15), 15);
    assert_eq!(mod_signed(16), -16);
    assert_eq!(mod_signed(17), -15);
    assert_eq!(mod_signed(31), -1);
    assert_eq!(mod_signed(32), 0);
    assert_eq!(mod_signed(u64::MAX), -1);
}

#[test]
fn recoding_in_windowed_non_adjacent_form() {
    assert_eq!(to_wnaf(BigInteger::from_u64(0)), Vec::<i32>::new());
    assert_eq!(to_wnaf(BigInteger::from_u64(1)), vec![1]);
    assert_eq!(to_wnaf(BigInteger::from_u64(7)), vec![7]);
    assert_eq!(to_wnaf(BigInteger::from_u64(15)), vec![15]);
    assert_eq!(to_wnaf(BigInteger::from_u64(16)), vec![0, 0, 0, 0, 1]);
    assert_eq!(to_wnaf(BigInteger::from_u64(17)), vec![-15, 0, 0, 0, 0, 1]);
    assert_eq!(to_wnaf(BigInteger::from_u64(31)), vec![-1, 0, 0, 0, 0, 1]);
    assert_eq!(to_wnaf(BigInteger::from_u64(255)), vec![-1, 0, 0, 0, 0, 0, 0, 0, 1]);
    assert_eq!(to_wnaf(BigInteger::from_u64(1000)), vec![0, 0, 0, -3, 0, 0, 0, 0, 0, 0, 1]);
    // the carry runs through a whole limb and into a new one
    let mut expected = vec![0; 65];
    expected[0] = -1;
    expected[64] = 1;
    assert_eq!(to_wnaf(BigInteger::from_u64(u64::MAX)), expected);
    let mut expected = vec![0; 71];
    expected[0] = -3;
    expected[5] = 1;
    expected[70] = 1;
    assert_eq!(to_wnaf(BigInteger::new(vec![29, 64])), expected);
    let mut digits = vec![-15, 0, 0, 0, 0, 1];
    negate_digits(&mut digits);
    assert_eq!(digits, vec![15, 0, 0, 0, 0, -1]);
}

#[test]
fn a_recoding_stands_for_the_number_it_was_made_of() {
    let mut rng = StdRng::seed_from_u64(53);
    for _ in 0..200 {
        let limbs = vec![rng.gen::<u64>(), rng.gen::<u64>() >> 8];
        let value = (limbs[0] as i128) + ((limbs[1] as i128) << 64);
        let digits = to_wnaf(BigInteger::new(limbs));
        let mut sum: i128 = 0;
        for (i, d) in digits.iter().enumerate().rev() {
            assert!(*d == 0 || (d % 2 != 0 && -16 < *d && *d < 16));
            if *d != 0 {
                for later in digits.iter().skip(i + 1).take(4) {
                    assert_eq!(*later, 0);
                }
            }
            sum = sum * 2 + *d as i128;
            let _ = i;
        }
        assert_eq!(sum, value);
    }
}
