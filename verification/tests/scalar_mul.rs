use rand::rngs::StdRng;
use rand::{Rng, SeedableRng};
use sw_jacobian::affine::Affine;
use sw_jacobian::field::{Field, PrimeField};
use sw_jacobian::m31::{Fq, Fr, M31IsogenousParameters, M31Parameters, FR_MODULUS, LAMBDA};
use sw_jacobian::parameters::Parameters;
use sw_jacobian::projective::Projective;

type G = Projective<M31Parameters>;
type H = Projective<M31IsogenousParameters>;

fn coordinates(p: &G) -> (u64, u64, u64) {
    (p.x.to_u64(), p.y.to_u64(), p.z.to_u64())
}

fn coordinates_h(p: &H) -> (u64, u64, u64) {
    (p.x.to_u64(), p.y.to_u64(), p.z.to_u64())
}

fn naive_mul(p: &G, k: u64) -> G {
    let mut acc = G::zero();
    let mut i = 64;
    while i > 0 {
        i -= 1;
        acc.double_in_place();
        if (k >> i) & 1 == 1 {
            acc.add_assign(p);
        }
    }
    acc
}

fn naive_mul_h(p: &H, k: u64) -> H {
    let mut acc = H::zero();
    let mut i = 64;
    while i > 0 {
        i -= 1;
        acc.double_in_place();
        if (k >> i) & 1 == 1 {
            acc.add_assign(p);
        }
    }
    acc
}

#[test]
fn the_generator_has_the_order_of_the_subgroup() {
    let g = G::prime_subgroup_generator();
    assert!(g.y.square().equals(&g.x.square().mul(&g.x).add(&Fq::new(5))));
    assert!(naive_mul(&g, FR_MODULUS).is_zero());
    assert!(!naive_mul(&g, 13).is_zero());
    let h = H::prime_subgroup_generator();
    let rhs = h.x.square().mul(&h.x).add(&Fq::new(29).mul(&h.x)).add(&Fq::new(1948768455));
    assert!(h.y.square().equals(&rhs));
    assert!(naive_mul_h(&h, FR_MODULUS).is_zero());
}

#[test]
fn scalar_multiplication_gives_the_expected_triples() {
    let g = G::prime_subgroup_generator();
    assert_eq!(coordinates(&g.mul(Fr::new(5))), (1415809464, 2116827989, 1));
    assert_eq!(coordinates(&g.mul(Fr::new(1000))), (478287787, 1133179237, 1881669995));
    assert_eq!(coordinates(&g.mul(Fr::new(12345678))), (840296934, 742596154, 1921792259));
    assert_eq!(coordinates(&g.mul(Fr::new(165188040))), (2051576885, 1250277706, 1));
    let h = H::prime_subgroup_generator();
    assert_eq!(coordinates_h(&h.mul(Fr::new(5))), (56901176, 993395340, 1));
    assert_eq!(coordinates_h(&h.mul(Fr::new(1000))), (476846132, 715924321, 2068037793));
    assert_eq!(coordinates_h(&h.mul(Fr::new(12345678))), (1731852115, 937205896, 835944126));
    assert_eq!(coordinates_h(&h.mul(Fr::new(165188040))), (1626871530, 2074064734, 1324605821));
    let mut acc = g;
    acc.mul_assign(Fr::new(1000));
    assert_eq!(coordinates(&acc), (478287787, 1133179237, 1881669995));
}

#[test]
fn scalar_multiplication_agrees_with_double_and_add() {
    let g = G::prime_subgroup_generator();
    let mut rng = StdRng::seed_from_u64(31);
    let mut scalars: Vec<u64> = vec![0, 1, 2, 3, 15, 16, 17, 31, 32, 33, 65535, 65536, 82594020, 82594021, 165188040];
    for _ in 0..60 {
        scalars.push(rng.gen_range(0..FR_MODULUS));
    }
    for k in scalars {
        let base = naive_mul(&g, 1 + k % 7);
        let fast = base.mul(Fr::new(k));
        let slow = naive_mul(&base, k);
        assert!(fast == slow);
        assert_eq!(fast.to_affine().x.to_u64(), slow.to_affine().x.to_u64());
        assert_eq!(fast.to_affine().y.to_u64(), slow.to_affine().y.to_u64());
    }
}

#[test]
fn scalar_multiplication_agrees_with_double_and_add_where_a_is_not_zero() {
    let g = H::prime_subgroup_generator();
    let mut rng = StdRng::seed_from_u64(32);
    let mut scalars: Vec<u64> = vec![0, 1, 2, 3, 15, 16, 17, 31, 32, 33, 65535, 165188040];
    for _ in 0..40 {
        scalars.push(rng.gen_range(0..FR_MODULUS));
    }
    for k in scalars {
        let fast = g.mul(Fr::new(k));
        let slow = naive_mul_h(&g, k);
        assert!(fast == slow);
    }
}

#[test]
fn multiples_by_zero_and_one_and_of_the_identity() {
    let g = G::prime_subgroup_generator();
    let d = g.double();
    assert_eq!(coordinates(&d.mul(Fr::new(0))), (0, 1, 0));
    assert!(d.mul(Fr::new(1)) == d);
    assert_eq!(coordinates(&d.mul(Fr::new(1))), (1689339888, 1745975480, 1));
    for k in [0u64, 1, 2, 1000, 12345678, 165188040] {
        assert_eq!(coordinates(&G::zero().mul(Fr::new(k))), (0, 1, 0));
        assert_eq!(coordinates_h(&H::zero().mul(Fr::new(k))), (0, 1, 0));
    }
    let odd = G::new(Fq::new(9), Fq::new(8), Fq::new(0));
    assert_eq!(coordinates(&odd.mul(Fr::new(12345678))), (0, 1, 0));
}

#[test]
fn the_endomorphism_multiplies_by_lambda() {
    let g = G::prime_subgroup_generator();
    let image = M31Parameters::glv_endomorphism(g.to_affine());
    assert_eq!((image.x.to_u64(), image.y.to_u64(), image.infinity), (104818282, 897205941, false));
    assert!(naive_mul(&g, LAMBDA).eq_affine(&image));
    assert!(M31Parameters::glv_endomorphism(Affine::zero()).is_zero());
    let same = M31IsogenousParameters::glv_endomorphism(H::prime_subgroup_generator().to_affine());
    assert_eq!((same.x.to_u64(), same.y.to_u64()), (172902292, 1003529148));
}

#[test]
fn a_scalar_splits_in_two_halves() {
    let cases: [(u64, (u64, u64, bool, bool)); 7] = [
        (0, (0, 0, false, true)),
        (1, (1, 0, false, true)),
        (2, (2, 0, false, true)),
        (1000, (1000, 0, false, true)),
        (12345678, (4743, 1224, true, true)),
        (165188040, (1, 0, true, true)),
        (82594020, (4874, 2408, false, false)),
    ];
    for (k, expected) in cases {
        let (k1, k2, s1, s2) = M31Parameters::decompose(&Fr::new(k));
        assert_eq!((k1.to_u64(), k2.to_u64(), s1, s2), expected);
        let (k1, k2, s1, s2) = M31IsogenousParameters::decompose(&Fr::new(k));
        assert_eq!((k1.to_u64(), k2.to_u64(), s1, s2), (k, 0, false, true));
    }
    let mut rng = StdRng::seed_from_u64(33);
    for _ in 0..200 {
        let k = rng.gen_range(0..FR_MODULUS);
        let (k1, k2, s1, s2) = M31Parameters::decompose(&Fr::new(k));
        // both halves have about half the bits of the scalar
        assert!(k1.to_u64() < 1 << 15);
        assert!(k2.to_u64() < 1 << 15);
        let first = if s1 { k1.neg() } else { k1 };
        let second = if s2 { k2 } else { k2.neg() };
        let sum = first.add(&second.mul(&Fr::new(LAMBDA)));
        assert_eq!(sum.to_u64(), k);
    }
    assert_eq!(Fr::new(12345678).to_repr().limbs, vec![12345678]);
}

#[test]
fn points_from_an_x_coordinate() {
    // 2^3 + 5 = 13 is a square, 0^3 + 5 and 1^3 + 5 are none
    assert!(Affine::<M31Parameters>::from_x_coordinate(Fq::new(0), false).is_none());
    assert!(Affine::<M31Parameters>::from_x_coordinate(Fq::new(1), true).is_none());
    let small = Affine::<M31Parameters>::from_x_coordinate(Fq::new(2), false).unwrap();
    assert_eq!((small.x.to_u64(), small.y.to_u64(), small.infinity), (2, 909664331, false));
    let great = Affine::<M31Parameters>::from_x_coordinate(Fq::new(2), true).unwrap();
    assert_eq!((great.x.to_u64(), great.y.to_u64(), great.infinity), (2, 1237819316, false));
    let other = Affine::<M31Parameters>::from_x_coordinate(Fq::new(3), true).unwrap();
    assert_eq!((other.x.to_u64(), other.y.to_u64()), (3, 2147221503));
    let first = Affine::<M31IsogenousParameters>::from_x_coordinate(Fq::new(1), false).unwrap();
    assert!(first.y.to_u64() == 1239619056 || first.y.to_u64() == 2147483647 - 1239619056);
    assert!(first.y.to_u64() < 2147483647 - first.y.to_u64());
}

#[test]
fn multiplication_by_the_cofactor_lands_in_the_subgroup() {
    let small = Affine::<M31Parameters>::from_x_coordinate(Fq::new(2), false).unwrap();
    let lifted = small.mul_by_cofactor_to_projective();
    assert_eq!(coordinates(&lifted), (1612959700, 294226050, 2116187686));
    assert!(lifted == G::prime_subgroup_generator());
    assert!(naive_mul(&lifted, FR_MODULUS).is_zero());
    assert_eq!(coordinates(&small.mul_bits(&vec![true, false, true, true])), (1612959700, 294226050, 2116187686));
    assert_eq!(coordinates(&small.mul_bits(&vec![])), (0, 1, 0));
    assert_eq!(coordinates(&small.mul_bits(&vec![true])), (2, 909664331, 1));
    assert_eq!(M31Parameters::cofactor().limbs, vec![13]);
}

#[test]
fn one_attempt_at_a_random_point() {
    assert!(G::sample_from(Fq::new(0), true).is_none());
    assert!(G::sample_from(Fq::new(1), false).is_none());
    let p = G::sample_from(Fq::new(2), false).unwrap();
    assert_eq!(coordinates(&p), (1612959700, 294226050, 2116187686));
    let q = G::sample_from(Fq::new(2), true).unwrap();
    assert_eq!(coordinates(&q), (1612959700, 294226050, 31295961));
    assert!(q == G::prime_subgroup_generator().neg());
    let mut rng = StdRng::seed_from_u64(34);
    let mut found = 0;
    for _ in 0..200 {
        let x = Fq::new(rng.gen_range(0..2147483647u64));
        if let Some(p) = G::sample_from(x, rng.gen()) {
            found += 1;
            assert!(naive_mul(&p, FR_MODULUS).is_zero());
        }
    }
    assert!(found > 50);
}

#[test]
fn a_multiple_is_the_point_added_to_itself() {
    let g = G::prime_subgroup_generator().double();
    let mut sum = G::zero();
    for k in 0..40u64 {
        assert!(g.mul(Fr::new(k)) == sum);
        assert!(naive_mul(&g, k) == sum);
        sum = sum.add(&g);
    }
    let h = H::prime_subgroup_generator();
    let mut sum = H::zero();
    for k in 0..40u64 {
        assert!(h.mul(Fr::new(k)) == sum);
        sum = sum.add(&h);
    }
}

#[test]
fn multiples_add_up_and_compose() {
    let g = G::prime_subgroup_generator();
    let mut rng = StdRng::seed_from_u64(35);
    for _ in 0..20 {
        let m = rng.gen_range(0..FR_MODULUS);
        let n = rng.gen_range(0..FR_MODULUS);
        let sum = Fr::new(m).add(&Fr::new(n));
        let product = Fr::new(m).mul(&Fr::new(n));
        assert!(g.mul(sum) == g.mul(Fr::new(m)).add(&g.mul(Fr::new(n))));
        assert!(g.mul(product) == g.mul(Fr::new(n)).mul(Fr::new(m)));
        assert!(g.mul(Fr::new(m).neg()) == g.mul(Fr::new(m)).neg());
    }
}

#[test]
fn outside_the_subgroup_the_endomorphism_does_not_multiply() {
    // a point whose order is a multiple of the cofactor
    let outside = Affine::<M31Parameters>::from_x_coordinate(Fq::new(2), false).unwrap().to_projective();
    assert!(!naive_mul(&outside, FR_MODULUS).is_zero());
    let image = M31Parameters::glv_endomorphism(outside.to_affine());
    assert!(!naive_mul(&outside, LAMBDA).eq_affine(&image));
    // and scalar multiplication differs from doubling and adding there
    assert!(outside.mul(Fr::new(7654321)) != naive_mul(&outside, 7654321));
    // where the scalar is its own first half, both agree anywhere
    assert!(outside.mul(Fr::new(1000)) == naive_mul(&outside, 1000));
}
