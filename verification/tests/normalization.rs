use rand::rngs::StdRng;
use rand::{Rng, SeedableRng};
use sw_jacobian::field::Field;
use sw_jacobian::m31::{Fq, M31Parameters, FQ_MODULUS};
use sw_jacobian::projective::Projective;

type G = Projective<M31Parameters>;

fn coordinates(p: &G) -> (u64, u64, u64) {
    (p.x.to_u64(), p.y.to_u64(), p.z.to_u64())
}

fn random_point(rng: &mut StdRng) -> G {
    let mut acc = G::prime_subgroup_generator();
    let steps = rng.gen_range(1..40);
    for _ in 0..steps {
        acc.double_in_place();
        if rng.gen::<bool>() {
            acc.add_assign(&G::prime_subgroup_generator());
        }
    }
    let c = Fq::new(rng.gen_range(2..FQ_MODULUS));
    let c2 = c.square();
    G::new(c2.mul(&acc.x), c2.mul(&c).mul(&acc.y), c.mul(&acc.z))
}

#[test]
fn a_batch_of_a_hundred_random_points_is_normalized() {
    let mut rng = StdRng::seed_from_u64(21);
    let mut batch: Vec<G> = Vec::new();
    for _ in 0..100 {
        let p = random_point(&mut rng);
        assert!(!p.is_zero());
        batch.push(p);
    }
    let before = batch.clone();
    G::batch_normalization(&mut batch);
    assert_eq!(batch.len(), 100);
    for (normalized, given) in batch.iter().zip(before.iter()) {
        assert_eq!(normalized.z.to_u64(), 1);
        let affine = given.to_affine();
        assert_eq!(normalized.x.to_u64(), affine.x.to_u64());
        assert_eq!(normalized.y.to_u64(), affine.y.to_u64());
        assert!(normalized == given);
    }
}

#[test]
fn normalization_leaves_normalized_points_and_the_identity_alone() {
    let g = G::prime_subgroup_generator();
    let d = g.double();
    let odd = G::new(Fq::new(17), Fq::new(4), Fq::new(0));
    let mut batch = vec![G::zero(), g, d, odd, d.double(), g];
    G::batch_normalization(&mut batch);
    assert_eq!(coordinates(&batch[0]), (0, 1, 0));
    assert_eq!(coordinates(&batch[1]), (2051576885, 897205941, 1));
    assert_eq!(coordinates(&batch[2]), (1689339888, 1745975480, 1));
    assert_eq!(coordinates(&batch[3]), (17, 4, 0));
    assert_eq!(batch[4].z.to_u64(), 1);
    assert!(batch[4] == d.double());
    assert_eq!(coordinates(&batch[5]), (2051576885, 897205941, 1));
    // a second normalization changes nothing
    let once = batch.clone();
    G::batch_normalization(&mut batch);
    for (a, b) in batch.iter().zip(once.iter()) {
        assert_eq!(coordinates(a), coordinates(b));
    }
}

#[test]
fn normalization_of_nothing_and_of_one_point() {
    let mut empty: Vec<G> = Vec::new();
    G::batch_normalization(&mut empty);
    assert!(empty.is_empty());
    let mut one = vec![G::prime_subgroup_generator().double()];
    G::batch_normalization(&mut one);
    assert_eq!(coordinates(&one[0]), (1689339888, 1745975480, 1));
}

#[test]
fn the_two_halves_of_normalization() {
    let d = G::prime_subgroup_generator().double();
    let mut batch = vec![d, G::zero(), d.double()];
    G::batch_inversion(&mut batch);
    // Z holds the inverse of what it was; X and Y are as they were
    assert_eq!(batch[0].x.to_u64(), d.x.to_u64());
    assert_eq!(batch[0].y.to_u64(), d.y.to_u64());
    assert_eq!(batch[0].z.mul(&d.z).to_u64(), 1);
    assert_eq!(coordinates(&batch[1]), (0, 1, 0));
    assert_eq!(batch[2].z.mul(&d.double().z).to_u64(), 1);
    for p in batch.iter_mut() {
        p.apply_inverse();
    }
    assert_eq!(coordinates(&batch[0]), (1689339888, 1745975480, 1));
    assert_eq!(coordinates(&batch[1]), (0, 1, 0));
    assert!(batch[2] == d.double());
    assert_eq!(batch[2].z.to_u64(), 1);
}

#[test]
fn normalization_into_affine_points() {
    let g = G::prime_subgroup_generator();
    let d = g.double();
    let affine = G::batch_normalization_into_affine(vec![d, G::zero(), g]);
    assert_eq!(affine.len(), 3);
    assert_eq!((affine[0].x.to_u64(), affine[0].y.to_u64(), affine[0].infinity), (1689339888, 1745975480, false));
    assert!(affine[1].infinity);
    assert_eq!((affine[2].x.to_u64(), affine[2].y.to_u64(), affine[2].infinity), (2051576885, 897205941, false));
}
