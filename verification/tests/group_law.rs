use rand::rngs::StdRng;
use rand::{Rng, SeedableRng};
use sw_jacobian::affine::Affine;
use sw_jacobian::field::Field;
use sw_jacobian::m31::{Fq, M31IsogenousParameters, M31Parameters, FQ_MODULUS};
use sw_jacobian::projective::Projective;

type G = Projective<M31Parameters>;
type H = Projective<M31IsogenousParameters>;

fn coordinates(p: &G) -> (u64, u64, u64) {
    (p.x.to_u64(), p.y.to_u64(), p.z.to_u64())
}

fn coordinates_h(p: &H) -> (u64, u64, u64) {
    (p.x.to_u64(), p.y.to_u64(), p.z.to_u64())
}

fn point(x: u64, y: u64, z: u64) -> G {
    G::new(Fq::new(x), Fq::new(y), Fq::new(z))
}

/// A point of the curve with `Z` other than one: a small multiple of the
/// generator, rescaled by a random factor.
fn random_point(rng: &mut StdRng) -> G {
    let mut acc = G::prime_subgroup_generator();
    let steps = rng.gen_range(1..40);
    for _ in 0..steps {
        acc.double_in_place();
        if rng.gen::<bool>() {
            acc.add_assign(&G::prime_subgroup_generator());
        }
    }
    let c = Fq::new(rng.gen_range(2..FQ_MODULUS));
    let c2 = c.square();
    G::new(c2.mul(&acc.x), c2.mul(&c).mul(&acc.y), c.mul(&acc.z))
}

#[test]
fn identity_plus_identity_is_identity() {
    let z = G::zero();
    assert_eq!(coordinates(&z), (0, 1, 0));
    assert_eq!(coordinates(&z.add(&z)), (0, 1, 0));
    assert_eq!(coordinates(&G::default()), (0, 1, 0));
}

#[test]
fn doubling_the_identity_gives_the_identity() {
    let d = G::zero().double();
    assert!(d.is_zero());
    assert_eq!(coordinates(&d), (0, 1, 0));
    let mut e = H::zero();
    e.double_in_place();
    assert_eq!(coordinates_h(&e), (0, 1, 0));
}

#[test]
fn a_point_plus_its_negation_is_the_identity() {
    let mut rng = StdRng::seed_from_u64(11);
    for _ in 0..20 {
        let p = random_point(&mut rng);
        let negated = G::new(p.x, p.y.neg(), p.z);
        assert_eq!(coordinates(&p.neg()), coordinates(&negated));
        assert!(p.add(&negated).is_zero());
        assert!(p.add(&p.neg()).is_zero());
        assert!(p.neg().add(&p).is_zero());
        assert!(p.sub(&p).is_zero());
        assert!(p.add(&negated) == G::zero());
    }
    assert_eq!(coordinates(&G::zero().neg()), (0, 1, 0));
}

#[test]
fn a_point_of_order_two_plus_itself_is_the_identity() {
    // Y = 0: the point is its own negation, and the sum goes through doubling.
    let p = point(3, 0, 1);
    assert!(p.add(&p.neg()).is_zero());
    assert!(p.double().is_zero());
    let q = H::new(Fq::new(3), Fq::new(0), Fq::new(5));
    assert!(q.add(&q.neg()).is_zero());
}

#[test]
fn doubling_follows_the_formula_for_a_zero() {
    let g = G::prime_subgroup_generator();
    assert_eq!(coordinates(&g), (2051576885, 897205941, 1));
    let d = g.double();
    assert_eq!(coordinates(&d), (1543770239, 1638905694, 1794411882));
    assert_eq!(coordinates(&d.double()), (33799666, 2001237721, 2079437648));
}

#[test]
fn doubling_follows_the_formula_for_a_not_zero() {
    let g = H::prime_subgroup_generator();
    assert_eq!(coordinates_h(&g), (172902292, 1003529148, 1));
    let d = g.double();
    assert_eq!(coordinates_h(&d), (907859554, 579228701, 2007058296));
    assert_eq!(coordinates_h(&d.double()), (25268500, 456092266, 1671017999));
    assert_eq!(coordinates_h(&d.add(&g)), (1906655298, 2085744103, 1257088247));
}

#[test]
fn addition_follows_the_formula() {
    let g = G::prime_subgroup_generator();
    let d = g.double();
    assert_eq!(coordinates(&d.add(&g)), (139223910, 936015539, 664885336));
    let mut acc = d;
    acc.add_assign(&g);
    assert_eq!(coordinates(&acc), (139223910, 936015539, 664885336));
    let affine = Affine::<M31Parameters>::prime_subgroup_generator();
    assert_eq!(coordinates(&d.add_mixed(&affine)), (139223910, 936015539, 664885336));
}

#[test]
fn doubling_is_adding_a_point_to_itself() {
    let mut rng = StdRng::seed_from_u64(12);
    for _ in 0..20 {
        let p = random_point(&mut rng);
        assert_eq!(coordinates(&p.double()), coordinates(&p.add(&p)));
        let q = H::new(p.x, p.y, p.z);
        assert_eq!(coordinates_h(&q.double()), coordinates_h(&q.add(&q)));
    }
    // the same point under another triple
    let g = G::prime_subgroup_generator();
    let c = Fq::new(77);
    let scaled = G::new(c.square().mul(&g.x), c.square().mul(&c).mul(&g.y), c.mul(&g.z));
    assert!(g.add(&scaled) == g.double());
}

#[test]
fn addition_is_associative_and_commutative() {
    let mut rng = StdRng::seed_from_u64(13);
    for _ in 0..20 {
        let p = random_point(&mut rng);
        let q = random_point(&mut rng);
        let r = random_point(&mut rng);
        assert!(p.add(&q.add(&r)) == p.add(&q).add(&r));
        assert!(p.add(&q) == q.add(&p));
        assert!(p.add(&G::zero()) == p);
        assert!(G::zero().add(&p) == p);
        assert_eq!(coordinates(&p.add(&G::zero())), coordinates(&p));
        assert_eq!(coordinates(&G::zero().add(&p)), coordinates(&p));
        assert!(p.sub(&q).add(&q) == p);
        assert!(p.add(&q).sub(&q) == p);
        assert!(p.neg().add(&q.neg()) == p.add(&q).neg());
    }
}

#[test]
fn mixed_addition_agrees_with_general_addition() {
    let mut rng = StdRng::seed_from_u64(14);
    for _ in 0..20 {
        let p = random_point(&mut rng);
        let q = random_point(&mut rng).to_affine();
        let general = p.add(&q.to_projective());
        let mixed = p.add_mixed(&q);
        assert!(general == mixed);
        assert_eq!(coordinates(&general), coordinates(&mixed));
        // the doubling case
        let same = p.to_affine();
        assert_eq!(coordinates(&p.add_mixed(&same)), coordinates(&p.double()));
        // the identity on either side
        assert_eq!(coordinates(&p.add_mixed(&Affine::zero())), coordinates(&p));
        let lifted = G::zero().add_mixed(&q);
        assert_eq!(coordinates(&lifted), (q.x.to_u64(), q.y.to_u64(), 1));
    }
    let mut acc = point(4, 9, 0);
    acc.add_assign_mixed(&Affine::zero());
    assert_eq!(coordinates(&acc), (4, 9, 0));
}

#[test]
fn equality_respects_scaling() {
    let mut rng = StdRng::seed_from_u64(15);
    for _ in 0..20 {
        let p = random_point(&mut rng);
        let c = Fq::new(rng.gen_range(1..FQ_MODULUS));
        let scaled = G::new(c.square().mul(&p.x), c.square().mul(&c).mul(&p.y), c.mul(&p.z));
        assert!(p == scaled);
        assert!(scaled == p);
        assert!(p.to_affine().x.equals(&scaled.to_affine().x));
        assert!(p.eq_affine(&scaled.to_affine()));
        let other = p.double();
        assert!(p != other);
        assert!(!p.eq_affine(&other.to_affine()));
    }
    assert!(point(1, 2, 0) == point(7, 7, 0));
    assert!(point(1, 2, 0) != point(1, 2, 1));
    assert!(point(1, 2, 1) != point(1, 2, 0));
    assert!(point(1, 2, 1) != point(1, 3, 1));
    assert!(point(5, 9, 0).eq_affine(&Affine::zero()));
    assert!(!point(5, 9, 1).eq_affine(&Affine::zero()));
    assert!(!point(5, 9, 0).eq_affine(&Affine::new(Fq::new(5), Fq::new(9), false)));
}

#[test]
fn conversions_between_affine_and_jacobian() {
    let g = G::prime_subgroup_generator();
    let d = g.double();
    let affine = d.to_affine();
    assert_eq!((affine.x.to_u64(), affine.y.to_u64(), affine.infinity), (1689339888, 1745975480, false));
    assert_eq!(coordinates(&G::from_affine(affine)), (1689339888, 1745975480, 1));
    assert_eq!(coordinates(&affine.to_projective()), (1689339888, 1745975480, 1));
    let zero = G::zero().to_affine();
    assert!(zero.is_zero());
    assert_eq!((zero.x.to_u64(), zero.y.to_u64()), (0, 1));
    assert_eq!(coordinates(&G::from_affine(Affine::zero())), (0, 1, 0));
    let negated = affine.neg();
    assert_eq!((negated.x.to_u64(), negated.y.to_u64()), (1689339888, FQ_MODULUS - 1745975480));
    assert!(Affine::<M31Parameters>::zero().neg().is_zero());
    assert!(g.is_normalized());
    assert!(!d.is_normalized());
    assert!(G::zero().is_normalized());
}

fn on_curve(p: &G) -> bool {
    let affine = p.to_affine();
    let holds =
        affine.infinity || affine.y.square().equals(&affine.x.square().mul(&affine.x).add(&Fq::new(5)));
    assert_eq!(affine.is_on_curve(), holds);
    holds
}

fn on_curve_h(p: &H) -> bool {
    let affine = p.to_affine();
    let rhs = affine.x.square().mul(&affine.x).add(&Fq::new(29).mul(&affine.x)).add(&Fq::new(1948768455));
    let holds = affine.infinity || affine.y.square().equals(&rhs);
    assert_eq!(affine.is_on_curve(), holds);
    holds
}

#[test]
fn the_operations_stay_on_the_curve() {
    let mut rng = StdRng::seed_from_u64(16);
    for _ in 0..20 {
        let p = random_point(&mut rng);
        let q = random_point(&mut rng);
        assert!(on_curve(&p) && on_curve(&q));
        assert!(on_curve(&p.add(&q)));
        assert!(on_curve(&p.double()));
        assert!(on_curve(&p.neg()));
        assert!(on_curve(&p.sub(&q)));
        assert!(on_curve(&p.add_mixed(&q.to_affine())));
    }
    let h = H::prime_subgroup_generator();
    assert!(on_curve_h(&h));
    assert!(on_curve_h(&h.double()));
    assert!(on_curve_h(&h.double().add(&h)));
    assert!(on_curve(&G::zero()));
    assert!(!on_curve(&point(1, 1, 1)));
}

#[test]
fn addition_is_the_chord_and_doubling_the_tangent() {
    let g = G::prime_subgroup_generator();
    let d = g.double();
    // the sum of 2G and G by the chord
    let (x1, y1) = (d.to_affine().x, d.to_affine().y);
    let (x2, y2) = (g.x, g.y);
    let slope = y2.sub(&y1).mul(&x2.sub(&x1).inverse().unwrap());
    let x3 = slope.square().sub(&x1).sub(&x2);
    let y3 = slope.mul(&x1.sub(&x3)).sub(&y1);
    let sum = d.add(&g).to_affine();
    assert_eq!((sum.x.to_u64(), sum.y.to_u64()), (x3.to_u64(), y3.to_u64()));
    // twice G by the tangent
    let slope = Fq::new(3).mul(&x2.square()).mul(&y2.double().inverse().unwrap());
    let x3 = slope.square().sub(&x2).sub(&x2);
    let y3 = slope.mul(&x2.sub(&x3)).sub(&y2);
    assert_eq!((x1.to_u64(), y1.to_u64()), (x3.to_u64(), y3.to_u64()));
}

#[test]
fn off_the_curve_addition_is_not_associative() {
    // none of the three lies on y^2 = x^3 + 5
    let (p, q, r) = (point(1, 1, 1), point(2, 3, 1), point(4, 5, 1));
    assert!(!on_curve(&p) && !on_curve(&q) && !on_curve(&r));
    assert!(p.add(&q).add(&r) != p.add(&q.add(&r)));
    // commutativity holds of them all the same
    assert!(p.add(&q) == q.add(&p));
    assert!(p.add(&p.neg()).is_zero());
}
