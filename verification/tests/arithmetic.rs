use curve25519_dalek::ristretto::CompressedRistretto as DalekCompressed;
use curve25519_dalek::scalar::Scalar as DalekScalar;
use pvss::ristretto::{CompressedRistretto, RistrettoPoint};
use pvss::scalar::Scalar;
use pvss::threshold::{f32_round_exec, threshold_rule_holds};

fn point(seed: u8) -> RistrettoPoint {
    let mut bytes = [0u8; 64];
    for (i, b) in bytes.iter_mut().enumerate() {
        *b = seed.wrapping_mul(31).wrapping_add(i as u8);
    }
    RistrettoPoint::from_uniform_bytes(&bytes)
}

fn dalek_point(p: &RistrettoPoint) -> curve25519_dalek::RistrettoPoint {
    DalekCompressed(p.compress().0).decompress().unwrap()
}

fn dalek_scalar(s: &Scalar) -> DalekScalar {
    DalekScalar::from_canonical_bytes(s.to_bytes()).unwrap()
}

#[test]
fn scalar_arithmetic_matches_the_integers() {
    let six = Scalar::from_u64(6);
    let seven = Scalar::from_u64(7);
    assert_eq!(six.mul(&seven), Scalar::from_u64(42));
    assert_eq!(six.add(&seven), Scalar::from_u64(13));
    assert!(six != seven);
}

#[test]
fn scalar_inverse_multiplies_to_one() {
    let x = Scalar::from_u64(123456789);
    let inv = x.invert();
    assert_eq!(inv.mul(&x), Scalar::from_u64(1));
    assert_eq!(Scalar::from_u64(0).invert(), Scalar::from_u64(0));
}

#[test]
fn scalar_addition_wraps_at_the_group_order() {
    // ℓ - 1, little-endian
    let mut l_minus_one = DalekScalar::ZERO - DalekScalar::ONE;
    let minus_one = Scalar::from_canonical_bytes(l_minus_one.to_bytes()).unwrap();
    assert_eq!(minus_one.add(&Scalar::from_u64(2)), Scalar::from_u64(1));
    l_minus_one = l_minus_one + DalekScalar::ONE;
    assert_eq!(l_minus_one, DalekScalar::ZERO);
}

#[test]
fn canonical_bytes_below_the_order_only() {
    let l_bytes = [
        0xed, 0xd3, 0xf5, 0x5c, 0x1a, 0x63, 0x12, 0x58, 0xd6, 0x9c, 0xf7, 0xa2, 0xde, 0xf9, 0xde,
        0x14, 0, 0, 0, 0, 0, 0, 0, 0, 0, 0, 0, 0, 0, 0, 0, 0x10,
    ];
    assert!(Scalar::from_canonical_bytes(l_bytes).is_none());
    let mut below = l_bytes;
    below[0] -= 1;
    assert!(Scalar::from_canonical_bytes(below).is_some());
}

#[test]
fn wide_reduction_of_small_values() {
    let mut bytes = [0u8; 64];
    bytes[0] = 5;
    bytes[1] = 1;
    assert_eq!(Scalar::from_bytes_mod_order_wide(&bytes), Scalar::from_u64(261));
}

#[test]
fn point_operations_match_curve25519_dalek() {
    let p = point(1);
    let q = point(2);
    let s = Scalar::from_u64(99);
    let expected_mul = (dalek_point(&p) * dalek_scalar(&s)).compress().to_bytes();
    assert_eq!(p.mul(&s).compress().0, expected_mul);
    assert_ne!(p.mul(&s).compress().0, p.compress().0);
    let expected_add = (dalek_point(&p) + dalek_point(&q)).compress().to_bytes();
    assert_eq!(p.add(&q).compress().0, expected_add);
    let expected_sub = (dalek_point(&p) - dalek_point(&q)).compress().to_bytes();
    assert_eq!(p.sub(&q).compress().0, expected_sub);
    assert_eq!(p.sub(&q).add(&q).compress().0, p.compress().0);
}

#[test]
fn scalar_multiplication_composes() {
    let p = point(3);
    let a = Scalar::from_u64(11);
    let b = Scalar::from_u64(13);
    assert_eq!(p.mul(&a).mul(&b).compress().0, p.mul(&a.mul(&b)).compress().0);
    assert_eq!(p.mul(&Scalar::from_u64(1)).compress().0, p.compress().0);
    let sum = p.mul(&a).add(&p.mul(&b));
    assert_eq!(p.mul(&a.add(&b)).compress().0, sum.compress().0);
}

#[test]
fn identity_is_zero_bytes() {
    assert_eq!(RistrettoPoint::identity().compress().0, [0u8; 32]);
    assert_eq!(CompressedRistretto::identity().0, [0u8; 32]);
    let p = point(4);
    assert_eq!(p.add(&RistrettoPoint::identity()).compress().0, p.compress().0);
}

#[test]
fn decompress_accepts_points_and_rejects_others() {
    let p = point(5);
    let c = p.compress();
    assert_eq!(c.decompress().unwrap().compress().0, c.0);
    let mut bad = [0u8; 32];
    bad[0] = 1; // odd: a negative field element is no encoding
    assert!(CompressedRistretto(bad).decompress().is_none());
    assert!(CompressedRistretto([0xff; 32]).decompress().is_none());
}

#[test]
fn f32_rounding_matches_the_cast() {
    let mut values: Vec<u64> = vec![0, 1, 2, 3, 7, 100, (1 << 24) - 1, 1 << 24];
    for k in 0..200u64 {
        values.push((1 << 24) + k);
        values.push((1 << 25) + 3 * k);
        values.push((1 << 40) + k * 65_537);
        values.push(u64::MAX - k * 1_000_003);
    }
    for x in values {
        assert_eq!(f32_round_exec(x), (x as f32) as u128, "x = {}", x);
    }
}

#[test]
fn threshold_rule_matches_the_float_comparison() {
    let mut cases: Vec<(usize, usize)> = Vec::new();
    for n in 1..64usize {
        for t in 0..n {
            cases.push((n, t));
        }
    }
    let big = (1usize << 24) + 1;
    for d in 0..20usize {
        cases.push((big + d, (big + d - 1) / 2));
        cases.push((big + d, (big + d - 1) / 2 + 1));
        cases.push((big + d, (big + d - 1) / 2 - 1));
        cases.push((2 * big + d, big + d / 2));
    }
    for (n, t) in cases {
        let expected = t as f32 == ((n - 1) as f32 / 2.0).floor();
        assert_eq!(threshold_rule_holds(n, t), expected, "n = {}, t = {}", n, t);
    }
}

#[test]
fn threshold_rule_small_values() {
    assert!(threshold_rule_holds(16, 7));
    assert!(!threshold_rule_holds(16, 8));
    assert!(threshold_rule_holds(1, 0));
    assert!(threshold_rule_holds(2, 0));
    assert!(threshold_rule_holds(3, 1));
}

#[test]
fn uniform_bytes_map_as_curve25519_dalek_does() {
    let mut bytes = [0u8; 64];
    for (i, b) in bytes.iter_mut().enumerate() {
        *b = (i * 7 + 1) as u8;
    }
    let expected = curve25519_dalek::RistrettoPoint::from_uniform_bytes(&bytes).compress().to_bytes();
    assert_eq!(RistrettoPoint::from_uniform_bytes(&bytes).compress().0, expected);
}
