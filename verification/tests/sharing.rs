use pvss::error::Error;
use pvss::polynomial::Polynomial;
use pvss::ristretto::{CompressedRistretto, RistrettoPoint};
use pvss::scalar::Scalar;
use pvss::utils::{
    batch_decompress_batched_ristretto_points, batch_decompress_ristretto_points,
    compute_d_powers, gen_powers, generate_shares_batched,
};
use rand::rngs::StdRng;
use rand::SeedableRng;

fn s(x: u64) -> Scalar {
    Scalar::from_u64(x)
}

#[test]
fn gen_powers_rows_are_powers() {
    let x_pows = gen_powers(4, 3);
    assert_eq!(x_pows.len(), 5);
    for (x, row) in x_pows.iter().enumerate() {
        assert_eq!(row.len(), 4);
        let x = x as u64;
        assert_eq!(row[0], s(1));
        assert_eq!(row[1], s(x));
        assert_eq!(row[2], s(x * x));
        assert_eq!(row[3], s(x * x * x));
    }
}

#[test]
fn d_powers_start_at_the_first_power() {
    let d = compute_d_powers(4, &s(3));
    assert_eq!(d, vec![s(3), s(9), s(27), s(81)]);
    assert!(compute_d_powers(0, &s(3)).is_empty());
}

#[test]
fn evaluation_with_powers() {
    // 1 + 2x + 3x^2
    let f = Polynomial::from_coefficients(vec![s(1), s(2), s(3)]);
    let x_pows = gen_powers(4, 2);
    assert_eq!(f.evaluate_with_powers(&x_pows[2]), s(17));
    let values = f.evaluate_range_precomp(&x_pows, 1, 4);
    assert_eq!(values, vec![s(6), s(17), s(34), s(57)]);
    assert!(f.evaluate_range_precomp(&x_pows, 3, 2).is_empty());
    assert_eq!(f.len(), 3);
    assert_eq!(*f.coef_at_unchecked(2), s(3));
    assert_eq!(f.coef_ref().len(), 3);
}

#[test]
fn sampled_polynomials_have_t_plus_one_coefficients() {
    let mut rng = StdRng::seed_from_u64(1);
    assert_eq!(Polynomial::sample(5, &mut rng).len(), 6);
    let f = Polynomial::sample_with_secret(3, &s(9), &mut rng);
    assert_eq!(f.len(), 4);
    assert_eq!(*f.coef_at_unchecked(0), s(9));
}

#[test]
fn shares_are_the_polynomials_at_the_parties_points() {
    let mut rng = StdRng::seed_from_u64(2);
    let (n, t) = (5, 2);
    let x_pows = gen_powers(n, t);
    let secrets = vec![s(10), s(20), s(30)];
    let (polys, shares) = generate_shares_batched(n, t, &x_pows, &secrets, &mut rng);
    assert_eq!(polys.len(), 3);
    assert_eq!(shares.len(), n);
    for (k, f) in polys.iter().enumerate() {
        assert_eq!(f.len(), t + 1);
        assert_eq!(f.evaluate_with_powers(&x_pows[0]), secrets[k]);
        for i in 0..n {
            assert_eq!(shares[i][k], f.evaluate_with_powers(&x_pows[i + 1]));
        }
    }
}

fn valid(seed: u8) -> CompressedRistretto {
    let mut bytes = [seed; 64];
    bytes[0] = seed.wrapping_add(1);
    RistrettoPoint::from_uniform_bytes(&bytes).compress()
}

#[test]
fn batch_decompress_reports_the_first_bad_encoding() {
    let good = vec![valid(1), valid(2), valid(3)];
    let points = batch_decompress_ristretto_points(&good).unwrap();
    assert_eq!(points.len(), 3);
    assert_eq!(points[1].compress().0, good[1].0);
    let bad = vec![valid(1), CompressedRistretto([0xff; 32]), CompressedRistretto([1; 32])];
    assert_eq!(batch_decompress_ristretto_points(&bad).unwrap_err(), Error::InvalidPoint(1));
}

#[test]
fn batched_decompress_reports_row_and_column() {
    let rows = vec![vec![valid(1)], vec![valid(2), valid(3)]];
    let out = batch_decompress_batched_ristretto_points(&rows).unwrap();
    assert_eq!(out[1][1].compress().0, rows[1][1].0);
    let rows = vec![vec![valid(1)], vec![valid(2), CompressedRistretto([0xff; 32])]];
    assert_eq!(
        batch_decompress_batched_ristretto_points(&rows).unwrap_err(),
        Error::InvalidBatchedPoint(1, 1)
    );
}

#[test]
fn response_polynomial_evaluates_to_the_weighted_values() {
    // r = 1 + 2x, f = 3 + 4x, d = 5: z = r + d*f = 16 + 22x
    let x_pows = gen_powers(2, 1);
    let z = Polynomial::from_coefficients(vec![s(16), s(22)]);
    let r = Polynomial::from_coefficients(vec![s(1), s(2)]);
    let f = Polynomial::from_coefficients(vec![s(3), s(4)]);
    let d = s(5);
    let at_two = z.evaluate_with_powers(&x_pows[2]);
    assert_eq!(at_two, s(60));
    let weighted = r.evaluate_with_powers(&x_pows[2]).add(&f.evaluate_with_powers(&x_pows[2]).mul(&d));
    assert_eq!(at_two, weighted);
}
