use pvss::dealer::{verify_share_opening, Dealer};
use pvss::error::Error;
use pvss::polynomial::Polynomial;
use pvss::randomness::{random_point, random_points};
use pvss::ristretto::{CompressedRistretto, RistrettoPoint};
use pvss::scalar::Scalar;
use pvss::utils::gen_powers;
use rand::rngs::StdRng;
use rand::SeedableRng;

fn s(x: u64) -> Scalar {
    Scalar::from_u64(x)
}

fn setup(rng: &mut StdRng, n: usize, t: usize, k: usize) -> Dealer {
    let g = random_points(rng, k);
    let g0 = random_point(rng);
    let pks: Vec<CompressedRistretto> = random_points(rng, n).iter().map(|p| p.compress()).collect();
    Dealer::new(g, g0, n, t, &pks).unwrap()
}

#[test]
fn dealer_new_checks_the_number_of_keys() {
    let mut rng = StdRng::seed_from_u64(3);
    let g = random_points(&mut rng, 2);
    let g0 = random_point(&mut rng);
    let pks: Vec<CompressedRistretto> = random_points(&mut rng, 2).iter().map(|p| p.compress()).collect();
    let err = Dealer::new(g, g0, 3, 1, &pks).err().unwrap();
    assert_eq!(err, Error::CountMismatch(3, "parties", 2, "public keys"));
}

#[test]
fn dealer_new_rejects_a_bad_key() {
    let mut rng = StdRng::seed_from_u64(4);
    let g = random_points(&mut rng, 1);
    let g0 = random_point(&mut rng);
    let mut pks: Vec<CompressedRistretto> = random_points(&mut rng, 3).iter().map(|p| p.compress()).collect();
    pks[2] = CompressedRistretto([0xff; 32]);
    let err = Dealer::new(g, g0, 3, 1, &pks).err().unwrap();
    assert_eq!(err, Error::InvalidPoint(2));
}

#[test]
fn dealer_new_keeps_its_inputs() {
    let mut rng = StdRng::seed_from_u64(5);
    let g = random_points(&mut rng, 2);
    let g0 = random_point(&mut rng);
    let pts = random_points(&mut rng, 3);
    let pks: Vec<CompressedRistretto> = pts.iter().map(|p| p.compress()).collect();
    let dealer = Dealer::new(g.clone(), g0, 3, 1, &pks).unwrap();
    assert_eq!(dealer.t(), 1);
    assert_eq!(dealer.g.len(), 2);
    assert_eq!(dealer.get_pk0().compress().0, pks[0].0);
    assert_eq!(dealer.public_keys.len(), 3);
    assert!(dealer.secret.is_none());
}

#[test]
fn publish_f0_gives_the_stored_secret() {
    let mut rng = StdRng::seed_from_u64(6);
    let mut dealer = setup(&mut rng, 3, 1, 1);
    dealer.secret = Some(s(77));
    assert_eq!(dealer.publish_f0(), s(77));
}

#[test]
fn commitments_are_pedersen_commitments_of_the_coefficients() {
    let mut rng = StdRng::seed_from_u64(7);
    let dealer = setup(&mut rng, 3, 1, 2);
    let f = vec![
        Polynomial::from_coefficients(vec![s(2), s(3)]),
        Polynomial::from_coefficients(vec![s(5), s(7)]),
    ];
    let r = Polynomial::from_coefficients(vec![s(11), s(13)]);
    let mut c_buf = vec![CompressedRistretto::identity(); 3];
    dealer.commit_coefficients(&mut c_buf, &f, &r);
    let c0 = dealer.g0.mul(&s(11)).add(&dealer.g[0].mul(&s(2))).add(&dealer.g[1].mul(&s(5)));
    let c1 = dealer.g0.mul(&s(13)).add(&dealer.g[0].mul(&s(3))).add(&dealer.g[1].mul(&s(7)));
    assert_eq!(c_buf[0].0, c0.compress().0);
    assert_eq!(c_buf[1].0, c1.compress().0);
    assert_eq!(c_buf[2].0, [0u8; 32]);
}

#[test]
fn generate_proof_fills_only_what_fits() {
    let mut rng = StdRng::seed_from_u64(8);
    let dealer = setup(&mut rng, 3, 2, 1);
    let x_pows = gen_powers(3, 2);
    let f = vec![Polynomial::from_coefficients(vec![s(1), s(2), s(3)])];
    let mut c_buf = vec![CompressedRistretto([7u8; 32]); 2];
    let r_evals = dealer.generate_proof(&mut rng, &mut c_buf, &x_pows, &f);
    assert_eq!(r_evals.len(), 3);
    assert_eq!(c_buf.len(), 2);
    assert_ne!(c_buf[0].0, [7u8; 32]);
    assert_ne!(c_buf[1].0, [7u8; 32]);
}

#[test]
fn dealt_shares_open_the_commitments() {
    let mut rng = StdRng::seed_from_u64(9);
    let (n, t, k) = (5, 2, 3);
    let mut dealer = setup(&mut rng, n, t, k);
    let x_pows = gen_powers(n, t);
    let secrets = vec![s(100), s(200), s(300)];
    let (shares, (r_evals, commitments)) = dealer.deal_secret(&mut rng, &x_pows, &secrets);
    assert_eq!(shares.len(), n);
    assert_eq!(r_evals.len(), n);
    assert_eq!(commitments.len(), t + 1);
    for i in 0..n {
        // sum_j c_j * x^j == g0 * r(x) + sum_k g_k * f_k(x) at x = i + 1
        let mut lhs = RistrettoPoint::identity();
        for (j, c) in commitments.iter().enumerate() {
            lhs = lhs.add(&c.decompress().unwrap().mul(&x_pows[i + 1][j]));
        }
        let mut rhs = dealer.g0.mul(&r_evals[i]);
        for kk in 0..k {
            rhs = rhs.add(&dealer.g[kk].mul(&shares[i][kk]));
        }
        assert_eq!(lhs.compress().0, rhs.compress().0);
        assert!(verify_share_opening(
            &dealer.g0,
            &dealer.g,
            &commitments,
            &x_pows[i + 1],
            &r_evals[i],
            &shares[i]
        ));
    }
    // a wrong share does not open them
    let mut wrong = shares[0].clone();
    wrong[1] = wrong[1].add(&s(1));
    assert!(!verify_share_opening(&dealer.g0, &dealer.g, &commitments, &x_pows[1], &r_evals[0], &wrong));
    // nor does a commitment that is no point
    let mut bad = commitments.clone();
    bad[0] = CompressedRistretto([0xff; 32]);
    assert!(!verify_share_opening(&dealer.g0, &dealer.g, &bad, &x_pows[1], &r_evals[0], &shares[0]));
}

#[test]
fn generate_proof_accepts_short_polynomials_for_a_short_buffer() {
    let mut rng = StdRng::seed_from_u64(21);
    let dealer = setup(&mut rng, 3, 2, 1);
    let x_pows = gen_powers(3, 2);
    let f = vec![Polynomial::from_coefficients(vec![s(4)])];
    let mut c_buf = vec![CompressedRistretto([7u8; 32]); 1];
    let r_evals = dealer.generate_proof(&mut rng, &mut c_buf, &x_pows, &f);
    assert_eq!(r_evals.len(), 3);
    assert_ne!(c_buf[0].0, [7u8; 32]);
}
