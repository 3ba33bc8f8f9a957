use pvss::error::Error;
use pvss::party::{generate_parties, Party};
use pvss::polynomial::Polynomial;
use pvss::randomness::random_point;
use pvss::ristretto::{CompressedRistretto, RistrettoPoint};
use pvss::scalar::Scalar;
use pvss::utils::{compute_d_powers, gen_powers, generate_shares_batched};
use rand::rngs::StdRng;
use rand::SeedableRng;

fn s(x: u64) -> Scalar {
    Scalar::from_u64(x)
}

fn challenge(mut hasher: blake3::Hasher, bytes: &[u8]) -> Scalar {
    let mut buf = [0u8; 64];
    hasher.update(bytes).finalize_xof().fill(&mut buf);
    Scalar::from_bytes_mod_order_wide(&buf)
}

/// The encrypted shares and the dealer's proof `(d, z)` for the parties' keys.
fn deal(
    rng: &mut StdRng,
    pks: &[RistrettoPoint],
    t: usize,
    secrets: &Vec<Scalar>,
    x_pows: &Vec<Vec<Scalar>>,
) -> (Vec<Vec<CompressedRistretto>>, Vec<Polynomial>, Scalar, Polynomial) {
    deal_with(blake3::Hasher::new(), rng, pks, t, secrets, x_pows)
}

/// As `deal`, with the challenge taken by `hasher`.
fn deal_with(
    hasher: blake3::Hasher,
    rng: &mut StdRng,
    pks: &[RistrettoPoint],
    t: usize,
    secrets: &Vec<Scalar>,
    x_pows: &Vec<Vec<Scalar>>,
) -> (Vec<Vec<CompressedRistretto>>, Vec<Polynomial>, Scalar, Polynomial) {
    let n = pks.len();
    let (polys, shares) = generate_shares_batched(n, t, x_pows, secrets, rng);
    let enc: Vec<Vec<CompressedRistretto>> = (0..n)
        .map(|i| shares[i].iter().map(|f| pks[i].mul(f).compress()).collect())
        .collect();
    let r = Polynomial::sample(t, rng);
    let mut transcript = Vec::new();
    for row in &enc {
        for c in row {
            transcript.extend_from_slice(&c.0);
        }
    }
    for i in 0..n {
        let a = pks[i].mul(&r.evaluate_with_powers(&x_pows[i + 1]));
        transcript.extend_from_slice(&a.compress().0);
    }
    let d = challenge(hasher, &transcript);
    let d_pows = compute_d_powers(secrets.len(), &d);
    let mut z = Vec::new();
    for j in 0..=t {
        let mut c = *r.coef_at_unchecked(j);
        for (k, f) in polys.iter().enumerate() {
            c = c.add(&d_pows[k].mul(f.coef_at_unchecked(j)));
        }
        z.push(c);
    }
    (enc, polys, d, Polynomial::from_coefficients(z))
}

#[test]
fn party_new_checks_the_parameters() {
    let mut rng = StdRng::seed_from_u64(10);
    let g = random_point(&mut rng);
    assert!(Party::new(&g, &mut rng, 16, 7, 1).is_ok());
    assert_eq!(
        Party::new(&g, &mut rng, 16, 8, 1).err().unwrap(),
        Error::InvalidPararmeterSet(16, 8, 1)
    );
    assert_eq!(
        Party::new(&g, &mut rng, 16, 7, 17).err().unwrap(),
        Error::InvalidPararmeterSet(16, 7, 17)
    );
    assert_eq!(
        Party::new(&g, &mut rng, 0, 0, 0).err().unwrap(),
        Error::InvalidPararmeterSet(0, 0, 0)
    );
    assert_eq!(
        Party::new(&g, &mut rng, 4, usize::MAX, 1).err().unwrap(),
        Error::InvalidPararmeterSet(4, -1, 1)
    );
}

#[test]
fn party_public_key_is_the_generator_times_the_private_key() {
    let mut rng = StdRng::seed_from_u64(11);
    let g = random_point(&mut rng);
    let p = Party::new(&g, &mut rng, 5, 2, 3).unwrap();
    assert_eq!(p.public_key.1.compress().0, g.mul(&p.private_key).compress().0);
    assert_eq!(p.public_key.0 .0, p.public_key.1.compress().0);
    assert_eq!((p.index, p.n, p.t), (3, 5, 2));
    assert!(p.public_keys.is_none() && p.dealer_proof.is_none() && p.validated_shares.is_empty());
}

#[test]
fn generate_parties_numbers_them_from_one() {
    let mut rng = StdRng::seed_from_u64(12);
    let g = random_point(&mut rng);
    let parties = generate_parties(&g, &mut rng, 7, 3);
    assert_eq!(parties.len(), 7);
    for (i, p) in parties.iter().enumerate() {
        assert_eq!(p.index, i + 1);
    }
    assert_ne!(parties[0].private_key, parties[1].private_key);
    assert!(generate_parties(&g, &mut rng, 0, 5).is_empty());
}

#[test]
fn ingest_dealer_proof_checks_the_degree() {
    let mut rng = StdRng::seed_from_u64(13);
    let g = random_point(&mut rng);
    let mut p = Party::new(&g, &mut rng, 5, 2, 1).unwrap();
    let z = Polynomial::from_coefficients(vec![s(1), s(2)]);
    assert_eq!(
        p.ingest_dealer_proof((&s(4), &z)).unwrap_err(),
        Error::InvalidProof { z_len: 2, t: 2 }
    );
    assert!(p.dealer_proof.is_none());
    let z = Polynomial::from_coefficients(vec![s(1), s(2), s(3)]);
    p.ingest_dealer_proof((&s(4), &z)).unwrap();
    let (d, stored) = p.dealer_proof.as_ref().unwrap();
    assert_eq!(*d, s(4));
    assert_eq!(stored.len(), 3);
}

#[test]
fn operations_need_their_inputs() {
    let mut rng = StdRng::seed_from_u64(14);
    let g = random_point(&mut rng);
    let mut p = Party::new(&g, &mut rng, 3, 1, 1).unwrap();
    let mut buf = [9u8; 64];
    let mut hasher = blake3::Hasher::new();
    hasher.update(b"abc");
    let x_pows = gen_powers(3, 1);
    assert_eq!(
        p.verify_encrypted_shares(&mut hasher, &mut buf, &x_pows).unwrap_err(),
        Error::UninitializedValue("party.dealer_proof")
    );
    assert_eq!(buf, [9u8; 64]);
    assert_eq!(hasher.finalize(), blake3::hash(b"abc"));
    p.ingest_dealer_proof((&s(1), &Polynomial::from_coefficients(vec![s(1), s(1)]))).unwrap();
    assert_eq!(
        p.verify_encrypted_shares(&mut hasher, &mut buf, &x_pows).unwrap_err(),
        Error::UninitializedValue("party.{encrypted_shares, public_keys}")
    );
    assert_eq!(
        p.decrypt_shares().unwrap_err(),
        Error::UninitializedValue("party.encrypted_share")
    );
    assert_eq!(
        p.dleq_share(&g, &mut rng, &mut hasher, &mut buf).unwrap_err(),
        Error::UninitializedValue("party.{decrypted_share, encrypted_shares}")
    );
    assert_eq!(hasher.finalize(), blake3::hash(b"abc"));
    assert_eq!(
        p.verify_decrypted_shares().unwrap_err(),
        Error::UninitializedValue("party.{public_keys, encrypted_shares}")
    );
    p.public_keys = Some(vec![g]);
    assert_eq!(
        p.verify_decrypted_shares().unwrap_err(),
        Error::UninitializedValue("party.public_keys")
    );
    assert_eq!(
        p.verify_encrypted_shares(&mut hasher, &mut buf, &x_pows).unwrap_err(),
        Error::UninitializedValue("party.encrypted_shares")
    );
}

#[test]
fn ingest_encrypted_shares_checks_the_count() {
    let mut rng = StdRng::seed_from_u64(15);
    let g = random_point(&mut rng);
    let mut p = Party::new(&g, &mut rng, 3, 1, 2).unwrap();
    let row = vec![g.compress()];
    assert_eq!(
        p.ingest_encrypted_shares(&vec![row.clone(), row.clone()]).unwrap_err(),
        Error::CountMismatch(3, "parties", 2, "encrypted shares")
    );
    let bad = vec![row.clone(), vec![CompressedRistretto([0xff; 32])], row.clone()];
    assert_eq!(p.ingest_encrypted_shares(&bad).unwrap_err(), Error::InvalidBatchedPoint(1, 0));
    assert!(p.encrypted_shares.is_none());
    let other = vec![g.mul(&s(2)).compress()];
    p.ingest_encrypted_shares(&vec![row.clone(), other.clone(), row.clone()]).unwrap();
    assert_eq!(p.encrypted_share.as_ref().unwrap()[0].compress().0, other[0].0);
    assert_eq!(p.encrypted_shares.as_ref().unwrap().0[1][0].0, other[0].0);
}

#[test]
fn ingest_encrypted_share_decodes() {
    let mut rng = StdRng::seed_from_u64(16);
    let g = random_point(&mut rng);
    let mut p = Party::new(&g, &mut rng, 3, 1, 2).unwrap();
    p.ingest_encrypted_share(&vec![g.compress(), g.mul(&s(3)).compress()]);
    let share = p.encrypted_share.as_ref().unwrap();
    assert_eq!(share.len(), 2);
    assert_eq!(share[1].compress().0, g.mul(&s(3)).compress().0);
}

#[test]
fn decryption_undoes_encryption_under_the_public_key() {
    let mut rng = StdRng::seed_from_u64(17);
    let g = random_point(&mut rng);
    let mut p = Party::new(&g, &mut rng, 3, 1, 1).unwrap();
    let f = s(4242);
    p.encrypted_share = Some(vec![p.public_key.1.mul(&f)]);
    p.decrypt_shares().unwrap();
    let dec = &p.decrypted_share.as_ref().unwrap()[0];
    assert_eq!(dec.compress().0, g.mul(&f).compress().0);
}

#[test]
fn ingest_decrypted_shares_checks_counts_and_inserts_own() {
    let mut rng = StdRng::seed_from_u64(18);
    let g = random_point(&mut rng);
    let mut p = Party::new(&g, &mut rng, 3, 1, 2).unwrap();
    let row = vec![g.compress()];
    assert_eq!(
        p.ingest_decrypted_shares_and_proofs(&vec![row.clone()], vec![(s(1), s(1))]).unwrap_err(),
        Error::CountMismatch(3, "parties", 1, "decrypted shares")
    );
    assert_eq!(
        p.ingest_decrypted_shares_and_proofs(&vec![row.clone(), row.clone()], vec![(s(1), s(1))])
            .unwrap_err(),
        Error::CountMismatch(3, "parties", 1, "proofs")
    );
    assert_eq!(
        p.ingest_decrypted_shares_and_proofs(
            &vec![row.clone(), row.clone()],
            vec![(s(1), s(1)), (s(2), s(2))]
        )
        .unwrap_err(),
        Error::UninitializedValue("party.{decrypted_share, share_proof}")
    );
    p.decrypted_share = Some(vec![g.mul(&s(5))]);
    p.share_proof = Some((s(8), s(9)));
    p.ingest_decrypted_shares_and_proofs(&vec![row.clone(), row.clone()], vec![(s(1), s(1)), (s(2), s(2))])
        .unwrap();
    let ds = p.decrypted_shares.as_ref().unwrap();
    assert_eq!(ds.len(), 3);
    assert_eq!(ds[1][0].compress().0, g.mul(&s(5)).compress().0);
    assert_eq!(p.share_proofs.as_ref().unwrap(), &vec![(s(1), s(1)), (s(8), s(9)), (s(2), s(2))]);
}

#[test]
fn a_full_round_verifies() {
    let mut rng = StdRng::seed_from_u64(19);
    let (n, t) = (4, 1);
    let g = random_point(&mut rng);
    let mut parties = generate_parties(&g, &mut rng, n, t);
    let pks: Vec<RistrettoPoint> = parties.iter().map(|p| p.public_key.1).collect();
    for p in parties.iter_mut() {
        p.public_keys = Some(pks.clone());
    }
    let x_pows = gen_powers(n, t);
    let secrets = vec![s(31), s(41)];
    let (enc, polys, d, z) = deal(&mut rng, &pks, t, &secrets, &x_pows);
    let mut buf = [3u8; 64];
    let mut hasher = blake3::Hasher::new();
    for p in parties.iter_mut() {
        p.ingest_dealer_proof((&d, &z)).unwrap();
        p.ingest_encrypted_shares(&enc).unwrap();
        // input absorbed before is dropped: the hasher is reset first
        hasher.update(b"left over");
        assert_eq!(p.verify_encrypted_shares(&mut hasher, &mut buf, &x_pows), Ok(true));
        assert_eq!(buf, [0u8; 64]);
        assert_eq!(hasher.finalize(), blake3::hash(b""));
    }
    // a wrong challenge is refused
    let mut wrong = Party::new(&g, &mut rng, n, t, 1).unwrap();
    wrong.public_keys = Some(pks.clone());
    wrong.ingest_dealer_proof((&d.add(&s(1)), &z)).unwrap();
    wrong.ingest_encrypted_shares(&enc).unwrap();
    assert_eq!(wrong.verify_encrypted_shares(&mut hasher, &mut buf, &x_pows), Ok(false));

    let mut dec_rows = Vec::new();
    let mut proofs = Vec::new();
    for (i, p) in parties.iter_mut().enumerate() {
        p.decrypt_shares().unwrap();
        let dec = p.decrypted_share.as_ref().unwrap();
        for (k, f) in polys.iter().enumerate() {
            let share = f.evaluate_with_powers(&x_pows[i + 1]);
            assert_eq!(dec[k].compress().0, g.mul(&share).compress().0);
        }
        dec_rows.push(dec.iter().map(|x| x.compress()).collect::<Vec<_>>());
        buf = [5u8; 64];
        p.dleq_share(&g, &mut rng, &mut hasher, &mut buf).unwrap();
        assert_eq!(buf, [0u8; 64]);
        assert_eq!(hasher.finalize(), blake3::hash(b""));
        proofs.push(*p.share_proof.as_ref().unwrap());
    }
    let mut others = dec_rows.clone();
    let mut other_proofs = proofs.clone();
    others.remove(0);
    other_proofs.remove(0);
    let p0 = &mut parties[0];
    p0.ingest_decrypted_shares_and_proofs(&others, other_proofs.clone()).unwrap();
    assert_eq!(p0.verify_decrypted_shares(), Ok(true));
    assert_eq!(p0.validated_shares, vec![0, 1, 2, 3]);

    // a tampered proof drops its party, and three of four still exceed t = 1
    let mut tampered = other_proofs.clone();
    tampered[1].1 = tampered[1].1.add(&s(1));
    let p0 = &mut parties[0];
    p0.ingest_decrypted_shares_and_proofs(&others, tampered).unwrap();
    assert_eq!(p0.verify_decrypted_shares(), Ok(true));
    assert_eq!(p0.validated_shares, vec![0, 1, 3]);
}

#[test]
fn too_few_valid_shares_fail_the_threshold() {
    let mut rng = StdRng::seed_from_u64(20);
    let g = random_point(&mut rng);
    let mut p = Party::new(&g, &mut rng, 3, 1, 1).unwrap();
    p.public_keys = Some(vec![g, g, g]);
    p.encrypted_shares = Some((vec![], vec![vec![g], vec![g], vec![g]]));
    p.decrypted_shares = Some(vec![vec![g], vec![g], vec![g]]);
    p.share_proofs = Some(vec![(s(1), s(2)), (s(3), s(4)), (s(5), s(6))]);
    assert_eq!(p.verify_decrypted_shares(), Ok(false));
    assert!(p.validated_shares.is_empty());
}

#[test]
fn checked_ingest_refuses_bad_points() {
    let mut rng = StdRng::seed_from_u64(22);
    let g = random_point(&mut rng);
    let mut p = Party::new(&g, &mut rng, 3, 1, 1).unwrap();
    let bad = vec![g.compress(), CompressedRistretto([0xff; 32])];
    assert_eq!(p.ingest_encrypted_share_checked(&bad).unwrap_err(), Error::InvalidPoint(1));
    assert!(p.encrypted_share.is_none());
    p.ingest_encrypted_share_checked(&vec![g.compress()]).unwrap();
    assert_eq!(p.encrypted_share.as_ref().unwrap()[0].compress().0, g.compress().0);
}

#[test]
fn a_cloned_party_holds_the_same_state() {
    let mut rng = StdRng::seed_from_u64(23);
    let g = random_point(&mut rng);
    let mut p = Party::new(&g, &mut rng, 3, 1, 2).unwrap();
    p.encrypted_share = Some(vec![g.mul(&s(7))]);
    p.decrypt_shares().unwrap();
    p.share_proof = Some((s(1), s(2)));
    p.qualified_set = Some(vec![(4, vec![g])]);
    let q = p.clone();
    assert_eq!(q.private_key, p.private_key);
    assert_eq!(q.index, 2);
    assert_eq!(q.share_proof, p.share_proof);
    assert_eq!(
        q.decrypted_share.as_ref().unwrap()[0].compress().0,
        p.decrypted_share.as_ref().unwrap()[0].compress().0
    );
    assert_eq!(q.qualified_set.as_ref().unwrap()[0].0, 4);
    assert!(q.public_keys.is_none());
}

#[test]
fn decrypting_twice_gives_the_same_points() {
    let mut rng = StdRng::seed_from_u64(24);
    let g = random_point(&mut rng);
    let mut p = Party::new(&g, &mut rng, 3, 1, 1).unwrap();
    p.encrypted_share = Some(vec![g.mul(&s(9)), g.mul(&s(10))]);
    p.decrypt_shares().unwrap();
    let first: Vec<[u8; 32]> = p.decrypted_share.as_ref().unwrap().iter().map(|x| x.compress().0).collect();
    p.decrypt_shares().unwrap();
    let second: Vec<[u8; 32]> = p.decrypted_share.as_ref().unwrap().iter().map(|x| x.compress().0).collect();
    assert_eq!(first, second);
}

#[test]
fn verify_encrypted_shares_hashes_with_the_hasher_key() {
    let mut rng = StdRng::seed_from_u64(23);
    let (n, t) = (3, 1);
    let g = random_point(&mut rng);
    let mut parties = generate_parties(&g, &mut rng, n, t);
    let pks: Vec<RistrettoPoint> = parties.iter().map(|p| p.public_key.1).collect();
    let x_pows = gen_powers(n, t);
    let key = [7u8; 32];
    let (enc, _, d, z) =
        deal_with(blake3::Hasher::new_keyed(&key), &mut rng, &pks, t, &vec![s(5)], &x_pows);
    let mut buf = [0u8; 64];
    let p = &mut parties[1];
    p.public_keys = Some(pks.clone());
    p.ingest_dealer_proof((&d, &z)).unwrap();
    p.ingest_encrypted_shares(&enc).unwrap();
    let mut keyed = blake3::Hasher::new_keyed(&key);
    keyed.update(b"dropped by the reset");
    assert_eq!(p.verify_encrypted_shares(&mut keyed, &mut buf, &x_pows), Ok(true));
    assert_eq!(keyed.finalize(), blake3::keyed_hash(&key, b""));
    let mut plain = blake3::Hasher::new();
    assert_eq!(p.verify_encrypted_shares(&mut plain, &mut buf, &x_pows), Ok(false));
}

#[test]
fn dleq_share_hashes_after_what_the_hasher_holds() {
    let mut rng = StdRng::seed_from_u64(24);
    let (n, t) = (3, 1);
    let g = random_point(&mut rng);
    let mut parties = generate_parties(&g, &mut rng, n, t);
    let pks: Vec<RistrettoPoint> = parties.iter().map(|p| p.public_key.1).collect();
    let x_pows = gen_powers(n, t);
    let (enc, _, _, _) = deal(&mut rng, &pks, t, &vec![s(6), s(7)], &x_pows);
    let mut buf = [0u8; 64];
    let mut dec_rows = Vec::new();
    let mut proofs = Vec::new();
    for (i, p) in parties.iter_mut().enumerate() {
        p.public_keys = Some(pks.clone());
        p.ingest_encrypted_shares(&enc).unwrap();
        p.decrypt_shares().unwrap();
        let mut hasher = blake3::Hasher::new();
        if i == 2 {
            // a hasher that already absorbed input gives another challenge
            hasher.update(b"prefix");
        }
        p.dleq_share(&g, &mut rng, &mut hasher, &mut buf).unwrap();
        assert_eq!(hasher.finalize(), blake3::hash(b""));
        dec_rows.push(p.decrypted_share.as_ref().unwrap().iter().map(|x| x.compress()).collect::<Vec<_>>());
        proofs.push(*p.share_proof.as_ref().unwrap());
    }
    dec_rows.remove(0);
    proofs.remove(0);
    let p0 = &mut parties[0];
    p0.ingest_decrypted_shares_and_proofs(&dec_rows, proofs).unwrap();
    assert_eq!(p0.verify_decrypted_shares(), Ok(true));
    assert_eq!(p0.validated_shares, vec![0, 1]);
}
