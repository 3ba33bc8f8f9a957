//! DLEQ proofs that a decrypted share is the encrypted share divided by the
//! private key: the transcript, the challenge, and the verifier's check.
use crate::ristretto::{
    point_encodings, ristretto_add, ristretto_decodes, ristretto_mul, ristretto_sub, CompressedRistretto,
    RistrettoPoint,
};
use crate::decryption::{decrypts_to, is_key_pair};
use crate::scalar::{group_order, le_bytes_value, Scalar};
use crate::transcript::{
    append_32, blake3_xof_64, hasher_fill, hasher_input, hasher_new, hasher_reset, hasher_setup,
    hasher_update, regular_setup, starts_at_zero, wipe, zero_block,
};
use vstd::prelude::*;

verus! {

/// The smaller of two naturals.
pub open spec fn min_nat(a: nat, b: nat) -> nat {
    if a < b {
        a
    } else {
        b
    }
}

/// The bytes that a DLEQ share proof hashes: the public key, the commitment
/// for the generator, then for each of the first `m` shares the encrypted
/// point and the commitment for it.
pub open spec fn dleq_transcript(
    pk: Seq<u8>,
    commit: Seq<u8>,
    enc: Seq<Seq<u8>>,
    masked: Seq<Seq<u8>>,
    m: nat,
) -> Seq<u8>
    decreases m,
{
    if m == 0 {
        pk + commit
    } else {
        dleq_transcript(pk, commit, enc, masked, (m - 1) as nat) + enc[m - 1] + masked[m - 1]
    }
}

/// Every one of the first `m` byte strings in `s` is 32 bytes long, as point
/// encodings are.
pub open spec fn all_32_bytes(s: Seq<Seq<u8>>, m: nat) -> bool {
    m <= s.len() && forall|k: int| 0 <= k < m ==> (#[trigger] s[k]).len() == 32
}

/// A DLEQ transcript of 32-byte points over `m` shares is `64 + 64 m` bytes.
pub proof fn lemma_dleq_transcript_len(
    pk: Seq<u8>,
    commit: Seq<u8>,
    enc: Seq<Seq<u8>>,
    masked: Seq<Seq<u8>>,
    m: nat,
)
    requires
        pk.len() == 32,
        commit.len() == 32,
        all_32_bytes(enc, m),
        all_32_bytes(masked, m),
    ensures
        dleq_transcript(pk, commit, enc, masked, m).len() == 64 + 64 * m,
    decreases m,
{
    if m > 0 {
        let p = (m - 1) as nat;
        assert(enc[p as int].len() == 32);
        assert(masked[p as int].len() == 32);
        lemma_dleq_transcript_len(pk, commit, enc, masked, p);
    }
}

/// A DLEQ transcript determines everything hashed into it: two transcripts
/// of 32-byte points over `m` shares that are the same bytes have the same
/// public key, the same commitment, and for every share the same encrypted
/// point and the same masked point. In particular the challenge covers every
/// decrypted share, through the masked point `dec[k] * r` that the prover
/// hashes and `dec[k] * z - enc[k] * d` that the verifier recomputes: changing
/// one changes the bytes hashed.
pub proof fn lemma_dleq_transcript_determines_points(
    pk1: Seq<u8>,
    commit1: Seq<u8>,
    enc1: Seq<Seq<u8>>,
    masked1: Seq<Seq<u8>>,
    pk2: Seq<u8>,
    commit2: Seq<u8>,
    enc2: Seq<Seq<u8>>,
    masked2: Seq<Seq<u8>>,
    m: nat,
)
    requires
        pk1.len() == 32,
        commit1.len() == 32,
        all_32_bytes(enc1, m),
        all_32_bytes(masked1, m),
        pk2.len() == 32,
        commit2.len() == 32,
        all_32_bytes(enc2, m),
        all_32_bytes(masked2, m),
        dleq_transcript(pk1, commit1, enc1, masked1, m) == dleq_transcript(
            pk2,
            commit2,
            enc2,
            masked2,
            m,
        ),
    ensures
        pk1 == pk2,
        commit1 == commit2,
        forall|k: int| 0 <= k < m ==> #[trigger] enc1[k] == enc2[k] && masked1[k] == masked2[k],
    decreases m,
{
    let t1 = dleq_transcript(pk1, commit1, enc1, masked1, m);
    let t2 = dleq_transcript(pk2, commit2, enc2, masked2, m);
    if m == 0 {
        assert(t1.subrange(0, 32) =~= pk1);
        assert(t2.subrange(0, 32) =~= pk2);
        assert(t1.subrange(32, 64) =~= commit1);
        assert(t2.subrange(32, 64) =~= commit2);
    } else {
        let p = (m - 1) as nat;
        let a1 = dleq_transcript(pk1, commit1, enc1, masked1, p);
        let a2 = dleq_transcript(pk2, commit2, enc2, masked2, p);
        lemma_dleq_transcript_len(pk1, commit1, enc1, masked1, p);
        lemma_dleq_transcript_len(pk2, commit2, enc2, masked2, p);
        let l: int = 64 + 64 * (p as int);
        assert(enc1[p as int].len() == 32 && masked1[p as int].len() == 32);
        assert(enc2[p as int].len() == 32 && masked2[p as int].len() == 32);
        assert(t1 == a1 + enc1[p as int] + masked1[p as int]);
        assert(t2 == a2 + enc2[p as int] + masked2[p as int]);
        assert(t1.subrange(0, l) =~= a1);
        assert(t2.subrange(0, l) =~= a2);
        assert(t1.subrange(l, l + 32) =~= enc1[p as int]);
        assert(t2.subrange(l, l + 32) =~= enc2[p as int]);
        assert(t1.subrange(l + 32, l + 64) =~= masked1[p as int]);
        assert(t2.subrange(l + 32, l + 64) =~= masked2[p as int]);
        assert(all_32_bytes(enc1, p) && all_32_bytes(masked1, p));
        assert(all_32_bytes(enc2, p) && all_32_bytes(masked2, p));
        lemma_dleq_transcript_determines_points(
            pk1,
            commit1,
            enc1,
            masked1,
            pk2,
            commit2,
            enc2,
            masked2,
            p,
        );
    }
}

/// The challenge scalar that a hasher with setup `setup` gives for `input`: the
/// first 64 bytes of its BLAKE3 output, reduced modulo ℓ.
pub open spec fn challenge_under(setup: Seq<u64>, input: Seq<u8>) -> nat {
    le_bytes_value(blake3_xof_64(setup, input)) % group_order()
}

/// The challenge scalar that a transcript hashes to with a fresh regular
/// hasher.
pub open spec fn challenge_of(transcript: Seq<u8>) -> nat {
    challenge_under(regular_setup(), transcript)
}

/// `(d, z)` is the DLEQ proof that a prover with private key `sk` and nonce `r`
/// makes for its decryptions `dec` of `enc`, with public key `pk` over `g`,
/// hashing with a hasher of setup `setup` that had already absorbed `prefix`.
pub open spec fn is_dleq_proof_under(
    setup: Seq<u64>,
    prefix: Seq<u8>,
    d: nat,
    z: nat,
    r: nat,
    g: Seq<u8>,
    sk: nat,
    pk: Seq<u8>,
    enc: Seq<Seq<u8>>,
    dec: Seq<Seq<u8>>,
) -> bool {
    let m = min_nat(enc.len(), dec.len());
    &&& r < group_order()
    &&& ristretto_decodes(ristretto_mul(g, r))
    &&& forall|k: int| 0 <= k < m ==> ristretto_decodes(#[trigger] ristretto_mul(dec[k], r))
    &&& d == challenge_under(
        setup,
        prefix + dleq_transcript(
            pk,
            ristretto_mul(g, r),
            enc,
            Seq::new(m, |k: int| ristretto_mul(dec[k], r)),
            m,
        ),
    )
    &&& z == (r + d * sk) % group_order()
}

/// The DLEQ proof made with a fresh regular hasher.
pub open spec fn is_dleq_proof_with_nonce(
    d: nat,
    z: nat,
    r: nat,
    g: Seq<u8>,
    sk: nat,
    pk: Seq<u8>,
    enc: Seq<Seq<u8>>,
    dec: Seq<Seq<u8>>,
) -> bool {
    is_dleq_proof_under(regular_setup(), Seq::empty(), d, z, r, g, sk, pk, enc, dec)
}

/// What a verifier recomputes from `(d, z)`: the commitment `g*z - pk*d` and,
/// for each share, `dec*z - enc*d`; it accepts when they hash back to `d`.
pub open spec fn dleq_accepts(
    g: Seq<u8>,
    pk: Seq<u8>,
    enc: Seq<Seq<u8>>,
    dec: Seq<Seq<u8>>,
    d: nat,
    z: nat,
) -> bool {
    let m = min_nat(dec.len(), enc.len());
    let commit = ristretto_sub(ristretto_mul(g, z), ristretto_mul(pk, d));
    let masked = Seq::new(
        m,
        |k: int| ristretto_sub(ristretto_mul(dec[k], z), ristretto_mul(enc[k], d)),
    );
    challenge_of(dleq_transcript(pk, commit, enc, masked, m)) == d
}

/// Feeds the DLEQ transcript of the first `m` shares to `hasher` after what it
/// already absorbed, reads the challenge from its output in `buf`, then resets
/// `hasher` and wipes `buf`.
pub(crate) fn dleq_challenge(
    pk: &CompressedRistretto,
    commit: &RistrettoPoint,
    enc: &Vec<RistrettoPoint>,
    masked: &Vec<RistrettoPoint>,
    m: usize,
    hasher: &mut blake3::Hasher,
    buf: &mut [u8; 64],
) -> (d: Scalar)
    requires
        m <= enc@.len(),
        m <= masked@.len(),
        starts_at_zero(hasher_setup(*old(hasher))),
    ensures
        d@ == challenge_under(
            hasher_setup(*old(hasher)),
            hasher_input(*old(hasher)) + dleq_transcript(
                pk@,
                commit@,
                point_encodings(enc@),
                point_encodings(masked@),
                m as nat,
            ),
        ),
        hasher_setup(*final(hasher)) == hasher_setup(*old(hasher)),
        hasher_input(*final(hasher)) == Seq::<u8>::empty(),
        final(buf)@ == zero_block(),
{
    let ghost e = point_encodings(enc@);
    let ghost w = point_encodings(masked@);
    let mut transcript: Vec<u8> = Vec::new();
    append_32(&mut transcript, pk.as_bytes());
    append_32(&mut transcript, &commit.compress().0);
    assert(transcript@ == dleq_transcript(pk@, commit@, e, w, 0));
    let mut k: usize = 0;
    while k < m
        invariant
            k <= m,
            m <= enc@.len(),
            m <= masked@.len(),
            e == point_encodings(enc@),
            w == point_encodings(masked@),
            transcript@ == dleq_transcript(pk@, commit@, e, w, k as nat),
        decreases m - k,
    {
        append_32(&mut transcript, &enc[k].compress().0);
        append_32(&mut transcript, &masked[k].compress().0);
        k = k + 1;
    }
    hasher_update(hasher, &transcript);
    hasher_fill(hasher, buf);
    let d = Scalar::from_bytes_mod_order_wide(buf);
    hasher_reset(hasher);
    wipe(buf);
    d
}

/// `(d, z)` is an honest DLEQ proof with private key `sk` and nonce `nonce`:
/// `pk` is `g * sk`, every encrypted point is its decryption times `sk`, and
/// the proof is the one the prover computes from them.
pub open spec fn is_honest_dleq_with(
    g: Seq<u8>,
    pk: Seq<u8>,
    enc: Seq<Seq<u8>>,
    dec: Seq<Seq<u8>>,
    d: nat,
    z: nat,
    sk: nat,
    nonce: nat,
) -> bool {
    let m = min_nat(enc.len(), dec.len());
    &&& sk < group_order()
    &&& ristretto_decodes(g)
    &&& pk == ristretto_mul(g, sk)
    &&& forall|k: int|
        0 <= k < m ==> ristretto_decodes(#[trigger] dec[k]) && enc[k] == ristretto_mul(dec[k], sk)
    &&& is_dleq_proof_with_nonce(d, z, nonce, g, sk, pk, enc, dec)
}

/// `(d, z)` is an honest DLEQ proof for some private key and nonce.
pub open spec fn is_honest_dleq(
    g: Seq<u8>,
    pk: Seq<u8>,
    enc: Seq<Seq<u8>>,
    dec: Seq<Seq<u8>>,
    d: nat,
    z: nat,
) -> bool {
    exists|sk: nat, nonce: nat| #[trigger] is_honest_dleq_with(g, pk, enc, dec, d, z, sk, nonce)
}

/// Checks one party's DLEQ proof `(d, z)` for its decryptions `dec` of `enc`.
/// An honest proof is accepted.
pub(crate) fn check_share_proof(
    g: &RistrettoPoint,
    pk: &RistrettoPoint,
    enc: &Vec<RistrettoPoint>,
    dec: &Vec<RistrettoPoint>,
    d: &Scalar,
    z: &Scalar,
) -> (ok: bool)
    ensures
        ok == dleq_accepts(g@, pk@, point_encodings(enc@), point_encodings(dec@), d@, z@),
        is_honest_dleq(g@, pk@, point_encodings(enc@), point_encodings(dec@), d@, z@) ==> ok,
{
    let ghost e = point_encodings(enc@);
    let ghost w = point_encodings(dec@);
    let ghost honest = is_honest_dleq(g@, pk@, e, w, d@, z@);
    let ghost (sk, nonce) = choose|sk: nat, nonce: nat|
        is_honest_dleq_with(g@, pk@, e, w, d@, z@, sk, nonce);
    let ghost l = group_order();
    proof {
        d.lemma_value_below_order();
        z.lemma_value_below_order();
        if honest {
            vstd::arithmetic::div_mod::lemma_add_mod_noop_right(
                nonce as int,
                (d@ * sk) as int,
                l as int,
            );
            assert(sk * d@ == d@ * sk) by (nonlinear_arith);
            vstd::arithmetic::div_mod::lemma_mod_bound((d@ * sk) as int, l as int);
        }
    }
    let m = if dec.len() < enc.len() {
        dec.len()
    } else {
        enc.len()
    };
    let gz = g.mul(z);
    let pkd = pk.mul(d);
    proof {
        if honest {
            assert(ristretto_mul(g@, (d@ * sk) % l) == ristretto_mul(g@, (sk * d@) % l));
            assert(gz@ == ristretto_add(ristretto_mul(g@, nonce), ristretto_mul(g@, (d@ * sk) % l)));
            assert(pkd@ == ristretto_mul(g@, (sk * d@) % l));
        }
    }
    let commit = gz.sub(&pkd);
    let mut masked: Vec<RistrettoPoint> = Vec::new();
    let mut k: usize = 0;
    while k < m
        invariant
            k <= m,
            m as nat == min_nat(w.len(), e.len()),
            e == point_encodings(enc@),
            w == point_encodings(dec@),
            masked@.len() == k,
            forall|j: int|
                0 <= j < k ==> #[trigger] masked@[j]@ == ristretto_sub(
                    ristretto_mul(w[j], z@),
                    ristretto_mul(e[j], d@),
                ),
            honest ==> is_honest_dleq_with(g@, pk@, e, w, d@, z@, sk, nonce),
            honest ==> (nonce + (d@ * sk) % l) % l == z@,
            honest ==> (d@ * sk) % l == (sk * d@) % l,
            honest ==> (d@ * sk) % l < l,
            honest ==> forall|j: int|
                0 <= j < k ==> #[trigger] masked@[j]@ == ristretto_mul(w[j], nonce),
            l == group_order(),
            d@ < l,
        decreases m - k,
    {
        let dz = dec[k].mul(z);
        let ed = enc[k].mul(d);
        proof {
            if honest {
                assert(ristretto_decodes(w[k as int]));
                assert(e[k as int] == ristretto_mul(w[k as int], sk));
                assert(ristretto_decodes(ristretto_mul(w[k as int], nonce)));
                assert(ristretto_mul(w[k as int], (d@ * sk) % l) == ristretto_mul(
                    w[k as int],
                    (sk * d@) % l,
                ));
                assert(dz@ == ristretto_add(
                    ristretto_mul(w[k as int], nonce),
                    ristretto_mul(w[k as int], (d@ * sk) % l),
                ));
                assert(ed@ == ristretto_mul(w[k as int], (sk * d@) % l));
            }
        }
        let p = dz.sub(&ed);
        masked.push(p);
        k = k + 1;
    }
    proof {
        assert(point_encodings(masked@) =~= Seq::new(
            m as nat,
            |j: int| ristretto_sub(ristretto_mul(w[j], z@), ristretto_mul(e[j], d@)),
        ));
        if honest {
            assert(point_encodings(masked@) =~= Seq::new(
                m as nat,
                |j: int| ristretto_mul(w[j], nonce),
            ));
            assert(commit@ == ristretto_mul(g@, nonce));
        }
    }
    let mut hasher = hasher_new();
    let mut buf = [0u8; 64];
    let pk_bytes = pk.compress();
    let computed = dleq_challenge(&pk_bytes, &commit, enc, &masked, m, &mut hasher, &mut buf);
    proof {
        let t = dleq_transcript(pk_bytes@, commit@, e, point_encodings(masked@), m as nat);
        assert(Seq::<u8>::empty() + t =~= t);
    }
    computed == *d
}

/// Whether party `i`'s proof verifies against its public key, its encrypted
/// share and its decrypted share.
pub open spec fn share_accepted(
    g: Seq<u8>,
    pks: Seq<RistrettoPoint>,
    enc: Seq<Vec<RistrettoPoint>>,
    dec: Seq<Vec<RistrettoPoint>>,
    proofs: Seq<(Scalar, Scalar)>,
    i: int,
) -> bool {
    dleq_accepts(
        g,
        pks[i]@,
        point_encodings(enc[i]@),
        point_encodings(dec[i]@),
        proofs[i].0@,
        proofs[i].1@,
    )
}

/// Party `i`'s proof is an honest one.
pub open spec fn share_honest(
    g: Seq<u8>,
    pks: Seq<RistrettoPoint>,
    enc: Seq<Vec<RistrettoPoint>>,
    dec: Seq<Vec<RistrettoPoint>>,
    proofs: Seq<(Scalar, Scalar)>,
    i: int,
) -> bool {
    is_honest_dleq(
        g,
        pks[i]@,
        point_encodings(enc[i]@),
        point_encodings(dec[i]@),
        proofs[i].0@,
        proofs[i].1@,
    )
}

/// The indices below `c` whose proofs verify, in increasing order.
pub open spec fn accepted_prefix(
    g: Seq<u8>,
    pks: Seq<RistrettoPoint>,
    enc: Seq<Vec<RistrettoPoint>>,
    dec: Seq<Vec<RistrettoPoint>>,
    proofs: Seq<(Scalar, Scalar)>,
    c: nat,
) -> Seq<usize>
    decreases c,
{
    if c == 0 {
        Seq::empty()
    } else {
        let prev = accepted_prefix(g, pks, enc, dec, proofs, (c - 1) as nat);
        if share_accepted(g, pks, enc, dec, proofs, c - 1) {
            prev.push((c - 1) as usize)
        } else {
            prev
        }
    }
}

/// When each of the first `c` proofs verifies, the verified indices are
/// exactly `0, 1, ..., c - 1`.
pub proof fn lemma_all_accepted(
    g: Seq<u8>,
    pks: Seq<RistrettoPoint>,
    enc: Seq<Vec<RistrettoPoint>>,
    dec: Seq<Vec<RistrettoPoint>>,
    proofs: Seq<(Scalar, Scalar)>,
    c: nat,
)
    requires
        forall|i: int| 0 <= i < c ==> #[trigger] share_accepted(g, pks, enc, dec, proofs, i),
    ensures
        accepted_prefix(g, pks, enc, dec, proofs, c) == Seq::new(c, |i: int| i as usize),
    decreases c,
{
    if c > 0 {
        lemma_all_accepted(g, pks, enc, dec, proofs, (c - 1) as nat);
        assert(share_accepted(g, pks, enc, dec, proofs, c - 1));
        assert(accepted_prefix(g, pks, enc, dec, proofs, c) =~= Seq::new(
            c,
            |i: int| i as usize,
        ));
    } else {
        assert(accepted_prefix(g, pks, enc, dec, proofs, c) =~= Seq::new(
            c,
            |i: int| i as usize,
        ));
    }
}

/// How many parties a verifier checks: the shortest of the four lists.
pub open spec fn checked_count(
    pks: Seq<RistrettoPoint>,
    enc: Seq<Vec<RistrettoPoint>>,
    dec: Seq<Vec<RistrettoPoint>>,
    proofs: Seq<(Scalar, Scalar)>,
) -> nat {
    min_nat(min_nat(dec.len(), proofs.len()), min_nat(pks.len(), enc.len()))
}

/// A proof that `dleq_share` makes is honest when the prover's public key is
/// `g * sk` and every encrypted point is its decryption times `sk`, as
/// `Party::new` and `decrypt_shares` leave them; `verify_decrypted_shares`
/// accepts every honest proof.
pub proof fn lemma_dleq_proof_is_honest(
    d: nat,
    z: nat,
    nonce: nat,
    g: Seq<u8>,
    sk: nat,
    pk: Seq<u8>,
    enc: Seq<Seq<u8>>,
    dec: Seq<Seq<u8>>,
)
    requires
        is_dleq_proof_with_nonce(d, z, nonce, g, sk, pk, enc, dec),
        sk < group_order(),
        ristretto_decodes(g),
        pk == ristretto_mul(g, sk),
        forall|k: int|
            0 <= k < min_nat(enc.len(), dec.len()) ==> ristretto_decodes(#[trigger] dec[k])
                && enc[k] == ristretto_mul(dec[k], sk),
    ensures
        is_honest_dleq(g, pk, enc, dec, d, z),
{
    assert(is_honest_dleq_with(g, pk, enc, dec, d, z, sk, nonce));
}

/// Parties whose key pairs come from `Party::new`, whose decryptions come
/// from `decrypt_shares` and whose proofs come from `dleq_share` with a fresh
/// regular hasher all hold honest proofs; `verify_decrypted_shares` then
/// accepts every one of them.
pub proof fn lemma_honest_parties(
    g: Seq<u8>,
    pks: Seq<RistrettoPoint>,
    enc: Seq<Vec<RistrettoPoint>>,
    dec: Seq<Vec<RistrettoPoint>>,
    proofs: Seq<(Scalar, Scalar)>,
    sks: Seq<nat>,
    nonces: Seq<nat>,
    c: nat,
)
    requires
        ristretto_decodes(g),
        c <= pks.len(),
        c <= enc.len(),
        c <= dec.len(),
        c <= proofs.len(),
        c <= sks.len(),
        c <= nonces.len(),
        forall|i: int|
            0 <= i < c ==> {
                &&& #[trigger] sks[i] < group_order()
                &&& is_key_pair(g, sks[i], pks[i]@)
                &&& forall|k: int|
                    0 <= k < min_nat(enc[i]@.len(), dec[i]@.len()) ==> ristretto_decodes(
                        #[trigger] dec[i]@[k]@,
                    ) && decrypts_to(dec[i]@[k]@, enc[i]@[k]@, sks[i])
                &&& is_dleq_proof_with_nonce(
                    proofs[i].0@,
                    proofs[i].1@,
                    nonces[i],
                    g,
                    sks[i],
                    pks[i]@,
                    point_encodings(enc[i]@),
                    point_encodings(dec[i]@),
                )
            },
    ensures
        forall|i: int| 0 <= i < c ==> #[trigger] share_honest(g, pks, enc, dec, proofs, i),
{
    assert forall|i: int| 0 <= i < c implies #[trigger] share_honest(g, pks, enc, dec, proofs, i) by {
        let e = point_encodings(enc[i]@);
        let w = point_encodings(dec[i]@);
        assert(sks[i] < group_order());
        assert forall|k: int| 0 <= k < min_nat(e.len(), w.len()) implies ristretto_decodes(
            #[trigger] w[k],
        ) && e[k] == ristretto_mul(w[k], sks[i]) by {
            assert(ristretto_decodes(dec[i]@[k]@));
            assert(decrypts_to(dec[i]@[k]@, enc[i]@[k]@, sks[i]));
        }
        lemma_dleq_proof_is_honest(
            proofs[i].0@,
            proofs[i].1@,
            nonces[i],
            g,
            sks[i],
            pks[i]@,
            e,
            w,
        );
    }
}

} // verus!
