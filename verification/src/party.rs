//! A party of publicly verifiable secret sharing: it checks the dealer's proof
//! over the encrypted shares, decrypts its own share with its private key,
//! proves the decryption with a DLEQ proof, and checks the other parties'
//! decryptions.
use crate::dealing::{
    append_all, dealer_transcript, flatten_rows, is_honest_dealing, is_honest_dealing_with,
    proof_points, weighted_scalar_sum, weighted_sum,
};
use crate::decryption::{
    decrypts_to, is_decryption, is_inverse_or_zero, is_key_pair, lemma_cancel_inverse,
};
use crate::dleq::{
    accepted_prefix, challenge_under, check_share_proof, checked_count, dleq_challenge,
    lemma_all_accepted,
    is_dleq_proof_under, min_nat, share_accepted, share_honest,
};
use crate::error::Error;
use crate::polynomial::{eval_with_powers, scalar_values, Polynomial};
use crate::randomness::random_scalar;
use crate::ristretto::{
    all_decode, compressed_encodings, first_undecodable, point_encodings, ristretto_add, ristretto_decodes,
    ristretto_mul, CompressedRistretto, RistrettoPoint,
};
use crate::scalar::{group_order, Scalar};
use crate::threshold::{
    f32_exact_bound, lemma_threshold_rule_small, threshold_rule, threshold_rule_holds,
};
use crate::transcript::{
    hasher_fill, hasher_input, hasher_reset, hasher_setup, hasher_update, starts_at_zero, wipe,
    zero_block,
};
use crate::utils::{
    all_rows_decode, batch_decompress_batched_ristretto_points, batch_decompress_ristretto_points, compressed_row_encodings,
    compute_d_powers, is_first_row_error, power_mod, row_encodings,
};
use rand::rngs::StdRng;
use vstd::prelude::*;

verus! {

/// The state of one party: its keys and what it has received and computed so far.
pub struct Party {
    pub g: RistrettoPoint,
    pub private_key: Scalar,
    pub public_key: (CompressedRistretto, RistrettoPoint),
    pub index: usize,
    pub n: usize,
    pub t: usize,
    pub public_keys: Option<Vec<RistrettoPoint>>,
    pub dealer_proof: Option<(Scalar, Polynomial)>,
    pub validated_shares: Vec<usize>,
    pub encrypted_share: Option<Vec<RistrettoPoint>>,
    pub decrypted_share: Option<Vec<RistrettoPoint>>,
    pub encrypted_shares: Option<(Vec<Vec<CompressedRistretto>>, Vec<Vec<RistrettoPoint>>)>,
    pub decrypted_shares: Option<Vec<Vec<RistrettoPoint>>>,
    pub share_proof: Option<(Scalar, Scalar)>,
    pub share_proofs: Option<Vec<(Scalar, Scalar)>>,
    pub qualified_set: Option<Vec<(usize, Vec<RistrettoPoint>)>>,
}

/// Two optional lists hold the same items.
pub open spec fn same_optional_list<T>(a: Option<Vec<T>>, b: Option<Vec<T>>) -> bool {
    match (a, b) {
        (Some(x), Some(y)) => x@ == y@,
        (None, None) => true,
        _ => false,
    }
}

/// Two lists of lists hold the same items, row by row.
pub open spec fn same_rows<T>(a: Seq<Vec<T>>, b: Seq<Vec<T>>) -> bool {
    &&& a.len() == b.len()
    &&& forall|i: int| 0 <= i < a.len() ==> #[trigger] a[i]@ == b[i]@
}

/// `b` holds what `a` holds, field by field (lists by their items).
pub open spec fn same_party(a: Party, b: Party) -> bool {
    &&& a.g == b.g
    &&& a.private_key == b.private_key
    &&& a.public_key == b.public_key
    &&& a.index == b.index
    &&& a.n == b.n
    &&& a.t == b.t
    &&& same_optional_list(a.public_keys, b.public_keys)
    &&& (match (a.dealer_proof, b.dealer_proof) {
        (Some(x), Some(y)) => x.0 == y.0 && x.1@ == y.1@,
        (None, None) => true,
        _ => false,
    })
    &&& a.validated_shares@ == b.validated_shares@
    &&& same_optional_list(a.encrypted_share, b.encrypted_share)
    &&& same_optional_list(a.decrypted_share, b.decrypted_share)
    &&& (match (a.encrypted_shares, b.encrypted_shares) {
        (Some(x), Some(y)) => same_rows(x.0@, y.0@) && same_rows(x.1@, y.1@),
        (None, None) => true,
        _ => false,
    })
    &&& (match (a.decrypted_shares, b.decrypted_shares) {
        (Some(x), Some(y)) => same_rows(x@, y@),
        (None, None) => true,
        _ => false,
    })
    &&& a.share_proof == b.share_proof
    &&& same_optional_list(a.share_proofs, b.share_proofs)
    &&& (match (a.qualified_set, b.qualified_set) {
        (Some(x), Some(y)) => x@.len() == y@.len() && forall|i: int|
            0 <= i < x@.len() ==> (#[trigger] x@[i]).0 == y@[i].0 && x@[i].1@ == y@[i].1@,
        (None, None) => true,
        _ => false,
    })
}

/// A copy of a list of copyable items.
fn copy_list<T: Copy>(v: &Vec<T>) -> (r: Vec<T>)
    ensures
        r@ == v@,
{
    let mut out: Vec<T> = Vec::new();
    let mut i: usize = 0;
    while i < v.len()
        invariant
            i <= v@.len(),
            out@ == v@.subrange(0, i as int),
        decreases v@.len() - i,
    {
        out.push(v[i]);
        proof {
            assert(v@.subrange(0, i as int + 1) =~= v@.subrange(0, i as int).push(v@[i as int]));
        }
        i = i + 1;
    }
    assert(v@.subrange(0, v@.len() as int) =~= v@);
    out
}

/// A copy of an optional list of copyable items.
fn copy_optional_list<T: Copy>(v: &Option<Vec<T>>) -> (r: Option<Vec<T>>)
    ensures
        same_optional_list(*v, r),
{
    match v {
        Some(x) => Some(copy_list(x)),
        None => None,
    }
}

/// A copy of every row.
fn copy_rows<T: Copy>(rows: &Vec<Vec<T>>) -> (r: Vec<Vec<T>>)
    ensures
        same_rows(rows@, r@),
{
    let mut out: Vec<Vec<T>> = Vec::new();
    let mut i: usize = 0;
    while i < rows.len()
        invariant
            i <= rows@.len(),
            out@.len() == i,
            forall|j: int| 0 <= j < i ==> #[trigger] out@[j]@ == rows@[j]@,
        decreases rows@.len() - i,
    {
        out.push(copy_list(&rows[i]));
        i = i + 1;
    }
    out
}

/// A copy of the qualified set.
fn copy_qualified(v: &Vec<(usize, Vec<RistrettoPoint>)>) -> (r: Vec<(usize, Vec<RistrettoPoint>)>)
    ensures
        r@.len() == v@.len(),
        forall|i: int| 0 <= i < v@.len() ==> (#[trigger] v@[i]).0 == r@[i].0 && v@[i].1@ == r@[i].1@,
{
    let mut out: Vec<(usize, Vec<RistrettoPoint>)> = Vec::new();
    let mut i: usize = 0;
    while i < v.len()
        invariant
            i <= v@.len(),
            out@.len() == i,
            forall|j: int| 0 <= j < i ==> (#[trigger] v@[j]).0 == out@[j].0 && v@[j].1@ == out@[j].1@,
        decreases v@.len() - i,
    {
        let (idx, points) = &v[i];
        out.push((*idx, copy_list(points)));
        i = i + 1;
    }
    out
}

impl Clone for Party {
    fn clone(&self) -> (r: Self)
        ensures
            same_party(*self, r),
    {
        let dealer_proof = match &self.dealer_proof {
            Some((d, z)) => Some((*d, z.clone())),
            None => None,
        };
        let encrypted_shares = match &self.encrypted_shares {
            Some((c, e)) => Some((copy_rows(c), copy_rows(e))),
            None => None,
        };
        let decrypted_shares = match &self.decrypted_shares {
            Some(d) => Some(copy_rows(d)),
            None => None,
        };
        let qualified_set = match &self.qualified_set {
            Some(q) => Some(copy_qualified(q)),
            None => None,
        };
        Party {
            g: self.g,
            private_key: self.private_key,
            public_key: self.public_key,
            index: self.index,
            n: self.n,
            t: self.t,
            public_keys: copy_optional_list(&self.public_keys),
            dealer_proof,
            validated_shares: copy_list(&self.validated_shares),
            encrypted_share: copy_optional_list(&self.encrypted_share),
            decrypted_share: copy_optional_list(&self.decrypted_share),
            encrypted_shares,
            decrypted_shares,
            share_proof: self.share_proof,
            share_proofs: copy_optional_list(&self.share_proofs),
            qualified_set,
        }
    }
}

/// Whether `n` parties with threshold `t` admit a party at `index`.
pub open spec fn valid_parameters(n: nat, t: nat, index: nat) -> bool {
    index <= n && t < n && threshold_rule(n, t)
}

/// Up to 2^24 parties the parameters a party accepts are exactly those with
/// `index <= n`, `t < n` and `t == (n - 1) / 2`: any other threshold, larger
/// or smaller, is refused.
pub proof fn lemma_valid_parameters_small(n: nat, t: nat, index: nat)
    requires
        n <= f32_exact_bound(),
    ensures
        valid_parameters(n, t, index) <==> index <= n && t < n && t == (n - 1) as nat / 2,
{
    if 1 <= n && t < n {
        lemma_threshold_rule_small(n, t);
    }
}

/// A fresh party: the given generator, index, `n` and `t`, a public key that is
/// the generator times the private key, and nothing received yet.
pub open spec fn is_fresh_party(p: Party, g: RistrettoPoint, n: usize, t: usize, index: usize) -> bool {
    &&& p.g == g
    &&& is_key_pair(g@, p.private_key@, p.public_key.1@)
    &&& p.public_key.0@ == p.public_key.1@
    &&& p.index == index
    &&& p.n == n
    &&& p.t == t
    &&& p.public_keys is None
    &&& p.dealer_proof is None
    &&& p.validated_shares@.len() == 0
    &&& p.encrypted_share is None
    &&& p.decrypted_share is None
    &&& p.encrypted_shares is None
    &&& p.decrypted_shares is None
    &&& p.share_proof is None
    &&& p.share_proofs is None
    &&& p.qualified_set is None
}

impl Party {
    /// A party with a random private key. The parameters must satisfy
    /// `index <= n`, `t < n` and `t as f32 == floor((n - 1) as f32 / 2)`.
    pub fn new(g: &RistrettoPoint, rng: &mut StdRng, n: usize, t: usize, index: usize) -> (r:
        Result<Self, Error>)
        ensures
            r is Ok <==> valid_parameters(n as nat, t as nat, index as nat),
            r is Ok ==> threshold_rule(n as nat, t as nat),
            n <= f32_exact_bound() ==> (r is Ok <==> index <= n && t < n && t == (n - 1) as nat
                / 2),
            !valid_parameters(n as nat, t as nat, index as nat) ==> r == Err::<Self, Error>(
                Error::InvalidPararmeterSet(n, t as isize, index),
            ),
            r matches Ok(p) ==> is_fresh_party(p, *g, n, t, index),
    {
        proof {
            if n <= f32_exact_bound() {
                lemma_valid_parameters_small(n as nat, t as nat, index as nat);
            }
        }
        let private_key = random_scalar(rng);
        let public_key = g.mul(&private_key);
        if index <= n && t < n && threshold_rule_holds(n, t) {
            Ok(Party {
                g: *g,
                private_key,
                public_key: (public_key.compress(), public_key),
                index,
                n,
                t,
                dealer_proof: None,
                public_keys: None,
                validated_shares: Vec::new(),
                encrypted_shares: None,
                decrypted_shares: None,
                encrypted_share: None,
                decrypted_share: None,
                share_proof: None,
                share_proofs: None,
                qualified_set: None,
            })
        } else {
            Err(Error::InvalidPararmeterSet(n, t as isize, index))
        }
    }

    /// Decodes the party's own encrypted share; every entry must be a point.
    pub fn ingest_encrypted_share(&mut self, share: &Vec<CompressedRistretto>)
        requires
            all_decode(share@),
        ensures
            final(self).encrypted_share matches Some(v) && point_encodings(v@)
                == compressed_encodings(share@),
            *final(self) == (Party { encrypted_share: final(self).encrypted_share, ..*old(self) }),
    {
        let mut out: Vec<RistrettoPoint> = Vec::new();
        let mut i: usize = 0;
        while i < share.len()
            invariant
                i <= share@.len(),
                all_decode(share@),
                out@.len() == i,
                forall|j: int| 0 <= j < i ==> #[trigger] out@[j]@ == share@[j]@,
            decreases share@.len() - i,
        {
            assert(ristretto_decodes(share@[i as int]@));
            let p = share[i].decompress().unwrap();
            out.push(p);
            i = i + 1;
        }
        assert(point_encodings(out@) =~= compressed_encodings(share@));
        self.encrypted_share = Some(out);
    }

    /// Decodes the party's own encrypted share and stores it, or reports the
    /// first entry that is no point and leaves the party as it was.
    pub fn ingest_encrypted_share_checked(&mut self, share: &Vec<CompressedRistretto>) -> (r:
        Result<(), Error>)
        ensures
            r is Ok <==> all_decode(share@),
            r is Ok ==> (final(self).encrypted_share matches Some(v) && point_encodings(v@)
                == compressed_encodings(share@)),
            r is Ok ==> *final(self) == (Party {
                encrypted_share: final(self).encrypted_share,
                ..*old(self)
            }),
            r matches Err(e) ==> *final(self) == *old(self) && exists|i: int|
                first_undecodable(share@, i) && e == Error::InvalidPoint(i as usize),
    {
        match batch_decompress_ristretto_points(share.as_slice()) {
            Ok(points) => {
                self.encrypted_share = Some(points);
                Ok(())
            },
            Err(e) => Err(e),
        }
    }

    /// Stores the dealer's proof `(d, z)`; `z` must have `t + 1` coefficients.
    pub fn ingest_dealer_proof(&mut self, proof: (&Scalar, &Polynomial)) -> (r: Result<(), Error>)
        requires
            old(self).t < usize::MAX,
        ensures
            proof.1@.len() != old(self).t + 1 ==> r == Err::<(), Error>(
                Error::InvalidProof { z_len: proof.1@.len() as usize, t: old(self).t },
            ) && *final(self) == *old(self),
            proof.1@.len() == old(self).t + 1 ==> {
                &&& r is Ok
                &&& final(self).dealer_proof matches Some(dp) && dp.0 == *proof.0 && dp.1@
                    == proof.1@
                &&& *final(self) == (Party {
                    dealer_proof: final(self).dealer_proof,
                    ..*old(self)
                })
            },
    {
        if proof.1.len() != self.t + 1 {
            Err(Error::InvalidProof { z_len: proof.1.len(), t: self.t })
        } else {
            self.dealer_proof = Some((*proof.0, proof.1.clone()));
            Ok(())
        }
    }

    /// Decrypts the party's encrypted share: every point is multiplied by the
    /// inverse of the private key.
    pub fn decrypt_shares(&mut self) -> (r: Result<(), Error>)
        ensures
            old(self).encrypted_share is None ==> r == Err::<(), Error>(
                Error::UninitializedValue("party.encrypted_share"),
            ) && *final(self) == *old(self),
            old(self).encrypted_share matches Some(enc) ==> {
                &&& r is Ok
                &&& *final(self) == (Party {
                    decrypted_share: final(self).decrypted_share,
                    ..*old(self)
                })
                &&& final(self).decrypted_share matches Some(dec) && is_decryption(
                    dec@,
                    enc@,
                    old(self).private_key@,
                ) && (old(self).private_key@ != 0 ==> forall|k: int|
                    0 <= k < dec@.len() ==> decrypts_to(
                        #[trigger] dec@[k]@,
                        enc@[k]@,
                        old(self).private_key@,
                    ))
            },
    {
        let inv_private_key = self.private_key.invert();
        let ghost sk = self.private_key@;
        let ghost inv = inv_private_key@;
        proof {
            self.private_key.lemma_value_below_order();
            inv_private_key.lemma_value_below_order();
        }
        match &self.encrypted_share {
            Some(encrypted_share) => {
                let mut out: Vec<RistrettoPoint> = Vec::new();
                let mut k: usize = 0;
                while k < encrypted_share.len()
                    invariant
                        k <= encrypted_share@.len(),
                        out@.len() == k,
                        sk < group_order(),
                        inv == inv_private_key@,
                        sk != 0 ==> (inv * sk) % group_order() == 1,
                        sk == 0 ==> inv == 0,
                        forall|j: int|
                            0 <= j < k ==> #[trigger] out@[j]@ == ristretto_mul(
                                encrypted_share@[j]@,
                                inv,
                            ),
                        sk != 0 ==> forall|j: int|
                            0 <= j < k ==> decrypts_to(
                                #[trigger] out@[j]@,
                                encrypted_share@[j]@,
                                sk,
                            ),
                    decreases encrypted_share@.len() - k,
                {
                    let e = &encrypted_share[k];
                    e.check_valid();
                    let d = e.mul(&inv_private_key);
                    proof {
                        if sk != 0 {
                            assert(ristretto_mul(d@, sk) == ristretto_mul(e@, (inv * sk) % group_order()));
                            assert forall|x: Seq<u8>, f: nat|
                                #![trigger ristretto_mul(x, f)]
                                f < group_order() && ristretto_decodes(x) && e@ == ristretto_mul(
                                    x,
                                    (sk * f) % group_order(),
                                ) implies d@ == ristretto_mul(x, f) by {
                                lemma_cancel_inverse(sk, inv, f);
                                assert(ristretto_mul(x, (sk * f) % group_order()) == e@);
                            }
                            assert(decrypts_to(d@, e@, sk));
                        }
                    }
                    out.push(d);
                    k = k + 1;
                }
                assert(is_inverse_or_zero(inv, sk));
                self.decrypted_share = Some(out);
                Ok(())
            },
            None => Err(Error::UninitializedValue("party.encrypted_share")),
        }
    }

    /// Proves in zero knowledge that the decrypted share is the encrypted
    /// share divided by the private key: draws a nonce `r`, hashes the public
    /// key, `g*r`, and each encrypted point with its decryption times `r` into
    /// the challenge `d`, and stores `(d, r + d * private_key)`. The transcript
    /// goes to `hasher` after whatever it already absorbed, in its key and mode;
    /// `hasher` ends reset and `buf` wiped.
    pub fn dleq_share(
        &mut self,
        g: &RistrettoPoint,
        rng: &mut StdRng,
        hasher: &mut blake3::Hasher,
        buf: &mut [u8; 64],
    ) -> (r: Result<(), Error>)
        requires
            old(self).decrypted_share is Some && old(self).encrypted_share is Some
                ==> starts_at_zero(hasher_setup(*old(hasher))),
        ensures
            old(self).decrypted_share is None && old(self).encrypted_share is Some ==> r == Err::<
                (),
                Error,
            >(Error::UninitializedValue("party.decrypted_share")),
            old(self).decrypted_share is Some && old(self).encrypted_share is None ==> r == Err::<
                (),
                Error,
            >(Error::UninitializedValue("party.encrypted_shares")),
            old(self).decrypted_share is None && old(self).encrypted_share is None ==> r == Err::<
                (),
                Error,
            >(Error::UninitializedValue("party.{decrypted_share, encrypted_shares}")),
            r is Err ==> *final(self) == *old(self) && final(buf)@ == old(buf)@ && *final(rng)
                == *old(rng) && *final(hasher) == *old(hasher),
            old(self).decrypted_share matches Some(dec) ==> old(self).encrypted_share matches Some(
                enc,
            ) ==> {
                &&& r is Ok
                &&& final(buf)@ == zero_block()
                &&& hasher_setup(*final(hasher)) == hasher_setup(*old(hasher))
                &&& hasher_input(*final(hasher)) == Seq::<u8>::empty()
                &&& *final(self) == (Party { share_proof: final(self).share_proof, ..*old(self) })
                &&& final(self).share_proof matches Some(proof) && exists|nonce: nat|
                    #[trigger] is_dleq_proof_under(
                        hasher_setup(*old(hasher)),
                        hasher_input(*old(hasher)),
                        proof.0@,
                        proof.1@,
                        nonce,
                        g@,
                        old(self).private_key@,
                        old(self).public_key.0@,
                        point_encodings(enc@),
                        point_encodings(dec@),
                    )
            },
    {
        match (&self.decrypted_share, &self.encrypted_share) {
            (Some(decrypted_shares), Some(encrypted_shares)) => {
                let r = random_scalar(rng);
                proof {
                    r.lemma_value_below_order();
                }
                let commit = g.mul(&r);
                commit.check_valid();
                let m = if decrypted_shares.len() < encrypted_shares.len() {
                    decrypted_shares.len()
                } else {
                    encrypted_shares.len()
                };
                let ghost dec = point_encodings(decrypted_shares@);
                let mut masked: Vec<RistrettoPoint> = Vec::new();
                let mut k: usize = 0;
                while k < m
                    invariant
                        k <= m,
                        m <= decrypted_shares@.len(),
                        dec == point_encodings(decrypted_shares@),
                        masked@.len() == k,
                        forall|j: int|
                            0 <= j < k ==> #[trigger] masked@[j]@ == ristretto_mul(dec[j], r@),
                        forall|j: int|
                            0 <= j < k ==> ristretto_decodes(#[trigger] ristretto_mul(dec[j], r@)),
                    decreases m - k,
                {
                    let p = decrypted_shares[k].mul(&r);
                    p.check_valid();
                    masked.push(p);
                    k = k + 1;
                }
                let ghost setup = hasher_setup(*hasher);
                let ghost prefix = hasher_input(*hasher);
                let d = dleq_challenge(
                    &self.public_key.0,
                    &commit,
                    encrypted_shares,
                    &masked,
                    m,
                    hasher,
                    buf,
                );
                let z = r.add(&d.mul(&self.private_key));
                proof {
                    let l = group_order() as int;
                    vstd::arithmetic::div_mod::lemma_add_mod_noop_right(
                        r@ as int,
                        (d@ * self.private_key@) as int,
                        l,
                    );
                    assert(point_encodings(masked@) =~= Seq::new(
                        m as nat,
                        |j: int| ristretto_mul(dec[j], r@),
                    ));
                    assert(is_dleq_proof_under(
                        setup,
                        prefix,
                        d@,
                        z@,
                        r@,
                        g@,
                        self.private_key@,
                        self.public_key.0@,
                        point_encodings(encrypted_shares@),
                        dec,
                    ));
                }
                self.share_proof = Some((d, z));
                let ghost stored = self.share_proof->0;
                assert(is_dleq_proof_under(
                        setup,
                        prefix,
                        stored.0@,
                        stored.1@,
                        r@,
                        g@,
                        old(self).private_key@,
                        old(self).public_key.0@,
                        point_encodings(encrypted_shares@),
                        point_encodings(decrypted_shares@),
                    ));
                Ok(())
            },
            (None, Some(_)) => Err(Error::UninitializedValue("party.decrypted_share")),
            (Some(_), None) => Err(Error::UninitializedValue("party.encrypted_shares")),
            (None, None) => Err(
                Error::UninitializedValue("party.{decrypted_share, encrypted_shares}"),
            ),
        }
    }

    /// Stores every party's encrypted share, `n` rows, decoded, and keeps this
    /// party's own row (row `index - 1`).
    pub fn ingest_encrypted_shares(&mut self, encrypted_shares: &Vec<Vec<CompressedRistretto>>) -> (r:
        Result<(), Error>)
        requires
            encrypted_shares@.len() == old(self).n && all_rows_decode(encrypted_shares@) ==> 1
                <= old(self).index <= old(self).n,
        ensures
            encrypted_shares@.len() != old(self).n ==> r == Err::<(), Error>(
                Error::CountMismatch(
                    old(self).n,
                    "parties",
                    encrypted_shares@.len() as usize,
                    "encrypted shares",
                ),
            ),
            encrypted_shares@.len() == old(self).n && !all_rows_decode(encrypted_shares@) ==> (r
                matches Err(e) && is_first_row_error(encrypted_shares@, e)),
            r is Err ==> *final(self) == *old(self),
            encrypted_shares@.len() == old(self).n && all_rows_decode(encrypted_shares@) ==> {
                &&& r is Ok
                &&& final(self).encrypted_share matches Some(own) && point_encodings(own@)
                    == compressed_encodings(encrypted_shares@[old(self).index - 1]@)
                &&& final(self).encrypted_shares matches Some(es) && es.0@.len()
                    == encrypted_shares@.len() && (forall|i: int|
                    0 <= i < encrypted_shares@.len() ==> #[trigger] es.0@[i]@
                        == encrypted_shares@[i]@) && row_encodings(es.1@)
                    == compressed_row_encodings(encrypted_shares@)
                &&& *final(self) == (Party {
                    encrypted_share: final(self).encrypted_share,
                    encrypted_shares: final(self).encrypted_shares,
                    ..*old(self)
                })
            },
    {
        if encrypted_shares.len() == self.n {
            match batch_decompress_batched_ristretto_points(encrypted_shares) {
                Ok(enc_shares) => {
                    let own = enc_shares[self.index - 1].clone();
                    assert(own@ =~= enc_shares@[self.index - 1]@);
                    assert(row_encodings(enc_shares@) =~= compressed_row_encodings(
                        encrypted_shares@,
                    ));
                    self.encrypted_share = Some(own);
                    self.encrypted_shares = Some((copy_rows(encrypted_shares), enc_shares));
                    Ok(())
                },
                Err(x) => Err(x),
            }
        } else {
            Err(
                Error::CountMismatch(
                    self.n,
                    "parties",
                    encrypted_shares.len(),
                    "encrypted shares",
                ),
            )
        }
    }

    /// Stores the other `n - 1` parties' decrypted shares and proofs, decoded,
    /// with this party's own inserted at position `index - 1`.
    pub fn ingest_decrypted_shares_and_proofs(
        &mut self,
        decrypted_shares: &Vec<Vec<CompressedRistretto>>,
        proofs: Vec<(Scalar, Scalar)>,
    ) -> (r: Result<(), Error>)
        requires
            old(self).n >= 1,
            decrypted_shares@.len() == old(self).n - 1 && proofs@.len() == decrypted_shares@.len()
                && all_rows_decode(decrypted_shares@) && old(self).decrypted_share is Some && old(
                self,
            ).share_proof is Some ==> 1 <= old(self).index <= old(self).n,
        ensures
            decrypted_shares@.len() != old(self).n - 1 ==> r == Err::<(), Error>(
                Error::CountMismatch(
                    old(self).n,
                    "parties",
                    decrypted_shares@.len() as usize,
                    "decrypted shares",
                ),
            ),
            decrypted_shares@.len() == old(self).n - 1 && proofs@.len() != decrypted_shares@.len()
                ==> r == Err::<(), Error>(
                Error::CountMismatch(old(self).n, "parties", proofs@.len() as usize, "proofs"),
            ),
            decrypted_shares@.len() == old(self).n - 1 && proofs@.len() == decrypted_shares@.len()
                && !all_rows_decode(decrypted_shares@) ==> (r matches Err(e) && is_first_row_error(
                decrypted_shares@,
                e,
            )),
            decrypted_shares@.len() == old(self).n - 1 && proofs@.len() == decrypted_shares@.len()
                && all_rows_decode(decrypted_shares@) ==> {
                &&& old(self).decrypted_share is None && old(self).share_proof is Some ==> r
                    == Err::<(), Error>(Error::UninitializedValue("party.decrypted_share"))
                &&& old(self).decrypted_share is Some && old(self).share_proof is None ==> r
                    == Err::<(), Error>(Error::UninitializedValue("party.share_proof"))
                &&& old(self).decrypted_share is None && old(self).share_proof is None ==> r
                    == Err::<(), Error>(
                    Error::UninitializedValue("party.{decrypted_share, share_proof}"),
                )
            },
            r is Err ==> *final(self) == *old(self),
            decrypted_shares@.len() == old(self).n - 1 && proofs@.len() == decrypted_shares@.len()
                && all_rows_decode(decrypted_shares@) ==> (old(self).decrypted_share matches Some(
                own,
            ) ==> old(self).share_proof matches Some(own_proof) ==> {
                &&& r is Ok
                &&& final(self).decrypted_shares matches Some(ds) && row_encodings(ds@)
                    == compressed_row_encodings(decrypted_shares@).insert(
                    old(self).index - 1,
                    point_encodings(own@),
                )
                &&& final(self).share_proofs matches Some(ps) && ps@ == proofs@.insert(
                    old(self).index - 1,
                    own_proof,
                )
                &&& *final(self) == (Party {
                    decrypted_shares: final(self).decrypted_shares,
                    share_proofs: final(self).share_proofs,
                    ..*old(self)
                })
            }),
    {
        if decrypted_shares.len() == self.n - 1 {
            if proofs.len() == decrypted_shares.len() {
                match batch_decompress_batched_ristretto_points(decrypted_shares) {
                    Ok(mut dec_shares) => match (&self.decrypted_share, &self.share_proof) {
                        (Some(own_dec_share), Some(own_proof)) => {
                            let own = own_dec_share.clone();
                            assert(own@ =~= own_dec_share@);
                            let ghost before = dec_shares@;
                            dec_shares.insert(self.index - 1, own);
                            assert(row_encodings(dec_shares@) =~= compressed_row_encodings(
                                decrypted_shares@,
                            ).insert(self.index - 1, point_encodings(own_dec_share@)));
                            let own_proof_copy = *own_proof;
                            self.decrypted_shares = Some(dec_shares);
                            let mut proofs = proofs;
                            proofs.insert(self.index - 1, own_proof_copy);
                            self.share_proofs = Some(proofs);
                            Ok(())
                        },
                        (None, Some(_)) => Err(Error::UninitializedValue("party.decrypted_share")),
                        (Some(_), None) => Err(Error::UninitializedValue("party.share_proof")),
                        (None, None) => Err(
                            Error::UninitializedValue("party.{decrypted_share, share_proof}"),
                        ),
                    },
                    Err(x) => Err(x),
                }
            } else {
                Err(Error::CountMismatch(self.n, "parties", proofs.len(), "proofs"))
            }
        } else {
            Err(
                Error::CountMismatch(
                    self.n,
                    "parties",
                    decrypted_shares.len(),
                    "decrypted shares",
                ),
            )
        }
    }

    /// Checks every other party's DLEQ proof; `validated_shares` becomes the
    /// indices whose proofs verify, and the result says whether more than `t`
    /// did. Honest proofs always verify.
    pub fn verify_decrypted_shares(&mut self) -> (r: Result<bool, Error>)
        ensures
            old(self).public_keys is None && old(self).encrypted_shares is Some ==> r == Err::<
                bool,
                Error,
            >(Error::UninitializedValue("party.encrypted_shares")),
            old(self).public_keys is Some && old(self).encrypted_shares is None ==> r == Err::<
                bool,
                Error,
            >(Error::UninitializedValue("party.public_keys")),
            old(self).public_keys is None && old(self).encrypted_shares is None ==> r == Err::<
                bool,
                Error,
            >(Error::UninitializedValue("party.{public_keys, encrypted_shares}")),
            old(self).public_keys is Some && old(self).encrypted_shares is Some ==> {
                &&& old(self).decrypted_shares is None && old(self).share_proofs is Some ==> r
                    == Err::<bool, Error>(Error::UninitializedValue("party.decrypted_shares"))
                &&& old(self).decrypted_shares is Some && old(self).share_proofs is None ==> r
                    == Err::<bool, Error>(Error::UninitializedValue("party.share_proofs"))
                &&& old(self).decrypted_shares is None && old(self).share_proofs is None ==> r
                    == Err::<bool, Error>(
                    Error::UninitializedValue("party.{decrypted_shares, share_proofs}"),
                )
            },
            r is Err ==> *final(self) == *old(self),
            old(self).public_keys matches Some(pks) ==> old(self).encrypted_shares matches Some(es)
                ==> old(self).decrypted_shares matches Some(dec) ==> old(self).share_proofs matches Some(
                proofs,
            ) ==> {
                let count = checked_count(pks@, es.1@, dec@, proofs@);
                &&& final(self).validated_shares@ == accepted_prefix(
                    old(self).g@,
                    pks@,
                    es.1@,
                    dec@,
                    proofs@,
                    count,
                )
                &&& r == Ok::<bool, Error>(final(self).validated_shares@.len() > old(self).t)
                &&& forall|i: int|
                    0 <= i < count && share_honest(old(self).g@, pks@, es.1@, dec@, proofs@, i)
                        ==> share_accepted(old(self).g@, pks@, es.1@, dec@, proofs@, i)
                &&& (forall|i: int|
                    0 <= i < count ==> #[trigger] share_honest(
                        old(self).g@,
                        pks@,
                        es.1@,
                        dec@,
                        proofs@,
                        i,
                    )) ==> final(self).validated_shares@ == Seq::new(count, |i: int| i as usize)
                    && r == Ok::<bool, Error>(count > old(self).t)
                &&& *final(self) == (Party {
                    validated_shares: final(self).validated_shares,
                    ..*old(self)
                })
            },
    {
        match (&self.public_keys, &self.encrypted_shares) {
            (Some(public_keys), Some(enc_shares)) => {
                match (&self.decrypted_shares, &self.share_proofs) {
                    (Some(dec_shares), Some(proofs)) => {
                        let ghost g = self.g@;
                        let ghost pks = public_keys@;
                        let ghost es = enc_shares.1@;
                        let ghost ds = dec_shares@;
                        let ghost ps = proofs@;
                        let a = if dec_shares.len() < proofs.len() {
                            dec_shares.len()
                        } else {
                            proofs.len()
                        };
                        let b = if public_keys.len() < enc_shares.1.len() {
                            public_keys.len()
                        } else {
                            enc_shares.1.len()
                        };
                        let count = if a < b {
                            a
                        } else {
                            b
                        };
                        let mut validated: Vec<usize> = Vec::new();
                        let mut i: usize = 0;
                        while i < count
                            invariant
                                i <= count,
                                count as nat == checked_count(pks, es, ds, ps),
                                g == self.g@,
                                pks == public_keys@,
                                es == enc_shares.1@,
                                ds == dec_shares@,
                                ps == proofs@,
                                validated@ == accepted_prefix(g, pks, es, ds, ps, i as nat),
                                forall|j: int|
                                    0 <= j < i && share_honest(g, pks, es, ds, ps, j)
                                        ==> share_accepted(g, pks, es, ds, ps, j),
                            decreases count - i,
                        {
                            let (d, z) = &proofs[i];
                            let ok = check_share_proof(
                                &self.g,
                                &public_keys[i],
                                &enc_shares.1[i],
                                &dec_shares[i],
                                d,
                                z,
                            );
                            if ok {
                                validated.push(i);
                            }
                            i = i + 1;
                        }
                        proof {
                            if forall|j: int|
                                0 <= j < count ==> #[trigger] share_honest(g, pks, es, ds, ps, j) {
                                assert forall|j: int| 0 <= j < count implies #[trigger] share_accepted(
                                    g,
                                    pks,
                                    es,
                                    ds,
                                    ps,
                                    j,
                                ) by {
                                    assert(share_honest(g, pks, es, ds, ps, j));
                                }
                                lemma_all_accepted(g, pks, es, ds, ps, count as nat);
                            }
                        }
                        self.validated_shares = validated;
                        Ok(self.validated_shares.len() > self.t)
                    },
                    (None, Some(_)) => Err(Error::UninitializedValue("party.decrypted_shares")),
                    (Some(_), None) => Err(Error::UninitializedValue("party.share_proofs")),
                    (None, None) => Err(
                        Error::UninitializedValue("party.{decrypted_shares, share_proofs}"),
                    ),
                }
            },
            (None, Some(_)) => Err(Error::UninitializedValue("party.encrypted_shares")),
            (Some(_), None) => Err(Error::UninitializedValue("party.public_keys")),
            (None, None) => Err(Error::UninitializedValue("party.{public_keys, encrypted_shares}")),
        }
    }

    /// Checks the dealer's proof `(d, z)` over the encrypted shares: the
    /// challenge recomputed from all encrypted shares and, for each party, from
    /// `pk * z(i)` minus its encrypted shares weighted by `d, d^2, ...`, must
    /// equal `d`. The challenge is taken with `hasher` after a reset, so in its
    /// key and mode; `hasher` ends reset and `buf` wiped.
    pub fn verify_encrypted_shares(
        &mut self,
        hasher: &mut blake3::Hasher,
        buf: &mut [u8; 64],
        x_pows: &Vec<Vec<Scalar>>,
    ) -> (r: Result<bool, Error>)
        requires
            old(self).dealer_proof matches Some(dp) ==> old(self).encrypted_shares matches Some(es)
                ==> old(self).public_keys matches Some(pks) ==> {
                &&& starts_at_zero(hasher_setup(*old(hasher)))
                &&& es.0@.len() > 0
                &&& pks@.len() < x_pows@.len()
                &&& forall|x: int|
                    1 <= x <= pks@.len() ==> #[trigger] x_pows@[x]@.len() >= dp.1@.len()
            },
        ensures
            *final(self) == *old(self),
            old(self).dealer_proof is None ==> r == Err::<bool, Error>(
                Error::UninitializedValue("party.dealer_proof"),
            ),
            old(self).dealer_proof is Some ==> {
                &&& old(self).encrypted_shares is Some && old(self).public_keys is None ==> r
                    == Err::<bool, Error>(Error::UninitializedValue("party.public_keys"))
                &&& old(self).encrypted_shares is None && old(self).public_keys is Some ==> r
                    == Err::<bool, Error>(Error::UninitializedValue("party.encrypted_shares"))
                &&& old(self).encrypted_shares is None && old(self).public_keys is None ==> r
                    == Err::<bool, Error>(
                    Error::UninitializedValue("party.{encrypted_shares, public_keys}"),
                )
            },
            r is Err ==> final(buf)@ == old(buf)@ && *final(hasher) == *old(hasher),
            old(self).dealer_proof matches Some(dp) ==> old(self).encrypted_shares matches Some(es)
                ==> old(self).public_keys matches Some(pks) ==> {
                let setup = hasher_setup(*old(hasher));
                &&& r == Ok::<bool, Error>(
                    dp.0@ == challenge_under(
                        setup,
                        dealer_transcript(es.0@, dp.1@, x_pows@, pks@, es.1@, dp.0@),
                    ),
                )
                &&& final(buf)@ == zero_block()
                &&& hasher_setup(*final(hasher)) == setup
                &&& hasher_input(*final(hasher)) == Seq::<u8>::empty()
                &&& is_honest_dealing(setup, es.0@, dp.1@, x_pows@, pks@, es.1@, dp.0@) ==> r
                    == Ok::<bool, Error>(true)
            },
    {
        match &self.dealer_proof {
            Some((d, z)) => match (&self.encrypted_shares, &self.public_keys) {
                (Some(encrypted_shares), Some(public_keys)) => {
                    let ghost setup = hasher_setup(*hasher);
                    hasher_reset(hasher);
                    wipe(buf);
                    let k = encrypted_shares.0[0].len();
                    let d_vals = compute_d_powers(k, d);
                    let z_evals = z.evaluate_range_precomp(x_pows, 1, public_keys.len());
                    let count = if public_keys.len() < encrypted_shares.1.len() {
                        public_keys.len()
                    } else {
                        encrypted_shares.1.len()
                    };
                    let ghost zs = z@;
                    let ghost pks = public_keys@;
                    let ghost es = encrypted_shares.1@;
                    let ghost honest = is_honest_dealing(
                        setup,
                        encrypted_shares.0@,
                        zs,
                        x_pows@,
                        pks,
                        es,
                        d@,
                    );
                    let ghost (rho, shares) = choose|rho: Seq<nat>, shares: Seq<Seq<nat>>|
                        is_honest_dealing_with(
                            setup,
                            encrypted_shares.0@,
                            zs,
                            x_pows@,
                            pks,
                            es,
                            d@,
                            rho,
                            shares,
                        );
                    let ghost l = group_order();
                    let mut suite: Vec<CompressedRistretto> = Vec::new();
                    let mut i: usize = 0;
                    while i < count
                        invariant
                            i <= count,
                            count as nat == min_nat(pks.len(), es.len()),
                            pks == public_keys@,
                            es == encrypted_shares.1@,
                            zs == z@,
                            z_evals@.len() == pks.len(),
                            forall|j: int|
                                0 <= j < z_evals@.len() ==> #[trigger] z_evals@[j]@
                                    == eval_with_powers(zs, scalar_values(x_pows@[1 + j]@)),
                            d_vals@.len() == k,
                            forall|j: int|
                                0 <= j < k ==> #[trigger] d_vals@[j]@ == power_mod(
                                    d@,
                                    (j + 1) as nat,
                                ),
                            suite@.len() == i,
                            l == group_order(),
                            k == encrypted_shares.0@[0]@.len(),
                            honest ==> is_honest_dealing_with(
                                setup,
                                encrypted_shares.0@,
                                zs,
                                x_pows@,
                                pks,
                                es,
                                d@,
                                rho,
                                shares,
                            ),
                            honest ==> forall|j: int|
                                0 <= j < i ==> #[trigger] suite@[j]@ == ristretto_mul(
                                    pks[j]@,
                                    rho[j],
                                ),
                            forall|j: int|
                                0 <= j < i ==> #[trigger] suite@[j]@ == proof_points(
                                    zs,
                                    x_pows@,
                                    pks,
                                    es,
                                    d@,
                                    k as nat,
                                    count as nat,
                                )[j],
                        decreases count - i,
                    {
                        let row = &encrypted_shares.1[i];
                        let zpk = public_keys[i].mul(&z_evals[i]);
                        let m = if k < row.len() {
                            k
                        } else {
                            row.len()
                        };
                        let ghost e = point_encodings(row@);
                        let pk = &public_keys[i];
                        pk.check_valid();
                        let mut acc = RistrettoPoint::identity();
                        proof {
                            if honest {
                                assert(rho[i as int] < l);
                                assert(ristretto_mul(pk@, 0) == acc@);
                                assert(k == row@.len());
                            }
                        }
                        let mut j: usize = 0;
                        while j < m
                            invariant
                                j <= m,
                                m <= k,
                                m <= row@.len(),
                                e == point_encodings(row@),
                                d_vals@.len() == k,
                                forall|j2: int|
                                    0 <= j2 < k ==> #[trigger] d_vals@[j2]@ == power_mod(
                                        d@,
                                        (j2 + 1) as nat,
                                    ),
                                acc@ == weighted_sum(e, d@, j as nat),
                                l == group_order(),
                                ristretto_decodes(pk@),
                                pk@ == pks[i as int]@,
                                row@ == es[i as int]@,
                                i < count,
                                count as nat == min_nat(pks.len(), es.len()),
                                honest ==> m == k,
                                honest ==> is_honest_dealing_with(
                                    setup,
                                    encrypted_shares.0@,
                                    zs,
                                    x_pows@,
                                    pks,
                                    es,
                                    d@,
                                    rho,
                                    shares,
                                ),
                                honest ==> acc@ == ristretto_mul(
                                    pk@,
                                    weighted_scalar_sum(shares[i as int], d@, j as nat),
                                ),
                            decreases m - j,
                        {
                            let term = row[j].mul(&d_vals[j]);
                            proof {
                                if honest {
                                    let sij = shares[i as int][j as int];
                                    assert(rho[i as int] < l);
                                    assert(es[i as int]@[j as int]@ == ristretto_mul(pk@, sij));
                                    assert(row@[j as int]@ == ristretto_mul(pk@, sij));
                                    assert(sij < l);
                                    assert(term@ == ristretto_mul(pk@, (sij * d_vals@[j as int]@) % l));
                                    vstd::arithmetic::div_mod::lemma_mod_bound((sij * d_vals@[j as int]@) as int, l as int);
                                    vstd::arithmetic::div_mod::lemma_mod_bound(
                                        weighted_scalar_sum(shares[i as int], d@, j as nat) as int, l as int);
                                }
                            }
                            acc = acc.add(&term);
                            proof {
                                if honest {
                                    let sij = shares[i as int][j as int];
                                    assert(weighted_scalar_sum(shares[i as int], d@, (j + 1) as nat)
                                        == (weighted_scalar_sum(shares[i as int], d@, j as nat)
                                        + (sij * power_mod(d@, (j + 1) as nat)) % l) % l);
                                }
                            }
                            j = j + 1;
                        }
                        proof {
                            if honest {
                                let w = weighted_scalar_sum(shares[i as int], d@, k as nat);
                                let rh = rho[i as int];
                                assert(rho[i as int] < l);
                                assert(rh < l);
                                vstd::arithmetic::div_mod::lemma_mod_bound(
                                    weighted_scalar_sum(shares[i as int], d@, k as nat) as int, l as int);
                                assert(z_evals@[i as int]@ == eval_with_powers(zs, scalar_values(x_pows@[1 + i]@)));
                                assert(x_pows@[1 + i] == x_pows@[i + 1]);
                                assert((rh + w) % l == z_evals@[i as int]@);
                                assert(zpk@ == ristretto_add(ristretto_mul(pk@, rh), ristretto_mul(pk@, w)));
                                assert(ristretto_decodes(ristretto_mul(pk@, rh)));
                            }
                        }
                        let p = zpk.sub(&acc);
                        suite.push(p.compress());
                        i = i + 1;
                    }
                    let mut transcript: Vec<u8> = Vec::new();
                    let ghost rows = compressed_row_encodings(encrypted_shares.0@);
                    let mut a: usize = 0;
                    while a < encrypted_shares.0.len()
                        invariant
                            a <= encrypted_shares.0@.len(),
                            rows == compressed_row_encodings(encrypted_shares.0@),
                            transcript@ == flatten_rows(rows.subrange(0, a as int)),
                        decreases encrypted_shares.0@.len() - a,
                    {
                        append_all(&mut transcript, &encrypted_shares.0[a]);
                        proof {
                            let p = rows.subrange(0, a as int + 1);
                            assert(p.drop_last() =~= rows.subrange(0, a as int));
                        }
                        a = a + 1;
                    }
                    assert(rows.subrange(0, encrypted_shares.0@.len() as int) =~= rows);
                    append_all(&mut transcript, &suite);
                    assert(compressed_encodings(suite@) =~= proof_points(
                        zs,
                        x_pows@,
                        pks,
                        es,
                        d@,
                        k as nat,
                        count as nat,
                    ));
                    proof {
                        if honest {
                            assert(count == pks.len());
                            assert(compressed_encodings(suite@) =~= Seq::new(
                                pks.len(),
                                |j: int| ristretto_mul(pks[j]@, rho[j]),
                            ));
                        }
                    }
                    hasher_update(hasher, &transcript);
                    hasher_fill(hasher, buf);
                    hasher_reset(hasher);
                    let d_comp = Scalar::from_bytes_mod_order_wide(buf);
                    wipe(buf);
                    Ok(*d == d_comp)
                },
                (Some(_), None) => Err(Error::UninitializedValue("party.public_keys")),
                (None, Some(_)) => Err(Error::UninitializedValue("party.encrypted_shares")),
                (None, None) => Err(
                    Error::UninitializedValue("party.{encrypted_shares, public_keys}"),
                ),
            },
            None => Err(Error::UninitializedValue("party.dealer_proof")),
        }
    }
}

/// The `n` parties with indices `1..=n`, each with its own random key.
pub fn generate_parties(g: &RistrettoPoint, rng: &mut StdRng, n: usize, t: usize) -> (r: Vec<Party>)
    requires
        n == 0 || (t < n && threshold_rule(n as nat, t as nat)),
    ensures
        r@.len() == n,
        forall|i: int| 0 <= i < n ==> is_fresh_party(#[trigger] r@[i], *g, n, t, (i + 1) as usize),
{
    let mut parties: Vec<Party> = Vec::new();
    let mut i: usize = 0;
    while i < n
        invariant
            i <= n,
            n == 0 || (t < n && threshold_rule(n as nat, t as nat)),
            parties@.len() == i,
            forall|j: int|
                0 <= j < i ==> is_fresh_party(#[trigger] parties@[j], *g, n, t, (j + 1) as usize),
        decreases n - i,
    {
        let p = Party::new(g, rng, n, t, i + 1).unwrap();
        parties.push(p);
        i = i + 1;
    }
    parties
}

} // verus!
