//! The dealer's proof over the encrypted shares: the transcript a party
//! recomputes, and the honest dealing that it accepts.
use crate::dleq::{challenge_under, min_nat};
use crate::polynomial::{
    add_mod, eval_with_powers, lemma_eval_add, lemma_eval_scale, scale_mod, scalar_values,
};
use crate::ristretto::{
    compressed_encodings, point_encodings, ristretto_add, ristretto_decodes, ristretto_mul,
    ristretto_sub, CompressedRistretto, RistrettoPoint,
};
use crate::scalar::{group_order, Scalar};
use crate::transcript::append_32;
use crate::utils::{compressed_row_encodings, power_mod};
use vstd::prelude::*;

verus! {

/// The byte strings of `s` one after another.
pub open spec fn concat_encodings(s: Seq<Seq<u8>>) -> Seq<u8>
    decreases s.len(),
{
    if s.len() == 0 {
        Seq::empty()
    } else {
        concat_encodings(s.drop_last()) + s.last()
    }
}

/// The byte strings of every row of `rows`, row after row.
pub open spec fn flatten_rows(rows: Seq<Seq<Seq<u8>>>) -> Seq<u8>
    decreases rows.len(),
{
    if rows.len() == 0 {
        Seq::empty()
    } else {
        flatten_rows(rows.drop_last()) + concat_encodings(rows.last())
    }
}

/// `enc[0] * d + enc[1] * d^2 + ... + enc[m-1] * d^m`, summed in that order
/// from the identity.
pub open spec fn weighted_sum(enc: Seq<Seq<u8>>, d: nat, m: nat) -> Seq<u8>
    decreases m,
{
    if m == 0 {
        crate::ristretto::identity_encoding()
    } else {
        ristretto_add(
            weighted_sum(enc, d, (m - 1) as nat),
            ristretto_mul(enc[m - 1], power_mod(d, m)),
        )
    }
}

/// The point that the dealer's proof is checked with for party `i`:
/// `pk * z(i)` minus the encrypted shares weighted by the powers of `d`
/// (the first `k` of them).
pub open spec fn proof_point(z_eval: nat, pk: Seq<u8>, enc: Seq<Seq<u8>>, d: nat, k: nat) -> Seq<u8> {
    ristretto_sub(ristretto_mul(pk, z_eval), weighted_sum(enc, d, min_nat(k, enc.len())))
}

/// The points of the check for the first `c` parties.
pub open spec fn proof_points(
    z: Seq<nat>,
    x_pows: Seq<Vec<Scalar>>,
    pks: Seq<RistrettoPoint>,
    enc: Seq<Vec<RistrettoPoint>>,
    d: nat,
    k: nat,
    c: nat,
) -> Seq<Seq<u8>> {
    Seq::new(
        c,
        |i: int|
            proof_point(
                eval_with_powers(z, scalar_values(x_pows[i + 1]@)),
                pks[i]@,
                point_encodings(enc[i]@),
                d,
                k,
            ),
    )
}

/// The bytes that the dealer's challenge hashes: all encrypted shares as
/// received, then the check points of the parties.
pub open spec fn dealer_transcript(
    received: Seq<Vec<CompressedRistretto>>,
    z: Seq<nat>,
    x_pows: Seq<Vec<Scalar>>,
    pks: Seq<RistrettoPoint>,
    enc: Seq<Vec<RistrettoPoint>>,
    d: nat,
) -> Seq<u8> {
    let k = received[0]@.len();
    let c = min_nat(pks.len(), enc.len());
    flatten_rows(compressed_row_encodings(received)) + concat_encodings(
        proof_points(z, x_pows, pks, enc, d, k, c),
    )
}

/// Appends the byte strings of `items` to the transcript.
pub(crate) fn append_all(out: &mut Vec<u8>, items: &Vec<CompressedRistretto>)
    ensures
        final(out)@ == old(out)@ + concat_encodings(compressed_encodings(items@)),
{
    let ghost start = out@;
    let ghost s = compressed_encodings(items@);
    let mut i: usize = 0;
    while i < items.len()
        invariant
            i <= items@.len(),
            s == compressed_encodings(items@),
            out@ == start + concat_encodings(s.subrange(0, i as int)),
        decreases items@.len() - i,
    {
        append_32(out, &items[i].0);
        proof {
            let p = s.subrange(0, i as int + 1);
            assert(p.drop_last() =~= s.subrange(0, i as int));
            assert(p.last() == items@[i as int]@);
            assert(start + concat_encodings(s.subrange(0, i as int)) + items@[i as int]@
                =~= start + concat_encodings(p));
        }
        i = i + 1;
    }
    assert(s.subrange(0, items@.len() as int) =~= s);
}

/// `s[0] * d + s[1] * d^2 + ... + s[m-1] * d^m` modulo ℓ, reduced after
/// every step.
pub open spec fn weighted_scalar_sum(s: Seq<nat>, d: nat, m: nat) -> nat
    decreases m,
{
    if m == 0 {
        0
    } else {
        (weighted_scalar_sum(s, d, (m - 1) as nat) + (s[m - 1] * power_mod(d, m)) % group_order())
            % group_order()
    }
}

/// `((x + y) mod ℓ + z) mod ℓ = (x + (y + z) mod ℓ) mod ℓ`.
pub proof fn lemma_mod_regroup(x: int, y: int, z: int)
    ensures
        ((x + y) % (group_order() as int) + z) % (group_order() as int) == (x + (y + z) % (
        group_order() as int)) % (group_order() as int),
{
    let l = group_order() as int;
    vstd::arithmetic::div_mod::lemma_add_mod_noop_right(z, x + y, l);
    vstd::arithmetic::div_mod::lemma_add_mod_noop_right(x, y + z, l);
    assert(z + (x + y) == x + (y + z));
}

/// The coefficients of a dealer's response `r + d*f[0] + d^2*f[1] + ...`
/// (the first `m` polynomials of `f`), modulo ℓ coefficient by coefficient.
pub open spec fn response_coefficients(r: Seq<nat>, f: Seq<Seq<nat>>, d: nat, m: nat) -> Seq<nat> {
    Seq::new(
        r.len(),
        |j: int|
            (r[j] + weighted_scalar_sum(Seq::new(f.len(), |k: int| f[k][j]), d, m))
                % group_order(),
    )
}

/// The response evaluates to `r`'s value plus the values of the `f[k]`
/// weighted by the powers of `d`: a dealer whose `z` is
/// `r + d*f[0] + d^2*f[1] + ...` meets the evaluation condition of an honest
/// dealing at every party's point.
pub proof fn lemma_response_evaluates(r: Seq<nat>, f: Seq<Seq<nat>>, d: nat, p: Seq<nat>)
    requires
        forall|k: int| 0 <= k < f.len() ==> (#[trigger] f[k]).len() == r.len(),
        forall|j: int| 0 <= j < r.len() ==> #[trigger] r[j] < group_order(),
    ensures
        eval_with_powers(response_coefficients(r, f, d, f.len()), p) == (eval_with_powers(r, p)
            + weighted_scalar_sum(
            Seq::new(f.len(), |k: int| eval_with_powers(f[k], p)),
            d,
            f.len(),
        )) % group_order(),
{
    lemma_response_evaluates_prefix(r, f, d, p, f.len());
}

proof fn lemma_response_evaluates_prefix(
    r: Seq<nat>,
    f: Seq<Seq<nat>>,
    d: nat,
    p: Seq<nat>,
    m: nat,
)
    requires
        m <= f.len(),
        forall|k: int| 0 <= k < f.len() ==> (#[trigger] f[k]).len() == r.len(),
        forall|j: int| 0 <= j < r.len() ==> #[trigger] r[j] < group_order(),
    ensures
        eval_with_powers(response_coefficients(r, f, d, m), p) == (eval_with_powers(r, p)
            + weighted_scalar_sum(
            Seq::new(f.len(), |k: int| eval_with_powers(f[k], p)),
            d,
            m,
        )) % group_order(),
    decreases m,
{
    let l = group_order() as int;
    let evals = Seq::new(f.len(), |k: int| eval_with_powers(f[k], p));
    if m == 0 {
        let z0 = response_coefficients(r, f, d, 0);
        assert forall|j: int| 0 <= j < r.len() implies z0[j] == r[j] by {
            vstd::arithmetic::div_mod::lemma_small_mod(r[j], group_order());
        }
        assert(z0 =~= r);
        vstd::arithmetic::div_mod::lemma_small_mod(eval_with_powers(r, p), group_order());
    } else {
        let k = (m - 1) as nat;
        lemma_response_evaluates_prefix(r, f, d, p, k);
        let zk = response_coefficients(r, f, d, k);
        let zm = response_coefficients(r, f, d, m);
        let c = power_mod(d, m);
        let sc = scale_mod(f[k as int], c);
        assert forall|j: int| 0 <= j < r.len() implies zm[j] == add_mod(zk, sc)[j] by {
            let col = Seq::new(f.len(), |k2: int| f[k2][j]);
            assert(col[k as int] == f[k as int][j]);
            lemma_mod_regroup(
                r[j] as int,
                weighted_scalar_sum(col, d, k) as int,
                ((f[k as int][j] * c) % group_order()) as int,
            );
        }
        assert(zm =~= add_mod(zk, sc));
        lemma_eval_add(zk, sc, p);
        lemma_eval_scale(f[k as int], c, p);
        assert(evals[k as int] == eval_with_powers(f[k as int], p));
        lemma_mod_regroup(
            eval_with_powers(r, p) as int,
            weighted_scalar_sum(evals, d, k) as int,
            ((evals[k as int] * c) % group_order()) as int,
        );
    }
}

/// The dealing is honest with blinding values `rho` and shares `shares`: party
/// `i`'s encrypted shares are its public key times `shares[i]`, `z` at the
/// party's point is `rho[i]` plus the shares weighted by the powers of `d`, and
/// `d` is the challenge, under a hasher of setup `setup`, of the encrypted
/// shares followed by the public keys times `rho`.
pub open spec fn is_honest_dealing_with(
    setup: Seq<u64>,
    received: Seq<Vec<CompressedRistretto>>,
    z: Seq<nat>,
    x_pows: Seq<Vec<Scalar>>,
    pks: Seq<RistrettoPoint>,
    enc: Seq<Vec<RistrettoPoint>>,
    d: nat,
    rho: Seq<nat>,
    shares: Seq<Seq<nat>>,
) -> bool {
    let n = pks.len();
    let k = received[0]@.len();
    &&& enc.len() == n
    &&& rho.len() == n
    &&& shares.len() == n
    &&& forall|i: int|
        0 <= i < n ==> {
            &&& #[trigger] rho[i] < group_order()
            &&& shares[i].len() == k
            &&& enc[i]@.len() == k
            &&& forall|j: int|
                0 <= j < k ==> shares[i][j] < group_order() && #[trigger] enc[i]@[j]@
                    == ristretto_mul(pks[i]@, shares[i][j])
            &&& ristretto_decodes(ristretto_mul(pks[i]@, rho[i]))
            &&& eval_with_powers(z, scalar_values(x_pows[i + 1]@)) == (rho[i]
                + weighted_scalar_sum(shares[i], d, k)) % group_order()
        }
    &&& d == challenge_under(
        setup,
        flatten_rows(compressed_row_encodings(received)) + concat_encodings(
            Seq::new(n, |i: int| ristretto_mul(pks[i]@, rho[i])),
        ),
    )
}

/// The dealing is honest, under a hasher of setup `setup`, for some blinding
/// values and shares.
pub open spec fn is_honest_dealing(
    setup: Seq<u64>,
    received: Seq<Vec<CompressedRistretto>>,
    z: Seq<nat>,
    x_pows: Seq<Vec<Scalar>>,
    pks: Seq<RistrettoPoint>,
    enc: Seq<Vec<RistrettoPoint>>,
    d: nat,
) -> bool {
    exists|rho: Seq<nat>, shares: Seq<Seq<nat>>|
        #[trigger] is_honest_dealing_with(setup, received, z, x_pows, pks, enc, d, rho, shares)
}

} // verus!
