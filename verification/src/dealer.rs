//! The dealer of batched Pedersen verifiable secret sharing: it shares `k`
//! secrets with one polynomial each and commits to all of them, coefficient by
//! coefficient, blinded by one random polynomial.
use crate::dleq::min_nat;
use crate::error::Error;
use crate::polynomial::{add_mod, dot_prefix, eval_with_powers, scale_mod, scalar_values, Polynomial};
use crate::ristretto::{
    all_below_order, all_decode, all_points, compressed_encodings, first_undecodable, lin_comb,
    identity_encoding, point_encodings, ristretto_add, ristretto_decodes, ristretto_mul, unit_vector,
    CompressedRistretto, RistrettoPoint,
};
use crate::scalar::{group_order, Scalar};
use crate::utils::{batch_decompress_ristretto_points, generate_shares_batched, is_share_row};
use rand::rngs::StdRng;
use vstd::prelude::*;

verus! {

/// `g0 * r_j + g[0] * f[0][j] + ... + g[m-1] * f[m-1][j]`, summed in that order:
/// the commitment to the coefficients of `x^j`.
pub open spec fn commitment(
    g: Seq<Seq<u8>>,
    g0: Seq<u8>,
    f: Seq<Seq<nat>>,
    r_j: nat,
    j: int,
    m: nat,
) -> Seq<u8>
    decreases m,
{
    if m == 0 {
        ristretto_mul(g0, r_j)
    } else {
        ristretto_add(
            commitment(g, g0, f, r_j, j, (m - 1) as nat),
            ristretto_mul(g[m - 1], f[m - 1][j]),
        )
    }
}

/// The coefficient sequences of a sequence of polynomials.
pub open spec fn polynomial_values(ps: Seq<Polynomial>) -> Seq<Seq<nat>> {
    ps.map_values(|p: Polynomial| p@)
}

/// `values[i]` is the value of `f` at `x = i + 1`, for `n` values.
pub open spec fn is_evaluation_list(
    values: Seq<Scalar>,
    f: Seq<nat>,
    x_pows: Seq<Vec<Scalar>>,
    n: nat,
) -> bool {
    &&& values.len() == n
    &&& forall|i: int|
        0 <= i < n ==> #[trigger] values[i]@ == eval_with_powers(f, scalar_values(x_pows[i + 1]@))
}

/// The bases of the commitments: `g0`, then the first `m` bases of `g`.
pub open spec fn opening_bases(g0: Seq<u8>, g: Seq<Seq<u8>>, m: nat) -> Seq<Seq<u8>> {
    seq![g0] + g.subrange(0, m as int)
}

/// The coefficients of `x^j` that commitment `j` binds: `r[j]`, then
/// `f[0][j], ..., f[m-1][j]`.
pub open spec fn coefficient_column(r: Seq<nat>, f: Seq<Seq<nat>>, j: int, m: nat) -> Seq<nat> {
    Seq::new(m + 1, |i: int| if i == 0 { r[j] } else { f[i - 1][j] })
}

/// The column with only its first `k` polynomials' coefficients, zeros after.
pub open spec fn partial_column(r: Seq<nat>, f: Seq<Seq<nat>>, j: int, m: nat, k: nat) -> Seq<nat> {
    Seq::new(
        m + 1,
        |i: int|
            if i == 0 {
                r[j]
            } else if i - 1 < k {
                f[i - 1][j]
            } else {
                0
            },
    )
}

/// The commitment buffer after committing with blinding polynomial `r`: the
/// first `min(len, t + 1)` entries are the commitments, the rest as before.
pub open spec fn is_commitment_buffer(
    after: Seq<CompressedRistretto>,
    before: Seq<CompressedRistretto>,
    g: Seq<Seq<u8>>,
    g0: Seq<u8>,
    f: Seq<Seq<nat>>,
    r: Seq<nat>,
) -> bool {
    let m = if f.len() < g.len() {
        f.len()
    } else {
        g.len()
    };
    &&& after.len() == before.len()
    &&& forall|j: int|
        0 <= j < after.len() ==> #[trigger] after[j]@ == if j < r.len() {
            commitment(g, g0, f, r[j], j, m)
        } else {
            before[j]@
        }
    &&& forall|j: int|
        0 <= j < after.len() && j < r.len() ==> #[trigger] after[j]@ == lin_comb(
            opening_bases(g0, g, m),
            coefficient_column(r, f, j, m),
        ) && ristretto_decodes(after[j]@)
}

/// The output of a dealing with secret polynomials `f` and blinding
/// polynomial `b`, both of degree at most `t`: `f[k]` has the secret `k` as
/// its constant term, `shares[i]` holds every `f[k]` at `x = i + 1`, `r_evals`
/// holds `b` there, and commitment `j` is `g0 * b[j] + g[0] * f[0][j] + ...`
/// (a point, in that order of summation).
pub open spec fn is_pedersen_dealing(
    g0: Seq<u8>,
    g: Seq<Seq<u8>>,
    t: nat,
    n: nat,
    x_pows: Seq<Vec<Scalar>>,
    secrets: Seq<Scalar>,
    shares: Seq<Vec<Scalar>>,
    r_evals: Seq<Scalar>,
    commitments: Seq<CompressedRistretto>,
    f: Seq<Polynomial>,
    b: Polynomial,
) -> bool {
    let m = min_nat(f.len(), g.len());
    &&& f.len() == secrets.len()
    &&& forall|k: int|
        0 <= k < f.len() ==> #[trigger] f[k]@.len() == t + 1 && f[k]@[0] == secrets[k]@
    &&& shares.len() == n
    &&& forall|i: int| 0 <= i < n ==> is_share_row(#[trigger] shares[i]@, f, x_pows[i + 1]@)
    &&& b@.len() == t + 1
    &&& is_evaluation_list(r_evals, b@, x_pows, n)
    &&& commitments.len() == t + 1
    &&& forall|j: int|
        0 <= j < t + 1 ==> {
            &&& ristretto_decodes(#[trigger] commitments[j]@)
            &&& commitments[j]@ == lin_comb(
                opening_bases(g0, g, m),
                coefficient_column(b@, polynomial_values(f), j, m),
            )
            &&& commitments[j]@ == commitment(g, g0, polynomial_values(f), b@[j], j, m)
        }
}

/// A dealer for `public_keys.len()` parties and threshold `t`, committing with
/// the bases `g` (one per secret) and the blinding base `g0`.
pub struct Dealer {
    pub t: usize,
    pub g: Vec<RistrettoPoint>,
    pub g0: RistrettoPoint,
    pub public_keys: Vec<RistrettoPoint>,
    pub secret: Option<Scalar>,
}

impl Dealer {
    /// A dealer for `n` parties whose keys are `public_keys`.
    pub fn new(
        g: Vec<RistrettoPoint>,
        g0: RistrettoPoint,
        n: usize,
        t: usize,
        public_keys: &[CompressedRistretto],
    ) -> (r: Result<Self, Error>)
        ensures
            public_keys@.len() != n ==> r == Err::<Self, Error>(
                Error::CountMismatch(n, "parties", public_keys@.len() as usize, "public keys"),
            ),
            public_keys@.len() == n ==> (r is Ok <==> all_decode(public_keys@)),
            r matches Ok(d) ==> {
                &&& d.t == t
                &&& d.g@ == g@
                &&& d.g0 == g0
                &&& point_encodings(d.public_keys@) == compressed_encodings(public_keys@)
                &&& d.secret is None
            },
            public_keys@.len() == n && !all_decode(public_keys@) ==> exists|i: int|
                first_undecodable(public_keys@, i) && r == Err::<Self, Error>(
                    Error::InvalidPoint(i as usize),
                ),
    {
        if public_keys.len() != n {
            return Err(Error::CountMismatch(n, "parties", public_keys.len(), "public keys"));
        }
        match batch_decompress_ristretto_points(public_keys) {
            Ok(pks) => Ok(Dealer { t, public_keys: pks, secret: None, g, g0 }),
            Err(x) => Err(x),
        }
    }

    /// The threshold.
    pub fn t(&self) -> (r: usize)
        ensures
            r == self.t,
    {
        self.t
    }

    /// Commits, coefficient by coefficient, to the polynomials `f_polynomials`
    /// blinded by `r`: entry `j` of `c_buf`, for `j` below both its length and
    /// `r`'s number of coefficients, becomes the commitment to the coefficients
    /// of `x^j`; the other entries stay.
    pub fn commit_coefficients(
        &self,
        c_buf: &mut Vec<CompressedRistretto>,
        f_polynomials: &Vec<Polynomial>,
        r: &Polynomial,
    )
        requires
            forall|k: int|
                0 <= k < f_polynomials@.len() && k < self.g@.len() ==> min_nat(
                    old(c_buf)@.len(),
                    r@.len(),
                ) <= (#[trigger] f_polynomials@[k])@.len(),
        ensures
            is_commitment_buffer(
                final(c_buf)@,
                old(c_buf)@,
                point_encodings(self.g@),
                self.g0@,
                polynomial_values(f_polynomials@),
                r@,
            ),
    {
        let ghost g = point_encodings(self.g@);
        let ghost f = polynomial_values(f_polynomials@);
        let ghost before = c_buf@;
        let m = if f_polynomials.len() < self.g.len() {
            f_polynomials.len()
        } else {
            self.g.len()
        };
        let count = if c_buf.len() < r.len() {
            c_buf.len()
        } else {
            r.len()
        };
        let ghost bases = opening_bases(self.g0@, g, m as nat);
        self.g0.check_valid();
        RistrettoPoint::check_all_valid(&self.g);
        proof {
            r.lemma_coefficients_below_order();
            assert(all_points(bases)) by {
                assert forall|i: int| 0 <= i < bases.len() implies ristretto_decodes(
                    #[trigger] bases[i],
                ) by {
                    if i > 0 {
                        assert(bases[i] == g[i - 1]);
                    }
                }
            }
        }
        let mut j: usize = 0;
        while j < count
            invariant
                j <= count,
                bases == opening_bases(self.g0@, g, m as nat),
                all_points(bases),
                all_below_order(r@),
                forall|i: int|
                    0 <= i < j ==> #[trigger] c_buf@[i]@ == lin_comb(
                        bases,
                        coefficient_column(r@, f, i, m as nat),
                    ) && ristretto_decodes(c_buf@[i]@),
                count <= c_buf@.len(),
                count <= r@.len(),
                c_buf@.len() == before.len(),
                m as nat == (if f.len() < g.len() {
                    f.len()
                } else {
                    g.len()
                }),
                m <= f_polynomials@.len(),
                m <= self.g@.len(),
                g == point_encodings(self.g@),
                f == polynomial_values(f_polynomials@),
                count as nat == min_nat(before.len(), r@.len()),
                forall|k: int|
                    0 <= k < f_polynomials@.len() && k < self.g@.len() ==> count <= (
                    #[trigger] f_polynomials@[k])@.len(),
                forall|i: int|
                    0 <= i < c_buf@.len() ==> #[trigger] c_buf@[i]@ == if i < j {
                        commitment(g, self.g0@, f, r@[i], i, m as nat)
                    } else {
                        before[i]@
                    },
            decreases count - j,
        {
            let r_coef = r.coef_at_unchecked(j);
            let mut acc = self.g0.mul(r_coef);
            proof {
                assert(bases[0] == self.g0@);
                assert(acc@ == lin_comb(bases, unit_vector(bases.len(), 0, r@[j as int])));
                assert(partial_column(r@, f, j as int, m as nat, 0) =~= unit_vector(
                    bases.len(),
                    0,
                    r@[j as int],
                ));
            }
            let mut k: usize = 0;
            while k < m
                invariant
                    k <= m,
                    bases == opening_bases(self.g0@, g, m as nat),
                    bases.len() == m + 1,
                    all_points(bases),
                    all_below_order(r@),
                    all_below_order(partial_column(r@, f, j as int, m as nat, k as nat)),
                    acc@ == lin_comb(bases, partial_column(r@, f, j as int, m as nat, k as nat)),
                    j < count,
                    count <= r@.len(),
                    m <= f_polynomials@.len(),
                    m <= self.g@.len(),
                    g == point_encodings(self.g@),
                    f == polynomial_values(f_polynomials@),
                    forall|k2: int|
                        0 <= k2 < f_polynomials@.len() && k2 < self.g@.len() ==> count <= (
                        #[trigger] f_polynomials@[k2])@.len(),
                    acc@ == commitment(g, self.g0@, f, r@[j as int], j as int, k as nat),
                decreases m - k,
            {
                let fk = &f_polynomials[k];
                assert(count <= f_polynomials@[k as int]@.len());
                let term = self.g[k].mul(fk.coef_at_unchecked(j));
                let ghost before_k = partial_column(r@, f, j as int, m as nat, k as nat);
                let ghost unit = unit_vector(bases.len(), k + 1, f[k as int][j as int]);
                proof {
                    fk.lemma_coefficients_below_order();
                    assert(f[k as int] == fk@);
                    assert(bases[k + 1] == g[k as int]);
                    assert(term@ == lin_comb(bases, unit));
                    assert(all_below_order(unit));
                }
                acc = acc.add(&term);
                proof {
                    assert(acc@ == lin_comb(bases, add_mod(before_k, unit)));
                    let after_k = partial_column(r@, f, j as int, m as nat, (k + 1) as nat);
                    assert forall|i: int| 0 <= i < after_k.len() implies #[trigger] add_mod(
                        before_k,
                        unit,
                    )[i] == after_k[i] by {
                        if i == 0 {
                            assert(r@[j as int] < group_order());
                        } else if i - 1 < k {
                            assert(before_k[i] < group_order());
                        } else if i - 1 == k {
                            assert(unit[i] < group_order());
                        }
                        vstd::arithmetic::div_mod::lemma_small_mod(
                            after_k[i],
                            group_order(),
                        );
                    }
                    assert(add_mod(before_k, unit) =~= after_k);
                }
                k = k + 1;
            }
            proof {
                assert(partial_column(r@, f, j as int, m as nat, m as nat) =~= coefficient_column(
                    r@,
                    f,
                    j as int,
                    m as nat,
                ));
            }
            acc.check_valid();
            c_buf.set(j, acc.compress());
            j = j + 1;
        }
    }

    /// Draws the blinding polynomial `r` of degree at most `t`, commits as
    /// `commit_coefficients` does, and returns `r`'s values at `x = 1, ..., n`
    /// for the `n` parties.
    pub fn generate_proof(
        &self,
        rng: &mut StdRng,
        c_buf: &mut Vec<CompressedRistretto>,
        x_pows: &Vec<Vec<Scalar>>,
        f_polynomials: &Vec<Polynomial>,
    ) -> (r_evals: Vec<Scalar>)
        requires
            self.t < usize::MAX,
            self.public_keys@.len() < x_pows@.len(),
            forall|x: int|
                1 <= x <= self.public_keys@.len() ==> #[trigger] x_pows@[x]@.len() >= self.t + 1,
            forall|k: int|
                0 <= k < f_polynomials@.len() && k < self.g@.len() ==> min_nat(
                    old(c_buf)@.len(),
                    (self.t + 1) as nat,
                ) <= (#[trigger] f_polynomials@[k])@.len(),
        ensures
            exists|r: Polynomial|
                {
                    &&& #[trigger] r@.len() == self.t + 1
                    &&& is_evaluation_list(
                        r_evals@,
                        r@,
                        x_pows@,
                        self.public_keys@.len() as nat,
                    )
                    &&& is_commitment_buffer(
                        final(c_buf)@,
                        old(c_buf)@,
                        point_encodings(self.g@),
                        self.g0@,
                        polynomial_values(f_polynomials@),
                        r@,
                    )
                },
    {
        let r = Polynomial::sample(self.t, rng);
        let r_evals = r.evaluate_range_precomp(x_pows, 1, self.public_keys.len());
        self.commit_coefficients(c_buf, f_polynomials, &r);
        assert(is_evaluation_list(r_evals@, r@, x_pows@, self.public_keys@.len() as nat));
        r_evals
    }

    /// Shares every secret with a fresh polynomial of degree at most `t` and
    /// returns the shares (row `i` for the party at `x = i + 1`), the blinding
    /// polynomial's values at the parties' points, and the `t + 1` commitments.
    pub fn deal_secret(
        &mut self,
        rng: &mut StdRng,
        x_pows: &Vec<Vec<Scalar>>,
        secrets: &Vec<Scalar>,
    ) -> (r: (Vec<Vec<Scalar>>, (Vec<Scalar>, Vec<CompressedRistretto>)))
        requires
            old(self).t < usize::MAX,
            old(self).public_keys@.len() < x_pows@.len(),
            forall|x: int|
                1 <= x <= old(self).public_keys@.len() ==> #[trigger] x_pows@[x]@.len() >= old(
                    self,
                ).t + 1,
        ensures
            *final(self) == *old(self),
            exists|f: Seq<Polynomial>, b: Polynomial|
                #[trigger] is_pedersen_dealing(
                    old(self).g0@,
                    point_encodings(old(self).g@),
                    old(self).t as nat,
                    old(self).public_keys@.len() as nat,
                    x_pows@,
                    secrets@,
                    r.0@,
                    r.1.0@,
                    r.1.1@,
                    f,
                    b,
                ),
    {
        let (f_polynomials, f_evals) = generate_shares_batched(
            self.public_keys.len(),
            self.t,
            x_pows,
            secrets,
            rng,
        );
        let mut c_buf: Vec<CompressedRistretto> = vec![CompressedRistretto::identity(); self.t + 1];
        let ghost before = c_buf@;
        let r_evals = self.generate_proof(rng, &mut c_buf, x_pows, &f_polynomials);
        let ghost b = choose|b: Polynomial|
                {
                    &&& #[trigger] b@.len() == self.t + 1
                    &&& is_evaluation_list(
                        r_evals@,
                        b@,
                        x_pows@,
                        self.public_keys@.len() as nat,
                    )
                    &&& is_commitment_buffer(
                        c_buf@,
                        before,
                        point_encodings(self.g@),
                        self.g0@,
                        polynomial_values(f_polynomials@),
                        b@,
                    )
                };
        let result = (f_evals, (r_evals, c_buf));
        assert(is_pedersen_dealing(
            old(self).g0@,
            point_encodings(old(self).g@),
            old(self).t as nat,
            old(self).public_keys@.len() as nat,
            x_pows@,
            secrets@,
            result.0@,
            result.1.0@,
            result.1.1@,
            f_polynomials@,
            b,
        ));
        result
    }

    /// The first party's public key.
    pub fn get_pk0(&self) -> (r: &RistrettoPoint)
        requires
            self.public_keys@.len() > 0,
        ensures
            *r == self.public_keys@[0],
    {
        &self.public_keys[0]
    }

    /// The stored secret.
    pub fn publish_f0(&self) -> (r: Scalar)
        requires
            self.secret is Some,
        ensures
            r == self.secret->0,
    {
        self.secret.unwrap()
    }
}

} // verus!

verus! {

/// `c[0] * p[0] + ... + c[n-1] * p[n-1]` modulo ℓ, reduced after every step.
pub open spec fn stepwise_dot(c: Seq<nat>, p: Seq<nat>, n: nat) -> nat
    decreases n,
{
    if n == 0 {
        0
    } else {
        (stepwise_dot(c, p, (n - 1) as nat) + (c[n - 1] * p[n - 1]) % group_order())
            % group_order()
    }
}

/// Reducing after every step gives the value of the polynomial.
pub proof fn lemma_stepwise_dot(c: Seq<nat>, p: Seq<nat>, n: nat)
    ensures
        stepwise_dot(c, p, n) as int == dot_prefix(c, p, n) % (group_order() as int),
    decreases n,
{
    if n > 0 {
        let k = (n - 1) as nat;
        lemma_stepwise_dot(c, p, k);
        vstd::arithmetic::div_mod::lemma_add_mod_noop(
            dot_prefix(c, p, k),
            (c[k as int] * p[k as int]) as int,
            group_order() as int,
        );
        vstd::arithmetic::div_mod::lemma_mod_twice(
            (c[k as int] * p[k as int]) as int,
            group_order() as int,
        );
    }
}

/// `C[0] * p[0] + ... + C[n-1] * p[n-1]` over the decoded commitments, added in
/// that order to the identity.
pub open spec fn commitment_sum(c: Seq<Seq<u8>>, p: Seq<nat>, n: nat) -> Seq<u8>
    decreases n,
{
    if n == 0 {
        identity_encoding()
    } else {
        ristretto_add(commitment_sum(c, p, (n - 1) as nat), ristretto_mul(c[n - 1], p[n - 1]))
    }
}

/// `g0 * r + g[0] * v[0] + ... + g[m-1] * v[m-1]`, added in that order.
pub open spec fn value_sum(g0: Seq<u8>, g: Seq<Seq<u8>>, r: nat, v: Seq<nat>, m: nat) -> Seq<u8>
    decreases m,
{
    if m == 0 {
        ristretto_mul(g0, r)
    } else {
        ristretto_add(value_sum(g0, g, r, v, (m - 1) as nat), ristretto_mul(g[m - 1], v[m - 1]))
    }
}

/// The coefficients `r`, `v[0], ..., v[k-1]`, then zeros up to `m + 1`.
pub open spec fn value_column(r: nat, v: Seq<nat>, m: nat, k: nat) -> Seq<nat> {
    Seq::new(
        m + 1,
        |i: int|
            if i == 0 {
                r
            } else if i - 1 < k {
                v[i - 1]
            } else {
                0
            },
    )
}

/// Each polynomial's coefficients (the blinding `r` first, then `f[0..m]`)
/// summed against the first `j` powers, reduced after every step.
pub open spec fn partial_values(r: Seq<nat>, f: Seq<Seq<nat>>, p: Seq<nat>, m: nat, j: nat) -> Seq<nat> {
    Seq::new(
        m + 1,
        |i: int|
            if i == 0 {
                stepwise_dot(r, p, j)
            } else {
                stepwise_dot(f[i - 1], p, j)
            },
    )
}

/// The commitments open to `r_value` and `values` at the point whose powers are
/// `pows`: the blinding polynomial `r` and the polynomials `f` have these values
/// there, and commitment `j` binds their coefficients of `x^j` to the bases
/// `g0, g[0], ..., g[m-1]`.
pub open spec fn is_honest_opening(
    g0: Seq<u8>,
    g: Seq<Seq<u8>>,
    commitments: Seq<CompressedRistretto>,
    pows: Seq<nat>,
    r_value: nat,
    values: Seq<nat>,
    r: Seq<nat>,
    f: Seq<Seq<nat>>,
) -> bool {
    let m = min_nat(g.len(), values.len());
    let n = commitments.len();
    &&& all_decode(commitments)
    &&& r.len() == n
    &&& all_below_order(r)
    &&& f.len() >= m
    &&& forall|k: int| 0 <= k < m ==> (#[trigger] f[k]).len() == n && all_below_order(f[k])
    &&& forall|j: int|
        0 <= j < n ==> #[trigger] commitments[j]@ == lin_comb(
            opening_bases(g0, g, m),
            coefficient_column(r, f, j, m),
        )
    &&& r_value == eval_with_powers(r, pows)
    &&& forall|k: int| 0 <= k < m ==> #[trigger] values[k] == eval_with_powers(f[k], pows)
}

/// Two 32-byte arrays hold the same bytes.
fn same_bytes(a: &[u8; 32], b: &[u8; 32]) -> (r: bool)
    ensures
        r == (a@ == b@),
{
    let mut i: usize = 0;
    while i < 32
        invariant
            0 <= i <= 32,
            forall|j: int| 0 <= j < i ==> a@[j] == b@[j],
        decreases 32 - i,
    {
        if a[i] != b[i] {
            return false;
        }
        i = i + 1;
    }
    assert(a@ =~= b@);
    true
}

/// Whether a party's values open the dealer's commitments: the commitments
/// weighted by the powers of the party's point, `C[0] * x^0 + ... `, must equal
/// `g0 * r_value + g[0] * values[0] + ...`. Every commitment must decode.
/// Shares dealt by `deal_secret` always open the commitments.
pub fn verify_share_opening(
    g0: &RistrettoPoint,
    g: &Vec<RistrettoPoint>,
    commitments: &Vec<CompressedRistretto>,
    pows: &Vec<Scalar>,
    r_value: &Scalar,
    values: &Vec<Scalar>,
) -> (ok: bool)
    requires
        pows@.len() >= commitments@.len(),
    ensures
        ok == (all_decode(commitments@) && commitment_sum(
            compressed_encodings(commitments@),
            scalar_values(pows@),
            commitments@.len(),
        ) == value_sum(
            g0@,
            point_encodings(g@),
            r_value@,
            scalar_values(values@),
            min_nat(g@.len(), values@.len()),
        )),
        (exists|r: Seq<nat>, f: Seq<Seq<nat>>|
            #[trigger] is_honest_opening(
                g0@,
                point_encodings(g@),
                commitments@,
                scalar_values(pows@),
                r_value@,
                scalar_values(values@),
                r,
                f,
            )) ==> ok,
{
    let ghost gs = point_encodings(g@);
    let ghost cs = compressed_encodings(commitments@);
    let ghost ps = scalar_values(pows@);
    let ghost vs = scalar_values(values@);
    let m = if g.len() < values.len() {
        g.len()
    } else {
        values.len()
    };
    let ghost honest = exists|r: Seq<nat>, f: Seq<Seq<nat>>|
        is_honest_opening(g0@, gs, commitments@, ps, r_value@, vs, r, f);
    let ghost (rc, fc) = choose|r: Seq<nat>, f: Seq<Seq<nat>>|
        is_honest_opening(g0@, gs, commitments@, ps, r_value@, vs, r, f);
    let ghost bases = opening_bases(g0@, gs, m as nat);
    assert(m as nat == min_nat(gs.len(), vs.len()));
    g0.check_valid();
    RistrettoPoint::check_all_valid(g);
    proof {
        assert(all_points(bases)) by {
            assert forall|i: int| 0 <= i < bases.len() implies ristretto_decodes(
                #[trigger] bases[i],
            ) by {
                if i > 0 {
                    assert(bases[i] == gs[i - 1]);
                }
            }
        }
    }
    let mut lhs = RistrettoPoint::identity();
    proof {
        if honest {
            let zeros = partial_values(rc, fc, ps, m as nat, 0);
            assert(lin_comb(bases, zeros) == lhs@);
        }
    }
    let mut j: usize = 0;
    while j < commitments.len()
        invariant
            j <= commitments@.len(),
            pows@.len() >= commitments@.len(),
            cs == compressed_encodings(commitments@),
            ps == scalar_values(pows@),
            forall|i: int| 0 <= i < j ==> ristretto_decodes(#[trigger] commitments@[i]@),
            lhs@ == commitment_sum(cs, ps, j as nat),
            bases == opening_bases(g0@, gs, m as nat),
            bases.len() == m + 1,
            m as nat == min_nat(gs.len(), vs.len()),
            all_points(bases),
            honest ==> is_honest_opening(g0@, gs, commitments@, ps, r_value@, vs, rc, fc),
            honest ==> lhs@ == lin_comb(bases, partial_values(rc, fc, ps, m as nat, j as nat)),
            honest ==> all_below_order(partial_values(rc, fc, ps, m as nat, j as nat)),
        decreases commitments@.len() - j,
    {
        let point = match commitments[j].decompress() {
            Some(p) => p,
            None => {
                return false;
            },
        };
        let weight = &pows[j];
        let term = point.mul(weight);
        proof {
            weight.lemma_value_below_order();
            if honest {
                let col = coefficient_column(rc, fc, j as int, m as nat);
                assert(commitments@[j as int]@ == lin_comb(bases, col));
                assert forall|i: int| 0 <= i < col.len() implies #[trigger] col[i] < group_order() by {
                    if i > 0 {
                        assert(fc[i - 1].len() == commitments@.len());
                        assert(all_below_order(fc[i - 1]));
                    }
                }
                assert(term@ == lin_comb(bases, scale_mod(col, ps[j as int])));
                assert(all_below_order(scale_mod(col, ps[j as int])));
            }
        }
        let next = lhs.add(&term);
        proof {
            if honest {
                let col = coefficient_column(rc, fc, j as int, m as nat);
                let before = partial_values(rc, fc, ps, m as nat, j as nat);
                let after = partial_values(rc, fc, ps, m as nat, (j + 1) as nat);
                assert(next@ == lin_comb(bases, add_mod(before, scale_mod(col, ps[j as int]))));
                assert(add_mod(before, scale_mod(col, ps[j as int])) =~= after);
            }
        }
        lhs = next;
        j = j + 1;
    }
    let mut rhs = g0.mul(r_value);
    proof {
        r_value.lemma_value_below_order();
        assert(bases[0] == g0@);
        assert(rhs@ == lin_comb(bases, unit_vector(bases.len(), 0, r_value@)));
        assert(value_column(r_value@, vs, m as nat, 0) =~= unit_vector(bases.len(), 0, r_value@));
    }
    let mut k: usize = 0;
    while k < m
        invariant
            k <= m,
            m <= g@.len(),
            m <= values@.len(),
            gs == point_encodings(g@),
            vs == scalar_values(values@),
            rhs@ == value_sum(g0@, gs, r_value@, vs, k as nat),
            bases == opening_bases(g0@, gs, m as nat),
            bases.len() == m + 1,
            all_points(bases),
            r_value@ < group_order(),
            all_below_order(value_column(r_value@, vs, m as nat, k as nat)),
            rhs@ == lin_comb(bases, value_column(r_value@, vs, m as nat, k as nat)),
        decreases m - k,
    {
        let term = g[k].mul(&values[k]);
        let ghost before = value_column(r_value@, vs, m as nat, k as nat);
        let ghost unit = unit_vector(bases.len(), k + 1, vs[k as int]);
        proof {
            values@[k as int].lemma_value_below_order();
            assert(bases[k + 1] == gs[k as int]);
            assert(term@ == lin_comb(bases, unit));
            assert(all_below_order(unit));
        }
        rhs = rhs.add(&term);
        proof {
            let after = value_column(r_value@, vs, m as nat, (k + 1) as nat);
            assert(rhs@ == lin_comb(bases, add_mod(before, unit)));
            assert forall|i: int| 0 <= i < after.len() implies #[trigger] add_mod(before, unit)[i]
                == after[i] by {
                if i == 0 {
                } else if i - 1 < k {
                    assert(before[i] < group_order());
                } else if i - 1 == k {
                    assert(unit[i] < group_order());
                }
                vstd::arithmetic::div_mod::lemma_small_mod(after[i], group_order());
            }
            assert(add_mod(before, unit) =~= after);
        }
        k = k + 1;
    }
    proof {
        assert(all_decode(commitments@));
        if honest {
            let n = commitments@.len();
            let lv = partial_values(rc, fc, ps, m as nat, n);
            let rv = value_column(r_value@, vs, m as nat, m as nat);
            assert forall|i: int| 0 <= i < lv.len() implies #[trigger] lv[i] == rv[i] by {
                if i == 0 {
                    lemma_stepwise_dot(rc, ps, n);
                } else {
                    assert(fc[i - 1].len() == n);
                    lemma_stepwise_dot(fc[i - 1], ps, n);
                    assert(vs[i - 1] == eval_with_powers(fc[i - 1], ps));
                }
            }
            assert(lv =~= rv);
        }
    }
    same_bytes(&lhs.compress().0, &rhs.compress().0)
}

} // verus!

verus! {

/// Every party's shares of a dealing open the commitments: at `x = i + 1`
/// the commitments weighted by the powers of `x` equal `g0 * b(x)` plus
/// `g[k] * f[k](x)` over the polynomials, so `verify_share_opening` accepts
/// them.
pub proof fn lemma_dealt_shares_open(
    g0: Seq<u8>,
    g: Seq<Seq<u8>>,
    t: nat,
    n: nat,
    x_pows: Seq<Vec<Scalar>>,
    secrets: Seq<Scalar>,
    shares: Seq<Vec<Scalar>>,
    r_evals: Seq<Scalar>,
    commitments: Seq<CompressedRistretto>,
    f: Seq<Polynomial>,
    b: Polynomial,
    i: int,
)
    requires
        is_pedersen_dealing(g0, g, t, n, x_pows, secrets, shares, r_evals, commitments, f, b),
        0 <= i < n,
    ensures
        is_honest_opening(
            g0,
            g,
            commitments,
            scalar_values(x_pows[i + 1]@),
            r_evals[i]@,
            scalar_values(shares[i]@),
            b@,
            polynomial_values(f),
        ),
{
    let fv = polynomial_values(f);
    let vs = scalar_values(shares[i]@);
    let ps = scalar_values(x_pows[i + 1]@);
    assert(is_share_row(shares[i]@, f, x_pows[i + 1]@));
    let m = min_nat(g.len(), vs.len());
    assert(m == min_nat(f.len(), g.len()));
    b.lemma_coefficients_below_order();
    assert forall|k: int| 0 <= k < m implies (#[trigger] fv[k]).len() == commitments.len()
        && all_below_order(fv[k]) by {
        f[k].lemma_coefficients_below_order();
        assert(fv[k] == f[k]@);
    }
    assert forall|k: int| 0 <= k < m implies #[trigger] vs[k] == eval_with_powers(fv[k], ps) by {
        assert(fv[k] == f[k]@);
        assert(shares[i]@[k]@ == eval_with_powers(f[k]@, ps));
    }
    assert forall|j: int| 0 <= j < commitments.len() implies #[trigger] commitments[j]@
        == lin_comb(opening_bases(g0, g, m), coefficient_column(b@, fv, j, m)) by {
        assert(ristretto_decodes(commitments[j]@));
    }
    assert(all_decode(commitments)) by {
        assert forall|j: int| 0 <= j < commitments.len() implies ristretto_decodes(
            #[trigger] commitments[j]@,
        ) by {
            assert(ristretto_decodes(commitments[j]@));
        }
    }
    assert(r_evals[i]@ == eval_with_powers(b@, ps));
}

} // verus!
