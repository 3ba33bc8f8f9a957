//! Shared routines of dealers and parties: powers modulo ℓ, batched secret
//! sharing, and batched point decoding.
use crate::error::Error;
use crate::polynomial::{dot_prefix, eval_with_powers, scalar_values, Polynomial};
use crate::ristretto::{
    all_decode, compressed_encodings, first_undecodable, point_encodings, ristretto_decodes,
    CompressedRistretto, RistrettoPoint,
};
use crate::scalar::{group_order, Scalar};
use rand::rngs::StdRng;
use vstd::arithmetic::div_mod::{lemma_add_mod_noop, lemma_mul_mod_noop_left, lemma_mul_mod_noop_right};
use vstd::prelude::*;

verus! {

/// `x^j` over the naturals.
pub open spec fn pow_nat(x: nat, j: nat) -> nat
    decreases j,
{
    if j == 0 {
        1
    } else {
        x * pow_nat(x, (j - 1) as nat)
    }
}

/// `x^j mod ℓ`.
pub open spec fn power_mod(x: nat, j: nat) -> nat {
    pow_nat(x, j) % group_order()
}

/// Multiplying `x^j mod ℓ` by `x` modulo ℓ gives `x^(j+1) mod ℓ`.
proof fn lemma_power_mod_step(x: nat, j: nat)
    ensures
        (power_mod(x, j) * x) % group_order() == power_mod(x, j + 1),
{
    lemma_mul_mod_noop_left(pow_nat(x, j) as int, x as int, group_order() as int);
    assert(pow_nat(x, j + 1) == x * pow_nat(x, j));
    assert(pow_nat(x, j) * x == x * pow_nat(x, j)) by (nonlinear_arith);
}

/// `base^start, ..., base^(start+count-1)` modulo ℓ, for `start` 0 or 1.
fn powers(base: &Scalar, start: usize, count: usize) -> (r: Vec<Scalar>)
    requires
        start <= 1,
    ensures
        r@.len() == count,
        forall|i: int| 0 <= i < count ==> #[trigger] r@[i]@ == power_mod(base@, (start + i) as nat),
{
    let mut cur = if start == 0 {
        Scalar::from_u64(1)
    } else {
        *base
    };
    proof {
        assert(pow_nat(base@, 0) == 1);
        assert(pow_nat(base@, 1) == base@ * 1);
        assert(1nat % group_order() == 1);
        base.lemma_value_below_order();
        vstd::arithmetic::div_mod::lemma_small_mod(base@, group_order());
    }
    let mut out: Vec<Scalar> = Vec::new();
    let mut i: usize = 0;
    while i < count
        invariant
            i <= count,
            start <= 1,
            out@.len() == i,
            cur@ == power_mod(base@, (start + i) as nat),
            forall|k: int| 0 <= k < i ==> #[trigger] out@[k]@ == power_mod(base@, (start + k) as nat),
        decreases count - i,
    {
        out.push(cur);
        proof {
            lemma_power_mod_step(base@, (start + i) as nat);
        }
        cur = cur.mul(base);
        i = i + 1;
    }
    out
}

/// `d, d^2, ..., d^k` modulo ℓ.
pub fn compute_d_powers(k: usize, d: &Scalar) -> (r: Vec<Scalar>)
    ensures
        r@.len() == k,
        forall|i: int| 0 <= i < k ==> #[trigger] r@[i]@ == power_mod(d@, (i + 1) as nat),
{
    powers(d, 1, k)
}

/// `row` holds `x^0, ..., x^t` modulo ℓ.
pub open spec fn is_power_row(row: Seq<Scalar>, x: nat, t: nat) -> bool {
    &&& row.len() == t + 1
    &&& forall|j: int| 0 <= j <= t ==> #[trigger] row[j]@ == power_mod(x, j as nat)
}

/// `c[0] + c[1] * x + ... + c[m-1] * x^(m-1)` over the integers.
pub open spec fn poly_value_prefix(c: Seq<nat>, x: nat, m: nat) -> int
    decreases m,
{
    if m == 0 {
        0
    } else {
        poly_value_prefix(c, x, (m - 1) as nat) + c[m - 1] * pow_nat(x, (m - 1) as nat)
    }
}

/// The polynomial with coefficients `c` at `x`, modulo ℓ.
pub open spec fn poly_value(c: Seq<nat>, x: nat) -> nat {
    (poly_value_prefix(c, x, c.len()) % (group_order() as int)) as nat
}

/// Evaluating with a row of true powers of `x` gives the polynomial's value
/// at `x`: what `evaluate_range_precomp` computes with the rows of
/// `gen_powers` is the polynomial at `x = 1, 2, ...`.
pub proof fn lemma_eval_with_power_row(c: Seq<nat>, row: Seq<Scalar>, x: nat, t: nat)
    requires
        is_power_row(row, x, t),
        c.len() <= t + 1,
    ensures
        eval_with_powers(c, scalar_values(row)) == poly_value(c, x),
{
    lemma_dot_prefix_power_row(c, row, x, t, c.len());
}

proof fn lemma_dot_prefix_power_row(c: Seq<nat>, row: Seq<Scalar>, x: nat, t: nat, m: nat)
    requires
        is_power_row(row, x, t),
        m <= c.len(),
        m <= t + 1,
    ensures
        dot_prefix(c, scalar_values(row), m) % (group_order() as int) == poly_value_prefix(c, x, m)
            % (group_order() as int),
    decreases m,
{
    let l = group_order() as int;
    if m > 0 {
        let k = (m - 1) as nat;
        lemma_dot_prefix_power_row(c, row, x, t, k);
        let p = scalar_values(row);
        assert(p[k as int] == row[k as int]@);
        assert(row[k as int]@ == pow_nat(x, k) % group_order());
        lemma_add_mod_noop(dot_prefix(c, p, k), (c[k as int] * p[k as int]) as int, l);
        lemma_add_mod_noop(
            poly_value_prefix(c, x, k),
            (c[k as int] * pow_nat(x, k)) as int,
            l,
        );
        lemma_mul_mod_noop_right(c[k as int] as int, pow_nat(x, k) as int, l);
    }
}

/// The value of a polynomial at zero is its constant term: the secret that
/// `generate_shares_batched` puts there.
pub proof fn lemma_poly_value_at_zero(c: Seq<nat>)
    requires
        c.len() > 0,
        c[0] < group_order(),
    ensures
        poly_value(c, 0) == c[0],
{
    lemma_poly_value_prefix_at_zero(c, c.len());
    vstd::arithmetic::div_mod::lemma_small_mod(c[0], group_order());
}

proof fn lemma_poly_value_prefix_at_zero(c: Seq<nat>, m: nat)
    requires
        0 < m <= c.len(),
    ensures
        poly_value_prefix(c, 0, m) == c[0],
    decreases m,
{
    if m > 1 {
        lemma_poly_value_prefix_at_zero(c, (m - 1) as nat);
        assert(pow_nat(0, (m - 1) as nat) == 0);
        assert(c[m - 1] * pow_nat(0, (m - 1) as nat) == 0);
    } else {
        assert(pow_nat(0, 0) == 1);
        assert(poly_value_prefix(c, 0, 0) == 0);
        assert(c[0] * pow_nat(0, 0) == c[0]);
    }
}

/// The powers `x^0, ..., x^t` modulo ℓ of every `x` in `0..=n`: row `x` of the
/// result serves to evaluate polynomials of degree at most `t` at `x`.
pub fn gen_powers(n: usize, t: usize) -> (r: Vec<Vec<Scalar>>)
    requires
        n < usize::MAX,
        t < usize::MAX,
    ensures
        r@.len() == n + 1,
        forall|x: int| 0 <= x <= n ==> is_power_row(#[trigger] r@[x]@, x as nat, t as nat),
{
    let mut out: Vec<Vec<Scalar>> = Vec::new();
    let mut x: usize = 0;
    while x <= n
        invariant
            x <= n + 1,
            n < usize::MAX,
            t < usize::MAX,
            out@.len() == x,
            forall|y: int| 0 <= y < x ==> is_power_row(#[trigger] out@[y]@, y as nat, t as nat),
        decreases n + 1 - x,
    {
        let base = Scalar::from_u64(x as u64);
        let row = powers(&base, 0, t + 1);
        assert(is_power_row(row@, x as nat, t as nat));
        out.push(row);
        x = x + 1;
    }
    out
}

/// `col` holds the values of `f` at `x = 1, ..., n`, read with the powers in `x_pows`.
pub open spec fn is_value_column(col: Seq<Scalar>, f: Seq<nat>, x_pows: Seq<Vec<Scalar>>, n: nat) -> bool {
    &&& col.len() == n
    &&& forall|i: int|
        0 <= i < n ==> #[trigger] col[i]@ == eval_with_powers(f, scalar_values(x_pows[i + 1]@))
}

/// `row` holds the value of every polynomial of `polys` at the point whose powers are `pows`.
pub open spec fn is_share_row(row: Seq<Scalar>, polys: Seq<Polynomial>, pows: Seq<Scalar>) -> bool {
    &&& row.len() == polys.len()
    &&& forall|k: int|
        0 <= k < polys.len() ==> #[trigger] row[k]@ == eval_with_powers(
            polys[k]@,
            scalar_values(pows),
        )
}

/// One polynomial of degree at most `t` per secret, with the secret as its
/// constant term, and the shares: row `i` holds every polynomial's value at
/// `x = i + 1`, for the `n` parties.
pub fn generate_shares_batched(
    n: usize,
    t: usize,
    x_pows: &Vec<Vec<Scalar>>,
    secrets: &Vec<Scalar>,
    rng: &mut StdRng,
) -> (r: (Vec<Polynomial>, Vec<Vec<Scalar>>))
    requires
        t < usize::MAX,
        n < x_pows@.len(),
        forall|x: int| 1 <= x <= n ==> #[trigger] x_pows@[x]@.len() >= t + 1,
    ensures
        r.0@.len() == secrets@.len(),
        forall|k: int|
            0 <= k < secrets@.len() ==> #[trigger] r.0@[k]@.len() == t + 1 && r.0@[k]@[0]
                == secrets@[k]@,
        r.1@.len() == n,
        forall|i: int| 0 <= i < n ==> is_share_row(#[trigger] r.1@[i]@, r.0@, x_pows@[i + 1]@),
{
    let mut polys: Vec<Polynomial> = Vec::new();
    let mut evals: Vec<Vec<Scalar>> = Vec::new();
    let mut k: usize = 0;
    while k < secrets.len()
        invariant
            k <= secrets@.len(),
            t < usize::MAX,
            n < x_pows@.len(),
            forall|x: int| 1 <= x <= n ==> #[trigger] x_pows@[x]@.len() >= t + 1,
            polys@.len() == k,
            evals@.len() == k,
            forall|j: int|
                0 <= j < k ==> #[trigger] polys@[j]@.len() == t + 1 && polys@[j]@[0]
                    == secrets@[j]@,
            forall|j: int|
                0 <= j < k ==> is_value_column(#[trigger] evals@[j]@, polys@[j]@, x_pows@, n as nat),
        decreases secrets@.len() - k,
    {
        let f = Polynomial::sample_with_secret(t, &secrets[k], rng);
        let values = f.evaluate_range_precomp(x_pows, 1, n);
        assert(is_value_column(values@, f@, x_pows@, n as nat));
        polys.push(f);
        evals.push(values);
        k = k + 1;
    }
    let mut shares: Vec<Vec<Scalar>> = Vec::new();
    let mut i: usize = 0;
    while i < n
        invariant
            i <= n,
            polys@.len() == secrets@.len(),
            evals@.len() == secrets@.len(),
            forall|j: int|
                0 <= j < secrets@.len() ==> is_value_column(
                    #[trigger] evals@[j]@,
                    polys@[j]@,
                    x_pows@,
                    n as nat,
                ),
            shares@.len() == i,
            forall|i2: int| 0 <= i2 < i ==> is_share_row(#[trigger] shares@[i2]@, polys@, x_pows@[i2 + 1]@),
        decreases n - i,
    {
        let mut row: Vec<Scalar> = Vec::new();
        let mut j: usize = 0;
        while j < evals.len()
            invariant
                j <= evals@.len(),
                i < n,
                polys@.len() == secrets@.len(),
                evals@.len() == secrets@.len(),
                forall|j2: int|
                    0 <= j2 < secrets@.len() ==> is_value_column(
                        #[trigger] evals@[j2]@,
                        polys@[j2]@,
                        x_pows@,
                        n as nat,
                    ),
                row@.len() == j,
                forall|j2: int|
                    0 <= j2 < j ==> #[trigger] row@[j2]@ == eval_with_powers(
                        polys@[j2]@,
                        scalar_values(x_pows@[i + 1]@),
                    ),
            decreases evals@.len() - j,
        {
            proof {
                assert(is_value_column(evals@[j as int]@, polys@[j as int]@, x_pows@, n as nat));
                assert(evals@[j as int]@[i as int]@ == eval_with_powers(
                    polys@[j as int]@,
                    scalar_values(x_pows@[i + 1]@),
                ));
            }
            row.push(evals[j][i]);
            j = j + 1;
        }
        assert(is_share_row(row@, polys@, x_pows@[i + 1]@));
        shares.push(row);
        i = i + 1;
    }
    (polys, shares)
}

/// Decodes every byte string of `encs`; fails at the first that is no point.
pub fn batch_decompress_ristretto_points(encs: &[CompressedRistretto]) -> (r: Result<
    Vec<RistrettoPoint>,
    Error,
>)
    ensures
        r is Ok <==> all_decode(encs@),
        r matches Ok(v) ==> point_encodings(v@) == compressed_encodings(encs@),
        r matches Err(e) ==> exists|i: int|
            first_undecodable(encs@, i) && e == Error::InvalidPoint(i as usize),
{
    let mut out: Vec<RistrettoPoint> = Vec::new();
    let mut i: usize = 0;
    while i < encs.len()
        invariant
            i <= encs@.len(),
            out@.len() == i,
            forall|j: int| 0 <= j < i ==> ristretto_decodes(#[trigger] encs@[j]@),
            forall|j: int| 0 <= j < i ==> #[trigger] out@[j]@ == encs@[j]@,
        decreases encs@.len() - i,
    {
        match encs[i].decompress() {
            Some(p) => {
                out.push(p);
            },
            None => {
                assert(first_undecodable(encs@, i as int));
                return Err(Error::InvalidPoint(i));
            },
        }
        i = i + 1;
    }
    assert(point_encodings(out@) =~= compressed_encodings(encs@));
    Ok(out)
}

/// The rows of a list of lists, each decoded as by
/// `batch_decompress_ristretto_points`; fails at the first row that does,
/// naming the row and the position in it.
pub fn batch_decompress_batched_ristretto_points(rows: &Vec<Vec<CompressedRistretto>>) -> (r:
    Result<Vec<Vec<RistrettoPoint>>, Error>)
    ensures
        r is Ok <==> forall|i: int| 0 <= i < rows@.len() ==> all_decode(#[trigger] rows@[i]@),
        r matches Ok(v) ==> v@.len() == rows@.len() && forall|i: int|
            0 <= i < rows@.len() ==> point_encodings(#[trigger] v@[i]@) == compressed_encodings(
                rows@[i]@,
            ),
        r matches Err(e) ==> exists|i: int, j: int|
            0 <= i < rows@.len() && (forall|i2: int| 0 <= i2 < i ==> all_decode(#[trigger] rows@[i2]@))
                && first_undecodable(rows@[i]@, j) && e == Error::InvalidBatchedPoint(
                i as usize,
                j as usize,
            ),
{
    let mut out: Vec<Vec<RistrettoPoint>> = Vec::new();
    let mut i: usize = 0;
    while i < rows.len()
        invariant
            i <= rows@.len(),
            out@.len() == i,
            forall|k: int| 0 <= k < i ==> all_decode(#[trigger] rows@[k]@),
            forall|k: int|
                0 <= k < i ==> point_encodings(#[trigger] out@[k]@) == compressed_encodings(
                    rows@[k]@,
                ),
        decreases rows@.len() - i,
    {
        match batch_decompress_ristretto_points(rows[i].as_slice()) {
            Ok(points) => {
                out.push(points);
            },
            Err(e) => {
                let ghost j = choose|j: int| first_undecodable(rows@[i as int]@, j) && e == Error::InvalidPoint(j as usize);
                let pos = match e {
                    Error::InvalidPoint(pos) => pos,
                    _ => 0,
                };
                assert(first_undecodable(rows@[i as int]@, j));
                return Err(Error::InvalidBatchedPoint(i, pos));
            },
        }
        i = i + 1;
    }
    Ok(out)
}


/// The encodings of each row of points.
pub open spec fn row_encodings(rows: Seq<Vec<RistrettoPoint>>) -> Seq<Seq<Seq<u8>>> {
    rows.map_values(|row: Vec<RistrettoPoint>| point_encodings(row@))
}

/// The byte strings of each row of compressed points.
pub open spec fn compressed_row_encodings(rows: Seq<Vec<CompressedRistretto>>) -> Seq<Seq<Seq<u8>>> {
    rows.map_values(|row: Vec<CompressedRistretto>| compressed_encodings(row@))
}

/// Every row decodes.
pub open spec fn all_rows_decode(rows: Seq<Vec<CompressedRistretto>>) -> bool {
    forall|i: int| 0 <= i < rows.len() ==> all_decode(#[trigger] rows[i]@)
}

/// `e` is the error for the first byte string, in row order, that does not decode.
pub open spec fn is_first_row_error(rows: Seq<Vec<CompressedRistretto>>, e: Error) -> bool {
    exists|i: int, j: int|
        0 <= i < rows.len() && (forall|i2: int| 0 <= i2 < i ==> all_decode(#[trigger] rows[i2]@))
            && first_undecodable(rows[i]@, j) && e == Error::InvalidBatchedPoint(
            i as usize,
            j as usize,
        )
}

} // verus!
