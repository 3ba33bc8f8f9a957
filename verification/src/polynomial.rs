//! Polynomials over the scalars modulo ℓ, evaluated with precomputed powers.
use crate::randomness::random_scalar;
use crate::ristretto::all_below_order;
use crate::scalar::{group_order, Scalar};
use rand::rngs::StdRng;
use vstd::arithmetic::div_mod::lemma_add_mod_noop;
use vstd::prelude::*;

verus! {

/// The values of a sequence of scalars.
pub open spec fn scalar_values(s: Seq<Scalar>) -> Seq<nat> {
    s.map_values(|x: Scalar| x@)
}

/// `c[0] * p[0] + ... + c[m-1] * p[m-1]` over the integers.
pub open spec fn dot_prefix(c: Seq<nat>, p: Seq<nat>, m: nat) -> int
    decreases m,
{
    if m == 0 {
        0
    } else {
        dot_prefix(c, p, (m - 1) as nat) + c[m - 1] * p[m - 1]
    }
}

/// The polynomial with coefficients `c` evaluated where the powers of the point
/// are `pows` (`pows[j]` standing for `x^j`), modulo ℓ.
pub open spec fn eval_with_powers(c: Seq<nat>, pows: Seq<nat>) -> nat {
    (dot_prefix(c, pows, c.len()) % (group_order() as int)) as nat
}

/// A polynomial, by its coefficients from the constant term up.
#[derive(Debug)]
pub struct Polynomial {
    coef: Vec<Scalar>,
}

impl View for Polynomial {
    type V = Seq<nat>;

    closed spec fn view(&self) -> Seq<nat> {
        scalar_values(self.coef@)
    }
}

impl Clone for Polynomial {
    fn clone(&self) -> (r: Self)
        ensures
            r@ == self@,
    {
        let coef = self.coef.clone();
        assert(coef@ =~= self.coef@);
        Polynomial { coef }
    }
}

impl Polynomial {
    /// The polynomial with these coefficients.
    pub fn from_coefficients(coef: Vec<Scalar>) -> (r: Polynomial)
        ensures
            r@ == scalar_values(coef@),
    {
        Polynomial { coef }
    }

    /// Every coefficient lies below ℓ.
    pub proof fn lemma_coefficients_below_order(&self)
        ensures
            all_below_order(self@),
    {
        assert forall|i: int| 0 <= i < self@.len() implies #[trigger] self@[i] < group_order() by {
            self.coef@[i].lemma_value_below_order();
        }
    }

    /// The number of coefficients.
    pub fn len(&self) -> (r: usize)
        ensures
            r == self@.len(),
    {
        self.coef.len()
    }

    /// The coefficients.
    pub fn coef_ref(&self) -> (r: &Vec<Scalar>)
        ensures
            scalar_values(r@) == self@,
    {
        &self.coef
    }

    /// The coefficient of `x^i`.
    pub fn coef_at_unchecked(&self, i: usize) -> (r: &Scalar)
        requires
            i < self@.len(),
        ensures
            r@ == self@[i as int],
    {
        &self.coef[i]
    }

    /// A polynomial of degree at most `t` with random coefficients.
    pub fn sample(t: usize, rng: &mut StdRng) -> (r: Polynomial)
        requires
            t < usize::MAX,
        ensures
            r@.len() == t + 1,
    {
        let mut coef: Vec<Scalar> = Vec::new();
        let mut i: usize = 0;
        while i <= t
            invariant
                i <= t + 1,
                t < usize::MAX,
                coef.len() == i,
            decreases t + 1 - i,
        {
            coef.push(random_scalar(rng));
            i = i + 1;
        }
        Polynomial { coef }
    }

    /// A polynomial of degree at most `t` with constant term `secret` and the
    /// other coefficients random.
    pub fn sample_with_secret(t: usize, secret: &Scalar, rng: &mut StdRng) -> (r: Polynomial)
        requires
            t < usize::MAX,
        ensures
            r@.len() == t + 1,
            r@[0] == secret@,
    {
        let mut coef: Vec<Scalar> = Vec::new();
        coef.push(*secret);
        let mut i: usize = 0;
        while i < t
            invariant
                i <= t,
                coef.len() == i + 1,
                coef@[0]@ == secret@,
            decreases t - i,
        {
            coef.push(random_scalar(rng));
            i = i + 1;
        }
        Polynomial { coef }
    }

    /// The value at the point whose powers are `pows`.
    pub fn evaluate_with_powers(&self, pows: &Vec<Scalar>) -> (r: Scalar)
        requires
            pows@.len() >= self@.len(),
        ensures
            r@ == eval_with_powers(self@, scalar_values(pows@)),
    {
        let ghost c = self@;
        let ghost p = scalar_values(pows@);
        let mut acc = Scalar::from_u64(0);
        let mut j: usize = 0;
        while j < self.coef.len()
            invariant
                j <= self.coef.len(),
                c == self@,
                self@.len() == self.coef.len(),
                p == scalar_values(pows@),
                pows@.len() >= self.coef.len(),
                acc@ == dot_prefix(c, p, j as nat) % (group_order() as int),
            decreases self.coef.len() - j,
        {
            let term = self.coef[j].mul(&pows[j]);
            let next = acc.add(&term);
            proof {
                lemma_add_mod_noop(
                    dot_prefix(c, p, j as nat),
                    (c[j as int] * p[j as int]) as int,
                    group_order() as int,
                );
                assert(dot_prefix(c, p, (j + 1) as nat) == dot_prefix(c, p, j as nat) + c[j as int]
                    * p[j as int]);
            }
            acc = next;
            j = j + 1;
        }
        acc
    }

    /// The values at `x = from, ..., to` (none when `to < from`), where
    /// `x_pows[x]` holds the powers of `x`.
    pub fn evaluate_range_precomp(&self, x_pows: &Vec<Vec<Scalar>>, from: usize, to: usize) -> (r:
        Vec<Scalar>)
        requires
            to < x_pows@.len(),
            forall|x: int| from <= x <= to ==> #[trigger] x_pows@[x]@.len() >= self@.len(),
        ensures
            r@.len() == (if from <= to { to - from + 1 } else { 0 }),
            forall|i: int|
                0 <= i < r@.len() ==> #[trigger] r@[i]@ == eval_with_powers(
                    self@,
                    scalar_values(x_pows@[from + i]@),
                ),
    {
        let mut out: Vec<Scalar> = Vec::new();
        if from > to {
            return out;
        }
        let rows = x_pows.len();
        let mut x: usize = from;
        while x <= to
            invariant
                from <= x <= to + 1,
                to < x_pows@.len(),
                rows == x_pows@.len(),
                out@.len() == x - from,
                forall|y: int| from <= y <= to ==> #[trigger] x_pows@[y]@.len() >= self@.len(),
                forall|i: int|
                    0 <= i < out@.len() ==> #[trigger] out@[i]@ == eval_with_powers(
                        self@,
                        scalar_values(x_pows@[from + i]@),
                    ),
            decreases to + 1 - x,
        {
            let v = self.evaluate_with_powers(&x_pows[x]);
            out.push(v);
            x = x + 1;
        }
        out
    }
}


/// Coefficient-wise sum modulo ℓ.
pub open spec fn add_mod(a: Seq<nat>, b: Seq<nat>) -> Seq<nat> {
    Seq::new(a.len(), |j: int| (a[j] + b[j]) % group_order())
}

/// Coefficient-wise product with `c` modulo ℓ.
pub open spec fn scale_mod(a: Seq<nat>, c: nat) -> Seq<nat> {
    Seq::new(a.len(), |j: int| (a[j] * c) % group_order())
}

/// Sums that agree modulo ℓ term by term agree modulo ℓ.
pub proof fn lemma_add_congruent(x1: int, x2: int, y1: int, y2: int)
    requires
        x1 % (group_order() as int) == x2 % (group_order() as int),
        y1 % (group_order() as int) == y2 % (group_order() as int),
    ensures
        (x1 + y1) % (group_order() as int) == (x2 + y2) % (group_order() as int),
{
    let l = group_order() as int;
    vstd::arithmetic::div_mod::lemma_add_mod_noop(x1, y1, l);
    vstd::arithmetic::div_mod::lemma_add_mod_noop(x2, y2, l);
}

proof fn lemma_dot_add(a: Seq<nat>, b: Seq<nat>, p: Seq<nat>, m: nat)
    requires
        a.len() == b.len(),
        m <= a.len(),
    ensures
        dot_prefix(add_mod(a, b), p, m) % (group_order() as int) == (dot_prefix(a, p, m)
            + dot_prefix(b, p, m)) % (group_order() as int),
    decreases m,
{
    let l = group_order() as int;
    if m > 0 {
        let k = (m - 1) as nat;
        lemma_dot_add(a, b, p, k);
        let s = add_mod(a, b);
        assert(s[k as int] == (a[k as int] + b[k as int]) % group_order());
        vstd::arithmetic::div_mod::lemma_mul_mod_noop_left(
            (a[k as int] + b[k as int]) as int,
            p[k as int] as int,
            l,
        );
        assert((a[k as int] + b[k as int]) * p[k as int] == a[k as int] * p[k as int] + b[k as int]
            * p[k as int]) by (nonlinear_arith);
        lemma_add_congruent(
            dot_prefix(s, p, k),
            dot_prefix(a, p, k) + dot_prefix(b, p, k),
            (s[k as int] * p[k as int]) as int,
            (a[k as int] * p[k as int] + b[k as int] * p[k as int]) as int,
        );
    }
}

proof fn lemma_dot_scale(a: Seq<nat>, c: nat, p: Seq<nat>, m: nat)
    requires
        m <= a.len(),
    ensures
        dot_prefix(scale_mod(a, c), p, m) % (group_order() as int) == (dot_prefix(a, p, m) * c) % (
        group_order() as int),
    decreases m,
{
    let l = group_order() as int;
    if m > 0 {
        let k = (m - 1) as nat;
        lemma_dot_scale(a, c, p, k);
        let s = scale_mod(a, c);
        assert(s[k as int] == (a[k as int] * c) % group_order());
        vstd::arithmetic::div_mod::lemma_mul_mod_noop_left(
            (a[k as int] * c) as int,
            p[k as int] as int,
            l,
        );
        assert(dot_prefix(a, p, m) * c == dot_prefix(a, p, k) * c + (a[k as int] * c) * p[k as int])
            by (nonlinear_arith)
            requires
                dot_prefix(a, p, m) == dot_prefix(a, p, k) + a[k as int] * p[k as int],
        ;
        lemma_add_congruent(
            dot_prefix(s, p, k),
            dot_prefix(a, p, k) * c,
            (s[k as int] * p[k as int]) as int,
            ((a[k as int] * c) * p[k as int]) as int,
        );
    }
}

/// Evaluation is additive: the coefficient-wise sum evaluates to the sum.
pub proof fn lemma_eval_add(a: Seq<nat>, b: Seq<nat>, p: Seq<nat>)
    requires
        a.len() == b.len(),
    ensures
        eval_with_powers(add_mod(a, b), p) == (eval_with_powers(a, p) + eval_with_powers(b, p))
            % group_order(),
{
    let l = group_order() as int;
    lemma_dot_add(a, b, p, a.len());
    lemma_add_congruent(
        dot_prefix(a, p, a.len()),
        dot_prefix(a, p, a.len()) % l,
        dot_prefix(b, p, b.len()),
        dot_prefix(b, p, b.len()) % l,
    );
    vstd::arithmetic::div_mod::lemma_mod_twice(dot_prefix(a, p, a.len()), l);
    vstd::arithmetic::div_mod::lemma_mod_twice(dot_prefix(b, p, b.len()), l);
}

/// Evaluation is homogeneous: scaling the coefficients scales the value.
pub proof fn lemma_eval_scale(a: Seq<nat>, c: nat, p: Seq<nat>)
    ensures
        eval_with_powers(scale_mod(a, c), p) == (eval_with_powers(a, p) * c) % group_order(),
{
    let l = group_order() as int;
    lemma_dot_scale(a, c, p, a.len());
    vstd::arithmetic::div_mod::lemma_mul_mod_noop_left(dot_prefix(a, p, a.len()), c as int, l);
}

} // verus!
