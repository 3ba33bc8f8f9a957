//! The threshold rule that a party checks at construction: `t as f32` must equal
//! `floor((n - 1) as f32 / 2)`. It is decided here with integers that reproduce
//! the rounding of an integer to `f32`.
use vstd::arithmetic::div_mod::{lemma_div_denominator, lemma_fundamental_div_mod};
use vstd::arithmetic::power2::{lemma_pow2_pos, lemma_pow2_unfold, pow2};
use vstd::prelude::*;

verus! {

/// 2^24: below it every integer is an `f32` exactly.
pub open spec fn f32_exact_bound() -> nat {
    0x100_0000nat
}

/// How many low bits of `x` fall outside the 24-bit significand of an `f32`.
pub open spec fn f32_dropped_bits(x: nat) -> nat
    decreases x,
{
    if x < f32_exact_bound() {
        0
    } else {
        1 + f32_dropped_bits(x / 2)
    }
}

/// The value of `x as f32` for an integer `x`: `x` rounded to 24 significant
/// bits, to nearest, ties to the even significand.
pub open spec fn f32_round(x: nat) -> nat {
    let p = pow2(f32_dropped_bits(x));
    let q = x / p;
    let rem = x % p;
    if 2 * rem > p || (2 * rem == p && q % 2 == 1) {
        (q + 1) * p
    } else {
        q * p
    }
}

/// `t as f32 == ((n - 1) as f32 / 2.0).floor()` for `n >= 1`: halving an `f32`
/// is exact, and the floor of half an integer is the integer half.
pub open spec fn threshold_rule(n: nat, t: nat) -> bool {
    f32_round(t) == f32_round((n - 1) as nat) / 2
}

/// `x as f32`, as the integer it equals.
pub fn f32_round_exec(x: u64) -> (r: u128)
    ensures
        r == f32_round(x as nat),
{
    let xx: u128 = x as u128;
    let mut q: u128 = xx;
    let mut p: u128 = 1;
    let ghost mut e: nat = 0;
    proof {
        assert(pow2(0) == 1) by {
            vstd::arithmetic::power2::lemma_pow2(0);
            vstd::arithmetic::power::lemma_pow0(2);
        }
    }
    while q >= 0x100_0000
        invariant
            p == pow2(e),
            p >= 1,
            q == xx as nat / pow2(e),
            f32_dropped_bits(xx as nat) == e + f32_dropped_bits(q as nat),
            p * q <= xx,
            p <= xx + 1,
            xx <= u64::MAX,
        decreases q,
    {
        proof {
            lemma_pow2_unfold(e + 1);
            lemma_pow2_pos(e);
            lemma_div_denominator(xx as int, pow2(e) as int, 2);
            assert(pow2(e) * 2 == pow2(e + 1));
            assert(f32_dropped_bits(q as nat) == 1 + f32_dropped_bits((q / 2) as nat));
            assert((p * 2) * (q / 2) <= p * q) by (nonlinear_arith)
                requires
                    p >= 1,
            ;
            assert(p * 2 <= p * q) by (nonlinear_arith)
                requires
                    q >= 2,
                    p >= 1,
            ;
        }
        q = q / 2;
        p = p * 2;
        proof {
            e = e + 1;
        }
    }
    proof {
        lemma_fundamental_div_mod(xx as int, p as int);
        assert(f32_dropped_bits(q as nat) == 0);
        assert(p * q == q * p) by (nonlinear_arith);
    }
    let rem: u128 = xx - q * p;
    assert(rem == xx as nat % pow2(e));
    if 2 * rem > p || (2 * rem == p && q % 2 == 1) {
        proof {
            assert((q + 1) * p <= 2 * xx + 1) by (nonlinear_arith)
                requires
                    q * p <= xx,
                    p <= xx + 1,
            ;
        }
        (q + 1) * p
    } else {
        q * p
    }
}

/// Whether `t` passes the threshold rule for `n` parties (`n >= 1`).
pub fn threshold_rule_holds(n: usize, t: usize) -> (r: bool)
    requires
        n >= 1,
    ensures
        r == threshold_rule(n as nat, t as nat),
{
    let a = f32_round_exec(t as u64);
    let b = f32_round_exec((n - 1) as u64);
    a == b / 2
}

/// Below 2^24 an integer converts to `f32` unchanged.
pub proof fn lemma_f32_round_small(x: nat)
    requires
        x < f32_exact_bound(),
    ensures
        f32_round(x) == x,
{
    assert(pow2(0) == 1) by {
        vstd::arithmetic::power2::lemma_pow2(0);
        vstd::arithmetic::power::lemma_pow0(2);
    }
    assert(f32_dropped_bits(x) == 0);
    assert(x / 1 == x);
    assert(x % 1 == 0);
}

/// Up to 2^24 parties, the threshold rule says that `t` is `(n - 1) / 2`.
pub proof fn lemma_threshold_rule_small(n: nat, t: nat)
    requires
        1 <= n <= f32_exact_bound(),
        t < n,
    ensures
        threshold_rule(n, t) <==> t == (n - 1) as nat / 2,
{
    lemma_f32_round_small(t);
    lemma_f32_round_small((n - 1) as nat);
}

} // verus!
