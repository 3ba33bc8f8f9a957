//! Decryption of encrypted shares: multiplying by the inverse of the private
//! key undoes the encryption under the public key.
use crate::ristretto::{point_encodings, ristretto_decodes, ristretto_mul, RistrettoPoint};
use crate::scalar::{group_order, inverse_value};
use vstd::prelude::*;

verus! {

/// `pk` is `g * sk`, and multiplying `pk` by `b` is multiplying `g` by `sk * b`.
pub open spec fn is_key_pair(g: Seq<u8>, sk: nat, pk: Seq<u8>) -> bool {
    &&& pk == ristretto_mul(g, sk)
    &&& forall|b: nat|
        #![trigger ristretto_mul(pk, b)]
        b < group_order() ==> ristretto_mul(pk, b) == ristretto_mul(g, (sk * b) % group_order())
}

/// `x * a * b` modulo ℓ is `x` when `b` inverts `a`: multiplying a point by
/// `a` and then by `a`'s inverse gives it back.
pub proof fn lemma_cancel_inverse(a: nat, inv: nat, f: nat)
    requires
        (inv * a) % group_order() == 1,
        f < group_order(),
    ensures
        (((a * f) % group_order()) * inv) % group_order() == f,
{
    let l = group_order() as int;
    vstd::arithmetic::div_mod::lemma_mul_mod_noop_left((a * f) as int, inv as int, l);
    assert((a * f) * inv == f * (inv * a)) by (nonlinear_arith);
    vstd::arithmetic::div_mod::lemma_mul_mod_noop_right(f as int, (inv * a) as int, l);
    vstd::arithmetic::div_mod::lemma_small_mod(f, group_order());
}

/// `dec` is the decryption of `enc` under private key `sk`: re-encrypting it
/// gives `enc` back, and an encryption `x * (sk * f)` decrypts to `x * f`.
pub open spec fn decrypts_to(dec: Seq<u8>, enc: Seq<u8>, sk: nat) -> bool {
    &&& ristretto_mul(dec, sk) == enc
    &&& forall|x: Seq<u8>, f: nat|
        #![trigger ristretto_mul(x, f)]
        f < group_order() && ristretto_decodes(x) && enc == ristretto_mul(
            x,
            (sk * f) % group_order(),
        ) ==> dec == ristretto_mul(x, f)
}

/// A share encrypted under a party's public key decrypts to the generator
/// times the share: if `pk` and `sk` form a key pair over `g` and `enc` is
/// `pk * s`, the decryption that `decrypt_shares` makes is `g * s`.
pub proof fn lemma_decryption_recovers_share(
    g: Seq<u8>,
    sk: nat,
    pk: Seq<u8>,
    s: nat,
    enc: Seq<u8>,
    dec: Seq<u8>,
)
    requires
        is_key_pair(g, sk, pk),
        ristretto_decodes(g),
        s < group_order(),
        enc == ristretto_mul(pk, s),
        decrypts_to(dec, enc, sk),
    ensures
        dec == ristretto_mul(g, s),
{
    assert(ristretto_mul(pk, s) == ristretto_mul(g, (sk * s) % group_order()));
}

/// What `Scalar::invert` gives for `sk`: its inverse modulo ℓ, or zero for zero.
pub open spec fn is_inverse_or_zero(inv: nat, sk: nat) -> bool {
    &&& (sk != 0 ==> (inv * sk) % group_order() == 1)
    &&& (sk == 0 ==> inv == 0)
}

/// `dec` holds every point of `enc` multiplied by the inverse of the private
/// key `sk` (zero when `sk` is zero), as `Scalar::invert` computes it.
pub open spec fn is_decryption(dec: Seq<RistrettoPoint>, enc: Seq<RistrettoPoint>, sk: nat) -> bool {
    &&& dec.len() == enc.len()
    &&& is_inverse_or_zero(inverse_value(sk), sk)
    &&& forall|k: int|
        0 <= k < dec.len() ==> #[trigger] dec[k]@ == ristretto_mul(enc[k]@, inverse_value(sk))
}

/// Decryption is determined by the encrypted share and the private key:
/// decrypting again gives the same points.
pub proof fn lemma_decryption_is_determined(
    dec1: Seq<RistrettoPoint>,
    dec2: Seq<RistrettoPoint>,
    enc: Seq<RistrettoPoint>,
    sk: nat,
)
    requires
        is_decryption(dec1, enc, sk),
        is_decryption(dec2, enc, sk),
    ensures
        point_encodings(dec1) == point_encodings(dec2),
{
    assert(point_encodings(dec1) =~= point_encodings(dec2));
}

} // verus!
