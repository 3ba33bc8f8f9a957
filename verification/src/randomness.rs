//! Random scalars and points drawn from a `rand` generator.
use crate::ristretto::{ristretto_from_uniform, RistrettoPoint};
use crate::scalar::{group_order, le_bytes_value, Scalar};
use rand::rngs::StdRng;
use rand::RngCore;
use vstd::prelude::*;

verus! {

/// `v` is the value of some 64 bytes modulo ℓ.
pub open spec fn is_wide_reduction(v: nat) -> bool {
    exists|bytes: Seq<u8>| bytes.len() == 64 && v == #[trigger] le_bytes_value(bytes) % group_order()
}

/// `p` is what `from_uniform_bytes` maps some 64 bytes to.
pub open spec fn is_uniform_image(p: Seq<u8>) -> bool {
    exists|bytes: Seq<u8>| bytes.len() == 64 && p == #[trigger] ristretto_from_uniform(bytes)
}

/// The standard generator of the rand crate.
#[verifier::external_type_specification]
#[verifier::external_body]
pub struct ExStdRng(rand::rngs::StdRng);

/// `RngCore::fill_bytes` of rand on a 64-byte buffer. The bytes come from the
/// generator's state, so nothing is stated of them.
#[verifier::external_body]
fn fill_64(rng: &mut StdRng) -> (r: [u8; 64]) {
    let mut bytes = [0u8; 64];
    rng.fill_bytes(&mut bytes);
    bytes
}

/// A scalar reduced from 64 random bytes: the generator gives the bytes, and
/// the scalar is their little-endian value modulo ℓ.
pub fn random_scalar(rng: &mut StdRng) -> (r: Scalar)
    ensures
        is_wide_reduction(r@),
{
    let bytes = fill_64(rng);
    let r = Scalar::from_bytes_mod_order_wide(&bytes);
    assert(bytes@.len() == 64 && r@ == le_bytes_value(bytes@) % group_order());
    r
}

/// `k` random scalars.
pub fn random_scalars(rng: &mut StdRng, k: usize) -> (r: Vec<Scalar>)
    ensures
        r@.len() == k,
        forall|i: int| 0 <= i < k ==> is_wide_reduction(#[trigger] r@[i]@),
{
    let mut out: Vec<Scalar> = Vec::new();
    let mut i: usize = 0;
    while i < k
        invariant
            i <= k,
            out@.len() == i,
            forall|j: int| 0 <= j < i ==> is_wide_reduction(#[trigger] out@[j]@),
        decreases k - i,
    {
        out.push(random_scalar(rng));
        i = i + 1;
    }
    out
}

/// A point mapped from 64 random bytes: the generator gives the bytes, and
/// the point is what `from_uniform_bytes` maps them to.
pub fn random_point(rng: &mut StdRng) -> (r: RistrettoPoint)
    ensures
        is_uniform_image(r@),
{
    let bytes = fill_64(rng);
    let r = RistrettoPoint::from_uniform_bytes(&bytes);
    assert(bytes@.len() == 64 && r@ == ristretto_from_uniform(bytes@));
    r
}

/// `k` random points.
pub fn random_points(rng: &mut StdRng, k: usize) -> (r: Vec<RistrettoPoint>)
    ensures
        r@.len() == k,
        forall|i: int| 0 <= i < k ==> is_uniform_image(#[trigger] r@[i]@),
{
    let mut out: Vec<RistrettoPoint> = Vec::new();
    let mut i: usize = 0;
    while i < k
        invariant
            i <= k,
            out@.len() == i,
            forall|j: int| 0 <= j < i ==> is_uniform_image(#[trigger] out@[j]@),
        decreases k - i,
    {
        out.push(random_point(rng));
        i = i + 1;
    }
    out
}

} // verus!
