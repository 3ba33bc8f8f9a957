//! Scalars modulo the Ristretto group order, backed by `curve25519_dalek::Scalar`.
use curve25519_dalek::scalar::Scalar as DalekScalar;
use crate::utils::power_mod;
use vstd::prelude::*;

verus! {

/// The order ℓ = 2^252 + 27742317777372353535851937790883648493 of the Ristretto group.
pub open spec fn group_order() -> nat {
    7237005577332262213973186563042994240857116359379907606001950938285454250989nat
}

/// The integer that a little-endian byte string encodes.
pub open spec fn le_bytes_value(b: Seq<u8>) -> nat
    decreases b.len(),
{
    if b.len() == 0 {
        0
    } else {
        b[0] as nat + 256 * le_bytes_value(b.drop_first())
    }
}

/// `a^(ℓ-2)` modulo ℓ: the inverse of a nonzero `a`, and zero for zero.
pub open spec fn inverse_value(a: nat) -> nat {
    power_mod(a, (group_order() - 2) as nat)
}

/// An integer modulo ℓ, held as the 32-byte little-endian encoding that
/// `curve25519_dalek` uses for its scalars.
#[derive(Clone, Copy, Debug)]
pub struct Scalar {
    pub(crate) bytes: [u8; 32],
}

impl View for Scalar {
    type V = nat;

    /// The residue modulo ℓ that the scalar stands for.
    closed spec fn view(&self) -> nat {
        le_bytes_value(self.bytes@) % group_order()
    }
}

/// `Scalar::from(u64)` of curve25519-dalek: the scalar whose value is `x`.
#[verifier::external_body]
fn dalek_from_u64(x: u64) -> (r: Scalar)
    ensures
        r@ == x as nat,
{
    Scalar { bytes: DalekScalar::from(x).to_bytes() }
}

/// `Scalar::from_bytes_mod_order_wide` of curve25519-dalek: reduces a 512-bit
/// little-endian integer modulo ℓ.
#[verifier::external_body]
fn dalek_from_bytes_mod_order_wide(input: &[u8; 64]) -> (r: Scalar)
    ensures
        r@ == le_bytes_value(input@) % group_order(),
{
    Scalar { bytes: DalekScalar::from_bytes_mod_order_wide(input).to_bytes() }
}

/// `Scalar::from_canonical_bytes` of curve25519-dalek: accepts exactly the
/// encodings of integers below ℓ.
#[verifier::external_body]
fn dalek_from_canonical_bytes(bytes: [u8; 32]) -> (r: Option<Scalar>)
    ensures
        r is Some <==> le_bytes_value(bytes@) < group_order(),
        r is Some ==> r->0@ == le_bytes_value(bytes@),
{
    match Option::<DalekScalar>::from(DalekScalar::from_canonical_bytes(bytes)) {
        Some(s) => Some(Scalar { bytes: s.to_bytes() }),
        None => None,
    }
}

/// `&Scalar + &Scalar` of curve25519-dalek: addition modulo ℓ.
#[verifier::external_body]
fn dalek_add(a: &Scalar, b: &Scalar) -> (r: Scalar)
    ensures
        r@ == (a@ + b@) % group_order(),
{
    let x = DalekScalar::from_bytes_mod_order(a.bytes);
    let y = DalekScalar::from_bytes_mod_order(b.bytes);
    Scalar { bytes: (x + y).to_bytes() }
}

/// `&Scalar * &Scalar` of curve25519-dalek: multiplication modulo ℓ.
#[verifier::external_body]
fn dalek_mul(a: &Scalar, b: &Scalar) -> (r: Scalar)
    ensures
        r@ == (a@ * b@) % group_order(),
{
    let x = DalekScalar::from_bytes_mod_order(a.bytes);
    let y = DalekScalar::from_bytes_mod_order(b.bytes);
    Scalar { bytes: (x * y).to_bytes() }
}

/// `Scalar::invert` of curve25519-dalek. It raises its argument to the power
/// ℓ - 2 by an addition chain, so a nonzero scalar gets its multiplicative
/// inverse and zero gets zero.
#[verifier::external_body]
fn dalek_invert(a: &Scalar) -> (r: Scalar)
    ensures
        r@ == inverse_value(a@),
        a@ != 0 ==> (r@ * a@) % group_order() == 1,
        a@ == 0 ==> r@ == 0,
{
    Scalar { bytes: DalekScalar::from_bytes_mod_order(a.bytes).invert().to_bytes() }
}

/// `Scalar == Scalar` of curve25519-dalek: compares the canonical encodings,
/// which are equal exactly when the residues are.
#[verifier::external_body]
fn dalek_eq(a: &Scalar, b: &Scalar) -> (r: bool)
    ensures
        r == (a@ == b@),
{
    DalekScalar::from_bytes_mod_order(a.bytes) == DalekScalar::from_bytes_mod_order(b.bytes)
}

impl Scalar {
    /// The scalar with value `x`.
    pub fn from_u64(x: u64) -> (r: Scalar)
        ensures
            r@ == x as nat,
    {
        dalek_from_u64(x)
    }

    /// Reduces a 64-byte little-endian integer modulo ℓ.
    pub fn from_bytes_mod_order_wide(input: &[u8; 64]) -> (r: Scalar)
        ensures
            r@ == le_bytes_value(input@) % group_order(),
    {
        dalek_from_bytes_mod_order_wide(input)
    }

    /// The scalar that `bytes` encodes, if `bytes` is a canonical encoding.
    pub fn from_canonical_bytes(bytes: [u8; 32]) -> (r: Option<Scalar>)
        ensures
            r is Some <==> le_bytes_value(bytes@) < group_order(),
            r is Some ==> r->0@ == le_bytes_value(bytes@),
    {
        dalek_from_canonical_bytes(bytes)
    }

    /// The 32-byte little-endian encoding of the scalar.
    pub fn to_bytes(&self) -> (r: [u8; 32])
        ensures
            le_bytes_value(r@) % group_order() == self@,
    {
        self.bytes
    }

    /// Addition modulo ℓ.
    pub fn add(&self, other: &Scalar) -> (r: Scalar)
        ensures
            r@ == (self@ + other@) % group_order(),
    {
        dalek_add(self, other)
    }

    /// Multiplication modulo ℓ.
    pub fn mul(&self, other: &Scalar) -> (r: Scalar)
        ensures
            r@ == (self@ * other@) % group_order(),
    {
        dalek_mul(self, other)
    }

    /// The multiplicative inverse modulo ℓ; zero for zero.
    pub fn invert(&self) -> (r: Scalar)
        ensures
            r@ == inverse_value(self@),
            self@ != 0 ==> (r@ * self@) % group_order() == 1,
            self@ == 0 ==> r@ == 0,
    {
        dalek_invert(self)
    }

    /// Every scalar's value lies below ℓ.
    pub proof fn lemma_value_below_order(&self)
        ensures
            self@ < group_order(),
    {
    }
}

impl PartialEq for Scalar {
    fn eq(&self, other: &Self) -> (r: bool) {
        dalek_eq(self, other)
    }
}

impl vstd::std_specs::cmp::PartialEqSpecImpl for Scalar {
    open spec fn obeys_eq_spec() -> bool {
        true
    }

    open spec fn eq_spec(&self, other: &Scalar) -> bool {
        self@ == other@
    }
}

} // verus!
