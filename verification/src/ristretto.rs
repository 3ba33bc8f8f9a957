//! Points of the Ristretto group, held by their canonical 32-byte encodings and
//! computed on by `curve25519_dalek`.
use crate::polynomial::{add_mod, scale_mod};
use crate::scalar::{group_order, Scalar};
use curve25519_dalek::ristretto::CompressedRistretto as DalekCompressed;
use curve25519_dalek::ristretto::RistrettoPoint as DalekPoint;
use curve25519_dalek::scalar::Scalar as DalekScalar;
use curve25519_dalek::traits::Identity;
use vstd::prelude::*;

verus! {

/// Whether `CompressedRistretto::decompress` of curve25519-dalek accepts the bytes.
pub uninterp spec fn ristretto_decodes(enc: Seq<u8>) -> bool;

/// The encoding of `P * s`, where `P` is the point that `enc` encodes and `s < ℓ`.
pub uninterp spec fn ristretto_mul(enc: Seq<u8>, s: nat) -> Seq<u8>;

/// The encoding of `P + Q` for the points that `p` and `q` encode.
pub uninterp spec fn ristretto_add(p: Seq<u8>, q: Seq<u8>) -> Seq<u8>;

/// The encoding of `P - Q` for the points that `p` and `q` encode.
pub uninterp spec fn ristretto_sub(p: Seq<u8>, q: Seq<u8>) -> Seq<u8>;

/// The encoding of `RistrettoPoint::from_uniform_bytes` of 64 bytes.
pub uninterp spec fn ristretto_from_uniform(bytes: Seq<u8>) -> Seq<u8>;

/// `bases[0] * c[0] + ... + bases[m-1] * c[m-1]`, added in that order to
/// the identity.
pub open spec fn combination(bases: Seq<Seq<u8>>, c: Seq<nat>, m: nat) -> Seq<u8>
    decreases m,
{
    if m == 0 {
        identity_encoding()
    } else {
        ristretto_add(combination(bases, c, (m - 1) as nat), ristretto_mul(bases[m - 1], c[m - 1]))
    }
}

/// The combination of all the bases with the coefficients `c`.
pub open spec fn lin_comb(bases: Seq<Seq<u8>>, c: Seq<nat>) -> Seq<u8> {
    combination(bases, c, bases.len())
}

/// Every encoding of the sequence decodes to a point.
pub open spec fn all_points(bases: Seq<Seq<u8>>) -> bool {
    forall|i: int| 0 <= i < bases.len() ==> ristretto_decodes(#[trigger] bases[i])
}

/// Every value of the sequence lies below ℓ.
pub open spec fn all_below_order(c: Seq<nat>) -> bool {
    forall|i: int| 0 <= i < c.len() ==> #[trigger] c[i] < group_order()
}

/// `n` coefficients, all zero but `s` at position `i`.
pub open spec fn unit_vector(n: nat, i: int, s: nat) -> Seq<nat> {
    Seq::new(n, |j: int| if j == i { s } else { 0 })
}

/// The 32 zero bytes: the encoding of the identity.
pub open spec fn identity_encoding() -> Seq<u8> {
    Seq::new(32, |_i: int| 0u8)
}

/// A 32-byte string, not necessarily the encoding of a point.
#[derive(Clone, Copy, Debug)]
pub struct CompressedRistretto(pub [u8; 32]);

impl View for CompressedRistretto {
    type V = Seq<u8>;

    open spec fn view(&self) -> Seq<u8> {
        self.0@
    }
}

/// A point of the Ristretto group, held by its canonical encoding.
#[derive(Clone, Copy, Debug)]
pub struct RistrettoPoint {
    enc: [u8; 32],
}

impl View for RistrettoPoint {
    type V = Seq<u8>;

    closed spec fn view(&self) -> Seq<u8> {
        self.enc@
    }
}

impl RistrettoPoint {
    /// The encoding decodes to a point, and multiplying that point by one leaves it.
    #[verifier::type_invariant]
    closed spec fn inv(self) -> bool {
        &&& ristretto_decodes(self.enc@)
        &&& ristretto_mul(self.enc@, 1) == self.enc@
    }
}

/// `CompressedRistretto::decompress` of curve25519-dalek. It accepts only
/// canonical encodings, so the point it gives back encodes to the same bytes.
#[verifier::external_body]
fn dalek_decompress(c: &CompressedRistretto) -> (r: Option<RistrettoPoint>)
    ensures
        r is Some <==> ristretto_decodes(c@),
        r is Some ==> r->0@ == c@,
{
    match DalekCompressed(c.0).decompress() {
        Some(p) => Some(RistrettoPoint { enc: p.compress().to_bytes() }),
        None => None,
    }
}

/// `RistrettoPoint::identity()` of curve25519-dalek, compressed: 32 zero bytes.
/// Every point times zero is the identity, and so is every combination of
/// points with zero coefficients.
#[verifier::external_body]
fn dalek_identity() -> (r: RistrettoPoint)
    ensures
        r@ == identity_encoding(),
        forall|x: Seq<u8>| #![trigger ristretto_mul(x, 0)] ristretto_decodes(x) ==> ristretto_mul(x, 0) == r@,
        forall|b: Seq<Seq<u8>>, c: Seq<nat>|
            #![trigger lin_comb(b, c)]
            all_points(b) && c.len() == b.len() && (forall|i: int| 0 <= i < c.len() ==> c[i] == 0)
                ==> lin_comb(b, c) == r@,
{
    RistrettoPoint { enc: DalekPoint::identity().compress().to_bytes() }
}

/// `RistrettoPoint::from_uniform_bytes` of curve25519-dalek.
#[verifier::external_body]
fn dalek_from_uniform_bytes(bytes: &[u8; 64]) -> (r: RistrettoPoint)
    ensures
        r@ == ristretto_from_uniform(bytes@),
{
    RistrettoPoint { enc: DalekPoint::from_uniform_bytes(bytes).compress().to_bytes() }
}

/// `&RistrettoPoint * &Scalar` of curve25519-dalek. Ristretto is a group of
/// prime order ℓ, so multiplying by scalars composes by multiplying them, and
/// distributes over their sum, modulo ℓ; a combination of points times `s` is
/// the combination with every coefficient times `s`, and one of the points
/// times `s` is the combination with `s` at its place and zeros elsewhere.
#[verifier::external_body]
fn dalek_mul(p: &RistrettoPoint, s: &Scalar) -> (r: RistrettoPoint)
    ensures
        r@ == ristretto_mul(p@, s@),
        forall|x: Seq<u8>, a: nat|
            #![trigger ristretto_mul(x, a)]
            a < group_order() && ristretto_decodes(x) && p@ == ristretto_mul(x, a) ==> r@
                == ristretto_mul(x, (a * s@) % group_order()),
        forall|b: nat|
            #![trigger ristretto_mul(r@, b)]
            b < group_order() ==> ristretto_mul(r@, b) == ristretto_mul(
                p@,
                (s@ * b) % group_order(),
            ),
        forall|a: nat, b: nat|
            #![trigger ristretto_mul(p@, a), ristretto_mul(p@, b)]
            a < group_order() && b < group_order() && (a + b) % group_order() == s@ ==> r@
                == ristretto_add(ristretto_mul(p@, a), ristretto_mul(p@, b)),
        forall|b: Seq<Seq<u8>>, a: Seq<nat>|
            #![trigger lin_comb(b, a)]
            all_points(b) && a.len() == b.len() && all_below_order(a) && p@ == lin_comb(b, a)
                ==> r@ == lin_comb(b, scale_mod(a, s@)),
        forall|b: Seq<Seq<u8>>, i: int|
            #![trigger lin_comb(b, unit_vector(b.len(), i, s@))]
            all_points(b) && 0 <= i < b.len() && b[i] == p@ ==> r@ == lin_comb(
                b,
                unit_vector(b.len(), i, s@),
            ),
{
    let q = DalekCompressed(p.enc).decompress().unwrap();
    let k = DalekScalar::from_bytes_mod_order(s.bytes);
    RistrettoPoint { enc: (q * k).compress().to_bytes() }
}

/// `&RistrettoPoint + &RistrettoPoint` of curve25519-dalek. The group is
/// commutative, so two multiples of one point add to the multiple by the sum
/// of the scalars, and two combinations of the same points add coefficient by
/// coefficient, modulo ℓ.
#[verifier::external_body]
fn dalek_add(p: &RistrettoPoint, q: &RistrettoPoint) -> (r: RistrettoPoint)
    ensures
        r@ == ristretto_add(p@, q@),
        forall|x: Seq<u8>, a: nat, b: nat|
            #![trigger ristretto_mul(x, a), ristretto_mul(x, b)]
            ristretto_decodes(x) && a < group_order() && b < group_order() && p@ == ristretto_mul(
                x,
                a,
            ) && q@ == ristretto_mul(x, b) ==> r@ == ristretto_mul(x, (a + b) % group_order()),
        forall|b: Seq<Seq<u8>>, a1: Seq<nat>, a2: Seq<nat>|
            #![trigger lin_comb(b, a1), lin_comb(b, a2)]
            all_points(b) && a1.len() == b.len() && a2.len() == b.len() && all_below_order(a1)
                && all_below_order(a2) && p@ == lin_comb(b, a1) && q@ == lin_comb(b, a2) ==> r@
                == lin_comb(b, add_mod(a1, a2)),
{
    let x = DalekCompressed(p.enc).decompress().unwrap();
    let y = DalekCompressed(q.enc).decompress().unwrap();
    RistrettoPoint { enc: (x + y).compress().to_bytes() }
}

/// `&RistrettoPoint - &RistrettoPoint` of curve25519-dalek: in a group, the
/// difference `P - Q` is the one point `W` with `W + Q = P`.
#[verifier::external_body]
fn dalek_sub(p: &RistrettoPoint, q: &RistrettoPoint) -> (r: RistrettoPoint)
    ensures
        r@ == ristretto_sub(p@, q@),
        forall|w: Seq<u8>|
            #![trigger ristretto_add(w, q@)]
            ristretto_decodes(w) && ristretto_add(w, q@) == p@ ==> r@ == w,
{
    let x = DalekCompressed(p.enc).decompress().unwrap();
    let y = DalekCompressed(q.enc).decompress().unwrap();
    RistrettoPoint { enc: (x - y).compress().to_bytes() }
}

impl CompressedRistretto {
    /// The point these bytes encode, if they are a canonical encoding.
    pub fn decompress(&self) -> (r: Option<RistrettoPoint>)
        ensures
            r is Some <==> ristretto_decodes(self@),
            r is Some ==> r->0@ == self@,
    {
        dalek_decompress(self)
    }

    /// The encoding of the identity: 32 zero bytes.
    pub fn identity() -> (r: CompressedRistretto)
        ensures
            r@ == identity_encoding(),
    {
        let r = CompressedRistretto([0u8; 32]);
        assert(r@ =~= identity_encoding());
        r
    }

    /// The bytes.
    pub fn as_bytes(&self) -> (r: &[u8; 32])
        ensures
            r@ == self@,
    {
        &self.0
    }
}

impl RistrettoPoint {
    /// The identity of the group.
    pub fn identity() -> (r: RistrettoPoint)
        ensures
            r@ == identity_encoding(),
            forall|x: Seq<u8>|
                #![trigger ristretto_mul(x, 0)]
                ristretto_decodes(x) ==> ristretto_mul(x, 0) == r@,

            forall|b: Seq<Seq<u8>>, c: Seq<nat>|
                #![trigger lin_comb(b, c)]
                all_points(b) && c.len() == b.len() && (forall|i: int| 0 <= i < c.len() ==> c[i] == 0)
                    ==> lin_comb(b, c) == r@,
    {
        dalek_identity()
    }

    /// The point that `RistrettoPoint::from_uniform_bytes` maps 64 bytes to.
    pub fn from_uniform_bytes(bytes: &[u8; 64]) -> (r: RistrettoPoint)
        ensures
            r@ == ristretto_from_uniform(bytes@),
    {
        dalek_from_uniform_bytes(bytes)
    }

    /// The encoding decodes to a point, and multiplying that point by one
    /// gives it back.
    pub fn check_valid(&self)
        ensures
            ristretto_decodes(self@),
            ristretto_mul(self@, 1) == self@,
    {
        proof {
            use_type_invariant(self);
        }
    }

    /// Every point of the list decodes.
    pub fn check_all_valid(v: &Vec<RistrettoPoint>)
        ensures
            all_points(point_encodings(v@)),
    {
        let mut i: usize = 0;
        while i < v.len()
            invariant
                i <= v@.len(),
                forall|j: int| 0 <= j < i ==> ristretto_decodes(#[trigger] v@[j]@),
            decreases v@.len() - i,
        {
            v[i].check_valid();
            i = i + 1;
        }
    }

    /// The canonical encoding.
    pub fn compress(&self) -> (r: CompressedRistretto)
        ensures
            r@ == self@,
    {
        CompressedRistretto(self.enc)
    }

    /// Scalar multiplication. Multiplying again composes by multiplying the
    /// scalars, and the product distributes over any split of the scalar.
    pub fn mul(&self, s: &Scalar) -> (r: RistrettoPoint)
        ensures
            r@ == ristretto_mul(self@, s@),
            forall|x: Seq<u8>, a: nat|
                #![trigger ristretto_mul(x, a)]
                a < group_order() && ristretto_decodes(x) && self@ == ristretto_mul(x, a) ==> r@
                    == ristretto_mul(x, (a * s@) % group_order()),
            forall|b: nat|
                #![trigger ristretto_mul(r@, b)]
                b < group_order() ==> ristretto_mul(r@, b) == ristretto_mul(
                    self@,
                    (s@ * b) % group_order(),
                ),
            forall|a: nat, b: nat|
                #![trigger ristretto_mul(self@, a), ristretto_mul(self@, b)]
                a < group_order() && b < group_order() && (a + b) % group_order() == s@ ==> r@
                    == ristretto_add(ristretto_mul(self@, a), ristretto_mul(self@, b)),

            forall|b: Seq<Seq<u8>>, a: Seq<nat>|
                #![trigger lin_comb(b, a)]
                all_points(b) && a.len() == b.len() && all_below_order(a) && self@ == lin_comb(b, a)
                    ==> r@ == lin_comb(b, scale_mod(a, s@)),
            forall|b: Seq<Seq<u8>>, i: int|
                #![trigger lin_comb(b, unit_vector(b.len(), i, s@))]
                all_points(b) && 0 <= i < b.len() && b[i] == self@ ==> r@ == lin_comb(
                    b,
                    unit_vector(b.len(), i, s@),
                ),
    {
        dalek_mul(self, s)
    }

    /// Group addition: multiples of one point add by adding the scalars.
    pub fn add(&self, other: &RistrettoPoint) -> (r: RistrettoPoint)
        ensures
            r@ == ristretto_add(self@, other@),
            forall|x: Seq<u8>, a: nat, b: nat|
                #![trigger ristretto_mul(x, a), ristretto_mul(x, b)]
                ristretto_decodes(x) && a < group_order() && b < group_order() && self@
                    == ristretto_mul(x, a) && other@ == ristretto_mul(x, b) ==> r@ == ristretto_mul(
                    x,
                    (a + b) % group_order(),
                ),
            forall|b: Seq<Seq<u8>>, a1: Seq<nat>, a2: Seq<nat>|
                #![trigger lin_comb(b, a1), lin_comb(b, a2)]
                all_points(b) && a1.len() == b.len() && a2.len() == b.len() && all_below_order(a1)
                    && all_below_order(a2) && self@ == lin_comb(b, a1) && other@ == lin_comb(b, a2) ==> r@
                    == lin_comb(b, add_mod(a1, a2)),
    {
        dalek_add(self, other)
    }

    /// Group subtraction: the one point that added to `other` gives `self`.
    pub fn sub(&self, other: &RistrettoPoint) -> (r: RistrettoPoint)
        ensures
            r@ == ristretto_sub(self@, other@),
            forall|w: Seq<u8>|
                #![trigger ristretto_add(w, other@)]
                ristretto_decodes(w) && ristretto_add(w, other@) == self@ ==> r@ == w,
    {
        dalek_sub(self, other)
    }
}


/// The encodings of a sequence of points.
pub open spec fn point_encodings(s: Seq<RistrettoPoint>) -> Seq<Seq<u8>> {
    s.map_values(|p: RistrettoPoint| p@)
}

/// The byte strings of a sequence of compressed points.
pub open spec fn compressed_encodings(s: Seq<CompressedRistretto>) -> Seq<Seq<u8>> {
    s.map_values(|c: CompressedRistretto| c@)
}

/// Every byte string of the sequence decodes to a point.
pub open spec fn all_decode(s: Seq<CompressedRistretto>) -> bool {
    forall|i: int| 0 <= i < s.len() ==> ristretto_decodes(#[trigger] s[i]@)
}

/// Position `i` holds the first byte string of `s` that does not decode.
pub open spec fn first_undecodable(s: Seq<CompressedRistretto>, i: int) -> bool {
    &&& 0 <= i < s.len()
    &&& !ristretto_decodes(s[i]@)
    &&& forall|j: int| 0 <= j < i ==> ristretto_decodes(#[trigger] s[j]@)
}

} // verus!
