//! Fiat-Shamir transcripts: bytes gathered in order, hashed with BLAKE3's
//! extendable output, and scratch buffers wiped with `zeroize`.
use vstd::prelude::*;
use zeroize::Zeroize;

verus! {

/// The declared `blake3::Hasher`: an incremental BLAKE3 hasher. Verus sees
/// nothing inside it; `hasher_setup` and `hasher_input` name its state.
#[verifier::external_type_specification]
#[verifier::external_body]
pub struct ExHasher(blake3::Hasher);

/// What a `blake3::Hasher` was made with: its eight key words, then its domain
/// flags, then its initial chunk counter. A `reset` or an `update` keeps it.
pub uninterp spec fn hasher_setup(h: blake3::Hasher) -> Seq<u64>;

/// The bytes a `blake3::Hasher` has absorbed since it was made or last reset.
pub uninterp spec fn hasher_input(h: blake3::Hasher) -> Seq<u8>;

/// The first 64 bytes of the BLAKE3 extendable output of `input`, hashed in
/// the mode that `setup` gives (key words and domain flags).
pub uninterp spec fn blake3_xof_64(setup: Seq<u64>, input: Seq<u8>) -> Seq<u8>;

/// The setup of `blake3::Hasher::new()`: the BLAKE3 IV as key words, no domain
/// flags, chunk counter 0.
pub open spec fn regular_setup() -> Seq<u64> {
    seq![
        0x6A09E667u64,
        0xBB67AE85u64,
        0x3C6EF372u64,
        0xA54FF53Au64,
        0x510E527Fu64,
        0x9B05688Cu64,
        0x1F83D9ABu64,
        0x5BE0CD19u64,
        0u64,
        0u64,
    ]
}

/// A hasher that starts at chunk 0, as every hasher does unless it was given
/// an input offset: `update` and `finalize_xof` do not panic on it.
pub open spec fn starts_at_zero(setup: Seq<u64>) -> bool {
    setup.len() == 10 && setup[9] == 0
}

/// 64 zero bytes.
pub open spec fn zero_block() -> Seq<u8> {
    Seq::new(64, |_i: int| 0u8)
}

/// `blake3::Hasher::new()`: a regular (unkeyed) hasher with nothing absorbed.
#[verifier::external_body]
pub(crate) fn hasher_new() -> (h: blake3::Hasher)
    ensures
        hasher_setup(h) == regular_setup(),
        hasher_input(h) == Seq::<u8>::empty(),
{
    blake3::Hasher::new()
}

/// `blake3::Hasher::update`: appends `bytes` to what the hasher absorbed and
/// keeps its key and mode.
#[verifier::external_body]
pub(crate) fn hasher_update(h: &mut blake3::Hasher, bytes: &Vec<u8>)
    requires
        starts_at_zero(hasher_setup(*old(h))),
    ensures
        hasher_setup(*final(h)) == hasher_setup(*old(h)),
        hasher_input(*final(h)) == hasher_input(*old(h)) + bytes@,
{
    h.update(bytes.as_slice());
}

/// `blake3::Hasher::reset`: forgets the absorbed input and keeps the key and
/// mode, as a new hasher made the same way.
#[verifier::external_body]
pub(crate) fn hasher_reset(h: &mut blake3::Hasher)
    ensures
        hasher_setup(*final(h)) == hasher_setup(*old(h)),
        hasher_input(*final(h)) == Seq::<u8>::empty(),
{
    h.reset();
}

/// `blake3::Hasher::finalize_xof` followed by `OutputReader::fill` of a 64-byte
/// buffer: the first 64 output bytes for what the hasher absorbed, in its mode.
/// The hasher itself is not changed.
#[verifier::external_body]
pub(crate) fn hasher_fill(h: &blake3::Hasher, buf: &mut [u8; 64])
    requires
        starts_at_zero(hasher_setup(*h)),
    ensures
        final(buf)@ == blake3_xof_64(hasher_setup(*h), hasher_input(*h)),
{
    h.finalize_xof().fill(buf);
}

/// `Zeroize::zeroize` of the zeroize crate on a 64-byte array: every byte is
/// overwritten with zero.
#[verifier::external_body]
pub(crate) fn wipe(buf: &mut [u8; 64])
    ensures
        final(buf)@ == zero_block(),
{
    buf.zeroize();
}

/// Appends 32 bytes to a transcript.
pub fn append_32(out: &mut Vec<u8>, bytes: &[u8; 32])
    ensures
        final(out)@ == old(out)@ + bytes@,
{
    let ghost start = out@;
    let mut i: usize = 0;
    while i < 32
        invariant
            0 <= i <= 32,
            out@ == start + bytes@.subrange(0, i as int),
        decreases 32 - i,
    {
        out.push(bytes[i]);
        proof {
            assert(bytes@.subrange(0, i as int + 1) =~= bytes@.subrange(0, i as int).push(
                bytes@[i as int],
            ));
        }
        i = i + 1;
    }
    assert(bytes@.subrange(0, 32) =~= bytes@);
}

} // verus!
