# pvss

Verified batched publicly verifiable secret sharing over the Ristretto group.

- `dealer`: a Pedersen-style dealer that shares several secrets at once and
  commits to every coefficient, blinded by a random polynomial.
- `party`: a PVSS party. It checks the dealer's proof over the encrypted
  shares, decrypts its own share, proves the decryption with a DLEQ proof, and
  checks the other parties' proofs.
- `dealing`, `decryption`, `dleq`: the transcripts, the checks and the laws
  behind those steps. For example, an honest dealing passes the check, a share
  encrypted under a public key decrypts to the generator times the share, and
  an honest DLEQ proof is accepted.
- `scalar`, `ristretto`, `transcript`, `randomness`: scalars modulo ℓ, points
  held by their canonical encodings, BLAKE3 transcripts and random draws, all
  computed by `curve25519-dalek`, `blake3`, `zeroize` and `rand`.
- `polynomial`, `utils`, `threshold`: polynomial evaluation with precomputed
  powers, batched sharing and decoding, and the `f32` threshold rule that
  parties check, computed in integers.

`app/` converts between this crate's types and `curve25519_dalek`'s, and holds
the error messages.
