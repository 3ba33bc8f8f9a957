//! Publicly verifiable secret sharing over the Ristretto group: a batched
//! Pedersen-style dealer and the parties of a PVSS round with DLEQ share proofs.
pub mod scalar;
pub mod ristretto;
pub mod threshold;
pub mod error;
pub mod transcript;
pub mod randomness;
pub mod polynomial;
pub mod utils;
pub mod dealer;
pub mod decryption;
pub mod dleq;
pub mod dealing;
pub mod party;
