//! Recovery of a single-byte repeating XOR key.
//!
//! The library scores candidate plaintexts for English-text plausibility,
//! searches every candidate key byte for one ciphertext, and selects the
//! most plausible decryption out of a whole batch of hex-encoded lines.
//! Scores are fixed-point integers counted in hundred-thousandths, so they
//! are totally ordered and every ranking step is deterministic.
use vstd::prelude::*;

pub mod breaker;
pub mod hex;
pub mod rank;
pub mod score;
pub mod xor;

verus! {

/// The failures the library reports; no operation panics.
#[derive(Debug, Clone, Copy, PartialEq, Eq, Structural)]
pub enum XorError {
    /// Hex decoding failed: the input has odd length or a byte that is not
    /// a hex digit. The payload locates the failure; each function that
    /// returns this variant says in its contract what the index means.
    MalformedHex(usize),
    /// Fixed-length XOR was asked of two buffers of different lengths.
    LengthMismatch,
    /// Best-candidate selection was asked of an empty batch.
    EmptyBatch,
}

} // verus!
