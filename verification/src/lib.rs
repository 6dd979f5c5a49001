//! Protocol core of a stake-weighted distributed-key-generation (DKG) and
//! threshold-decryption scheme over pairing-friendly curves.
//!
//! The crate covers the deterministic combinatorial and algebraic heart of the
//! protocol: partitioning the secret-sharing domain among validators in
//! proportion to stake, aggregating and verifying per-dealer verifiable
//! secret-sharing transcripts, computing Lagrange coefficients for
//! interpolation at the origin, and combining pairing-based decryption shares
//! into the shared secret. Field and group arithmetic is supplied by an
//! external arithmetic library and reached only through narrow trusted
//! wrappers.

pub mod gt;
pub mod lagrange;
pub mod partition;
pub mod pvss;
pub mod scalar;

use vstd::prelude::*;

verus! {

/// Failure kinds of the protocol core.
///
/// `Arithmetic` marks a violated numeric precondition (weight-adjustment
/// underflow, a repeated or zero interpolation point); `LengthMismatch` marks
/// an arity mismatch between sequences that must correspond positionally;
/// `VerificationError` marks cryptographic material that fails a consistency
/// check.
#[derive(Clone, Copy, Debug, PartialEq, Eq, Structural)]
pub enum Error {
    Arithmetic,
    LengthMismatch,
    VerificationError,
}

} // verus!
