//! The errors of the wallet's operations.
use vstd::prelude::*;

verus! {

/// Why an operation did not produce a value.
#[derive(Debug, Clone, Copy, PartialEq, Eq, Structural)]
pub enum Error {
    /// Public derivation was asked for a hardened index.
    InvalidDerivation,
    /// The bytes do not hold a well-formed address.
    MalformedAddress,
    /// The bytes do not hold a well-formed transaction or transaction part.
    MalformedTransaction,
    /// A key, seed, signature or hash has the wrong size, or a public key is
    /// not a curve point.
    MalformedKey,
    /// An address is well formed but its checksum does not match.
    ChecksumMismatch,
    /// An amount exceeds the maximum coin supply.
    CoinTooLarge,
}

} // verus!
