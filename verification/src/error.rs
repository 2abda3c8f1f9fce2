//! The ways in which an operation of this library can fail.

use vstd::prelude::*;

verus! {

/// Why a scheme refused to be built or to do its work.
#[derive(Debug, Clone, Copy, PartialEq, Eq, Structural)]
pub enum SharingError {
    /// The threshold exceeds the number of shares, the modulus is not positive,
    /// or the parameters leave no polynomial to draw.
    ConfigurationError,
    /// The secret is not below the modulus (or cannot be committed to).
    SecretOutOfRange,
    /// Fewer shares than the threshold were offered for reconstruction.
    InsufficientShares,
}

} // verus!
