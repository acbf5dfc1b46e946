//! The kinds of failure that the library reports.

use vstd::prelude::*;

verus! {

/// A failure of the library, by kind.
#[derive(Clone, Copy, Debug, PartialEq, Eq, Structural)]
pub enum HtpError {
    /// Bad version, bad timestamp, malformed or oversized request.
    Protocol,
    /// Two forms whose first coefficients share a factor were composed.
    NonCoprimeForms,
    /// An affine `P` would exceed its bit budget.
    StateBloat,
    /// No prime was found for an identifier within the attempt budget.
    PrimeSearchExhausted,
    /// No discriminant was found for a seed within the attempt budget.
    SetupExhausted,
    /// The tensor holds as many entries as it may.
    CapacityReached,
    /// A transport or persistence failure.
    Io,
    /// A value asked for is absent.
    NotFound,
    /// The parameters of a structure are out of range.
    InvalidParameters,
}

} // verus!
