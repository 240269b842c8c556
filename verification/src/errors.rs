//! The error taxonomy shared by every ledger operation.

use vstd::prelude::*;

verus! {

/// Why a ledger operation was refused. Every operation validates fully before
/// mutating anything, and reports exactly one of these reasons on failure.
#[derive(Clone, Copy, PartialEq, Eq, Structural, Debug)]
pub enum MarketError {
    /// The caller lacks the role the operation demands.
    AuthorizationError,
    /// The referenced market or position does not exist.
    NotFoundError,
    /// Malformed input: an option count or index out of range.
    ValidationError,
    /// The operation is not valid for the market's current status.
    StateError,
    /// A required agent address has not been configured yet.
    ConfigError,
    /// The oracle reported that it failed to resolve the market.
    ExternalFailure,
    /// The callback's result payload could not be parsed.
    DecodeError,
    /// A payout division by zero, guarded explicitly.
    ArithmeticError,
}

} // verus!
