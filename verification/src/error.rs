//! Failures that market operations report.

use vstd::prelude::*;

verus! {

/// Why an operation on the market was refused.
///
/// An operation that fails leaves the market exactly as it found it.
#[derive(Clone, Copy, Debug, PartialEq, Eq, Structural)]
pub enum MarketError {
    /// A balance is too small for the requested debit or lock.
    InsufficientFunds,
    /// An exact-out swap could not deliver the requested amount.
    Slippage,
    /// No seat or order answers to the given key.
    NotFound,
    /// The seat has no position, or its equity covers the maintenance margin.
    NotLiquidatable,
    /// The oracle record is malformed, not trading, or no mark price exists.
    InvalidOracle,
    /// An exact result does not fit the integer type that must hold it.
    Overflow,
    /// The block pool has no free block left.
    Capacity,
    /// An argument is outside the domain of the operation.
    InvalidArgument,
    /// The order's last valid slot has already passed.
    Expired,
}

} // verus!
