//! The reasons for which the market refuses an operation.

use vstd::prelude::*;

verus! {

/// Why an operation of the market was refused.
#[derive(Copy, Clone, Debug, PartialEq, Eq, Structural)]
pub enum Error {
    /// The oracle had no price sample for the requested asset and time.
    NoPrice,
    /// The stake exceeds the balance available to the participant.
    InsufficientFunds,
    /// The stake is zero or negative.
    InvalidAmount,
    /// No round exists under the requested number.
    NoActiveRound,
    /// The round has already been settled.
    RoundAlreadySettled,
    /// The round's window does not allow the operation at this time.
    BettingClosed,
    /// The escrow holds less than a settlement has to pay out at once.
    InsufficientPoolFunds,
}

} // verus!
