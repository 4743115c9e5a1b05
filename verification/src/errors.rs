//! Failure kinds returned by the ledger, patronage, transfer and payout
//! operations, and by the content record helpers.

use vstd::prelude::*;

verus! {

/// A rejected ledger, patronage, transfer or payout operation.
///
/// Every operation validates all of its preconditions before mutating any
/// state and returns the first violated precondition's error, so a failure
/// always leaves the state exactly as it was.
#[derive(Clone, Copy, PartialEq, Eq, Structural, Debug)]
pub enum TokenError {
    /// A balance or issuance increase would exceed the representable maximum.
    Overflow,
    /// A debit, slash, reserve or transfer asks for more than the free balance holds.
    InsufficientBalance,
    /// An unreserve asks for more than the reserved balance holds.
    InsufficientReservedBalance,
    /// A token cannot be deissued while an account still holds a nonzero balance.
    TokenStillInUse,
    /// The token being operated on is not registered.
    TokenDoesNotExist,
    /// A deposit into an existing account found no account with a nonzero holding.
    AccountDoesNotExist,
    /// A transfer destination failed the token's transfer-policy validation.
    InvalidDestination,
    /// A patronage rate reduction asked to subtract more than the current rate.
    TargetPatronageRateIsHigherThanCurrentRate,
    /// A payout claim's Merkle proof does not reconstruct the committed root.
    InvalidPayoutProof,
    /// A payout claim's requested cumulative total does not exceed the stored one.
    PayoutCumulativeAmountDoesNotIncrease,
}

/// A rejected content record operation.
#[derive(Clone, Copy, PartialEq, Eq, Structural, Debug)]
pub enum ContentError {
    /// The channel's censorship status is already the requested one.
    ChannelCensorshipStatusDidNotChange,
    /// The video's censorship status is already the requested one.
    VideoCensorshipStatusDidNotChange,
    /// An NFT has already been issued for the video.
    NftAlreadyExists,
    /// No NFT has been issued for the video.
    NftDoesNotExist,
}

} // verus!
