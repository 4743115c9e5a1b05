//! Accounting and authorization core of a multi-asset ledger: per-token,
//! per-account balances split into free and reserved portions, a
//! time-decaying patronage credit on outstanding supply claimable by the
//! issuer, policy-gated transfers (single and one-to-many), and
//! Merkle-proof-backed cumulative payout claims.
//!
//! Every operation is a single deterministic step that either completes
//! fully or leaves all state unchanged; the central invariant is
//! conservation — each registered token's `total_issuance` equals the sum
//! of `free + reserved` over all of that token's accounts.

pub mod content;
pub mod errors;
pub mod hashing;
pub mod ledger;
pub mod patronage;
pub mod payout;
pub mod rate;
pub mod store;
pub mod transfer;
