//! Stake-weighted commit-reveal voting with sortition-based juror selection.
//!
//! The crate has four components: an identity registry that maps external
//! account names to dense integer user ids, a stake ledger that records
//! one-time juror stakes per (subject, staker) pair and burns the staked
//! tokens, a sortition selector that draws a bounded jury by weighted
//! sampling without replacement from a subject's stake pool, and an
//! independent commit-reveal election with phase gating and hash-bound
//! ballots.

#![verifier::loop_isolation(false)]

pub mod election;
pub mod errors;
pub mod hashing;
pub mod maps;
pub mod sampling;
pub mod sortition;
pub mod validation;
