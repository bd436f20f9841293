//! The error taxonomy shared by all components. Every failing operation
//! aborts before any state mutation is committed and reports one of these
//! kinds together with a human-readable message.

use vstd::prelude::*;

verus! {

#[derive(Clone, Copy, Debug, PartialEq, Eq, Structural)]
pub enum Error {
    AlreadyInitialized,
    UnknownIdentity,
    ProfileAlreadyExists,
    DuplicateStake,
    InsufficientBalance,
    PhaseViolation,
    DuplicateCommitment,
    UnknownCommitment,
    AlreadyRevealed,
    HashMismatch,
    MalformedBallot,
    UnknownCandidate,
    EmptyPool,
    NoSelection,
    NoStakeForSubject,
    UnknownStaker,
}

impl Error {
    /// The human-readable message for this error kind.
    pub fn message(&self) -> (r: &'static str)
        ensures
            r@ == Self::spec_message(*self),
    {
        match self {
            Error::AlreadyInitialized => "Already initialized",
            Error::UnknownIdentity => "User id doesnot exist for AccountId",
            Error::ProfileAlreadyExists => "Voter profile already exists",
            Error::DuplicateStake => "You have already staked",
            Error::InsufficientBalance => "Not enough balance to burn",
            Error::PhaseViolation => "Operation is not allowed in the current phase",
            Error::DuplicateCommitment => "Vote commit is already done",
            Error::UnknownCommitment => "Vote with this commit was not cast",
            Error::AlreadyRevealed => "The vote was already casted",
            Error::HashMismatch => "Vote hash doesn't match the vote commit",
            Error::MalformedBallot => "Ballot doesn't name a candidate",
            Error::UnknownCandidate => "Candidate id doesnot exist",
            Error::EmptyPool => "There are no juries",
            Error::NoSelection => "No selected jurors",
            Error::NoStakeForSubject => "No one has staked for the voter",
            Error::UnknownStaker => "This juror has not staked for the voter",
        }
    }

    pub open spec fn spec_message(e: Error) -> Seq<char> {
        match e {
            Error::AlreadyInitialized => "Already initialized"@,
            Error::UnknownIdentity => "User id doesnot exist for AccountId"@,
            Error::ProfileAlreadyExists => "Voter profile already exists"@,
            Error::DuplicateStake => "You have already staked"@,
            Error::InsufficientBalance => "Not enough balance to burn"@,
            Error::PhaseViolation => "Operation is not allowed in the current phase"@,
            Error::DuplicateCommitment => "Vote commit is already done"@,
            Error::UnknownCommitment => "Vote with this commit was not cast"@,
            Error::AlreadyRevealed => "The vote was already casted"@,
            Error::HashMismatch => "Vote hash doesn't match the vote commit"@,
            Error::MalformedBallot => "Ballot doesn't name a candidate"@,
            Error::UnknownCandidate => "Candidate id doesnot exist"@,
            Error::EmptyPool => "There are no juries"@,
            Error::NoSelection => "No selected jurors"@,
            Error::NoStakeForSubject => "No one has staked for the voter"@,
            Error::UnknownStaker => "This juror has not staked for the voter"@,
        }
    }
}

} // verus!
