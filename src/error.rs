use vstd::prelude::*;

verus! {

/// Player identifiers are 1-based seat numbers.
pub type PlayerID = usize;

/// Everything that the library can reject.
#[derive(Debug, Clone, PartialEq, Eq)]
pub enum Error {
    BadPlayerID(PlayerID),
    DeadPlayerID(PlayerID),
    ParsePolicyError(String),
    ParseRoleError(String),
    ParseNameError(String),
    TooLongPatternError { have: usize, requested: usize },
    TooShortPatternError { have: usize, requested: usize },
    LogicalInconsistency,
    BadPlayerCount(usize),
    BadFactIndex(usize),
    NotEligibleChancellor(PlayerID),
    NotEligiblePresident(PlayerID),
    BadExecutable(String),
    MissingArgument,
}

} // verus!
