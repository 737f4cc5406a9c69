//! Error taxonomy: input errors are the caller's fault and recoverable;
//! invariant violations mean the internal state is unusable and the current
//! operation must be abandoned loudly.

use vstd::prelude::*;

verus! {

/// Everything that can go wrong in the evaluation and settlement core.
#[derive(Clone, Copy, Debug, PartialEq, Eq, Structural)]
pub enum PokerError {
    /// The rank string or rank number does not name one of the 13 card ranks,
    /// or a hand rank lies outside 1..=7462.
    InvalidRank,
    /// The suit string or suit bit does not name one of the 4 suits.
    InvalidSuit,
    /// A hand was not made of 5, 6 or 7 cards.
    InvalidHandSize,
    /// A lookup key that a correctly built table must contain was absent.
    CorruptTable,
    /// A side pot had contributors, but none of them appears in any ranked
    /// player group.
    NoWinnerForPot,
}

impl PokerError {
    /// Display name of the error, for callers that report it.
    pub fn as_str(&self) -> (r: &'static str)
        ensures
            *self is InvalidRank ==> r@ == "invalid rank"@,
            *self is InvalidSuit ==> r@ == "invalid suit"@,
            *self is InvalidHandSize ==> r@ == "invalid hand size"@,
            *self is CorruptTable ==> r@ == "corrupt lookup table"@,
            *self is NoWinnerForPot ==> r@ == "no winner for pot"@,
    {
        match self {
            PokerError::InvalidRank => "invalid rank",
            PokerError::InvalidSuit => "invalid suit",
            PokerError::InvalidHandSize => "invalid hand size",
            PokerError::CorruptTable => "corrupt lookup table",
            PokerError::NoWinnerForPot => "no winner for pot",
        }
    }
}

} // verus!
