//! Typed engine errors: one variant per reason the engine rejects a move.

use vstd::prelude::*;

verus! {

#[derive(Debug, Clone, PartialEq, Eq)]
pub enum EngineError {
    /// A move was submitted by a seat that isn't on turn.
    NotYourTurn,
    /// The move type doesn't match the current phase (e.g., bid during play).
    WrongPhase,
    /// A played card isn't legal under the 45s follow-suit/trump rules.
    IllegalCard,
    /// A played card isn't actually in the player's hand.
    CardNotInHand,
    /// Bid value isn't one of {15, 20, 25, 30, 60} or doesn't exceed current bid.
    InvalidBid,
    /// Discard count violates the rules (e.g., >3 in 6-player, or non-kept trump).
    InvalidDiscard,
    /// Trump declaration happened in a seat/phase where it isn't allowed.
    InvalidTrumpDeclare,
    /// An internal consistency check failed.
    Invariant(&'static str),
}

/// The human-readable description of an error.
pub open spec fn error_text(e: EngineError) -> Seq<char> {
    match e {
        EngineError::NotYourTurn => "not your turn"@,
        EngineError::WrongPhase => "wrong phase for this move"@,
        EngineError::IllegalCard => "illegal card under 45s rules"@,
        EngineError::CardNotInHand => "card not in hand"@,
        EngineError::InvalidBid => "invalid bid"@,
        EngineError::InvalidDiscard => "invalid discard"@,
        EngineError::InvalidTrumpDeclare => "invalid trump declaration"@,
        EngineError::Invariant(s) => "engine invariant violated: "@ + s@,
    }
}

impl EngineError {
    /// Human-readable description of the error.
    pub fn message(&self) -> (m: String)
        ensures
            m@ == error_text(*self),
    {
        match self {
            EngineError::NotYourTurn => String::from_str("not your turn"),
            EngineError::WrongPhase => String::from_str("wrong phase for this move"),
            EngineError::IllegalCard => String::from_str("illegal card under 45s rules"),
            EngineError::CardNotInHand => String::from_str("card not in hand"),
            EngineError::InvalidBid => String::from_str("invalid bid"),
            EngineError::InvalidDiscard => String::from_str("invalid discard"),
            EngineError::InvalidTrumpDeclare => String::from_str("invalid trump declaration"),
            EngineError::Invariant(s) => {
                let mut m = String::from_str("engine invariant violated: ");
                m.append(s);
                m
            },
        }
    }
}

} // verus!
