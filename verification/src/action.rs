//! Player actions and the ways an action can be refused.

use vstd::prelude::*;
use crate::state::SlotIdx;

verus! {

#[derive(Debug, Clone, Copy, PartialEq, Eq, Structural)]
pub enum Action {
    /// Flip the top card of the deck (public).
    DrawFromDeck,
    /// Take the top card of the discard pile.
    TakeDiscard,
    /// Flip one of your own face-down cards.
    Flip { slot: SlotIdx },
    /// Place the drawn card in the flipped slot; the flipped card is discarded.
    Swap,
    /// Keep the flipped card; the drawn card is discarded.
    Keep,
    /// Advance from the hole scoreboard to the next hole (or end the match).
    NextHole,
}

#[derive(Debug, Clone, Copy, PartialEq, Eq, Structural)]
pub enum RuleError {
    /// Not your turn.
    NotYourTurn,
    /// That action is not valid right now.
    WrongPhase,
    /// No such seat.
    BadSeat,
    /// No such card slot.
    BadSlot,
    /// That card is already face up.
    SlotFrozen,
    /// The match is over.
    MatchOver,
}

impl RuleError {
    /// The sentence a player is shown for this refusal.
    pub open spec fn message_spec(self) -> Seq<char> {
        match self {
            RuleError::NotYourTurn => "not your turn"@,
            RuleError::WrongPhase => "that action is not valid right now"@,
            RuleError::BadSeat => "no such seat"@,
            RuleError::BadSlot => "no such card slot"@,
            RuleError::SlotFrozen => "that card is already face up"@,
            RuleError::MatchOver => "the match is over"@,
        }
    }

    pub fn message(self) -> (s: &'static str)
        ensures
            s@ == self.message_spec(),
    {
        match self {
            RuleError::NotYourTurn => "not your turn",
            RuleError::WrongPhase => "that action is not valid right now",
            RuleError::BadSeat => "no such seat",
            RuleError::BadSlot => "no such card slot",
            RuleError::SlotFrozen => "that card is already face up",
            RuleError::MatchOver => "the match is over",
        }
    }
}

} // verus!
