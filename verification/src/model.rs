//! The engine's state as plain mathematical values, and the rules of play
//! stated over them.

use vstd::prelude::*;
use crate::action::{Action, RuleError};
use crate::card::{standard_deck_spec, Card};
use crate::event::Event;
use crate::score::hand_score;
use crate::state::{
    grid_card_seq, grid_face_up, DrawSource, HoleState, MatchState, Phase, PlayerState, Seat, Slot,
    TurnState,
};

verus! {

// ---------------------------------------------------------------------------
// Mathematical model.

/// A hole as plain values: the deck and discard pile (top = last), each
/// seat's six slots, whose turn it is and how far that turn has got.
#[verifier::ext_equal]
pub struct HoleModel {
    pub deck: Seq<Card>,
    pub discard: Seq<Card>,
    pub grids: Seq<Seq<Slot>>,
    pub current: Seat,
    pub turn: TurnState,
}

#[verifier::ext_equal]
pub enum PhaseModel {
    Playing,
    HoleComplete { scores: Seq<i32> },
    MatchComplete { winners: Seq<Seat> },
}

impl HoleState {
    pub open spec fn model(&self) -> HoleModel {
        HoleModel {
            deck: self.deck@,
            discard: self.discard@,
            grids: self.players@.map_values(|p: PlayerState| p.grid@),
            current: self.current,
            turn: self.turn,
        }
    }
}

impl Phase {
    pub open spec fn model(&self) -> PhaseModel {
        match self {
            Phase::Playing => PhaseModel::Playing,
            Phase::HoleComplete { scores } => PhaseModel::HoleComplete { scores: scores@ },
            Phase::MatchComplete { winners } => PhaseModel::MatchComplete { winners: winners@ },
        }
    }
}

/// The cards of every grid, seat after seat (slot `s` of seat `p` at
/// position `6 * p + s`).
pub open spec fn grid_cards(grids: Seq<Seq<Slot>>) -> Seq<Card> {
    Seq::new(6 * grids.len(), |i: int| grids[i / 6][i % 6].card)
}

/// The card held in the turn state, if any.
pub open spec fn drawn_cards(turn: TurnState) -> Seq<Card> {
    match turn {
        TurnState::AwaitDraw => Seq::empty(),
        TurnState::AwaitFlip { drawn, .. } => seq![drawn],
        TurnState::AwaitResolve { drawn, .. } => seq![drawn],
    }
}

/// Every card of the hole: deck, discard pile, grids, and the drawn card.
pub open spec fn hole_cards(h: HoleModel) -> Seq<Card> {
    h.deck + h.discard + grid_cards(h.grids) + drawn_cards(h.turn)
}

/// The hole dealt from the shuffled deck `d`: cards are popped from the top
/// (the end) of `d`, six per seat in seat order, then one onto the discard
/// pile; bottom-row slots are known to their owner.
pub open spec fn dealt_from(d: Seq<Card>, n: nat, start: Seat) -> HoleModel {
    HoleModel {
        deck: d.subrange(0, 51 - 6 * n),
        discard: seq![d[51 - 6 * n]],
        grids: Seq::new(
            n,
            |p: int|
                Seq::new(
                    6,
                    |s: int| Slot { card: d[51 - (6 * p + s)], face_up: false, known_to_owner: s >= 3 },
                ),
        ),
        current: start,
        turn: TurnState::AwaitDraw,
    }
}

/// `h` is a fresh deal for `n` seats starting at `start` from some shuffle
/// of the standard deck.
pub open spec fn is_fresh_deal(h: HoleModel, n: nat, start: Seat) -> bool {
    exists|d: Seq<Card>|
        d.len() == 52 && d.to_multiset() == standard_deck_spec().to_multiset() && h
            == #[trigger] dealt_from(d, n, start)
}


/// A match as plain values (the configuration and the generator aside).
#[verifier::ext_equal]
pub struct MatchModel {
    pub hole_number: u8,
    pub totals: Seq<i32>,
    pub history: Seq<Seq<i32>>,
    pub hole: HoleModel,
    pub phase: PhaseModel,
}

impl MatchState {
    pub open spec fn model(&self) -> MatchModel {
        MatchModel {
            hole_number: self.hole_number,
            totals: self.totals@,
            history: self.score_history@.map_values(|v: Vec<i32>| v@),
            hole: self.hole.model(),
            phase: self.phase.model(),
        }
    }

    /// Number of seats at the table.
    pub open spec fn seats(&self) -> nat {
        self.config.seats@.len()
    }
}

// ---------------------------------------------------------------------------
// Counting face-down cards.

/// 1 if the slot is face down, else 0.
pub open spec fn down(s: Slot) -> int {
    if s.face_up {
        0
    } else {
        1
    }
}

/// Number of face-down slots of a six-slot grid.
pub open spec fn face_down(g: Seq<Slot>) -> int {
    down(g[0]) + down(g[1]) + down(g[2]) + down(g[3]) + down(g[4]) + down(g[5])
}

pub open spec fn face_down_at(grids: Seq<Seq<Slot>>, p: int) -> int {
    if 0 <= p < grids.len() {
        face_down(grids[p])
    } else {
        0
    }
}

/// Number of face-down slots at a table of at most four seats.
pub open spec fn total_face_down(grids: Seq<Seq<Slot>>) -> int {
    face_down_at(grids, 0) + face_down_at(grids, 1) + face_down_at(grids, 2) + face_down_at(
        grids,
        3,
    )
}

/// Every card at the table is face up.
pub open spec fn all_up(grids: Seq<Seq<Slot>>) -> bool {
    forall|p: int| 0 <= p < grids.len() ==> grid_face_up(#[trigger] grids[p])
}

// ---------------------------------------------------------------------------
// Scores and winners.

/// The hand score of every seat.
pub open spec fn hole_scores(grids: Seq<Seq<Slot>>) -> Seq<i32> {
    Seq::new(grids.len(), |p: int| hand_score(grid_card_seq(grids[p])) as i32)
}

/// Seat-wise sum of the running totals and a hole's scores.
pub open spec fn add_scores(totals: Seq<i32>, scores: Seq<i32>) -> Seq<i32> {
    Seq::new(totals.len(), |i: int| (totals[i] + scores[i]) as i32)
}

/// Sum of the first `k` recorded holes for seat `s`.
pub open spec fn column_sum(history: Seq<Seq<i32>>, s: int, k: int) -> int
    decreases k,
{
    if k <= 0 {
        0
    } else {
        column_sum(history, s, k - 1) + history[k - 1][s]
    }
}

/// The lowest of the first `k` totals.
pub open spec fn min_upto(totals: Seq<i32>, k: int) -> i32
    decreases k,
{
    if k <= 1 {
        totals[0]
    } else {
        let m = min_upto(totals, k - 1);
        if totals[k - 1] < m {
            totals[k - 1]
        } else {
            m
        }
    }
}

/// The lowest total.
pub open spec fn best_total(totals: Seq<i32>) -> i32 {
    min_upto(totals, totals.len() as int)
}

/// The seats among the first `k` whose total is `best`, in seat order.
pub open spec fn seats_with(totals: Seq<i32>, best: i32, k: int) -> Seq<Seat>
    decreases k,
{
    if k <= 0 {
        Seq::empty()
    } else {
        let w = seats_with(totals, best, k - 1);
        if totals[k - 1] == best {
            w.push((k - 1) as u8)
        } else {
            w
        }
    }
}

/// The seats with the lowest total, in seat order.
pub open spec fn winners_of(totals: Seq<i32>) -> Seq<Seat> {
    seats_with(totals, best_total(totals), totals.len() as int)
}

// ---------------------------------------------------------------------------
// Refusals.

/// Why `action` for the current seat is refused in the hole `h`, if it is.
pub open spec fn turn_error(h: HoleModel, action: Action) -> Option<RuleError> {
    match (h.turn, action) {
        (TurnState::AwaitDraw, Action::DrawFromDeck) => None,
        (TurnState::AwaitDraw, Action::TakeDiscard) => None,
        (TurnState::AwaitFlip { .. }, Action::Flip { slot }) => {
            if slot >= 6 {
                Some(RuleError::BadSlot)
            } else if h.grids[h.current as int][slot as int].face_up {
                Some(RuleError::SlotFrozen)
            } else {
                None
            }
        },
        (TurnState::AwaitResolve { .. }, Action::Swap) => None,
        (TurnState::AwaitResolve { .. }, Action::Keep) => None,
        _ => Some(RuleError::WrongPhase),
    }
}

/// Why `actor` may not take `action` in match `m`, if it may not.
pub open spec fn rule_error(m: MatchModel, n: nat, actor: Seat, action: Action) -> Option<RuleError> {
    if actor >= n {
        Some(RuleError::BadSeat)
    } else {
        match m.phase {
            PhaseModel::MatchComplete { .. } => Some(RuleError::MatchOver),
            PhaseModel::HoleComplete { .. } => {
                if action is NextHole {
                    None
                } else {
                    Some(RuleError::WrongPhase)
                }
            },
            PhaseModel::Playing => {
                if actor != m.hole.current {
                    Some(RuleError::NotYourTurn)
                } else {
                    turn_error(m.hole, action)
                }
            },
        }
    }
}

// ---------------------------------------------------------------------------
// Turn steps.

/// Replace slot `s` of seat `p`.
pub open spec fn set_slot(grids: Seq<Seq<Slot>>, p: int, s: int, slot: Slot) -> Seq<Seq<Slot>> {
    grids.update(p, grids[p].update(s, slot))
}

/// End of a turn: the hole ends when every card is face up (its scores are
/// added to the totals and recorded), otherwise the next seat is up.
pub open spec fn finish_step(m: MatchModel, n: nat) -> MatchModel {
    let h = HoleModel { turn: TurnState::AwaitDraw, ..m.hole };
    if all_up(h.grids) {
        let scores = hole_scores(h.grids);
        MatchModel {
            hole: h,
            totals: add_scores(m.totals, scores),
            history: m.history.push(scores),
            phase: PhaseModel::HoleComplete { scores },
            ..m
        }
    } else {
        MatchModel { hole: HoleModel { current: ((h.current + 1) % (n as int)) as u8, ..h }, ..m }
    }
}

/// The match after the current seat takes the (allowed) turn action.
pub open spec fn turn_step(m: MatchModel, n: nat, action: Action) -> MatchModel {
    let h = m.hole;
    let c = h.current as int;
    match (h.turn, action) {
        (TurnState::AwaitDraw, Action::DrawFromDeck) => MatchModel {
            hole: HoleModel {
                deck: h.deck.drop_last(),
                turn: TurnState::AwaitFlip { drawn: h.deck.last(), source: DrawSource::Deck },
                ..h
            },
            ..m
        },
        (TurnState::AwaitDraw, Action::TakeDiscard) => MatchModel {
            hole: HoleModel {
                discard: h.discard.drop_last(),
                turn: TurnState::AwaitFlip { drawn: h.discard.last(), source: DrawSource::Discard },
                ..h
            },
            ..m
        },
        (TurnState::AwaitFlip { drawn, source }, Action::Flip { slot }) => MatchModel {
            hole: HoleModel {
                grids: set_slot(h.grids, c, slot as int, Slot { face_up: true, ..h.grids[c][slot as int] }),
                turn: TurnState::AwaitResolve { drawn, source, flipped: slot },
                ..h
            },
            ..m
        },
        (TurnState::AwaitResolve { drawn, flipped, .. }, Action::Swap) => {
            let old = h.grids[c][flipped as int];
            finish_step(
                MatchModel {
                    hole: HoleModel {
                        grids: set_slot(h.grids, c, flipped as int, Slot { card: drawn, ..old }),
                        discard: h.discard.push(old.card),
                        ..h
                    },
                    ..m
                },
                n,
            )
        },
        (TurnState::AwaitResolve { drawn, .. }, Action::Keep) => finish_step(
            MatchModel { hole: HoleModel { discard: h.discard.push(drawn), ..h }, ..m },
            n,
        ),
        _ => m,
    }
}

/// The event announcing the end of a turn in `after`.
pub open spec fn finish_event(after: MatchModel, e: Event) -> bool {
    match after.phase {
        PhaseModel::HoleComplete { scores } => e matches Event::HoleEnded { hole, scores: s, totals: t } && hole
            == after.hole_number && s@ == scores && t@ == after.totals,
        _ => e == Event::TurnStarted { seat: after.hole.current },
    }
}

/// The events a turn action in `m` produces.
pub open spec fn turn_events(m: MatchModel, n: nat, action: Action, ev: Seq<Event>) -> bool {
    let h = m.hole;
    let c = h.current;
    let after = turn_step(m, n, action);
    match (h.turn, action) {
        (TurnState::AwaitDraw, Action::DrawFromDeck) => ev == seq![
            Event::DrewFromDeck { seat: c, card: h.deck.last() },
        ],
        (TurnState::AwaitDraw, Action::TakeDiscard) => ev == seq![
            Event::TookDiscard { seat: c, card: h.discard.last() },
        ],
        (TurnState::AwaitFlip { .. }, Action::Flip { slot }) => ev == seq![
            Event::Flipped { seat: c, slot, card: h.grids[c as int][slot as int].card },
        ],
        (TurnState::AwaitResolve { drawn, flipped, .. }, Action::Swap) => {
            &&& ev.len() == 2
            &&& ev[0] == Event::Swapped {
                seat: c,
                slot: flipped,
                placed: drawn,
                discarded: h.grids[c as int][flipped as int].card,
            }
            &&& finish_event(after, ev[1])
        },
        (TurnState::AwaitResolve { drawn, flipped, .. }, Action::Keep) => {
            &&& ev.len() == 2
            &&& ev[0] == Event::Kept { seat: c, slot: flipped, discarded: drawn }
            &&& finish_event(after, ev[1])
        },
        _ => false,
    }
}

/// The match after its last hole's scoreboard is dismissed.
pub open spec fn end_step(m: MatchModel) -> MatchModel {
    MatchModel { phase: PhaseModel::MatchComplete { winners: winners_of(m.totals) }, ..m }
}

/// The starting seat of hole `hole` (1-based) at a table of `n` seats.
pub open spec fn starting_seat(hole: int, n: nat) -> int {
    (hole - 1) % (n as int)
}

// ---------------------------------------------------------------------------
// Who wins.

proof fn lemma_min_upto(totals: Seq<i32>, k: int)
    requires
        1 <= k <= totals.len(),
    ensures
        forall|j: int| 0 <= j < k ==> min_upto(totals, k) <= #[trigger] totals[j],
        exists|i: int| 0 <= i < k && min_upto(totals, k) == #[trigger] totals[i],
    decreases k,
{
    if k > 1 {
        lemma_min_upto(totals, k - 1);
        if totals[k - 1] >= min_upto(totals, k - 1) {
            let i = choose|i: int| 0 <= i < k - 1 && min_upto(totals, k - 1) == #[trigger] totals[i];
            assert(totals[i] == min_upto(totals, k));
        } else {
            assert(totals[k - 1] == min_upto(totals, k));
        }
    } else {
        assert(totals[0] == min_upto(totals, k));
    }
}

proof fn lemma_seats_with(totals: Seq<i32>, best: i32, k: int)
    requires
        0 <= k <= totals.len() <= 256,
    ensures
        forall|i: int|
            0 <= i < seats_with(totals, best, k).len() ==> {
                &&& (#[trigger] seats_with(totals, best, k)[i]) < k
                &&& totals[seats_with(totals, best, k)[i] as int] == best
            },
        forall|i: int, j: int|
            0 <= i < j < seats_with(totals, best, k).len() ==> seats_with(totals, best, k)[i]
                < seats_with(totals, best, k)[j],
        forall|s: int| 0 <= s < k && #[trigger] totals[s] == best ==> seats_with(totals, best, k).contains(s as u8),
    decreases k,
{
    if k > 0 {
        lemma_seats_with(totals, best, k - 1);
        let w = seats_with(totals, best, k - 1);
        if totals[k - 1] == best {
            assert(seats_with(totals, best, k) == w.push((k - 1) as u8));
            assert(seats_with(totals, best, k)[w.len() as int] == (k - 1) as u8);
            assert forall|s: int| 0 <= s < k && #[trigger] totals[s] == best implies seats_with(
                totals,
                best,
                k,
            ).contains(s as u8) by {
                if s < k - 1 {
                    let i = choose|i: int| 0 <= i < w.len() && w[i] == s as u8;
                    assert(seats_with(totals, best, k)[i] == s as u8);
                }
            }
        }
    }
}

/// Seat `s` has the lowest total.
pub open spec fn has_lowest(totals: Seq<i32>, s: int) -> bool {
    0 <= s < totals.len() && forall|j: int| 0 <= j < totals.len() ==> totals[s] <= #[trigger] totals[j]
}

/// The lowest total wins: the winners are exactly the seats whose total is
/// lowest, each once, in seat order, and there is at least one.
pub proof fn lemma_winners_are_lowest(totals: Seq<i32>)
    requires
        1 <= totals.len() <= 256,
    ensures
        winners_of(totals).len() >= 1,
        forall|i: int, j: int|
            0 <= i < winners_of(totals).len() && 0 <= j < totals.len() ==> {
                &&& (#[trigger] winners_of(totals)[i]) < totals.len()
                &&& totals[winners_of(totals)[i] as int] <= #[trigger] totals[j]
            },
        forall|i: int, j: int|
            0 <= i < j < winners_of(totals).len() ==> winners_of(totals)[i] < winners_of(totals)[j],
        forall|s: int| #[trigger] has_lowest(totals, s) ==> winners_of(totals).contains(s as u8),
{
    let n = totals.len() as int;
    lemma_min_upto(totals, n);
    lemma_seats_with(totals, best_total(totals), n);
    let i = choose|i: int| 0 <= i < n && min_upto(totals, n) == #[trigger] totals[i];
    assert(winners_of(totals).contains(i as u8));
    assert forall|s: int| #[trigger] has_lowest(totals, s) implies winners_of(totals).contains(s as u8) by {
        assert(totals[s] <= totals[i]);
        assert(totals[s] == best_total(totals));
    }
}

} // verus!
