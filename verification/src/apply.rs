//! The engine's single mutation entry point: validating and applying an
//! action.

use vstd::prelude::*;
use crate::action::{Action, RuleError};
use crate::card::Card;
use crate::event::Event;
use crate::model::{
    down, drawn_cards, face_down, hole_cards, set_slot, total_face_down,
    add_scores, all_up, hole_scores, MatchModel, end_step, finish_event, finish_step, is_fresh_deal, min_upto, rule_error, seats_with,
    starting_seat, turn_error, turn_events, turn_step, winners_of, HoleModel, PhaseModel,
};
use crate::score::{lemma_hand_score_bounds, score_hand};
use crate::state::{
    deal_hole, grid_card_seq, grid_face_up, DrawSource, MatchState, Phase, PlayerState, Seat, Slot, TurnState, GRID_SIZE,
};
use crate::wellformed::{
    lemma_end_wf, lemma_fresh_deal_discard, lemma_next_hole_wf, lemma_totals_bounds,
    lemma_cards_distinct, lemma_turn_step_wf, lemma_wf_can_draw, model_wf, next_hole_step,
};

verus! {

/// What `MatchState::apply` does: `after` and the result `r` are what
/// applying `action` for `actor` to `before` gives. A refused action leaves
/// the match unchanged and names the rule it broke; otherwise the match
/// steps as the rules say and the events tell what happened.
pub open spec fn applied(
    before: MatchState,
    actor: Seat,
    action: Action,
    after: MatchState,
    r: Result<Vec<Event>, RuleError>,
) -> bool {
    let m = before.model();
    let n = before.seats();
    &&& after.wf()
    &&& after.config == before.config
    &&& r is Err <==> rule_error(m, n, actor, action) is Some
    &&& r matches Err(e) ==> rule_error(m, n, actor, action) == Some(e) && after == before
    &&& r is Ok && m.phase is Playing ==> after.model() == turn_step(m, n, action) && after.rng
        == before.rng
    &&& r matches Ok(events) ==> (m.phase is Playing ==> turn_events(m, n, action, events@))
    &&& r matches Ok(events) ==> (m.phase is HoleComplete && before.hole_number
        >= before.config.holes ==> {
        &&& after.model() == end_step(m)
        &&& after.rng == before.rng
        &&& events@.len() == 1
        &&& events@[0] matches Event::MatchEnded { totals, winners } && totals@ == before.totals@
            && winners@ == winners_of(before.totals@)
    })
    &&& r matches Ok(events) ==> (m.phase is HoleComplete && before.hole_number
        < before.config.holes ==> {
        let start = starting_seat(before.hole_number + 1, n) as u8;
        &&& is_fresh_deal(after.hole.model(), n, start)
        &&& after.model() == next_hole_step(m, after.hole.model())
        &&& events@ == seq![
            Event::HoleDealt {
                hole: (before.hole_number + 1) as u8,
                starting_seat: start,
                discard_start: after.hole.discard@.last(),
            },
            Event::TurnStarted { seat: start },
        ]
    })
}

impl MatchState {
    /// Validate and apply an action for `actor`, returning the public events
    /// it produced. This is the engine's single mutation entry point.
    pub fn apply(&mut self, actor: Seat, action: Action) -> (r: Result<Vec<Event>, RuleError>)
        requires
            old(self).wf(),
        ensures
            final(self).wf(),
            applied(*old(self), actor, action, *final(self), r),
    {
        if actor as usize >= self.num_seats() {
            return Err(RuleError::BadSeat);
        }
        match self.phase {
            Phase::MatchComplete { .. } => Err(RuleError::MatchOver),
            Phase::HoleComplete { .. } => match action {
                Action::NextHole => Ok(self.next_hole()),
                _ => Err(RuleError::WrongPhase),
            },
            Phase::Playing => {
                if actor != self.hole.current {
                    return Err(RuleError::NotYourTurn);
                }
                self.apply_turn_action(action)
            },
        }
    }

    fn apply_turn_action(&mut self, action: Action) -> (r: Result<Vec<Event>, RuleError>)
        requires
            old(self).wf(),
            old(self).model().phase is Playing,
        ensures
            final(self).wf(),
            final(self).config == old(self).config,
            r is Err <==> turn_error(old(self).model().hole, action) is Some,
            r matches Err(e) ==> turn_error(old(self).model().hole, action) == Some(e) && *final(self) == *old(self),
            r is Ok ==> final(self).model() == turn_step(
                old(self).model(),
                old(self).seats(),
                action,
            ) && final(self).rng == old(self).rng,
            r matches Ok(events) ==> turn_events(
                old(self).model(),
                old(self).seats(),
                action,
                events@,
            ),
    {
        match (self.hole.turn, action) {
            (TurnState::AwaitDraw, Action::DrawFromDeck) => Ok(self.draw(action)),
            (TurnState::AwaitDraw, Action::TakeDiscard) => Ok(self.draw(action)),
            (TurnState::AwaitFlip { .. }, Action::Flip { slot }) => self.flip(slot),
            (TurnState::AwaitResolve { .. }, Action::Swap) => Ok(self.resolve(action)),
            (TurnState::AwaitResolve { .. }, Action::Keep) => Ok(self.resolve(action)),
            _ => Err(RuleError::WrongPhase),
        }
    }

    /// Draw from the deck or take the discard.
    fn draw(&mut self, action: Action) -> (events: Vec<Event>)
        requires
            old(self).wf(),
            old(self).model().phase is Playing,
            old(self).hole.turn is AwaitDraw,
            action is DrawFromDeck || action is TakeDiscard,
        ensures
            final(self).wf(),
            final(self).config == old(self).config,
            final(self).rng == old(self).rng,
            final(self).model() == turn_step(old(self).model(), old(self).seats(), action),
            turn_events(old(self).model(), old(self).seats(), action, events@),
    {
        let ghost m0 = self.model();
        let ghost n = self.seats();
        let seat = self.hole.current;
        proof {
            lemma_wf_can_draw(m0, n, self.config.holes);
            lemma_turn_step_wf(m0, n, self.config.holes, action);
        }
        if let Action::DrawFromDeck = action {
            // 4 players consume at most 25 (deal) + 24 (draws) of 52 cards.
            let card = self.hole.deck.pop().unwrap();
            self.hole.turn = TurnState::AwaitFlip { drawn: card, source: DrawSource::Deck };
            proof {
                assert(self.model() =~= turn_step(m0, n, action));
            }
            let ev = vec![Event::DrewFromDeck { seat, card }];
            assert(ev@ =~= seq![Event::DrewFromDeck { seat, card }]);
            ev
        } else {
            // Seeded at deal and every turn ends with a discard.
            let card = self.hole.discard.pop().unwrap();
            self.hole.turn = TurnState::AwaitFlip { drawn: card, source: DrawSource::Discard };
            proof {
                assert(self.model() =~= turn_step(m0, n, action));
            }
            let ev = vec![Event::TookDiscard { seat, card }];
            assert(ev@ =~= seq![Event::TookDiscard { seat, card }]);
            ev
        }
    }

    /// Flip one of the current seat's face-down cards.
    fn flip(&mut self, slot: u8) -> (r: Result<Vec<Event>, RuleError>)
        requires
            old(self).wf(),
            old(self).model().phase is Playing,
            old(self).hole.turn is AwaitFlip,
        ensures
            final(self).wf(),
            final(self).config == old(self).config,
            r is Err <==> turn_error(old(self).model().hole, Action::Flip { slot }) is Some,
            r matches Err(e) ==> turn_error(old(self).model().hole, Action::Flip { slot }) == Some(e) && *final(self) == *old(self),
            r is Ok ==> final(self).model() == turn_step(
                old(self).model(),
                old(self).seats(),
                Action::Flip { slot },
            ) && final(self).rng == old(self).rng,
            r matches Ok(events) ==> turn_events(
                old(self).model(),
                old(self).seats(),
                Action::Flip { slot },
                events@,
            ),
    {
        let ghost m0 = self.model();
        let ghost n = self.seats();
        let seat = self.hole.current;
        let (drawn, source) = match self.hole.turn {
            TurnState::AwaitFlip { drawn, source } => (drawn, source),
            _ => {
                proof {
                    assert(false);
                }
                return Err(RuleError::WrongPhase);
            },
        };
        assert(m0.hole.grids[seat as int] == self.hole.players@[seat as int].grid@);
        if slot as usize >= self.hole.players[seat as usize].grid.len() {
            return Err(RuleError::BadSlot);
        }
        if self.hole.players[seat as usize].grid[slot as usize].face_up {
            return Err(RuleError::SlotFrozen);
        }
        proof {
            lemma_turn_step_wf(m0, n, self.config.holes, Action::Flip { slot });
        }
        self.hole.players[seat as usize].grid[slot as usize].face_up = true;
        let card = self.hole.players[seat as usize].grid[slot as usize].card;
        self.hole.turn = TurnState::AwaitResolve { drawn, source, flipped: slot };
        proof {
            assert(self.model().hole.grids =~= turn_step(m0, n, Action::Flip { slot }).hole.grids);
            assert(self.model() =~= turn_step(m0, n, Action::Flip { slot }));
        }
        let ev = vec![Event::Flipped { seat, slot, card }];
        assert(ev@ =~= seq![Event::Flipped { seat, slot, card }]);
        Ok(ev)
    }

    /// Swap the drawn card into the flipped slot, or keep the flipped card;
    /// either way one card goes to the discard pile and the turn ends.
    fn resolve(&mut self, action: Action) -> (events: Vec<Event>)
        requires
            old(self).wf(),
            old(self).model().phase is Playing,
            old(self).hole.turn is AwaitResolve,
            action is Swap || action is Keep,
        ensures
            final(self).wf(),
            final(self).config == old(self).config,
            final(self).rng == old(self).rng,
            final(self).model() == turn_step(old(self).model(), old(self).seats(), action),
            turn_events(old(self).model(), old(self).seats(), action, events@),
    {
        let ghost m0 = self.model();
        let ghost n = self.seats();
        let seat = self.hole.current;
        let (drawn, flipped) = match self.hole.turn {
            TurnState::AwaitResolve { drawn, flipped, .. } => (drawn, flipped),
            _ => {
                proof {
                    assert(false);
                }
                (self.hole.deck[0], 0)
            },
        };
        proof {
            lemma_totals_bounds(m0, n, self.config.holes);
            lemma_turn_step_wf(m0, n, self.config.holes, action);
            assert(m0.hole.grids[seat as int] == self.hole.players@[seat as int].grid@);
        }
        let mut events = if let Action::Swap = action {
            let discarded = self.hole.players[seat as usize].grid[flipped as usize].card;
            self.hole.players[seat as usize].grid[flipped as usize].card = drawn;
            self.hole.discard.push(discarded);
            vec![Event::Swapped { seat, slot: flipped, placed: drawn, discarded }]
        } else {
            self.hole.discard.push(drawn);
            vec![Event::Kept { seat, slot: flipped, discarded: drawn }]
        };
        let ghost pre = self.model();
        proof {
            if action is Swap {
                assert(pre.hole.grids =~= crate::model::set_slot(
                    m0.hole.grids,
                    seat as int,
                    flipped as int,
                    crate::state::Slot { card: drawn, ..m0.hole.grids[seat as int][flipped as int] },
                ));
            }
            if action is Swap {
                let old = m0.hole.grids[seat as int][flipped as int];
                assert(pre =~= (MatchModel {
                    hole: HoleModel {
                        grids: crate::model::set_slot(
                            m0.hole.grids,
                            seat as int,
                            flipped as int,
                            crate::state::Slot { card: drawn, ..old },
                        ),
                        discard: m0.hole.discard.push(old.card),
                        ..m0.hole
                    },
                    ..m0
                }));
            } else {
                assert(pre =~= (MatchModel {
                    hole: HoleModel { discard: m0.hole.discard.push(drawn), ..m0.hole },
                    ..m0
                }));
            }
            assert(turn_step(m0, n, action) == finish_step(pre, n));
        }
        let mut fin = self.finish_turn();
        events.append(&mut fin);
        events
    }

    fn finish_turn(&mut self) -> (ev: Vec<Event>)
        requires
            2 <= old(self).seats() <= 4,
            old(self).model().phase is Playing,
            old(self).hole.players@.len() == old(self).seats(),
            old(self).totals@.len() == old(self).seats(),
            old(self).hole.current < old(self).seats(),
            forall|p: int|
                0 <= p < old(self).seats() ==> (#[trigger] old(self).hole.players@[p]).grid@.len()
                    == GRID_SIZE,
            forall|s: int|
                0 <= s < old(self).seats() ==> -12 * 255 <= #[trigger] old(self).totals@[s] <= 60
                    * 255,
        ensures
            final(self).model() == finish_step(old(self).model(), old(self).seats()),
            final(self).config == old(self).config,
            final(self).rng == old(self).rng,
            ev@.len() == 1,
            finish_event(final(self).model(), ev@[0]),
    {
        let ghost m0 = self.model();
        let ghost n = self.seats();
        self.hole.turn = TurnState::AwaitDraw;
        if all_players_face_up(&self.hole.players) {
            let scores = hole_scores_of(&self.hole.players);
            add_scores_to(&mut self.totals, &scores);
            let recorded = scores.clone();
            assert(recorded@ =~= scores@);
            self.score_history.push(recorded);
            let reported = scores.clone();
            assert(reported@ =~= scores@);
            let totals = self.totals.clone();
            assert(totals@ =~= self.totals@);
            let event = Event::HoleEnded { hole: self.hole_number, scores: reported, totals };
            self.phase = Phase::HoleComplete { scores };
            proof {
                assert(self.model() =~= finish_step(m0, n));
            }
            vec![event]
        } else {
            self.hole.current = (self.hole.current + 1) % (self.num_seats() as Seat);
            proof {
                assert(self.model() =~= finish_step(m0, n));
            }
            vec![Event::TurnStarted { seat: self.hole.current }]
        }
    }

    fn next_hole(&mut self) -> (ev: Vec<Event>)
        requires
            old(self).wf(),
            old(self).model().phase is HoleComplete,
        ensures
            final(self).wf(),
            final(self).config == old(self).config,
            old(self).hole_number >= old(self).config.holes ==> {
                &&& final(self).model() == end_step(old(self).model())
                &&& final(self).rng == old(self).rng
                &&& ev@.len() == 1
                &&& ev@[0] matches Event::MatchEnded { totals, winners } && totals@ == old(self).totals@ && winners@ == winners_of(old(self).totals@)
            },
            old(self).hole_number < old(self).config.holes ==> {
                let start = starting_seat(old(self).hole_number + 1, old(self).seats()) as u8;
                &&& is_fresh_deal(final(self).hole.model(), old(self).seats(), start)
                &&& final(self).model() == next_hole_step(old(self).model(), final(self).hole.model())
                &&& ev@ == seq![
                    Event::HoleDealt {
                        hole: (old(self).hole_number + 1) as u8,
                        starting_seat: start,
                        discard_start: final(self).hole.discard@.last(),
                    },
                    Event::TurnStarted { seat: start },
                ]
            },
    {
        let ghost m0 = self.model();
        let ghost n = self.seats();
        if self.hole_number >= self.config.holes {
            let mut best = self.totals[0];
            let mut i: usize = 1;
            while i < self.totals.len()
                invariant
                    1 <= i <= self.totals@.len(),
                    self.totals@ == m0.totals,
                    best == min_upto(m0.totals, i as int),
                decreases self.totals@.len() - i,
            {
                if self.totals[i] < best {
                    best = self.totals[i];
                }
                i += 1;
            }
            let mut winners: Vec<Seat> = Vec::new();
            let mut i: usize = 0;
            while i < self.totals.len()
                invariant
                    i <= self.totals@.len(),
                    self.totals@.len() <= 4,
                    self.totals@ == m0.totals,
                    winners@ == seats_with(m0.totals, best, i as int),
                decreases self.totals@.len() - i,
            {
                if self.totals[i] == best {
                    winners.push(i as Seat);
                }
                i += 1;
            }
            let listed = winners.clone();
            assert(listed@ =~= winners@);
            self.phase = Phase::MatchComplete { winners: listed };
            proof {
                assert(self.model() =~= end_step(m0));
                lemma_end_wf(m0, n, self.config.holes);
            }
            let totals = self.totals.clone();
            assert(totals@ =~= self.totals@);
            vec![Event::MatchEnded { totals, winners }]
        } else {
            self.hole_number += 1;
            let num_seats = self.num_seats();
            let starting = ((self.hole_number as usize - 1) % num_seats) as Seat;
            self.hole = deal_hole(&mut self.rng, num_seats, starting);
            self.phase = Phase::Playing;
            proof {
                lemma_fresh_deal_discard(self.hole.model(), n, starting);
                assert(self.model() =~= next_hole_step(m0, self.hole.model()));
                lemma_next_hole_wf(m0, n, self.config.holes, self.hole.model());
            }
            let discard_start = self.hole.discard[self.hole.discard.len() - 1];
            vec![
                Event::HoleDealt { hole: self.hole_number, starting_seat: starting, discard_start },
                Event::TurnStarted { seat: starting },
            ]
        }
    }
}

/// Every card at the table is face up.
fn all_players_face_up(players: &Vec<PlayerState>) -> (r: bool)
    ensures
        r == all_up(players@.map_values(|p: PlayerState| p.grid@)),
{
    let ghost grids = players@.map_values(|p: PlayerState| p.grid@);
    let mut p: usize = 0;
    while p < players.len()
        invariant
            p <= players@.len(),
            grids == players@.map_values(|p: PlayerState| p.grid@),
            forall|q: int| 0 <= q < p ==> grid_face_up(#[trigger] grids[q]),
        decreases players@.len() - p,
    {
        assert(grids[p as int] == players@[p as int].grid@);
        if !players[p].all_face_up() {
            return false;
        }
        p += 1;
    }
    true
}

/// The hand score of every seat.
fn hole_scores_of(players: &Vec<PlayerState>) -> (r: Vec<i32>)
    requires
        forall|p: int| 0 <= p < players@.len() ==> (#[trigger] players@[p]).grid@.len() == GRID_SIZE,
    ensures
        r@ == hole_scores(players@.map_values(|p: PlayerState| p.grid@)),
        forall|p: int| 0 <= p < r@.len() ==> -12 <= #[trigger] r@[p] <= 60,
{
    let ghost grids = players@.map_values(|p: PlayerState| p.grid@);
    let mut scores: Vec<i32> = Vec::new();
    let mut q: usize = 0;
    while q < players.len()
        invariant
            q <= players@.len(),
            grids == players@.map_values(|p: PlayerState| p.grid@),
            forall|p: int| 0 <= p < players@.len() ==> (#[trigger] players@[p]).grid@.len() == GRID_SIZE,
            scores@ == hole_scores(grids).subrange(0, q as int),
            forall|p: int| 0 <= p < scores@.len() ==> -12 <= #[trigger] scores@[p] <= 60,
        decreases players@.len() - q,
    {
        let cards = players[q].cards();
        let s = score_hand(&cards);
        assert(grids[q as int] == players@[q as int].grid@);
        scores.push(s);
        assert(scores@ =~= hole_scores(grids).subrange(0, q + 1));
        q += 1;
    }
    assert(scores@ =~= hole_scores(grids));
    scores
}

/// Add a hole's scores to the running totals, seat by seat.
fn add_scores_to(totals: &mut Vec<i32>, scores: &Vec<i32>)
    requires
        old(totals)@.len() == scores@.len(),
        forall|s: int| 0 <= s < scores@.len() ==> -12 <= #[trigger] scores@[s] <= 60,
        forall|s: int| 0 <= s < scores@.len() ==> -12 * 255 <= #[trigger] old(totals)@[s] <= 60 * 255,
    ensures
        final(totals)@ == add_scores(old(totals)@, scores@),
{
    let ghost t0 = totals@;
    let mut i: usize = 0;
    while i < totals.len()
        invariant
            totals@.len() == t0.len(),
            t0.len() == scores@.len(),
            i <= t0.len(),
            forall|j: int| 0 <= j < i ==> #[trigger] totals@[j] == add_scores(t0, scores@)[j],
            forall|j: int| i <= j < t0.len() ==> #[trigger] totals@[j] == t0[j],
            forall|s: int| 0 <= s < scores@.len() ==> -12 <= #[trigger] scores@[s] <= 60,
            forall|s: int| 0 <= s < t0.len() ==> -12 * 255 <= #[trigger] t0[s] <= 60 * 255,
        decreases t0.len() - i,
    {
        totals[i] = totals[i] + scores[i];
        i += 1;
    }
    assert(totals@ =~= add_scores(t0, scores@));
}

// ---------------------------------------------------------------------------
// Laws of a turn.

/// A face-up card is frozen: an accepted action during play leaves every
/// face-up slot face up, holding the same card (the one exception being the
/// slot flipped this very turn, which a swap may still fill).
pub proof fn lemma_face_up_cards_stay(
    before: MatchState,
    actor: Seat,
    action: Action,
    after: MatchState,
    r: Result<Vec<Event>, RuleError>,
    o: int,
    s: int,
)
    requires
        before.wf(),
        applied(before, actor, action, after, r),
        r is Ok,
        before.model().phase is Playing,
        0 <= o < before.seats(),
        0 <= s < 6,
        before.model().hole.grids[o][s].face_up,
    ensures
        after.model().hole.grids[o][s].face_up,
        !(before.model().hole.turn matches TurnState::AwaitResolve { flipped, .. } && o
            == before.model().hole.current && s == flipped) ==> after.model().hole.grids[o][s]
            == before.model().hole.grids[o][s],
{
    let m = before.model();
    let n = before.seats();
    let h = m.hole;
    let c = h.current as int;
    assert(after.model() == turn_step(m, n, action));
    assert(rule_error(m, n, actor, action) is None);
    match (h.turn, action) {
        (TurnState::AwaitFlip { drawn, source }, Action::Flip { slot }) => {
            assert(!h.grids[c][slot as int].face_up);
            assert(o != c || s != slot);
        },
        _ => {},
    }
}

/// A card turns face up only by being flipped: after an accepted action
/// during play, a slot that was face down is face up only if the action
/// was the current seat flipping that very slot; no face-up slot ever turns
/// back face down.
pub proof fn lemma_only_flipped_slot_turns_up(
    before: MatchState,
    actor: Seat,
    action: Action,
    after: MatchState,
    r: Result<Vec<Event>, RuleError>,
    o: int,
    s: int,
)
    requires
        before.wf(),
        applied(before, actor, action, after, r),
        r is Ok,
        before.model().phase is Playing,
        0 <= o < before.seats(),
        0 <= s < 6,
        !before.model().hole.grids[o][s].face_up,
        after.model().hole.grids[o][s].face_up,
    ensures
        o == before.model().hole.current,
        action matches Action::Flip { slot } && s == slot,
{
    let m = before.model();
    let n = before.seats();
    let h = m.hole;
    let c = h.current as int;
    assert(after.model() == turn_step(m, n, action));
    assert(rule_error(m, n, actor, action) is None);
    match (h.turn, action) {
        (TurnState::AwaitResolve { drawn, flipped, .. }, Action::Swap) => {
            assert(flipped < 6);
            if o == c && s == flipped {
                assert(h.grids[c][flipped as int].face_up);
            }
        },
        _ => {},
    }
}

/// Replacing one slot changes the face-down count by what it replaced.
proof fn lemma_total_after_set(g: Seq<Seq<Slot>>, c: int, s: int, x: Slot)
    requires
        g.len() <= 4,
        0 <= c < g.len(),
        g[c].len() == 6,
        0 <= s < 6,
    ensures
        total_face_down(set_slot(g, c, s, x)) == total_face_down(g) - down(g[c][s]) + down(x),
{
    let g2 = set_slot(g, c, s, x);
    assert(face_down(g2[c]) == face_down(g[c]) - down(g[c][s]) + down(x));
    assert forall|p: int| 0 <= p < g.len() && p != c implies g2[p] == g[p] by {}
}

/// Each turn turns exactly one card face up: an accepted flip leaves one
/// face-down card fewer at the table, and every other accepted action
/// leaves as many. A hole of `n` seats thus lasts `6 * n` turns.
#[verifier::spinoff_prover]
pub proof fn lemma_one_card_per_turn(
    before: MatchState,
    actor: Seat,
    action: Action,
    after: MatchState,
    r: Result<Vec<Event>, RuleError>,
)
    requires
        before.wf(),
        applied(before, actor, action, after, r),
        r is Ok,
        before.model().phase is Playing,
    ensures
        total_face_down(after.model().hole.grids) == total_face_down(before.model().hole.grids) - (
        if action is Flip {
            1int
        } else {
            0int
        }),
{
    let m = before.model();
    let n = before.seats();
    let h = m.hole;
    let c = h.current as int;
    let g = h.grids;
    assert(after.model() == turn_step(m, n, action));
    assert(turn_error(h, action) is None);
    assert(g.len() == n && n <= 4 && 0 <= c < n);
    assert(g[c].len() == 6);
    match (h.turn, action) {
        (TurnState::AwaitFlip { drawn, source }, Action::Flip { slot }) => {
            lemma_total_after_set(g, c, slot as int, Slot { face_up: true, ..g[c][slot as int] });
        },
        (TurnState::AwaitResolve { drawn, flipped, .. }, Action::Swap) => {
            assert(flipped < 6);
            lemma_total_after_set(g, c, flipped as int, Slot { card: drawn, ..g[c][flipped as int] });
        },
        _ => {},
    }
}

/// The cards an event names.
pub open spec fn event_cards(e: Event) -> Seq<Card> {
    match e {
        Event::HoleDealt { discard_start, .. } => seq![discard_start],
        Event::DrewFromDeck { card, .. } => seq![card],
        Event::TookDiscard { card, .. } => seq![card],
        Event::Flipped { card, .. } => seq![card],
        Event::Swapped { placed, discarded, .. } => seq![placed, discarded],
        Event::Kept { discarded, .. } => seq![discarded],
        _ => Seq::empty(),
    }
}

/// In a well-formed match the card of a face-down slot is nowhere else: in
/// no other slot, not in the discard pile, not the drawn card.
proof fn lemma_face_down_card_alone(m: MatchModel, n: nat, holes: u8, o: int, s: int)
    requires
        model_wf(m, n, holes),
        0 <= o < n,
        0 <= s < 6,
    ensures
        forall|o2: int, s2: int|
            0 <= o2 < n && 0 <= s2 < 6 && (o2 != o || s2 != s) ==> #[trigger] m.hole.grids[o2][s2].card
                != m.hole.grids[o][s].card,
        !m.hole.discard.contains(m.hole.grids[o][s].card),
        !drawn_cards(m.hole.turn).contains(m.hole.grids[o][s].card),
{
    let h = m.hole;
    let hc = hole_cards(h);
    let c = h.grids[o][s].card;
    let base = h.deck.len() + h.discard.len();
    lemma_cards_distinct(m, n, holes);
    assert(hc[base + 6 * o + s] == c);
    assert forall|o2: int, s2: int|
        0 <= o2 < n && 0 <= s2 < 6 && (o2 != o || s2 != s) implies #[trigger] h.grids[o2][s2].card != c by {
        assert(hc[base + 6 * o2 + s2] == h.grids[o2][s2].card);
        assert(base + 6 * o2 + s2 != base + 6 * o + s);
    }
    if h.discard.contains(c) {
        let i = choose|i: int| 0 <= i < h.discard.len() && h.discard[i] == c;
        assert(hc[h.deck.len() + i] == h.discard[i]);
    }
    if drawn_cards(h.turn).contains(c) {
        assert(hc[hc.len() - 1] == drawn_cards(h.turn)[0]);
    }
}

/// Events hide nothing because they show nothing hidden: no card an
/// accepted action's events name is, after the action, the card of a
/// face-down slot. So the event stream can go to every player unredacted.
#[verifier::spinoff_prover]
pub proof fn lemma_events_show_no_hidden_card(
    before: MatchState,
    actor: Seat,
    action: Action,
    after: MatchState,
    events: Vec<Event>,
    k: int,
    c: Card,
    o: int,
    s: int,
)
    requires
        before.wf(),
        applied(before, actor, action, after, Ok(events)),
        0 <= k < events@.len(),
        event_cards(events@[k]).contains(c),
        0 <= o < after.seats(),
        0 <= s < 6,
        !after.model().hole.grids[o][s].face_up,
    ensures
        after.model().hole.grids[o][s].card != c,
{
    let m = before.model();
    let n = before.seats();
    let a = after.model();
    let ah = a.hole;
    assert(after.seats() == n);
    lemma_face_down_card_alone(a, n, after.config.holes, o, s);
    let hidden = ah.grids[o][s].card;
    let shown = |x: Card|
        ah.discard.contains(x) || drawn_cards(ah.turn).contains(x) || exists|o2: int, s2: int|
            0 <= o2 < n && 0 <= s2 < 6 && ah.grids[o2][s2].face_up && #[trigger] ah.grids[o2][s2].card == x;
    assert(shown(c)) by {
        let e = events@[k];
        assert(event_cards(e).contains(c));
        match m.phase {
            PhaseModel::Playing => {
                let h = m.hole;
                let cur = h.current as int;
                assert(a == turn_step(m, n, action));
                assert(turn_events(m, n, action, events@));
                assert(rule_error(m, n, actor, action) is None);
                match (h.turn, action) {
                    (TurnState::AwaitDraw, Action::DrawFromDeck) => {
                        assert(drawn_cards(ah.turn)[0] == c);
                    },
                    (TurnState::AwaitDraw, Action::TakeDiscard) => {
                        assert(drawn_cards(ah.turn)[0] == c);
                    },
                    (TurnState::AwaitFlip { .. }, Action::Flip { slot }) => {
                        assert(ah.grids[cur][slot as int].face_up);
                        assert(ah.grids[cur][slot as int].card == c);
                    },
                    (TurnState::AwaitResolve { drawn, flipped, .. }, Action::Swap) => {
                        if k == 0 {
                            assert(h.grids[cur][flipped as int].face_up);
                            if c == drawn {
                                assert(ah.grids[cur][flipped as int].face_up);
                                assert(ah.grids[cur][flipped as int].card == c);
                            } else {
                                assert(ah.discard[ah.discard.len() - 1] == c);
                            }
                        } else {
                            assert(event_cards(events@[1]).len() == 0);
                        }
                    },
                    (TurnState::AwaitResolve { drawn, .. }, Action::Keep) => {
                        if k == 0 {
                            assert(ah.discard[ah.discard.len() - 1] == c);
                        } else {
                            assert(event_cards(events@[1]).len() == 0);
                        }
                    },
                    _ => {},
                }
            },
            PhaseModel::HoleComplete { .. } => {
                if before.hole_number < before.config.holes && k == 0 {
                    assert(ah.discard[ah.discard.len() - 1] == c);
                }
            },
            PhaseModel::MatchComplete { .. } => {},
        }
    }
    if exists|o2: int, s2: int|
        0 <= o2 < n && 0 <= s2 < 6 && ah.grids[o2][s2].face_up && #[trigger] ah.grids[o2][s2].card == c {
        let (o2, s2) = choose|o2: int, s2: int|
            0 <= o2 < n && 0 <= s2 < 6 && ah.grids[o2][s2].face_up && #[trigger] ah.grids[o2][s2].card == c;
        assert(o2 != o || s2 != s);
    }
}

/// The event that ends a hole reports the running totals after the hole:
/// each seat's total before the hole plus its score for the hole, exactly
/// the totals the match now holds. A turn that ends the hole always reports
/// it this way.
pub proof fn lemma_hole_end_reports_new_totals(
    before: MatchState,
    actor: Seat,
    action: Action,
    after: MatchState,
    events: Vec<Event>,
)
    requires
        before.wf(),
        applied(before, actor, action, after, Ok(events)),
        before.model().phase is Playing,
    ensures
        forall|k: int|
            0 <= k < events@.len() ==> (#[trigger] events@[k] matches Event::HoleEnded {
                hole,
                scores,
                totals,
            } ==> {
                &&& hole == after.hole_number
                &&& totals@ == after.totals@
                &&& scores@.len() == before.totals@.len()
                &&& totals@.len() == before.totals@.len()
                &&& forall|i: int|
                    0 <= i < totals@.len() ==> #[trigger] totals@[i] == before.totals@[i] + scores@[i]
            }),
        after.phase is HoleComplete ==> exists|k: int|
            0 <= k < events@.len() && #[trigger] events@[k] is HoleEnded,
{
    let m = before.model();
    let n = before.seats();
    let h = m.hole;
    assert(after.model() == turn_step(m, n, action));
    assert(turn_events(m, n, action, events@));
    assert(rule_error(m, n, actor, action) is None);
    lemma_totals_bounds(m, n, before.config.holes);
    match (h.turn, action) {
        (TurnState::AwaitResolve { .. }, Action::Swap) | (TurnState::AwaitResolve { .. }, Action::Keep) => {
            let a = after.model();
            assert(events@.len() == 2);
            assert(!(events@[0] is HoleEnded));
            if let PhaseModel::HoleComplete { scores } = a.phase {
                assert(scores == hole_scores(a.hole.grids));
                assert forall|p: int| 0 <= p < n implies -12 <= #[trigger] scores[p] <= 60 by {
                    lemma_hand_score_bounds(grid_card_seq(a.hole.grids[p]));
                }
                assert(a.totals == add_scores(m.totals, scores));
                assert(events@[1] is HoleEnded);
            } else {
                assert(!(events@[1] is HoleEnded));
            }
        },
        _ => {
            assert(events@.len() == 1);
            assert(!(events@[0] is HoleEnded));
            assert(!(after.phase is HoleComplete));
        },
    }
}

} // verus!
