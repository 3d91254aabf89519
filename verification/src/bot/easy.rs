//! The easy bot: takes obviously good discards, flips at random, swaps when
//! the drawn card is plainly lower.

use vstd::prelude::*;
use crate::action::Action;
use crate::card::{Card, Rank};
use crate::rng::choose_slot;
use crate::state::{SlotIdx, TurnState, GRID_SIZE};
use crate::model::rule_error;
use crate::state::MatchState;
use crate::view::{is_view_of, slot_view, PlayerView, SlotView, Viewer};
use crate::wellformed::lemma_view_sizes;
use rand_chacha::ChaCha8Rng;

verus! {

/// Simple threshold bot: takes obviously good discards, flips at random,
/// swaps when the drawn card is plainly lower.
pub struct EasyBot;

/// The viewer's own grid in `v`.
pub open spec fn own_grid(v: &PlayerView) -> Seq<SlotView> {
    v.seats@[v.viewer->Some_0 as int].grid@
}

/// The card of a visible slot.
pub open spec fn shown_card(s: SlotView) -> Option<crate::card::Card> {
    match s {
        SlotView::Hidden => None,
        SlotView::Peeked { card } => Some(card),
        SlotView::FaceUp { card } => Some(card),
    }
}

/// A bot can be asked to act on `v`: it views from a seat, and the view
/// matches a turn in progress (a discard to look at when drawing, a
/// face-down slot when flipping, the flipped card face up when resolving).
pub open spec fn bot_can_act(v: &PlayerView) -> bool {
    &&& v.viewer is Some
    &&& (v.viewer->Some_0 as int) < v.seats@.len()
    &&& match v.turn {
        TurnState::AwaitDraw => v.discard_top is Some,
        TurnState::AwaitFlip { .. } => exists|i: int|
            0 <= i < own_grid(v).len() && !(#[trigger] own_grid(v)[i] is FaceUp),
        TurnState::AwaitResolve { flipped, .. } => flipped < own_grid(v).len() && own_grid(
            v,
        )[flipped as int] is FaceUp,
    }
}

/// The slot shows a card of rank `r`.
pub open spec fn shows_rank(s: SlotView, r: Rank) -> bool {
    match shown_card(s) {
        Some(c) => c.rank == r,
        None => false,
    }
}

/// Some card the viewer can see in its own grid has rank `r`.
pub open spec fn knows_rank(grid: Seq<SlotView>, r: Rank) -> bool {
    exists|i: int| 0 <= i < grid.len() && #[trigger] shows_rank(grid[i], r)
}

/// The easy bot's rule: take the discard if it is an ace, matches a card it
/// can see in its grid, or is worth 3 or less; flip any face-down slot; swap
/// when the drawn card is worth strictly less than the flipped one.
pub open spec fn easy_choice(v: &PlayerView, a: Action) -> bool {
    let grid = own_grid(v);
    match v.turn {
        TurnState::AwaitDraw => {
            let top = v.discard_top->Some_0;
            a == (if top.rank == Rank::Ace || knows_rank(grid, top.rank) || top.rank.value() <= 3 {
                Action::TakeDiscard
            } else {
                Action::DrawFromDeck
            })
        },
        TurnState::AwaitFlip { .. } => a matches Action::Flip { slot } && exists|i: int|
            0 <= i < grid.len() && !(#[trigger] grid[i] is FaceUp) && slot == i as u8,
        TurnState::AwaitResolve { drawn, flipped, .. } => {
            let mine = grid[flipped as int]->FaceUp_card;
            a == (if drawn.rank.value() < mine.rank.value() {
                Action::Swap
            } else {
                Action::Keep
            })
        },
    }
}

impl EasyBot {
    /// Choose the next action for the viewer seat of `view`.
    pub fn decide(&mut self, view: &PlayerView, rng: &mut ChaCha8Rng) -> (a: Action)
        requires
            bot_can_act(view),
        ensures
            easy_choice(view, a),
    {
        let me = match view.viewer {
            Some(seat) => seat as usize,
            None => {
                proof {
                    assert(false);
                }
                0
            },
        };
        let grid = &view.seats[me].grid;
        match view.turn {
            TurnState::AwaitDraw => {
                let top = match view.discard_top {
                    Some(card) => card,
                    None => {
                        proof {
                            assert(false);
                        }
                        return Action::DrawFromDeck;
                    },
                };
                let mut pairs_known = false;
                let mut i: usize = 0;
                while i < grid.len()
                    invariant
                        i <= grid@.len(),
                        pairs_known <==> exists|j: int|
                            0 <= j < i && #[trigger] shows_rank(grid@[j], top.rank),
                    decreases grid@.len() - i,
                {
                    let hit = match grid[i] {
                        SlotView::Peeked { card } => card.rank == top.rank,
                        SlotView::FaceUp { card } => card.rank == top.rank,
                        SlotView::Hidden => false,
                    };
                    if hit {
                        pairs_known = true;
                    }
                    proof {
                        if hit {
                            assert(shows_rank(grid@[i as int], top.rank));
                        }
                    }
                    i += 1;
                }
                if top.rank == Rank::Ace || pairs_known || top.rank.unpaired_value() <= 3 {
                    Action::TakeDiscard
                } else {
                    Action::DrawFromDeck
                }
            },
            TurnState::AwaitFlip { .. } => {
                let mut face_down: Vec<SlotIdx> = Vec::new();
                let ghost mut from: Seq<int> = Seq::empty();
                let mut i: usize = 0;
                while i < grid.len()
                    invariant
                        i <= grid@.len(),
                        from.len() == face_down@.len(),
                        forall|k: int|
                            0 <= k < face_down@.len() ==> 0 <= #[trigger] from[k] < i && !(
                            grid@[from[k]] is FaceUp) && face_down@[k] == from[k] as u8,
                        (exists|j: int| 0 <= j < i && !(#[trigger] grid@[j] is FaceUp)) ==> face_down@.len() > 0,
                    decreases grid@.len() - i,
                {
                    if !matches!(grid[i], SlotView::FaceUp { .. }) {
                        face_down.push(i as u8);
                        proof {
                            from = from.push(i as int);
                        }
                    }
                    i += 1;
                }
                let slot = match choose_slot(&face_down, rng) {
                    Some(slot) => slot,
                    None => {
                        proof {
                            let j = choose|j: int|
                                0 <= j < grid@.len() && !(#[trigger] grid@[j] is FaceUp);
                            assert(false);
                        }
                        return Action::DrawFromDeck;
                    },
                };
                proof {
                    let k = choose|k: int| 0 <= k < face_down@.len() && face_down@[k] == slot;
                    assert(!(grid@[from[k]] is FaceUp));
                }
                Action::Flip { slot }
            },
            TurnState::AwaitResolve { drawn, flipped, .. } => {
                let mine = match grid[flipped as usize] {
                    SlotView::FaceUp { card } => card,
                    _ => {
                        proof {
                            assert(false);
                        }
                        return Action::Keep;
                    },
                };
                if drawn.rank.unpaired_value() < mine.rank.unpaired_value() {
                    Action::Swap
                } else {
                    Action::Keep
                }
            },
        }
    }
}

/// The view the engine hands the seat to act always lets a bot act on it.
pub proof fn lemma_bot_can_act_on_own_view(m: &MatchState, v: &PlayerView)
    requires
        m.wf(),
        m.model().phase is Playing,
        is_view_of(m, Viewer::Seat(m.hole.current), v),
    ensures
        bot_can_act(v),
{
    let mm = m.model();
    let c = mm.hole.current as int;
    let g = mm.hole.grids[c];
    lemma_view_sizes(mm, m.seats(), m.config.holes);
    assert(own_grid(v) == v.seats@[c].grid@);
    match mm.hole.turn {
        TurnState::AwaitFlip { .. } => {
            let s = if !g[0].face_up {
                0
            } else if !g[1].face_up {
                1
            } else if !g[2].face_up {
                2
            } else if !g[3].face_up {
                3
            } else if !g[4].face_up {
                4
            } else {
                5
            };
            assert(!g[s].face_up);
            assert(own_grid(v)[s] == slot_view(g[s], c, Some(c as u8)));
        },
        TurnState::AwaitResolve { flipped, .. } => {
            assert(own_grid(v)[flipped as int] == slot_view(g[flipped as int], c, Some(c as u8)));
        },
        TurnState::AwaitDraw => {},
    }
}

/// Every action the easy bot may choose from the view of the seat to act
/// is accepted by the engine.
pub proof fn lemma_easy_bot_plays_legally(m: &MatchState, v: &PlayerView, a: Action)
    requires
        m.wf(),
        m.model().phase is Playing,
        is_view_of(m, Viewer::Seat(m.hole.current), v),
        easy_choice(v, a),
    ensures
        rule_error(m.model(), m.seats(), m.hole.current, a) is None,
{
    let mm = m.model();
    let c = mm.hole.current as int;
    let g = mm.hole.grids[c];
    lemma_view_sizes(mm, m.seats(), m.config.holes);
    assert(own_grid(v) == v.seats@[c].grid@);
    if let TurnState::AwaitFlip { .. } = mm.hole.turn {
        let slot = a->Flip_slot;
        let i = choose|i: int|
            0 <= i < own_grid(v).len() && !(#[trigger] own_grid(v)[i] is FaceUp) && slot == i as u8;
        assert(slot as int == i);
        assert(own_grid(v)[slot as int] == slot_view(g[slot as int], c, Some(c as u8)));
    }
}

/// Resolving a turn, the easy bot swaps only to lower the slot's value: it
/// swaps exactly when the drawn card is worth strictly less than the card it
/// flipped, and otherwise keeps.
pub proof fn lemma_easy_bot_swaps_only_to_lower(
    v: &PlayerView,
    a: Action,
    drawn: Card,
    flipped: SlotIdx,
    mine: Card,
)
    requires
        easy_choice(v, a),
        v.turn matches TurnState::AwaitResolve { drawn: d, flipped: f, .. } && d == drawn && f == flipped,
        own_grid(v)[flipped as int] == (SlotView::FaceUp { card: mine }),
    ensures
        a == Action::Swap || a == Action::Keep,
        a == Action::Swap ==> drawn.rank.value() < mine.rank.value(),
        a == Action::Keep ==> drawn.rank.value() >= mine.rank.value(),
{
}

} // verus!
