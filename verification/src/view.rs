//! Per-viewer redacted views of a match.

use vstd::prelude::*;
use crate::action::Action;
use crate::card::Card;
use crate::model::rule_error;
use crate::model::{drawn_cards, hole_cards, MatchModel, PhaseModel};
use crate::wellformed::{lemma_cards_distinct, lemma_view_sizes};
use crate::score::{optimal_pairing, optimal_pairs};
use crate::state::{grid_card_seq, grid_face_up, MatchState, Phase, Seat, SeatKind, Slot, TurnState};

verus! {

#[derive(Debug, Clone, Copy, PartialEq, Eq, Structural)]
pub enum Viewer {
    Seat(Seat),
    Spectator,
}

/// What one viewer can see of a single card slot.
#[derive(Debug, Clone, Copy, PartialEq, Eq, Structural)]
pub enum SlotView {
    /// Face-down and unknown to this viewer.
    Hidden,
    /// Face-down, but the viewer owns it and knows it (bottom row at deal).
    Peeked { card: Card },
    /// Public and frozen.
    FaceUp { card: Card },
}

#[derive(Debug, Clone, PartialEq)]
pub struct SeatView {
    pub name: String,
    pub is_bot: bool,
    pub grid: Vec<SlotView>,
}

#[derive(Debug, Clone, Copy, PartialEq, Eq, Structural)]
pub enum ActionKind {
    DrawFromDeck,
    TakeDiscard,
    Flip,
    Swap,
    Keep,
    NextHole,
}

#[derive(Debug, Clone, PartialEq)]
pub enum PhaseView {
    Playing,
    HoleComplete {
        scores: Vec<i32>,
        /// Optimal pairing per seat, as slot-index pairs, for highlighting.
        pairings: Vec<Vec<(u8, u8)>>,
    },
    MatchComplete { winners: Vec<Seat> },
}

/// Everything one viewer may know about the match. An opponent's or
/// spectator's view never holds a card that is hidden from them.
#[derive(Debug, Clone, PartialEq)]
pub struct PlayerView {
    /// The seat this view was redacted for; `None` = spectator.
    pub viewer: Option<Seat>,
    pub seats: Vec<SeatView>,
    pub deck_len: u8,
    pub discard_top: Option<Card>,
    pub discard_len: u8,
    pub current: Seat,
    pub turn: TurnState,
    pub hole_number: u8,
    pub holes_total: u8,
    pub totals: Vec<i32>,
    /// Completed holes: `score_history[hole][seat]`.
    pub score_history: Vec<Vec<i32>>,
    pub phase: PhaseView,
    /// Action kinds the viewer may take right now (empty when not their turn).
    pub legal_actions: Vec<ActionKind>,
}

// ---------------------------------------------------------------------------
// What a view holds.

pub open spec fn viewer_seat(viewer: Viewer) -> Option<Seat> {
    match viewer {
        Viewer::Seat(seat) => Some(seat),
        Viewer::Spectator => None,
    }
}

/// A slot is visible to a viewer when it is face up, or when the viewer owns
/// it and knows it.
pub open spec fn visible(slot: Slot, owner: int, viewer: Option<Seat>) -> bool {
    slot.face_up || (viewer == Some(owner as u8) && slot.known_to_owner)
}

/// What `viewer` sees of seat `owner`'s `slot`.
pub open spec fn slot_view(slot: Slot, owner: int, viewer: Option<Seat>) -> SlotView {
    if slot.face_up {
        SlotView::FaceUp { card: slot.card }
    } else if viewer == Some(owner as u8) && slot.known_to_owner {
        SlotView::Peeked { card: slot.card }
    } else {
        SlotView::Hidden
    }
}

/// The action kinds `viewer` may take.
pub open spec fn legal_kinds(phase: PhaseModel, viewer: Option<Seat>, current: Seat, turn: TurnState) -> Seq<
    ActionKind,
> {
    match (phase, viewer) {
        (PhaseModel::Playing, Some(seat)) => {
            if seat == current {
                match turn {
                    TurnState::AwaitDraw => seq![ActionKind::DrawFromDeck, ActionKind::TakeDiscard],
                    TurnState::AwaitFlip { .. } => seq![ActionKind::Flip],
                    TurnState::AwaitResolve { .. } => seq![ActionKind::Swap, ActionKind::Keep],
                }
            } else {
                Seq::empty()
            }
        },
        (PhaseModel::HoleComplete { .. }, Some(_)) => seq![ActionKind::NextHole],
        _ => Seq::empty(),
    }
}

/// `v` is what `m.view(viewer)` returns.
pub open spec fn is_view_of(m: &MatchState, viewer: Viewer, v: &PlayerView) -> bool {
    let mm = m.model();
    let n = m.seats();
    let vs = viewer_seat(viewer);
    &&& v.viewer == vs
    &&& v.seats@.len() == n
    &&& forall|o: int|
        0 <= o < n ==> {
            &&& (#[trigger] v.seats@[o]).name@ == m.config.seats@[o].name@
            &&& v.seats@[o].is_bot == (m.config.seats@[o].kind is Bot)
            &&& v.seats@[o].grid@.len() == mm.hole.grids[o].len()
            &&& forall|s: int|
                0 <= s < v.seats@[o].grid@.len() ==> #[trigger] v.seats@[o].grid@[s] == slot_view(
                    mm.hole.grids[o][s],
                    o,
                    vs,
                )
        }
    &&& v.deck_len == mm.hole.deck.len()
    &&& v.discard_top == (if mm.hole.discard.len() > 0 {
        Some(mm.hole.discard.last())
    } else {
        None
    })
    &&& v.discard_len == mm.hole.discard.len()
    &&& v.current == mm.hole.current
    &&& v.turn == mm.hole.turn
    &&& v.hole_number == mm.hole_number
    &&& v.holes_total == m.config.holes
    &&& v.totals@ == mm.totals
    &&& v.score_history@.map_values(|h: Vec<i32>| h@) == mm.history
    &&& match mm.phase {
        PhaseModel::Playing => v.phase is Playing,
        PhaseModel::HoleComplete { scores } => v.phase matches PhaseView::HoleComplete {
            scores: s,
            pairings,
        } && s@ == scores && pairings@.len() == n && forall|o: int|
            0 <= o < n ==> (#[trigger] pairings@[o])@ == optimal_pairs(
                grid_card_seq(mm.hole.grids[o]),
            ),
        PhaseModel::MatchComplete { winners } => v.phase matches PhaseView::MatchComplete {
            winners: w,
        } && w@ == winners,
    }
    &&& v.legal_actions@ == legal_kinds(mm.phase, vs, mm.hole.current, mm.hole.turn)
}

fn slot_view_of(slot: Slot, owner: usize, viewer: Option<Seat>) -> (r: SlotView)
    requires
        owner < 256,
    ensures
        r == slot_view(slot, owner as int, viewer),
{
    if slot.face_up {
        SlotView::FaceUp { card: slot.card }
    } else if (match viewer {
        Some(v) => v == owner as Seat,
        None => false,
    }) && slot.known_to_owner {
        SlotView::Peeked { card: slot.card }
    } else {
        SlotView::Hidden
    }
}

fn copy_scores(v: &Vec<i32>) -> (r: Vec<i32>)
    ensures
        r@ == v@,
{
    let r = v.clone();
    assert(r@ =~= v@);
    r
}

impl MatchState {
    /// Everything `viewer` may know about the match.
    pub fn view(&self, viewer: Viewer) -> (v: PlayerView)
        requires
            self.wf(),
        ensures
            is_view_of(self, viewer, &v),
    {
        let ghost mm = self.model();
        let ghost n = self.seats();
        proof {
            lemma_view_sizes(mm, n, self.config.holes);
            assert forall|q: int| 0 <= q < n implies (#[trigger] self.hole.players@[q]).grid@.len()
                == 6 by {
                assert(mm.hole.grids[q] == self.hole.players@[q].grid@);
            }
        }
        let viewer_seat = match viewer {
            Viewer::Seat(seat) => Some(seat),
            Viewer::Spectator => None,
        };
        let mut seats: Vec<SeatView> = Vec::new();
        let mut owner: usize = 0;
        while owner < self.config.seats.len()
            invariant
                n == self.config.seats@.len(),
                n <= 4,
                mm == self.model(),
                self.hole.players@.len() == n,
                viewer_seat == crate::view::viewer_seat(viewer),
                owner <= n,
                seats@.len() == owner,
                forall|o: int|
                    0 <= o < owner ==> {
                        &&& (#[trigger] seats@[o]).name@ == self.config.seats@[o].name@
                        &&& seats@[o].is_bot == (self.config.seats@[o].kind is Bot)
                        &&& seats@[o].grid@.len() == mm.hole.grids[o].len()
                        &&& forall|s: int|
                            0 <= s < seats@[o].grid@.len() ==> #[trigger] seats@[o].grid@[s]
                                == slot_view(mm.hole.grids[o][s], o, viewer_seat)
                    },
            decreases n - owner,
        {
            let cfg = &self.config.seats[owner];
            let player = &self.hole.players[owner];
            assert(mm.hole.grids[owner as int] == player.grid@);
            let mut grid: Vec<SlotView> = Vec::new();
            let mut s: usize = 0;
            while s < player.grid.len()
                invariant
                    owner < 4,
                    s <= player.grid@.len(),
                    grid@.len() == s,
                    forall|t: int|
                        0 <= t < s ==> #[trigger] grid@[t] == slot_view(
                            player.grid@[t],
                            owner as int,
                            viewer_seat,
                        ),
                decreases player.grid@.len() - s,
            {
                grid.push(slot_view_of(player.grid[s], owner, viewer_seat));
                s += 1;
            }
            let is_bot = match cfg.kind {
                SeatKind::Bot { .. } => true,
                SeatKind::Human => false,
            };
            seats.push(SeatView { name: cfg.name.clone(), is_bot, grid });
            owner += 1;
        }
        let phase = match &self.phase {
            Phase::Playing => PhaseView::Playing,
            Phase::HoleComplete { scores } => {
                let mut pairings: Vec<Vec<(u8, u8)>> = Vec::new();
                let mut p: usize = 0;
                while p < self.hole.players.len()
                    invariant
                        mm == self.model(),
                        self.hole.players@.len() == n,
                        forall|q: int| 0 <= q < n ==> (#[trigger] self.hole.players@[q]).grid@.len() == 6,
                        p <= n,
                        pairings@.len() == p,
                        forall|o: int|
                            0 <= o < p ==> (#[trigger] pairings@[o])@ == optimal_pairs(
                                grid_card_seq(mm.hole.grids[o]),
                            ),
                    decreases n - p,
                {
                    assert(mm.hole.grids[p as int] == self.hole.players@[p as int].grid@);
                    let cards = self.hole.players[p].cards();
                    pairings.push(optimal_pairing(&cards).1);
                    p += 1;
                }
                PhaseView::HoleComplete { scores: copy_scores(scores), pairings }
            },
            Phase::MatchComplete { winners } => {
                let w = winners.clone();
                assert(w@ =~= winners@);
                PhaseView::MatchComplete { winners: w }
            },
        };
        let legal_actions = match &self.phase {
            Phase::Playing => match viewer_seat {
                Some(seat) => {
                    if seat == self.hole.current {
                        match self.hole.turn {
                            TurnState::AwaitDraw => vec![
                                ActionKind::DrawFromDeck,
                                ActionKind::TakeDiscard,
                            ],
                            TurnState::AwaitFlip { .. } => vec![ActionKind::Flip],
                            TurnState::AwaitResolve { .. } => vec![
                                ActionKind::Swap,
                                ActionKind::Keep,
                            ],
                        }
                    } else {
                        Vec::new()
                    }
                },
                None => Vec::new(),
            },
            Phase::HoleComplete { .. } => match viewer_seat {
                Some(_) => vec![ActionKind::NextHole],
                None => Vec::new(),
            },
            _ => Vec::new(),
        };
        assert(legal_actions@ =~= legal_kinds(mm.phase, viewer_seat, mm.hole.current, mm.hole.turn));
        let discard_top = if self.hole.discard.len() > 0 {
            Some(self.hole.discard[self.hole.discard.len() - 1])
        } else {
            None
        };
        let mut score_history: Vec<Vec<i32>> = Vec::new();
        let mut k: usize = 0;
        while k < self.score_history.len()
            invariant
                k <= self.score_history@.len(),
                score_history@.len() == k,
                forall|j: int| 0 <= j < k ==> (#[trigger] score_history@[j])@ == self.score_history@[j]@,
            decreases self.score_history@.len() - k,
        {
            score_history.push(copy_scores(&self.score_history[k]));
            k += 1;
        }
        assert(score_history@.map_values(|h: Vec<i32>| h@) =~= mm.history);
        PlayerView {
            viewer: viewer_seat,
            seats,
            deck_len: self.hole.deck.len() as u8,
            discard_top,
            discard_len: self.hole.discard.len() as u8,
            current: self.hole.current,
            turn: self.hole.turn,
            hole_number: self.hole_number,
            holes_total: self.config.holes,
            totals: copy_scores(&self.totals),
            score_history,
            phase,
            legal_actions,
        }
    }
}

// ---------------------------------------------------------------------------
// Redaction.

/// `c` appears in view `v`: on a visible slot of some seat, on top of the
/// discard pile, or as the drawn card of the turn in progress.
pub open spec fn shows(v: &PlayerView, c: Card) -> bool {
    ||| exists|o: int, s: int|
        0 <= o < v.seats@.len() && 0 <= s < v.seats@[o].grid@.len() && (#[trigger] v.seats@[o].grid@[s]
            == SlotView::FaceUp { card: c } || v.seats@[o].grid@[s] == SlotView::Peeked { card: c })
    ||| v.discard_top == Some(c)
    ||| drawn_cards(v.turn).contains(c)
}

/// A card hidden from a viewer appears nowhere in that viewer's view.
#[verifier::spinoff_prover]
#[verifier::rlimit(40)]
pub proof fn lemma_view_never_leaks(m: &MatchState, viewer: Viewer, v: &PlayerView, o: int, s: int)
    requires
        m.wf(),
        is_view_of(m, viewer, v),
        0 <= o < m.seats(),
        0 <= s < 6,
        !visible(m.model().hole.grids[o][s], o, viewer_seat(viewer)),
    ensures
        !shows(v, m.model().hole.grids[o][s].card),
{
    let mm = m.model();
    let n = m.seats();
    let h = mm.hole;
    let c = h.grids[o][s].card;
    let hc = hole_cards(h);
    let base = h.deck.len() + h.discard.len();
    lemma_cards_distinct(mm, n, m.config.holes);
    lemma_view_sizes(mm, n, m.config.holes);
    assert(hc[base + 6 * o + s] == c);
    if exists|o2: int, s2: int|
        0 <= o2 < v.seats@.len() && 0 <= s2 < v.seats@[o2].grid@.len() && (#[trigger] v.seats@[o2].grid@[s2]
            == SlotView::FaceUp { card: c } || v.seats@[o2].grid@[s2] == SlotView::Peeked { card: c }) {
        let (o2, s2) = choose|o2: int, s2: int|
            0 <= o2 < v.seats@.len() && 0 <= s2 < v.seats@[o2].grid@.len() && (#[trigger] v.seats@[o2].grid@[s2]
                == SlotView::FaceUp { card: c } || v.seats@[o2].grid@[s2] == SlotView::Peeked { card: c });
        assert(v.seats@[o2].grid@[s2] == slot_view(h.grids[o2][s2], o2, viewer_seat(viewer)));
        assert(visible(h.grids[o2][s2], o2, viewer_seat(viewer)));
        assert(h.grids[o2][s2].card == c);
        assert(hc[base + 6 * o2 + s2] == h.grids[o2][s2].card);
        assert(o2 != o || s2 != s);
        assert(base + 6 * o2 + s2 != base + 6 * o + s);
        assert(false);
    }
    if v.discard_top == Some(c) {
        assert(hc[base - 1] == h.discard.last());
        assert(false);
    }
    if drawn_cards(v.turn).contains(c) {
        assert(drawn_cards(h.turn)[0] == c);
        assert(hc[hc.len() - 1] == c);
        assert(hc.len() - 1 > base + 6 * o + s);
        assert(false);
    }
}

// ---------------------------------------------------------------------------
// What a view depends on.

/// Two matches look the same to viewer seat `vs`: they agree on everything
/// but the cards hidden from it and the order of the deck.
pub open spec fn look_alike(a: MatchModel, b: MatchModel, vs: Option<Seat>) -> bool {
    &&& a.hole_number == b.hole_number
    &&& a.totals == b.totals
    &&& a.history == b.history
    &&& a.phase == b.phase
    &&& a.hole.current == b.hole.current
    &&& a.hole.turn == b.hole.turn
    &&& a.hole.discard == b.hole.discard
    &&& a.hole.deck.len() == b.hole.deck.len()
    &&& a.hole.grids.len() == b.hole.grids.len()
    &&& forall|o: int, s: int|
        0 <= o < a.hole.grids.len() && 0 <= s < 6 ==> {
            let x = #[trigger] a.hole.grids[o][s];
            let y = b.hole.grids[o][s];
            &&& x.face_up == y.face_up
            &&& x.known_to_owner == y.known_to_owner
            &&& visible(x, o, vs) ==> x.card == y.card
        }
}

/// Two views show the same thing.
pub open spec fn same_view(v1: &PlayerView, v2: &PlayerView) -> bool {
    &&& v1.viewer == v2.viewer
    &&& v1.seats@.len() == v2.seats@.len()
    &&& forall|o: int|
        0 <= o < v1.seats@.len() ==> {
            &&& (#[trigger] v1.seats@[o]).name@ == v2.seats@[o].name@
            &&& v1.seats@[o].is_bot == v2.seats@[o].is_bot
            &&& v1.seats@[o].grid@ == v2.seats@[o].grid@
        }
    &&& v1.deck_len == v2.deck_len
    &&& v1.discard_top == v2.discard_top
    &&& v1.discard_len == v2.discard_len
    &&& v1.current == v2.current
    &&& v1.turn == v2.turn
    &&& v1.hole_number == v2.hole_number
    &&& v1.holes_total == v2.holes_total
    &&& v1.totals@ == v2.totals@
    &&& v1.score_history@.map_values(|h: Vec<i32>| h@) == v2.score_history@.map_values(
        |h: Vec<i32>| h@,
    )
    &&& match (v1.phase, v2.phase) {
        (PhaseView::Playing, PhaseView::Playing) => true,
        (
            PhaseView::HoleComplete { scores: s1, pairings: p1 },
            PhaseView::HoleComplete { scores: s2, pairings: p2 },
        ) => s1@ == s2@ && p1@.len() == p2@.len() && forall|i: int|
            0 <= i < p1@.len() ==> (#[trigger] p1@[i])@ == p2@[i]@,
        (PhaseView::MatchComplete { winners: w1 }, PhaseView::MatchComplete { winners: w2 }) => w1@
            == w2@,
        _ => false,
    }
    &&& v1.legal_actions@ == v2.legal_actions@
}

/// A view depends only on what its viewer can see: two well-formed matches
/// of one configuration that look alike to the viewer (equal but for the
/// hidden cards and the order of the deck) give the same view.
pub proof fn lemma_view_depends_on_visible_only(
    m1: &MatchState,
    m2: &MatchState,
    viewer: Viewer,
    v1: &PlayerView,
    v2: &PlayerView,
)
    requires
        m1.wf(),
        m2.wf(),
        m1.config == m2.config,
        look_alike(m1.model(), m2.model(), viewer_seat(viewer)),
        is_view_of(m1, viewer, v1),
        is_view_of(m2, viewer, v2),
    ensures
        same_view(v1, v2),
{
    let a = m1.model();
    let b = m2.model();
    let n = m1.seats();
    let vs = viewer_seat(viewer);
    lemma_view_sizes(a, n, m1.config.holes);
    lemma_view_sizes(b, n, m2.config.holes);
    assert forall|o: int| 0 <= o < n implies (#[trigger] v1.seats@[o]).grid@ == v2.seats@[o].grid@ by {
        assert forall|s: int| 0 <= s < 6 implies #[trigger] v1.seats@[o].grid@[s] == v2.seats@[o].grid@[s] by {
            let x = a.hole.grids[o][s];
            assert(v1.seats@[o].grid@[s] == slot_view(x, o, vs));
            assert(v2.seats@[o].grid@[s] == slot_view(b.hole.grids[o][s], o, vs));
        }
        assert(v1.seats@[o].grid@ =~= v2.seats@[o].grid@);
    }
    if let PhaseModel::HoleComplete { scores } = a.phase {
        if let PhaseView::HoleComplete { scores: s1, pairings: p1 } = v1.phase {
            if let PhaseView::HoleComplete { scores: s2, pairings: p2 } = v2.phase {
                assert forall|i: int| 0 <= i < p1@.len() implies (#[trigger] p1@[i])@ == p2@[i]@ by {
                    assert forall|s: int| 0 <= s < 6 implies #[trigger] a.hole.grids[i][s]
                        == b.hole.grids[i][s] by {
                        assert(grid_face_up(a.hole.grids[i]));
                        assert(a.hole.grids[i][s].face_up);
                    }
                    assert(a.hole.grids[i] =~= b.hole.grids[i]);
                }
            }
        }
    }
}

// ---------------------------------------------------------------------------
// What a view shows.

/// Every viewer sees every face-up card, with its card; a seat also sees
/// its own face-down cards that it knows; every other slot is hidden.
pub proof fn lemma_view_shows_visible_cards(m: &MatchState, viewer: Viewer, v: &PlayerView, o: int, s: int)
    requires
        m.wf(),
        is_view_of(m, viewer, v),
        0 <= o < m.seats(),
        0 <= s < 6,
    ensures
        ({
            let slot = m.model().hole.grids[o][s];
            let shown = v.seats@[o].grid@[s];
            &&& slot.face_up ==> shown == SlotView::FaceUp { card: slot.card }
            &&& !slot.face_up && viewer == Viewer::Seat(o as u8) && slot.known_to_owner ==> shown
                == SlotView::Peeked { card: slot.card }
            &&& !slot.face_up && !(viewer == Viewer::Seat(o as u8) && slot.known_to_owner) ==> shown
                == SlotView::Hidden
        }),
{
    lemma_view_sizes(m.model(), m.seats(), m.config.holes);
    assert(v.seats@[o].grid@[s] == slot_view(m.model().hole.grids[o][s], o, viewer_seat(viewer)));
}

/// The kind of an action.
pub open spec fn kind_of(a: Action) -> ActionKind {
    match a {
        Action::DrawFromDeck => ActionKind::DrawFromDeck,
        Action::TakeDiscard => ActionKind::TakeDiscard,
        Action::Flip { .. } => ActionKind::Flip,
        Action::Swap => ActionKind::Swap,
        Action::Keep => ActionKind::Keep,
        Action::NextHole => ActionKind::NextHole,
    }
}

/// A seat's view offers exactly the kinds of action the match would accept
/// from that seat now: a kind is listed if and only if some action of that
/// kind is accepted (refused by no rule). A spectator is offered nothing.
pub proof fn lemma_view_offers_exactly_the_legal_actions(m: &MatchState, viewer: Viewer, v: &PlayerView)
    requires
        m.wf(),
        is_view_of(m, viewer, v),
    ensures
        viewer is Spectator ==> v.legal_actions@.len() == 0,
        viewer matches Viewer::Seat(seat) ==> ((seat as int) < m.seats() ==> {
            &&& forall|a: Action|
                #[trigger] rule_error(m.model(), m.seats(), seat, a) is None ==> v.legal_actions@.contains(
                    kind_of(a),
                )
            &&& forall|k: ActionKind|
                #[trigger] v.legal_actions@.contains(k) ==> exists|a: Action|
                    kind_of(a) == k && #[trigger] rule_error(m.model(), m.seats(), seat, a) is None
        }),
{
    let mm = m.model();
    let n = m.seats();
    let h = mm.hole;
    lemma_view_sizes(mm, n, m.config.holes);
    if let Viewer::Seat(seat) = viewer {
        if (seat as int) < n {
            let la = v.legal_actions@;
            assert forall|a: Action| #[trigger] rule_error(mm, n, seat, a) is None implies la.contains(
                kind_of(a),
            ) by {
                match mm.phase {
                    PhaseModel::Playing => {
                        match h.turn {
                            TurnState::AwaitDraw => {
                                assert(la[0] == ActionKind::DrawFromDeck);
                                assert(la[1] == ActionKind::TakeDiscard);
                            },
                            TurnState::AwaitFlip { .. } => {
                                assert(la[0] == ActionKind::Flip);
                            },
                            TurnState::AwaitResolve { .. } => {
                                assert(la[0] == ActionKind::Swap);
                                assert(la[1] == ActionKind::Keep);
                            },
                        }
                    },
                    _ => {
                        assert(la[0] == ActionKind::NextHole);
                    },
                }
            }
            assert forall|k: ActionKind| #[trigger] la.contains(k) implies exists|a: Action|
                kind_of(a) == k && #[trigger] rule_error(mm, n, seat, a) is None by {
                let i = choose|i: int| 0 <= i < la.len() && la[i] == k;
                match mm.phase {
                    PhaseModel::Playing => {
                        let c = h.current as int;
                        match h.turn {
                            TurnState::AwaitDraw => {
                                if i == 0 {
                                    assert(rule_error(mm, n, seat, Action::DrawFromDeck) is None);
                                } else {
                                    assert(rule_error(mm, n, seat, Action::TakeDiscard) is None);
                                }
                            },
                            TurnState::AwaitFlip { .. } => {
                                let g = h.grids[c];
                                assert(g.len() == 6);
                                let s: u8 = if !g[0].face_up {
                                    0
                                } else if !g[1].face_up {
                                    1
                                } else if !g[2].face_up {
                                    2
                                } else if !g[3].face_up {
                                    3
                                } else if !g[4].face_up {
                                    4
                                } else {
                                    5
                                };
                                assert(!g[s as int].face_up);
                                assert(rule_error(mm, n, seat, Action::Flip { slot: s }) is None);
                            },
                            TurnState::AwaitResolve { .. } => {
                                if i == 0 {
                                    assert(rule_error(mm, n, seat, Action::Swap) is None);
                                } else {
                                    assert(rule_error(mm, n, seat, Action::Keep) is None);
                                }
                            },
                        }
                    },
                    _ => {
                        assert(rule_error(mm, n, seat, Action::NextHole) is None);
                    },
                }
            }
        }
    }
}

} // verus!
