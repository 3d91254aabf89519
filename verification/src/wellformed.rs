//! The invariant of every reachable match state, and proofs that each rule
//! of play keeps it.

use vstd::prelude::*;
use vstd::arithmetic::div_mod::{lemma_mod_bound, lemma_small_mod};
use vstd::multiset::Multiset;
use crate::action::Action;
use crate::card::{standard_deck_spec, Card};
use crate::model::{
    dealt_from, end_step, is_fresh_deal,
    finish_step, turn_error, turn_step,
    drawn_cards, face_down_at, grid_cards, set_slot,
    all_up, face_down, hole_cards, hole_scores, starting_seat, total_face_down, winners_of,
    column_sum, HoleModel, MatchModel, PhaseModel,
};
use crate::score::{hand_score, lemma_hand_score_bounds};
use crate::state::{grid_card_seq, grid_face_up, MatchState, Seat, Slot, TurnState};

verus! {

broadcast use vstd::seq_lib::group_to_multiset_ensures, vstd::multiset::group_multiset_axioms;

// ---------------------------------------------------------------------------
// The invariant.

/// Position of seat `p` in the turn order of a hole that starts at `start`.
pub open spec fn offset(p: int, start: int, n: int) -> int {
    if p >= start {
        p - start
    } else {
        p + n - start
    }
}

/// Turns go round the table from the starting seat, one card flipped per
/// turn: seats before the current one in this hole's order have flipped one
/// card more than the seats after it (the current seat counts as "before"
/// once it has flipped this turn).
pub open spec fn rotation(grids: Seq<Seq<Slot>>, c: int, start: int, n: int, flipped: bool) -> bool {
    forall|p: int|
        0 <= p < n ==> {
            &&& offset(p, start, n) < offset(c, start, n) ==> face_down(#[trigger] grids[p]) == (
            if flipped {
                face_down(grids[c])
            } else {
                face_down(grids[c]) - 1
            })
            &&& offset(p, start, n) > offset(c, start, n) ==> face_down(grids[p]) == (if flipped {
                face_down(grids[c]) + 1
            } else {
                face_down(grids[c])
            })
        }
}

/// What must hold during play, by stage of the turn.
pub open spec fn turn_ok(h: HoleModel, n: nat, start: int) -> bool {
    let c = h.current as int;
    let d = face_down(h.grids[c]);
    let f = total_face_down(h.grids);
    match h.turn {
        TurnState::AwaitDraw => {
            &&& h.discard.len() > 0
            &&& h.deck.len() >= f
            &&& d >= 1
            &&& rotation(h.grids, c, start, n as int, false)
        },
        TurnState::AwaitFlip { .. } => {
            &&& h.deck.len() + 1 >= f
            &&& d >= 1
            &&& rotation(h.grids, c, start, n as int, false)
        },
        TurnState::AwaitResolve { flipped, .. } => {
            &&& flipped < 6
            &&& h.grids[c][flipped as int].face_up
            &&& h.deck.len() >= f
            &&& rotation(h.grids, c, start, n as int, true)
        },
    }
}

/// Table shape: 2–4 seats of six slots, bottom rows known to their owners.
pub open spec fn shape_ok(m: MatchModel, n: nat, holes: u8) -> bool {
    &&& 2 <= n <= 4
    &&& 1 <= holes
    &&& 1 <= m.hole_number <= holes
    &&& m.totals.len() == n
    &&& m.hole.grids.len() == n
    &&& m.hole.current < n
    &&& forall|p: int| 0 <= p < n ==> (#[trigger] m.hole.grids[p]).len() == 6
    &&& forall|p: int, s: int|
        0 <= p < n && 0 <= s < 6 ==> (#[trigger] m.hole.grids[p][s]).known_to_owner == (s >= 3)
}

/// Every one of the 52 cards is in exactly one place.
pub open spec fn cards_ok(h: HoleModel) -> bool {
    hole_cards(h).to_multiset() == standard_deck_spec().to_multiset()
}

/// One record per completed hole, each a hand score per seat, and the
/// totals are the seat-wise sums of the records.
pub open spec fn history_ok(m: MatchModel, n: nat) -> bool {
    &&& m.history.len() == (if m.phase is Playing {
        m.hole_number - 1
    } else {
        m.hole_number as int
    })
    &&& forall|k: int| 0 <= k < m.history.len() ==> (#[trigger] m.history[k]).len() == n
    &&& forall|k: int, s: int|
        0 <= k < m.history.len() && 0 <= s < n ==> -12 <= #[trigger] m.history[k][s] <= 60
    &&& forall|s: int|
        0 <= s < n ==> #[trigger] m.totals[s] == column_sum(m.history, s, m.history.len() as int)
}

/// What must hold in each phase.
pub open spec fn phase_ok(m: MatchModel, n: nat, holes: u8) -> bool {
    match m.phase {
        PhaseModel::Playing => turn_ok(m.hole, n, starting_seat(m.hole_number as int, n)),
        PhaseModel::HoleComplete { scores } => {
            &&& all_up(m.hole.grids)
            &&& m.hole.turn == TurnState::AwaitDraw
            &&& scores == hole_scores(m.hole.grids)
            &&& m.history.last() == scores
        },
        PhaseModel::MatchComplete { winners } => {
            &&& all_up(m.hole.grids)
            &&& m.hole.turn == TurnState::AwaitDraw
            &&& m.hole_number == holes
            &&& m.history.last() == hole_scores(m.hole.grids)
            &&& winners == winners_of(m.totals)
        },
    }
}

pub open spec fn model_wf(m: MatchModel, n: nat, holes: u8) -> bool {
    &&& shape_ok(m, n, holes)
    &&& cards_ok(m.hole)
    &&& history_ok(m, n)
    &&& phase_ok(m, n, holes)
}

impl MatchState {
    /// The invariant of every match state that `new` and `apply` produce.
    pub open spec fn wf(&self) -> bool {
        model_wf(self.model(), self.seats(), self.config.holes)
    }
}

// ---------------------------------------------------------------------------
// Arithmetic of the turn order.

proof fn lemma_offset(p: int, q: int, start: int, n: int)
    requires
        2 <= n <= 4,
        0 <= p < n,
        0 <= q < n,
        0 <= start < n,
    ensures
        0 <= offset(p, start, n) < n,
        offset(p, start, n) == offset(q, start, n) ==> p == q,
        offset(start, start, n) == 0,
{
}

/// The seat after `c` in turn order, and its position.
proof fn lemma_next_seat(c: int, start: int, n: int)
    requires
        2 <= n <= 4,
        0 <= c < n,
        0 <= start < n,
    ensures
        0 <= (c + 1) % n < n,
        offset(c, start, n) == n - 1 ==> offset((c + 1) % n, start, n) == 0,
        offset(c, start, n) < n - 1 ==> offset((c + 1) % n, start, n) == offset(c, start, n) + 1,
{
    if c + 1 < n {
        lemma_small_mod((c + 1) as nat, n as nat);
    } else {
        assert((c + 1) % n == 0) by {
            assert(c + 1 == n);
            vstd::arithmetic::div_mod::lemma_mod_self_0(n);
        }
    }
}

proof fn lemma_start_in_range(hole: int, n: nat)
    requires
        n >= 2,
    ensures
        0 <= starting_seat(hole, n) < n,
{
    lemma_mod_bound(hole - 1, n as int);
}

// ---------------------------------------------------------------------------
// Card bookkeeping.

proof fn lemma_hole_cards_ms(h: HoleModel)
    ensures
        hole_cards(h).to_multiset() == h.deck.to_multiset().add(h.discard.to_multiset()).add(
            grid_cards(h.grids).to_multiset(),
        ).add(drawn_cards(h.turn).to_multiset()),
{
    vstd::seq_lib::lemma_multiset_commutative(h.deck, h.discard);
    vstd::seq_lib::lemma_multiset_commutative(h.deck + h.discard, grid_cards(h.grids));
    vstd::seq_lib::lemma_multiset_commutative(
        h.deck + h.discard + grid_cards(h.grids),
        drawn_cards(h.turn),
    );
}

proof fn lemma_last_ms(a: Seq<Card>)
    requires
        a.len() > 0,
    ensures
        a.to_multiset() == a.drop_last().to_multiset().insert(a.last()),
        seq![a.last()].to_multiset() == Multiset::<Card>::empty().insert(a.last()),
{
    assert(a == a.drop_last().push(a.last()));
    assert(seq![a.last()] == Seq::<Card>::empty().push(a.last()));
}

proof fn lemma_single_ms(c: Card)
    ensures
        seq![c].to_multiset() == Multiset::<Card>::empty().insert(c),
{
    assert(seq![c] == Seq::<Card>::empty().push(c));
}

/// Position `6 * c + s` of the grid cards is slot `s` of seat `c`.
proof fn lemma_grid_index(c: int, s: int)
    requires
        0 <= c,
        0 <= s < 6,
    ensures
        (6 * c + s) / 6 == c,
        (6 * c + s) % 6 == s,
{
    assert((6 * c + s) / 6 == c) by (nonlinear_arith)
        requires
            0 <= c,
            0 <= s < 6,
    ;
    assert((6 * c + s) % 6 == s) by (nonlinear_arith)
        requires
            0 <= c,
            0 <= s < 6,
    ;
}

proof fn lemma_grid_pos(i: int, len: int)
    requires
        0 <= i < 6 * len,
    ensures
        0 <= i / 6 < len,
        0 <= i % 6 < 6,
        i == 6 * (i / 6) + i % 6,
{
    assert(0 <= i / 6 < len && 0 <= i % 6 < 6 && i == 6 * (i / 6) + i % 6) by (nonlinear_arith)
        requires
            0 <= i < 6 * len,
    ;
}

/// Replacing one slot replaces one grid card.
proof fn lemma_grid_cards_set_slot(grids: Seq<Seq<Slot>>, c: int, s: int, x: Slot)
    requires
        0 <= c < grids.len(),
        0 <= s < 6,
        forall|p: int| 0 <= p < grids.len() ==> (#[trigger] grids[p]).len() == 6,
    ensures
        0 <= 6 * c + s < grid_cards(grids).len(),
        grid_cards(grids)[6 * c + s] == grids[c][s].card,
        grid_cards(set_slot(grids, c, s, x)) == grid_cards(grids).update(6 * c + s, x.card),
{
    lemma_grid_index(c, s);
    let a = grid_cards(set_slot(grids, c, s, x));
    let b = grid_cards(grids).update(6 * c + s, x.card);
    assert(6 * c + s < 6 * grids.len()) by (nonlinear_arith)
        requires
            0 <= c < grids.len(),
            0 <= s < 6,
    ;
    assert forall|i: int| 0 <= i < a.len() implies a[i] == b[i] by {
        lemma_grid_pos(i, grids.len() as int);
        if i == 6 * c + s {
        } else {
            if i / 6 == c {
                assert(i % 6 != s);
            }
        }
    }
    assert(a =~= b);
}

/// Changing only whether slots are face up leaves the grid cards alone.
proof fn lemma_grid_cards_same_cards(g1: Seq<Seq<Slot>>, g2: Seq<Seq<Slot>>)
    requires
        g1.len() == g2.len(),
        forall|p: int| 0 <= p < g1.len() ==> (#[trigger] g1[p]).len() == 6,
        forall|p: int| 0 <= p < g2.len() ==> (#[trigger] g2[p]).len() == 6,
        forall|p: int, s: int|
            0 <= p < g1.len() && 0 <= s < 6 ==> (#[trigger] g1[p][s]).card == g2[p][s].card,
    ensures
        grid_cards(g1) == grid_cards(g2),
{
    assert forall|i: int| 0 <= i < grid_cards(g1).len() implies grid_cards(g1)[i] == grid_cards(
        g2,
    )[i] by {
        lemma_grid_pos(i, g1.len() as int);
        assert(g1[i / 6][i % 6].card == g2[i / 6][i % 6].card);
    }
    assert(grid_cards(g1) =~= grid_cards(g2));
}

// ---------------------------------------------------------------------------
// Face-down counting.

proof fn lemma_face_down_zero(g: Seq<Slot>)
    requires
        g.len() == 6,
    ensures
        face_down(g) >= 0,
        face_down(g) == 0 <==> grid_face_up(g),
{
    if face_down(g) == 0 {
        assert forall|s: int| 0 <= s < g.len() implies (#[trigger] g[s]).face_up by {
            assert(s == 0 || s == 1 || s == 2 || s == 3 || s == 4 || s == 5);
        }
    }
}

proof fn lemma_all_up(grids: Seq<Seq<Slot>>)
    requires
        grids.len() <= 4,
        forall|p: int| 0 <= p < grids.len() ==> (#[trigger] grids[p]).len() == 6,
    ensures
        total_face_down(grids) >= 0,
        forall|p: int| 0 <= p < grids.len() ==> face_down_at(grids, p) <= total_face_down(grids),
        all_up(grids) <==> forall|p: int| 0 <= p < grids.len() ==> face_down(#[trigger] grids[p]) == 0,
{
    assert forall|p: int| 0 <= p < grids.len() implies face_down(#[trigger] grids[p]) >= 0 && (
    face_down(grids[p]) == 0 <==> grid_face_up(grids[p])) by {
        lemma_face_down_zero(grids[p]);
    }
}

// ---------------------------------------------------------------------------
// Score records.

proof fn lemma_column_sum_push(h: Seq<Seq<i32>>, x: Seq<i32>, s: int, k: int)
    requires
        0 <= k <= h.len(),
    ensures
        column_sum(h.push(x), s, k) == column_sum(h, s, k),
    decreases k,
{
    if k > 0 {
        lemma_column_sum_push(h, x, s, k - 1);
        assert(h.push(x)[k - 1] == h[k - 1]);
    }
}

proof fn lemma_column_sum_bounds(h: Seq<Seq<i32>>, s: int, k: int)
    requires
        0 <= k <= h.len(),
        forall|j: int| 0 <= j < k ==> -12 <= #[trigger] h[j][s] <= 60,
    ensures
        -12 * k <= column_sum(h, s, k) <= 60 * k,
    decreases k,
{
    if k > 0 {
        lemma_column_sum_bounds(h, s, k - 1);
    }
}

/// In a well-formed match every total is at most 60 per recorded hole away
/// from zero, so adding a hole never overflows.
pub proof fn lemma_totals_bounds(m: MatchModel, n: nat, holes: u8)
    requires
        shape_ok(m, n, holes),
        history_ok(m, n),
    ensures
        forall|s: int|
            0 <= s < n ==> -12 * 255 <= #[trigger] m.totals[s] <= 60 * 255,
{
    assert forall|s: int| 0 <= s < n implies -12 * 255 <= #[trigger] m.totals[s] <= 60 * 255 by {
        lemma_column_sum_bounds(m.history, s, m.history.len() as int);
        assert(m.history.len() <= 255);
    }
}

// ---------------------------------------------------------------------------
// The rules keep the invariant.

/// What holds right after the drawn card has been placed or discarded, before
/// the turn is handed on.
pub open spec fn pre_finish_ok(m: MatchModel, n: nat, holes: u8) -> bool {
    let h = m.hole;
    let c = h.current as int;
    &&& shape_ok(m, n, holes)
    &&& m.phase is Playing
    &&& history_ok(m, n)
    &&& cards_ok(HoleModel { turn: TurnState::AwaitDraw, ..h })
    &&& h.discard.len() > 0
    &&& h.deck.len() >= total_face_down(h.grids)
    &&& rotation(h.grids, c, starting_seat(m.hole_number as int, n), n as int, true)
}

#[verifier::spinoff_prover]
proof fn lemma_finish_wf(m: MatchModel, n: nat, holes: u8)
    requires
        pre_finish_ok(m, n, holes),
    ensures
        model_wf(finish_step(m, n), n, holes),
{
    let g = m.hole.grids;
    let c = m.hole.current as int;
    let start = starting_seat(m.hole_number as int, n);
    let nn = n as int;
    lemma_all_up(g);
    lemma_start_in_range(m.hole_number as int, n);
    let m2 = finish_step(m, n);
    if all_up(g) {
        let scores = hole_scores(g);
        let k = m.history.len() as int;
        assert forall|p: int| 0 <= p < n implies -12 <= #[trigger] scores[p] <= 60 by {
            lemma_hand_score_bounds(grid_card_seq(g[p]));
        }
        lemma_totals_bounds(m, n, holes);
        assert forall|s: int| 0 <= s < n implies #[trigger] m2.totals[s] == column_sum(
            m2.history,
            s,
            m2.history.len() as int,
        ) by {
            lemma_column_sum_push(m.history, scores, s, k);
            assert(m2.history[k] == scores);
        }
        assert forall|j: int| 0 <= j < m2.history.len() implies (#[trigger] m2.history[j]).len()
            == n by {
            if j < k {
                assert(m2.history[j] == m.history[j]);
            }
        }
        assert forall|j: int, s: int| 0 <= j < m2.history.len() && 0 <= s < n implies -12
            <= #[trigger] m2.history[j][s] <= 60 by {
            if j < k {
                assert(m2.history[j] == m.history[j]);
            } else {
                assert(m2.history[j] == scores);
            }
        }
        assert(history_ok(m2, n));
    } else {
        let c2 = (c + 1) % nn;
        lemma_next_seat(c, start, nn);
        lemma_offset(c, c, start, nn);
        let d = face_down(g[c]);
        assert(m2.hole.current as int == c2);
        lemma_offset(c2, c, start, nn);
        if offset(c, start, nn) == nn - 1 {
            assert forall|p: int| 0 <= p < nn implies face_down(#[trigger] g[p]) == d by {
                lemma_offset(p, c, start, nn);
            }
            if d == 0 {
                assert forall|p: int| 0 <= p < g.len() implies face_down(#[trigger] g[p]) == 0 by {
                }
                assert(all_up(g));
            }
            assert forall|p: int| 0 <= p < nn implies {
                &&& offset(p, start, nn) < offset(c2, start, nn) ==> face_down(#[trigger] g[p])
                    == face_down(g[c2]) - 1
                &&& offset(p, start, nn) > offset(c2, start, nn) ==> face_down(g[p]) == face_down(
                    g[c2],
                )
            } by {
                lemma_offset(p, c2, start, nn);
            }
        } else {
            assert forall|p: int| 0 <= p < nn implies {
                &&& offset(p, start, nn) < offset(c2, start, nn) ==> face_down(#[trigger] g[p])
                    == face_down(g[c2]) - 1
                &&& offset(p, start, nn) > offset(c2, start, nn) ==> face_down(g[p]) == face_down(
                    g[c2],
                )
            } by {
                lemma_offset(p, c2, start, nn);
                lemma_offset(p, c, start, nn);
            }
        }
        assert(turn_ok(m2.hole, n, start));
    }
}

#[verifier::spinoff_prover]
proof fn lemma_draw_wf(m: MatchModel, n: nat, holes: u8, action: Action)
    requires
        model_wf(m, n, holes),
        m.phase is Playing,
        m.hole.turn is AwaitDraw,
        action is DrawFromDeck || action is TakeDiscard,
    ensures
        model_wf(turn_step(m, n, action), n, holes),
{
    let h = m.hole;
    let m2 = turn_step(m, n, action);
    lemma_all_up(h.grids);
    assert(face_down_at(h.grids, h.current as int) >= 1);
    lemma_hole_cards_ms(h);
    lemma_hole_cards_ms(m2.hole);
    if action is DrawFromDeck {
        lemma_last_ms(h.deck);
    } else {
        lemma_last_ms(h.discard);
    }
    assert(hole_cards(m2.hole).to_multiset() =~= hole_cards(h).to_multiset());
}

#[verifier::spinoff_prover]
proof fn lemma_flip_wf(m: MatchModel, n: nat, holes: u8, slot: u8)
    requires
        model_wf(m, n, holes),
        m.phase is Playing,
        m.hole.turn is AwaitFlip,
        slot < 6,
        !m.hole.grids[m.hole.current as int][slot as int].face_up,
    ensures
        model_wf(turn_step(m, n, Action::Flip { slot }), n, holes),
{
    let h = m.hole;
    let c = h.current as int;
    let g = h.grids;
    let m2 = turn_step(m, n, Action::Flip { slot });
    let g2 = m2.hole.grids;
    assert(g2 == set_slot(g, c, slot as int, Slot { face_up: true, ..g[c][slot as int] }));
    assert forall|p: int, s: int| 0 <= p < n && 0 <= s < 6 implies (#[trigger] g2[p][s]).card
        == g[p][s].card && g2[p][s].known_to_owner == g[p][s].known_to_owner by {}
    assert forall|p: int| 0 <= p < n implies (#[trigger] g2[p]).len() == 6 by {}
    lemma_grid_cards_same_cards(g2, g);
    assert(hole_cards(m2.hole) == hole_cards(h));
    assert(face_down(g2[c]) == face_down(g[c]) - 1);
    assert forall|p: int| 0 <= p < n && p != c implies #[trigger] g2[p] == g[p] by {}
    assert(total_face_down(g2) == total_face_down(g) - 1);
    let start = starting_seat(m.hole_number as int, n);
    assert forall|p: int| 0 <= p < n implies {
        &&& offset(p, start, n as int) < offset(c, start, n as int) ==> face_down(#[trigger] g2[p])
            == face_down(g2[c])
        &&& offset(p, start, n as int) > offset(c, start, n as int) ==> face_down(g2[p]) == face_down(
            g2[c],
        ) + 1
    } by {
        if p != c {
            assert(g2[p] == g[p]);
        }
    }
}

#[verifier::spinoff_prover]
proof fn lemma_resolve_wf(m: MatchModel, n: nat, holes: u8, action: Action)
    requires
        model_wf(m, n, holes),
        m.phase is Playing,
        m.hole.turn is AwaitResolve,
        action is Swap || action is Keep,
    ensures
        model_wf(turn_step(m, n, action), n, holes),
{
    let h = m.hole;
    let c = h.current as int;
    let g = h.grids;
    let drawn = h.turn->AwaitResolve_drawn;
    let f = h.turn->AwaitResolve_flipped as int;
    let old = g[c][f];
    if action is Swap {
        let g2 = set_slot(g, c, f, Slot { card: drawn, ..old });
        let pre = MatchModel {
            hole: HoleModel { grids: g2, discard: h.discard.push(old.card), ..h },
            ..m
        };
        assert(turn_step(m, n, action) == finish_step(pre, n));
        assert forall|p: int, s: int| 0 <= p < n && 0 <= s < 6 implies (#[trigger] g2[p][s]).face_up
            == g[p][s].face_up && g2[p][s].known_to_owner == g[p][s].known_to_owner by {}
        assert forall|p: int| 0 <= p < n implies (#[trigger] g2[p]).len() == 6 by {}
        assert forall|p: int| 0 <= p < n implies face_down(#[trigger] g2[p]) == face_down(g[p]) by {
            if p != c {
                assert(g2[p] == g[p]);
            }
        }
        assert(total_face_down(g2) == total_face_down(g));
        let after = HoleModel { turn: TurnState::AwaitDraw, ..pre.hole };
        lemma_hole_cards_ms(h);
        lemma_hole_cards_ms(after);
        lemma_grid_cards_set_slot(g, c, f, Slot { card: drawn, ..old });
        lemma_single_ms(drawn);
        let gc = grid_cards(g);
        assert(gc.to_multiset().count(old.card) > 0) by {
            assert(gc.contains(old.card)) by {
                assert(gc[6 * c + f] == old.card);
            }
        }
        assert(gc.update(6 * c + f, drawn).to_multiset() == gc.to_multiset().insert(drawn).remove(
            old.card,
        ));
        assert(hole_cards(after).to_multiset() =~= hole_cards(h).to_multiset());
        lemma_finish_wf(pre, n, holes);
    } else {
        let pre = MatchModel { hole: HoleModel { discard: h.discard.push(drawn), ..h }, ..m };
        assert(turn_step(m, n, action) == finish_step(pre, n));
        let after = HoleModel { turn: TurnState::AwaitDraw, ..pre.hole };
        lemma_hole_cards_ms(h);
        lemma_hole_cards_ms(after);
        lemma_single_ms(drawn);
        assert(hole_cards(after).to_multiset() =~= hole_cards(h).to_multiset());
        lemma_finish_wf(pre, n, holes);
    }
}

/// Every allowed turn action keeps the invariant.
pub proof fn lemma_turn_step_wf(m: MatchModel, n: nat, holes: u8, action: Action)
    requires
        model_wf(m, n, holes),
        m.phase is Playing,
        turn_error(m.hole, action) is None,
    ensures
        model_wf(turn_step(m, n, action), n, holes),
{
    match (m.hole.turn, action) {
        (TurnState::AwaitDraw, Action::DrawFromDeck) => lemma_draw_wf(m, n, holes, action),
        (TurnState::AwaitDraw, Action::TakeDiscard) => lemma_draw_wf(m, n, holes, action),
        (TurnState::AwaitFlip { .. }, Action::Flip { slot }) => lemma_flip_wf(m, n, holes, slot),
        (TurnState::AwaitResolve { .. }, Action::Swap) => lemma_resolve_wf(m, n, holes, action),
        (TurnState::AwaitResolve { .. }, Action::Keep) => lemma_resolve_wf(m, n, holes, action),
        _ => {},
    }
}

// ---------------------------------------------------------------------------
// Deals, the next hole, the end of the match.

/// A deal puts every card of the shuffled deck somewhere.
proof fn lemma_deal_cards(d: Seq<Card>, n: nat, start: Seat)
    requires
        d.len() == 52,
        2 <= n <= 4,
    ensures
        hole_cards(dealt_from(d, n, start)).to_multiset() == d.to_multiset(),
{
    let h = dealt_from(d, n, start);
    let k = 52 - 6 * n;
    let low = d.subrange(0, k);
    let high = d.subrange(k, 52);
    let gc = grid_cards(h.grids);
    assert forall|p: int| 0 <= p < n implies (#[trigger] h.grids[p]).len() == 6 by {}
    assert forall|i: int| 0 <= i < gc.len() implies gc[i] == high.reverse()[i] by {
        lemma_grid_pos(i, n as int);
        assert(gc[i] == d[51 - i]);
    }
    assert(gc =~= high.reverse());
    assert(h.deck + h.discard =~= low);
    assert(hole_cards(h) =~= low + high.reverse());
    vstd::seq_lib::lemma_multiset_commutative(low, high.reverse());
    high.lemma_reverse_to_multiset();
    vstd::seq_lib::lemma_multiset_commutative(low, high);
    assert(low + high =~= d);
}

/// A fresh deal satisfies everything the invariant asks of a hole about to
/// be played from its starting seat.
proof fn lemma_fresh_deal_ok(h: HoleModel, n: nat, start: Seat)
    requires
        is_fresh_deal(h, n, start),
        2 <= n <= 4,
        start < n,
    ensures
        cards_ok(h),
        h.grids.len() == n,
        h.current == start,
        forall|p: int| 0 <= p < n ==> (#[trigger] h.grids[p]).len() == 6,
        forall|p: int, s: int|
            0 <= p < n && 0 <= s < 6 ==> (#[trigger] h.grids[p][s]).known_to_owner == (s >= 3),
        turn_ok(h, n, start as int),
{
    let d = choose|d: Seq<Card>|
        d.len() == 52 && d.to_multiset() == standard_deck_spec().to_multiset() && h
            == #[trigger] dealt_from(d, n, start);
    lemma_deal_cards(d, n, start);
    assert forall|p: int| 0 <= p < n implies face_down(#[trigger] h.grids[p]) == 6 by {}
    assert(total_face_down(h.grids) == 6 * n);
    assert forall|p: int| 0 <= p < n implies {
        &&& offset(p, start as int, n as int) < offset(h.current as int, start as int, n as int)
            ==> face_down(#[trigger] h.grids[p]) == face_down(h.grids[h.current as int]) - 1
        &&& offset(p, start as int, n as int) > offset(h.current as int, start as int, n as int)
            ==> face_down(h.grids[p]) == face_down(h.grids[h.current as int])
    } by {
        lemma_offset(p, start as int, start as int, n as int);
    }
}

/// The model of the match after the scoreboard of a hole that was not the
/// last, given the new deal.
pub open spec fn next_hole_step(m: MatchModel, h: HoleModel) -> MatchModel {
    MatchModel {
        hole_number: (m.hole_number + 1) as u8,
        hole: h,
        phase: PhaseModel::Playing,
        ..m
    }
}

pub proof fn lemma_next_hole_wf(m: MatchModel, n: nat, holes: u8, h: HoleModel)
    requires
        model_wf(m, n, holes),
        m.phase is HoleComplete,
        m.hole_number < holes,
        is_fresh_deal(h, n, starting_seat(m.hole_number + 1, n) as u8),
    ensures
        model_wf(next_hole_step(m, h), n, holes),
{
    lemma_start_in_range(m.hole_number + 1, n);
    lemma_fresh_deal_ok(h, n, starting_seat(m.hole_number + 1, n) as u8);
}

pub proof fn lemma_end_wf(m: MatchModel, n: nat, holes: u8)
    requires
        model_wf(m, n, holes),
        m.phase is HoleComplete,
        m.hole_number >= holes,
    ensures
        model_wf(end_step(m), n, holes),
{
}

/// The first hole of a new match satisfies the invariant.
pub proof fn lemma_new_wf(m: MatchModel, n: nat, holes: u8)
    requires
        2 <= n <= 4,
        holes >= 1,
        m.hole_number == 1,
        m.totals == Seq::new(n, |i: int| 0i32),
        m.history.len() == 0,
        m.phase is Playing,
        is_fresh_deal(m.hole, n, 0),
    ensures
        model_wf(m, n, holes),
{
    assert(starting_seat(1, n) == 0) by {
        lemma_small_mod(0, n);
    }
    lemma_fresh_deal_ok(m.hole, n, 0);
}

/// During play, at the start of a turn there is a card to draw from either pile.
pub proof fn lemma_wf_can_draw(m: MatchModel, n: nat, holes: u8)
    requires
        model_wf(m, n, holes),
        m.phase is Playing,
        m.hole.turn is AwaitDraw,
    ensures
        m.hole.deck.len() >= 1,
        m.hole.discard.len() >= 1,
{
    lemma_all_up(m.hole.grids);
    assert(face_down_at(m.hole.grids, m.hole.current as int) >= 1);
}

/// A fresh deal has a one-card discard pile.
pub proof fn lemma_fresh_deal_discard(h: HoleModel, n: nat, start: Seat)
    requires
        is_fresh_deal(h, n, start),
    ensures
        h.discard.len() == 1,
{
    let d = choose|d: Seq<Card>|
        d.len() == 52 && d.to_multiset() == standard_deck_spec().to_multiset() && h
            == #[trigger] dealt_from(d, n, start);
}

/// Pile sizes fit in a byte and every grid has six slots.
pub proof fn lemma_view_sizes(m: MatchModel, n: nat, holes: u8)
    requires
        model_wf(m, n, holes),
    ensures
        m.hole.deck.len() <= 52,
        m.hole.discard.len() <= 52,
        n <= 4,
        m.hole.grids.len() == n,
        forall|p: int| 0 <= p < n ==> (#[trigger] m.hole.grids[p]).len() == 6,
{
    crate::card::lemma_standard_deck_distinct();
    assert(hole_cards(m.hole).len() == hole_cards(m.hole).to_multiset().len());
    assert(standard_deck_spec().len() == standard_deck_spec().to_multiset().len());
    assert(hole_cards(m.hole).len() == 52);
}

/// No card is in two places at once.
pub proof fn lemma_cards_distinct(m: MatchModel, n: nat, holes: u8)
    requires
        model_wf(m, n, holes),
    ensures
        hole_cards(m.hole).no_duplicates(),
        forall|o: int, s: int|
            0 <= o < n && 0 <= s < 6 ==> hole_cards(m.hole)[m.hole.deck.len() + m.hole.discard.len()
                + 6 * o + s] == #[trigger] m.hole.grids[o][s].card,
        hole_cards(m.hole).len() == m.hole.deck.len() + m.hole.discard.len() + 6 * n + drawn_cards(
            m.hole.turn,
        ).len(),
{
    let hc = hole_cards(m.hole);
    crate::card::lemma_standard_deck_distinct();
    standard_deck_spec().lemma_multiset_has_no_duplicates();
    hc.lemma_multiset_has_no_duplicates_conv();
    let base = m.hole.deck.len() + m.hole.discard.len();
    assert forall|o: int, s: int| 0 <= o < n && 0 <= s < 6 implies hc[base + 6 * o + s]
        == #[trigger] m.hole.grids[o][s].card by {
        lemma_grid_index(o, s);
        assert(6 * o + s < 6 * n) by (nonlinear_arith)
            requires
                0 <= o < n,
                0 <= s < 6,
        ;
        assert(grid_cards(m.hole.grids)[6 * o + s] == m.hole.grids[o][s].card);
    }
}

} // verus!
