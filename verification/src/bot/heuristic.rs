//! The expected-value bot's exact parts: what it knows of its own hand, the
//! best score of its known cards, the card count behind `Hard`, and how it
//! picks a slot to flip when the drawn card is junk. The expected-value
//! arithmetic itself is done in floating point by the caller.

use vstd::prelude::*;
use crate::card::{Card, Rank};
use crate::rng::choose_slot;
use crate::score::{best_val, lemma_best_val_bounds, pair_value, pairs_spec, pairs_with, val_upto};
use crate::state::{SlotIdx, TurnState};
use crate::view::{PlayerView, SeatView, SlotView};
use crate::model::drawn_cards;
use crate::bot::easy::{own_grid, shows_rank};
use crate::bot::easy::shown_card;
use rand_chacha::ChaCha8Rng;

verus! {

/// Expected-value bot. Evaluates hand knowledge (known cards optimally
/// paired, unknown slots at their expected cost) and picks the action that
/// minimizes the evaluation. `Hard` additionally conditions the unknown-card
/// distribution on every card currently visible on the table.
pub struct HeuristicBot {
    card_counting: bool,
}

impl HeuristicBot {
    /// Whether this bot counts the cards it can see.
    pub closed spec fn counts_cards(&self) -> bool {
        self.card_counting
    }

    pub fn medium() -> (b: Self)
        ensures
            !b.counts_cards(),
    {
        HeuristicBot { card_counting: false }
    }

    pub fn hard() -> (b: Self)
        ensures
            b.counts_cards(),
    {
        HeuristicBot { card_counting: true }
    }

    pub fn card_counting(&self) -> (r: bool)
        ensures
            r == self.counts_cards(),
    {
        self.card_counting
    }
}

/// One slot of the bot's own hand as it knows it.
#[derive(Debug, Clone, Copy, PartialEq, Eq, Structural)]
pub struct HandSlot {
    pub card: Option<Card>,
    pub frozen: bool,
}

/// What the viewer knows of one of its own slots.
pub open spec fn hand_slot(s: SlotView) -> HandSlot {
    match s {
        SlotView::Hidden => HandSlot { card: None, frozen: false },
        SlotView::Peeked { card } => HandSlot { card: Some(card), frozen: false },
        SlotView::FaceUp { card } => HandSlot { card: Some(card), frozen: true },
    }
}

/// The viewer's knowledge of its own six slots.
pub fn my_hand(view: &PlayerView) -> (hand: [HandSlot; 6])
    requires
        view.viewer is Some,
        (view.viewer->Some_0 as int) < view.seats@.len(),
        view.seats@[view.viewer->Some_0 as int].grid@.len() >= 6,
    ensures
        forall|i: int|
            0 <= i < 6 ==> hand@[i] == hand_slot(view.seats@[view.viewer->Some_0 as int].grid@[i]),
{
    let me = match view.viewer {
        Some(seat) => seat as usize,
        None => {
            proof {
                assert(false);
            }
            0
        },
    };
    let grid = &view.seats[me].grid;
    let mut hand = [HandSlot { card: None, frozen: false }; 6];
    let mut i: usize = 0;
    while i < 6
        invariant
            i <= 6,
            grid@.len() >= 6,
            grid@ == view.seats@[me as int].grid@,
            me == view.viewer->Some_0,
            forall|j: int| 0 <= j < i ==> hand@[j] == hand_slot(grid@[j]),
        decreases 6 - i,
    {
        let slot = match grid[i] {
            SlotView::Hidden => HandSlot { card: None, frozen: false },
            SlotView::Peeked { card } => HandSlot { card: Some(card), frozen: false },
            SlotView::FaceUp { card } => HandSlot { card: Some(card), frozen: true },
        };
        hand[i] = slot;
        i += 1;
    }
    hand
}

/// The known cards of a hand, in slot order.
pub open spec fn known_of(h: Seq<HandSlot>) -> Seq<Card>
    decreases h.len(),
{
    if h.len() == 0 {
        Seq::empty()
    } else {
        let rest = known_of(h.drop_last());
        match h.last().card {
            Some(c) => rest.push(c),
            None => rest,
        }
    }
}

/// The known cards of the hand, in slot order; the other slots are unknown.
pub fn known_cards(hand: &[HandSlot; 6]) -> (cards: Vec<Card>)
    ensures
        cards@ == known_of(hand@),
{
    let mut cards: Vec<Card> = Vec::new();
    let mut i: usize = 0;
    while i < 6
        invariant
            i <= 6,
            hand@.len() == 6,
            cards@ == known_of(hand@.take(i as int)),
        decreases 6 - i,
    {
        assert(hand@.take(i + 1).drop_last() == hand@.take(i as int));
        match hand[i].card {
            Some(c) => cards.push(c),
            None => {},
        }
        i += 1;
    }
    assert(hand@.take(6) == hand@);
    cards
}

proof fn lemma_known_of_len(h: Seq<HandSlot>)
    ensures
        known_of(h).len() <= h.len(),
    decreases h.len(),
{
    if h.len() > 0 {
        lemma_known_of_len(h.drop_last());
    }
}

/// Whether swapping the drawn card into the flipped slot beats keeping the
/// flipped card: both hands have the same unknown slots, so it comes down to
/// the best score of their known cards.
pub fn swap_beats_keep(hand: &[HandSlot; 6], flipped: SlotIdx, drawn: Card) -> (r: bool)
    requires
        flipped < 6,
        hand@[flipped as int].card is Some,
    ensures
        r == (best_val(
            known_of(hand@.update(flipped as int, HandSlot { card: Some(drawn), frozen: true })),
        ) < best_val(known_of(hand@))),
{
    let mut with_swap = *hand;
    with_swap[flipped as usize] = HandSlot { card: Some(drawn), frozen: true };
    assert(with_swap@ == hand@.update(flipped as int, HandSlot { card: Some(drawn), frozen: true }));
    let keep = known_cards(hand);
    let swap = known_cards(&with_swap);
    proof {
        lemma_known_of_len(hand@);
        lemma_known_of_len(with_swap@);
    }
    best_known(swap.as_slice()) < best_known(keep.as_slice())
}

/// Optimal score of a list of known cards (every pairing is searched).
pub fn best_known(cards: &[Card]) -> (r: i32)
    requires
        cards@.len() * 10 <= i32::MAX,
    ensures
        r == best_val(cards@),
    decreases cards@.len(),
{
    if cards.len() == 0 {
        return 0;
    }
    let first = cards[0];
    let mut rest: Vec<Card> = Vec::new();
    let mut i: usize = 1;
    while i < cards.len()
        invariant
            1 <= i <= cards@.len(),
            rest@ == cards@.subrange(1, i as int),
        decreases cards@.len() - i,
    {
        rest.push(cards[i]);
        i += 1;
    }
    assert(rest@ == cards@.drop_first());
    proof {
        lemma_best_val_bounds(rest@);
    }
    let ghost base = first.rank.value() + best_val(rest@);
    assert(rest@.len() + 1 == cards@.len());
    let sub = best_known(rest.as_slice());
    assert(sub == best_val(rest@));
    let mut best = first.rank.unpaired_value() + sub;
    let mut i: usize = 0;
    while i < rest.len()
        invariant
            i <= rest@.len(),
            rest@ == cards@.drop_first(),
            first == cards@[0],
            cards@.len() * 10 <= i32::MAX,
            rest@.len() + 1 == cards@.len(),
            base == first.rank.value() + best_val(rest@),
            -2 * (rest@.len() + 1) <= base <= 10 * (rest@.len() + 1),
            best == val_upto(first, rest@, i as int, base),
        decreases rest@.len() - i,
    {
        proof {
            crate::score::lemma_val_upto_bounds_pub(first, rest@, i as int, base);
        }
        if pairs_with(first, rest[i]) {
            let mut remaining: Vec<Card> = Vec::new();
            let mut t: usize = 0;
            while t < rest.len()
                invariant
                    i < rest@.len(),
                    t <= rest@.len(),
                    remaining@ == (if t <= i {
                        rest@.subrange(0, t as int)
                    } else {
                        rest@.remove(i as int).subrange(0, t - 1)
                    }),
                decreases rest@.len() - t,
            {
                if t != i {
                    remaining.push(rest[t]);
                }
                t += 1;
                proof {
                    if t > i + 1 {
                        assert(rest@.remove(i as int).subrange(0, t - 1) == rest@.remove(
                            i as int,
                        ).subrange(0, t - 2).push(rest@[t - 1]));
                    }
                }
            }
            assert(remaining@ == rest@.remove(i as int));
            proof {
                lemma_best_val_bounds(remaining@);
            }
            let candidate = pair_value(first, rest[i]) + best_known(remaining.as_slice());
            best = best.min(candidate);
        }
        i += 1;
    }
    best
}

// ---------------------------------------------------------------------------
// Flipping when the drawn card is junk.

/// Points slot `i` of the hand would score unpaired (its card must be known).
pub open spec fn slot_value(h: Seq<HandSlot>, i: int) -> int {
    h[i].card->Some_0.rank.value()
}

/// Slot `i` holds a known card that some other known card of the hand pairs.
pub open spec fn pairs_other(h: Seq<HandSlot>, i: int) -> bool {
    exists|j: int|
        0 <= j < h.len() && j != i && #[trigger] h[j].card is Some && pairs_spec(
            h[i].card->Some_0,
            h[j].card->Some_0,
        )
}

/// Slot `i` is face down and known. With `safe_only`, it must also be cheap
/// to freeze: worth 4 or less, or pairing another known card.
pub open spec fn flip_candidate(h: Seq<HandSlot>, i: int, safe_only: bool) -> bool {
    &&& 0 <= i < h.len()
    &&& !h[i].frozen
    &&& h[i].card is Some
    &&& (safe_only ==> slot_value(h, i) <= 4 || pairs_other(h, i))
}

/// Slot `i` is the first candidate of least value.
pub open spec fn first_cheapest(h: Seq<HandSlot>, i: int, safe_only: bool) -> bool {
    &&& flip_candidate(h, i, safe_only)
    &&& forall|j: int|
        #![trigger flip_candidate(h, j, safe_only)]
        0 <= j < i && flip_candidate(h, j, safe_only) ==> slot_value(h, j) > slot_value(h, i)
    &&& forall|j: int|
        #![trigger flip_candidate(h, j, safe_only)]
        i < j < h.len() && flip_candidate(h, j, safe_only) ==> slot_value(h, j) >= slot_value(h, i)
}

/// Which slot the bot flips when the drawn card is not worth keeping: the
/// first cheapest safe known slot; failing that, an unknown slot; failing
/// that, the first cheapest known face-down slot.
pub open spec fn junk_flip_choice(h: Seq<HandSlot>, slot: int) -> bool {
    if exists|i: int| #[trigger] flip_candidate(h, i, true) {
        first_cheapest(h, slot, true)
    } else if exists|i: int| 0 <= i < h.len() && #[trigger] h[i].card is None {
        0 <= slot < h.len() && h[slot].card is None
    } else {
        first_cheapest(h, slot, false)
    }
}

fn pairs_another(hand: &[HandSlot; 6], i: usize) -> (r: bool)
    requires
        i < 6,
        hand@[i as int].card is Some,
    ensures
        r == pairs_other(hand@, i as int),
{
    let card = match hand[i].card {
        Some(c) => c,
        None => {
            proof {
                assert(false);
            }
            return false;
        },
    };
    let mut j: usize = 0;
    while j < 6
        invariant
            j <= 6,
            i < 6,
            hand@[i as int].card == Some(card),
            forall|k: int|
                #![trigger hand@[k].card]
                0 <= k < j && k != i && hand@[k].card is Some ==> !pairs_spec(card, hand@[k].card->Some_0),
        decreases 6 - j,
    {
        if j != i {
            match hand[j].card {
                Some(c) => {
                    if pairs_with(card, c) {
                        assert(hand@[j as int].card is Some);
                        return true;
                    }
                },
                None => {},
            }
        }
        j += 1;
    }
    false
}

/// The first cheapest flip candidate, if there is one.
fn cheapest_candidate(hand: &[HandSlot; 6], safe_only: bool) -> (r: Option<SlotIdx>)
    ensures
        r is None <==> !exists|i: int| #[trigger] flip_candidate(hand@, i, safe_only),
        r matches Some(s) ==> first_cheapest(hand@, s as int, safe_only),
{
    let mut best: Option<SlotIdx> = None;
    let mut best_value: i32 = 0;
    let mut i: usize = 0;
    while i < 6
        invariant
            i <= 6,
            hand@.len() == 6,
            best is None <==> forall|j: int| 0 <= j < i ==> !#[trigger] flip_candidate(hand@, j, safe_only),
            best matches Some(b) ==> {
                &&& b < i
                &&& flip_candidate(hand@, b as int, safe_only)
                &&& best_value == slot_value(hand@, b as int)
                &&& forall|j: int|
                    #![trigger flip_candidate(hand@, j, safe_only)]
                    0 <= j < b && flip_candidate(hand@, j, safe_only) ==> slot_value(hand@, j) > best_value
                &&& forall|j: int|
                    #![trigger flip_candidate(hand@, j, safe_only)]
                    b < j < i && flip_candidate(hand@, j, safe_only) ==> slot_value(hand@, j) >= best_value
            },
        decreases 6 - i,
    {
        let slot = hand[i];
        if !slot.frozen {
            match slot.card {
                Some(card) => {
                    let eligible = if safe_only {
                        card.rank.unpaired_value() <= 4 || pairs_another(hand, i)
                    } else {
                        true
                    };
                    assert(eligible == flip_candidate(hand@, i as int, safe_only));
                    if eligible {
                        let v = card.rank.unpaired_value();
                        match best {
                            None => {
                                best = Some(i as SlotIdx);
                                best_value = v;
                            },
                            Some(_) => {
                                if v < best_value {
                                    best = Some(i as SlotIdx);
                                    best_value = v;
                                }
                            },
                        }
                    }
                },
                None => {
                    assert(!flip_candidate(hand@, i as int, safe_only));
                },
            }
        } else {
            assert(!flip_candidate(hand@, i as int, safe_only));
        }
        i += 1;
    }
    proof {
        assert forall|j: int| #[trigger] flip_candidate(hand@, j, safe_only) implies 0 <= j < 6 by {}
    }
    best
}

/// The slot to flip when the drawn card is junk (see `junk_flip_choice`);
/// the unknown slot, when it comes to that, is picked at random.
pub fn junk_flip(hand: &[HandSlot; 6], rng: &mut ChaCha8Rng) -> (slot: SlotIdx)
    requires
        exists|i: int| 0 <= i < 6 && !#[trigger] hand@[i].frozen,
    ensures
        junk_flip_choice(hand@, slot as int),
{
    match cheapest_candidate(hand, true) {
        Some(slot) => {
            return slot;
        },
        None => {},
    }
    let mut unknown: Vec<SlotIdx> = Vec::new();
    let mut i: usize = 0;
    while i < 6
        invariant
            i <= 6,
            hand@.len() == 6,
            forall|k: int| 0 <= k < unknown@.len() ==> #[trigger] unknown@[k] < 6 && hand@[unknown@[k] as int].card is None,
            forall|k: int| 0 <= k < i && #[trigger] hand@[k].card is None ==> unknown@.contains(k as u8),
        decreases 6 - i,
    {
        let ghost before = unknown@;
        if hand[i].card.is_none() {
            unknown.push(i as SlotIdx);
            assert(unknown@[unknown@.len() - 1] == i as u8);
            assert forall|x: u8| before.contains(x) implies unknown@.contains(x) by {
                let k = choose|k: int| 0 <= k < before.len() && before[k] == x;
                assert(unknown@[k] == x);
            }
        }
        i += 1;
    }
    match choose_slot(&unknown, rng) {
        Some(slot) => {
            proof {
                let k = choose|k: int| 0 <= k < unknown@.len() && unknown@[k] == slot;
                assert(hand@[unknown@[k] as int].card is None);
            }
            return slot;
        },
        None => {},
    }
    proof {
        assert forall|k: int| 0 <= k < 6 implies #[trigger] hand@[k].card is Some by {
            if hand@[k].card is None {
                assert(unknown@.contains(k as u8));
            }
        }
        let i = choose|i: int| 0 <= i < 6 && !#[trigger] hand@[i].frozen;
        assert(flip_candidate(hand@, i, false));
    }
    match cheapest_candidate(hand, false) {
        Some(slot) => slot,
        None => {
            proof {
                assert(false);
            }
            0
        },
    }
}

// ---------------------------------------------------------------------------
// Card counting.

/// How many slots of `g` show a card of rank `r`.
pub open spec fn grid_rank_count(g: Seq<SlotView>, r: Rank) -> int
    decreases g.len(),
{
    if g.len() == 0 {
        0
    } else {
        grid_rank_count(g.drop_last(), r) + if shows_rank(g.last(), r) {
            1int
        } else {
            0int
        }
    }
}

/// How many slots of all the seats show a card of rank `r`.
pub open spec fn seats_rank_count(seats: Seq<SeatView>, r: Rank) -> int
    decreases seats.len(),
{
    if seats.len() == 0 {
        0
    } else {
        seats_rank_count(seats.drop_last(), r) + grid_rank_count(seats.last().grid@, r)
    }
}

/// How many cards of rank `r` the view shows: on the table, on top of the
/// discard pile, and as the drawn card.
pub open spec fn seen_rank_count(v: &PlayerView, r: Rank) -> int {
    seats_rank_count(v.seats@, r) + (if v.discard_top matches Some(c) && c.rank == r {
        1int
    } else {
        0int
    }) + (if drawn_cards(v.turn).len() > 0 && drawn_cards(v.turn)[0].rank == r {
        1int
    } else {
        0int
    })
}

/// Cards of a rank still unaccounted for when `seen` of its four are in view.
pub open spec fn unseen_of(seen: int) -> int {
    if seen >= 4 {
        0
    } else {
        4 - seen
    }
}

fn rank_index(r: Rank) -> (i: usize)
    ensures
        i == r.index(),
        i < 13,
        Rank::nth(i as int) == r,
{
    match r {
        Rank::Ace => 0,
        Rank::Two => 1,
        Rank::Three => 2,
        Rank::Four => 3,
        Rank::Five => 4,
        Rank::Six => 5,
        Rank::Seven => 6,
        Rank::Eight => 7,
        Rank::Nine => 8,
        Rank::Ten => 9,
        Rank::Jack => 10,
        Rank::Queen => 11,
        Rank::King => 12,
    }
}

proof fn lemma_nth_distinct(k: int, r: Rank)
    requires
        0 <= k < 13,
    ensures
        Rank::nth(k) == r <==> k == r.index(),
{
}

/// Counts one more card of rank `r` as seen.
fn saw(remaining: &mut [i32; 13], r: Rank)
    ensures
        forall|k: int|
            0 <= k < 13 ==> #[trigger] final(remaining)@[k] == if Rank::nth(k) == r && old(
                remaining,
            )@[k] > 0 {
                old(remaining)@[k] - 1
            } else {
                old(remaining)@[k] as int
            },
{
    let idx = rank_index(r);
    if remaining[idx] > 0 {
        remaining[idx] = remaining[idx] - 1;
    }
    proof {
        assert forall|k: int| 0 <= k < 13 implies (Rank::nth(k) == r <==> k == idx) by {
            lemma_nth_distinct(k, r);
        }
    }
}

/// For each rank (in `Rank::ALL` order), how many of its four cards are not
/// in view: the card count behind the `Hard` bot's blind-draw odds.
pub fn unseen_rank_counts(view: &PlayerView) -> (counts: [i32; 13])
    ensures
        forall|k: int|
            0 <= k < 13 ==> #[trigger] counts@[k] == unseen_of(seen_rank_count(view, Rank::nth(k))),
{
    let mut remaining: [i32; 13] = [4; 13];
    let mut o: usize = 0;
    while o < view.seats.len()
        invariant
            o <= view.seats@.len(),
            forall|k: int|
                0 <= k < 13 ==> #[trigger] remaining@[k] == unseen_of(
                    seats_rank_count(view.seats@.take(o as int), Rank::nth(k)),
                ),
        decreases view.seats@.len() - o,
    {
        let grid = &view.seats[o].grid;
        let ghost done = view.seats@.take(o as int);
        let mut s: usize = 0;
        while s < grid.len()
            invariant
                s <= grid@.len(),
                grid@ == view.seats@[o as int].grid@,
                done == view.seats@.take(o as int),
                forall|k: int|
                    0 <= k < 13 ==> #[trigger] remaining@[k] == unseen_of(
                        seats_rank_count(done, Rank::nth(k)) + grid_rank_count(grid@.take(s as int), Rank::nth(k)),
                    ),
            decreases grid@.len() - s,
        {
            assert(grid@.take(s + 1).drop_last() == grid@.take(s as int));
            match grid[s] {
                SlotView::Peeked { card } => saw(&mut remaining, card.rank),
                SlotView::FaceUp { card } => saw(&mut remaining, card.rank),
                SlotView::Hidden => {},
            }
            s += 1;
        }
        assert(grid@.take(grid@.len() as int) == grid@);
        assert(view.seats@.take(o + 1).drop_last() == done);
        o += 1;
    }
    assert(view.seats@.take(view.seats@.len() as int) == view.seats@);
    match view.discard_top {
        Some(top) => saw(&mut remaining, top.rank),
        None => {},
    }
    match view.turn {
        TurnState::AwaitFlip { drawn, .. } => saw(&mut remaining, drawn.rank),
        TurnState::AwaitResolve { drawn, .. } => saw(&mut remaining, drawn.rank),
        TurnState::AwaitDraw => {},
    }
    remaining
}

/// The junk flip always picks one of the viewer's face-down slots, so it
/// is a legal flip.
pub proof fn lemma_junk_flip_face_down(v: &PlayerView, hand: Seq<HandSlot>, slot: int)
    requires
        v.viewer is Some,
        (v.viewer->Some_0 as int) < v.seats@.len(),
        own_grid(v).len() >= 6,
        hand.len() == 6,
        forall|i: int| 0 <= i < 6 ==> hand[i] == hand_slot(#[trigger] own_grid(v)[i]),
        junk_flip_choice(hand, slot),
    ensures
        0 <= slot < 6,
        !(own_grid(v)[slot] is FaceUp),
{
    assert(hand[slot] == hand_slot(own_grid(v)[slot]));
}

} // verus!
