//! Cards, pairing, the deck, and the match bookkeeping.

use golf_engine::card::standard_deck;
use golf_engine::score::{optimal_pairing, pair_value, pairs_with, score_hand};
use golf_engine::state::Slot;
use golf_engine::{
    Action, Card, Event, MatchConfig, MatchState, Phase, Rank, RuleError, SeatConfig, SeatKind,
    Suit,
};
use std::collections::HashSet;

fn c(rank: Rank, suit: Suit) -> Card {
    Card { rank, suit }
}

#[test]
fn standard_deck_has_52_distinct_cards() {
    let deck = standard_deck();
    assert_eq!(deck.len(), 52);
    let set: HashSet<Card> = deck.iter().copied().collect();
    assert_eq!(set.len(), 52);
    assert_eq!(deck[0], c(Rank::Ace, Suit::Clubs));
    assert_eq!(deck[51], c(Rank::King, Suit::Spades));
}

#[test]
fn symbols_and_values() {
    assert_eq!(Suit::Hearts.symbol(), '♥');
    assert_eq!(Suit::Spades.symbol(), '♠');
    assert_eq!(Rank::Ten.symbol(), "10");
    assert_eq!(Rank::Queen.symbol(), "Q");
    assert_eq!(Rank::Ace.unpaired_value(), -2);
    assert_eq!(Rank::Jack.unpaired_value(), 10);
    assert_eq!(Rank::Seven.unpaired_value(), 7);
}

#[test]
fn pairing_rules() {
    let ace = c(Rank::Ace, Suit::Clubs);
    let five = c(Rank::Five, Suit::Hearts);
    let five2 = c(Rank::Five, Suit::Spades);
    assert!(pairs_with(ace, five));
    assert!(pairs_with(five, five2));
    assert!(!pairs_with(five, c(Rank::Six, Suit::Hearts)));
    assert_eq!(pair_value(ace, five), -2);
    assert_eq!(pair_value(five, five2), 0);
    assert_eq!(pair_value(ace, c(Rank::Ace, Suit::Hearts)), -2);
}

#[test]
fn extreme_hands_score() {
    // Four aces: two absorb the low cards, two stay unpaired.
    let low = [
        c(Rank::Ace, Suit::Clubs),
        c(Rank::Ace, Suit::Diamonds),
        c(Rank::Ace, Suit::Hearts),
        c(Rank::Ace, Suit::Spades),
        c(Rank::Two, Suit::Clubs),
        c(Rank::Three, Suit::Clubs),
    ];
    assert_eq!(score_hand(&low), -8);
    // Ten, the three faces, a nine and an eight: nothing pairs.
    let high = [
        c(Rank::Ten, Suit::Clubs),
        c(Rank::Jack, Suit::Clubs),
        c(Rank::Queen, Suit::Clubs),
        c(Rank::King, Suit::Clubs),
        c(Rank::Nine, Suit::Clubs),
        c(Rank::Eight, Suit::Clubs),
    ];
    assert_eq!(score_hand(&high), 57);
    let (score, pairs) = optimal_pairing(&high);
    assert_eq!(score, 57);
    assert!(pairs.is_empty());
}

fn config(players: usize, holes: u8) -> MatchConfig {
    MatchConfig {
        seats: (0..players)
            .map(|i| SeatConfig {
                name: format!("P{i}"),
                kind: SeatKind::Human,
            })
            .collect(),
        holes,
    }
}

#[test]
fn nine_holes_and_seat_queries() {
    let cfg = MatchConfig::nine_holes(config(3, 1).seats);
    assert_eq!(cfg.holes, 9);
    let m = MatchState::new(cfg, 2).unwrap();
    assert_eq!(m.num_seats(), 3);
    assert_eq!(m.seat_to_act(), Some(0));
    assert!(!m.hole.players[0].all_face_up());
    assert_eq!(m.hole.players[0].cards().len(), 6);
}

#[test]
fn refused_actions_leave_the_match_unchanged() {
    let mut m = MatchState::new(config(2, 1), 13).unwrap();
    let deck = m.hole.deck.clone();
    let discard = m.hole.discard.clone();
    assert_eq!(m.apply(1, Action::TakeDiscard), Err(RuleError::NotYourTurn));
    assert_eq!(m.apply(0, Action::Keep), Err(RuleError::WrongPhase));
    assert_eq!(m.hole.deck, deck);
    assert_eq!(m.hole.discard, discard);
    assert_eq!(m.hole.current, 0);
}

#[test]
fn ties_share_the_win() {
    // Play one hole where everyone keeps their dealt cards, then end.
    let mut m = MatchState::new(config(2, 1), 8).unwrap();
    while m.phase == Phase::Playing {
        let seat = m.seat_to_act().unwrap();
        m.apply(seat, Action::DrawFromDeck).unwrap();
        let slot = m.hole.players[seat as usize]
            .grid
            .iter()
            .position(|s| !s.face_up)
            .unwrap() as u8;
        m.apply(seat, Action::Flip { slot }).unwrap();
        m.apply(seat, Action::Keep).unwrap();
    }
    let events = m.apply(1, Action::NextHole).unwrap();
    let Event::MatchEnded { totals, winners } = &events[0] else {
        panic!("expected MatchEnded");
    };
    let best = *totals.iter().min().unwrap();
    let expected: Vec<u8> = (0..2u8).filter(|&s| totals[s as usize] == best).collect();
    assert_eq!(*winners, expected);
}

fn face_down_count(m: &MatchState) -> usize {
    m.hole
        .players
        .iter()
        .map(|p| p.grid.iter().filter(|s| !s.face_up).count())
        .sum()
}

#[test]
fn face_up_cards_stay_and_each_turn_flips_one() {
    let mut m = MatchState::new(config(3, 1), 31).unwrap();
    let mut turns = 0;
    while m.phase == Phase::Playing {
        let seat = m.seat_to_act().unwrap();
        let before: Vec<Vec<Slot>> = m.hole.players.iter().map(|p| p.grid.clone()).collect();
        let down_before = face_down_count(&m);
        m.apply(seat, Action::DrawFromDeck).unwrap();
        assert_eq!(face_down_count(&m), down_before);
        let slot = m.hole.players[seat as usize]
            .grid
            .iter()
            .position(|s| !s.face_up)
            .unwrap() as u8;
        m.apply(seat, Action::Flip { slot }).unwrap();
        assert_eq!(face_down_count(&m), down_before - 1);
        m.apply(seat, Action::Swap).unwrap();
        assert_eq!(face_down_count(&m), down_before - 1);
        for (o, grid) in before.iter().enumerate() {
            for (s, old) in grid.iter().enumerate() {
                if old.face_up {
                    assert_eq!(m.hole.players[o].grid[s], *old);
                }
            }
        }
        turns += 1;
    }
    assert_eq!(turns, 18);
}

#[test]
fn deals_are_shuffled_permutations_of_the_deck() {
    let m = MatchState::new(config(2, 1), 1).unwrap();
    let mut dealt: Vec<Card> = m.hole.deck.clone();
    dealt.extend(m.hole.discard.iter().copied());
    for p in &m.hole.players {
        dealt.extend(p.grid.iter().map(|s| s.card));
    }
    assert_eq!(dealt.len(), 52);
    assert_ne!(m.hole.deck, standard_deck()[..m.hole.deck.len()].to_vec());
    let all: HashSet<Card> = dealt.iter().copied().collect();
    assert_eq!(all, standard_deck().into_iter().collect::<HashSet<Card>>());
    let other = MatchState::new(config(2, 1), 2).unwrap();
    assert_ne!(m.hole.deck, other.hole.deck);
}

#[test]
fn same_seed_same_match() {
    let a = MatchState::new(config(3, 2), 77).unwrap();
    let b = MatchState::new(config(3, 2), 77).unwrap();
    assert_eq!(a.hole.deck, b.hole.deck);
    assert_eq!(a.hole.discard, b.hole.discard);
    for (p, q) in a.hole.players.iter().zip(&b.hole.players) {
        assert_eq!(p.grid, q.grid);
    }
    // A cloned match plays on exactly like the original.
    let mut c = a.clone();
    let mut a = a;
    for action in [Action::DrawFromDeck, Action::Flip { slot: 1 }, Action::Swap] {
        assert_eq!(a.apply(0, action), c.apply(0, action));
    }
    assert_eq!(a.hole.discard, c.hole.discard);
}

fn event_cards(e: &Event) -> Vec<Card> {
    match e {
        Event::HoleDealt { discard_start, .. } => vec![*discard_start],
        Event::DrewFromDeck { card, .. }
        | Event::TookDiscard { card, .. }
        | Event::Flipped { card, .. } => vec![*card],
        Event::Swapped { placed, discarded, .. } => vec![*placed, *discarded],
        Event::Kept { discarded, .. } => vec![*discarded],
        _ => vec![],
    }
}

#[test]
fn events_name_no_hidden_card() {
    let mut m = MatchState::new(config(2, 2), 5).unwrap();
    let mut turn = 0u32;
    while !matches!(m.phase, Phase::MatchComplete { .. }) {
        let (seat, actions) = match m.phase {
            Phase::HoleComplete { .. } => (0, vec![Action::NextHole]),
            _ => {
                let seat = m.seat_to_act().unwrap();
                let slot = m.hole.players[seat as usize]
                    .grid
                    .iter()
                    .position(|s| !s.face_up)
                    .unwrap() as u8;
                let draw = if turn % 2 == 0 { Action::DrawFromDeck } else { Action::TakeDiscard };
                let resolve = if turn % 3 == 0 { Action::Swap } else { Action::Keep };
                (seat, vec![draw, Action::Flip { slot }, resolve])
            }
        };
        for action in actions {
            let events = m.apply(seat, action).unwrap();
            for card in events.iter().flat_map(event_cards) {
                for p in &m.hole.players {
                    assert!(p.grid.iter().all(|s| s.face_up || s.card != card));
                }
            }
        }
        turn += 1;
    }
}
