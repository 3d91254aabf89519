//! Bots: the easy bot always plays legally, and the expected-value bot's
//! exact parts (its hand, its best known score, its card count, its junk
//! flip) give the expected answers.

use golf_engine::bot::heuristic::{
    best_known, junk_flip, known_cards, my_hand, swap_beats_keep, unseen_rank_counts, HandSlot,
};
use golf_engine::bot::{Difficulty, EasyBot, HeuristicBot};
use rand::SeedableRng;
use rand_chacha::ChaCha8Rng;
use golf_engine::{
    Action, Card, MatchConfig, MatchState, Phase, Rank, SeatConfig, SeatKind, SlotView, Suit,
    TurnState, Viewer,
};

fn bot_config(players: usize, holes: u8) -> MatchConfig {
    MatchConfig {
        seats: (0..players)
            .map(|i| SeatConfig {
                name: format!("Easy {i}"),
                kind: SeatKind::Bot {
                    difficulty: Difficulty::Easy,
                },
            })
            .collect(),
        holes,
    }
}

fn card(rank: Rank) -> Card {
    Card {
        rank,
        suit: Suit::Spades,
    }
}

#[test]
fn easy_bots_never_choose_illegal_actions() {
    for seed in 0..30u64 {
        let players = 2 + (seed % 3) as usize;
        let mut m = MatchState::new(bot_config(players, 3), seed).unwrap();
        let mut bot = EasyBot;
        let mut rng = ChaCha8Rng::seed_from_u64(seed);
        loop {
            match &m.phase {
                Phase::MatchComplete { .. } => break,
                Phase::HoleComplete { .. } => {
                    m.apply(0, Action::NextHole).unwrap();
                }
                Phase::Playing => {
                    let seat = m.seat_to_act().unwrap();
                    let view = m.view(Viewer::Seat(seat));
                    let action = bot.decide(&view, &mut rng);
                    m.apply(seat, action).unwrap_or_else(|e| {
                        panic!("bot {seat} chose {action:?}: {} (seed {seed})", e.message())
                    });
                }
            }
        }
    }
}

#[test]
fn easy_bot_takes_good_discards() {
    let m = MatchState::new(bot_config(2, 1), 4).unwrap();
    let view = m.view(Viewer::Seat(0));
    let top = view.discard_top.unwrap();
    let action = EasyBot.decide(&view, &mut ChaCha8Rng::seed_from_u64(1));
    let knows = view.seats[0].grid.iter().any(|s| match s {
        SlotView::Peeked { card } | SlotView::FaceUp { card } => card.rank == top.rank,
        SlotView::Hidden => false,
    });
    let take = top.rank == Rank::Ace || knows || top.rank.unpaired_value() <= 3;
    assert_eq!(
        action,
        if take {
            Action::TakeDiscard
        } else {
            Action::DrawFromDeck
        }
    );
}

#[test]
fn heuristic_bot_levels() {
    assert!(!HeuristicBot::medium().card_counting());
    assert!(HeuristicBot::hard().card_counting());
}

#[test]
fn my_hand_reads_the_own_grid() {
    let m = MatchState::new(bot_config(2, 1), 9).unwrap();
    let view = m.view(Viewer::Seat(1));
    let hand = my_hand(&view);
    for i in 0..3 {
        assert_eq!(hand[i], HandSlot { card: None, frozen: false });
    }
    for i in 3..6 {
        assert_eq!(
            hand[i],
            HandSlot {
                card: Some(m.hole.players[1].grid[i].card),
                frozen: false
            }
        );
    }
    assert_eq!(known_cards(&hand).len(), 3);
}

#[test]
fn best_known_pairs_optimally() {
    assert_eq!(best_known(&[]), 0);
    assert_eq!(best_known(&[card(Rank::King)]), 10);
    assert_eq!(best_known(&[card(Rank::King), card(Rank::King)]), 0);
    assert_eq!(best_known(&[card(Rank::Ace), card(Rank::King)]), -2);
    // K-K and A-Q beat A-K: 0 − 2 + 9 = 7.
    assert_eq!(
        best_known(&[card(Rank::Ace), card(Rank::King), card(Rank::King), card(Rank::Queen), card(Rank::Nine)]),
        7
    );
    assert_eq!(best_known(&[card(Rank::Ace), card(Rank::Ace), card(Rank::Two)]), -4);
}

fn slot(rank: Option<Rank>, frozen: bool) -> HandSlot {
    HandSlot {
        card: rank.map(card),
        frozen,
    }
}

#[test]
fn junk_flip_prefers_cheap_known_cards() {
    let mut rng = ChaCha8Rng::seed_from_u64(3);
    // Known 9 and known 3 face down: the 3 is safe to freeze.
    let hand = [
        slot(Some(Rank::Nine), false),
        slot(None, false),
        slot(Some(Rank::Three), false),
        slot(Some(Rank::King), true),
        slot(Some(Rank::Two), false),
        slot(None, false),
    ];
    assert_eq!(junk_flip(&hand, &mut rng), 4);
    // A known 8 pairing a face-up 8 is safe too, even though it is high.
    let hand = [
        slot(Some(Rank::Eight), true),
        slot(Some(Rank::Eight), false),
        slot(None, false),
        slot(Some(Rank::Nine), false),
        slot(Some(Rank::Queen), true),
        slot(Some(Rank::Ten), true),
    ];
    assert_eq!(junk_flip(&hand, &mut rng), 1);
}

#[test]
fn junk_flip_gambles_on_unknown_then_least_bad() {
    let mut rng = ChaCha8Rng::seed_from_u64(5);
    let hand = [
        slot(Some(Rank::Nine), false),
        slot(None, false),
        slot(Some(Rank::Queen), true),
        slot(None, false),
        slot(Some(Rank::Seven), true),
        slot(Some(Rank::King), false),
    ];
    let mut seen = [false; 6];
    for _ in 0..40 {
        let s = junk_flip(&hand, &mut rng);
        assert!(s == 1 || s == 3);
        seen[s as usize] = true;
    }
    assert!(seen[1] && seen[3], "the unknown slot is picked at random");
    let hand = [
        slot(Some(Rank::Nine), false),
        slot(Some(Rank::Jack), true),
        slot(Some(Rank::Queen), true),
        slot(Some(Rank::Six), false),
        slot(Some(Rank::Seven), true),
        slot(Some(Rank::Five), false),
    ];
    assert_eq!(junk_flip(&hand, &mut rng), 5);
}

#[test]
fn card_count_sees_the_table() {
    let mut m = MatchState::new(bot_config(2, 1), 21).unwrap();
    let view = m.view(Viewer::Seat(0));
    let counts = unseen_rank_counts(&view);
    // Seat 0 sees its bottom row and the discard: four cards.
    assert_eq!(counts.iter().sum::<i32>(), 52 - 4);
    let top = view.discard_top.unwrap();
    let idx = Rank::ALL.iter().position(|&r| r == top.rank).unwrap();
    assert!(counts[idx] <= 3);
    m.apply(0, Action::DrawFromDeck).unwrap();
    let view = m.view(Viewer::Seat(1));
    let TurnState::AwaitFlip { drawn, .. } = view.turn else {
        panic!("expected a drawn card");
    };
    let counts = unseen_rank_counts(&view);
    assert_eq!(counts.iter().sum::<i32>(), 52 - 5);
    let idx = Rank::ALL.iter().position(|&r| r == drawn.rank).unwrap();
    assert!(counts[idx] <= 3);
}

#[test]
fn swap_compares_known_cards() {
    // Flipped a king next to a known queen: a drawn queen pairs, a drawn 9 is
    // only a little better than the king, a drawn jack changes nothing.
    let hand = [
        slot(Some(Rank::King), true),
        slot(Some(Rank::Queen), false),
        slot(None, false),
        slot(None, false),
        slot(Some(Rank::Two), false),
        slot(None, false),
    ];
    assert!(swap_beats_keep(&hand, 0, card(Rank::Queen)));
    assert!(swap_beats_keep(&hand, 0, card(Rank::Nine)));
    assert!(!swap_beats_keep(&hand, 0, card(Rank::Jack)));
    // Flipped an ace: nothing beats it.
    let hand = [
        slot(Some(Rank::Ace), true),
        slot(Some(Rank::Seven), false),
        slot(None, false),
        slot(None, false),
        slot(None, false),
        slot(None, false),
    ];
    assert!(!swap_beats_keep(&hand, 0, card(Rank::Two)));
}
