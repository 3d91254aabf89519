//! Match state, its mathematical model, and the invariant every reachable
//! state satisfies.

use vstd::prelude::*;
use crate::bot::Difficulty;
use crate::card::{lemma_standard_deck_distinct, standard_deck, standard_deck_spec, Card};
use crate::model::{dealt_from, is_fresh_deal, HoleModel, PhaseModel};
use crate::rng::{seeded_shuffle, shuffle_cards, shuffle_seeded};
use crate::wellformed::lemma_new_wf;
use rand_chacha::ChaCha8Rng;

verus! {

pub type Seat = u8;

pub type SlotIdx = u8;

/// Six cards per player: slots 0–2 are the top row (unknown to everyone at
/// deal), slots 3–5 the bottom row (privately known to the owner).
pub const GRID_SIZE: usize = 6;

pub const BOTTOM_ROW: std::ops::Range<usize> = 3..6;

pub const MIN_PLAYERS: usize = 2;

pub const MAX_PLAYERS: usize = 4;

#[derive(Debug, Clone, PartialEq, Eq, Structural)]
pub enum SeatKind {
    Human,
    Bot { difficulty: Difficulty },
}

#[derive(Debug, Clone)]
pub struct SeatConfig {
    pub name: String,
    pub kind: SeatKind,
}

#[derive(Debug, Clone)]
pub struct MatchConfig {
    pub seats: Vec<SeatConfig>,
    pub holes: u8,
}

impl MatchConfig {
    pub fn nine_holes(seats: Vec<SeatConfig>) -> (c: Self)
        ensures
            c.seats@ == seats@,
            c.holes == 9,
    {
        MatchConfig { seats, holes: 9 }
    }
}

#[derive(Debug, Clone, Copy, PartialEq, Eq, Structural)]
pub enum ConfigError {
    /// The player count must be between `MIN_PLAYERS` and `MAX_PLAYERS`.
    BadPlayerCount,
    /// The number of holes must be at least 1.
    NoHoles,
}

impl ConfigError {
    /// The sentence a caller is shown for this refusal.
    pub open spec fn message_spec(self) -> Seq<char> {
        match self {
            ConfigError::BadPlayerCount => "player count must be between 2 and 4"@,
            ConfigError::NoHoles => "number of holes must be at least 1"@,
        }
    }

    pub fn message(self) -> (s: &'static str)
        ensures
            s@ == self.message_spec(),
    {
        match self {
            ConfigError::BadPlayerCount => "player count must be between 2 and 4",
            ConfigError::NoHoles => "number of holes must be at least 1",
        }
    }
}

#[derive(Debug, Clone, Copy, PartialEq, Eq, Structural)]
pub struct Slot {
    pub card: Card,
    /// Face-up cards are public and frozen: they can never be flipped or
    /// swapped again.
    pub face_up: bool,
    /// The owner privately knows this face-down card (bottom row at deal).
    pub known_to_owner: bool,
}

#[derive(Debug, Clone)]
pub struct PlayerState {
    pub grid: Vec<Slot>,
}

/// Every slot of the grid is face up.
pub open spec fn grid_face_up(grid: Seq<Slot>) -> bool {
    forall|s: int| 0 <= s < grid.len() ==> (#[trigger] grid[s]).face_up
}

/// The cards of a grid, slot by slot.
pub open spec fn grid_card_seq(grid: Seq<Slot>) -> Seq<Card> {
    grid.map_values(|s: Slot| s.card)
}

impl PlayerState {
    pub fn all_face_up(&self) -> (r: bool)
        ensures
            r == grid_face_up(self.grid@),
    {
        let mut i: usize = 0;
        while i < self.grid.len()
            invariant
                i <= self.grid@.len(),
                forall|s: int| 0 <= s < i ==> (#[trigger] self.grid@[s]).face_up,
            decreases self.grid@.len() - i,
        {
            if !self.grid[i].face_up {
                return false;
            }
            i += 1;
        }
        true
    }

    pub fn cards(&self) -> (r: [Card; GRID_SIZE])
        requires
            self.grid@.len() >= GRID_SIZE,
        ensures
            r@ == grid_card_seq(self.grid@.take(GRID_SIZE as int)),
            self.grid@.len() == GRID_SIZE ==> r@ == grid_card_seq(self.grid@),
    {
        let r = [
            self.grid[0].card,
            self.grid[1].card,
            self.grid[2].card,
            self.grid[3].card,
            self.grid[4].card,
            self.grid[5].card,
        ];
        assert(r@ =~= grid_card_seq(self.grid@.take(GRID_SIZE as int)));
        assert(self.grid@.len() == GRID_SIZE ==> self.grid@.take(GRID_SIZE as int) == self.grid@);
        r
    }
}

#[derive(Debug, Clone, Copy, PartialEq, Eq, Structural)]
pub enum DrawSource {
    Deck,
    Discard,
}

#[derive(Debug, Clone, Copy, PartialEq, Eq, Structural)]
pub enum TurnState {
    AwaitDraw,
    AwaitFlip { drawn: Card, source: DrawSource },
    AwaitResolve { drawn: Card, source: DrawSource, flipped: SlotIdx },
}

#[derive(Debug, Clone)]
pub struct HoleState {
    pub deck: Vec<Card>,
    pub discard: Vec<Card>,
    pub players: Vec<PlayerState>,
    pub current: Seat,
    pub turn: TurnState,
}

#[derive(Debug, Clone, PartialEq, Eq)]
pub enum Phase {
    Playing,
    HoleComplete { scores: Vec<i32> },
    MatchComplete { winners: Vec<Seat> },
}

#[derive(Debug, Clone)]
pub struct MatchState {
    pub config: MatchConfig,
    /// 1-based hole counter.
    pub hole_number: u8,
    pub totals: Vec<i32>,
    /// Per-hole scores for completed holes, `score_history[hole-1][seat]`.
    pub score_history: Vec<Vec<i32>>,
    pub hole: HoleState,
    pub phase: Phase,
    /// The generator that shuffles the deck for each deal.
    pub rng: ChaCha8Rng,
}

/// Shuffles a fresh deck with `rng` and deals a hole from it.
pub(crate) fn deal_hole(rng: &mut ChaCha8Rng, num_players: usize, starting: Seat) -> (h: HoleState)
    requires
        MIN_PLAYERS <= num_players <= MAX_PLAYERS,
    ensures
        is_fresh_deal(h.model(), num_players as nat, starting),
{
    let mut deck = standard_deck();
    proof {
        lemma_standard_deck_distinct();
    }
    shuffle_cards(&mut deck, rng);
    deal_from(deck, num_players, starting)
}

/// Deals a hole from the shuffled `deck`: six cards per seat from the top,
/// in seat order, then one onto the discard pile.
pub(crate) fn deal_from(deck: Vec<Card>, num_players: usize, starting: Seat) -> (h: HoleState)
    requires
        MIN_PLAYERS <= num_players <= MAX_PLAYERS,
        deck@.len() == 52,
        deck@.to_multiset() == standard_deck_spec().to_multiset(),
    ensures
        h.model() == dealt_from(deck@, num_players as nat, starting),
        is_fresh_deal(h.model(), num_players as nat, starting),
{
    let mut deck = deck;
    let ghost d = deck@;
    let mut players: Vec<PlayerState> = Vec::new();
    let mut p: usize = 0;
    while p < num_players
        invariant
            num_players <= 4,
            p <= num_players,
            d.len() == 52,
            deck@ == d.subrange(0, 52 - 6 * p),
            players@.len() == p,
            forall|q: int, s: int|
                0 <= q < p && 0 <= s < 6 ==> #[trigger] players@[q].grid@[s] == (Slot {
                    card: d[51 - (6 * q + s)],
                    face_up: false,
                    known_to_owner: s >= 3,
                }),
            forall|q: int| 0 <= q < p ==> (#[trigger] players@[q]).grid@.len() == 6,
        decreases num_players - p,
    {
        let mut grid: Vec<Slot> = Vec::new();
        let mut slot: usize = 0;
        while slot < GRID_SIZE
            invariant
                num_players <= 4,
                p < num_players,
                slot <= 6,
                d.len() == 52,
                deck@ == d.subrange(0, 52 - (6 * p + slot)),
                grid@.len() == slot,
                forall|s: int|
                    0 <= s < slot ==> #[trigger] grid@[s] == (Slot {
                        card: d[51 - (6 * p + s)],
                        face_up: false,
                        known_to_owner: s >= 3,
                    }),
            decreases 6 - slot,
        {
            let card = deck.pop().unwrap();
            grid.push(Slot { card, face_up: false, known_to_owner: BOTTOM_ROW.contains(&slot) });
            slot += 1;
        }
        players.push(PlayerState { grid });
        p += 1;
    }
    let ghost before = deck@;
    let top = deck.pop().unwrap();
    assert(top == d[51 - 6 * num_players]);
    assert(deck@ =~= d.subrange(0, 51 - 6 * num_players));
    let discard = vec![top];
    assert(discard@ =~= seq![d[51 - 6 * num_players]]);
    let h = HoleState { deck, discard, players, current: starting, turn: TurnState::AwaitDraw };
    assert(h.model() =~= dealt_from(d, num_players as nat, starting)) by {
        assert(h.model().grids =~= dealt_from(d, num_players as nat, starting).grids) by {
            assert forall|q: int| 0 <= q < num_players implies #[trigger] h.model().grids[q]
                =~= dealt_from(d, num_players as nat, starting).grids[q] by {
                assert(h.players@[q].grid@.len() == 6);
                assert forall|s: int| 0 <= s < 6 implies #[trigger] h.model().grids[q][s]
                    == dealt_from(d, num_players as nat, starting).grids[q][s] by {
                    assert(h.players@[q].grid@[s] == players@[q].grid@[s]);
                }
            }
        }
    }
    assert(d.to_multiset() == standard_deck_spec().to_multiset());
    h
}

/// `m` is the match that `MatchState::new(config, seed)` opens: the first
/// hole, dealt (starting at seat 0) from the deck in the order the seed
/// shuffles it, with every total at zero.
pub open spec fn opened(config: MatchConfig, seed: u64, m: MatchState) -> bool {
    let n = config.seats@.len();
    &&& m.config == config
    &&& m.hole_number == 1
    &&& m.totals@ == Seq::new(n, |i: int| 0i32)
    &&& m.score_history@.len() == 0
    &&& m.phase == Phase::Playing
    &&& m.hole.model() == dealt_from(seeded_shuffle(standard_deck_spec(), seed), n, 0)
    &&& is_fresh_deal(m.hole.model(), n, 0)
    &&& m.wf()
}

/// A match is determined by its configuration and seed: two matches opened
/// with the same configuration and seed are in the same state (the
/// generator they carry for later deals aside).
pub proof fn lemma_new_is_deterministic(config: MatchConfig, seed: u64, m1: MatchState, m2: MatchState)
    requires
        opened(config, seed, m1),
        opened(config, seed, m2),
    ensures
        m1.config == m2.config,
        m1.model() == m2.model(),
{
    assert(m1.totals@ == m2.totals@);
    assert(m1.model().history =~= m2.model().history);
    assert(m1.model() =~= m2.model());
}

impl MatchState {
    pub fn new(config: MatchConfig, seed: u64) -> (r: Result<Self, ConfigError>)
        ensures
            (config.seats@.len() < MIN_PLAYERS || config.seats@.len() > MAX_PLAYERS) ==> r
                == Err::<Self, ConfigError>(ConfigError::BadPlayerCount),
            MIN_PLAYERS <= config.seats@.len() <= MAX_PLAYERS && config.holes == 0 ==> r
                == Err::<Self, ConfigError>(ConfigError::NoHoles),
            r is Ok <==> MIN_PLAYERS <= config.seats@.len() <= MAX_PLAYERS && config.holes >= 1,
            r matches Ok(m) ==> opened(config, seed, m),
    {
        let n = config.seats.len();
        if !(MIN_PLAYERS <= n && n <= MAX_PLAYERS) {
            return Err(ConfigError::BadPlayerCount);
        }
        if config.holes == 0 {
            return Err(ConfigError::NoHoles);
        }
        let mut deck = standard_deck();
        proof {
            lemma_standard_deck_distinct();
        }
        let rng = shuffle_seeded(&mut deck, seed);
        let hole = deal_from(deck, n, 0);
        let totals: Vec<i32> = vec![0; n];
        assert(totals@ =~= Seq::new(n as nat, |i: int| 0i32));
        let m = MatchState {
            totals,
            score_history: Vec::new(),
            hole_number: 1,
            config,
            hole,
            phase: Phase::Playing,
            rng,
        };
        proof {
            lemma_new_wf(m.model(), n as nat, m.config.holes);
        }
        Ok(m)
    }

    pub fn num_seats(&self) -> (n: usize)
        ensures
            n == self.config.seats@.len(),
    {
        self.config.seats.len()
    }

    /// The seat that must act next, if any.
    pub fn seat_to_act(&self) -> (r: Option<Seat>)
        ensures
            r == (match self.phase {
                Phase::Playing => Some(self.hole.current),
                _ => None::<Seat>,
            }),
    {
        match self.phase {
            Phase::Playing => Some(self.hole.current),
            _ => None,
        }
    }
}

} // verus!
