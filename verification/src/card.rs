//! Cards, ranks, suits and the standard 52-card deck.

use vstd::prelude::*;
use vstd::string::*;

verus! {

#[derive(Debug, Clone, Copy, PartialEq, Eq, Hash, Structural)]
pub enum Suit {
    Clubs,
    Diamonds,
    Hearts,
    Spades,
}

impl Suit {
    pub const ALL: [Suit; 4] = [Suit::Clubs, Suit::Diamonds, Suit::Hearts, Suit::Spades];

    pub open spec fn symbol_spec(self) -> char {
        match self {
            Suit::Clubs => '♣',
            Suit::Diamonds => '♦',
            Suit::Hearts => '♥',
            Suit::Spades => '♠',
        }
    }

    pub fn symbol(self) -> (c: char)
        ensures
            c == self.symbol_spec(),
    {
        match self {
            Suit::Clubs => '♣',
            Suit::Diamonds => '♦',
            Suit::Hearts => '♥',
            Suit::Spades => '♠',
        }
    }
}


#[derive(Debug, Clone, Copy, PartialEq, Eq, PartialOrd, Ord, Hash, Structural)]
pub enum Rank {
    Ace,
    Two,
    Three,
    Four,
    Five,
    Six,
    Seven,
    Eight,
    Nine,
    Ten,
    Jack,
    Queen,
    King,
}

impl Rank {
    pub const ALL: [Rank; 13] = [
        Rank::Ace,
        Rank::Two,
        Rank::Three,
        Rank::Four,
        Rank::Five,
        Rank::Six,
        Rank::Seven,
        Rank::Eight,
        Rank::Nine,
        Rank::Ten,
        Rank::Jack,
        Rank::Queen,
        Rank::King,
    ];

    /// Points this rank contributes when left unpaired. Aces score −2,
    /// number cards their face value, J/Q/K 10.
    pub open spec fn value(self) -> int {
        match self {
            Rank::Ace => -2,
            Rank::Two => 2,
            Rank::Three => 3,
            Rank::Four => 4,
            Rank::Five => 5,
            Rank::Six => 6,
            Rank::Seven => 7,
            Rank::Eight => 8,
            Rank::Nine => 9,
            Rank::Ten | Rank::Jack | Rank::Queen | Rank::King => 10,
        }
    }

    /// Points this rank contributes when left unpaired. Aces score −2.
    pub fn unpaired_value(self) -> (v: i32)
        ensures
            v == self.value(),
            -2 <= v <= 10,
    {
        match self {
            Rank::Ace => -2,
            Rank::Two => 2,
            Rank::Three => 3,
            Rank::Four => 4,
            Rank::Five => 5,
            Rank::Six => 6,
            Rank::Seven => 7,
            Rank::Eight => 8,
            Rank::Nine => 9,
            Rank::Ten | Rank::Jack | Rank::Queen | Rank::King => 10,
        }
    }

    pub open spec fn symbol_spec(self) -> Seq<char> {
        match self {
            Rank::Ace => "A"@,
            Rank::Two => "2"@,
            Rank::Three => "3"@,
            Rank::Four => "4"@,
            Rank::Five => "5"@,
            Rank::Six => "6"@,
            Rank::Seven => "7"@,
            Rank::Eight => "8"@,
            Rank::Nine => "9"@,
            Rank::Ten => "10"@,
            Rank::Jack => "J"@,
            Rank::Queen => "Q"@,
            Rank::King => "K"@,
        }
    }

    pub fn symbol(self) -> (s: &'static str)
        ensures
            s@ == self.symbol_spec(),
    {
        match self {
            Rank::Ace => "A",
            Rank::Two => "2",
            Rank::Three => "3",
            Rank::Four => "4",
            Rank::Five => "5",
            Rank::Six => "6",
            Rank::Seven => "7",
            Rank::Eight => "8",
            Rank::Nine => "9",
            Rank::Ten => "10",
            Rank::Jack => "J",
            Rank::Queen => "Q",
            Rank::King => "K",
        }
    }

    /// The rank at position `i` of `Rank::ALL` (ace low, king high).
    pub open spec fn nth(i: int) -> Rank {
        if i == 0 {
            Rank::Ace
        } else if i == 1 {
            Rank::Two
        } else if i == 2 {
            Rank::Three
        } else if i == 3 {
            Rank::Four
        } else if i == 4 {
            Rank::Five
        } else if i == 5 {
            Rank::Six
        } else if i == 6 {
            Rank::Seven
        } else if i == 7 {
            Rank::Eight
        } else if i == 8 {
            Rank::Nine
        } else if i == 9 {
            Rank::Ten
        } else if i == 10 {
            Rank::Jack
        } else if i == 11 {
            Rank::Queen
        } else {
            Rank::King
        }
    }

    /// Position of this rank in `Rank::ALL`.
    pub open spec fn index(self) -> int {
        match self {
            Rank::Ace => 0,
            Rank::Two => 1,
            Rank::Three => 2,
            Rank::Four => 3,
            Rank::Five => 4,
            Rank::Six => 5,
            Rank::Seven => 6,
            Rank::Eight => 7,
            Rank::Nine => 8,
            Rank::Ten => 9,
            Rank::Jack => 10,
            Rank::Queen => 11,
            Rank::King => 12,
        }
    }
}

impl Suit {
    /// The suit at position `i` of `Suit::ALL`.
    pub open spec fn nth(i: int) -> Suit {
        if i == 0 {
            Suit::Clubs
        } else if i == 1 {
            Suit::Diamonds
        } else if i == 2 {
            Suit::Hearts
        } else {
            Suit::Spades
        }
    }

    /// Position of this suit in `Suit::ALL`.
    pub open spec fn index(self) -> int {
        match self {
            Suit::Clubs => 0,
            Suit::Diamonds => 1,
            Suit::Hearts => 2,
            Suit::Spades => 3,
        }
    }
}

#[derive(Debug, Clone, Copy, PartialEq, Eq, Hash, Structural)]
pub struct Card {
    pub rank: Rank,
    pub suit: Suit,
}

impl Suit {
    fn symbol_str(self) -> (s: &'static str)
        ensures
            s@ == seq![self.symbol_spec()],
    {
        match self {
            Suit::Clubs => {
                proof { reveal_strlit("♣"); }
                "♣"
            },
            Suit::Diamonds => {
                proof { reveal_strlit("♦"); }
                "♦"
            },
            Suit::Hearts => {
                proof { reveal_strlit("♥"); }
                "♥"
            },
            Suit::Spades => {
                proof { reveal_strlit("♠"); }
                "♠"
            },
        }
    }
}

impl Card {
    /// The card as players read it: rank symbol, then suit symbol ("10♥").
    pub fn label(self) -> (s: String)
        ensures
            s@ == self.rank.symbol_spec() + seq![self.suit.symbol_spec()],
    {
        let mut s = String::from_str(self.rank.symbol());
        s.append(self.suit.symbol_str());
        s
    }
}

/// The 52 cards in deck order: suit by suit (clubs, diamonds, hearts,
/// spades), ace to king within a suit.
pub open spec fn standard_deck_spec() -> Seq<Card> {
    Seq::new(52, |i: int| Card { rank: Rank::nth(i % 13), suit: Suit::nth(i / 13) })
}

pub fn standard_deck() -> (deck: Vec<Card>)
    ensures
        deck@ == standard_deck_spec(),
{
    let mut deck: Vec<Card> = Vec::with_capacity(52);
    let mut s: usize = 0;
    while s < 4
        invariant
            s <= 4,
            deck@.len() == 13 * s,
            forall|i: int| 0 <= i < deck@.len() ==> deck@[i] == standard_deck_spec()[i],
        decreases 4 - s,
    {
        let suit = Suit::ALL[s];
        let mut r: usize = 0;
        while r < 13
            invariant
                s < 4,
                r <= 13,
                suit == Suit::nth(s as int),
                deck@.len() == 13 * s + r,
                forall|i: int| 0 <= i < deck@.len() ==> deck@[i] == standard_deck_spec()[i],
            decreases 13 - r,
        {
            let rank = Rank::ALL[r];
            assert(rank == Rank::nth(r as int));
            deck.push(Card { rank, suit });
            r += 1;
        }
        s += 1;
    }
    assert(deck@ =~= standard_deck_spec());
    deck
}

/// Every card of the standard deck is a distinct physical card.
pub proof fn lemma_standard_deck_distinct()
    ensures
        standard_deck_spec().no_duplicates(),
        standard_deck_spec().len() == 52,
{
    assert forall|i: int, j: int| 0 <= i < 52 && 0 <= j < 52 && i != j implies
        standard_deck_spec()[i] != standard_deck_spec()[j] by {
        let a = standard_deck_spec()[i];
        let b = standard_deck_spec()[j];
        assert(a.rank.index() == i % 13 && a.suit.index() == i / 13);
        assert(b.rank.index() == j % 13 && b.suit.index() == j / 13);
    }
}

} // verus!
