use vstd::prelude::*;
use vstd::string::StringExecFns;

verus! {

/// The four suits. They are only ever compared for equality.
#[derive(Debug, Clone, Copy, PartialEq, Eq, Structural, Hash)]
pub enum Suit {
    Spade,
    Heart,
    Diamond,
    Club,
}

/// The thirteen ranks, from Two (position 0) up to Ace (position 12).
#[derive(Debug, Clone, Copy, PartialEq, Eq, Structural, Hash, PartialOrd, Ord)]
pub enum Rank {
    Two,
    Three,
    Four,
    Five,
    Six,
    Seven,
    Eight,
    Nine,
    Ten,
    Jack,
    Queen,
    King,
    Ace,
}

/// A playing card: a rank and a suit. Two cards are equal when both match.
#[derive(Debug, Clone, Copy, PartialEq, Eq, Structural, Hash)]
pub struct Card {
    pub rank: Rank,
    pub suit: Suit,
}

/// Number of ranks.
pub const RANK_COUNT: u8 = 13;

/// Number of suits.
pub const SUIT_COUNT: u8 = 4;

impl Suit {
    /// Position of the suit in the order Spade, Heart, Diamond, Club.
    pub open spec fn value(self) -> nat {
        match self {
            Suit::Spade => 0,
            Suit::Heart => 1,
            Suit::Diamond => 2,
            Suit::Club => 3,
        }
    }

    /// The suit at a position, the inverse of `value`.
    pub open spec fn spec_from_value(v: nat) -> Suit {
        if v == 0 {
            Suit::Spade
        } else if v == 1 {
            Suit::Heart
        } else if v == 2 {
            Suit::Diamond
        } else {
            Suit::Club
        }
    }

    /// Plural display name of the suit.
    pub open spec fn name(self) -> Seq<char> {
        match self {
            Suit::Club => "Clubs"@,
            Suit::Diamond => "Diamonds"@,
            Suit::Heart => "Hearts"@,
            Suit::Spade => "Spades"@,
        }
    }

    pub fn index(&self) -> (r: u8)
        ensures
            r == self.value(),
            r < SUIT_COUNT,
    {
        match self {
            Suit::Spade => 0,
            Suit::Heart => 1,
            Suit::Diamond => 2,
            Suit::Club => 3,
        }
    }

    pub fn from_value(v: u8) -> (r: Suit)
        requires
            v < SUIT_COUNT,
        ensures
            r == Suit::spec_from_value(v as nat),
            r.value() == v,
    {
        if v == 0 {
            Suit::Spade
        } else if v == 1 {
            Suit::Heart
        } else if v == 2 {
            Suit::Diamond
        } else {
            Suit::Club
        }
    }

    pub fn to_string(&self) -> (r: &'static str)
        ensures
            r@ == self.name(),
    {
        match self {
            Suit::Club => "Clubs",
            Suit::Diamond => "Diamonds",
            Suit::Heart => "Hearts",
            Suit::Spade => "Spades",
        }
    }
}

impl Rank {
    /// Position of the rank: Two is 0, Ace is 12.
    pub open spec fn value(self) -> nat {
        match self {
            Rank::Two => 0,
            Rank::Three => 1,
            Rank::Four => 2,
            Rank::Five => 3,
            Rank::Six => 4,
            Rank::Seven => 5,
            Rank::Eight => 6,
            Rank::Nine => 7,
            Rank::Ten => 8,
            Rank::Jack => 9,
            Rank::Queen => 10,
            Rank::King => 11,
            Rank::Ace => 12,
        }
    }

    /// The rank at a position, the inverse of `value`.
    pub open spec fn spec_from_value(v: nat) -> Rank {
        if v == 0 {
            Rank::Two
        } else if v == 1 {
            Rank::Three
        } else if v == 2 {
            Rank::Four
        } else if v == 3 {
            Rank::Five
        } else if v == 4 {
            Rank::Six
        } else if v == 5 {
            Rank::Seven
        } else if v == 6 {
            Rank::Eight
        } else if v == 7 {
            Rank::Nine
        } else if v == 8 {
            Rank::Ten
        } else if v == 9 {
            Rank::Jack
        } else if v == 10 {
            Rank::Queen
        } else if v == 11 {
            Rank::King
        } else {
            Rank::Ace
        }
    }

    /// Display name of the rank.
    pub open spec fn name(self) -> Seq<char> {
        match self {
            Rank::Two => "Two"@,
            Rank::Three => "Three"@,
            Rank::Four => "Four"@,
            Rank::Five => "Five"@,
            Rank::Six => "Six"@,
            Rank::Seven => "Seven"@,
            Rank::Eight => "Eight"@,
            Rank::Nine => "Nine"@,
            Rank::Ten => "Ten"@,
            Rank::Jack => "Jack"@,
            Rank::Queen => "Queen"@,
            Rank::King => "King"@,
            Rank::Ace => "Ace"@,
        }
    }

    pub fn index(&self) -> (r: u8)
        ensures
            r == self.value(),
            r < RANK_COUNT,
    {
        match self {
            Rank::Two => 0,
            Rank::Three => 1,
            Rank::Four => 2,
            Rank::Five => 3,
            Rank::Six => 4,
            Rank::Seven => 5,
            Rank::Eight => 6,
            Rank::Nine => 7,
            Rank::Ten => 8,
            Rank::Jack => 9,
            Rank::Queen => 10,
            Rank::King => 11,
            Rank::Ace => 12,
        }
    }

    pub fn from_value(v: u8) -> (r: Rank)
        requires
            v < RANK_COUNT,
        ensures
            r == Rank::spec_from_value(v as nat),
            r.value() == v,
    {
        if v == 0 {
            Rank::Two
        } else if v == 1 {
            Rank::Three
        } else if v == 2 {
            Rank::Four
        } else if v == 3 {
            Rank::Five
        } else if v == 4 {
            Rank::Six
        } else if v == 5 {
            Rank::Seven
        } else if v == 6 {
            Rank::Eight
        } else if v == 7 {
            Rank::Nine
        } else if v == 8 {
            Rank::Ten
        } else if v == 9 {
            Rank::Jack
        } else if v == 10 {
            Rank::Queen
        } else if v == 11 {
            Rank::King
        } else {
            Rank::Ace
        }
    }

    pub fn to_string(&self) -> (r: &'static str)
        ensures
            r@ == self.name(),
    {
        match self {
            Rank::Two => "Two",
            Rank::Three => "Three",
            Rank::Four => "Four",
            Rank::Five => "Five",
            Rank::Six => "Six",
            Rank::Seven => "Seven",
            Rank::Eight => "Eight",
            Rank::Nine => "Nine",
            Rank::Ten => "Ten",
            Rank::Jack => "Jack",
            Rank::Queen => "Queen",
            Rank::King => "King",
            Rank::Ace => "Ace",
        }
    }
}

impl Card {
    /// Display form of a card: "<rank> of <suit>".
    pub open spec fn name(self) -> Seq<char> {
        self.rank.name() + " of "@ + self.suit.name()
    }

    pub fn to_string(&self) -> (r: String)
        ensures
            r@ == self.name(),
    {
        self.rank.to_string().to_owned().concat(" of ").concat(self.suit.to_string())
    }
}

} // verus!
