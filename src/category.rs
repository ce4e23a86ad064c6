use vstd::prelude::*;

verus! {

/// The ten hand categories, from weakest to strongest.
#[derive(Debug, Clone, Copy, PartialEq, Eq, Structural, Hash, PartialOrd, Ord)]
pub enum HandType {
    HighCard,
    Pair,
    TwoPair,
    ThreeOfAKind,
    Straight,
    Flush,
    FullHouse,
    FourOfAKind,
    StraightFlush,
    RoyalFlush,
}

/// Number of hand categories.
pub const CATEGORY_COUNT: u8 = 10;

impl HandType {
    /// Strength of the category: HighCard is 0, RoyalFlush is 9.
    pub open spec fn value(self) -> nat {
        match self {
            HandType::HighCard => 0,
            HandType::Pair => 1,
            HandType::TwoPair => 2,
            HandType::ThreeOfAKind => 3,
            HandType::Straight => 4,
            HandType::Flush => 5,
            HandType::FullHouse => 6,
            HandType::FourOfAKind => 7,
            HandType::StraightFlush => 8,
            HandType::RoyalFlush => 9,
        }
    }

    /// Display name of the category.
    pub open spec fn name(self) -> Seq<char> {
        match self {
            HandType::HighCard => "High card"@,
            HandType::Pair => "A pair"@,
            HandType::TwoPair => "Two pair"@,
            HandType::ThreeOfAKind => "Three of a kind"@,
            HandType::Straight => "Straight"@,
            HandType::Flush => "Flush"@,
            HandType::FullHouse => "Full house"@,
            HandType::FourOfAKind => "Four of a kind"@,
            HandType::StraightFlush => "Straight Flush"@,
            HandType::RoyalFlush => "Royal flush"@,
        }
    }

    pub fn index(&self) -> (r: u8)
        ensures
            r == self.value(),
            r < CATEGORY_COUNT,
    {
        match self {
            HandType::HighCard => 0,
            HandType::Pair => 1,
            HandType::TwoPair => 2,
            HandType::ThreeOfAKind => 3,
            HandType::Straight => 4,
            HandType::Flush => 5,
            HandType::FullHouse => 6,
            HandType::FourOfAKind => 7,
            HandType::StraightFlush => 8,
            HandType::RoyalFlush => 9,
        }
    }

    pub fn to_string(&self) -> (r: &'static str)
        ensures
            r@ == self.name(),
    {
        match self {
            HandType::HighCard => "High card",
            HandType::Pair => "A pair",
            HandType::TwoPair => "Two pair",
            HandType::ThreeOfAKind => "Three of a kind",
            HandType::Straight => "Straight",
            HandType::Flush => "Flush",
            HandType::FullHouse => "Full house",
            HandType::FourOfAKind => "Four of a kind",
            HandType::StraightFlush => "Straight Flush",
            HandType::RoyalFlush => "Royal flush",
        }
    }
}

} // verus!
