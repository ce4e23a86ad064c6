use poker_hands::card::{Card, Rank, Suit};
use poker_hands::category::HandType;
use poker_hands::deck::{play_trial, Deck};
use poker_hands::select::PokerError;
use poker_hands::tally::Tally;

fn keys(cards: &[Card]) -> Vec<u8> {
    let mut k: Vec<u8> = cards.iter().map(|c| c.suit.index() * 13 + c.rank.index()).collect();
    k.sort();
    k
}

#[test]
fn new_deck_holds_each_card_once_in_order() {
    let deck = Deck::new();
    assert_eq!(deck.cards.len(), 52);
    let k: Vec<u8> = deck.cards.iter().map(|c| c.suit.index() * 13 + c.rank.index()).collect();
    assert_eq!(k, (0..52).collect::<Vec<u8>>());
}

#[test]
fn shuffle_keeps_the_cards() {
    let mut deck = Deck::new();
    deck.shuffle();
    assert_eq!(keys(&deck.cards), (0..52).collect::<Vec<u8>>());
}

#[test]
fn drawing_past_the_end_is_refused() {
    let mut deck = Deck::new();
    let first = deck.cards[0];
    assert_eq!(deck.draw(), Ok(first));
    for _ in 0..51 {
        assert!(deck.draw().is_ok());
    }
    assert_eq!(deck.draw(), Err(PokerError::ExhaustedDeck));
}

#[test]
fn trial_deals_seven_cards() {
    let mut deck = Deck::new();
    let best = play_trial(&mut deck).unwrap();
    // Two..Eight of spades: a straight flush up to Eight
    assert_eq!(best.category, HandType::StraightFlush);
    assert_eq!(deck.cards.len(), 45);
}

#[test]
fn trial_on_a_short_deck_is_refused() {
    let mut deck = Deck::new();
    deck.cards.truncate(6);
    assert_eq!(play_trial(&mut deck).unwrap_err(), PokerError::ExhaustedDeck);
    assert_eq!(deck.cards.len(), 6);
}

#[test]
fn tally_records_and_merges() {
    let mut a = Tally::new();
    let mut b = Tally::new();
    a.record(HandType::Pair);
    a.record(HandType::Pair);
    b.record(HandType::Pair);
    b.record(HandType::Flush);
    a.merge(&b);
    assert_eq!(a.count(HandType::Pair), 3);
    assert_eq!(a.count(HandType::Flush), 1);
    assert_eq!(a.count(HandType::HighCard), 0);
}

#[test]
fn shuffle_with_given_draws() {
    let a = Card { rank: Rank::Two, suit: Suit::Spade };
    let b = Card { rank: Rank::Three, suit: Suit::Heart };
    let c = Card { rank: Rank::Four, suit: Suit::Club };
    let mut deck = Deck { cards: vec![a, b, c] };
    deck.shuffle_with(&vec![0, 1, 0]);
    assert_eq!(deck.cards, vec![c, b, a]);
    let mut deck = Deck { cards: vec![a, b, c] };
    deck.shuffle_with(&vec![5, 4, 7]);
    assert_eq!(deck.cards, vec![c, a, b]);
}

#[test]
fn shuffle_with_zero_draws_moves_the_first_card_to_the_end() {
    let mut deck = Deck::new();
    let start = deck.cards.clone();
    deck.shuffle_with(&vec![0; 52]);
    // each step swaps position i with position 0, for i from 51 down to 1
    let mut expected = start[1..].to_vec();
    expected.push(start[0]);
    assert_eq!(keys(&deck.cards), (0..52).collect::<Vec<u8>>());
    assert_eq!(deck.cards, expected);
}
