use poker_hands::card::{Card, Rank, Suit};
use poker_hands::category::HandType;
use poker_hands::classify::{evaluate_hand, is_straight};
use poker_hands::select::{evaluate_best_hand, Hand, PokerError};

fn c(rank: Rank, suit: Suit) -> Card {
    Card { rank, suit }
}

const RANKS: [Rank; 13] = [
    Rank::Two,
    Rank::Three,
    Rank::Four,
    Rank::Five,
    Rank::Six,
    Rank::Seven,
    Rank::Eight,
    Rank::Nine,
    Rank::Ten,
    Rank::Jack,
    Rank::Queen,
    Rank::King,
    Rank::Ace,
];

const SUITS: [Suit; 4] = [Suit::Spade, Suit::Heart, Suit::Diamond, Suit::Club];

fn sorted(mut v: Vec<Card>) -> Vec<Card> {
    v.sort_by_key(|x| x.rank.index());
    v
}

#[test]
fn royal_flush_in_every_suit() {
    for s in SUITS {
        let h: Vec<Card> = RANKS[8..].iter().map(|&r| c(r, s)).collect();
        assert_eq!(evaluate_hand(&h), HandType::RoyalFlush);
    }
}

#[test]
fn wheel_of_one_suit_is_straight_flush() {
    for s in SUITS {
        let h = vec![
            c(Rank::Two, s),
            c(Rank::Three, s),
            c(Rank::Four, s),
            c(Rank::Five, s),
            c(Rank::Ace, s),
        ];
        assert_eq!(evaluate_hand(&h), HandType::StraightFlush);
    }
}

#[test]
fn wheel_of_mixed_suits_is_straight() {
    let h = vec![
        c(Rank::Two, Suit::Heart),
        c(Rank::Three, Suit::Spade),
        c(Rank::Four, Suit::Club),
        c(Rank::Five, Suit::Diamond),
        c(Rank::Ace, Suit::Heart),
    ];
    assert_eq!(evaluate_hand(&h), HandType::Straight);
}

#[test]
fn four_of_a_kind_whatever_the_fifth_card() {
    for quad in 0..13 {
        for kicker in 0..13 {
            if kicker == quad {
                continue;
            }
            let mut h: Vec<Card> = SUITS.iter().map(|&s| c(RANKS[quad], s)).collect();
            h.push(c(RANKS[kicker], Suit::Heart));
            assert_eq!(evaluate_hand(&sorted(h)), HandType::FourOfAKind);
        }
    }
}

#[test]
fn three_and_two_is_full_house() {
    for t in 0..13 {
        for p in 0..13 {
            if t == p {
                continue;
            }
            let h = vec![
                c(RANKS[t], Suit::Spade),
                c(RANKS[t], Suit::Heart),
                c(RANKS[t], Suit::Club),
                c(RANKS[p], Suit::Diamond),
                c(RANKS[p], Suit::Spade),
            ];
            assert_eq!(evaluate_hand(&sorted(h)), HandType::FullHouse);
        }
    }
}

#[test]
fn three_and_two_singles_is_three_of_a_kind() {
    let h = vec![
        c(Rank::Nine, Suit::Spade),
        c(Rank::Nine, Suit::Heart),
        c(Rank::Nine, Suit::Club),
        c(Rank::Four, Suit::Spade),
        c(Rank::King, Suit::Spade),
    ];
    assert_eq!(evaluate_hand(&sorted(h)), HandType::ThreeOfAKind);
}

#[test]
fn each_remaining_category() {
    let flush = vec![
        c(Rank::Two, Suit::Club),
        c(Rank::Five, Suit::Club),
        c(Rank::Seven, Suit::Club),
        c(Rank::Jack, Suit::Club),
        c(Rank::King, Suit::Club),
    ];
    assert_eq!(evaluate_hand(&flush), HandType::Flush);
    let straight_flush = vec![
        c(Rank::Five, Suit::Heart),
        c(Rank::Six, Suit::Heart),
        c(Rank::Seven, Suit::Heart),
        c(Rank::Eight, Suit::Heart),
        c(Rank::Nine, Suit::Heart),
    ];
    assert_eq!(evaluate_hand(&straight_flush), HandType::StraightFlush);
    let straight = vec![
        c(Rank::Nine, Suit::Heart),
        c(Rank::Ten, Suit::Spade),
        c(Rank::Jack, Suit::Heart),
        c(Rank::Queen, Suit::Diamond),
        c(Rank::King, Suit::Heart),
    ];
    assert_eq!(evaluate_hand(&straight), HandType::Straight);
    let two_pair = vec![
        c(Rank::Three, Suit::Heart),
        c(Rank::Three, Suit::Spade),
        c(Rank::Eight, Suit::Heart),
        c(Rank::Eight, Suit::Diamond),
        c(Rank::King, Suit::Heart),
    ];
    assert_eq!(evaluate_hand(&two_pair), HandType::TwoPair);
    let pair = vec![
        c(Rank::Three, Suit::Heart),
        c(Rank::Three, Suit::Spade),
        c(Rank::Eight, Suit::Heart),
        c(Rank::Jack, Suit::Diamond),
        c(Rank::King, Suit::Heart),
    ];
    assert_eq!(evaluate_hand(&pair), HandType::Pair);
    let high = vec![
        c(Rank::Two, Suit::Heart),
        c(Rank::Six, Suit::Spade),
        c(Rank::Eight, Suit::Heart),
        c(Rank::Jack, Suit::Diamond),
        c(Rank::King, Suit::Heart),
    ];
    assert_eq!(evaluate_hand(&high), HandType::HighCard);
}

#[test]
fn ace_high_run_that_wraps_is_not_a_straight() {
    let h = vec![
        c(Rank::Two, Suit::Heart),
        c(Rank::Three, Suit::Spade),
        c(Rank::Four, Suit::Heart),
        c(Rank::King, Suit::Diamond),
        c(Rank::Ace, Suit::Heart),
    ];
    assert_eq!(evaluate_hand(&h), HandType::HighCard);
}

#[test]
fn straight_test_on_ranks() {
    assert!(is_straight(&vec![Rank::Six, Rank::Seven, Rank::Eight, Rank::Nine, Rank::Ten]));
    assert!(is_straight(&vec![Rank::Two, Rank::Three, Rank::Four, Rank::Five, Rank::Ace]));
    assert!(!is_straight(&vec![Rank::Two, Rank::Three, Rank::Four, Rank::Six, Rank::Ace]));
    assert!(!is_straight(&vec![Rank::Two, Rank::Four, Rank::Five, Rank::Six, Rank::Seven]));
}

#[test]
fn classifying_twice_gives_the_same_category() {
    let h = sorted(vec![
        c(Rank::Three, Suit::Heart),
        c(Rank::Three, Suit::Spade),
        c(Rank::Eight, Suit::Heart),
        c(Rank::Eight, Suit::Diamond),
        c(Rank::Eight, Suit::Club),
    ]);
    assert_eq!(evaluate_hand(&h), evaluate_hand(&h));
}

#[test]
fn royal_flush_out_of_seven() {
    let private = vec![c(Rank::Ace, Suit::Spade), c(Rank::King, Suit::Spade)];
    let shared = vec![
        c(Rank::Queen, Suit::Spade),
        c(Rank::Jack, Suit::Spade),
        c(Rank::Ten, Suit::Spade),
        c(Rank::Two, Suit::Heart),
        c(Rank::Three, Suit::Diamond),
    ];
    let best = evaluate_best_hand(&private, &shared).unwrap();
    assert_eq!(best.category, HandType::RoyalFlush);
    assert_eq!(
        best.cards,
        vec![
            c(Rank::Ten, Suit::Spade),
            c(Rank::Jack, Suit::Spade),
            c(Rank::Queen, Suit::Spade),
            c(Rank::King, Suit::Spade),
            c(Rank::Ace, Suit::Spade),
        ]
    );
}

#[test]
fn four_twos_out_of_seven() {
    let private = vec![c(Rank::Two, Suit::Club), c(Rank::Two, Suit::Diamond)];
    let shared = vec![
        c(Rank::Two, Suit::Heart),
        c(Rank::Two, Suit::Spade),
        c(Rank::Five, Suit::Club),
        c(Rank::Nine, Suit::Diamond),
        c(Rank::King, Suit::Heart),
    ];
    let best = evaluate_best_hand(&private, &shared).unwrap();
    assert_eq!(best.category, HandType::FourOfAKind);
    assert_eq!(best.cards.iter().filter(|x| x.rank == Rank::Two).count(), 4);
}

#[test]
fn flush_beats_higher_unsuited_cards() {
    let private = vec![c(Rank::Ace, Suit::Heart), c(Rank::King, Suit::Club)];
    let shared = vec![
        c(Rank::Two, Suit::Heart),
        c(Rank::Six, Suit::Heart),
        c(Rank::Nine, Suit::Heart),
        c(Rank::Jack, Suit::Heart),
        c(Rank::King, Suit::Diamond),
    ];
    let best = evaluate_best_hand(&private, &shared).unwrap();
    assert_eq!(best.category, HandType::Flush);
    assert!(best.cards.iter().all(|x| x.suit == Suit::Heart));
}

#[test]
fn wrong_card_counts_are_refused() {
    let private = vec![c(Rank::Ace, Suit::Heart), c(Rank::King, Suit::Club)];
    let four = vec![
        c(Rank::Two, Suit::Heart),
        c(Rank::Six, Suit::Heart),
        c(Rank::Nine, Suit::Heart),
        c(Rank::Jack, Suit::Heart),
    ];
    let six = vec![
        c(Rank::Two, Suit::Heart),
        c(Rank::Six, Suit::Heart),
        c(Rank::Nine, Suit::Heart),
        c(Rank::Jack, Suit::Heart),
        c(Rank::Queen, Suit::Heart),
        c(Rank::Three, Suit::Club),
    ];
    assert_eq!(evaluate_best_hand(&private, &four).unwrap_err(), PokerError::InvalidCardCount);
    assert_eq!(evaluate_best_hand(&private, &six).unwrap_err(), PokerError::InvalidCardCount);
    assert_eq!(evaluate_best_hand(&vec![], &vec![]).unwrap_err(), PokerError::InvalidCardCount);
}

#[test]
fn duplicate_card_is_refused() {
    let private = vec![c(Rank::Ace, Suit::Heart), c(Rank::King, Suit::Club)];
    let shared = vec![
        c(Rank::Two, Suit::Heart),
        c(Rank::Six, Suit::Heart),
        c(Rank::Ace, Suit::Heart),
        c(Rank::Jack, Suit::Heart),
        c(Rank::King, Suit::Diamond),
    ];
    assert_eq!(evaluate_best_hand(&private, &shared).unwrap_err(), PokerError::DuplicateCard);
}

fn brute_force_best(all: &[Card]) -> u8 {
    let all = sorted(all.to_vec());
    let mut best = 0;
    for a in 0..7 {
        for b in a + 1..7 {
            let h: Vec<Card> =
                (0..7).filter(|&i| i != a && i != b).map(|i| all[i]).collect();
            best = best.max(evaluate_hand(&h).index());
        }
    }
    best
}

#[test]
fn best_hand_matches_brute_force() {
    // a fixed walk through the deck gives many different seven-card sets
    let deck: Vec<Card> = SUITS
        .iter()
        .flat_map(|&s| RANKS.iter().map(move |&r| c(r, s)))
        .collect();
    let mut seed: usize = 17;
    for _ in 0..300 {
        let mut picked: Vec<Card> = Vec::new();
        while picked.len() < 7 {
            seed = (seed * 1103515245 + 12345) % 2147483648;
            let card = deck[seed % 52];
            if !picked.contains(&card) {
                picked.push(card);
            }
        }
        let best = evaluate_best_hand(&picked[..2].to_vec(), &picked[2..].to_vec()).unwrap();
        assert_eq!(best.category.index(), brute_force_best(&picked));
        assert_eq!(evaluate_hand(&best.cards), best.category);
        assert!(best.cards.iter().all(|x| picked.contains(x)));
    }
}

#[test]
fn hand_records_its_evaluation() {
    let mut hand = Hand::new();
    assert!(hand.hand_type.is_none() && hand.combo.is_none());
    let private = vec![c(Rank::Two, Suit::Club), c(Rank::Two, Suit::Diamond)];
    let shared = vec![
        c(Rank::Two, Suit::Heart),
        c(Rank::Two, Suit::Spade),
        c(Rank::Five, Suit::Club),
        c(Rank::Nine, Suit::Diamond),
        c(Rank::King, Suit::Heart),
    ];
    assert_eq!(hand.evaluate(&private, &shared), Ok(HandType::FourOfAKind));
    assert_eq!(hand.hand_type, Some(HandType::FourOfAKind));
    assert_eq!(hand.combo.as_ref().map(|v| v.len()), Some(5));
    assert_eq!(hand.evaluate(&private, &vec![]), Err(PokerError::InvalidCardCount));
    assert_eq!(hand.hand_type, Some(HandType::FourOfAKind));
}

#[test]
fn display_names() {
    assert_eq!(c(Rank::Ace, Suit::Spade).to_string(), "Ace of Spades");
    assert_eq!(c(Rank::Ten, Suit::Diamond).to_string(), "Ten of Diamonds");
    assert_eq!(Suit::Club.to_string(), "Clubs");
    assert_eq!(Rank::Queen.to_string(), "Queen");
    assert_eq!(HandType::HighCard.to_string(), "High card");
    assert_eq!(HandType::Pair.to_string(), "A pair");
    assert_eq!(HandType::StraightFlush.to_string(), "Straight Flush");
    assert_eq!(HandType::RoyalFlush.to_string(), "Royal flush");
}
