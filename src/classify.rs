use std::collections::HashMap;
use itertools::Itertools;
use vstd::prelude::*;
use crate::card::{Card, Rank, Suit, RANK_COUNT};
use crate::category::HandType;

verus! {

broadcast use vstd::std_specs::hash::group_hash_axioms;

/// How many times `k` occurs in `s`.
pub open spec fn occurrences(s: Seq<u8>, k: u8) -> nat
    decreases s.len(),
{
    if s.len() == 0 {
        0
    } else {
        occurrences(s.drop_last(), k) + if s.last() == k {
            1nat
        } else {
            0nat
        }
    }
}

/// The rank positions of the cards, in order.
pub open spec fn rank_values(s: Seq<Card>) -> Seq<u8> {
    s.map_values(|c: Card| c.rank.value() as u8)
}

/// The ranks of the cards, in order.
pub open spec fn ranks_of(s: Seq<Card>) -> Seq<Rank> {
    s.map_values(|c: Card| c.rank)
}

/// The suits of the cards, in order.
pub open spec fn suits_of(s: Seq<Card>) -> Seq<Suit> {
    s.map_values(|c: Card| c.suit)
}

/// How many cards of `s` have the rank at position `r`.
pub open spec fn rank_count(s: Seq<Card>, r: u8) -> nat {
    occurrences(rank_values(s), r)
}

/// Some rank occurs exactly `n` times.
pub open spec fn has_rank_count(s: Seq<Card>, n: nat) -> bool {
    exists|r: u8| r < RANK_COUNT && #[trigger] rank_count(s, r) == n
}

/// How many of the ranks below position `k` occur exactly twice.
pub open spec fn pairs_below(s: Seq<Card>, k: nat) -> nat
    decreases k,
{
    if k == 0 {
        0
    } else {
        pairs_below(s, (k - 1) as nat) + if rank_count(s, (k - 1) as u8) == 2 {
            1nat
        } else {
            0nat
        }
    }
}

/// How many ranks occur exactly twice.
pub open spec fn pair_count(s: Seq<Card>) -> nat {
    pairs_below(s, RANK_COUNT as nat)
}

/// The cards are in ascending order of rank.
pub open spec fn sorted_by_rank(s: Seq<Card>) -> bool {
    forall|i: int, j: int| 0 <= i <= j < s.len() ==> s[i].rank.value() <= s[j].rank.value()
}

/// Each rank is one step above the one before it.
pub open spec fn is_run(rs: Seq<Rank>) -> bool {
    forall|i: int| 0 <= i < rs.len() - 1 ==> #[trigger] rs[i + 1].value() == rs[i].value() + 1
}

/// The ace-low straight Two, Three, Four, Five, Ace.
pub open spec fn is_wheel(rs: Seq<Rank>) -> bool {
    rs == seq![Rank::Two, Rank::Three, Rank::Four, Rank::Five, Rank::Ace]
}

/// Five ranks in a run, or the wheel.
pub open spec fn is_straight_hand(s: Seq<Card>) -> bool {
    is_run(ranks_of(s)) || is_wheel(ranks_of(s))
}

/// All cards share one suit.
pub open spec fn is_flush_hand(s: Seq<Card>) -> bool {
    s.len() > 0 && forall|i: int| 0 <= i < s.len() ==> #[trigger] s[i].suit == s[0].suit
}

/// The category of a rank-sorted five-card hand: the first rule that
/// matches, from the strongest category down.
pub open spec fn category(s: Seq<Card>) -> HandType {
    let straight = is_straight_hand(s);
    let flush = is_flush_hand(s);
    if straight && flush && s[0].rank == Rank::Ten {
        HandType::RoyalFlush
    } else if straight && flush {
        HandType::StraightFlush
    } else if has_rank_count(s, 4) {
        HandType::FourOfAKind
    } else if has_rank_count(s, 3) && pair_count(s) > 0 {
        HandType::FullHouse
    } else if flush {
        HandType::Flush
    } else if straight {
        HandType::Straight
    } else if has_rank_count(s, 3) {
        HandType::ThreeOfAKind
    } else if pair_count(s) == 2 {
        HandType::TwoPair
    } else if pair_count(s) == 1 {
        HandType::Pair
    } else {
        HandType::HighCard
    }
}

/// `s` with each run of equal neighbours kept once.
pub open spec fn dedup_spec<T>(s: Seq<T>) -> Seq<T>
    decreases s.len(),
{
    if s.len() <= 1 {
        s
    } else if s.last() == s[s.len() - 2] {
        dedup_spec(s.drop_last())
    } else {
        dedup_spec(s.drop_last()).push(s.last())
    }
}

/// No two neighbours are equal.
pub open spec fn no_equal_neighbours<T>(s: Seq<T>) -> bool {
    forall|i: int| 0 <= i < s.len() - 1 ==> #[trigger] s[i] != s[i + 1]
}

proof fn lemma_dedup_len<T>(s: Seq<T>)
    ensures
        dedup_spec(s).len() <= s.len(),
        s.len() > 0 ==> dedup_spec(s).len() > 0,
        s.len() > 0 ==> dedup_spec(s)[0] == s[0],
        no_equal_neighbours(s) ==> dedup_spec(s) == s,
        dedup_spec(s).len() == s.len() ==> no_equal_neighbours(s),
    decreases s.len(),
{
    if s.len() > 1 {
        let p = s.drop_last();
        lemma_dedup_len(p);
        assert(no_equal_neighbours(s) ==> no_equal_neighbours(p)) by {
            if no_equal_neighbours(s) {
                assert forall|i: int| 0 <= i < p.len() - 1 implies #[trigger] p[i] != p[i + 1] by {
                    assert(s[i] != s[i + 1]);
                }
            }
        }
        if no_equal_neighbours(s) {
            assert(s[s.len() - 2] != s[s.len() - 1]);
            assert(p.push(s.last()) =~= s);
        }
        if dedup_spec(s).len() == s.len() {
            assert(s.last() != s[s.len() - 2]);
            assert forall|i: int| 0 <= i < s.len() - 1 implies #[trigger] s[i] != s[i + 1] by {
                if i < s.len() - 2 {
                    assert(p[i] != p[i + 1]);
                }
            }
        }
    }
}

proof fn lemma_dedup_single<T>(s: Seq<T>)
    requires
        s.len() > 0,
    ensures
        (dedup_spec(s).len() == 1) == (forall|i: int| 0 <= i < s.len() ==> #[trigger] s[i] == s[0]),
    decreases s.len(),
{
    if s.len() > 1 {
        let p = s.drop_last();
        lemma_dedup_single(p);
        lemma_dedup_len(p);
        if s.last() == s[s.len() - 2] {
            if forall|i: int| 0 <= i < p.len() ==> #[trigger] p[i] == p[0] {
                assert forall|i: int| 0 <= i < s.len() implies #[trigger] s[i] == s[0] by {
                    if i < p.len() {
                        assert(p[i] == p[0]);
                    } else {
                        assert(p[p.len() - 1] == p[0]);
                    }
                }
            } else {
                let j = choose|j: int| 0 <= j < p.len() && #[trigger] p[j] != p[0];
                assert(s[j] != s[0]);
            }
        } else {
            assert(!(s[s.len() - 1] == s[0] && s[s.len() - 2] == s[0]));
        }
    }
}

fn dedup_ranks(rs: &Vec<Rank>) -> (r: Vec<Rank>)
    ensures
        r@ == dedup_spec(rs@),
{
    let mut out: Vec<Rank> = Vec::new();
    let mut i: usize = 0;
    while i < rs.len()
        invariant
            i <= rs.len(),
            out@ == dedup_spec(rs@.subrange(0, i as int)),
        decreases rs.len() - i,
    {
        proof {
            let sub = rs@.subrange(0, i as int + 1);
            assert(sub.drop_last() =~= rs@.subrange(0, i as int));
        }
        if i == 0 || rs[i] != rs[i - 1] {
            out.push(rs[i]);
        }
        i += 1;
    }
    assert(rs@.subrange(0, rs.len() as int) =~= rs@);
    out
}

fn dedup_suits(ss: &Vec<Suit>) -> (r: Vec<Suit>)
    ensures
        r@ == dedup_spec(ss@),
{
    let mut out: Vec<Suit> = Vec::new();
    let mut i: usize = 0;
    while i < ss.len()
        invariant
            i <= ss.len(),
            out@ == dedup_spec(ss@.subrange(0, i as int)),
        decreases ss.len() - i,
    {
        proof {
            let sub = ss@.subrange(0, i as int + 1);
            assert(sub.drop_last() =~= ss@.subrange(0, i as int));
        }
        if i == 0 || ss[i] != ss[i - 1] {
            out.push(ss[i]);
        }
        i += 1;
    }
    assert(ss@.subrange(0, ss.len() as int) =~= ss@);
    out
}

/// Whether ascending ranks form a straight: each rank one step above the one
/// before it, or else exactly the ace-low run Two, Three, Four, Five, Ace.
pub fn is_straight(ranks: &Vec<Rank>) -> (r: bool)
    ensures
        r == (is_run(ranks@) || is_wheel(ranks@)),
{
    let mut i: usize = 1;
    while i < ranks.len()
        invariant
            1 <= i,
            forall|j: int| 0 <= j < i - 1 && j < ranks.len() - 1 ==> #[trigger] ranks@[j + 1].value()
                == ranks@[j].value() + 1,
        decreases ranks.len() - i,
    {
        if ranks[i].index() != ranks[i - 1].index() + 1 {
            // the ace plays low only in the wheel
            let wheel = ranks.len() == 5 && ranks[0] == Rank::Two && ranks[1] == Rank::Three
                && ranks[2] == Rank::Four && ranks[3] == Rank::Five && ranks[4] == Rank::Ace;
            assert(wheel == is_wheel(ranks@)) by {
                if wheel {
                    assert(ranks@ =~= seq![Rank::Two, Rank::Three, Rank::Four, Rank::Five, Rank::Ace]);
                }
            }
            assert(!is_run(ranks@)) by {
                assert(ranks@[(i - 1) as int + 1].value() != ranks@[(i - 1) as int].value() + 1);
            }
            return wheel;
        }
        i += 1;
    }
    true
}

/// The category of five cards given in ascending order of rank.
pub fn evaluate_hand(cards: &Vec<Card>) -> (r: HandType)
    requires
        cards.len() == 5,
        sorted_by_rank(cards@),
    ensures
        r == category(cards@),
{
    let mut ranks: Vec<Rank> = Vec::new();
    let mut values: Vec<u8> = Vec::new();
    let mut suits: Vec<Suit> = Vec::new();
    let mut i: usize = 0;
    while i < cards.len()
        invariant
            i <= cards.len(),
            ranks@ == ranks_of(cards@).subrange(0, i as int),
            values@ == rank_values(cards@).subrange(0, i as int),
            suits@ == suits_of(cards@).subrange(0, i as int),
        decreases cards.len() - i,
    {
        ranks.push(cards[i].rank);
        values.push(cards[i].rank.index());
        suits.push(cards[i].suit);
        i += 1;
    }
    assert(ranks@ =~= ranks_of(cards@));
    assert(values@ =~= rank_values(cards@));
    assert(suits@ =~= suits_of(cards@));

    let counts = count_values(&values);
    let mut has_three = false;
    let mut has_four = false;
    let mut pairs: usize = 0;
    let mut k: u8 = 0;
    while k < RANK_COUNT
        invariant
            k <= RANK_COUNT,
            values@ == rank_values(cards@),
            forall|q: u8| #[trigger] counts@.contains_key(q) == (occurrences(values@, q) > 0),
            forall|q: u8| counts@.contains_key(q) ==> #[trigger] counts@[q] == occurrences(values@, q),
            has_three == exists|q: u8| q < k && #[trigger] rank_count(cards@, q) == 3,
            has_four == exists|q: u8| q < k && #[trigger] rank_count(cards@, q) == 4,
            pairs == pairs_below(cards@, k as nat),
            pairs <= k,
        decreases RANK_COUNT - k,
    {
        let c: usize = match counts.get(&k) {
            Some(n) => *n,
            None => 0,
        };
        assert(c == rank_count(cards@, k));
        if c == 3 {
            has_three = true;
        }
        if c == 4 {
            has_four = true;
        }
        if c == 2 {
            pairs += 1;
        }
        k += 1;
    }

    let distinct = dedup_ranks(&ranks);
    proof {
        lemma_dedup_len(ranks@);
        if is_straight_hand(cards@) {
            assert forall|j: int| 0 <= j < ranks@.len() - 1 implies #[trigger] ranks@[j]
                != ranks@[j + 1] by {
                if is_run(ranks@) {
                    assert(ranks@[j + 1].value() == ranks@[j].value() + 1);
                }
            }
        }
    }
    let straight = distinct.len() == 5 && is_straight(&distinct);
    let unique_suits = dedup_suits(&suits);
    proof {
        lemma_dedup_single(suits@);
        if is_flush_hand(cards@) {
            assert forall|j: int| 0 <= j < suits@.len() implies #[trigger] suits@[j] == suits@[0] by {
                assert(cards@[j].suit == cards@[0].suit);
            }
        }
        if unique_suits.len() == 1 {
            assert forall|j: int| 0 <= j < cards@.len() implies #[trigger] cards@[j].suit
                == cards@[0].suit by {
                assert(suits@[j] == suits@[0]);
            }
        }
    }
    let flush = unique_suits.len() == 1;
    assert(straight == is_straight_hand(cards@));
    assert(flush == is_flush_hand(cards@));

    if straight && flush && distinct[0] == Rank::Ten {
        HandType::RoyalFlush
    } else if straight && flush {
        HandType::StraightFlush
    } else if has_four {
        HandType::FourOfAKind
    } else if has_three && pairs > 0 {
        HandType::FullHouse
    } else if flush {
        HandType::Flush
    } else if straight {
        HandType::Straight
    } else if has_three {
        HandType::ThreeOfAKind
    } else if pairs == 2 {
        HandType::TwoPair
    } else if pairs == 1 {
        HandType::Pair
    } else {
        HandType::HighCard
    }
}

/// The count of rank `r` in a five-card hand, position by position.
pub proof fn lemma_rank_count_five(h: Seq<Card>, r: u8)
    requires
        h.len() == 5,
    ensures
        rank_count(h, r) == (if h[0].rank.value() == r { 1nat } else { 0nat }) + (if h[1].rank.value()
            == r { 1nat } else { 0nat }) + (if h[2].rank.value() == r { 1nat } else { 0nat }) + (
        if h[3].rank.value() == r { 1nat } else { 0nat }) + (if h[4].rank.value() == r { 1nat } else {
            0nat
        }),
{
    let v = rank_values(h);
    let v4 = v.drop_last();
    let v3 = v4.drop_last();
    let v2 = v3.drop_last();
    let v1 = v2.drop_last();
    let v0 = v1.drop_last();
    assert(v0.len() == 0);
    assert(occurrences(v0, r) == 0);
    assert(occurrences(v1, r) == occurrences(v0, r) + if v1.last() == r { 1nat } else { 0nat });
    assert(occurrences(v2, r) == occurrences(v1, r) + if v2.last() == r { 1nat } else { 0nat });
    assert(occurrences(v3, r) == occurrences(v2, r) + if v3.last() == r { 1nat } else { 0nat });
    assert(occurrences(v4, r) == occurrences(v3, r) + if v4.last() == r { 1nat } else { 0nat });
    assert(occurrences(v, r) == occurrences(v4, r) + if v.last() == r { 1nat } else { 0nat });
}

/// In a straight no rank occurs twice.
proof fn lemma_straight_ranks_distinct(h: Seq<Card>, r: u8)
    requires
        h.len() == 5,
        is_straight_hand(h),
    ensures
        rank_count(h, r) <= 1,
{
    lemma_rank_count_five(h, r);
    let rs = ranks_of(h);
    assert(rs[0] == h[0].rank && rs[1] == h[1].rank && rs[2] == h[2].rank && rs[3] == h[3].rank
        && rs[4] == h[4].rank);
    if is_run(rs) {
        assert(rs.len() == 5);
        let (i0, i1, i2, i3) = (0int, 1int, 2int, 3int);
        assert(rs[i0 + 1].value() == rs[i0].value() + 1);
        assert(rs[i1 + 1].value() == rs[i1].value() + 1);
        assert(rs[i2 + 1].value() == rs[i2].value() + 1);
        assert(rs[i3 + 1].value() == rs[i3].value() + 1);
        assert(h[1].rank.value() == h[0].rank.value() + 1);
        assert(h[2].rank.value() == h[1].rank.value() + 1);
        assert(h[3].rank.value() == h[2].rank.value() + 1);
        assert(h[4].rank.value() == h[3].rank.value() + 1);
    } else {
        assert(rs[0] == Rank::Two && rs[1] == Rank::Three && rs[2] == Rank::Four && rs[3] == Rank::Five
            && rs[4] == Rank::Ace);
    }
}

/// Some rank below `k` occurring twice makes the pair count below `k` positive.
proof fn lemma_pairs_below_positive(h: Seq<Card>, k: nat, b: u8)
    requires
        b < k <= RANK_COUNT,
        rank_count(h, b) == 2,
    ensures
        pairs_below(h, k) >= 1,
    decreases k,
{
    if k - 1 != b {
        lemma_pairs_below_positive(h, (k - 1) as nat, b);
    }
}

/// With no rank below `k` occurring twice, the pair count below `k` is zero.
proof fn lemma_pairs_below_zero(h: Seq<Card>, k: nat)
    requires
        k <= RANK_COUNT,
        forall|q: u8| q < k ==> #[trigger] rank_count(h, q) != 2,
    ensures
        pairs_below(h, k) == 0,
    decreases k,
{
    if k > 0 {
        assert(rank_count(h, (k - 1) as u8) != 2);
        lemma_pairs_below_zero(h, (k - 1) as nat);
    }
}

/// Five cards of one suit ranked Ten, Jack, Queen, King, Ace are a royal flush.
pub proof fn lemma_royal_flush(h: Seq<Card>)
    requires
        h.len() == 5,
        forall|i: int| 0 <= i < 5 ==> #[trigger] h[i].suit == h[0].suit,
        ranks_of(h) == seq![Rank::Ten, Rank::Jack, Rank::Queen, Rank::King, Rank::Ace],
    ensures
        category(h) == HandType::RoyalFlush,
{
    let rs = ranks_of(h);
    assert(rs[0] == Rank::Ten && rs[1] == Rank::Jack && rs[2] == Rank::Queen && rs[3] == Rank::King
        && rs[4] == Rank::Ace);
    assert(is_run(rs));
}

/// Five cards of one suit ranked Two, Three, Four, Five, Ace (the ace playing
/// low) are a straight flush.
pub proof fn lemma_wheel_straight_flush(h: Seq<Card>)
    requires
        h.len() == 5,
        forall|i: int| 0 <= i < 5 ==> #[trigger] h[i].suit == h[0].suit,
        ranks_of(h) == seq![Rank::Two, Rank::Three, Rank::Four, Rank::Five, Rank::Ace],
    ensures
        category(h) == HandType::StraightFlush,
{
    let rs = ranks_of(h);
    assert(rs[0] == Rank::Two);
}

/// A sorted five-card hand in which some rank occurs four times is four of a
/// kind, whatever the fifth card.
pub proof fn lemma_four_of_a_kind(h: Seq<Card>)
    requires
        h.len() == 5,
        sorted_by_rank(h),
        has_rank_count(h, 4),
    ensures
        category(h) == HandType::FourOfAKind,
{
    let q = choose|q: u8| q < RANK_COUNT && #[trigger] rank_count(h, q) == 4;
    if is_straight_hand(h) {
        lemma_straight_ranks_distinct(h, q);
    }
}

/// A sorted five-card hand with one rank three times and another twice is a
/// full house.
pub proof fn lemma_full_house(h: Seq<Card>, a: u8, b: u8)
    requires
        h.len() == 5,
        sorted_by_rank(h),
        a < RANK_COUNT,
        b < RANK_COUNT,
        a != b,
        rank_count(h, a) == 3,
        rank_count(h, b) == 2,
    ensures
        category(h) == HandType::FullHouse,
{
    lemma_rank_count_five(h, a);
    lemma_rank_count_five(h, b);
    if is_straight_hand(h) {
        lemma_straight_ranks_distinct(h, a);
    }
    assert(!has_rank_count(h, 4)) by {
        if has_rank_count(h, 4) {
            let q = choose|q: u8| q < RANK_COUNT && #[trigger] rank_count(h, q) == 4;
            lemma_rank_count_five(h, q);
        }
    }
    assert(has_rank_count(h, 3));
    lemma_pairs_below_positive(h, RANK_COUNT as nat, b);
}

/// A sorted hand of five distinct cards with one rank three times and every
/// other rank at most once is three of a kind, never a full house.
pub proof fn lemma_three_of_a_kind(h: Seq<Card>, t: u8)
    requires
        h.len() == 5,
        h.no_duplicates(),
        sorted_by_rank(h),
        t < RANK_COUNT,
        rank_count(h, t) == 3,
        forall|r: u8| r != t ==> #[trigger] rank_count(h, r) <= 1,
    ensures
        category(h) == HandType::ThreeOfAKind,
{
    lemma_rank_count_five(h, t);
    if is_straight_hand(h) {
        lemma_straight_ranks_distinct(h, t);
    }
    assert(!has_rank_count(h, 4)) by {
        if has_rank_count(h, 4) {
            let q = choose|q: u8| q < RANK_COUNT && #[trigger] rank_count(h, q) == 4;
            assert(rank_count(h, q) <= 1);
        }
    }
    assert forall|q: u8| q < RANK_COUNT implies #[trigger] rank_count(h, q) != 2 by {
        if q != t {
            assert(rank_count(h, q) <= 1);
        }
    }
    lemma_pairs_below_zero(h, RANK_COUNT as nat);
    assert(!is_flush_hand(h)) by {
        if is_flush_hand(h) {
            assert(forall|i: int| 0 <= i < 5 ==> #[trigger] h[i].suit == h[0].suit);
            assert(h[0].suit == h[0].suit && h[1].suit == h[0].suit && h[2].suit == h[0].suit
                && h[3].suit == h[0].suit && h[4].suit == h[0].suit);
            // three cards share rank `t`, and with one suit two of them would be equal
            assert(h[0] != h[1] && h[0] != h[2] && h[0] != h[3] && h[0] != h[4] && h[1] != h[2]
                && h[1] != h[3] && h[1] != h[4] && h[2] != h[3] && h[2] != h[4] && h[3] != h[4]);
        }
    }
    assert(has_rank_count(h, 3));
}

proof fn lemma_ranks_multiset(a: Seq<Card>, b: Seq<Card>)
    requires
        a.to_multiset() == b.to_multiset(),
    ensures
        ranks_of(a).to_multiset() == ranks_of(b).to_multiset(),
    decreases a.len(),
{
    broadcast use vstd::seq_lib::group_to_multiset_ensures;
    broadcast use vstd::multiset::group_multiset_axioms;

    vstd::seq_lib::to_multiset_len(a);
    vstd::seq_lib::to_multiset_len(b);
    if a.len() == 0 {
        assert(ranks_of(a) =~= ranks_of(b));
    } else {
        let x = a.last();
        let a1 = a.drop_last();
        assert(a1.push(x) =~= a);
        assert(a.to_multiset().count(x) > 0);
        assert(b.contains(x));
        let k = choose|k: int| 0 <= k < b.len() && b[k] == x;
        let b1 = b.remove(k);
        assert(a1.to_multiset() =~= b1.to_multiset());
        lemma_ranks_multiset(a1, b1);
        assert(ranks_of(a1).push(x.rank) =~= ranks_of(a));
        assert(ranks_of(b1) =~= ranks_of(b).remove(k));
        assert(ranks_of(b)[k] == x.rank);
        assert(ranks_of(b).to_multiset() =~= ranks_of(b1).to_multiset().insert(x.rank));
    }
}

proof fn lemma_pairs_below_same(a: Seq<Card>, b: Seq<Card>, k: nat)
    requires
        rank_values(a) == rank_values(b),
    ensures
        pairs_below(a, k) == pairs_below(b, k),
    decreases k,
{
    if k > 0 {
        lemma_pairs_below_same(a, b, (k - 1) as nat);
    }
}

/// Two rank-sorted orders of the same cards have the same category: the
/// category is a function of the five cards, not of how they are listed.
pub proof fn lemma_category_same_cards(a: Seq<Card>, b: Seq<Card>)
    requires
        sorted_by_rank(a),
        sorted_by_rank(b),
        a.to_multiset() == b.to_multiset(),
    ensures
        category(a) == category(b),
{
    broadcast use vstd::seq_lib::group_to_multiset_ensures;

    let leq = |x: Rank, y: Rank| x.value() <= y.value();
    let ra = ranks_of(a);
    let rb = ranks_of(b);
    lemma_ranks_multiset(a, b);
    vstd::seq_lib::to_multiset_len(a);
    vstd::seq_lib::to_multiset_len(b);
    assert(vstd::relations::sorted_by(ra, leq)) by {
        assert forall|i: int, j: int| 0 <= i < j < ra.len() implies #[trigger] leq(ra[i], ra[j]) by {
            assert(a[i].rank.value() <= a[j].rank.value());
        }
    }
    assert(vstd::relations::sorted_by(rb, leq)) by {
        assert forall|i: int, j: int| 0 <= i < j < rb.len() implies #[trigger] leq(rb[i], rb[j]) by {
            assert(b[i].rank.value() <= b[j].rank.value());
        }
    }
    assert(vstd::relations::total_ordering(leq));
    vstd::seq_lib::lemma_sorted_unique(ra, rb, leq);
    assert forall|i: int| 0 <= i < a.len() implies a[i].rank == b[i].rank by {
        assert(ra[i] == rb[i]);
    }
    assert(rank_values(a) =~= rank_values(b));
    lemma_pairs_below_same(a, b, RANK_COUNT as nat);
    lemma_flush_same_cards(a, b);
    lemma_flush_same_cards(b, a);
    assert(ra == rb);
    assert(is_straight_hand(a) == is_straight_hand(b));
    assert(forall|r: u8| #[trigger] rank_count(a, r) == rank_count(b, r));
    lemma_has_rank_count_same(a, b, 4);
    lemma_has_rank_count_same(a, b, 3);
    if a.len() > 0 {
        assert(a[0].rank == b[0].rank);
    }
}

proof fn lemma_has_rank_count_same(a: Seq<Card>, b: Seq<Card>, n: nat)
    requires
        rank_values(a) == rank_values(b),
    ensures
        has_rank_count(a, n) == has_rank_count(b, n),
{
    if has_rank_count(a, n) {
        let r = choose|r: u8| r < RANK_COUNT && #[trigger] rank_count(a, r) == n;
        assert(rank_count(b, r) == n);
    }
    if has_rank_count(b, n) {
        let r = choose|r: u8| r < RANK_COUNT && #[trigger] rank_count(b, r) == n;
        assert(rank_count(a, r) == n);
    }
}

proof fn lemma_flush_same_cards(a: Seq<Card>, b: Seq<Card>)
    requires
        a.to_multiset() == b.to_multiset(),
    ensures
        is_flush_hand(a) ==> is_flush_hand(b),
{
    broadcast use vstd::seq_lib::group_to_multiset_ensures;

    vstd::seq_lib::to_multiset_len(a);
    vstd::seq_lib::to_multiset_len(b);
    if is_flush_hand(a) {
        assert forall|i: int| 0 <= i < b.len() implies #[trigger] b[i].suit == b[0].suit by {
            assert(b.contains(b[i]));
            assert(b.to_multiset().count(b[i]) > 0);
            assert(a.contains(b[i]));
            let p = choose|p: int| 0 <= p < a.len() && a[p] == b[i];
            assert(b.contains(b[0]));
            assert(b.to_multiset().count(b[0]) > 0);
            assert(a.contains(b[0]));
            let q = choose|q: int| 0 <= q < a.len() && a[q] == b[0];
            assert(a[p].suit == a[0].suit && a[q].suit == a[0].suit);
        }
    }
}

/// Relies on itertools' `Itertools::counts`: a map from each item that occurs
/// to the number of times it occurs.
#[verifier::external_body]
fn count_values(vs: &Vec<u8>) -> (r: HashMap<u8, usize>)
    ensures
        forall|k: u8| #[trigger] r@.contains_key(k) == (occurrences(vs@, k) > 0),
        forall|k: u8| r@.contains_key(k) ==> #[trigger] r@[k] == occurrences(vs@, k),
{
    vs.iter().copied().counts()
}

} // verus!
