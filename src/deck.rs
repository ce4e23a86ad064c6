use vstd::prelude::*;
use crate::card::{Card, Rank, Suit, RANK_COUNT, SUIT_COUNT};
use crate::select::{best_hand_outcome, evaluate_best_hand, EvaluatedHand, PokerError, DEAL_SIZE};

verus! {

/// Number of cards in a full deck.
pub const DECK_SIZE: usize = 52;

/// Number of private cards dealt to the player.
pub const PRIVATE_SIZE: usize = 2;

/// Position of a card in a freshly made deck: suits in turn, each from Two up
/// to Ace.
pub open spec fn deck_position(c: Card) -> int {
    c.suit.value() * RANK_COUNT + c.rank.value()
}

/// Each of the 52 cards exactly once.
pub open spec fn is_full_deck(s: Seq<Card>) -> bool {
    &&& s.len() == DECK_SIZE
    &&& s.no_duplicates()
    &&& forall|c: Card| #[trigger] s.contains(c)
}

/// `s` with the cards at positions `i` and `j` trading places.
pub open spec fn swap_cards(s: Seq<Card>, i: int, j: int) -> Seq<Card> {
    s.update(i, s[j]).update(j, s[i])
}

/// The Fisher-Yates steps for positions `i - 1` down to 1: at each position
/// `k` the card there trades places with the one at `d[k] % (k + 1)`.
pub open spec fn shuffle_below(s: Seq<Card>, d: Seq<usize>, i: nat) -> Seq<Card>
    decreases i,
{
    if i <= 1 {
        s
    } else {
        let k = (i - 1) as int;
        shuffle_below(swap_cards(s, k, d[k] as int % (k + 1)), d, (i - 1) as nat)
    }
}

/// The order the Fisher-Yates shuffle gives `s` for the values `d`.
pub open spec fn fisher_yates(s: Seq<Card>, d: Seq<usize>) -> Seq<Card> {
    shuffle_below(s, d, s.len())
}

/// The steps below position `i` leave the cards at `i` and above in place
/// and keep the cards distinct.
proof fn lemma_shuffle_below_frozen(s: Seq<Card>, d: Seq<usize>, i: nat)
    requires
        i <= s.len(),
        d.len() == s.len(),
    ensures
        shuffle_below(s, d, i).len() == s.len(),
        forall|p: int| i <= p < s.len() ==> #[trigger] shuffle_below(s, d, i)[p] == s[p],
        s.no_duplicates() ==> shuffle_below(s, d, i).no_duplicates(),
    decreases i,
{
    if i > 1 {
        let k = (i - 1) as int;
        let j = d[k] as int % (k + 1);
        let t = swap_cards(s, k, j);
        lemma_swap_distinct(s, k, j);
        lemma_shuffle_below_frozen(t, d, (i - 1) as nat);
        assert forall|p: int| i <= p < s.len() implies #[trigger] shuffle_below(s, d, i)[p] == s[p] by {
            assert(shuffle_below(t, d, (i - 1) as nat)[p] == t[p]);
        }
    }
}

proof fn lemma_swap_distinct(s: Seq<Card>, i: int, j: int)
    requires
        0 <= i < s.len(),
        0 <= j < s.len(),
    ensures
        swap_cards(s, i, j).len() == s.len(),
        s.no_duplicates() ==> swap_cards(s, i, j).no_duplicates(),
{
    let t = swap_cards(s, i, j);
    if s.no_duplicates() {
        assert forall|a: int, b: int| 0 <= a < t.len() && 0 <= b < t.len() && a != b implies t[a]
            != t[b] by {
            let pa = if a == j { i } else if a == i { j } else { a };
            let pb = if b == j { i } else if b == i { j } else { b };
            assert(t[a] == s[pa] && t[b] == s[pb]);
        }
    }
}

/// The Fisher-Yates order depends on the draws only through the positions
/// they pick, `d[k] % (k + 1)`.
pub proof fn lemma_fisher_yates_reduced_draws(s: Seq<Card>, d1: Seq<usize>, d2: Seq<usize>)
    requires
        d1.len() == s.len(),
        d2.len() == s.len(),
        forall|k: int| 1 <= k < s.len() ==> #[trigger] (d1[k] as int % (k + 1)) == d2[k] as int % (k
            + 1),
    ensures
        fisher_yates(s, d1) == fisher_yates(s, d2),
{
    lemma_shuffle_below_same(s, d1, d2, s.len());
}

proof fn lemma_shuffle_below_same(s: Seq<Card>, d1: Seq<usize>, d2: Seq<usize>, i: nat)
    requires
        i <= s.len(),
        d1.len() == s.len(),
        d2.len() == s.len(),
        forall|k: int| 1 <= k < i ==> #[trigger] (d1[k] as int % (k + 1)) == d2[k] as int % (k + 1),
    ensures
        shuffle_below(s, d1, i) == shuffle_below(s, d2, i),
    decreases i,
{
    if i > 1 {
        let k = (i - 1) as int;
        assert(d1[k] as int % (k + 1) == d2[k] as int % (k + 1));
        let t = swap_cards(s, k, d1[k] as int % (k + 1));
        lemma_shuffle_below_same(t, d1, d2, (i - 1) as nat);
    }
}

/// On distinct cards, draws that pick different positions at some step give
/// different orders: together with the previous law, the order is a
/// one-to-one function of the picked positions.
pub proof fn lemma_fisher_yates_injective(s: Seq<Card>, d1: Seq<usize>, d2: Seq<usize>)
    requires
        s.no_duplicates(),
        d1.len() == s.len(),
        d2.len() == s.len(),
        fisher_yates(s, d1) == fisher_yates(s, d2),
    ensures
        forall|k: int| 1 <= k < s.len() ==> #[trigger] (d1[k] as int % (k + 1)) == d2[k] as int % (k
            + 1),
{
    lemma_shuffle_below_injective(s, d1, d2, s.len());
}

proof fn lemma_shuffle_below_injective(s: Seq<Card>, d1: Seq<usize>, d2: Seq<usize>, i: nat)
    requires
        i <= s.len(),
        s.no_duplicates(),
        d1.len() == s.len(),
        d2.len() == s.len(),
        shuffle_below(s, d1, i) == shuffle_below(s, d2, i),
    ensures
        forall|k: int| 1 <= k < i ==> #[trigger] (d1[k] as int % (k + 1)) == d2[k] as int % (k + 1),
    decreases i,
{
    if i > 1 {
        let k = (i - 1) as int;
        let j1 = d1[k] as int % (k + 1);
        let j2 = d2[k] as int % (k + 1);
        let t1 = swap_cards(s, k, j1);
        let t2 = swap_cards(s, k, j2);
        lemma_swap_distinct(s, k, j1);
        lemma_swap_distinct(s, k, j2);
        lemma_shuffle_below_frozen(t1, d1, (i - 1) as nat);
        lemma_shuffle_below_frozen(t2, d2, (i - 1) as nat);
        assert(shuffle_below(t1, d1, (i - 1) as nat)[k] == t1[k]);
        assert(shuffle_below(t2, d2, (i - 1) as nat)[k] == t2[k]);
        assert(t1[k] == s[j1] && t2[k] == s[j2]);
        assert(j1 == j2);
        lemma_shuffle_below_injective(t1, d1, d2, (i - 1) as nat);
    }
}

/// The card `c` stands somewhere below position `i` of `s`.
pub open spec fn in_prefix(s: Seq<Card>, c: Card, i: int) -> bool {
    exists|q: int| 0 <= q < i && #[trigger] s[q] == c
}

proof fn lemma_shuffle_below_onto(s: Seq<Card>, t: Seq<Card>, i: nat) -> (d: Seq<usize>)
    requires
        i <= s.len() <= usize::MAX,
        t.len() == s.len(),
        t.no_duplicates(),
        forall|p: int| i <= p < s.len() ==> #[trigger] t[p] == s[p],
        forall|p: int| 0 <= p < i ==> in_prefix(s, #[trigger] t[p], i as int),
    ensures
        d.len() == s.len(),
        shuffle_below(s, d, i) == t,
    decreases i,
{
    if i <= 1 {
        if i == 1 {
            assert(in_prefix(s, t[0], 1));
            let q = choose|q: int| 0 <= q < 1 && #[trigger] s[q] == t[0];
            assert(q == 0);
        }
        assert(s =~= t);
        Seq::new(s.len(), |p: int| 0usize)
    } else {
        let k = (i - 1) as int;
        assert(in_prefix(s, t[k], i as int));
        let j = choose|q: int| 0 <= q < i && #[trigger] s[q] == t[k];
        let u = swap_cards(s, k, j);
        assert forall|p: int| 0 <= p < k implies in_prefix(u, #[trigger] t[p], k) by {
            assert(in_prefix(s, t[p], i as int));
            let q = choose|q: int| 0 <= q < i && #[trigger] s[q] == t[p];
            assert(t[p] != t[k]);
            if q == k {
                assert(u[j] == t[p]);
            } else {
                assert(u[q] == t[p]);
            }
        }
        let d0 = lemma_shuffle_below_onto(u, t, (i - 1) as nat);
        let d = d0.update(k, j as usize);
        assert(d[k] as int == j);
        vstd::arithmetic::div_mod::lemma_small_mod(j as nat, (k + 1) as nat);
        assert(d[k] as int % (k + 1) == j);
        lemma_shuffle_below_same(u, d, d0, (i - 1) as nat);
        d
    }
}

/// Every order of distinct cards is the Fisher-Yates order of some draws:
/// with the two previous laws, the picked positions and the orders of the
/// cards correspond one to one.
pub proof fn lemma_fisher_yates_onto(s: Seq<Card>, t: Seq<Card>)
    requires
        s.len() <= usize::MAX,
        t.len() == s.len(),
        t.no_duplicates(),
        forall|c: Card| t.contains(c) ==> s.contains(c),
    ensures
        exists|d: Seq<usize>| d.len() == s.len() && fisher_yates(s, d) == t,
{
    assert forall|p: int| 0 <= p < s.len() implies in_prefix(s, #[trigger] t[p], s.len() as int) by {
        assert(t.contains(t[p]));
        assert(s.contains(t[p]));
    }
    let d = lemma_shuffle_below_onto(s, t, s.len());
}

/// A deck: the cards not yet drawn, the next one first.
#[derive(Debug)]
pub struct Deck {
    pub cards: Vec<Card>,
}

/// Relies on rand's `random` (the thread-local generator): some `usize`,
/// about which nothing is promised.
#[verifier::external_body]
fn random_value() -> (r: usize) {
    rand::random::<usize>()
}

impl Deck {
    /// No card occurs twice.
    pub open spec fn wf(&self) -> bool {
        self.cards@.no_duplicates()
    }

    /// A full deck in order: Spades, Hearts, Diamonds, Clubs, each from Two
    /// up to Ace.
    pub fn new() -> (r: Deck)
        ensures
            r.wf(),
            is_full_deck(r.cards@),
            forall|j: int| 0 <= j < DECK_SIZE ==> deck_position(#[trigger] r.cards@[j]) == j,
    {
        let mut cards: Vec<Card> = Vec::with_capacity(DECK_SIZE);
        let mut s: u8 = 0;
        while s < SUIT_COUNT
            invariant
                s <= SUIT_COUNT,
                cards@.len() == s * RANK_COUNT,
                forall|j: int| 0 <= j < cards@.len() ==> deck_position(#[trigger] cards@[j]) == j,
            decreases SUIT_COUNT - s,
        {
            let suit = Suit::from_value(s);
            let mut r: u8 = 0;
            while r < RANK_COUNT
                invariant
                    s < SUIT_COUNT,
                    r <= RANK_COUNT,
                    suit.value() == s,
                    cards@.len() == s * RANK_COUNT + r,
                    forall|j: int| 0 <= j < cards@.len() ==> deck_position(#[trigger] cards@[j]) == j,
                decreases RANK_COUNT - r,
            {
                cards.push(Card { rank: Rank::from_value(r), suit });
                r += 1;
            }
            s += 1;
        }
        let deck = Deck { cards };
        proof {
            assert forall|a: int, b: int|
                0 <= a < deck.cards@.len() && 0 <= b < deck.cards@.len() && a != b implies deck.cards@[a]
                != deck.cards@[b] by {
                assert(deck_position(deck.cards@[a]) == a);
                assert(deck_position(deck.cards@[b]) == b);
            }
            assert forall|c: Card| #[trigger] deck.cards@.contains(c) by {
                let j = deck_position(c);
                let d = deck.cards@[j];
                assert(deck_position(d) == j);
                assert(d.rank.value() == c.rank.value() && d.suit.value() == c.suit.value());
                assert(d == c);
            }
        }
        deck
    }

    /// Puts the cards in the order that the Fisher-Yates shuffle gives for
    /// the values `draws`: for `i` from the last position down to 1, the card
    /// at `i` trades places with the card at `draws[i] % (i + 1)`.
    pub fn shuffle_with(&mut self, draws: &Vec<usize>)
        requires
            draws@.len() == old(self).cards@.len(),
        ensures
            final(self).cards@ == fisher_yates(old(self).cards@, draws@),
            final(self).cards@.to_multiset() == old(self).cards@.to_multiset(),
            final(self).cards@.len() == old(self).cards@.len(),
            old(self).wf() ==> final(self).wf(),
    {
        let ghost start = self.cards@;
        let mut i: usize = self.cards.len();
        while i > 1
            invariant
                i <= self.cards@.len(),
                draws@.len() == self.cards@.len(),
                self.cards@.len() == start.len(),
                self.cards@.to_multiset() == start.to_multiset(),
                shuffle_below(self.cards@, draws@, i as nat) == fisher_yates(start, draws@),
            decreases i,
        {
            i -= 1;
            let j: usize = draws[i] % (i + 1);
            let a = self.cards[i];
            let b = self.cards[j];
            proof {
                broadcast use vstd::seq_lib::group_to_multiset_ensures;
                broadcast use vstd::multiset::group_multiset_axioms;

                let s0 = self.cards@;
                assert(s0[i as int] == a);
                assert(s0.contains(a));
                vstd::seq_lib::to_multiset_update(s0, i as int, b);
                vstd::seq_lib::to_multiset_update(s0.update(i as int, b), j as int, a);
                assert(s0.to_multiset().insert(b).remove(a).insert(a).remove(b) =~= s0.to_multiset());
            }
            self.cards.set(i, b);
            self.cards.set(j, a);
        }
        proof {
            vstd::seq_lib::to_multiset_len(start);
            vstd::seq_lib::to_multiset_len(self.cards@);
            if start.no_duplicates() {
                start.lemma_multiset_has_no_duplicates();
                self.cards@.lemma_multiset_has_no_duplicates_conv();
            }
        }
    }

    /// Puts the cards in a random order: the Fisher-Yates shuffle on values
    /// drawn from the thread's random generator, one for each position.
    pub fn shuffle(&mut self)
        ensures
            exists|d: Seq<usize>|
                d.len() == old(self).cards@.len() && final(self).cards@ == fisher_yates(
                    old(self).cards@,
                    d,
                ),
            final(self).cards@.to_multiset() == old(self).cards@.to_multiset(),
            final(self).cards@.len() == old(self).cards@.len(),
            old(self).wf() ==> final(self).wf(),
    {
        let mut draws: Vec<usize> = Vec::new();
        let mut i: usize = 0;
        while i < self.cards.len()
            invariant
                i <= self.cards@.len(),
                draws@.len() == i,
            decreases self.cards@.len() - i,
        {
            draws.push(random_value());
            i += 1;
        }
        self.shuffle_with(&draws);
    }

    /// Takes the next card off the deck.
    pub fn draw(&mut self) -> (r: Result<Card, PokerError>)
        ensures
            old(self).cards@.len() == 0 ==> r == Err::<Card, PokerError>(PokerError::ExhaustedDeck)
                && final(self).cards@ == old(self).cards@,
            old(self).cards@.len() > 0 ==> r == Ok::<Card, PokerError>(old(self).cards@[0])
                && final(self).cards@ == old(self).cards@.drop_first(),
            old(self).wf() ==> final(self).wf(),
    {
        if self.cards.len() == 0 {
            return Err(PokerError::ExhaustedDeck);
        }
        let c = self.cards.remove(0);
        assert(self.cards@ =~= old(self).cards@.drop_first());
        Ok(c)
    }
}

/// One deal: two private cards and then five shared cards off the top of the
/// deck, and the best hand they make. A deck with fewer than seven cards
/// gives `ExhaustedDeck` and is left as it was.
pub fn play_trial(deck: &mut Deck) -> (r: Result<EvaluatedHand, PokerError>)
    requires
        old(deck).wf(),
    ensures
        final(deck).wf(),
        old(deck).cards@.len() < DEAL_SIZE ==> r == Err::<EvaluatedHand, PokerError>(
            PokerError::ExhaustedDeck,
        ) && final(deck).cards@ == old(deck).cards@,
        old(deck).cards@.len() >= DEAL_SIZE ==> {
            &&& r is Ok
            &&& final(deck).cards@ == old(deck).cards@.subrange(
                DEAL_SIZE as int,
                old(deck).cards@.len() as int,
            )
            &&& best_hand_outcome(
                old(deck).cards@.subrange(0, PRIVATE_SIZE as int),
                old(deck).cards@.subrange(PRIVATE_SIZE as int, DEAL_SIZE as int),
                r,
            )
        },
{
    if deck.cards.len() < DEAL_SIZE {
        return Err(PokerError::ExhaustedDeck);
    }
    let ghost start = deck.cards@;
    let mut private_cards: Vec<Card> = Vec::new();
    let mut shared_cards: Vec<Card> = Vec::new();
    let mut i: usize = 0;
    while i < DEAL_SIZE
        invariant
            i <= DEAL_SIZE,
            start.len() >= DEAL_SIZE,
            deck.wf(),
            deck.cards@ == start.subrange(i as int, start.len() as int),
            i <= PRIVATE_SIZE ==> private_cards@ == start.subrange(0, i as int) && shared_cards@.len()
                == 0,
            i > PRIVATE_SIZE ==> private_cards@ == start.subrange(0, PRIVATE_SIZE as int)
                && shared_cards@ == start.subrange(PRIVATE_SIZE as int, i as int),
        decreases DEAL_SIZE - i,
    {
        let c = match deck.draw() {
            Ok(c) => c,
            Err(e) => return Err(e),
        };
        assert(deck.cards@ =~= start.subrange(i + 1, start.len() as int));
        if i < PRIVATE_SIZE {
            private_cards.push(c);
            assert(private_cards@ =~= start.subrange(0, i + 1));
        } else {
            shared_cards.push(c);
            assert(shared_cards@ =~= start.subrange(PRIVATE_SIZE as int, i + 1));
        }
        i += 1;
    }
    let r = evaluate_best_hand(&private_cards, &shared_cards);
    proof {
        let all = private_cards@ + shared_cards@;
        assert(all =~= start.subrange(0, DEAL_SIZE as int));
        assert(all.no_duplicates()) by {
            assert forall|a: int, b: int| 0 <= a < all.len() && 0 <= b < all.len() && a != b implies all[a]
                != all[b] by {
                assert(all[a] == start[a] && all[b] == start[b]);
            }
        }
    }
    r
}

} // verus!
