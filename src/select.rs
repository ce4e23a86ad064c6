use itertools::Itertools;
use vstd::prelude::*;
use crate::card::Card;
use crate::category::HandType;
use crate::classify::{category, evaluate_hand, sorted_by_rank};

verus! {

/// Number of cards the selector chooses from: two private and five shared.
pub const DEAL_SIZE: usize = 7;

/// Number of cards in a hand.
pub const HAND_SIZE: usize = 5;

/// Ways in which an evaluation or a deal can fail.
#[derive(Debug, Clone, Copy, PartialEq, Eq, Structural)]
pub enum PokerError {
    /// The selector was not given exactly seven cards.
    InvalidCardCount,
    /// The same card was given twice.
    DuplicateCard,
    /// A card was drawn from an empty deck.
    ExhaustedDeck,
}

/// The best category found and the five cards that make it.
#[derive(Debug)]
pub struct EvaluatedHand {
    pub category: HandType,
    pub cards: Vec<Card>,
}

/// `c` is a `k`-element choice of positions below `n`, in ascending order.
pub open spec fn is_combination(c: Seq<usize>, n: nat, k: nat) -> bool {
    &&& c.len() == k
    &&& forall|i: int| 0 <= i < c.len() ==> #[trigger] c[i] < n
    &&& forall|i: int, j: int| 0 <= i < j < c.len() ==> c[i] < c[j]
}

/// The cards of `s` at the positions `c`, in that order.
pub open spec fn pick(s: Seq<Card>, c: Seq<usize>) -> Seq<Card> {
    c.map_values(|j: usize| s[j as int])
}

/// `e` holds a five-card choice out of `s` whose category no other five-card
/// choice out of `s` beats.
pub open spec fn is_best_hand(s: Seq<Card>, e: EvaluatedHand) -> bool {
    &&& exists|c: Seq<usize>| is_combination(c, s.len(), HAND_SIZE as nat) && e.cards@ == pick(s, c)
    &&& e.category == category(e.cards@)
    &&& forall|c: Seq<usize>|
        is_combination(c, s.len(), HAND_SIZE as nat) ==> (#[trigger] category(pick(s, c))).value()
            <= e.category.value()
}

/// What the selector owes on private cards `p` and shared cards `q`: an error
/// exactly when the count is not seven or a card repeats, and otherwise the
/// best hand out of the seven cards placed in ascending order of rank.
pub open spec fn best_hand_outcome(
    p: Seq<Card>,
    q: Seq<Card>,
    r: Result<EvaluatedHand, PokerError>,
) -> bool {
    let all = p + q;
    match r {
        Err(PokerError::InvalidCardCount) => all.len() != DEAL_SIZE,
        Err(PokerError::DuplicateCard) => all.len() == DEAL_SIZE && !all.no_duplicates(),
        Err(PokerError::ExhaustedDeck) => false,
        Ok(e) => {
            &&& all.len() == DEAL_SIZE
            &&& all.no_duplicates()
            &&& exists|s: Seq<Card>|
                s.to_multiset() == all.to_multiset() && sorted_by_rank(s) && is_best_hand(s, e)
        },
    }
}

/// Relies on itertools' `Itertools::combinations` applied to the positions
/// `0..n`: every item is a `k`-length combination of the positions, kept in
/// ascending order, and every such combination is among the items.
#[verifier::external_body]
fn position_combinations(n: usize, k: usize) -> (r: Vec<Vec<usize>>)
    ensures
        forall|i: int| 0 <= i < r.len() ==> is_combination(#[trigger] r@[i]@, n as nat, k as nat),
        forall|c: Seq<usize>|
            is_combination(c, n as nat, k as nat) ==> exists|i: int|
                0 <= i < r.len() && #[trigger] r@[i]@ == c,
{
    (0..n).combinations(k).collect()
}

/// Relies on std's `slice::sort_by_key`: the same cards, in ascending order of
/// rank position.
#[verifier::external_body]
fn sort_by_rank(cards: &mut Vec<Card>)
    ensures
        final(cards)@.to_multiset() == old(cards)@.to_multiset(),
        sorted_by_rank(final(cards)@),
{
    cards.sort_by_key(|c| c.rank.index())
}

proof fn lemma_pick_sorted(s: Seq<Card>, c: Seq<usize>)
    requires
        sorted_by_rank(s),
        is_combination(c, s.len(), c.len()),
    ensures
        sorted_by_rank(pick(s, c)),
        pick(s, c).len() == c.len(),
{
    let h = pick(s, c);
    assert forall|i: int, j: int| 0 <= i <= j < h.len() implies h[i].rank.value()
        <= h[j].rank.value() by {
        assert(c[i] < s.len() && c[j] < s.len());
        if i < j {
            assert(c[i] < c[j]);
        }
    }
}

/// The cards of `s` at the positions `c`.
fn pick_cards(s: &Vec<Card>, c: &Vec<usize>) -> (r: Vec<Card>)
    requires
        forall|i: int| 0 <= i < c.len() ==> #[trigger] c@[i] < s.len(),
    ensures
        r@ == pick(s@, c@),
{
    let mut out: Vec<Card> = Vec::new();
    let mut i: usize = 0;
    while i < c.len()
        invariant
            i <= c.len(),
            forall|t: int| 0 <= t < c.len() ==> #[trigger] c@[t] < s.len(),
            out@ == pick(s@, c@).subrange(0, i as int),
        decreases c.len() - i,
    {
        out.push(s[c[i]]);
        i += 1;
    }
    assert(out@ =~= pick(s@, c@));
    out
}

/// Whether some card occurs twice in `cards`.
fn has_duplicate(cards: &Vec<Card>) -> (r: bool)
    ensures
        r == !cards@.no_duplicates(),
{
    let mut i: usize = 0;
    while i < cards.len()
        invariant
            i <= cards.len(),
            forall|a: int, b: int| 0 <= a < i && a < b < cards.len() ==> cards@[a] != cards@[b],
        decreases cards.len() - i,
    {
        let mut j: usize = i + 1;
        while j < cards.len()
            invariant
                i < j <= cards.len(),
                i < cards.len(),
                forall|a: int, b: int| 0 <= a < i && a < b < cards.len() ==> cards@[a] != cards@[b],
                forall|b: int| i < b < j ==> cards@[i as int] != cards@[b],
            decreases cards.len() - j,
        {
            if cards[i] == cards[j] {
                return true;
            }
            j += 1;
        }
        i += 1;
    }
    false
}

/// The best hand out of two private and five shared cards: the strongest
/// category over all five-card choices of the cards in ascending order of
/// rank, with the first choice (in the order the choices come) that reaches it.
pub fn evaluate_best_hand(private_cards: &Vec<Card>, shared_cards: &Vec<Card>) -> (r: Result<
    EvaluatedHand,
    PokerError,
>)
    ensures
        best_hand_outcome(private_cards@, shared_cards@, r),
{
    if private_cards.len() > DEAL_SIZE || shared_cards.len() != DEAL_SIZE - private_cards.len() {
        return Err(PokerError::InvalidCardCount);
    }
    let mut all: Vec<Card> = Vec::new();
    let mut i: usize = 0;
    while i < private_cards.len()
        invariant
            i <= private_cards.len(),
            all@ == private_cards@.subrange(0, i as int),
        decreases private_cards.len() - i,
    {
        all.push(private_cards[i]);
        i += 1;
    }
    let mut i: usize = 0;
    while i < shared_cards.len()
        invariant
            i <= shared_cards.len(),
            all@ == private_cards@ + shared_cards@.subrange(0, i as int),
        decreases shared_cards.len() - i,
    {
        all.push(shared_cards[i]);
        i += 1;
    }
    assert(all@ =~= private_cards@ + shared_cards@);
    if has_duplicate(&all) {
        return Err(PokerError::DuplicateCard);
    }
    let ghost given = all@;
    sort_by_rank(&mut all);
    proof {
        vstd::seq_lib::to_multiset_len(given);
        vstd::seq_lib::to_multiset_len(all@);
    }

    let combos = position_combinations(DEAL_SIZE, HAND_SIZE);
    proof {
        let first = seq![0usize, 1, 2, 3, 4];
        assert(is_combination(first, DEAL_SIZE as nat, HAND_SIZE as nat));
    }
    let first = pick_cards(&all, &combos[0]);
    proof {
        lemma_pick_sorted(all@, combos@[0]@);
    }
    let mut best = EvaluatedHand { category: evaluate_hand(&first), cards: first };
    let ghost best_combo = combos@[0]@;
    let mut i: usize = 1;
    while i < combos.len()
        invariant
            1 <= i <= combos.len(),
            all@.len() == DEAL_SIZE,
            sorted_by_rank(all@),
            forall|t: int|
                0 <= t < combos.len() ==> is_combination(
                    #[trigger] combos@[t]@,
                    DEAL_SIZE as nat,
                    HAND_SIZE as nat,
                ),
            is_combination(best_combo, DEAL_SIZE as nat, HAND_SIZE as nat),
            best.cards@ == pick(all@, best_combo),
            best.category == category(best.cards@),
            forall|t: int|
                0 <= t < i ==> (#[trigger] category(pick(all@, combos@[t]@))).value()
                    <= best.category.value(),
        decreases combos.len() - i,
    {
        let hand = pick_cards(&all, &combos[i]);
        proof {
            lemma_pick_sorted(all@, combos@[i as int]@);
        }
        let cat = evaluate_hand(&hand);
        if cat.index() > best.category.index() {
            best = EvaluatedHand { category: cat, cards: hand };
            proof {
                best_combo = combos@[i as int]@;
            }
        }
        i += 1;
    }
    proof {
        assert forall|c: Seq<usize>|
            is_combination(c, all@.len(), HAND_SIZE as nat) implies (#[trigger] category(
            pick(all@, c),
        )).value() <= best.category.value() by {
            let t = choose|t: int| 0 <= t < combos.len() && #[trigger] combos@[t]@ == c;
            assert(category(pick(all@, combos@[t]@)).value() <= best.category.value());
        }
        assert(is_best_hand(all@, best));
    }
    Ok(best)
}

/// The positions below `n` of the cards of `s` that `h` holds, ascending.
pub open spec fn positions_in(s: Seq<Card>, h: Seq<Card>, n: nat) -> Seq<usize>
    decreases n,
{
    if n == 0 {
        Seq::empty()
    } else {
        let p = positions_in(s, h, (n - 1) as nat);
        if h.contains(s[n - 1]) {
            p.push((n - 1) as usize)
        } else {
            p
        }
    }
}

proof fn lemma_positions_in(s: Seq<Card>, h: Seq<Card>, n: nat)
    requires
        n <= s.len() <= usize::MAX,
    ensures
        forall|i: int|
            0 <= i < positions_in(s, h, n).len() ==> #[trigger] positions_in(s, h, n)[i] < n
                && h.contains(s[positions_in(s, h, n)[i] as int]),
        forall|i: int, j: int|
            0 <= i < j < positions_in(s, h, n).len() ==> positions_in(s, h, n)[i] < positions_in(
                s,
                h,
                n,
            )[j],
        forall|q: int|
            0 <= q < n && h.contains(#[trigger] s[q]) ==> exists|i: int|
                0 <= i < positions_in(s, h, n).len() && positions_in(s, h, n)[i] == q,
    decreases n,
{
    if n > 0 {
        let p = positions_in(s, h, (n - 1) as nat);
        lemma_positions_in(s, h, (n - 1) as nat);
        let c = positions_in(s, h, n);
        assert forall|q: int| 0 <= q < n && h.contains(#[trigger] s[q]) implies exists|i: int|
            0 <= i < c.len() && c[i] == q by {
            if q == n - 1 {
                assert(c[c.len() - 1] == q);
            } else {
                let i = choose|i: int| 0 <= i < p.len() && p[i] == q;
                assert(c[i] == q);
            }
        }
    }
}

/// Two lists of distinct cards holding the same cards hold them equally often.
proof fn lemma_same_cards_multiset(x: Seq<Card>, y: Seq<Card>)
    requires
        x.no_duplicates(),
        y.no_duplicates(),
        forall|c: Card| x.contains(c) == y.contains(c),
    ensures
        x.to_multiset() == y.to_multiset(),
{
    broadcast use vstd::seq_lib::group_to_multiset_ensures;
    broadcast use vstd::multiset::group_multiset_axioms;

    x.lemma_multiset_has_no_duplicates();
    y.lemma_multiset_has_no_duplicates();
    assert forall|c: Card| x.to_multiset().count(c) == y.to_multiset().count(c) by {
        if x.contains(c) {
            assert(x.to_multiset().contains(c));
            assert(y.to_multiset().contains(c));
        }
    }
    assert(x.to_multiset() =~= y.to_multiset());
}

/// The selector's category is at least that of every five distinct cards out
/// of the seven it was given, listed in ascending order of rank.
pub proof fn lemma_best_hand_beats_every_hand(
    p: Seq<Card>,
    q: Seq<Card>,
    e: EvaluatedHand,
    h: Seq<Card>,
)
    requires
        best_hand_outcome(p, q, Ok(e)),
        h.len() == HAND_SIZE,
        h.no_duplicates(),
        sorted_by_rank(h),
        forall|i: int| 0 <= i < h.len() ==> (p + q).contains(#[trigger] h[i]),
    ensures
        category(h).value() <= e.category.value(),
{
    broadcast use vstd::seq_lib::group_to_multiset_ensures;

    let all = p + q;
    let s = choose|s: Seq<Card>|
        s.to_multiset() == all.to_multiset() && sorted_by_rank(s) && is_best_hand(s, e);
    vstd::seq_lib::to_multiset_len(s);
    vstd::seq_lib::to_multiset_len(all);
    all.lemma_multiset_has_no_duplicates();
    s.lemma_multiset_has_no_duplicates_conv();
    let c = positions_in(s, h, s.len());
    lemma_positions_in(s, h, s.len());
    let k = pick(s, c);
    assert forall|cd: Card| k.contains(cd) == h.contains(cd) by {
        if k.contains(cd) {
            let i = choose|i: int| 0 <= i < k.len() && k[i] == cd;
            assert(c[i] < s.len() && h.contains(s[c[i] as int]));
        }
        if h.contains(cd) {
            let i = choose|i: int| 0 <= i < h.len() && h[i] == cd;
            assert(all.contains(h[i]));
            assert(all.to_multiset().count(cd) > 0);
            assert(s.contains(cd));
            let t = choose|t: int| 0 <= t < s.len() && s[t] == cd;
            assert(h.contains(s[t]));
            let j = choose|j: int| 0 <= j < c.len() && c[j] == t;
            assert(k[j] == cd);
        }
    }
    assert(k.no_duplicates()) by {
        assert forall|i: int, j: int| 0 <= i < k.len() && 0 <= j < k.len() && i != j implies k[i]
            != k[j] by {
            if i < j {
                assert(c[i] < c[j]);
            } else {
                assert(c[j] < c[i]);
            }
            assert(c[i] < s.len() && c[j] < s.len());
        }
    }
    lemma_same_cards_multiset(k, h);
    vstd::seq_lib::to_multiset_len(k);
    vstd::seq_lib::to_multiset_len(h);
    assert(is_combination(c, s.len(), HAND_SIZE as nat));
    lemma_pick_sorted(s, c);
    crate::classify::lemma_category_same_cards(k, h);
    assert(category(pick(s, c)).value() <= e.category.value());
}

/// A player's hand: the category and the five cards of its last evaluation.
#[derive(Debug)]
pub struct Hand {
    pub hand_type: Option<HandType>,
    pub combo: Option<Vec<Card>>,
}

impl Hand {
    /// A hand that has not been evaluated yet.
    pub fn new() -> (r: Hand)
        ensures
            r.hand_type.is_none(),
            r.combo.is_none(),
    {
        Hand { hand_type: None, combo: None }
    }

    /// Evaluates the player's two cards with the five shared cards, records
    /// the best category and its five cards, and returns the category. On an
    /// error the hand is left as it was.
    pub fn evaluate(&mut self, player_cards: &Vec<Card>, community_cards: &Vec<Card>) -> (r:
        Result<HandType, PokerError>)
        ensures
            match r {
                Ok(t) => {
                    &&& final(self).hand_type == Some(t)
                    &&& match final(self).combo {
                        Some(v) => best_hand_outcome(
                            player_cards@,
                            community_cards@,
                            Ok((EvaluatedHand { category: t, cards: v })),
                        ),
                        None => false,
                    }
                },
                Err(e) => {
                    &&& best_hand_outcome(player_cards@, community_cards@, Err(e))
                    &&& *final(self) == *old(self)
                },
            },
    {
        match evaluate_best_hand(player_cards, community_cards) {
            Ok(best) => {
                let t = best.category;
                self.hand_type = Some(t);
                self.combo = Some(best.cards);
                Ok(t)
            },
            Err(e) => Err(e),
        }
    }
}

} // verus!
