//! A blackjack hand and how it is scored.

use crate::engine::cards::{
    is_standard_card, lemma_standard_deck_complete, standard_deck, Card, Rank, Suit,
};
use vstd::multiset::Multiset;
use vstd::prelude::*;

verus! {

/// What a player may do on their turn.
#[derive(Debug, Copy, Clone, PartialEq, Eq, Structural)]
pub enum Action {
    Hit,
    Stand,
}

/// The cards of one player (or of the dealer), the bet placed on them,
/// and whether the hand is still in play.
pub struct Hand {
    pub cards: Vec<Card>,
    pub bet: u32,
    pub active: bool,
}

/// What a card counts for before any ace is softened:
/// its number for a pip card, ten for a face card, eleven for an ace.
pub open spec fn card_points(c: Card) -> int {
    match c.rank {
        Rank::Number(n) => n as int,
        Rank::Jack | Rank::Queen | Rank::King => 10,
        Rank::Ace => 11,
    }
}

/// The sum of the points of the cards, every ace counted as eleven.
pub open spec fn raw_total(cards: Seq<Card>) -> int
    decreases cards.len(),
{
    if cards.len() == 0 {
        0
    } else {
        raw_total(cards.drop_last()) + card_points(cards.last())
    }
}

/// The number of aces among the cards.
pub open spec fn ace_count(cards: Seq<Card>) -> int
    decreases cards.len(),
{
    if cards.len() == 0 {
        0
    } else {
        ace_count(cards.drop_last()) + (if cards.last().rank == Rank::Ace { 1int } else { 0int })
    }
}

/// The sum of the points with every ace counted as one.
pub open spec fn hard_total(cards: Seq<Card>) -> int {
    raw_total(cards) - 10 * ace_count(cards)
}

/// The value of a total `raw` (aces as eleven) holding `aces` aces:
/// as many aces as it takes to come down to 21 count one instead of eleven,
/// and when even all of them do not suffice, every ace counts one.
pub open spec fn blackjack_total(raw: int, aces: int) -> int {
    if raw <= 21 {
        raw
    } else {
        // The fewest aces that bring the total to 21 or below: ceil((raw - 21) / 10).
        let needed = (raw - 12) / 10;
        if needed <= aces {
            raw - 10 * needed
        } else {
            raw - 10 * aces
        }
    }
}

/// The blackjack score of a sequence of cards.
pub open spec fn hand_score(cards: Seq<Card>) -> int {
    blackjack_total(raw_total(cards), ace_count(cards))
}

proof fn lemma_points_bounds(c: Card)
    ensures
        0 <= card_points(c) <= 255,
        c.rank == Rank::Ace ==> card_points(c) == 11,
{
}

/// Points never go below the aces' share: each ace brings eleven.
pub proof fn lemma_totals_bounds(cards: Seq<Card>)
    ensures
        0 <= ace_count(cards) <= cards.len(),
        11 * ace_count(cards) <= raw_total(cards),
    decreases cards.len(),
{
    if cards.len() > 0 {
        lemma_totals_bounds(cards.drop_last());
        lemma_points_bounds(cards.last());
    }
}

/// Totals of a prefix never exceed those of the whole.
proof fn lemma_prefix_totals(cards: Seq<Card>, i: int)
    requires
        0 <= i <= cards.len(),
    ensures
        raw_total(cards.take(i)) <= raw_total(cards),
    decreases cards.len() - i,
{
    if i < cards.len() {
        lemma_prefix_totals(cards, i + 1);
        assert(cards.take(i + 1).drop_last() =~= cards.take(i));
        lemma_points_bounds(cards[i]);
    } else {
        assert(cards.take(i) =~= cards);
    }
}

/// Each step of the softening loop leaves the final value unchanged.
proof fn lemma_soften_step(total: int, aces: int)
    requires
        total > 21,
        aces > 0,
    ensures
        blackjack_total(total - 10, aces - 1) == blackjack_total(total, aces),
{
}

/// The score is the best total a player can claim: the largest value at most
/// 21 among those obtained by counting some of the aces as one and the rest
/// as eleven; when none is at most 21, every ace counts one. So a hand is
/// bust exactly when it is over 21 with every ace counted as one.
pub proof fn lemma_score_is_best_total(cards: Seq<Card>)
    ensures
        exists|k: int|
            0 <= k <= ace_count(cards) && #[trigger] (raw_total(cards) - 10 * k) == hand_score(
                cards,
            ),
        forall|k: int|
            0 <= k <= ace_count(cards) && #[trigger] (raw_total(cards) - 10 * k) <= 21 ==> raw_total(
                cards,
            ) - 10 * k <= hand_score(cards),
        hand_score(cards) <= 21 || hand_score(cards) == hard_total(cards),
        hand_score(cards) > 21 <==> hard_total(cards) > 21,
        hard_total(cards) <= hand_score(cards) <= raw_total(cards),
{
    lemma_totals_bounds(cards);
    let raw = raw_total(cards);
    let a = ace_count(cards);
    let k: int = if raw <= 21 {
        0
    } else if (raw - 12) / 10 <= a {
        (raw - 12) / 10
    } else {
        a
    };
    assert(raw - 10 * k == hand_score(cards));
}

proof fn lemma_totals_remove(s: Seq<Card>, j: int)
    requires
        0 <= j < s.len(),
    ensures
        raw_total(s) == raw_total(s.remove(j)) + card_points(s[j]),
        ace_count(s) == ace_count(s.remove(j)) + (if s[j].rank == Rank::Ace { 1int } else { 0int }),
    decreases s.len(),
{
    if j < s.len() - 1 {
        assert(s.remove(j).drop_last() =~= s.drop_last().remove(j));
        assert(s.remove(j).last() == s.last());
        lemma_totals_remove(s.drop_last(), j);
    } else {
        assert(s.remove(j) =~= s.drop_last());
    }
}

/// The score depends only on which cards are in the hand, not on the order
/// in which they were dealt.
pub proof fn lemma_score_ignores_order(a: Seq<Card>, b: Seq<Card>)
    requires
        a.to_multiset() == b.to_multiset(),
    ensures
        raw_total(a) == raw_total(b),
        ace_count(a) == ace_count(b),
        hand_score(a) == hand_score(b),
    decreases a.len(),
{
    broadcast use vstd::seq_lib::group_to_multiset_ensures;

    assert(a.len() == a.to_multiset().len());
    assert(b.len() == b.to_multiset().len());
    if a.len() > 0 {
        let x = a.last();
        assert(a.drop_last().push(x) =~= a);
        assert(a.to_multiset().count(x) > 0);
        assert(b.contains(x));
        let j = choose|j: int| 0 <= j < b.len() && b[j] == x;
        assert(b.remove(j).to_multiset() =~= a.drop_last().to_multiset());
        lemma_score_ignores_order(a.drop_last(), b.remove(j));
        lemma_totals_remove(b, j);
    }
}

/// The card that is the ace of `suit`.
pub open spec fn ace_of(suit: Suit) -> Card {
    Card { suit, rank: Rank::Ace }
}

proof fn lemma_ace_count_by_suit(s: Seq<Card>)
    ensures
        ace_count(s) == s.to_multiset().count(ace_of(Suit::Hearts)) + s.to_multiset().count(
            ace_of(Suit::Diamonds),
        ) + s.to_multiset().count(ace_of(Suit::Clubs)) + s.to_multiset().count(
            ace_of(Suit::Spades),
        ),
    decreases s.len(),
{
    broadcast use vstd::seq_lib::group_to_multiset_ensures;
    broadcast use vstd::multiset::group_multiset_axioms;

    if s.len() > 0 {
        lemma_ace_count_by_suit(s.drop_last());
        assert(s.drop_last().push(s.last()) =~= s);
    } else {
        assert(s.to_multiset().len() == 0);
        assert(s.to_multiset() =~= Multiset::empty());
    }
}

/// Cards that, together with some others, make up exactly one fresh deck
/// are standard cards, each worth at most eleven, with at most four aces.
pub proof fn lemma_cards_from_one_deck(s: Seq<Card>, rest: Multiset<Card>)
    requires
        s.to_multiset().add(rest) == standard_deck().to_multiset(),
    ensures
        forall|i: int|
            0 <= i < s.len() ==> is_standard_card(#[trigger] s[i]) && card_points(s[i]) <= 11,
        ace_count(s) <= 4,
{
    broadcast use vstd::seq_lib::group_to_multiset_ensures;
    broadcast use vstd::multiset::group_multiset_axioms;

    lemma_standard_deck_complete();
    let std = standard_deck();
    std.lemma_multiset_has_no_duplicates();
    assert forall|x: Card| s.to_multiset().count(x) <= 1 by {
        assert(s.to_multiset().count(x) <= std.to_multiset().count(x));
        if std.to_multiset().count(x) > 0 {
            assert(std.to_multiset().contains(x));
        }
    }
    assert forall|i: int| 0 <= i < s.len() implies is_standard_card(#[trigger] s[i]) && card_points(
        s[i],
    ) <= 11 by {
        assert(s.contains(s[i]));
        assert(s.to_multiset().count(s[i]) > 0);
        assert(std.to_multiset().count(s[i]) > 0);
        assert(std.contains(s[i]));
    }
    lemma_ace_count_by_suit(s);
    assert(s.to_multiset().count(ace_of(Suit::Hearts)) <= 1);
    assert(s.to_multiset().count(ace_of(Suit::Diamonds)) <= 1);
    assert(s.to_multiset().count(ace_of(Suit::Clubs)) <= 1);
    assert(s.to_multiset().count(ace_of(Suit::Spades)) <= 1);
}

/// What each card counts for before any ace is softened: a pip card its
/// number, a jack, queen or king ten, an ace eleven; the suit plays no part.
pub proof fn lemma_card_values(suit: Suit, n: u8)
    ensures
        card_points(Card { suit, rank: Rank::Number(n) }) == n,
        card_points(Card { suit, rank: Rank::Jack }) == 10,
        card_points(Card { suit, rank: Rank::Queen }) == 10,
        card_points(Card { suit, rank: Rank::King }) == 10,
        card_points(Card { suit, rank: Rank::Ace }) == 11,
{
}

/// Two pip cards score the sum of their numbers; an ace beside a pip card
/// counts eleven unless that would go over 21, and one otherwise; an ace
/// beside a face card makes 21.
pub proof fn lemma_two_card_scores(s1: Suit, s2: Suit, a: u8, b: u8)
    ensures
        hand_score(
            seq![Card { suit: s1, rank: Rank::Number(a) }, Card { suit: s2, rank: Rank::Number(b) }],
        ) == a + b,
        hand_score(seq![Card { suit: s1, rank: Rank::Ace }, Card { suit: s2, rank: Rank::Number(b) }])
            == if b <= 10 {
            11 + b
        } else {
            1 + b
        },
        hand_score(seq![Card { suit: s1, rank: Rank::Ace }, Card { suit: s2, rank: Rank::King }])
            == 21,
{
    reveal_with_fuel(raw_total, 3);
    reveal_with_fuel(ace_count, 3);
    let pa = Card { suit: s1, rank: Rank::Number(a) };
    let pb = Card { suit: s2, rank: Rank::Number(b) };
    let ace = Card { suit: s1, rank: Rank::Ace };
    let king = Card { suit: s2, rank: Rank::King };
    assert(seq![pa, pb].drop_last() =~= seq![pa]);
    assert(seq![ace, pb].drop_last() =~= seq![ace]);
    assert(seq![ace, king].drop_last() =~= seq![ace]);
    assert(seq![pa].drop_last() =~= Seq::<Card>::empty());
    assert(seq![ace].drop_last() =~= Seq::<Card>::empty());
}

/// Adding a pip card to a hand without aces raises its score by the card's
/// number.
pub proof fn lemma_add_pip_card(cards: Seq<Card>, suit: Suit, n: u8)
    requires
        ace_count(cards) == 0,
    ensures
        hand_score(cards.push(Card { suit, rank: Rank::Number(n) })) == hand_score(cards) + n,
{
    let c = Card { suit, rank: Rank::Number(n) };
    assert(cards.push(c).drop_last() =~= cards);
    lemma_totals_bounds(cards);
}

/// The ranks of a sequence of cards, in order.
pub open spec fn ranks(cards: Seq<Card>) -> Seq<Rank> {
    cards.map_values(|c: Card| c.rank)
}

/// The score depends only on which ranks the hand holds: neither the order
/// of the cards nor their suits matter.
pub proof fn lemma_score_depends_on_ranks(a: Seq<Card>, b: Seq<Card>)
    requires
        ranks(a).to_multiset() == ranks(b).to_multiset(),
    ensures
        raw_total(a) == raw_total(b),
        ace_count(a) == ace_count(b),
        hand_score(a) == hand_score(b),
    decreases a.len(),
{
    broadcast use vstd::seq_lib::group_to_multiset_ensures;
    broadcast use vstd::multiset::group_multiset_axioms;

    assert(ranks(a).len() == ranks(a).to_multiset().len());
    assert(ranks(b).len() == ranks(b).to_multiset().len());
    if a.len() > 0 {
        let x = a.last().rank;
        let ra = ranks(a);
        let rb = ranks(b);
        assert(ranks(a.drop_last()).push(x) =~= ra);
        assert(ra.to_multiset().count(x) > 0);
        assert(rb.contains(x));
        let j = choose|j: int| 0 <= j < rb.len() && rb[j] == x;
        assert(b[j].rank == x);
        assert(ranks(b.remove(j)) =~= rb.remove(j));
        assert(rb.remove(j).to_multiset() == rb.to_multiset().remove(x));
        assert(ranks(a.drop_last()).to_multiset() =~= ra.to_multiset().remove(x));
        lemma_score_depends_on_ranks(a.drop_last(), b.remove(j));
        lemma_totals_remove(b, j);
    } else {
        assert(b =~= Seq::<Card>::empty());
        assert(a =~= Seq::<Card>::empty());
    }
}

impl Hand {
    /// An empty hand carrying the given bet.
    pub fn new(bet: u32) -> (h: Hand)
        ensures
            h.cards@.len() == 0,
            h.bet == bet,
            h.active,
    {
        Hand { cards: Vec::new(), bet, active: true }
    }

    /// Puts a card at the end of the hand.
    pub fn add_card(&mut self, card: Card)
        ensures
            final(self).cards@ == old(self).cards@.push(card),
            final(self).bet == old(self).bet,
            final(self).active == old(self).active,
    {
        self.cards.push(card);
    }

    /// The blackjack score of the hand (see `blackjack_total`).
    /// The running sum is kept in a `u8`, so the total with aces as eleven
    /// must fit in one.
    pub fn score(&self) -> (s: u8)
        requires
            raw_total(self.cards@) <= 255,
        ensures
            s == hand_score(self.cards@),
    {
        let mut total: u8 = 0;
        let mut aces: u8 = 0;
        let n = self.cards.len();
        let mut i: usize = 0;
        while i < n
            invariant
                n == self.cards@.len(),
                i <= n,
                raw_total(self.cards@) <= 255,
                total == raw_total(self.cards@.take(i as int)),
                aces == ace_count(self.cards@.take(i as int)),
            decreases n - i,
        {
            let card = self.cards[i];
            proof {
                assert(self.cards@.take(i + 1).drop_last() =~= self.cards@.take(i as int));
                lemma_prefix_totals(self.cards@, i + 1);
                lemma_totals_bounds(self.cards@.take(i + 1));
                lemma_totals_bounds(self.cards@);
            }
            match card.rank {
                Rank::Number(n) => total += n,
                Rank::Jack | Rank::Queen | Rank::King => total += 10,
                Rank::Ace => {
                    total += 11;
                    aces += 1;
                },
            }
            i = i + 1;
        }
        assert(self.cards@.take(n as int) =~= self.cards@);
        while total > 21 && aces > 0
            invariant
                blackjack_total(total as int, aces as int) == hand_score(self.cards@),
            decreases aces,
        {
            proof {
                lemma_soften_step(total as int, aces as int);
            }
            total -= 10;
            aces -= 1;
        }
        total
    }

    /// Whether the hand may be split: exactly two cards of the same rank.
    pub fn can_split(&self) -> (b: bool)
        ensures
            b == (self.cards@.len() == 2 && self.cards@[0].rank == self.cards@[1].rank),
    {
        self.cards.len() == 2 && self.cards[0].rank == self.cards[1].rank
    }
}

} // verus!
