//! Cards, suits, ranks and the deck they are dealt from.

use rand::seq::SliceRandom;
use vstd::prelude::*;

verus! {

/// The four suits of a French deck.
#[derive(Debug, Copy, Clone, PartialEq, Eq, Structural)]
pub enum Suit {
    Hearts,
    Diamonds,
    Clubs,
    Spades,
}

/// The rank of a card; pip cards carry their number.
#[derive(Debug, Copy, Clone, PartialEq, Eq, Structural)]
pub enum Rank {
    Number(u8),
    Jack,
    Queen,
    King,
    Ace,
}

/// A playing card.
#[derive(Debug, Copy, Clone, PartialEq, Eq, Structural)]
pub struct Card {
    pub suit: Suit,
    pub rank: Rank,
}

/// A pile of cards; the top of the pile is the end of `cards`.
pub struct Deck {
    pub cards: Vec<Card>,
}

/// The suit of the `i`-th block of thirteen cards in a fresh deck.
pub open spec fn suit_at(i: int) -> Suit {
    if i == 0 {
        Suit::Hearts
    } else if i == 1 {
        Suit::Diamonds
    } else if i == 2 {
        Suit::Clubs
    } else {
        Suit::Spades
    }
}

/// The rank at position `j` within a suit of a fresh deck:
/// ace, jack, queen, king, then the numbers two to ten.
pub open spec fn rank_at(j: int) -> Rank {
    if j == 0 {
        Rank::Ace
    } else if j == 1 {
        Rank::Jack
    } else if j == 2 {
        Rank::Queen
    } else if j == 3 {
        Rank::King
    } else {
        Rank::Number((j - 2) as u8)
    }
}

/// The fifty-two cards of a fresh deck, in the order they are laid down:
/// suit by suit, and within a suit in the order of `rank_at`.
pub open spec fn standard_deck() -> Seq<Card> {
    Seq::new(52, |k: int| Card { suit: suit_at(k / 13), rank: rank_at(k % 13) })
}

/// A card that belongs to a standard deck: pip cards run from two to ten.
pub open spec fn is_standard_card(c: Card) -> bool {
    match c.rank {
        Rank::Number(n) => 2 <= n <= 10,
        _ => true,
    }
}

/// Where a standard card stands in a fresh deck.
pub open spec fn standard_index(c: Card) -> int {
    let s: int = match c.suit {
        Suit::Hearts => 0,
        Suit::Diamonds => 1,
        Suit::Clubs => 2,
        Suit::Spades => 3,
    };
    let r: int = match c.rank {
        Rank::Ace => 0,
        Rank::Jack => 1,
        Rank::Queen => 2,
        Rank::King => 3,
        Rank::Number(n) => n + 2,
    };
    13 * s + r
}

proof fn lemma_standard_deck_at(k: int)
    requires
        0 <= k < 52,
    ensures
        is_standard_card(standard_deck()[k]),
        standard_index(standard_deck()[k]) == k,
{
    let q = k / 13;
    let r = k % 13;
    assert(k == 13 * q + r && 0 <= r < 13 && 0 <= q < 4);
}

/// A fresh deck holds every standard card exactly once and nothing else.
pub proof fn lemma_standard_deck_complete()
    ensures
        standard_deck().len() == 52,
        standard_deck().no_duplicates(),
        forall|c: Card| standard_deck().contains(c) <==> is_standard_card(c),
{
    let d = standard_deck();
    assert forall|i: int, j: int| 0 <= i < d.len() && 0 <= j < d.len() && i != j implies d[i]
        != d[j] by {
        lemma_standard_deck_at(i);
        lemma_standard_deck_at(j);
    }
    assert forall|c: Card| d.contains(c) <==> is_standard_card(c) by {
        if d.contains(c) {
            let k = choose|k: int| 0 <= k < d.len() && d[k] == c;
            lemma_standard_deck_at(k);
        }
        if is_standard_card(c) {
            let k = standard_index(c);
            assert(0 <= k < 52);
            let q = k / 13;
            let r = k % 13;
            assert(k == 13 * q + r && 0 <= r < 13 && 0 <= q < 4);
            assert(d[k] == c);
        }
    }
}

/// Any arrangement of a fresh deck (such as a shuffled one) still holds every
/// standard card exactly once and nothing else.
pub proof fn lemma_arrangement_of_standard_deck(s: Seq<Card>)
    requires
        s.to_multiset() == standard_deck().to_multiset(),
    ensures
        s.len() == 52,
        s.no_duplicates(),
        forall|c: Card| s.contains(c) <==> is_standard_card(c),
{
    broadcast use vstd::seq_lib::group_to_multiset_ensures;

    lemma_standard_deck_complete();
    assert(s.len() == s.to_multiset().len());
    assert(standard_deck().len() == standard_deck().to_multiset().len());
    standard_deck().lemma_multiset_has_no_duplicates();
    s.lemma_multiset_has_no_duplicates_conv();
    assert forall|c: Card| s.contains(c) <==> is_standard_card(c) by {
        assert(s.contains(c) <==> s.to_multiset().count(c) > 0);
        assert(standard_deck().contains(c) <==> standard_deck().to_multiset().count(c) > 0);
    }
}

fn suit_number(i: usize) -> (s: Suit)
    requires
        i < 4,
    ensures
        s == suit_at(i as int),
{
    if i == 0 {
        Suit::Hearts
    } else if i == 1 {
        Suit::Diamonds
    } else if i == 2 {
        Suit::Clubs
    } else {
        Suit::Spades
    }
}

fn rank_number(j: usize) -> (r: Rank)
    requires
        j < 13,
    ensures
        r == rank_at(j as int),
{
    if j == 0 {
        Rank::Ace
    } else if j == 1 {
        Rank::Jack
    } else if j == 2 {
        Rank::Queen
    } else if j == 3 {
        Rank::King
    } else {
        Rank::Number((j - 2) as u8)
    }
}

/// Hands the cards to the random shuffle of `rand`.
/// `rand::seq::SliceRandom::shuffle` (rand 0.8) swaps elements of the slice in
/// place (Fisher-Yates), with `rand::thread_rng()` as the source of randomness:
/// the cards after the call are a rearrangement of the cards before it.
/// Which rearrangement comes out is left unsaid: it rests on chance.
#[verifier::external_body]
fn shuffle_in_place(cards: &mut Vec<Card>)
    ensures
        final(cards)@.to_multiset() == old(cards)@.to_multiset(),
        final(cards)@.len() == old(cards)@.len(),
{
    let mut rng = rand::thread_rng();
    cards.shuffle(&mut rng);
}

/// A copy of a sequence of cards.
pub(crate) fn copy_cards(cards: &Vec<Card>) -> (r: Vec<Card>)
    ensures
        r@ == cards@,
{
    let r = cards.clone();
    assert(r@ =~= cards@);
    r
}

/// The pile left after `k` draws from `cards`, each taking the top (last)
/// card; a draw from an empty pile leaves it empty.
pub open spec fn after_draws(cards: Seq<Card>, k: nat) -> Seq<Card>
    decreases k,
{
    if k == 0 || cards.len() == 0 {
        cards
    } else {
        after_draws(cards.drop_last(), (k - 1) as nat)
    }
}

/// What the `k`-th draw (counting from one) from `cards` gives.
pub open spec fn kth_draw(cards: Seq<Card>, k: nat) -> Option<Card> {
    let pile = after_draws(cards, (k - 1) as nat);
    if pile.len() == 0 {
        None
    } else {
        Some(pile.last())
    }
}

/// Drawing again from what earlier draws left is drawing once more.
pub proof fn lemma_draw_again(cards: Seq<Card>, k: nat)
    ensures
        after_draws(after_draws(cards, k), 1) == after_draws(cards, k + 1),
        kth_draw(after_draws(cards, k), 1) == kth_draw(cards, k + 1),
    decreases k,
{
    if k > 0 && cards.len() > 0 {
        lemma_draw_again(cards.drop_last(), (k - 1) as nat);
    }
}

/// Repeated draws give the cards from the top down, each exactly once:
/// the `k`-th draw gives the `k`-th card from the top while there is one,
/// and `None` afterwards, when the pile is empty.
pub proof fn lemma_draws_in_order(cards: Seq<Card>, k: nat)
    ensures
        k <= cards.len() ==> after_draws(cards, k) == cards.take(cards.len() - k),
        k >= cards.len() ==> after_draws(cards, k).len() == 0,
        1 <= k <= cards.len() ==> kth_draw(cards, k) == Some(cards[cards.len() - k]),
        k > cards.len() ==> kth_draw(cards, k) is None,
    decreases k,
{
    if k > 0 && cards.len() > 0 {
        lemma_draws_in_order(cards.drop_last(), (k - 1) as nat);
        if k <= cards.len() {
            assert(cards.drop_last().take(cards.len() - k) =~= cards.take(cards.len() - k));
        }
    } else if k == 0 {
        assert(cards.take(cards.len() as int) =~= cards);
    }
    if k >= 1 {
        lemma_draws_in_order(cards, (k - 1) as nat);
    }
}

impl Deck {
    /// A fresh, unshuffled deck of fifty-two cards.
    pub fn new() -> (d: Deck)
        ensures
            d.cards@ == standard_deck(),
    {
        let mut cards: Vec<Card> = Vec::new();
        let mut i: usize = 0;
        while i < 4
            invariant
                i <= 4,
                cards@.len() == 13 * i,
                forall|k: int| 0 <= k < cards@.len() ==> cards@[k] == standard_deck()[k],
            decreases 4 - i,
        {
            let suit = suit_number(i);
            let mut j: usize = 0;
            while j < 13
                invariant
                    i < 4,
                    j <= 13,
                    suit == suit_at(i as int),
                    cards@.len() == 13 * i + j,
                    forall|k: int| 0 <= k < cards@.len() ==> cards@[k] == standard_deck()[k],
                decreases 13 - j,
            {
                let rank = rank_number(j);
                proof {
                    let k = 13 * i + j;
                    assert(k / 13 == i && k % 13 == j);
                }
                cards.push(Card { suit, rank });
                j = j + 1;
            }
            i = i + 1;
        }
        assert(cards@ =~= standard_deck());
        Deck { cards }
    }

    /// Shuffles the deck: the same cards, in an order chosen at random.
    pub fn shuffle(&mut self)
        ensures
            final(self).cards@.to_multiset() == old(self).cards@.to_multiset(),
            final(self).cards@.len() == old(self).cards@.len(),
    {
        shuffle_in_place(&mut self.cards);
    }

    /// Takes the top card, or gives `None` when the deck is empty.
    pub fn draw(&mut self) -> (c: Option<Card>)
        ensures
            old(self).cards@.len() == 0 ==> c is None && final(self).cards@ == old(self).cards@,
            old(self).cards@.len() > 0 ==> c == Some(old(self).cards@.last())
                && final(self).cards@ == old(self).cards@.drop_last(),
            final(self).cards@ == after_draws(old(self).cards@, 1),
            c == kth_draw(old(self).cards@, 1),
    {
        proof {
            reveal_with_fuel(after_draws, 2);
        }
        self.cards.pop()
    }
}

} // verus!
