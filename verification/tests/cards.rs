use blackjack::engine::cards::{Card, Deck, Rank, Suit};

fn all_standard_cards() -> Vec<Card> {
    let mut v = Vec::new();
    for suit in [Suit::Hearts, Suit::Diamonds, Suit::Clubs, Suit::Spades] {
        for rank in [Rank::Ace, Rank::Jack, Rank::Queen, Rank::King] {
            v.push(Card { suit, rank });
        }
        for n in 2..=10u8 {
            v.push(Card { suit, rank: Rank::Number(n) });
        }
    }
    v
}

fn count(cards: &[Card], c: Card) -> usize {
    cards.iter().filter(|&&x| x == c).count()
}

#[test]
fn new_deck_is_laid_out_suit_by_suit() {
    let d = Deck::new();
    assert_eq!(d.cards.len(), 52);
    assert_eq!(d.cards[0], Card { suit: Suit::Hearts, rank: Rank::Ace });
    assert_eq!(d.cards[1], Card { suit: Suit::Hearts, rank: Rank::Jack });
    assert_eq!(d.cards[2], Card { suit: Suit::Hearts, rank: Rank::Queen });
    assert_eq!(d.cards[3], Card { suit: Suit::Hearts, rank: Rank::King });
    assert_eq!(d.cards[4], Card { suit: Suit::Hearts, rank: Rank::Number(2) });
    assert_eq!(d.cards[12], Card { suit: Suit::Hearts, rank: Rank::Number(10) });
    assert_eq!(d.cards[13], Card { suit: Suit::Diamonds, rank: Rank::Ace });
    assert_eq!(d.cards[26], Card { suit: Suit::Clubs, rank: Rank::Ace });
    assert_eq!(d.cards[51], Card { suit: Suit::Spades, rank: Rank::Number(10) });
}

#[test]
fn new_deck_holds_every_card_once() {
    let d = Deck::new();
    for c in all_standard_cards() {
        assert_eq!(count(&d.cards, c), 1);
    }
    assert_eq!(count(&d.cards, Card { suit: Suit::Hearts, rank: Rank::Number(1) }), 0);
    assert_eq!(count(&d.cards, Card { suit: Suit::Hearts, rank: Rank::Number(11) }), 0);
}

#[test]
fn draw_takes_the_top_card() {
    let mut d = Deck::new();
    assert_eq!(d.draw(), Some(Card { suit: Suit::Spades, rank: Rank::Number(10) }));
    assert_eq!(d.draw(), Some(Card { suit: Suit::Spades, rank: Rank::Number(9) }));
    assert_eq!(d.cards.len(), 50);
    assert_eq!(d.cards[49], Card { suit: Suit::Spades, rank: Rank::Number(8) });
}

#[test]
fn draw_from_an_empty_deck_gives_none() {
    let mut d = Deck::new();
    for _ in 0..52 {
        assert!(d.draw().is_some());
    }
    assert_eq!(d.draw(), None);
    assert_eq!(d.cards.len(), 0);
    let mut e = Deck { cards: Vec::new() };
    assert_eq!(e.draw(), None);
}

#[test]
fn shuffle_keeps_the_same_cards() {
    let mut d = Deck::new();
    d.shuffle();
    assert_eq!(d.cards.len(), 52);
    for c in all_standard_cards() {
        assert_eq!(count(&d.cards, c), 1);
    }
}

#[test]
fn shuffle_changes_the_order() {
    let fresh = Deck::new();
    let mut changed = false;
    for _ in 0..5 {
        let mut d = Deck::new();
        d.shuffle();
        if d.cards != fresh.cards {
            changed = true;
        }
    }
    assert!(changed);
}

#[test]
fn shuffle_keeps_a_small_pile() {
    let a = Card { suit: Suit::Clubs, rank: Rank::Ace };
    let b = Card { suit: Suit::Hearts, rank: Rank::Number(7) };
    let mut d = Deck { cards: vec![a, b, a] };
    d.shuffle();
    assert_eq!(d.cards.len(), 3);
    assert_eq!(count(&d.cards, a), 2);
    assert_eq!(count(&d.cards, b), 1);
    let mut e = Deck { cards: Vec::new() };
    e.shuffle();
    assert!(e.cards.is_empty());
}

#[test]
fn repeated_draws_come_top_down_once_each() {
    let a = Card { suit: Suit::Clubs, rank: Rank::Ace };
    let b = Card { suit: Suit::Hearts, rank: Rank::Number(2) };
    let c = Card { suit: Suit::Spades, rank: Rank::King };
    let mut d = Deck { cards: vec![a, b, c] };
    assert_eq!(d.draw(), Some(c));
    assert_eq!(d.draw(), Some(b));
    assert_eq!(d.draw(), Some(a));
    assert_eq!(d.draw(), None);
    assert_eq!(d.draw(), None);
    assert!(d.cards.is_empty());
}
