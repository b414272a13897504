use blackjack::engine::cards::{Card, Rank, Suit};
use blackjack::network::protocol::GameMessage;
use blackjack::table::{Status, Table, BLACKJACK, DEALER_STANDS_AT, REFILL_AMOUNT, STARTING_FUNDS};

fn all_cards_on_table(t: &Table) -> Vec<Card> {
    let mut v = t.deck().cards.clone();
    v.extend(t.player_hands()[0].cards.iter().copied());
    v.extend(t.dealer_hand().cards.iter().copied());
    v
}

fn assert_one_full_deck(t: &Table) {
    let cards = all_cards_on_table(t);
    assert_eq!(cards.len(), 52);
    for suit in [Suit::Hearts, Suit::Diamonds, Suit::Clubs, Suit::Spades] {
        let mut ranks = vec![Rank::Ace, Rank::Jack, Rank::Queen, Rank::King];
        for n in 2..=10u8 {
            ranks.push(Rank::Number(n));
        }
        for rank in ranks {
            let c = Card { suit, rank };
            assert_eq!(cards.iter().filter(|&&x| x == c).count(), 1);
        }
    }
}

fn payout(player: u8, dealer: u8, bet: u32) -> u32 {
    if player > 21 {
        0
    } else if dealer > 21 || player > dealer {
        2 * bet
    } else if player == dealer {
        bet
    } else {
        0
    }
}

#[test]
fn new_table_waits_for_bets() {
    let t = Table::new();
    assert_eq!(t.balance(), STARTING_FUNDS);
    assert_eq!(t.balance(), 5000);
    assert_eq!(t.current_bet(), 0);
    assert_eq!(t.status(), Status::PlaceBets);
    assert!(!t.in_game());
    assert_eq!(t.deck().cards.len(), 52);
    assert_eq!(t.player_hands().len(), 1);
    assert!(t.player_hands()[0].cards.is_empty());
    assert!(t.dealer_hand().cards.is_empty());
    assert_eq!(t.my_id().len(), 6);
    assert_one_full_deck(&t);
}

#[test]
fn place_bet_moves_chips_from_the_wallet() {
    let mut t = Table::new();
    t.place_bet(100);
    t.place_bet(50);
    assert_eq!(t.balance(), 4850);
    assert_eq!(t.current_bet(), 150);
}

#[test]
fn place_bet_beyond_the_wallet_changes_nothing() {
    let mut t = Table::new();
    t.place_bet(1000);
    t.place_bet(5000);
    assert_eq!(t.balance(), 4000);
    assert_eq!(t.current_bet(), 1000);
    assert_eq!(t.balance() + t.current_bet(), 5000);
}

#[test]
fn all_in_stakes_everything() {
    let mut t = Table::new();
    t.place_bet(10);
    t.all_in();
    assert_eq!(t.balance(), 0);
    assert_eq!(t.current_bet(), 5000);
}

#[test]
fn cancel_bet_returns_the_stake() {
    let mut t = Table::new();
    t.place_bet(100);
    t.place_bet(1000);
    t.cancel_bet();
    assert_eq!(t.balance(), 5000);
    assert_eq!(t.current_bet(), 0);
    assert_eq!(t.status(), Status::BetCancelled);
}

#[test]
fn refill_only_an_empty_wallet() {
    let mut t = Table::new();
    t.refill();
    assert_eq!(t.balance(), 5000);
    assert_eq!(t.status(), Status::PlaceBets);
    t.all_in();
    t.refill();
    assert_eq!(t.balance(), REFILL_AMOUNT);
    assert_eq!(t.balance(), 1000);
    assert_eq!(t.current_bet(), 5000);
    assert_eq!(t.status(), Status::Refilled);
}

#[test]
fn begin_connecting_sets_the_status() {
    let mut t = Table::new();
    t.begin_connecting();
    assert_eq!(t.status(), Status::Connecting);
}

#[test]
fn start_hand_deals_two_cards_and_one() {
    let mut t = Table::new();
    t.place_bet(100);
    let m = t.start_hand();
    assert!(t.in_game());
    assert_eq!(t.status(), Status::YourTurn);
    assert_eq!(t.player_hands().len(), 1);
    assert_eq!(t.player_hands()[0].cards.len(), 2);
    assert_eq!(t.player_hands()[0].bet, 100);
    assert_eq!(t.dealer_hand().cards.len(), 1);
    assert_eq!(t.deck().cards.len(), 49);
    assert_eq!(t.balance(), 4900);
    assert_eq!(t.current_bet(), 100);
    assert!(t.player_hands()[0].score() <= BLACKJACK);
    assert_one_full_deck(&t);
    match m {
        GameMessage::SyncHand { player_id, cards, score } => {
            assert_eq!(&player_id, t.my_id());
            assert_eq!(cards, t.player_hands()[0].cards);
            assert_eq!(score, t.player_hands()[0].score());
        }
        other => panic!("unexpected message {:?}", other),
    }
}

#[test]
fn hit_moves_the_top_card_to_the_player() {
    let mut t = Table::new();
    t.place_bet(10);
    t.start_hand();
    let top = *t.deck().cards.last().unwrap();
    let m = t.hit().unwrap();
    assert_eq!(t.player_hands()[0].cards.len(), 3);
    assert_eq!(t.player_hands()[0].cards[2], top);
    assert_eq!(t.deck().cards.len(), 48);
    assert_one_full_deck(&t);
    let score = t.player_hands()[0].score();
    match m {
        GameMessage::SyncHand { cards, score: s, .. } => {
            assert_eq!(cards, t.player_hands()[0].cards);
            assert_eq!(s, score);
        }
        other => panic!("unexpected message {:?}", other),
    }
    if score > 21 {
        assert!(!t.in_game());
        assert_eq!(t.status(), Status::Bust);
        assert_eq!(t.balance(), 4990);
        assert_eq!(t.current_bet(), 0);
    } else {
        assert!(t.in_game());
        assert_eq!(t.status(), Status::YourTurn);
    }
}

#[test]
fn hitting_until_bust_ends_the_round() {
    for _ in 0..20 {
        let mut t = Table::new();
        t.place_bet(10);
        t.start_hand();
        while t.in_game() {
            assert!(t.player_hands()[0].score() <= 21);
            t.hit().unwrap();
        }
        assert!(t.player_hands()[0].score() > 21);
        assert_eq!(t.status(), Status::Bust);
        assert_eq!(t.balance(), 4990);
        assert_one_full_deck(&t);
    }
}

#[test]
fn stand_lets_the_dealer_play_to_17() {
    for _ in 0..20 {
        let mut t = Table::new();
        t.place_bet(10);
        t.start_hand();
        t.stand();
        assert!(!t.in_game());
        assert!(t.dealer_hand().score() >= DEALER_STANDS_AT);
        let dealer = &t.dealer_hand().cards;
        let mut before = blackjack::engine::game::Hand::new(0);
        before.cards = dealer[..dealer.len() - 1].to_vec();
        assert!(dealer.len() == 1 || before.score() < 17);
        assert_one_full_deck(&t);
    }
}

#[test]
fn rounds_pay_by_the_rules() {
    let mut t = Table::new();
    for round in 0..200 {
        if t.balance() < 100 {
            if t.balance() == 0 {
                t.refill();
            }
        }
        let bet = if t.balance() >= 100 { 100 } else { 10 };
        t.place_bet(bet);
        let before = t.balance();
        t.start_hand();
        if round % 2 == 0 {
            while t.in_game() && t.player_hands()[0].score() < 17 {
                t.hit();
            }
        }
        if t.in_game() {
            t.stand();
        }
        let p = t.player_hands()[0].score();
        let d = t.dealer_hand().score();
        let gain = payout(p, d, bet);
        assert_eq!(t.balance(), before + gain);
        assert_eq!(t.current_bet(), 0);
        assert!(!t.in_game());
        if gain > 0 {
            assert_eq!(t.status(), Status::Won { net: gain - bet });
        } else if p > 21 {
            assert_eq!(t.status(), Status::Bust);
        } else {
            assert_eq!(t.status(), Status::DealerWins);
        }
        assert_one_full_deck(&t);
    }
}

use blackjack::engine::cards::Deck;

fn card(suit: Suit, rank: Rank) -> Card {
    Card { suit, rank }
}

/// A full deck whose top cards (last first) are `top`, in that order.
fn deck_with_top(top: &[Card]) -> Deck {
    let mut cards: Vec<Card> = Deck::new().cards.into_iter().filter(|c| !top.contains(c)).collect();
    for c in top.iter().rev() {
        cards.push(*c);
    }
    Deck { cards }
}

fn seat_with_bet(bet: u32) -> Table {
    let mut t = Table::new();
    t.place_bet(bet);
    t
}

#[test]
fn deal_from_an_unshuffled_deck() {
    let mut t = seat_with_bet(100);
    let order = Deck::new();
    let expected_deck = order.cards[..49].to_vec();
    let m = t.deal(order);
    assert_eq!(
        t.player_hands()[0].cards,
        vec![card(Suit::Spades, Rank::Number(10)), card(Suit::Spades, Rank::Number(9))]
    );
    assert_eq!(t.player_hands()[0].bet, 100);
    assert!(t.player_hands()[0].active);
    assert_eq!(t.dealer_hand().cards, vec![card(Suit::Spades, Rank::Number(8))]);
    assert_eq!(t.dealer_hand().bet, 0);
    assert!(t.dealer_hand().active);
    assert_eq!(t.deck().cards, expected_deck);
    assert_eq!(t.status(), Status::YourTurn);
    assert!(t.in_game());
    match m {
        GameMessage::SyncHand { score, .. } => assert_eq!(score, 19),
        other => panic!("unexpected message {:?}", other),
    }
}

#[test]
fn dealer_bust_pays_double() {
    let mut t = seat_with_bet(100);
    t.deal(deck_with_top(&[
        card(Suit::Hearts, Rank::King),
        card(Suit::Hearts, Rank::Queen),
        card(Suit::Clubs, Rank::Number(6)),
        card(Suit::Clubs, Rank::Number(10)),
        card(Suit::Clubs, Rank::Number(9)),
    ]));
    assert_eq!(t.payout_if_standing(), 200);
    t.stand();
    assert_eq!(t.dealer_hand().cards.len(), 3);
    assert_eq!(t.dealer_hand().score(), 25);
    assert_eq!(t.balance(), 4900 + 200);
    assert_eq!(t.status(), Status::Won { net: 100 });
    assert_eq!(t.current_bet(), 0);
}

#[test]
fn tie_returns_the_stake() {
    let mut t = seat_with_bet(50);
    t.deal(deck_with_top(&[
        card(Suit::Hearts, Rank::Number(10)),
        card(Suit::Hearts, Rank::Number(8)),
        card(Suit::Clubs, Rank::Number(10)),
        card(Suit::Clubs, Rank::Number(8)),
    ]));
    assert_eq!(t.payout_if_standing(), 50);
    t.stand();
    assert_eq!(t.dealer_hand().score(), 18);
    assert_eq!(t.balance(), 5000);
    assert_eq!(t.status(), Status::Won { net: 0 });
}

#[test]
fn higher_dealer_wins() {
    let mut t = seat_with_bet(50);
    t.deal(deck_with_top(&[
        card(Suit::Hearts, Rank::Number(10)),
        card(Suit::Hearts, Rank::Number(7)),
        card(Suit::Clubs, Rank::Number(10)),
        card(Suit::Clubs, Rank::Number(9)),
    ]));
    assert_eq!(t.payout_if_standing(), 0);
    t.stand();
    assert_eq!(t.balance(), 4950);
    assert_eq!(t.status(), Status::DealerWins);
}

#[test]
fn dealer_stands_on_soft_17() {
    let mut t = seat_with_bet(10);
    t.deal(deck_with_top(&[
        card(Suit::Hearts, Rank::Number(10)),
        card(Suit::Hearts, Rank::Number(9)),
        card(Suit::Clubs, Rank::Ace),
        card(Suit::Clubs, Rank::Number(6)),
        card(Suit::Clubs, Rank::Number(5)),
    ]));
    t.stand();
    assert_eq!(t.dealer_hand().cards.len(), 2);
    assert_eq!(t.dealer_hand().score(), 17);
    assert_eq!(t.status(), Status::Won { net: 10 });
}

#[test]
fn bust_on_hit_pays_nothing() {
    let mut t = seat_with_bet(100);
    t.deal(deck_with_top(&[
        card(Suit::Hearts, Rank::Number(10)),
        card(Suit::Hearts, Rank::Number(6)),
        card(Suit::Clubs, Rank::Number(5)),
        card(Suit::Spades, Rank::King),
    ]));
    t.hit();
    assert_eq!(t.player_hands()[0].score(), 26);
    assert!(!t.in_game());
    assert_eq!(t.status(), Status::Bust);
    assert_eq!(t.balance(), 4900);
    assert_eq!(t.dealer_hand().cards.len(), 1);
}

#[test]
fn play_needs_a_stake() {
    let mut t = Table::new();
    assert!(t.play().is_none());
    assert!(!t.in_game());
    assert_eq!(t.status(), Status::PlaceBets);
    t.place_bet(10);
    assert!(t.play().is_some());
    assert!(t.in_game());
    assert_eq!(t.player_hands()[0].bet, 10);
}

#[test]
fn payout_if_standing_matches_the_round() {
    for _ in 0..50 {
        let mut t = seat_with_bet(100);
        t.start_hand();
        let expected = t.payout_if_standing();
        let before = t.balance();
        t.stand();
        assert_eq!(t.balance() as u64, before as u64 + expected);
    }
}
