use blackjack::engine::cards::{Card, Rank, Suit};
use blackjack::engine::game::Hand;
use blackjack::identity::{new_player_id, short_id};
use blackjack::network::protocol::GameMessage;

#[test]
fn sync_hand_shares_cards_and_score() {
    let mut h = Hand::new(50);
    h.add_card(Card { suit: Suit::Hearts, rank: Rank::Ace });
    h.add_card(Card { suit: Suit::Clubs, rank: Rank::Number(9) });
    match GameMessage::sync_hand("p1".to_string(), &h) {
        GameMessage::SyncHand { player_id, cards, score } => {
            assert_eq!(player_id, "p1");
            assert_eq!(cards, h.cards);
            assert_eq!(score, 20);
        }
        other => panic!("unexpected message {:?}", other),
    }
}

#[test]
fn remote_hand_from_a_shared_hand() {
    let cards = vec![Card { suit: Suit::Diamonds, rank: Rank::King }];
    let m = GameMessage::SyncHand { player_id: "abc123".to_string(), cards: cards.clone(), score: 10 };
    let (id, hand) = m.remote_hand().unwrap();
    assert_eq!(id, "abc123");
    assert_eq!(hand.cards, cards);
    assert_eq!(hand.bet, 0);
    assert!(hand.active);
}

#[test]
fn remote_hand_from_other_messages() {
    assert!(GameMessage::Ping("hi".to_string()).remote_hand().is_none());
    assert!(GameMessage::System("x".to_string()).remote_hand().is_none());
    assert!(GameMessage::JoinLobby { player_id: "a".to_string() }.remote_hand().is_none());
    assert!(GameMessage::RequestFunds { amount: 5, player_id: "a".to_string() }
        .remote_hand()
        .is_none());
    assert!(GameMessage::PlayerAction { player_id: "a".to_string(), action: "HIT".to_string() }
        .remote_hand()
        .is_none());
    assert!(GameMessage::DistributeCards { dealer_cards: vec![], players_cards: vec![] }
        .remote_hand()
        .is_none());
}

#[test]
fn short_id_keeps_six_characters() {
    assert_eq!(short_id("0123456789abcdef"), "012345");
    assert_eq!(short_id("abcdef"), "abcdef");
}

#[test]
fn player_ids_are_six_hex_digits_and_fresh() {
    let a = new_player_id();
    let b = new_player_id();
    assert_eq!(a.len(), 6);
    assert!(a.chars().all(|c| c.is_ascii_digit() || ('a'..='f').contains(&c)));
    assert_ne!(a, b);
}
