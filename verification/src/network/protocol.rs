//! The messages players exchange over the network.

use crate::engine::cards::{copy_cards, Card};
use crate::engine::game::{hand_score, raw_total, Hand};
use vstd::prelude::*;

verus! {

/// A message between the players of a table.
#[derive(Debug, Clone)]
pub enum GameMessage {
    /// Announces a player in the lobby.
    JoinLobby { player_id: String },
    /// Shares a player's hand with the others.
    SyncHand { player_id: String, cards: Vec<Card>, score: u8 },
    /// Asks for chips when a player has run dry.
    RequestFunds { amount: u32, player_id: String },
    /// Deals the cards (host to players).
    DistributeCards { dealer_cards: Vec<Card>, players_cards: Vec<(String, Vec<Card>)> },
    /// An action of a remote player.
    PlayerAction { player_id: String, action: String },
    /// A system notice.
    System(String),
    /// A ping, or a chat line.
    Ping(String),
}

/// `m` shares, as the hand of the player `id`, the cards `cards` and their
/// score.
pub open spec fn shares_hand(m: GameMessage, id: Seq<char>, cards: Seq<Card>) -> bool {
    m matches GameMessage::SyncHand { player_id, cards: c, score } && player_id@ == id && c@
        == cards && score == hand_score(cards)
}

impl GameMessage {
    /// The message that shares `hand` as the hand of `player_id`: its cards
    /// and its score.
    pub fn sync_hand(player_id: String, hand: &Hand) -> (m: GameMessage)
        requires
            raw_total(hand.cards@) <= 255,
        ensures
            shares_hand(m, player_id@, hand.cards@),
    {
        let score = hand.score();
        GameMessage::SyncHand { player_id, cards: copy_cards(&hand.cards), score }
    }

    /// What a received message tells about another player's hand: for a
    /// shared hand, the player and a hand holding those cards (no bet, in
    /// play); any other message tells nothing.
    pub fn remote_hand(self) -> (r: Option<(String, Hand)>)
        ensures
            match self {
                GameMessage::SyncHand { player_id, cards, score: _ } => r matches Some(
                    (id, h),
                ) && id == player_id && h.cards@ == cards@ && h.bet == 0 && h.active,
                _ => r is None,
            },
    {
        match self {
            GameMessage::SyncHand { player_id, cards, score: _ } => {
                let mut hand = Hand::new(0);
                hand.cards = cards;
                Some((player_id, hand))
            },
            _ => None,
        }
    }
}

} // verus!
