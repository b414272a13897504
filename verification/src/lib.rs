//! A blackjack table: cards and decks, hands and their scores, a wallet,
//! the network messages players exchange, and the rules of a round.

pub mod engine;
pub mod identity;
pub mod network;
pub mod table;
pub mod wallet;
