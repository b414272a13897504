//! The cards and the rules of a hand.

pub mod cards;
pub mod game;
