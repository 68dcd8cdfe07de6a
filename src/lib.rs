//! Five-card draw poker: cards and deck, hand ranking, per-seat betting
//! state, the betting-round state machine and side-pot settlement.

pub mod card;
pub mod text;
pub mod hand;
pub mod deck;
pub mod player;
pub mod betting;
pub mod pot;
pub mod logger;
pub mod game;
