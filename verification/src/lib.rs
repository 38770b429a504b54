//! The card game "Oxidado": the rules and the message formats that the
//! coordinator, the table and the players of a game exchange.
//!
//! Every message of the game is ASCII text, handled here as bytes.

pub mod cards;
pub mod coordinator;
pub mod game;
pub mod idmap;
pub mod message;
pub mod player;
mod random;
pub mod score;
pub mod table;
pub mod text;
