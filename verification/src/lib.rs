//! Rules and state of the Italian card game Scopa: cards and their compact
//! encodings, players, moves, move generation and scoring.

pub mod card;
pub mod card_set;
pub mod command;
pub mod conservation;
pub mod encoding;
pub mod features;
pub mod game;
pub mod movegen;
pub mod moves;
pub mod player;
pub mod points;
pub mod sort;
pub mod turns;
mod random;
mod text;

pub use card::{Card, Suit, Value};

