//! Rules engine for a two-player tile-matching ("memory") game on a 10x10 board.

pub mod game;

pub use game::{Game, Status};
