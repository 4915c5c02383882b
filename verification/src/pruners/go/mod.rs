//! The game of Go: boards, moves and players.

pub mod board;
pub mod state;
pub mod scoring;
pub mod players;
pub mod learners;
