//! The game: moves, the board as two masks, the rules, and play-outs.

pub mod bits;
pub mod board;
pub mod game;
pub mod laws;
pub mod play;
pub mod rollout;
pub mod rules;

pub use game::Game;
pub use play::{new_play, Play};
pub use rules::{Cell, Player, Position};
