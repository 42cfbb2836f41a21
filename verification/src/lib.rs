//! Othello on a bitboard, with a Monte Carlo tree search that picks moves.
//!
//! Every function here is verified: the move generator and the capture
//! routine are proved against the rules of the game stated over sets of
//! cells, and the search tree keeps its bookkeeping invariants through
//! every phase of the search.

pub mod clock;
pub mod mcts;
pub mod othello;
pub mod random;

pub use mcts::{Mcts, MctsSearchResult, Node};
pub use othello::{new_play, Cell, Game, Play, Player};
