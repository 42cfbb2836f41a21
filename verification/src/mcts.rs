//! The search for a move: a tree of positions that grows by random
//! play-outs.

pub mod choice;
pub mod node;
pub mod search;
pub mod tree;

pub use choice::pick_best;
pub use node::Node;
pub use search::MctsSearchResult;
pub use tree::Mcts;
