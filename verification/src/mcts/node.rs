//! A node of the search tree.

use vstd::prelude::*;
use rand::rngs::StdRng;
use crate::othello::game::Game;
use crate::othello::play::Play;
use crate::random::shuffle_plays;
use crate::othello::rules::Player;

verus! {

/// A node of the search tree: a position, reached by one move from the
/// position of its parent, with what the search has learnt of it.
pub struct Node {
    /// The index of the parent in the tree; the root has none.
    pub parent: Option<usize>,
    /// The indices of the children in the tree, in the order in which the
    /// search made them.
    pub children: Vec<usize>,
    /// The moves from this position that have no child yet, in the random
    /// order in which the search will try them, the next one last.
    pub unexpanded_moves: Vec<Play>,
    /// The win score: how many of the play-outs through this node count as
    /// a win for the side that moved into it. The score grows by whole wins
    /// only, so it is kept as a count.
    pub wins: u32,
    /// How many play-outs went through this node.
    pub visits: u32,
    /// The position.
    pub state: Game,
}

impl Node {
    /// A node for the position `state` that no play-out has visited yet.
    /// Its untried moves are the moves of the side to move, shuffled by
    /// `rng`.
    pub fn new(state: Game, parent: Option<usize>, rng: &mut StdRng) -> (node: Node)
        requires
            state.wf(),
        ensures
            node.state == state,
            node.parent == parent,
            node.children@.len() == 0,
            node.wins == 0,
            node.visits == 0,
            node.unexpanded_moves@.to_multiset() == state@.legal_plays().to_multiset(),
    {
        let mut plays: Vec<Play> = state.generate_plays();
        shuffle_plays(&mut plays, rng);
        Node { parent, children: Vec::new(), unexpanded_moves: plays, wins: 0, visits: 0, state }
    }

    /// Whether the game is over in this position.
    pub fn is_terminal(&self) -> (over: bool)
        ensures
            over == (self.state@.outcome() != Player::InProgress),
    {
        self.state.game_state() != Player::InProgress
    }

    /// Whether every move from this position has a child.
    pub fn is_fully_expanded(&self) -> (full: bool)
        ensures
            full == (self.unexpanded_moves@.len() == 0),
    {
        self.unexpanded_moves.len() == 0
    }
}

} // verus!
