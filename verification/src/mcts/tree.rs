//! The search tree: its nodes, how they are linked, and what their
//! counts obey.

use vstd::multiset::Multiset;
use vstd::prelude::*;
use rand::rngs::StdRng;
use crate::mcts::node::Node;
use crate::othello::game::Game;
use crate::othello::laws::lemma_legal_plays;
use crate::othello::play::Play;
use crate::othello::rules::Player;

verus! {

/// A search tree. It owns its nodes; a node names its parent and its
/// children by their indices in `arena`.
pub struct Mcts {
    /// The nodes, each after its parent.
    pub arena: Vec<Node>,
    /// The index of the root.
    pub root_node_index: usize,
}

/// An empty list of moves holds no move.
pub proof fn lemma_no_plays(plays: Seq<Play>)
    requires
        plays.len() == 0,
    ensures
        plays.to_multiset() == Multiset::<Play>::empty(),
{
    plays.to_multiset_ensures();
    vstd::multiset::lemma_multiset_empty_len(plays.to_multiset());
    assert(plays.to_multiset() =~= Multiset::<Play>::empty());
}

/// The visits of the nodes of `nodes` at the places `children`, in sum.
pub open spec fn visits_sum(nodes: Seq<Node>, children: Seq<usize>) -> int
    decreases children.len(),
{
    if children.len() == 0 {
        0
    } else {
        visits_sum(nodes, children.drop_last()) + nodes[children.last() as int].visits
    }
}

/// The sum of the visits changes only with the visits of the children.
pub proof fn lemma_visits_sum_same(before: Seq<Node>, after: Seq<Node>, children: Seq<usize>)
    requires
        forall|k: int|
            0 <= k < children.len() ==> before[#[trigger] children[k] as int].visits
                == after[children[k] as int].visits,
    ensures
        visits_sum(after, children) == visits_sum(before, children),
    decreases children.len(),
{
    if children.len() > 0 {
        let rest = children.drop_last();
        assert forall|k: int| 0 <= k < rest.len() implies before[#[trigger] rest[k] as int].visits
            == after[rest[k] as int].visits by {
            assert(rest[k] == children[k]);
        }
        lemma_visits_sum_same(before, after, rest);
        assert(children.last() == children[children.len() - 1]);
    }
}

/// One more visit for one node adds one to the sum of the visits of a list
/// of children that names the node, and nothing to that of a list that does
/// not. The list names no node twice: its children are in ascending order.
pub proof fn lemma_visits_sum_bump(
    before: Seq<Node>,
    after: Seq<Node>,
    children: Seq<usize>,
    bumped: usize,
)
    requires
        forall|j: int, k: int| 0 <= j < k < children.len() ==> children[j] < children[k],
        forall|k: int|
            0 <= k < children.len() ==> after[#[trigger] children[k] as int].visits
                == before[children[k] as int].visits + (if children[k] == bumped {
                1int
            } else {
                0int
            }),
    ensures
        visits_sum(after, children) == visits_sum(before, children) + (if children.contains(
            bumped,
        ) {
            1int
        } else {
            0int
        }),
    decreases children.len(),
{
    if children.len() > 0 {
        let rest = children.drop_last();
        let last = children.last();
        assert(last == children[children.len() - 1]);
        assert forall|k: int| 0 <= k < rest.len() implies after[#[trigger] rest[k] as int].visits
            == before[rest[k] as int].visits + (if rest[k] == bumped {
            1int
        } else {
            0int
        }) by {
            assert(rest[k] == children[k]);
        }
        assert forall|j: int, k: int| 0 <= j < k < rest.len() implies rest[j] < rest[k] by {
            assert(rest[j] == children[j]);
            assert(rest[k] == children[k]);
        }
        lemma_visits_sum_bump(before, after, rest, bumped);
        if last == bumped {
            assert(!rest.contains(bumped)) by {
                if rest.contains(bumped) {
                    let k = choose|k: int| 0 <= k < rest.len() && rest[k] == bumped;
                    assert(children[k] < children[children.len() - 1]);
                }
            }
        } else {
            if children.contains(bumped) {
                let k = choose|k: int| 0 <= k < children.len() && children[k] == bumped;
                assert(rest[k] == bumped);
            }
            if rest.contains(bumped) {
                let k = choose|k: int| 0 <= k < rest.len() && rest[k] == bumped;
                assert(children[k] == bumped);
            }
        }
    }
}

impl Mcts {
    /// The number of nodes.
    pub open spec fn size(&self) -> int {
        self.arena@.len() as int
    }

    /// The node at `index`.
    pub open spec fn node(&self, index: int) -> Node {
        self.arena@[index]
    }

    /// The moves that lead to the children of the node at `index`, in the
    /// order of the children.
    pub open spec fn child_moves(&self, index: int) -> Seq<Play> {
        self.node(index).children@.map_values(
            |child: usize| self.node(child as int).state.previous_move,
        )
    }

    /// Whether the node at `index` is linked as a node of the tree must be.
    /// Its parent comes before it and the root has none. Each child comes
    /// after it, names it as its parent, and holds the position that the
    /// child's move leads to from here. The children stand in the order in
    /// which they were made. The untried moves and the moves of the
    /// children are together the moves of the side to move, each once.
    pub open spec fn links_ok(&self, index: int) -> bool {
        let node = self.node(index);
        &&& node.state.wf()
        &&& match node.parent {
            None => index == 0,
            Some(parent) => parent < index,
        }
        &&& forall|k: int|
            0 <= k < node.children@.len() ==> {
                let child = #[trigger] node.children@[k];
                &&& index < child < self.size()
                &&& self.node(child as int).parent == Some(index as usize)
                &&& self.node(child as int).state@ == node.state@.after_play(
                    self.node(child as int).state.previous_move,
                )
            }
        &&& forall|j: int, k: int|
            0 <= j < k < node.children@.len() ==> node.children@[j] < node.children@[k]
        &&& node.unexpanded_moves@.to_multiset().add(self.child_moves(index).to_multiset())
            == node.state@.legal_plays().to_multiset()
    }

    /// The visits of the children of the node at `index`, in sum.
    pub open spec fn visits_below(&self, index: int) -> int {
        visits_sum(self.arena@, self.node(index).children@)
    }

    /// Whether the counts of the node at `index` fit: it has no more wins
    /// than visits, no more visits than the root, and its children have
    /// together no more visits than it has.
    pub open spec fn counts_ok(&self, index: int) -> bool {
        &&& self.node(index).wins <= self.node(index).visits <= self.node(0).visits
        &&& self.visits_below(index) <= self.node(index).visits
    }

    /// Whether the nodes are linked into a tree under the root, with
    /// counts that fit.
    pub open spec fn well_linked(&self) -> bool {
        &&& self.root_node_index == 0
        &&& self.size() >= 1
        &&& forall|i: int| 0 <= i < self.size() ==> #[trigger] self.links_ok(i)
        &&& forall|i: int| 0 <= i < self.size() ==> #[trigger] self.counts_ok(i)
    }

    /// Whether the tree is as a search leaves it: well linked, and with a
    /// play-out through every node but, at most, the root.
    pub open spec fn wf(&self) -> bool {
        &&& self.well_linked()
        &&& forall|i: int| 0 < i < self.size() ==> (#[trigger] self.node(i)).visits >= 1
    }

    /// Whether the node at `index` lies on the way from the node at `from`
    /// up to the root, both ends counted.
    pub open spec fn on_path(&self, from: int, index: int) -> bool
        decreases from,
    {
        from == index || match self.node(from).parent {
            Some(parent) => 0 <= parent < from && self.on_path(parent as int, index),
            None => false,
        }
    }

    /// Whether the two trees have the same nodes, but for their counts.
    pub open spec fn same_shape(&self, other: Mcts) -> bool {
        &&& self.size() == other.size()
        &&& self.root_node_index == other.root_node_index
        &&& forall|i: int|
            0 <= i < self.size() ==> {
                &&& (#[trigger] self.node(i)).state == other.node(i).state
                &&& self.node(i).parent == other.node(i).parent
                &&& self.node(i).children == other.node(i).children
                &&& self.node(i).unexpanded_moves == other.node(i).unexpanded_moves
            }
    }

    /// Whether the tree has grown out of `before`: it still has every node
    /// of `before`, with the same position and parent. Such a node may have
    /// more children, behind those it had, in place of the last of its
    /// untried moves, and more visits and wins.
    pub open spec fn grown_from(&self, before: Mcts) -> bool {
        &&& before.size() <= self.size()
        &&& forall|i: int|
            0 <= i < before.size() ==> {
                &&& (#[trigger] self.node(i)).state == before.node(i).state
                &&& self.node(i).parent == before.node(i).parent
                &&& before.node(i).children@.is_prefix_of(self.node(i).children@)
                &&& self.node(i).unexpanded_moves@.is_prefix_of(before.node(i).unexpanded_moves@)
                &&& before.node(i).visits <= self.node(i).visits
                &&& before.node(i).wins <= self.node(i).wins
            }
    }

    /// Whether the tree is `before` with one more node, a child of the
    /// node at `index` for the last of its untried moves. The child holds
    /// the position after that move, with the moves of the side to move
    /// there as its untried moves, and has no visit yet. The node at `index`
    /// has lost the move and gained the child; nothing else has changed.
    pub open spec fn expanded_from(&self, before: Mcts, index: int) -> bool {
        let child = before.size();
        let made = self.node(child);
        let play = before.node(index).unexpanded_moves@.last();
        &&& self.root_node_index == before.root_node_index
        &&& self.size() == before.size() + 1
        &&& made.parent == Some(index as usize)
        &&& made.visits == 0
        &&& made.wins == 0
        &&& made.children@.len() == 0
        &&& made.state.wf()
        &&& made.state@ == before.node(index).state@.after_play(play)
        &&& made.unexpanded_moves@.to_multiset() == made.state@.legal_plays().to_multiset()
        &&& self.node(index).unexpanded_moves@ == before.node(index).unexpanded_moves@.drop_last()
        &&& self.node(index).children@ == before.node(index).children@.push(child as usize)
        &&& forall|i: int|
            0 <= i < before.size() ==> {
                &&& (#[trigger] self.node(i)).state == before.node(i).state
                &&& self.node(i).parent == before.node(i).parent
                &&& self.node(i).wins == before.node(i).wins
                &&& self.node(i).visits == before.node(i).visits
                &&& (i != index ==> self.node(i) == before.node(i))
            }
    }

    /// Whether the tree is `before` with one more play-out counted, which
    /// went through the node at `index` and which `winner` won. Each node
    /// on the way from that node up to the root has one more visit, and
    /// one more win where the side to move in it is not the winner: the
    /// move into a node is made by the other side. Nothing else has
    /// changed.
    pub open spec fn counted_from(&self, before: Mcts, index: int, winner: Player) -> bool {
        &&& self.same_shape(before)
        &&& forall|i: int|
            0 <= i < before.size() ==> {
                &&& (#[trigger] self.node(i)).visits == before.node(i).visits + (if before.on_path(
                    index,
                    i,
                ) {
                    1int
                } else {
                    0int
                })
                &&& self.node(i).wins == before.node(i).wins + (if before.on_path(index, i)
                    && before.node(i).state.player_to_move != winner {
                    1int
                } else {
                    0int
                })
            }
    }

    /// Whether the child at `place` among the children of the node at
    /// `index` has the most visits of them, as the first with that many.
    pub open spec fn is_most_visited(&self, index: int, place: int) -> bool {
        let children = self.node(index).children@;
        &&& 0 <= place < children.len()
        &&& forall|j: int|
            0 <= j < children.len() ==> self.node(#[trigger] children[j] as int).visits <= self.node(
                children[place] as int,
            ).visits
        &&& forall|j: int|
            0 <= j < place ==> self.node(#[trigger] children[j] as int).visits < self.node(
                children[place] as int,
            ).visits
    }

    /// The links of a tree depend on its shape alone.
    pub proof fn lemma_same_shape_links(&self, other: Mcts)
        requires
            self.same_shape(other),
            forall|i: int| 0 <= i < other.size() ==> #[trigger] other.links_ok(i),
        ensures
            forall|i: int| 0 <= i < self.size() ==> #[trigger] self.links_ok(i),
    {
        assert forall|i: int| 0 <= i < self.size() implies #[trigger] self.links_ok(i) by {
            assert(other.links_ok(i));
            assert(self.node(i).state == other.node(i).state);
            assert(self.child_moves(i) =~= other.child_moves(i)) by {
                assert forall|k: int| 0 <= k < self.node(i).children@.len() implies self.child_moves(
                    i,
                )[k] == other.child_moves(i)[k] by {
                    let child = other.node(i).children@[k];
                    assert(self.node(child as int).state == other.node(child as int).state);
                }
            }
            assert forall|k: int| 0 <= k < self.node(i).children@.len() implies {
                let child = #[trigger] self.node(i).children@[k];
                &&& i < child < self.size()
                &&& self.node(child as int).parent == Some(i as usize)
                &&& self.node(child as int).state@ == self.node(i).state@.after_play(
                    self.node(child as int).state.previous_move,
                )
            } by {
                let child = other.node(i).children@[k];
                assert(self.node(child as int).state == other.node(child as int).state);
            }
        }
    }

    /// The way up from a node passes only nodes that come no later than
    /// it, and it ends at the root.
    pub proof fn lemma_path(&self, from: int, index: int)
        requires
            self.well_linked(),
            0 <= from < self.size(),
        ensures
            self.on_path(from, 0),
            self.on_path(from, index) ==> 0 <= index <= from,
        decreases from,
    {
        assert(self.links_ok(from));
        match self.node(from).parent {
            Some(parent) => {
                self.lemma_path(parent as int, index);
            },
            None => {},
        }
    }

    /// The way up from a node that passes a second node passes the parent
    /// of the second, too.
    pub proof fn lemma_path_step(&self, from: int, index: int)
        requires
            self.on_path(from, index),
            self.node(index).parent is Some,
            0 <= self.node(index).parent.unwrap() < index,
        ensures
            self.on_path(from, self.node(index).parent.unwrap() as int),
        decreases from,
    {
        if from != index {
            self.lemma_path_step(self.node(from).parent.unwrap() as int, index);
        } else {
            let parent = self.node(index).parent.unwrap() as int;
            assert(self.on_path(parent, parent));
        }
    }

    /// A tree that has grown out of a tree that has grown out of a third
    /// has grown out of the third.
    pub proof fn lemma_grown_twice(&self, middle: Mcts, before: Mcts)
        requires
            self.grown_from(middle),
            middle.grown_from(before),
        ensures
            self.grown_from(before),
    {
        assert forall|i: int| 0 <= i < before.size() implies {
            &&& (#[trigger] self.node(i)).state == before.node(i).state
            &&& self.node(i).parent == before.node(i).parent
            &&& before.node(i).children@.is_prefix_of(self.node(i).children@)
            &&& self.node(i).unexpanded_moves@.is_prefix_of(before.node(i).unexpanded_moves@)
            &&& before.node(i).visits <= self.node(i).visits
            &&& before.node(i).wins <= self.node(i).wins
        } by {
            assert(middle.node(i).state == before.node(i).state);
        }
    }

    /// A node without an untried move has a child for each move of the
    /// side to move, and each child's move is one of those moves.
    pub proof fn lemma_fully_expanded(&self, index: int)
        requires
            self.well_linked(),
            0 <= index < self.size(),
            self.node(index).unexpanded_moves@.len() == 0,
        ensures
            self.node(index).children@.len() == self.node(index).state@.legal_plays().len(),
            self.node(index).children@.len() >= 1,
            self.child_moves(index).to_multiset() == self.node(
                index,
            ).state@.legal_plays().to_multiset(),
            forall|k: int|
                0 <= k < self.node(index).children@.len() ==> self.node(
                    index,
                ).state@.legal_plays().contains(#[trigger] self.child_moves(index)[k]),
    {
        let node = self.node(index);
        let moves = self.child_moves(index);
        let legal = node.state@.legal_plays();
        assert(self.links_ok(index));
        lemma_no_plays(node.unexpanded_moves@);
        assert(node.unexpanded_moves@.to_multiset().add(moves.to_multiset())
            =~= moves.to_multiset());
        moves.to_multiset_ensures();
        legal.to_multiset_ensures();
        lemma_legal_plays(node.state@);
        assert forall|k: int| 0 <= k < node.children@.len() implies legal.contains(
            #[trigger] moves[k],
        ) by {
            assert(moves.contains(moves[k]));
            assert(moves.to_multiset().count(moves[k]) > 0);
            assert(legal.to_multiset().count(moves[k]) > 0);
        }
    }

    /// A tree of one node, the root, for the position `state`.
    pub fn new(state: Game, rng: &mut StdRng) -> (tree: Mcts)
        requires
            state.wf(),
        ensures
            tree.wf(),
            tree.root_node_index == 0,
            tree.size() == 1,
            tree.node(0).state == state,
            tree.node(0).parent is None,
            tree.node(0).children@.len() == 0,
            tree.node(0).wins == 0,
            tree.node(0).visits == 0,
            tree.node(0).unexpanded_moves@.to_multiset() == state@.legal_plays().to_multiset(),
    {
        let mut arena: Vec<Node> = Vec::new();
        let node = Node::new(state, None, rng);
        arena.push(node);
        let tree = Mcts { arena, root_node_index: 0 };
        proof {
            lemma_no_plays(tree.child_moves(0));
            assert(tree.node(0).unexpanded_moves@.to_multiset().add(
                tree.child_moves(0).to_multiset(),
            ) =~= tree.node(0).unexpanded_moves@.to_multiset());
            assert(tree.links_ok(0));
            assert(tree.counts_ok(0));
        }
        tree
    }

    /// The node at `index`.
    pub fn get_node(&self, index: usize) -> (node: &Node)
        requires
            index < self.size(),
        ensures
            *node == self.node(index as int),
    {
        &self.arena[index]
    }

    /// Adds a node for the position `state` under the node at `parent`,
    /// and returns its index. The parent does not yet name it as a child.
    pub(crate) fn add_node(&mut self, parent: usize, state: Game, rng: &mut StdRng) -> (index:
        usize)
        requires
            state.wf(),
        ensures
            index == old(self).size(),
            final(self).root_node_index == old(self).root_node_index,
            final(self).arena@ == old(self).arena@.push(final(self).node(index as int)),
            final(self).node(index as int).state == state,
            final(self).node(index as int).parent == Some(parent),
            final(self).node(index as int).children@.len() == 0,
            final(self).node(index as int).wins == 0,
            final(self).node(index as int).visits == 0,
            final(self).node(index as int).unexpanded_moves@.to_multiset()
                == state@.legal_plays().to_multiset(),
    {
        let index: usize = self.arena.len();
        let node = Node::new(state, Some(parent), rng);
        self.arena.push(node);
        index
    }
}

} // verus!
