//! The four phases of the search, and the search as their repetition.

use vstd::prelude::*;
use rand::rngs::StdRng;
use std::time::Instant;
use crate::mcts::choice::{is_choice, is_first_best, pick_best};
use crate::mcts::tree::{lemma_no_plays, lemma_visits_sum_bump, lemma_visits_sum_same, Mcts};
use crate::othello::game::Game;
use crate::othello::laws::lemma_legal_plays;
use crate::othello::play::Play;
use crate::othello::rollout::{
    lemma_plays_out_ends, lemma_plays_out_step, lemma_turns_left, plays_out, turns_left,
};
use crate::othello::rules::Player;
use crate::random::random_index;

verus! {

/// What a search reports when it ends.
pub struct MctsSearchResult {
    /// How many rounds of the four phases the search went through.
    pub search_iterations: u32,
}

impl Mcts {
    /// Whether `scores` holds, for each child of the node at `index` in
    /// turn, a score that `score` may give to the wins and the visits of
    /// that child.
    pub open spec fn scored_by<F: Fn(u32, u32) -> Option<u64>>(
        &self,
        index: int,
        score: &F,
        scores: Seq<Option<u64>>,
    ) -> bool {
        let children = self.node(index).children@;
        &&& scores.len() == children.len()
        &&& forall|k: int|
            0 <= k < scores.len() ==> score.ensures(
                (self.node(children[k] as int).wins, self.node(children[k] as int).visits),
                #[trigger] scores[k],
            )
    }

    /// Whether the selection may go from the node at `index` to `child`:
    /// `score` gives the children scores of which the child has the highest,
    /// as the first with that score; or gives none of them a score, and
    /// `child` is none.
    pub open spec fn may_select<F: Fn(u32, u32) -> Option<u64>>(
        &self,
        index: int,
        score: &F,
        child: Option<usize>,
    ) -> bool {
        exists|scores: Seq<Option<u64>>| #[trigger]
            self.scored_by(index, score, scores) && match child {
                Some(found) => exists|place: int| #[trigger]
                    is_first_best(scores, place) && self.node(index).children@[place] == found,
                None => is_choice(scores, None),
            }
    }

    /// Whether `path` is a way that the selection may take: it starts at
    /// the root, and each step leaves a node that is fully expanded and not
    /// terminal for the child that the selection may go to.
    pub open spec fn is_descent<F: Fn(u32, u32) -> Option<u64>>(
        &self,
        score: &F,
        path: Seq<usize>,
    ) -> bool {
        &&& path.len() >= 1
        &&& path[0] == 0
        &&& forall|k: int|
            0 <= k < path.len() - 1 ==> {
                &&& 0 <= (#[trigger] path[k]) < self.size()
                &&& self.node(path[k] as int).unexpanded_moves@.len() == 0
                &&& self.node(path[k] as int).state@.outcome() == Player::InProgress
                &&& self.may_select(path[k] as int, score, Some(path[k + 1]))
            }
    }

    /// Whether the selection stops at the node at `index`: the node is not
    /// fully expanded, or is terminal, or has no child to go to.
    pub open spec fn stops_at<F: Fn(u32, u32) -> Option<u64>>(
        &self,
        score: &F,
        index: int,
    ) -> bool {
        ||| self.node(index).unexpanded_moves@.len() > 0
        ||| self.node(index).state@.outcome() != Player::InProgress
        ||| self.may_select(index, score, None)
    }

    /// Whether the selection ends at the node at `index`: a way that the
    /// selection may take leads there, and the selection stops there.
    pub open spec fn selects<F: Fn(u32, u32) -> Option<u64>>(
        &self,
        score: &F,
        index: int,
    ) -> bool {
        &&& 0 <= index < self.size()
        &&& self.stops_at(score, index)
        &&& exists|path: Seq<usize>| #[trigger] self.is_descent(score, path) && path.last() == index
    }

    /// Whether a play-out from the position of the node at `index` may end
    /// with the result `winner`.
    pub open spec fn may_end(&self, index: int, winner: Player) -> bool {
        exists|picks: Seq<int>| #[trigger] plays_out(self.node(index).state@, picks, winner)
    }

    /// Whether one round of the search leads from `before` to this tree, by
    /// way of the node at `selected`, the tree `middle` and the result
    /// `winner`. The selection ends at the node at `selected`. If a move of
    /// that node is untried and the game is not over in it, `middle` is
    /// `before` with a child of the node for that move, and the play-out
    /// starts from the child; otherwise `middle` is `before`, and the
    /// play-out starts from the node itself. The play-out may end with the
    /// result `winner`, and this tree is `middle` with that play-out
    /// counted.
    pub open spec fn round_via<F: Fn(u32, u32) -> Option<u64>>(
        &self,
        before: Mcts,
        score: &F,
        selected: int,
        middle: Mcts,
        winner: Player,
    ) -> bool {
        let stays = before.node(selected).unexpanded_moves@.len() == 0 || before.node(
            selected,
        ).state@.outcome() != Player::InProgress;
        let target = if stays {
            selected
        } else {
            before.size()
        };
        &&& before.selects(score, selected)
        &&& if stays {
            middle == before
        } else {
            middle.expanded_from(before, selected)
        }
        &&& middle.may_end(target, winner)
        &&& self.counted_from(middle, target, winner)
    }

    /// Whether one round of the search leads from `before` to this tree.
    pub open spec fn is_round<F: Fn(u32, u32) -> Option<u64>>(
        &self,
        before: Mcts,
        score: &F,
    ) -> bool {
        exists|selected: int, middle: Mcts, winner: Player| #[trigger]
            self.round_via(before, score, selected, middle, winner)
    }

    /// Whether `rounds` rounds of the search lead from `before` to this
    /// tree.
    pub open spec fn is_search<F: Fn(u32, u32) -> Option<u64>>(
        &self,
        before: Mcts,
        score: &F,
        rounds: nat,
    ) -> bool
        decreases rounds,
    {
        if rounds == 0 {
            *self == before
        } else {
            exists|middle: Mcts|
                #![trigger self.is_round(middle, score)]
                middle.is_search(before, score, (rounds - 1) as nat) && self.is_round(middle, score)
        }
    }

    /// A round after a search is a search of one round more.
    pub proof fn lemma_search_step<F: Fn(u32, u32) -> Option<u64>>(
        &self,
        middle: Mcts,
        before: Mcts,
        score: &F,
        rounds: nat,
    )
        requires
            middle.is_search(before, score, rounds),
            self.is_round(middle, score),
        ensures
            self.is_search(before, score, rounds + 1),
    {
        assert(middle.is_search(before, score, ((rounds + 1) - 1) as nat));
    }

    /// The position after the move `play` has been made in `state`, which
    /// stays as it is.
    fn advance_state(state: &Game, play: Play) -> (next: Game)
        requires
            state.wf(),
            state@.accepts(play),
        ensures
            next.wf(),
            next@ == state@.after_play(play),
            next.previous_move == play,
    {
        let mut next: Game = *state;
        next.make_play(play);
        next
    }

    /// The child of the node at `index` that `score` rates highest, the
    /// first of them where several are rated alike; none where the node has
    /// no child or `score` rates none of them.
    fn select_best_child_uct<F: Fn(u32, u32) -> Option<u64>>(
        &self,
        index: usize,
        score: &F,
    ) -> (best: Option<usize>)
        requires
            self.well_linked(),
            index < self.size(),
            forall|wins: u32, visits: u32| score.requires((wins, visits)),
        ensures
            self.may_select(index as int, score, best),
            match best {
                Some(child) => index < child < self.size(),
                None => true,
            },
    {
        let mut scores: Vec<Option<u64>> = Vec::new();
        let mut place: usize = 0;
        proof {
            assert(self.links_ok(index as int));
        }
        while place < self.arena[index].children.len()
            invariant
                index < self.size(),
                self.links_ok(index as int),
                forall|wins: u32, visits: u32| score.requires((wins, visits)),
                place <= self.node(index as int).children@.len(),
                scores@.len() == place,
                forall|k: int|
                    0 <= k < place ==> score.ensures(
                        (
                            self.node(self.node(index as int).children@[k] as int).wins,
                            self.node(self.node(index as int).children@[k] as int).visits,
                        ),
                        #[trigger] scores@[k],
                    ),
            decreases self.node(index as int).children@.len() - place,
        {
            let child: usize = self.arena[index].children[place];
            let rated: Option<u64> = score(self.arena[child].wins, self.arena[child].visits);
            scores.push(rated);
            place = place + 1;
        }
        let best: Option<usize> = pick_best(&scores);
        proof {
            assert(self.scored_by(index as int, score, scores@));
        }
        match best {
            Some(found) => {
                let child: usize = self.arena[index].children[found];
                proof {
                    assert(is_first_best(scores@, found as int));
                }
                Some(child)
            },
            None => None,
        }
    }

    /// The first phase: goes down from the root, at each node to the child
    /// that `score` rates highest, and returns the index of the node at
    /// which the way down stops.
    fn select<F: Fn(u32, u32) -> Option<u64>>(&self, score: &F) -> (index: usize)
        requires
            self.well_linked(),
            forall|wins: u32, visits: u32| score.requires((wins, visits)),
        ensures
            self.selects(score, index as int),
    {
        let mut index: usize = self.root_node_index;
        let ghost mut path: Seq<usize> = seq![0usize];
        let mut stopped: bool = false;
        while !stopped
            invariant
                self.well_linked(),
                forall|wins: u32, visits: u32| score.requires((wins, visits)),
                index < self.size(),
                self.is_descent(score, path),
                path.last() == index,
                stopped ==> self.stops_at(score, index as int),
            decreases
                    (if stopped {
                        0int
                    } else {
                        self.size() - index
                    }),
        {
            if self.arena[index].is_fully_expanded() && !self.arena[index].is_terminal() {
                match self.select_best_child_uct(index, score) {
                    Some(child) => {
                        proof {
                            let longer = path.push(child);
                            assert forall|k: int| 0 <= k < longer.len() - 1 implies {
                                &&& 0 <= (#[trigger] longer[k]) < self.size()
                                &&& self.node(longer[k] as int).unexpanded_moves@.len() == 0
                                &&& self.node(longer[k] as int).state@.outcome()
                                    == Player::InProgress
                                &&& self.may_select(longer[k] as int, score, Some(longer[k + 1]))
                            } by {
                                if k < path.len() - 1 {
                                    assert(longer[k] == path[k]);
                                    assert(longer[k + 1] == path[k + 1]);
                                }
                            }
                            path = longer;
                        }
                        index = child;
                    },
                    None => {
                        stopped = true;
                    },
                }
            } else {
                stopped = true;
            }
        }
        index
    }

    /// The second phase: gives the node at `index` a child for its next
    /// untried move, the last of the list, and returns the index of the
    /// child.
    fn expand(&mut self, index: usize, rng: &mut StdRng) -> (child: usize)
        requires
            old(self).wf(),
            index < old(self).size(),
            old(self).node(index as int).unexpanded_moves@.len() > 0,
        ensures
            final(self).well_linked(),
            child == old(self).size(),
            final(self).expanded_from(*old(self), index as int),
    {
        let ghost before = *self;
        let last_move = self.arena[index].unexpanded_moves.pop();
        match last_move {
            Some(play) => {
                proof {
                    let node = before.node(index as int);
                    let moves = node.unexpanded_moves@;
                    assert(before.links_ok(index as int));
                    moves.to_multiset_ensures();
                    node.state@.legal_plays().to_multiset_ensures();
                    assert(moves.contains(play)) by {
                        assert(moves[moves.len() - 1] == play);
                    }
                    assert(node.state@.legal_plays().to_multiset().count(play) > 0);
                    assert(node.state@.legal_plays().contains(play));
                    lemma_legal_plays(node.state@);
                }
                let new_state: Game = Self::advance_state(&self.arena[index].state, play);
                let child: usize = self.add_node(index, new_state, rng);
                self.arena[index].children.push(child);
                proof {
                    let after = *self;
                    let n = child as int;
                    assert forall|i: int| 0 <= i < after.size() implies #[trigger] after.links_ok(
                        i,
                    ) by {
                        if i < n {
                            assert(before.links_ok(i));
                            assert(before.counts_ok(i));
                        }
                        if i == n {
                            lemma_no_plays(after.child_moves(n));
                            assert(after.node(n).unexpanded_moves@.to_multiset().add(
                                after.child_moves(n).to_multiset(),
                            ) =~= after.node(n).unexpanded_moves@.to_multiset());
                        } else if i == index {
                            let old_moves = before.node(i).unexpanded_moves@;
                            let new_moves = after.node(i).unexpanded_moves@;
                            assert(old_moves =~= new_moves.push(play));
                            assert(after.child_moves(i) =~= before.child_moves(i).push(play));
                            new_moves.to_multiset_ensures();
                            before.child_moves(i).to_multiset_ensures();
                            assert(new_moves.to_multiset().add(after.child_moves(i).to_multiset())
                                =~= old_moves.to_multiset().add(
                                before.child_moves(i).to_multiset(),
                            ));
                        } else {
                            assert(after.child_moves(i) =~= before.child_moves(i));
                        }
                    }
                    assert forall|i: int| 0 <= i < after.size() implies #[trigger] after.counts_ok(
                        i,
                    ) by {
                        assert(before.counts_ok(0));
                        if i < n {
                            let old_children = before.node(i).children@;
                            assert(before.counts_ok(i));
                            assert(before.links_ok(i));
                            assert forall|k: int| 0 <= k < old_children.len() implies before.arena@[
                                #[trigger] old_children[k] as int
                            ].visits == after.arena@[old_children[k] as int].visits by {
                                assert(after.node(old_children[k] as int).visits == before.node(
                                    old_children[k] as int,
                                ).visits);
                            }
                            lemma_visits_sum_same(before.arena@, after.arena@, old_children);
                            if i == index {
                                assert(after.node(i).children@.drop_last() =~= old_children);
                            }
                        }
                    }
                }
                child
            },
            None => vstd::pervasive::unreached(),
        }
    }

    /// The third phase: plays a random game from the position of the node
    /// at `index` to its end, and returns who won it. At each turn `rng`
    /// picks one of the moves of the side to move.
    pub fn simulate(&self, index: usize, rng: &mut StdRng) -> (winner: Player)
        requires
            self.well_linked(),
            index < self.size(),
        ensures
            winner != Player::InProgress,
            self.may_end(index as int, winner),
    {
        let mut state: Game = self.arena[index].state;
        let ghost start = state@;
        let ghost mut picks: Seq<int> = Seq::empty();
        proof {
            assert(self.links_ok(index as int));
            assert forall|rest: Seq<int>, result: Player| #[trigger]
                plays_out(state@, rest, result) implies plays_out(start, picks + rest, result) by {
                assert(picks + rest =~= rest);
            }
        }
        while state.game_state() == Player::InProgress
            invariant
                state.wf(),
                start == self.node(index as int).state@,
                forall|rest: Seq<int>, result: Player| #[trigger]
                    plays_out(state@, rest, result) ==> plays_out(start, picks + rest, result),
            decreases turns_left(state@),
        {
            let ghost entry = state@;
            let ghost taken = picks;
            let plays: Vec<Play> = state.generate_plays();
            let pick: usize = random_index(rng, plays.len());
            let play: Play = plays[pick];
            proof {
                lemma_legal_plays(entry);
                state.lemma_view_wf();
            }
            let decided: Option<Player> = state.settle_play(play);
            match decided {
                Some(winner) => {
                    proof {
                        let last = seq![pick as int];
                        assert(last.drop_first() =~= Seq::<int>::empty());
                        assert(plays_out(entry, last, winner));
                        assert(plays_out(start, taken + last, winner));
                        lemma_plays_out_ends(start, taken + last, winner);
                    }
                    return winner;
                },
                None => {
                    proof {
                        lemma_turns_left(entry, pick as int);
                        picks = taken.push(pick as int);
                        assert forall|rest: Seq<int>, result: Player| #[trigger]
                            plays_out(state@, rest, result) implies plays_out(
                            start,
                            picks + rest,
                            result,
                        ) by {
                            lemma_plays_out_step(entry, pick as int, rest, result);
                            assert(plays_out(entry, seq![pick as int] + rest, result));
                            assert(taken + (seq![pick as int] + rest) =~= picks + rest);
                        }
                    }
                },
            }
        }
        let winner: Player = state.game_state();
        proof {
            let none = Seq::<int>::empty();
            assert(plays_out(state@, none, winner));
            assert(picks + none =~= picks);
            assert(plays_out(start, picks, winner));
        }
        winner
    }

    /// The fourth phase: counts a play-out that `winner` won for the node
    /// at `index` and for every node above it, up to the root. Each of them
    /// gets a visit, and a win where the side to move in it is not the
    /// winner: the move into a node is made by the other side.
    fn backpropagate(&mut self, index: usize, winner: Player)
        requires
            old(self).well_linked(),
            index < old(self).size(),
            old(self).node(0).visits < u32::MAX,
            forall|i: int|
                0 < i < old(self).size() && i != index ==> (#[trigger] old(self).node(
                    i,
                )).visits >= 1,
        ensures
            final(self).wf(),
            final(self).counted_from(*old(self), index as int, winner),
    {
        let ghost before = *self;
        let mut current: usize = index;
        let mut done: bool = false;
        proof {
            assert forall|j: int| 0 <= j < before.size() implies #[trigger] self.visits_below(j)
                <= self.node(j).visits by {
                assert(before.counts_ok(j));
            }
        }
        while !done
            invariant
                before.well_linked(),
                before.node(0).visits < u32::MAX,
                self.same_shape(before),
                index < before.size(),
                current < before.size(),
                before.on_path(index as int, current as int),
                forall|j: int|
                    0 <= j < before.size() ==> #[trigger] self.visits_below(j) <= self.node(j).visits
                        + (if !done && j == current && current != index {
                        1int
                    } else {
                        0int
                    }),
                forall|i: int|
                    0 <= i < before.size() ==> {
                        let counted = before.on_path(index as int, i) && (done || !before.on_path(
                            current as int,
                            i,
                        ));
                        &&& (#[trigger] self.node(i)).visits == before.node(i).visits + (if counted {
                            1int
                        } else {
                            0int
                        })
                        &&& self.node(i).wins == before.node(i).wins + (if counted && before.node(
                            i,
                        ).state.player_to_move != winner {
                            1int
                        } else {
                            0int
                        })
                    },
            decreases
                    (if done {
                        0int
                    } else {
                        current + 1
                    }),
        {
            let ghost entry = *self;
            proof {
                assert(before.counts_ok(current as int));
                assert(before.counts_ok(0));
                assert(before.links_ok(current as int));
                assert(before.on_path(current as int, current as int));
                assert(self.node(current as int).visits == before.node(current as int).visits);
                assert(self.node(current as int).wins == before.node(current as int).wins);
                assert(self.node(current as int).parent == before.node(current as int).parent);
            }
            self.arena[current].visits = self.arena[current].visits + 1;
            if self.arena[current].state.player_to_move != winner {
                self.arena[current].wins = self.arena[current].wins + 1;
            }
            let parent: Option<usize> = self.arena[current].parent;
            proof {
                assert forall|i: int| 0 <= i < before.size() && i != current implies self.node(i)
                    == entry.node(i) by {}
                assert(parent == before.node(current as int).parent);
                assert(self.node(current as int).state == entry.node(current as int).state);
                assert(self.node(current as int).children == entry.node(current as int).children);
                assert(self.node(current as int).unexpanded_moves == entry.node(
                    current as int,
                ).unexpanded_moves);
                assert(self.size() == entry.size());
                assert forall|i: int| 0 <= i < self.size() implies {
                    &&& (#[trigger] self.node(i)).state == before.node(i).state
                    &&& self.node(i).parent == before.node(i).parent
                    &&& self.node(i).children == before.node(i).children
                    &&& self.node(i).unexpanded_moves == before.node(i).unexpanded_moves
                } by {
                    assert(entry.node(i).state == before.node(i).state);
                    if i != current {
                        assert(self.node(i) == entry.node(i));
                    }
                }
                assert(self.same_shape(before));
                match parent {
                    Some(up) => {
                        assert forall|i: int| 0 <= i < before.size() implies (before.on_path(
                            current as int,
                            i,
                        ) <==> (i == current || before.on_path(up as int, i))) by {}
                        before.lemma_path(up as int, current as int);
                        before.lemma_path_step(index as int, current as int);
                    },
                    None => {},
                }
            }
            let ghost walked = current;
            match parent {
                Some(up) => {
                    current = up;
                },
                None => {
                    done = true;
                },
            }
            proof {
                before.lemma_path(index as int, walked as int);
                assert forall|j: int| 0 <= j < before.size() implies #[trigger] self.visits_below(
                    j,
                ) <= self.node(j).visits + (if !done && j == current && current != index {
                    1int
                } else {
                    0int
                }) by {
                    let children = before.node(j).children@;
                    assert(before.links_ok(j));
                    assert(entry.node(j).children == before.node(j).children);
                    assert(self.node(j).children == before.node(j).children);
                    assert forall|k: int| 0 <= k < children.len() implies self.arena@[
                        #[trigger] children[k] as int
                    ].visits == entry.arena@[children[k] as int].visits + (if children[k] == walked {
                        1int
                    } else {
                        0int
                    }) by {
                        let child = children[k] as int;
                        if child != walked {
                            assert(self.node(child) == entry.node(child));
                        }
                    }
                    lemma_visits_sum_bump(entry.arena@, self.arena@, children, walked);
                    assert(entry.visits_below(j) <= entry.node(j).visits + (if j == walked && walked
                        != index {
                        1int
                    } else {
                        0int
                    }));
                    if children.contains(walked) {
                        let k = choose|k: int| 0 <= k < children.len() && children[k] == walked;
                        assert(before.node(children[k] as int).parent == Some(j as usize));
                    }
                    if j != walked {
                        assert(self.node(j) == entry.node(j));
                    }
                }
                assert forall|i: int| 0 <= i < before.size() implies {
                    let counted = before.on_path(index as int, i) && (done || !before.on_path(
                        current as int,
                        i,
                    ));
                    &&& (#[trigger] self.node(i)).visits == before.node(i).visits + (if counted {
                        1int
                    } else {
                        0int
                    })
                    &&& self.node(i).wins == before.node(i).wins + (if counted && before.node(
                        i,
                    ).state.player_to_move != winner {
                        1int
                    } else {
                        0int
                    })
                } by {
                    let was = before.on_path(index as int, i) && !before.on_path(walked as int, i);
                    assert(entry.node(i).visits == before.node(i).visits + (if was {
                        1int
                    } else {
                        0int
                    }));
                    if i != walked {
                        assert(self.node(i) == entry.node(i));
                    }
                }
            }
        }
        proof {
            self.lemma_same_shape_links(before);
            before.lemma_path(index as int, 0);
            assert forall|i: int| 0 <= i < self.size() implies #[trigger] self.counts_ok(i) by {
                assert(before.counts_ok(i));
                assert(self.node(i).visits <= before.node(i).visits + 1);
                assert(self.node(0).visits == before.node(0).visits + 1);
                assert(self.visits_below(i) <= self.node(i).visits);
            }
            assert forall|i: int| 0 < i < self.size() implies (#[trigger] self.node(i)).visits
                >= 1 by {
                assert(self.node(i).visits >= before.node(i).visits);
                if i == index {
                    assert(before.on_path(index as int, i));
                }
            }
        }
    }

    /// One round of the search: selects a node, gives it a child if a move
    /// of it is untried and the game is not over in it, plays a random game
    /// from the child, or from the node itself if it got none, and counts
    /// the result on the way back up to the root.
    fn search_round<F: Fn(u32, u32) -> Option<u64>>(&mut self, rng: &mut StdRng, score: &F)
        requires
            old(self).wf(),
            old(self).node(0).visits < u32::MAX,
            forall|wins: u32, visits: u32| score.requires((wins, visits)),
        ensures
            final(self).wf(),
            final(self).is_round(*old(self), score),
            final(self).grown_from(*old(self)),
            final(self).node(0).visits == old(self).node(0).visits + 1,
            final(self).size() <= old(self).size() + 1,
    {
        let ghost before = *self;
        let selected: usize = self.select(score);
        let stays: bool = self.arena[selected].is_fully_expanded()
            || self.arena[selected].is_terminal();
        let target: usize = if stays {
            selected
        } else {
            self.expand(selected, rng)
        };
        let ghost grown = *self;
        proof {
            assert forall|i: int| 0 <= i < before.size() implies {
                &&& (#[trigger] grown.node(i)).state == before.node(i).state
                &&& grown.node(i).parent == before.node(i).parent
                &&& before.node(i).children@.is_prefix_of(grown.node(i).children@)
                &&& grown.node(i).unexpanded_moves@.is_prefix_of(before.node(i).unexpanded_moves@)
                &&& before.node(i).visits <= grown.node(i).visits
                &&& before.node(i).wins <= grown.node(i).wins
            } by {
                if grown.size() != before.size() && i == selected {
                    assert(grown.node(i).children@.drop_last() =~= before.node(i).children@);
                }
            }
            assert(grown.grown_from(before));
        }
        let winner: Player = self.simulate(target, rng);
        self.backpropagate(target, winner);
        proof {
            grown.lemma_path(target as int, 0);
            assert forall|i: int| 0 <= i < grown.size() implies {
                &&& (#[trigger] self.node(i)).state == grown.node(i).state
                &&& self.node(i).parent == grown.node(i).parent
                &&& grown.node(i).children@.is_prefix_of(self.node(i).children@)
                &&& self.node(i).unexpanded_moves@.is_prefix_of(grown.node(i).unexpanded_moves@)
                &&& grown.node(i).visits <= self.node(i).visits
                &&& grown.node(i).wins <= self.node(i).wins
            } by {}
            self.lemma_grown_twice(grown, before);
            assert(self.round_via(before, score, selected as int, grown, winner));
        }
    }

    /// Runs the search for about `time_budget` milliseconds and reports how
    /// many rounds it went through. The clock is read between rounds only,
    /// so the search goes through one round at least and may run over the
    /// budget by the time that one round takes. The search also ends
    /// when the count of visits of the root can grow no more.
    pub fn run_search<F: Fn(u32, u32) -> Option<u64>>(
        &mut self,
        time_budget: u128,
        rng: &mut StdRng,
        score: &F,
    ) -> (result: MctsSearchResult)
        requires
            old(self).wf(),
            forall|wins: u32, visits: u32| score.requires((wins, visits)),
        ensures
            final(self).wf(),
            final(self).is_search(*old(self), score, result.search_iterations as nat),
            final(self).grown_from(*old(self)),
            final(self).node(0).visits == old(self).node(0).visits + result.search_iterations,
            final(self).size() <= old(self).size() + result.search_iterations,
            old(self).node(0).visits < u32::MAX ==> result.search_iterations >= 1,
    {
        let ghost before = *self;
        let mut iterations: u32 = 0;
        let mut within: bool = true;
        let start: Instant = Instant::now();
        while within && self.arena[0].visits < u32::MAX
            invariant
                self.wf(),
                self.is_search(before, score, iterations as nat),
                self.grown_from(before),
                forall|wins: u32, visits: u32| score.requires((wins, visits)),
                self.node(0).visits == before.node(0).visits + iterations,
                self.size() <= before.size() + iterations,
                before.node(0).visits < u32::MAX ==> iterations >= 1 || within,
            decreases
                    (if within {
                        u32::MAX - self.node(0).visits + 1
                    } else {
                        0int
                    }),
        {
            let ghost entry = *self;
            self.search_round(rng, score);
            iterations = iterations + 1;
            proof {
                self.lemma_grown_twice(entry, before);
                self.lemma_search_step(entry, before, score, (iterations - 1) as nat);
            }
            if start.elapsed().as_millis() > time_budget {
                within = false;
            }
        }
        MctsSearchResult { search_iterations: iterations }
    }

    /// Runs the search for `rounds` rounds and reports how many it went
    /// through: all of them, unless the count of visits of the root can
    /// grow no more.
    pub fn run_iterations<F: Fn(u32, u32) -> Option<u64>>(
        &mut self,
        rounds: u32,
        rng: &mut StdRng,
        score: &F,
    ) -> (result: MctsSearchResult)
        requires
            old(self).wf(),
            forall|wins: u32, visits: u32| score.requires((wins, visits)),
        ensures
            final(self).wf(),
            final(self).is_search(*old(self), score, result.search_iterations as nat),
            final(self).grown_from(*old(self)),
            final(self).node(0).visits == old(self).node(0).visits + result.search_iterations,
            final(self).size() <= old(self).size() + result.search_iterations,
            result.search_iterations == if old(self).node(0).visits + rounds <= u32::MAX {
                rounds as int
            } else {
                u32::MAX - old(self).node(0).visits
            },
    {
        let ghost before = *self;
        let mut iterations: u32 = 0;
        while iterations < rounds && self.arena[0].visits < u32::MAX
            invariant
                self.wf(),
                self.is_search(before, score, iterations as nat),
                self.grown_from(before),
                forall|wins: u32, visits: u32| score.requires((wins, visits)),
                iterations <= rounds,
                self.node(0).visits == before.node(0).visits + iterations,
                self.size() <= before.size() + iterations,
            decreases rounds - iterations,
        {
            let ghost entry = *self;
            self.search_round(rng, score);
            iterations = iterations + 1;
            proof {
                self.lemma_grown_twice(entry, before);
                self.lemma_search_step(entry, before, score, (iterations - 1) as nat);
            }
        }
        MctsSearchResult { search_iterations: iterations }
    }

    /// The move to make: the move into the child of the root with the most
    /// visits, the first of them where several have that many. Every move
    /// of the root must have been tried.
    pub fn best_play(&self) -> (play: Play)
        requires
            self.wf(),
            self.node(0).unexpanded_moves@.len() == 0,
        ensures
            exists|place: int| #[trigger]
                self.is_most_visited(0, place) && play == self.node(
                    self.node(0).children@[place] as int,
                ).state.previous_move,
            self.node(0).state@.legal_plays().contains(play),
    {
        let mut best_visits: u32 = 0;
        let mut best_play: Play = Play(0);
        let ghost mut best_place: int = 0;
        let mut place: usize = 0;
        proof {
            self.lemma_fully_expanded(0);
            assert(self.links_ok(0));
        }
        while place < self.arena[0].children.len()
            invariant
                self.wf(),
                0 < self.size(),
                place <= self.node(0).children@.len(),
                place == 0 ==> best_visits == 0,
                place > 0 ==> {
                    &&& 0 <= best_place < place
                    &&& best_visits == self.node(self.node(0).children@[best_place] as int).visits
                    &&& best_play == self.node(
                        self.node(0).children@[best_place] as int,
                    ).state.previous_move
                    &&& forall|j: int|
                        0 <= j < place ==> self.node(
                            #[trigger] self.node(0).children@[j] as int,
                        ).visits <= best_visits
                    &&& forall|j: int|
                        0 <= j < best_place ==> self.node(
                            #[trigger] self.node(0).children@[j] as int,
                        ).visits < best_visits
                },
            decreases self.node(0).children@.len() - place,
        {
            let child: usize = self.arena[0].children[place];
            proof {
                assert(self.links_ok(0));
                assert(self.node(child as int).visits >= 1);
            }
            if self.arena[child].visits > best_visits {
                best_play = self.arena[child].state.previous_move;
                best_visits = self.arena[child].visits;
                proof {
                    best_place = place as int;
                }
            }
            place = place + 1;
        }
        proof {
            assert(self.is_most_visited(0, best_place));
            assert(best_play == self.child_moves(0)[best_place]);
        }
        best_play
    }
}

} // verus!
