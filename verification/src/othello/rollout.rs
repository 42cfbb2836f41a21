//! Random play-outs: what a line of random picks leads to.
//!
//! A play-out goes from a position to the end of the game. At each turn it
//! picks one of the moves of the side to move by its place in the list of
//! moves. It ends when the board is full, or right after a pass that
//! leaves the other side without a move as well.

use vstd::prelude::*;
use crate::othello::laws::{lemma_legal_plays, lemma_occupied_after, lemma_occupied_bound};
use crate::othello::play::Play;
use crate::othello::rules::{Player, Position};

verus! {

/// What a play-out decides right after the move `play` has been made in
/// `before`. After a pass that leaves the other side without a move the
/// game is over, and the side with more disks has won; after any other
/// move nothing is decided.
pub open spec fn verdict(before: Position, play: Play) -> Option<Player> {
    let after = before.after_play(play);
    if play.is_pass() && !after.has_moves() {
        Some(after.leader())
    } else {
        None
    }
}

/// Whether the play-out that starts in `start` and takes its moves by
/// `picks`, one pick for each turn, ends with the last pick and with the
/// result `winner`.
pub open spec fn plays_out(start: Position, picks: Seq<int>, winner: Player) -> bool
    decreases picks.len(),
{
    if start.outcome() != Player::InProgress {
        picks.len() == 0 && winner == start.outcome()
    } else if picks.len() == 0 {
        false
    } else {
        let plays = start.legal_plays();
        let pick = picks[0];
        0 <= pick < plays.len() && match verdict(start, plays[pick]) {
            Some(decided) => picks.len() == 1 && winner == decided,
            None => plays_out(start.after_play(plays[pick]), picks.drop_first(), winner),
        }
    }
}

/// How far a play-out from `position` is from its end, at most: twice the
/// number of empty cells, and one more where the side to move must pass.
pub open spec fn turns_left(position: Position) -> int {
    2 * (64 - position.occupied().len()) + if position.has_moves() {
        0int
    } else {
        1int
    }
}

/// A play-out ends with a winner or a tie, never in progress.
pub proof fn lemma_plays_out_ends(start: Position, picks: Seq<int>, winner: Player)
    requires
        plays_out(start, picks, winner),
    ensures
        winner != Player::InProgress,
    decreases picks.len(),
{
    if start.outcome() == Player::InProgress {
        let plays = start.legal_plays();
        let pick = picks[0];
        if verdict(start, plays[pick]) is None {
            lemma_plays_out_ends(start.after_play(plays[pick]), picks.drop_first(), winner);
        }
    }
}

/// The position and the picks decide the result: two play-outs from the
/// same position that take the same picks end alike.
pub proof fn lemma_plays_out_deterministic(
    start: Position,
    picks: Seq<int>,
    first: Player,
    second: Player,
)
    requires
        plays_out(start, picks, first),
        plays_out(start, picks, second),
    ensures
        first == second,
    decreases picks.len(),
{
    if start.outcome() == Player::InProgress {
        let plays = start.legal_plays();
        let pick = picks[0];
        if verdict(start, plays[pick]) is None {
            lemma_plays_out_deterministic(
                start.after_play(plays[pick]),
                picks.drop_first(),
                first,
                second,
            );
        }
    }
}

/// A play-out that goes on after the pick `pick` ends as the play-out from
/// the next position does.
pub proof fn lemma_plays_out_step(start: Position, pick: int, rest: Seq<int>, winner: Player)
    requires
        start.outcome() == Player::InProgress,
        0 <= pick < start.legal_plays().len(),
        verdict(start, start.legal_plays()[pick]) is None,
        plays_out(start.after_play(start.legal_plays()[pick]), rest, winner),
    ensures
        plays_out(start, seq![pick] + rest, winner),
{
    let picks = seq![pick] + rest;
    assert(picks[0] == pick);
    assert(picks.drop_first() =~= rest);
}

/// Each turn of a play-out that goes on brings it nearer to its end.
pub proof fn lemma_turns_left(start: Position, pick: int)
    requires
        start.wf(),
        start.outcome() == Player::InProgress,
        0 <= pick < start.legal_plays().len(),
        verdict(start, start.legal_plays()[pick]) is None,
    ensures
        0 <= turns_left(start.after_play(start.legal_plays()[pick])) < turns_left(start),
{
    let play = start.legal_plays()[pick];
    let after = start.after_play(play);
    lemma_legal_plays(start);
    lemma_occupied_after(start, play);
    lemma_occupied_bound(start);
    crate::othello::laws::lemma_after_play_wf(start, play);
    lemma_occupied_bound(after);
}

/// From every well-formed position some play-out comes to an end: the
/// lemma returns the picks and the result of the one that takes the first
/// move of the list at each turn.
pub proof fn lemma_play_out_exists(start: Position) -> (found: (Seq<int>, Player))
    requires
        start.wf(),
    ensures
        plays_out(start, found.0, found.1),
    decreases turns_left(start),
{
    lemma_occupied_bound(start);
    if start.outcome() != Player::InProgress {
        (Seq::empty(), start.outcome())
    } else {
        let play = start.legal_plays()[0];
        lemma_legal_plays(start);
        match verdict(start, play) {
            Some(decided) => {
                let picks = seq![0int];
                assert(picks.drop_first() =~= Seq::<int>::empty());
                (picks, decided)
            },
            None => {
                lemma_turns_left(start, 0);
                crate::othello::laws::lemma_after_play_wf(start, play);
                let rest = lemma_play_out_exists(start.after_play(play));
                lemma_plays_out_step(start, 0, rest.0, rest.1);
                (seq![0int] + rest.0, rest.1)
            },
        }
    }
}

} // verus!
