//! What holds of every position and every move.

use vstd::prelude::*;
use vstd::set_lib::{lemma_int_range, lemma_len_subset, set_int_range};
use crate::othello::board::{col_step, opposite, row_step};
use crate::othello::play::{on_board, Play, PASS};
use crate::othello::rules::{
    captures_toward, disk_at, flips, flips_toward, legal_at, lemma_opposite, lemma_trail_grows,
    reach_limit, trail, Position,
};

verus! {

/// A move that the side to move may make leads from a well-formed
/// position to a well-formed one: afterwards, too, no cell holds a disk of
/// each side.
pub proof fn lemma_after_play_wf(position: Position, play: Play)
    requires
        position.wf(),
        position.accepts(play),
    ensures
        position.after_play(play).wf(),
{
    let after = position.after_play(play);
    if play.is_cell() {
        let q = play.0 as int;
        assert(legal_at(position.mine(), position.theirs(), q / 8, q % 8));
        assert(!position.theirs().contains(q));
    }
}

/// The position that a line of moves leads to from the start of a game.
pub open spec fn position_after(moves: Seq<Play>) -> Position
    decreases moves.len(),
{
    if moves.len() == 0 {
        Position::initial()
    } else {
        position_after(moves.drop_last()).after_play(moves.last())
    }
}

/// Whether each move of the line is one that the side to move may make in
/// the position that the moves before it lead to.
pub open spec fn is_game(moves: Seq<Play>) -> bool
    decreases moves.len(),
{
    moves.len() == 0 || (is_game(moves.drop_last()) && position_after(moves.drop_last()).accepts(
        moves.last(),
    ))
}

/// Every position that a game reaches is well formed: the two sides never
/// hold a disk on the same cell.
pub proof fn lemma_reachable_wf(moves: Seq<Play>)
    requires
        is_game(moves),
    ensures
        position_after(moves).wf(),
        forall|i: int|
            !(position_after(moves).black.contains(i) && position_after(moves).white.contains(i)),
    decreases moves.len(),
{
    if moves.len() > 0 {
        lemma_reachable_wf(moves.drop_last());
        lemma_after_play_wf(position_after(moves.drop_last()), moves.last());
    }
}

/// The pass changes the side to move and the move made last, and leaves
/// every disk where it is.
pub proof fn lemma_pass_keeps_disks(position: Position, play: Play)
    requires
        play.is_pass(),
    ensures
        position.after_play(play).black == position.black,
        position.after_play(play).white == position.white,
        position.after_play(play).to_move == crate::othello::rules::other_side(position.to_move),
        position.after_play(play).previous_move == play,
{
    let after = position.after_play(play);
    assert(after.black =~= position.black);
    assert(after.white =~= position.white);
}

/// A legal move onto a cell flips a disk of the other side: the lemma
/// returns the cell of one, which the other side held before the move and
/// the side that moved holds after it.
pub proof fn lemma_move_flips(position: Position, play: Play) -> (cell: int)
    requires
        position.wf(),
        play.is_cell(),
        position.legal_cells().contains(play.0 as int),
    ensures
        position.flipped_by(play).contains(cell),
        position.theirs().contains(cell),
        !position.mine().contains(cell),
        position.after_play(play).theirs().contains(cell),
        !position.after_play(play).mine().contains(cell),
{
    let mine = position.mine();
    let theirs = position.theirs();
    let q = play.0 as int;
    assert(legal_at(mine, theirs, q / 8, q % 8));
    let dir = choose|dir: int|
        0 <= dir < 8 && #[trigger] captures_toward(mine, theirs, q / 8, q % 8, dir);
    let row = q / 8 + row_step(dir);
    let col = q % 8 + col_step(dir);
    lemma_opposite(dir);
    assert(trail(mine, theirs, row, col, dir, reach_limit()));
    assert(disk_at(set![q], row + row_step(opposite(dir)), col + col_step(opposite(dir))));
    assert(trail(set![q], theirs, row, col, opposite(dir), 0));
    lemma_trail_grows(set![q], theirs, row, col, opposite(dir), 0, reach_limit());
    assert(flips_toward(mine, theirs, q, dir, row, col));
    let cell = row * 8 + col;
    assert(cell / 8 == row && cell % 8 == col);
    assert(flips(mine, theirs, q, cell / 8, cell % 8));
    cell
}

/// Every disk that a move flips belonged to the other side.
pub proof fn lemma_flipped_were_theirs(position: Position, play: Play, cell: int)
    requires
        position.flipped_by(play).contains(cell),
    ensures
        0 <= cell < 64,
        position.theirs().contains(cell),
{
    let mine = position.mine();
    let theirs = position.theirs();
    let q = play.0 as int;
    let dir = choose|dir: int|
        0 <= dir < 8 && #[trigger] flips_toward(mine, theirs, q, dir, cell / 8, cell % 8);
    assert(trail(set![q], theirs, cell / 8, cell % 8, opposite(dir), reach_limit()));
}

/// What `plays_below` holds: cells below the bound that the side to move
/// may play, each once, in ascending order, and none of them left out.
pub proof fn lemma_plays_below(position: Position, bound: nat)
    requires
        bound <= 64,
    ensures
        position.plays_below(bound).len() <= bound,
        forall|k: int|
            0 <= k < position.plays_below(bound).len() ==> {
                let play = #[trigger] position.plays_below(bound)[k];
                play.0 < bound && position.legal_cells().contains(play.0 as int)
            },
        forall|j: int, k: int|
            0 <= j < k < position.plays_below(bound).len() ==> position.plays_below(bound)[j].0
                < position.plays_below(bound)[k].0,
        forall|cell: int|
            0 <= cell < bound && position.legal_cells().contains(cell)
                ==> position.plays_below(bound).contains(Play(cell as u8)),
    decreases bound,
{
    if bound > 0 {
        let rest = position.plays_below((bound - 1) as nat);
        lemma_plays_below(position, (bound - 1) as nat);
        let all = position.plays_below(bound);
        assert forall|cell: int|
            0 <= cell < bound && position.legal_cells().contains(cell) implies all.contains(
            Play(cell as u8),
        ) by {
            if cell < bound - 1 {
                assert(rest.contains(Play(cell as u8)));
                let k = choose|k: int| 0 <= k < rest.len() && rest[k] == Play(cell as u8);
                assert(all[k] == Play(cell as u8));
            } else {
                assert(all[all.len() - 1] == Play(cell as u8));
            }
        }
    }
}

/// The list of moves is never empty. It holds the pass exactly when the
/// side to move may play no cell, and then nothing else; every move in it
/// is one that the side to move may make, and the moves stand in ascending
/// order.
pub proof fn lemma_legal_plays(position: Position)
    ensures
        position.legal_plays().len() >= 1,
        position.legal_plays().len() <= 64,
        (position.legal_plays() == seq![Play(PASS)]) <==> !position.has_moves(),
        position.has_moves() <==> position.legal_plays()[0].is_cell(),
        forall|k: int|
            0 <= k < position.legal_plays().len() ==> position.accepts(
                #[trigger] position.legal_plays()[k],
            ),
        forall|j: int, k: int|
            0 <= j < k < position.legal_plays().len() ==> position.legal_plays()[j].0
                < position.legal_plays()[k].0,
        forall|k: int|
            0 <= k < position.legal_plays().len() ==> ((
            #[trigger] position.legal_plays()[k]).is_pass() <==> !position.has_moves()),
{
    lemma_plays_below(position, 64);
    let cells = position.plays_below(64);
    if position.has_moves() {
        let cell = choose|i: int| position.legal_cells().contains(i);
        assert(cells.contains(Play(cell as u8)));
        assert(cells[0].0 < 64);
        assert(position.legal_plays()[0] != seq![Play(PASS)][0]);
    }
    if cells.len() > 0 {
        assert(position.legal_cells().contains(cells[0].0 as int));
    }
}

/// A well-formed position holds at most sixty-four disks.
pub proof fn lemma_occupied_bound(position: Position)
    requires
        position.wf(),
    ensures
        position.occupied().finite(),
        position.black.finite(),
        position.white.finite(),
        position.occupied().len() <= 64,
        position.occupied().len() == 64 <==> position.is_full(),
{
    lemma_int_range(0, 64);
    let all = set_int_range(0, 64);
    assert(position.occupied().subset_of(all));
    assert(position.black.subset_of(all));
    assert(position.white.subset_of(all));
    lemma_len_subset(position.occupied(), all);
    vstd::set_lib::lemma_set_subset_finite(all, position.occupied());
    vstd::set_lib::lemma_set_subset_finite(all, position.black);
    vstd::set_lib::lemma_set_subset_finite(all, position.white);
    if position.is_full() {
        assert(position.occupied() =~= all);
    }
    if position.occupied().len() == 64 {
        vstd::set_lib::lemma_subset_equality(position.occupied(), all);
        assert forall|i: int| 0 <= i < 64 implies position.black.contains(i)
            || position.white.contains(i) by {
            assert(all.contains(i));
            assert(position.occupied().contains(i));
        }
    }
}

/// A move onto a cell adds one disk to the board, and the pass adds none.
pub proof fn lemma_occupied_after(position: Position, play: Play)
    requires
        position.wf(),
        position.accepts(play),
    ensures
        play.is_cell() ==> position.after_play(play).occupied() == position.occupied().insert(
            play.0 as int,
        ),
        play.is_cell() ==> position.after_play(play).occupied().len() == position.occupied().len()
            + 1,
        play.is_pass() ==> position.after_play(play).occupied() == position.occupied(),
{
    let after = position.after_play(play);
    lemma_occupied_bound(position);
    if play.is_cell() {
        let q = play.0 as int;
        assert(legal_at(position.mine(), position.theirs(), q / 8, q % 8));
        assert forall|i: int| after.occupied().contains(i) == position.occupied().insert(
            q,
        ).contains(i) by {
            if position.flipped_by(play).contains(i) {
                lemma_flipped_were_theirs(position, play, i);
            }
        }
        assert(after.occupied() =~= position.occupied().insert(q));
        assert(!position.occupied().contains(q));
    } else {
        assert(after.occupied() =~= position.occupied());
    }
}

/// A bound on the steps that a walk from the cell at `row` and `col` can
/// take in direction `dir` before it leaves the board.
pub open spec fn room(row: int, col: int, dir: int) -> int {
    if row_step(dir) == 1 {
        7 - row
    } else if row_step(dir) == -1 {
        row
    } else if col_step(dir) == 1 {
        7 - col
    } else {
        col
    }
}

/// A walk that reaches its goal has room for its last step, and reaches
/// the goal within the room it has, however far it was allowed to go.
pub proof fn lemma_trail_room(
    from: Set<int>,
    over: Set<int>,
    row: int,
    col: int,
    dir: int,
    reach: nat,
)
    requires
        0 <= dir < 8,
        trail(from, over, row, col, dir, reach),
    ensures
        room(row, col, dir) >= 1,
        trail(from, over, row, col, dir, (room(row, col, dir) - 1) as nat),
    decreases reach,
{
    let nrow = row + row_step(dir);
    let ncol = col + col_step(dir);
    if disk_at(from, nrow, ncol) {
        lemma_trail_grows(from, over, row, col, dir, 0, (room(row, col, dir) - 1) as nat);
    } else {
        lemma_trail_room(from, over, nrow, ncol, dir, (reach - 1) as nat);
    }
}

/// The rules look far enough: a line of the other side's disks that
/// starts next to a cell of the board and ends before a disk of the side
/// to move is never longer than the walk that `captures_toward` takes.
pub proof fn lemma_reach_suffices(
    mine: Set<int>,
    theirs: Set<int>,
    row: int,
    col: int,
    dir: int,
    reach: nat,
)
    requires
        on_board(row, col),
        0 <= dir < 8,
        trail(mine, theirs, row + row_step(dir), col + col_step(dir), dir, reach),
    ensures
        captures_toward(mine, theirs, row, col, dir),
{
    let nrow = row + row_step(dir);
    let ncol = col + col_step(dir);
    lemma_trail_room(mine, theirs, nrow, ncol, dir, reach);
    lemma_trail_grows(
        mine,
        theirs,
        nrow,
        ncol,
        dir,
        (room(nrow, ncol, dir) - 1) as nat,
        reach_limit(),
    );
}

/// Where no cell holds a disk of each side, a walk on from the new disk's
/// neighbour that reaches a disk of `mine` passes every disk from which a
/// walk back reaches the new disk, and reaches the disk of `mine` from
/// there as well.
pub proof fn lemma_walk_passes(
    mine: Set<int>,
    theirs: Set<int>,
    cell: int,
    dir: int,
    row: int,
    col: int,
    back_reach: nat,
    on_reach: nat,
)
    requires
        forall|i: int| !(mine.contains(i) && theirs.contains(i)),
        0 <= cell < 64,
        0 <= dir < 8,
        trail(set![cell], theirs, row, col, opposite(dir), back_reach),
        trail(mine, theirs, cell / 8 + row_step(dir), cell % 8 + col_step(dir), dir, on_reach),
    ensures
        trail(mine, theirs, row, col, dir, on_reach),
    decreases back_reach,
{
    let back = opposite(dir);
    let prow = row + row_step(back);
    let pcol = col + col_step(back);
    lemma_opposite(dir);
    if !disk_at(set![cell], prow, pcol) {
        lemma_walk_passes(mine, theirs, cell, dir, prow, pcol, (back_reach - 1) as nat, on_reach);
        assert(trail(mine, theirs, prow, pcol, dir, on_reach));
        assert(!disk_at(mine, row, col));
        lemma_trail_grows(mine, theirs, row, col, dir, (on_reach - 1) as nat, on_reach);
    }
}

/// The rules look far enough for the disks that a move flips, too: a disk
/// of the other side flips if a walk back from it reaches the new disk and
/// the new disk captures in that direction, however long the walks are.
pub proof fn lemma_flip_reach_suffices(
    mine: Set<int>,
    theirs: Set<int>,
    cell: int,
    dir: int,
    row: int,
    col: int,
    back_reach: nat,
    on_reach: nat,
)
    requires
        forall|i: int| !(mine.contains(i) && theirs.contains(i)),
        0 <= cell < 64,
        0 <= dir < 8,
        trail(set![cell], theirs, row, col, opposite(dir), back_reach),
        trail(mine, theirs, cell / 8 + row_step(dir), cell % 8 + col_step(dir), dir, on_reach),
    ensures
        flips_toward(mine, theirs, cell, dir, row, col),
{
    let back = opposite(dir);
    lemma_opposite(dir);
    lemma_reach_suffices(mine, theirs, cell / 8, cell % 8, dir, on_reach);
    lemma_walk_passes(mine, theirs, cell, dir, row, col, back_reach, on_reach);
    lemma_trail_room(mine, theirs, row, col, dir, on_reach);
    lemma_trail_room(set![cell], theirs, row, col, back, back_reach);
    assert(room(row, col, dir) + room(row, col, back) == 7);
    lemma_trail_grows(
        set![cell],
        theirs,
        row,
        col,
        back,
        (room(row, col, back) - 1) as nat,
        reach_limit(),
    );
}

} // verus!
