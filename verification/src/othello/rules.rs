//! The rules of the game, stated over sets of cells.
//!
//! A position holds the cells of the black disks and the cells of the white
//! disks, each as a set of cell indices. The rules below say which cells
//! the side to move may play, which disks a move flips, and who has won.

use vstd::prelude::*;
use crate::othello::board::{col_step, opposite, row_step};
use crate::othello::play::{cell_index, on_board, Play, PASS};

verus! {

/// What a cell of the board holds.
#[derive(Clone, Copy, Debug, PartialEq, Eq, Structural)]
pub enum Cell {
    Empty,
    Black,
    White,
}

/// A side, or how a game stands: `Black` and `White` name the side to move
/// and the winner, `InProgress` and `Tie` are the other two outcomes.
#[derive(Clone, Copy, Debug, PartialEq, Eq, Structural)]
pub enum Player {
    Black,
    White,
    InProgress,
    Tie,
}

/// Whether `disks` has a disk on the cell at `row` and `col`. No cell off
/// the board has a disk.
pub open spec fn disk_at(disks: Set<int>, row: int, col: int) -> bool {
    on_board(row, col) && disks.contains(cell_index(row, col))
}

/// Whether a walk that starts on the cell at `row` and `col` and goes in
/// direction `dir` stays on disks of `over` until its next step lands on a
/// disk of `from`. The walk may take `reach` steps over disks of `over`
/// before that last step, so it visits at most `reach + 1` of them.
pub open spec fn trail(
    from: Set<int>,
    over: Set<int>,
    row: int,
    col: int,
    dir: int,
    reach: nat,
) -> bool
    decreases reach,
{
    let next_row = row + row_step(dir);
    let next_col = col + col_step(dir);
    disk_at(over, row, col) && (disk_at(from, next_row, next_col) || (reach > 0 && trail(
        from,
        over,
        next_row,
        next_col,
        dir,
        (reach - 1) as nat,
    )))
}

/// The longest walk over the other side's disks that a rule looks at: on a
/// board eight cells wide a line of six disks is the longest that can lie
/// between two others.
pub open spec fn reach_limit() -> nat {
    5
}

/// Whether a disk of `mine` put on the cell at `row` and `col` captures in
/// direction `dir`: the neighbour in that direction starts a line of disks
/// of `theirs` that ends before a disk of `mine`.
pub open spec fn captures_toward(
    mine: Set<int>,
    theirs: Set<int>,
    row: int,
    col: int,
    dir: int,
) -> bool {
    trail(mine, theirs, row + row_step(dir), col + col_step(dir), dir, reach_limit())
}

/// Whether the side with the disks `mine` may play the cell at `row` and
/// `col`: the cell is empty and the new disk captures in some direction.
pub open spec fn legal_at(mine: Set<int>, theirs: Set<int>, row: int, col: int) -> bool {
    &&& on_board(row, col)
    &&& !disk_at(mine, row, col)
    &&& !disk_at(theirs, row, col)
    &&& exists|dir: int| 0 <= dir < 8 && #[trigger] captures_toward(mine, theirs, row, col, dir)
}

/// Whether a disk of `mine` put on the cell `cell` flips the disk on the
/// cell at `row` and `col` in direction `dir`: the new disk captures in that
/// direction, and the disk is one of `theirs` from which a walk back over
/// disks of `theirs` reaches the new disk.
pub open spec fn flips_toward(
    mine: Set<int>,
    theirs: Set<int>,
    cell: int,
    dir: int,
    row: int,
    col: int,
) -> bool {
    &&& captures_toward(mine, theirs, cell / 8, cell % 8, dir)
    &&& trail(set![cell], theirs, row, col, opposite(dir), reach_limit())
}

/// Whether a disk of `mine` put on the cell `cell` flips the disk on the
/// cell at `row` and `col`.
pub open spec fn flips(mine: Set<int>, theirs: Set<int>, cell: int, row: int, col: int) -> bool {
    exists|dir: int| 0 <= dir < 8 && #[trigger] flips_toward(mine, theirs, cell, dir, row, col)
}

/// The cells whose disks a disk of `mine` put on the cell `cell` flips.
pub open spec fn flipped_cells(mine: Set<int>, theirs: Set<int>, cell: int) -> Set<int> {
    Set::new(|i: int| 0 <= i < 64 && flips(mine, theirs, cell, i / 8, i % 8))
}

/// The other side. Only `Black` and `White` are sides; for the sake of a
/// total definition every other value counts as `White`.
pub open spec fn other_side(side: Player) -> Player {
    if side == Player::Black {
        Player::White
    } else {
        Player::Black
    }
}

/// A position of the game.
pub struct Position {
    /// The cells of the black disks.
    pub black: Set<int>,
    /// The cells of the white disks.
    pub white: Set<int>,
    /// The side to move.
    pub to_move: Player,
    /// The move that led to the position.
    pub previous_move: Play,
}

impl Position {
    /// The position at the start of a game: black on the cells 27 and 36,
    /// white on the cells 28 and 35, black to move.
    pub open spec fn initial() -> Position {
        Position {
            black: set![27, 36],
            white: set![28, 35],
            to_move: Player::Black,
            previous_move: Play(0),
        }
    }

    /// No cell holds two disks, every disk lies on the board, and the side
    /// to move is a side.
    pub open spec fn wf(self) -> bool {
        &&& forall|i: int| self.black.contains(i) ==> 0 <= i < 64 && !self.white.contains(i)
        &&& forall|i: int| self.white.contains(i) ==> 0 <= i < 64
        &&& (self.to_move == Player::Black || self.to_move == Player::White)
        &&& self.previous_move.is_valid()
    }

    /// The disks of the side to move.
    pub open spec fn mine(self) -> Set<int> {
        if self.to_move == Player::Black {
            self.black
        } else {
            self.white
        }
    }

    /// The disks of the side that moved last.
    pub open spec fn theirs(self) -> Set<int> {
        if self.to_move == Player::Black {
            self.white
        } else {
            self.black
        }
    }

    /// What the cell at `row` and `col` holds.
    pub open spec fn cell(self, row: int, col: int) -> Cell {
        if disk_at(self.black, row, col) {
            Cell::Black
        } else if disk_at(self.white, row, col) {
            Cell::White
        } else {
            Cell::Empty
        }
    }

    /// The cells that the side to move may play.
    pub open spec fn legal_cells(self) -> Set<int> {
        Set::new(|i: int| 0 <= i < 64 && legal_at(self.mine(), self.theirs(), i / 8, i % 8))
    }

    /// Whether the side to move may play some cell.
    pub open spec fn has_moves(self) -> bool {
        exists|i: int| self.legal_cells().contains(i)
    }

    /// The legal cells below `bound`, as moves in ascending order.
    pub open spec fn plays_below(self, bound: nat) -> Seq<Play>
        decreases bound,
    {
        if bound == 0 {
            Seq::empty()
        } else if self.legal_cells().contains(bound - 1) {
            self.plays_below((bound - 1) as nat).push(Play((bound - 1) as u8))
        } else {
            self.plays_below((bound - 1) as nat)
        }
    }

    /// The moves of the side to move: the legal cells in ascending order,
    /// or the pass alone where there is none.
    pub open spec fn legal_plays(self) -> Seq<Play> {
        if self.plays_below(64).len() == 0 {
            seq![Play(PASS)]
        } else {
            self.plays_below(64)
        }
    }

    /// The cells whose disks the move `play` flips.
    pub open spec fn flipped_by(self, play: Play) -> Set<int> {
        if play.is_cell() {
            flipped_cells(self.mine(), self.theirs(), play.0 as int)
        } else {
            Set::empty()
        }
    }

    /// The position after the side to move has made the move `play`. A pass
    /// leaves every disk where it is. Any other move puts a disk of the
    /// side to move on its cell and hands that side the disks it flips.
    pub open spec fn after_play(self, play: Play) -> Position {
        let gained = if play.is_cell() {
            self.flipped_by(play).insert(play.0 as int)
        } else {
            Set::empty()
        };
        let lost = self.flipped_by(play);
        if self.to_move == Player::Black {
            Position {
                black: self.black.union(gained),
                white: self.white.difference(lost),
                to_move: Player::White,
                previous_move: play,
            }
        } else {
            Position {
                black: self.black.difference(lost),
                white: self.white.union(gained),
                to_move: Player::Black,
                previous_move: play,
            }
        }
    }

    /// Whether the side to move may make the move `play`: the pass, or a
    /// move onto a cell that it may play.
    pub open spec fn accepts(self, play: Play) -> bool {
        play.is_pass() || (play.is_cell() && self.legal_cells().contains(play.0 as int))
    }

    /// The cells that hold a disk.
    pub open spec fn occupied(self) -> Set<int> {
        self.black.union(self.white)
    }

    /// Whether every cell holds a disk.
    pub open spec fn is_full(self) -> bool {
        forall|i: int| 0 <= i < 64 ==> self.black.contains(i) || self.white.contains(i)
    }

    /// The side with more disks on the board, or `Tie`.
    pub open spec fn leader(self) -> Player {
        if self.black.len() > self.white.len() {
            Player::Black
        } else if self.white.len() > self.black.len() {
            Player::White
        } else {
            Player::Tie
        }
    }

    /// How the game stands: in progress until the board is full, then won
    /// by the side with more disks. A position in which neither side can
    /// move counts as in progress as long as a cell is empty.
    pub open spec fn outcome(self) -> Player {
        if self.is_full() {
            self.leader()
        } else {
            Player::InProgress
        }
    }
}

/// A longer reach finds whatever a shorter one finds.
pub proof fn lemma_trail_grows(
    from: Set<int>,
    over: Set<int>,
    row: int,
    col: int,
    dir: int,
    reach: nat,
    more: nat,
)
    requires
        trail(from, over, row, col, dir, reach),
        reach <= more,
    ensures
        trail(from, over, row, col, dir, more),
    decreases reach,
{
    if !disk_at(from, row + row_step(dir), col + col_step(dir)) {
        lemma_trail_grows(
            from,
            over,
            row + row_step(dir),
            col + col_step(dir),
            dir,
            (reach - 1) as nat,
            (more - 1) as nat,
        );
    }
}

/// A step and the step in the opposite direction undo each other.
pub proof fn lemma_opposite(dir: int)
    requires
        0 <= dir < 8,
    ensures
        0 <= opposite(dir) < 8,
        opposite(opposite(dir)) == dir,
        row_step(opposite(dir)) == -row_step(dir),
        col_step(opposite(dir)) == -col_step(dir),
{
}

/// If a walk back from a cell reaches the new disk on `cell`, and a walk
/// on from the same cell reaches a disk of `mine`, then the new disk
/// captures in that direction.
pub proof fn lemma_walks_meet(
    mine: Set<int>,
    theirs: Set<int>,
    cell: int,
    dir: int,
    row: int,
    col: int,
    back_reach: nat,
    on_reach: nat,
)
    requires
        0 <= cell < 64,
        0 <= dir < 8,
        trail(set![cell], theirs, row, col, opposite(dir), back_reach),
        trail(mine, theirs, row, col, dir, on_reach),
    ensures
        trail(
            mine,
            theirs,
            cell / 8 + row_step(dir),
            cell % 8 + col_step(dir),
            dir,
            back_reach + on_reach,
        ),
    decreases back_reach,
{
    let back = opposite(dir);
    let prow = row + row_step(back);
    let pcol = col + col_step(back);
    lemma_opposite(dir);
    if disk_at(set![cell], prow, pcol) {
        lemma_trail_grows(mine, theirs, row, col, dir, on_reach, back_reach + on_reach);
    } else {
        assert(trail(set![cell], theirs, prow, pcol, back, (back_reach - 1) as nat));
        assert(trail(mine, theirs, prow, pcol, dir, on_reach + 1));
        lemma_walks_meet(
            mine,
            theirs,
            cell,
            dir,
            prow,
            pcol,
            (back_reach - 1) as nat,
            on_reach + 1,
        );
    }
}

/// If a walk back from a cell reaches the new disk on `cell`, and a walk on
/// from the same cell reaches a disk of `mine`, then the walk on ends on a
/// cell, which the lemma returns, that lies before a disk of `mine` and
/// from which the walk back still reaches the new disk.
pub proof fn lemma_walk_ends(
    mine: Set<int>,
    theirs: Set<int>,
    cell: int,
    dir: int,
    row: int,
    col: int,
    back_reach: nat,
    on_reach: nat,
) -> (last: (int, int))
    requires
        0 <= cell < 64,
        0 <= dir < 8,
        trail(set![cell], theirs, row, col, opposite(dir), back_reach),
        trail(mine, theirs, row, col, dir, on_reach),
    ensures
        trail(set![cell], theirs, last.0, last.1, opposite(dir), back_reach + on_reach),
        disk_at(mine, last.0 + row_step(dir), last.1 + col_step(dir)),
    decreases on_reach,
{
    let nrow = row + row_step(dir);
    let ncol = col + col_step(dir);
    lemma_opposite(dir);
    if disk_at(mine, nrow, ncol) {
        lemma_trail_grows(
            set![cell],
            theirs,
            row,
            col,
            opposite(dir),
            back_reach,
            back_reach + on_reach,
        );
        (row, col)
    } else {
        assert(trail(mine, theirs, nrow, ncol, dir, (on_reach - 1) as nat));
        assert(trail(set![cell], theirs, nrow, ncol, opposite(dir), back_reach + 1));
        lemma_walk_ends(
            mine,
            theirs,
            cell,
            dir,
            nrow,
            ncol,
            back_reach + 1,
            (on_reach - 1) as nat,
        )
    }
}

} // verus!
