//! Moves: a cell of the board, or the pass.

use vstd::prelude::*;

verus! {

/// The value of the move that forfeits the turn.
pub const PASS: u8 = 64;

/// A move: the index of a cell, `row * 8 + col`, or `PASS`.
#[derive(Clone, Copy, Debug, PartialEq, Eq, Structural)]
pub struct Play(pub u8);

/// The index of the cell at `row` and `col`.
pub open spec fn cell_index(row: int, col: int) -> int {
    row * 8 + col
}

/// Whether `row` and `col` name a cell of the board.
pub open spec fn on_board(row: int, col: int) -> bool {
    0 <= row < 8 && 0 <= col < 8
}

impl Play {
    /// The move onto the cell at `row` and `col`.
    pub fn new(row: u8, col: u8) -> (play: Play)
        requires
            on_board(row as int, col as int),
        ensures
            play.0 as int == cell_index(row as int, col as int),
            play.is_cell(),
    {
        Play(row * 8 + col)
    }

    /// The pass.
    pub fn pass() -> (play: Play)
        ensures
            play.0 == PASS,
            play.is_pass(),
    {
        Play(PASS)
    }

    /// A move is valid when it names a cell or is the pass.
    pub open spec fn is_valid(self) -> bool {
        self.0 <= PASS
    }

    /// Whether the move names a cell.
    pub open spec fn is_cell(self) -> bool {
        self.0 < PASS
    }

    /// Whether the move is the pass.
    pub open spec fn is_pass(self) -> bool {
        self.0 == PASS
    }

    /// The row of the cell that the move names.
    pub open spec fn row(self) -> int {
        self.0 as int / 8
    }

    /// The column of the cell that the move names.
    pub open spec fn col(self) -> int {
        self.0 as int % 8
    }
}

/// The move onto the cell at `row` and `col`.
pub fn new_play(row: u8, col: u8) -> (play: Play)
    requires
        on_board(row as int, col as int),
    ensures
        play.0 as int == cell_index(row as int, col as int),
        play.is_cell(),
{
    Play::new(row, col)
}

/// Two cells of the board with the same index are the same cell.
pub proof fn lemma_cell_index_injective(row1: int, col1: int, row2: int, col2: int)
    requires
        on_board(row1, col1),
        on_board(row2, col2),
        cell_index(row1, col1) == cell_index(row2, col2),
    ensures
        row1 == row2,
        col1 == col2,
{
}

/// Every index below sixty-four is the index of exactly the cell at its row
/// and column.
pub proof fn lemma_cell_index_onto(index: int)
    requires
        0 <= index < 64,
    ensures
        on_board(index / 8, index % 8),
        cell_index(index / 8, index % 8) == index,
{
}

} // verus!
