//! Masks of cells, and how a mask moves one step over the board.
//!
//! A mask holds one bit for each cell, bit `row * 8 + col` for the cell at
//! `row` and `col`. There are eight directions, numbered from 0 to 7; a
//! step in direction `dir` adds `row_step(dir)` to the row and
//! `col_step(dir)` to the column.

use vstd::prelude::*;
use crate::othello::bits::{bit, lemma_bitwise, lemma_nonzero_bit};
use crate::othello::play::{cell_index, on_board};

verus! {

/// What a step in direction `dir` adds to the row.
pub open spec fn row_step(dir: int) -> int {
    if dir == 1 || dir == 2 || dir == 3 {
        -1
    } else if dir == 5 || dir == 6 || dir == 7 {
        1
    } else {
        0
    }
}

/// What a step in direction `dir` adds to the column.
pub open spec fn col_step(dir: int) -> int {
    if dir == 0 || dir == 1 || dir == 7 {
        -1
    } else if dir == 3 || dir == 4 || dir == 5 {
        1
    } else {
        0
    }
}

/// The direction that undoes a step in direction `dir`.
pub open spec fn opposite(dir: int) -> int {
    if dir < 4 {
        dir + 4
    } else {
        dir - 4
    }
}

/// Whether `mask` holds the cell at `row` and `col`. No mask holds a cell
/// that lies off the board.
pub open spec fn holds(mask: u64, row: int, col: int) -> bool {
    on_board(row, col) && bit(mask, cell_index(row, col))
}

/// The cells that `mask` holds, as a set of cell indices.
pub open spec fn cells_of(mask: u64) -> Set<int> {
    Set::new(|index: int| bit(mask, index))
}

/// A mask is known by the cells it holds: two masks that hold the same
/// cells are the same mask.
pub proof fn lemma_cells_of_injective(first: u64, second: u64)
    requires
        cells_of(first) == cells_of(second),
    ensures
        first == second,
{
    if first != second {
        let differ = first ^ second;
        assert(first != second ==> first ^ second != 0) by (bit_vector);
        let index = lemma_nonzero_bit(differ);
        lemma_bitwise(first, second, index);
        assert(cells_of(first).contains(index) == bit(first, index));
        assert(cells_of(second).contains(index) == bit(second, index));
    }
}

/// The mask `disks` moved one step in direction `dir`, without the cells
/// that the step takes off the board.
pub open spec fn shifted(disks: u64, dir: int) -> u64 {
    if dir == 0 {
        (disks >> 1) & 0x7F7F7F7F7F7F7F7F
    } else if dir == 1 {
        (disks >> 9) & 0x007F7F7F7F7F7F7F
    } else if dir == 2 {
        disks >> 8
    } else if dir == 3 {
        (disks >> 7) & 0x00FEFEFEFEFEFEFE
    } else if dir == 4 {
        (disks << 1) & 0xFEFEFEFEFEFEFEFE
    } else if dir == 5 {
        (disks << 9) & 0xFEFEFEFEFEFEFE00
    } else if dir == 6 {
        disks << 8
    } else {
        (disks << 7) & 0x7F7F7F7F7F7F7F00
    }
}

proof fn lemma_shifted_raw(x: u64, i: u64)
    by (bit_vector)
    requires
        i < 64,
    ensures
        ((((x >> 1) & 0x7F7F7F7F7F7F7F7F) >> i) & 1 == 1) == (i % 8 != 7 && ((x >> ((i + 1) as u64))
            & 1 == 1)),
        ((((x >> 9) & 0x007F7F7F7F7F7F7F) >> i) & 1 == 1) == (i % 8 != 7 && i < 56 && ((x >> ((i
            + 9) as u64)) & 1 == 1)),
        (((x >> 8) >> i) & 1 == 1) == (i < 56 && ((x >> ((i + 8) as u64)) & 1 == 1)),
        ((((x >> 7) & 0x00FEFEFEFEFEFEFE) >> i) & 1 == 1) == (i % 8 != 0 && i < 56 && ((x >> ((i
            + 7) as u64)) & 1 == 1)),
        ((((x << 1) & 0xFEFEFEFEFEFEFEFE) >> i) & 1 == 1) == (i % 8 != 0 && ((x >> ((i - 1) as u64))
            & 1 == 1)),
        ((((x << 9) & 0xFEFEFEFEFEFEFE00) >> i) & 1 == 1) == (i % 8 != 0 && i >= 8 && ((x >> ((i
            - 9) as u64)) & 1 == 1)),
        (((x << 8) >> i) & 1 == 1) == (i >= 8 && ((x >> ((i - 8) as u64)) & 1 == 1)),
        ((((x << 7) & 0x7F7F7F7F7F7F7F00) >> i) & 1 == 1) == (i % 8 != 7 && i >= 8 && ((x >> ((i
            - 7) as u64)) & 1 == 1)),
{
}

/// After a step in direction `dir` the mask holds a cell exactly when it
/// held, before the step, the cell that lies one step back.
pub proof fn lemma_shifted(disks: u64, dir: int, row: int, col: int)
    requires
        0 <= dir < 8,
        on_board(row, col),
    ensures
        holds(shifted(disks, dir), row, col) == holds(
            disks,
            row - row_step(dir),
            col - col_step(dir),
        ),
{
    lemma_shifted_raw(disks, cell_index(row, col) as u64);
}

/// What `&`, `|` and `!` do to the cells that a mask holds.
pub proof fn lemma_holds_bitwise(a: u64, b: u64, row: int, col: int)
    requires
        on_board(row, col),
    ensures
        holds(a & b, row, col) == (holds(a, row, col) && holds(b, row, col)),
        holds(a | b, row, col) == (holds(a, row, col) || holds(b, row, col)),
        holds(a ^ b, row, col) == (holds(a, row, col) != holds(b, row, col)),
        holds(!a, row, col) == !holds(a, row, col),
        !holds(0, row, col),
{
    lemma_bitwise(a, b, cell_index(row, col));
}

/// Moves `disks` one step in direction `dir`. A disk that the step would
/// carry over an edge of the board is dropped, so no disk wraps round into
/// a neighbouring row.
pub fn shift(disks: u64, dir: u8) -> (moved: u64)
    requires
        dir < 8,
    ensures
        moved == shifted(disks, dir as int),
        forall|row: int, col: int|
            on_board(row, col) ==> (#[trigger] holds(moved, row, col) == holds(
                disks,
                row - row_step(dir as int),
                col - col_step(dir as int),
            )),
{
    proof {
        assert forall|row: int, col: int| on_board(row, col) implies (#[trigger] holds(
            shifted(disks, dir as int),
            row,
            col,
        ) == holds(disks, row - row_step(dir as int), col - col_step(dir as int))) by {
            lemma_shifted(disks, dir as int, row, col);
        }
    }
    if dir == 0 {
        (disks >> 1) & 0x7F7F7F7F7F7F7F7F
    } else if dir == 1 {
        (disks >> 9) & 0x007F7F7F7F7F7F7F
    } else if dir == 2 {
        disks >> 8
    } else if dir == 3 {
        (disks >> 7) & 0x00FEFEFEFEFEFEFE
    } else if dir == 4 {
        (disks << 1) & 0xFEFEFEFEFEFEFEFE
    } else if dir == 5 {
        (disks << 9) & 0xFEFEFEFEFEFEFE00
    } else if dir == 6 {
        disks << 8
    } else {
        (disks << 7) & 0x7F7F7F7F7F7F7F00
    }
}

/// The cells below `bound` that `mask` holds.
pub open spec fn cells_below(mask: u64, bound: int) -> Set<int> {
    Set::new(|index: int| index < bound && bit(mask, index))
}

/// The number of cells that `mask` holds.
pub fn count_disks(mask: u64) -> (count: u32)
    ensures
        cells_of(mask).finite(),
        count == cells_of(mask).len(),
        count <= 64,
{
    let mut count: u32 = 0;
    let mut index: u32 = 0;
    proof {
        assert(cells_below(mask, 0) =~= Set::empty());
    }
    while index < 64
        invariant
            index <= 64,
            cells_below(mask, index as int).finite(),
            count == cells_below(mask, index as int).len(),
            count <= index,
        decreases 64 - index,
    {
        let set: bool = (mask >> (index as u64)) & 1 == 1;
        proof {
            let before = cells_below(mask, index as int);
            let after = cells_below(mask, index + 1);
            if set {
                assert(after =~= before.insert(index as int));
            } else {
                assert(after =~= before);
            }
        }
        if set {
            count = count + 1;
        }
        index = index + 1;
    }
    proof {
        assert(cells_below(mask, 64) =~= cells_of(mask));
    }
    count
}

} // verus!
