//! The board as two masks, with move generation and capture.

use vstd::prelude::*;
use crate::othello::bits::{
    bit, lemma_bit_nonzero, lemma_bitwise, lemma_no_bit_zero, lemma_nonzero_bit, lemma_single,
    single,
};
use crate::othello::board::{
    cells_of, col_step, count_disks, holds, lemma_cells_of_injective, lemma_holds_bitwise,
    opposite, row_step, shift,
};
use crate::othello::laws::{lemma_legal_plays, lemma_move_flips};
use crate::othello::play::{cell_index, new_play, on_board, Play, PASS};
use crate::othello::rollout::verdict;
use crate::othello::rules::{
    captures_toward, disk_at, flipped_cells, flips_toward, legal_at, lemma_opposite,
    lemma_trail_grows, lemma_walk_ends, lemma_walks_meet, other_side, reach_limit, trail, Cell,
    Player, Position,
};

verus! {

/// A game of Othello: the disks of each side as a mask of cells, the side
/// to move, and the move made last.
#[derive(Clone, Copy, Debug)]
pub struct Game {
    /// The cells of the black disks.
    pub black_pieces: u64,
    /// The cells of the white disks.
    pub white_pieces: u64,
    /// The side to move.
    pub player_to_move: Player,
    /// The move made last.
    pub previous_move: Play,
}

impl View for Game {
    type V = Position;

    open spec fn view(&self) -> Position {
        Position {
            black: cells_of(self.black_pieces),
            white: cells_of(self.white_pieces),
            to_move: self.player_to_move,
            previous_move: self.previous_move,
        }
    }
}

impl Default for Game {
    /// The game at its start.
    fn default() -> (game: Game)
        ensures
            game.wf(),
            game@ == Position::initial(),
    {
        Game::new()
    }
}

/// The disks next to a disk of `start`, in direction `dir`, and those
/// behind them: every cell of `through` from which a walk back against
/// `dir`, over cells of `through`, comes upon a cell of `start` within six
/// steps.
pub fn facing_run(start: u64, through: u64, dir: u8) -> (run: u64)
    requires
        dir < 8,
    ensures
        forall|row: int, col: int|
            on_board(row, col) ==> (#[trigger] holds(run, row, col) == trail(
                cells_of(start),
                cells_of(through),
                row,
                col,
                opposite(dir as int),
                reach_limit(),
            )),
{
    let ghost from = cells_of(start);
    let ghost over = cells_of(through);
    let ghost back = opposite(dir as int);
    let first: u64 = shift(start, dir);
    let mut run: u64 = first & through;
    proof {
        assert forall|row: int, col: int| on_board(row, col) implies (#[trigger] holds(
            run,
            row,
            col,
        ) == trail(from, over, row, col, back, 0)) by {
            lemma_holds_bitwise(first, through, row, col);
            assert(holds(first, row, col) == holds(
                start,
                row - row_step(dir as int),
                col - col_step(dir as int),
            ));
        }
    }
    let mut step: u8 = 0;
    while step < 5
        invariant
            dir < 8,
            step <= 5,
            from == cells_of(start),
            over == cells_of(through),
            back == opposite(dir as int),
            forall|row: int, col: int|
                on_board(row, col) ==> (#[trigger] holds(run, row, col) == trail(
                    from,
                    over,
                    row,
                    col,
                    back,
                    step as nat,
                )),
        decreases 5 - step,
    {
        let moved: u64 = shift(run, dir);
        let longer: u64 = run | (moved & through);
        proof {
            assert forall|row: int, col: int| on_board(row, col) implies (#[trigger] holds(
                longer,
                row,
                col,
            ) == trail(from, over, row, col, back, (step + 1) as nat)) by {
                let prow = row + row_step(back);
                let pcol = col + col_step(back);
                lemma_holds_bitwise(run, moved & through, row, col);
                lemma_holds_bitwise(moved, through, row, col);
                assert(holds(moved, row, col) == holds(run, prow, pcol));
                assert(holds(run, row, col) == trail(from, over, row, col, back, step as nat));
                if on_board(prow, pcol) {
                    assert(holds(run, prow, pcol) == trail(
                        from,
                        over,
                        prow,
                        pcol,
                        back,
                        step as nat,
                    ));
                }
                assert(trail(from, over, row, col, back, (step + 1) as nat) == (disk_at(
                    over,
                    row,
                    col,
                ) && (disk_at(from, prow, pcol) || trail(
                    from,
                    over,
                    prow,
                    pcol,
                    back,
                    step as nat,
                ))));
                assert(disk_at(over, row, col) == holds(through, row, col));
                if trail(from, over, row, col, back, step as nat) {
                    lemma_trail_grows(from, over, row, col, back, step as nat, (step + 1) as nat);
                }
                if disk_at(over, row, col) && disk_at(from, prow, pcol) {
                    assert(trail(from, over, row, col, back, 0));
                    lemma_trail_grows(from, over, row, col, back, 0, step as nat);
                }
            }
        }
        run = longer;
        step = step + 1;
    }
    run
}

/// The mask of a single cell holds that cell alone.
pub proof fn lemma_cells_of_single(cell: int)
    requires
        0 <= cell < 64,
    ensures
        cells_of(single(cell)) == set![cell],
{
    assert forall|i: int| cells_of(single(cell)).contains(i) == set![cell].contains(i) by {
        if 0 <= i < 64 {
            lemma_single(cell, i);
        }
    }
    assert(cells_of(single(cell)) =~= set![cell]);
}

/// Whether a disk of `mine` put on the cell `cell` captures in direction
/// `dir`, and the line of disks of `theirs` that starts next to that cell.
fn captured_toward(mine: u64, theirs: u64, cell: u8, dir: u8) -> (found: (bool, u64))
    requires
        cell < 64,
        dir < 8,
    ensures
        found.0 == captures_toward(
            cells_of(mine),
            cells_of(theirs),
            cell as int / 8,
            cell as int % 8,
            dir as int,
        ),
        forall|row: int, col: int|
            on_board(row, col) ==> (#[trigger] holds(found.1, row, col) == trail(
                set![cell as int],
                cells_of(theirs),
                row,
                col,
                opposite(dir as int),
                reach_limit(),
            )),
{
    let ghost m = cells_of(mine);
    let ghost t = cells_of(theirs);
    let ghost q = cell as int;
    let ghost d = dir as int;
    let ghost back = opposite(d);
    let new_disk: u64 = 1u64 << (cell as u64);
    let run: u64 = facing_run(new_disk, theirs, dir);
    let beyond: u64 = shift(run, dir);
    let bounding: u64 = beyond & mine;
    proof {
        lemma_cells_of_single(q);
        lemma_opposite(d);
        if bounding != 0 {
            let u = lemma_nonzero_bit(bounding);
            let urow = u / 8;
            let ucol = u % 8;
            let vrow = urow - row_step(d);
            let vcol = ucol - col_step(d);
            assert(holds(bounding, urow, ucol));
            lemma_holds_bitwise(beyond, mine, urow, ucol);
            assert(holds(beyond, urow, ucol) == holds(run, vrow, vcol));
            assert(holds(run, vrow, vcol));
            assert(trail(set![q], t, vrow, vcol, back, reach_limit()));
            assert(disk_at(m, vrow + row_step(d), vcol + col_step(d)));
            assert(trail(m, t, vrow, vcol, d, 0));
            lemma_walks_meet(m, t, q, d, vrow, vcol, reach_limit(), 0);
        }
        if captures_toward(m, t, q / 8, q % 8, d) {
            let srow = q / 8 + row_step(d);
            let scol = q % 8 + col_step(d);
            assert(disk_at(set![q], srow + row_step(back), scol + col_step(back)));
            assert(trail(set![q], t, srow, scol, back, 0));
            let last = lemma_walk_ends(m, t, q, d, srow, scol, 0, reach_limit());
            let urow = last.0 + row_step(d);
            let ucol = last.1 + col_step(d);
            assert(holds(run, last.0, last.1));
            assert(holds(beyond, urow, ucol) == holds(run, urow - row_step(d), ucol - col_step(d)));
            lemma_holds_bitwise(beyond, mine, urow, ucol);
            assert(holds(bounding, urow, ucol));
            lemma_bit_nonzero(bounding, cell_index(urow, ucol));
        }
    }
    (bounding != 0, run)
}

/// The disks of `theirs` that a disk of `mine` put on the cell `cell` flips.
pub fn captured_disks(mine: u64, theirs: u64, cell: u8) -> (captured: u64)
    requires
        cell < 64,
    ensures
        cells_of(captured) == flipped_cells(cells_of(mine), cells_of(theirs), cell as int),
{
    let ghost m = cells_of(mine);
    let ghost t = cells_of(theirs);
    let ghost q = cell as int;
    let mut captured: u64 = 0;
    let mut dir: u8 = 0;
    proof {
        assert forall|row: int, col: int| on_board(row, col) implies !(#[trigger] holds(
            captured,
            row,
            col,
        )) by {
            lemma_holds_bitwise(0, 0, row, col);
        }
    }
    while dir < 8
        invariant
            dir <= 8,
            cell < 64,
            m == cells_of(mine),
            t == cells_of(theirs),
            q == cell as int,
            forall|row: int, col: int|
                on_board(row, col) ==> (#[trigger] holds(captured, row, col) <==> exists|seen: int|
                    0 <= seen < dir && #[trigger] flips_toward(m, t, q, seen, row, col)),
        decreases 8 - dir,
    {
        let found = captured_toward(mine, theirs, cell, dir);
        let more: u64 = if found.0 {
            captured | found.1
        } else {
            captured
        };
        proof {
            assert forall|row: int, col: int| on_board(row, col) implies (#[trigger] holds(
                more,
                row,
                col,
            ) <==> exists|seen: int|
                0 <= seen < dir + 1 && #[trigger] flips_toward(m, t, q, seen, row, col)) by {
                lemma_holds_bitwise(captured, found.1, row, col);
                assert(flips_toward(m, t, q, dir as int, row, col) == (found.0 && holds(
                    found.1,
                    row,
                    col,
                )));
            }
        }
        captured = more;
        dir = dir + 1;
    }
    proof {
        assert forall|i: int| cells_of(captured).contains(i) == flipped_cells(m, t, q).contains(
            i,
        ) by {
            if 0 <= i < 64 {
                assert(holds(captured, i / 8, i % 8) == bit(captured, i));
            }
        }
        assert(cells_of(captured) =~= flipped_cells(m, t, q));
    }
    captured
}

impl Game {
    /// The masks hold no cell in common, the side to move is a side, and
    /// the move made last is a move.
    pub open spec fn wf(&self) -> bool {
        &&& self.black_pieces & self.white_pieces == 0
        &&& (self.player_to_move == Player::Black || self.player_to_move == Player::White)
        &&& self.previous_move.is_valid()
    }

    /// The mask of the side to move.
    pub open spec fn own_mask(&self) -> u64 {
        if self.player_to_move == Player::Black {
            self.black_pieces
        } else {
            self.white_pieces
        }
    }

    /// The mask of the side that moved last.
    pub open spec fn other_mask(&self) -> u64 {
        if self.player_to_move == Player::Black {
            self.white_pieces
        } else {
            self.black_pieces
        }
    }

    /// A well-formed game shows a well-formed position.
    pub proof fn lemma_view_wf(&self)
        requires
            self.wf(),
        ensures
            self@.wf(),
            self@.mine() == cells_of(self.own_mask()),
            self@.theirs() == cells_of(self.other_mask()),
    {
        assert forall|i: int| self@.black.contains(i) implies 0 <= i < 64 && !self@.white.contains(
            i,
        ) by {
            lemma_bitwise(self.black_pieces, self.white_pieces, i);
        }
    }

    /// A game is known by the position it shows: two games that show the
    /// same position are the same game.
    pub proof fn lemma_view_injective(&self, other: Game)
        requires
            self@ == other@,
        ensures
            *self == other,
    {
        lemma_cells_of_injective(self.black_pieces, other.black_pieces);
        lemma_cells_of_injective(self.white_pieces, other.white_pieces);
    }

    /// The game at its start: two disks of each side on the four cells in
    /// the middle, black on the diagonal that runs down and to the right,
    /// and black to move.
    pub fn new() -> (game: Game)
        ensures
            game.wf(),
            game@ == Position::initial(),
    {
        let black: u64 = (1u64 << (new_play(3, 3).0 as u64)) | (1u64 << (new_play(4, 4).0 as u64));
        let white: u64 = (1u64 << (new_play(3, 4).0 as u64)) | (1u64 << (new_play(4, 3).0 as u64));
        let game = Game {
            black_pieces: black,
            white_pieces: white,
            player_to_move: Player::Black,
            previous_move: Play(0),
        };
        proof {
            assert forall|i: int| 0 <= i < 64 implies (#[trigger] bit(black, i) == (i == 27 || i
                == 36)) by {
                lemma_bitwise(single(27), single(36), i);
                lemma_single(27, i);
                lemma_single(36, i);
            }
            assert forall|i: int| 0 <= i < 64 implies (#[trigger] bit(white, i) == (i == 28 || i
                == 35)) by {
                lemma_bitwise(single(28), single(35), i);
                lemma_single(28, i);
                lemma_single(35, i);
            }
            assert forall|i: int| 0 <= i < 64 implies !bit(black & white, i) by {
                lemma_bitwise(black, white, i);
            }
            lemma_no_bit_zero(black & white);
            assert(game@.black =~= Position::initial().black);
            assert(game@.white =~= Position::initial().white);
        }
        game
    }

    /// The list of moves is the pass alone exactly when the mask of the
    /// cells that the side to move may play is zero.
    pub proof fn lemma_pass_iff_no_plays(&self, plays: u64)
        requires
            cells_of(plays) == self@.legal_cells(),
        ensures
            self@.legal_plays().len() >= 1,
            (self@.legal_plays() == seq![Play(PASS)]) <==> plays == 0,
    {
        lemma_legal_plays(self@);
        if plays != 0 {
            let index = lemma_nonzero_bit(plays);
            assert(cells_of(plays).contains(index));
        }
        if self@.has_moves() {
            let index = choose|i: int| self@.legal_cells().contains(i);
            assert(cells_of(plays).contains(index));
            lemma_bit_nonzero(plays, index);
        }
    }

    /// The cells that the side to move may play, as a mask.
    pub fn generate_plays_bitfield(&self) -> (plays: u64)
        requires
            self.wf(),
        ensures
            cells_of(plays) == self@.legal_cells(),
    {
        let mine: u64 = if self.player_to_move == Player::Black {
            self.black_pieces
        } else {
            self.white_pieces
        };
        let theirs: u64 = if self.player_to_move == Player::Black {
            self.white_pieces
        } else {
            self.black_pieces
        };
        let empty: u64 = !(mine | theirs);
        let mut plays: u64 = 0;
        let mut dir: u8 = 0;
        proof {
            self.lemma_view_wf();
            assert forall|row: int, col: int| on_board(row, col) implies !(#[trigger] holds(
                plays,
                row,
                col,
            )) by {
                lemma_holds_bitwise(0, 0, row, col);
            }
        }
        while dir < 8
            invariant
                dir <= 8,
                empty == !(mine | theirs),
                forall|row: int, col: int|
                    on_board(row, col) ==> (#[trigger] holds(plays, row, col) <==> (!holds(
                        mine,
                        row,
                        col,
                    ) && !holds(theirs, row, col) && exists|seen: int|
                        0 <= seen < dir && #[trigger] captures_toward(
                            cells_of(mine),
                            cells_of(theirs),
                            row,
                            col,
                            opposite(seen),
                        ))),
            decreases 8 - dir,
        {
            let run: u64 = facing_run(mine, theirs, dir);
            let landing: u64 = shift(run, dir);
            let found: u64 = plays | (landing & empty);
            proof {
                let back = opposite(dir as int);
                assert forall|row: int, col: int| on_board(row, col) implies (#[trigger] holds(
                    found,
                    row,
                    col,
                ) <==> (!holds(mine, row, col) && !holds(theirs, row, col) && exists|seen: int|
                    0 <= seen < dir + 1 && #[trigger] captures_toward(
                        cells_of(mine),
                        cells_of(theirs),
                        row,
                        col,
                        opposite(seen),
                    ))) by {
                    let prow = row + row_step(back);
                    let pcol = col + col_step(back);
                    lemma_holds_bitwise(plays, landing & empty, row, col);
                    lemma_holds_bitwise(landing, empty, row, col);
                    lemma_holds_bitwise(mine | theirs, 0, row, col);
                    lemma_holds_bitwise(mine, theirs, row, col);
                    assert(holds(landing, row, col) == holds(run, prow, pcol));
                    if on_board(prow, pcol) {
                        assert(holds(run, prow, pcol) == trail(
                            cells_of(mine),
                            cells_of(theirs),
                            prow,
                            pcol,
                            back,
                            reach_limit(),
                        ));
                    }
                    assert(holds(run, prow, pcol) == captures_toward(
                        cells_of(mine),
                        cells_of(theirs),
                        row,
                        col,
                        opposite(dir as int),
                    ));
                }
            }
            plays = found;
            dir = dir + 1;
        }
        proof {
            let ghost m = cells_of(mine);
            let ghost t = cells_of(theirs);
            assert forall|i: int| cells_of(plays).contains(i) == self@.legal_cells().contains(
                i,
            ) by {
                if 0 <= i < 64 {
                    let row = i / 8;
                    let col = i % 8;
                    assert(holds(plays, row, col) == bit(plays, i));
                    if holds(plays, row, col) {
                        let seen = choose|seen: int|
                            0 <= seen < 8 && #[trigger] captures_toward(
                                m,
                                t,
                                row,
                                col,
                                opposite(seen),
                            );
                        assert(captures_toward(m, t, row, col, opposite(seen)));
                        assert(legal_at(m, t, row, col));
                    }
                    if legal_at(m, t, row, col) {
                        let toward = choose|toward: int|
                            0 <= toward < 8 && #[trigger] captures_toward(m, t, row, col, toward);
                        assert(opposite(opposite(toward)) == toward);
                        assert(captures_toward(m, t, row, col, opposite(opposite(toward))));
                        assert(holds(plays, row, col));
                    }
                }
            }
            assert(cells_of(plays) =~= self@.legal_cells());
        }
        plays
    }

    /// The moves of the side to move: the cells it may play in ascending
    /// order, or the pass alone where it may play none.
    pub fn generate_plays(&self) -> (plays: Vec<Play>)
        requires
            self.wf(),
        ensures
            plays@ == self@.legal_plays(),
            plays@.len() >= 1,
    {
        let mask: u64 = self.generate_plays_bitfield();
        let mut plays: Vec<Play> = Vec::new();
        let mut index: u8 = 0;
        while index < 64
            invariant
                index <= 64,
                cells_of(mask) == self@.legal_cells(),
                plays@ == self@.plays_below(index as nat),
            decreases 64 - index,
        {
            let set: bool = (mask >> (index as u64)) & 1 == 1;
            proof {
                assert(cells_of(mask).contains(index as int) == bit(mask, index as int));
            }
            if set {
                plays.push(Play(index));
            }
            index = index + 1;
        }
        if plays.len() == 0 {
            plays.push(Play(PASS));
        }
        plays
    }

    /// Whether the side to move may play some cell.
    pub fn has_valid_plays(&self) -> (any: bool)
        requires
            self.wf(),
        ensures
            any == self@.has_moves(),
    {
        let mask: u64 = self.generate_plays_bitfield();
        proof {
            if mask != 0 {
                let index = lemma_nonzero_bit(mask);
                assert(cells_of(mask).contains(index));
            }
            if self@.has_moves() {
                let index = choose|i: int| self@.legal_cells().contains(i);
                assert(cells_of(mask).contains(index));
                lemma_bit_nonzero(mask, index);
            }
        }
        mask != 0
    }

    /// Whether the side to move may play the cell that `play` names. The
    /// pass names no cell.
    pub fn is_valid_play(&self, play: Play) -> (legal: bool)
        requires
            self.wf(),
        ensures
            legal == (play.is_cell() && self@.legal_cells().contains(play.0 as int)),
    {
        if play.0 >= PASS {
            return false;
        }
        let mask: u64 = self.generate_plays_bitfield();
        proof {
            assert(cells_of(mask).contains(play.0 as int) == bit(mask, play.0 as int));
        }
        (mask >> (play.0 as u64)) & 1 == 1
    }

    /// What the cell at `row` and `col` holds.
    pub fn cell_state(&self, row: u8, col: u8) -> (cell: Cell)
        requires
            on_board(row as int, col as int),
        ensures
            cell == self@.cell(row as int, col as int),
    {
        let index: u8 = new_play(row, col).0;
        proof {
            assert(cells_of(self.black_pieces).contains(index as int) == bit(
                self.black_pieces,
                index as int,
            ));
            assert(cells_of(self.white_pieces).contains(index as int) == bit(
                self.white_pieces,
                index as int,
            ));
        }
        if (self.black_pieces >> (index as u64)) & 1 == 1 {
            Cell::Black
        } else if (self.white_pieces >> (index as u64)) & 1 == 1 {
            Cell::White
        } else {
            Cell::Empty
        }
    }

    /// How the game stands: in progress while a cell is empty, then won by
    /// the side with more disks, or tied.
    pub fn game_state(&self) -> (state: Player)
        ensures
            state == self@.outcome(),
    {
        let empty: u64 = !(self.black_pieces | self.white_pieces);
        proof {
            let both = self.black_pieces | self.white_pieces;
            assert forall|i: int| 0 <= i < 64 implies (bit(empty, i) == !(
            self@.black.contains(i) || self@.white.contains(i))) by {
                lemma_bitwise(both, 0, i);
                lemma_bitwise(self.black_pieces, self.white_pieces, i);
            }
            if empty != 0 {
                let index = lemma_nonzero_bit(empty);
                assert(!self@.is_full());
            } else {
                assert forall|i: int| 0 <= i < 64 implies self@.black.contains(i)
                    || self@.white.contains(i) by {
                    lemma_bitwise(empty, 0, i);
                    assert(!bit(empty, i));
                }
            }
        }
        if empty != 0 {
            Player::InProgress
        } else {
            self.leader()
        }
    }

    /// The side with more disks on the board, or `Tie`.
    pub fn leader(&self) -> (side: Player)
        ensures
            side == self@.leader(),
    {
        let black_count: u32 = count_disks(self.black_pieces);
        let white_count: u32 = count_disks(self.white_pieces);
        if black_count > white_count {
            Player::Black
        } else if white_count > black_count {
            Player::White
        } else {
            Player::Tie
        }
    }

    /// Puts the disk of the move `play` on the board, flips what it
    /// captures, and hands the turn to the other side. The pass only hands
    /// the turn over.
    fn resolve_play(&mut self, play: Play)
        requires
            old(self).wf(),
            old(self)@.accepts(play),
        ensures
            final(self).wf(),
            final(self).previous_move == old(self).previous_move,
            final(self)@.black == old(self)@.after_play(play).black,
            final(self)@.white == old(self)@.after_play(play).white,
            final(self)@.to_move == old(self)@.after_play(play).to_move,
            play.is_pass() ==> final(self).black_pieces == old(self).black_pieces,
            play.is_pass() ==> final(self).white_pieces == old(self).white_pieces,
    {
        let black_moves: bool = self.player_to_move == Player::Black;
        let mine: u64 = if black_moves {
            self.black_pieces
        } else {
            self.white_pieces
        };
        let theirs: u64 = if black_moves {
            self.white_pieces
        } else {
            self.black_pieces
        };
        let ghost before = *self;
        proof {
            self.lemma_view_wf();
        }
        let mut gained: u64 = 0;
        let mut captured: u64 = 0;
        if play.0 != PASS {
            captured = captured_disks(mine, theirs, play.0);
            gained = (1u64 << (play.0 as u64)) | captured;
            proof {
                lemma_cells_of_single(play.0 as int);
            }
        }
        let mine_after: u64 = mine | gained;
        let theirs_after: u64 = theirs & !captured;
        proof {
            let q = play.0 as int;
            let flipped = before@.flipped_by(play);
            let taken = if play.is_cell() {
                flipped.insert(q)
            } else {
                Set::empty()
            };
            assert forall|i: int| 0 <= i < 64 implies !bit(0, i) by {
                lemma_bitwise(0, 0, i);
            }
            assert(cells_of(captured) =~= flipped);
            assert forall|i: int| cells_of(gained).contains(i) == taken.contains(i) by {
                if 0 <= i < 64 && play.is_cell() {
                    lemma_bitwise(single(q), captured, i);
                    lemma_single(q, i);
                }
            }
            assert(cells_of(gained) =~= taken);
            assert forall|i: int| cells_of(mine_after).contains(i) == cells_of(mine).union(
                taken,
            ).contains(i) by {
                if 0 <= i < 64 {
                    lemma_bitwise(mine, gained, i);
                }
            }
            assert(cells_of(mine_after) =~= cells_of(mine).union(taken));
            assert forall|i: int| cells_of(theirs_after).contains(i) == cells_of(
                theirs,
            ).difference(flipped).contains(i) by {
                if 0 <= i < 64 {
                    lemma_bitwise(theirs, !captured, i);
                    lemma_bitwise(captured, 0, i);
                }
            }
            assert(cells_of(theirs_after) =~= cells_of(theirs).difference(flipped));
            assert forall|i: int| 0 <= i < 64 implies !bit(mine_after & theirs_after, i) by {
                lemma_bitwise(mine_after, theirs_after, i);
                lemma_bitwise(before.black_pieces, before.white_pieces, i);
                assert(!(bit(mine, i) && bit(theirs, i)));
                assert(cells_of(mine_after).contains(i) == bit(mine_after, i));
                assert(cells_of(theirs_after).contains(i) == bit(theirs_after, i));
                if play.is_cell() && i == q {
                    assert(legal_at(cells_of(mine), cells_of(theirs), q / 8, q % 8));
                    assert(!disk_at(cells_of(theirs), q / 8, q % 8));
                    assert(!bit(theirs, q));
                }
            }
            lemma_no_bit_zero(mine_after & theirs_after);
            assert(mine_after & theirs_after == theirs_after & mine_after) by (bit_vector);
            assert(mine | 0 == mine && theirs & !0u64 == theirs) by (bit_vector);
        }
        if black_moves {
            self.black_pieces = mine_after;
            self.white_pieces = theirs_after;
            self.player_to_move = Player::White;
        } else {
            self.white_pieces = mine_after;
            self.black_pieces = theirs_after;
            self.player_to_move = Player::Black;
        }
    }

    /// Makes the move `play` for the side to move. A move onto a cell must
    /// be legal; the pass is always taken. Afterwards the other side is to
    /// move and no cell holds a disk of each side. The pass leaves both
    /// masks as they are; a move onto a cell flips a disk at least.
    pub fn make_play(&mut self, play: Play)
        requires
            old(self).wf(),
            old(self)@.accepts(play),
        ensures
            final(self).wf(),
            final(self)@ == old(self)@.after_play(play),
            final(self).player_to_move == other_side(old(self).player_to_move),
            final(self).previous_move == play,
            play.is_pass() ==> final(self).black_pieces == old(self).black_pieces,
            play.is_pass() ==> final(self).white_pieces == old(self).white_pieces,
            play.is_cell() ==> exists|cell: int|
                old(self)@.theirs().contains(cell) && !final(self)@.mine().contains(cell)
                    && #[trigger] final(self)@.theirs().contains(cell),
    {
        proof {
            self.lemma_view_wf();
            if play.is_cell() {
                let cell = lemma_move_flips(self@, play);
                assert(self@.after_play(play).theirs().contains(cell));
            }
        }
        self.resolve_play(play);
        self.previous_move = play;
    }

    /// Makes the move `play` as a turn of a play-out, and says whether the
    /// play-out ends with it: after a pass that leaves the other side
    /// without a move, too, the side with more disks has won.
    pub fn settle_play(&mut self, play: Play) -> (decided: Option<Player>)
        requires
            old(self).wf(),
            old(self)@.accepts(play),
        ensures
            final(self).wf(),
            final(self)@ == old(self)@.after_play(play),
            decided == verdict(old(self)@, play),
    {
        self.make_play(play);
        if play.0 == PASS {
            let next: Vec<Play> = self.generate_plays();
            proof {
                lemma_legal_plays(self@);
            }
            if next[0].0 == PASS {
                return Some(self.leader());
            }
        }
        None
    }
}

} // verus!
