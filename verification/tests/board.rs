use othello_ai::othello::board::{count_disks, shift};
use othello_ai::othello::game::{captured_disks, facing_run};
use othello_ai::{new_play, Cell, Game, Play, Player};
use rand::rngs::StdRng;
use rand::{Rng, SeedableRng};

fn game(black: u64, white: u64, to_move: Player) -> Game {
    Game { black_pieces: black, white_pieces: white, player_to_move: to_move, previous_move: Play(0) }
}

fn bit(row: u8, col: u8) -> u64 {
    1u64 << (row * 8 + col)
}

#[test]
fn start_position_has_the_four_centre_disks() {
    let game = Game::new();
    assert_eq!(game.cell_state(3, 3), Cell::Black);
    assert_eq!(game.cell_state(4, 4), Cell::Black);
    assert_eq!(game.cell_state(3, 4), Cell::White);
    assert_eq!(game.cell_state(4, 3), Cell::White);
    assert_eq!(game.player_to_move, Player::Black);
    assert_eq!(game.game_state(), Player::InProgress);
    assert_eq!(game.black_pieces, (1 << 27) | (1 << 36));
    assert_eq!(game.white_pieces, (1 << 28) | (1 << 35));
    let mut disks = 0;
    for row in 0..8 {
        for col in 0..8 {
            if game.cell_state(row, col) != Cell::Empty {
                disks += 1;
            }
        }
    }
    assert_eq!(disks, 4);
}

#[test]
fn opening_moves_are_the_four_canonical_cells() {
    let game = Game::new();
    let plays = game.generate_plays();
    assert_eq!(
        plays,
        vec![new_play(2, 4), new_play(3, 5), new_play(4, 2), new_play(5, 3)]
    );
    assert_eq!(plays, vec![Play(20), Play(29), Play(34), Play(43)]);
    assert_eq!(game.generate_plays_bitfield(), (1 << 20) | (1 << 29) | (1 << 34) | (1 << 43));
    assert!(game.has_valid_plays());
}

#[test]
fn opening_move_flips_one_disk_and_switches_the_mover() {
    let mut game = Game::new();
    game.make_play(new_play(2, 4));
    assert_eq!(game.cell_state(2, 4), Cell::Black);
    assert_eq!(game.cell_state(3, 4), Cell::Black);
    assert_eq!(game.cell_state(3, 3), Cell::Black);
    assert_eq!(game.cell_state(4, 4), Cell::Black);
    assert_eq!(game.cell_state(4, 3), Cell::White);
    assert_eq!(game.black_pieces.count_ones(), 4);
    assert_eq!(game.white_pieces.count_ones(), 1);
    assert_eq!(game.player_to_move, Player::White);
    assert_eq!(game.previous_move, Play(20));
    assert_eq!(game.black_pieces & game.white_pieces, 0);
}

#[test]
fn each_opening_move_flips_exactly_one_disk() {
    for play in Game::new().generate_plays() {
        let mut game = Game::new();
        game.make_play(play);
        assert_eq!(game.black_pieces.count_ones(), 4);
        assert_eq!(game.white_pieces.count_ones(), 1);
        assert_eq!(game.player_to_move, Player::White);
    }
}

#[test]
fn white_replies_to_the_opening() {
    let mut game = Game::new();
    game.make_play(Play(20));
    assert_eq!(game.generate_plays(), vec![Play(19), Play(21), Play(37)]);
    game.make_play(Play(19));
    assert_eq!(game.white_pieces, (1 << 19) | (1 << 27) | (1 << 35));
    assert_eq!(game.black_pieces, (1 << 20) | (1 << 28) | (1 << 36));
    assert_eq!(game.player_to_move, Player::Black);
}

#[test]
fn coordinates_are_row_times_eight_plus_column() {
    assert_eq!(new_play(0, 0), Play(0));
    assert_eq!(new_play(0, 7), Play(7));
    assert_eq!(new_play(1, 0), Play(8));
    assert_eq!(new_play(7, 7), Play(63));
    assert_eq!(Play::new(5, 3), Play(43));
    assert_eq!(Play::pass(), Play(64));
}

#[test]
fn coordinates_are_injective() {
    let mut seen = vec![false; 64];
    for row in 0..8u8 {
        for col in 0..8u8 {
            let play = new_play(row, col);
            assert_eq!(play, Play::new(row, col));
            assert!(play.0 < 64);
            assert!(!seen[play.0 as usize]);
            seen[play.0 as usize] = true;
        }
    }
    assert!(seen.iter().all(|&s| s));
}

#[test]
fn blocked_side_gets_the_pass_alone() {
    let game = game(1, 0, Player::Black);
    assert_eq!(game.generate_plays_bitfield(), 0);
    assert_eq!(game.generate_plays(), vec![Play(64)]);
    assert!(!game.has_valid_plays());
    assert!(!game.is_valid_play(Play(64)));
}

#[test]
fn moves_are_the_pass_exactly_when_the_mask_is_zero() {
    let boards = [
        game(1, 0, Player::Black),
        Game::new(),
        game(bit(0, 0), bit(0, 1), Player::Black),
        game(bit(0, 0), bit(0, 1), Player::White),
        game(bit(1, 0), bit(0, 7), Player::Black),
    ];
    for game in boards {
        let plays = game.generate_plays();
        assert!(!plays.is_empty());
        assert_eq!(plays == vec![Play(64)], game.generate_plays_bitfield() == 0);
        assert_eq!(game.has_valid_plays(), game.generate_plays_bitfield() != 0);
    }
}

#[test]
fn pass_changes_only_the_mover() {
    let mut game = Game::new();
    game.make_play(Play(64));
    assert_eq!(game.black_pieces, Game::new().black_pieces);
    assert_eq!(game.white_pieces, Game::new().white_pieces);
    assert_eq!(game.player_to_move, Player::White);
    assert_eq!(game.previous_move, Play(64));
    game.make_play(Play(64));
    assert_eq!(game.player_to_move, Player::Black);
    assert_eq!(game.black_pieces, Game::new().black_pieces);
    assert_eq!(game.white_pieces, Game::new().white_pieces);
}

#[test]
fn no_capture_wraps_round_an_edge() {
    // The cells 7 and 8 are neighbours as bits, not on the board.
    let across = game(bit(1, 0), bit(0, 7), Player::Black);
    assert_eq!(across.generate_plays(), vec![Play(64)]);
    let back = game(bit(0, 7), bit(1, 0), Player::Black);
    assert_eq!(back.generate_plays(), vec![Play(64)]);
    // A diagonal that leaves the board on the right does not come back on the left.
    let diagonal = game(bit(2, 6), bit(1, 7), Player::Black);
    assert_eq!(diagonal.generate_plays(), vec![Play(64)]);
    let other = game(bit(1, 1), bit(2, 0), Player::Black);
    assert_eq!(other.generate_plays(), vec![Play(64)]);
}

#[test]
fn shifts_drop_what_leaves_the_board() {
    let all = u64::MAX;
    assert_eq!(shift(all, 0), 0x7F7F7F7F7F7F7F7F);
    assert_eq!(shift(all, 1), 0x007F7F7F7F7F7F7F);
    assert_eq!(shift(all, 2), 0x00FFFFFFFFFFFFFF);
    assert_eq!(shift(all, 3), 0x00FEFEFEFEFEFEFE);
    assert_eq!(shift(all, 4), 0xFEFEFEFEFEFEFEFE);
    assert_eq!(shift(all, 5), 0xFEFEFEFEFEFEFE00);
    assert_eq!(shift(all, 6), 0xFFFFFFFFFFFFFF00);
    assert_eq!(shift(all, 7), 0x7F7F7F7F7F7F7F00);
    assert_eq!(shift(bit(3, 3), 0), bit(3, 2));
    assert_eq!(shift(bit(3, 3), 1), bit(2, 2));
    assert_eq!(shift(bit(3, 3), 2), bit(2, 3));
    assert_eq!(shift(bit(3, 3), 3), bit(2, 4));
    assert_eq!(shift(bit(3, 3), 4), bit(3, 4));
    assert_eq!(shift(bit(3, 3), 5), bit(4, 4));
    assert_eq!(shift(bit(3, 3), 6), bit(4, 3));
    assert_eq!(shift(bit(3, 3), 7), bit(4, 2));
    assert_eq!(shift(bit(0, 0), 0), 0);
    assert_eq!(shift(bit(7, 7), 4), 0);
    assert_eq!(shift(bit(0, 7), 3), 0);
    assert_eq!(shift(bit(7, 0), 7), 0);
}

#[test]
fn a_line_of_six_is_captured_whole() {
    let white: u64 = (1..7).map(|col| bit(0, col)).sum();
    let mut line = game(bit(0, 0), white, Player::Black);
    assert_eq!(line.generate_plays(), vec![Play(7)]);
    assert!(line.is_valid_play(Play(7)));
    assert_eq!(captured_disks(bit(0, 0), white, 7), white);
    line.make_play(Play(7));
    assert_eq!(line.black_pieces, 0xFF);
    assert_eq!(line.white_pieces, 0);
    let column: u64 = (1..7).map(|row| bit(row, 2)).sum();
    let mut down = game(column, bit(7, 2), Player::White);
    assert_eq!(down.generate_plays(), vec![Play(2)]);
    down.make_play(Play(2));
    assert_eq!(down.black_pieces, 0);
    assert_eq!(down.white_pieces, column | bit(7, 2) | bit(0, 2));
}

#[test]
fn facing_run_follows_the_line_from_the_start() {
    let white: u64 = bit(3, 4) | bit(3, 5) | bit(3, 7);
    assert_eq!(facing_run(bit(3, 3), white, 4), bit(3, 4) | bit(3, 5));
    assert_eq!(facing_run(bit(3, 3), white, 0), 0);
    assert_eq!(facing_run(bit(3, 6), white, 0), bit(3, 5) | bit(3, 4));
}

#[test]
fn a_move_captures_in_several_directions() {
    // Black plays the corner of an L of white disks that black ends on both arms.
    let black = bit(0, 2) | bit(2, 0);
    let white = bit(0, 1) | bit(1, 0) | bit(1, 1);
    let mut game = game(black, white, Player::Black);
    assert!(game.is_valid_play(Play(0)));
    assert_eq!(captured_disks(black, white, 0), bit(0, 1) | bit(1, 0));
    game.make_play(Play(0));
    assert_eq!(game.black_pieces, black | bit(0, 0) | bit(0, 1) | bit(1, 0));
    assert_eq!(game.white_pieces, bit(1, 1));
}

#[test]
fn a_line_that_no_own_disk_ends_is_not_captured() {
    let black = bit(0, 3);
    let white = bit(0, 1) | bit(0, 2) | bit(1, 1);
    assert_eq!(captured_disks(black, white, 0), bit(0, 1) | bit(0, 2));
    let open = captured_disks(0, white, 0);
    assert_eq!(open, 0);
}

#[test]
fn legality_is_the_bit_of_the_mask() {
    let game = Game::new();
    let mask = game.generate_plays_bitfield();
    for cell in 0..64u8 {
        assert_eq!(game.is_valid_play(Play(cell)), (mask >> cell) & 1 == 1);
    }
    assert!(game.is_valid_play(Play(20)));
    assert!(!game.is_valid_play(Play(0)));
    assert!(!game.is_valid_play(Play(27)));
    assert!(!game.is_valid_play(Play(64)));
    assert!(!game.is_valid_play(Play(200)));
}

#[test]
fn outcome_waits_for_a_full_board() {
    assert_eq!(Game::new().game_state(), Player::InProgress);
    // Neither side can move, but a cell is empty.
    assert_eq!(game(1, 0, Player::Black).game_state(), Player::InProgress);
    assert_eq!(game(u64::MAX >> 1, 0, Player::Black).game_state(), Player::InProgress);
    assert_eq!(game(u64::MAX, 0, Player::Black).game_state(), Player::Black);
    assert_eq!(game(0, u64::MAX, Player::Black).game_state(), Player::White);
    assert_eq!(game(0xFFFF_FFFF, !0xFFFF_FFFFu64, Player::White).game_state(), Player::Tie);
    assert_eq!(game(0x1_FFFF_FFFF, !0x1_FFFF_FFFFu64, Player::White).game_state(), Player::Black);
    assert_eq!(game(0x7FFF_FFFF, !0x7FFF_FFFFu64, Player::Black).game_state(), Player::White);
}

#[test]
fn disks_are_counted() {
    assert_eq!(count_disks(0), 0);
    assert_eq!(count_disks(1), 1);
    assert_eq!(count_disks(1 << 63), 1);
    assert_eq!(count_disks(u64::MAX), 64);
    assert_eq!(count_disks(0xF0F0), 8);
}

#[test]
fn cell_state_reads_both_masks() {
    let game = game(bit(0, 0) | bit(7, 7), bit(0, 7) | bit(7, 0), Player::Black);
    assert_eq!(game.cell_state(0, 0), Cell::Black);
    assert_eq!(game.cell_state(7, 7), Cell::Black);
    assert_eq!(game.cell_state(0, 7), Cell::White);
    assert_eq!(game.cell_state(7, 0), Cell::White);
    assert_eq!(game.cell_state(3, 3), Cell::Empty);
}

#[test]
fn a_pass_after_a_pass_settles_the_game() {
    let mut even = game(1, 1 << 63, Player::Black);
    assert_eq!(even.settle_play(Play(64)), Some(Player::Tie));
    assert_eq!(even.player_to_move, Player::White);
    let mut black_leads = game(3, 1 << 63, Player::White);
    assert_eq!(black_leads.settle_play(Play(64)), Some(Player::Black));
    let mut white_leads = game(1, 3 << 62, Player::Black);
    assert_eq!(white_leads.settle_play(Play(64)), Some(Player::White));
    // After this pass the other side has a move, so the game goes on.
    let mut goes_on = game(bit(0, 0), bit(0, 1), Player::White);
    assert_eq!(goes_on.generate_plays(), vec![Play(64)]);
    assert_eq!(goes_on.settle_play(Play(64)), None);
    assert_eq!(goes_on.generate_plays(), vec![Play(2)]);
    let mut opening = Game::new();
    assert_eq!(opening.settle_play(Play(20)), None);
    assert_eq!(opening.previous_move, Play(20));
}

#[test]
fn the_leader_has_more_disks() {
    assert_eq!(Game::new().leader(), Player::Tie);
    assert_eq!(game(7, 8, Player::Black).leader(), Player::Black);
    assert_eq!(game(8, 7, Player::Black).leader(), Player::White);
    assert_eq!(game(0, 0, Player::White).leader(), Player::Tie);
}

#[test]
fn the_default_game_is_the_start() {
    let game = Game::default();
    assert_eq!(game.black_pieces, Game::new().black_pieces);
    assert_eq!(game.white_pieces, Game::new().white_pieces);
    assert_eq!(game.player_to_move, Player::Black);
    assert_eq!(game.previous_move, Play(0));
}

#[test]
fn every_legal_move_flips_a_disk_and_keeps_the_masks_apart() {
    for seed in 0..10 {
        let mut rng = StdRng::seed_from_u64(seed);
        let mut game = Game::new();
        let mut passes = 0;
        while game.game_state() == Player::InProgress && passes < 2 {
            let plays = game.generate_plays();
            assert!(!plays.is_empty());
            assert_eq!(plays == vec![Play(64)], game.generate_plays_bitfield() == 0);
            for &play in &plays {
                if play == Play(64) {
                    continue;
                }
                assert!(game.is_valid_play(play));
                let mut next = game;
                next.make_play(play);
                let (mine, theirs, mine_after, theirs_after) = match game.player_to_move {
                    Player::Black => {
                        (game.black_pieces, game.white_pieces, next.black_pieces, next.white_pieces)
                    }
                    _ => (game.white_pieces, game.black_pieces, next.white_pieces, next.black_pieces),
                };
                let flipped = theirs & !theirs_after;
                assert!(flipped != 0);
                assert_eq!(flipped, captured_disks(mine, theirs, play.0));
                assert_eq!(mine_after, mine | flipped | (1 << play.0));
                assert_eq!(theirs_after, theirs & !flipped);
                assert_eq!(next.black_pieces & next.white_pieces, 0);
                assert_eq!(
                    (next.black_pieces | next.white_pieces).count_ones(),
                    (game.black_pieces | game.white_pieces).count_ones() + 1
                );
                assert_ne!(next.player_to_move, game.player_to_move);
                assert_eq!(next.previous_move, play);
            }
            let play = plays[rng.gen_range(0, plays.len())];
            passes = if play == Play(64) { passes + 1 } else { 0 };
            game.make_play(play);
        }
    }
}

#[test]
fn moves_agree_with_a_walk_over_the_cells() {
    // The legal cells, found cell by cell: an empty cell from which some
    // straight line of the other side's disks leads to a disk of the mover.
    fn walk(game: &Game) -> Vec<Play> {
        let (me, them) = match game.player_to_move {
            Player::Black => (Cell::Black, Cell::White),
            _ => (Cell::White, Cell::Black),
        };
        let mut found = Vec::new();
        for row in 0..8i32 {
            for col in 0..8i32 {
                if game.cell_state(row as u8, col as u8) != Cell::Empty {
                    continue;
                }
                let mut legal = false;
                for (dr, dc) in [(0, -1), (-1, -1), (-1, 0), (-1, 1), (0, 1), (1, 1), (1, 0), (1, -1)] {
                    let (mut r, mut c, mut seen) = (row + dr, col + dc, 0);
                    while (0..8).contains(&r)
                        && (0..8).contains(&c)
                        && game.cell_state(r as u8, c as u8) == them
                    {
                        r += dr;
                        c += dc;
                        seen += 1;
                    }
                    if seen > 0
                        && (0..8).contains(&r)
                        && (0..8).contains(&c)
                        && game.cell_state(r as u8, c as u8) == me
                    {
                        legal = true;
                    }
                }
                if legal {
                    found.push(new_play(row as u8, col as u8));
                }
            }
        }
        if found.is_empty() {
            found.push(Play(64));
        }
        found
    }
    for seed in 20..30 {
        let mut rng = StdRng::seed_from_u64(seed);
        let mut game = Game::new();
        let mut passes = 0;
        while game.game_state() == Player::InProgress && passes < 2 {
            let plays = game.generate_plays();
            assert_eq!(plays, walk(&game));
            let play = plays[rng.gen_range(0, plays.len())];
            passes = if play == Play(64) { passes + 1 } else { 0 };
            game.make_play(play);
        }
    }
}
