use othello_ai::mcts::pick_best;
use othello_ai::{Game, Mcts, Node, Play, Player};
use rand::rngs::StdRng;
use rand::{Rng, SeedableRng};

/// The score of a child with `wins` wins in `visits` visits, as a key that
/// orders as the score does; none where the score is not a number.
fn uct_score(wins: u32, visits: u32) -> Option<u64> {
    let wins = wins as f32;
    let visits = visits as f32;
    let score: f32 = (wins / visits) + (1.41 * wins.log2().sqrt() / visits);
    if score > f32::MIN {
        let bits = score.to_bits();
        Some(if bits & 0x8000_0000 != 0 { !bits } else { bits | 0x8000_0000 } as u64)
    } else {
        None
    }
}

fn check_tree(tree: &Mcts) {
    let root_visits = tree.arena[0].visits;
    assert_eq!(tree.root_node_index, 0);
    assert!(tree.arena[0].parent.is_none());
    for (index, node) in tree.arena.iter().enumerate() {
        assert!(node.wins <= node.visits);
        assert!(node.visits <= root_visits);
        assert_eq!(node.state.black_pieces & node.state.white_pieces, 0);
        if index > 0 {
            assert!(node.visits >= 1);
            let parent = node.parent.unwrap();
            assert!(parent < index);
            assert!(tree.arena[parent].children.contains(&index));
        }
        let mut moves: Vec<Play> = node.unexpanded_moves.clone();
        let mut visits_below = 0;
        for &child in &node.children {
            assert!(child > index);
            assert_eq!(tree.arena[child].parent, Some(index));
            let played = tree.arena[child].state.previous_move;
            let mut next = node.state;
            next.make_play(played);
            assert_eq!(next.black_pieces, tree.arena[child].state.black_pieces);
            assert_eq!(next.white_pieces, tree.arena[child].state.white_pieces);
            assert_eq!(next.player_to_move, tree.arena[child].state.player_to_move);
            moves.push(played);
            visits_below += tree.arena[child].visits;
        }
        assert!(visits_below <= node.visits);
        moves.sort_by_key(|play| play.0);
        assert_eq!(moves, node.state.generate_plays());
    }
}

#[test]
fn search_from_the_start_expands_the_four_opening_moves() {
    let mut rng = StdRng::seed_from_u64(7);
    let mut tree = Mcts::new(Game::new(), &mut rng);
    assert_eq!(tree.arena.len(), 1);
    assert!(!tree.arena[0].is_fully_expanded());
    let result = tree.run_iterations(50, &mut rng, &uct_score);
    assert_eq!(result.search_iterations, 50);
    let root = &tree.arena[0];
    assert!(root.is_fully_expanded());
    assert_eq!(root.children.len(), 4);
    assert_eq!(root.visits, 50);
    let child_visits: u32 = root.children.iter().map(|&child| tree.arena[child].visits).sum();
    assert_eq!(child_visits, 50);
    let best = tree.best_play();
    assert!([Play(20), Play(29), Play(34), Play(43)].contains(&best));
    let most = root.children.iter().map(|&child| tree.arena[child].visits).max().unwrap();
    let first = root.children.iter().find(|&&child| tree.arena[child].visits == most).unwrap();
    assert_eq!(best, tree.arena[*first].state.previous_move);
    assert!(tree.arena.len() <= 51);
    check_tree(&tree);
}

#[test]
fn one_round_counts_one_play_out() {
    let mut rng = StdRng::seed_from_u64(3);
    let mut tree = Mcts::new(Game::new(), &mut rng);
    let last = *tree.arena[0].unexpanded_moves.last().unwrap();
    let result = tree.run_iterations(1, &mut rng, &uct_score);
    assert_eq!(result.search_iterations, 1);
    assert_eq!(tree.arena.len(), 2);
    assert_eq!(tree.arena[0].visits, 1);
    assert_eq!(tree.arena[0].children, vec![1]);
    assert_eq!(tree.arena[0].unexpanded_moves.len(), 3);
    assert_eq!(tree.arena[1].parent, Some(0));
    assert_eq!(tree.arena[1].visits, 1);
    assert_eq!(tree.arena[1].state.previous_move, last);
    assert_eq!(tree.arena[1].state.player_to_move, Player::White);
    // Black moves in the root and White in the child, so a game that is
    // not tied is a win for exactly one of the two nodes.
    assert!(tree.arena[0].wins + tree.arena[1].wins >= 1);
    assert!(tree.arena[0].wins <= 1 && tree.arena[1].wins <= 1);
    check_tree(&tree);
}

#[test]
fn no_round_leaves_the_tree_as_it_is() {
    let mut rng = StdRng::seed_from_u64(3);
    let mut tree = Mcts::new(Game::new(), &mut rng);
    let result = tree.run_iterations(0, &mut rng, &uct_score);
    assert_eq!(result.search_iterations, 0);
    assert_eq!(tree.arena.len(), 1);
    assert_eq!(tree.arena[0].visits, 0);
}

#[test]
fn search_keeps_the_tree_in_order() {
    for seed in 0..5 {
        let mut rng = StdRng::seed_from_u64(seed);
        let mut game = Game::new();
        for _ in 0..(seed * 3) {
            let plays = game.generate_plays();
            let play = plays[rng.gen_range(0, plays.len())];
            game.make_play(play);
        }
        let mut tree = Mcts::new(game, &mut rng);
        let first = tree.run_iterations(120, &mut rng, &uct_score);
        assert_eq!(first.search_iterations, 120);
        check_tree(&tree);
        let second = tree.run_iterations(30, &mut rng, &uct_score);
        assert_eq!(second.search_iterations, 30);
        assert_eq!(tree.arena[0].visits, 150);
        check_tree(&tree);
    }
}

#[test]
fn timed_search_runs_one_round_at_least() {
    let mut rng = StdRng::seed_from_u64(11);
    let mut tree = Mcts::new(Game::new(), &mut rng);
    let result = tree.run_search(0, &mut rng, &uct_score);
    assert!(result.search_iterations >= 1);
    assert_eq!(tree.arena[0].visits, result.search_iterations);
    let more = tree.run_search(20, &mut rng, &uct_score);
    assert!(more.search_iterations >= 1);
    assert_eq!(tree.arena[0].visits, result.search_iterations + more.search_iterations);
    check_tree(&tree);
}

#[test]
fn search_on_a_finished_game_only_counts() {
    let full = Game {
        black_pieces: u64::MAX << 20,
        white_pieces: !(u64::MAX << 20),
        player_to_move: Player::White,
        previous_move: Play(5),
    };
    let mut rng = StdRng::seed_from_u64(1);
    let mut tree = Mcts::new(full, &mut rng);
    assert!(tree.arena[0].is_terminal());
    assert!(!tree.arena[0].is_fully_expanded());
    assert_eq!(tree.arena[0].unexpanded_moves, vec![Play(64)]);
    assert_eq!(tree.simulate(0, &mut rng), Player::Black);
    let result = tree.run_iterations(3, &mut rng, &uct_score);
    assert_eq!(result.search_iterations, 3);
    // A node in which the game is over gets no child.
    assert_eq!(tree.arena.len(), 1);
    assert_eq!(tree.get_node(0).visits, 3);
    // Black won each play-out: that counts for the node in which White is to move.
    assert_eq!(tree.get_node(0).wins, 3);
    check_tree(&tree);
}

#[test]
fn a_tie_counts_as_a_win_in_every_node() {
    let full = Game {
        black_pieces: 0xFFFF_FFFF,
        white_pieces: !0xFFFF_FFFFu64,
        player_to_move: Player::Black,
        previous_move: Play(5),
    };
    let mut rng = StdRng::seed_from_u64(1);
    let mut tree = Mcts::new(full, &mut rng);
    assert_eq!(tree.simulate(0, &mut rng), Player::Tie);
    tree.run_iterations(2, &mut rng, &uct_score);
    assert_eq!(tree.arena[0].visits, 2);
    assert_eq!(tree.arena[0].wins, 2);
}

#[test]
fn a_loss_is_no_win() {
    let full = Game {
        black_pieces: u64::MAX << 20,
        white_pieces: !(u64::MAX << 20),
        player_to_move: Player::Black,
        previous_move: Play(5),
    };
    let mut rng = StdRng::seed_from_u64(1);
    let mut tree = Mcts::new(full, &mut rng);
    tree.run_iterations(2, &mut rng, &uct_score);
    assert_eq!(tree.arena[0].visits, 2);
    assert_eq!(tree.arena[0].wins, 0);
}

#[test]
fn play_outs_repeat_with_the_same_seed() {
    let mut setup = StdRng::seed_from_u64(5);
    let tree = Mcts::new(Game::new(), &mut setup);
    let mut first = StdRng::seed_from_u64(99);
    let mut second = StdRng::seed_from_u64(99);
    let one: Vec<Player> = (0..40).map(|_| tree.simulate(0, &mut first)).collect();
    let two: Vec<Player> = (0..40).map(|_| tree.simulate(0, &mut second)).collect();
    assert_eq!(one, two);
    assert!(one.iter().all(|winner| *winner != Player::InProgress));
    assert!(one.contains(&Player::Black) || one.contains(&Player::White));
}

#[test]
fn searches_repeat_with_the_same_seed() {
    let mut trees = Vec::new();
    for _ in 0..2 {
        let mut rng = StdRng::seed_from_u64(2024);
        let mut tree = Mcts::new(Game::new(), &mut rng);
        tree.run_iterations(200, &mut rng, &uct_score);
        trees.push(tree);
    }
    assert_eq!(trees[0].arena.len(), trees[1].arena.len());
    for (one, two) in trees[0].arena.iter().zip(trees[1].arena.iter()) {
        assert_eq!(one.parent, two.parent);
        assert_eq!(one.children, two.children);
        assert_eq!(one.unexpanded_moves, two.unexpanded_moves);
        assert_eq!(one.wins, two.wins);
        assert_eq!(one.visits, two.visits);
        assert_eq!(one.state.black_pieces, two.state.black_pieces);
        assert_eq!(one.state.white_pieces, two.state.white_pieces);
    }
    assert_eq!(trees[0].best_play(), trees[1].best_play());
}

#[test]
fn a_play_out_ends_with_a_result() {
    let mut rng = StdRng::seed_from_u64(17);
    let tree = Mcts::new(Game::new(), &mut rng);
    let mut black = 0;
    let mut white = 0;
    for _ in 0..200 {
        match tree.simulate(0, &mut rng) {
            Player::Black => black += 1,
            Player::White => white += 1,
            Player::Tie => {}
            Player::InProgress => panic!("a play-out ends"),
        }
    }
    assert!(black > 20);
    assert!(white > 20);
}

#[test]
fn new_nodes_hold_the_shuffled_moves() {
    let mut orders = Vec::new();
    for seed in 0..20 {
        let mut rng = StdRng::seed_from_u64(seed);
        let node = Node::new(Game::new(), None, &mut rng);
        assert!(node.parent.is_none());
        assert!(node.children.is_empty());
        assert_eq!(node.wins, 0);
        assert_eq!(node.visits, 0);
        assert!(!node.is_terminal());
        assert!(!node.is_fully_expanded());
        let mut sorted = node.unexpanded_moves.clone();
        sorted.sort_by_key(|play| play.0);
        assert_eq!(sorted, vec![Play(20), Play(29), Play(34), Play(43)]);
        orders.push(node.unexpanded_moves);
    }
    // A shuffle that left the moves in place would give one order only.
    assert!(orders.iter().any(|order| *order != orders[0]));
    let mut rng = StdRng::seed_from_u64(0);
    let child = Node::new(Game::new(), Some(3), &mut rng);
    assert_eq!(child.parent, Some(3));
}

#[test]
fn random_picks_stay_among_the_moves() {
    // A position with one move only: every pick must be that move.
    let single = Game {
        black_pieces: 1,
        white_pieces: 2,
        player_to_move: Player::Black,
        previous_move: Play(0),
    };
    let mut rng = StdRng::seed_from_u64(8);
    let tree = Mcts::new(single, &mut rng);
    for _ in 0..20 {
        // Black takes the one white disk, and neither side can move again.
        assert_eq!(tree.simulate(0, &mut rng), Player::Black);
    }
}

#[test]
fn the_first_of_the_highest_scores_is_picked() {
    assert_eq!(pick_best(&vec![]), None);
    assert_eq!(pick_best(&vec![None, None]), None);
    assert_eq!(pick_best(&vec![Some(0)]), Some(0));
    assert_eq!(pick_best(&vec![None, Some(0), None]), Some(1));
    assert_eq!(pick_best(&vec![Some(3), Some(9), Some(9), Some(1)]), Some(1));
    assert_eq!(pick_best(&vec![Some(9), None, Some(9)]), Some(0));
    assert_eq!(pick_best(&vec![Some(1), Some(2), Some(u64::MAX)]), Some(2));
}

#[test]
fn the_score_orders_children_as_the_formula_does() {
    // No win: the logarithm is not a number, and the child is never chosen.
    assert_eq!(uct_score(0, 5), None);
    assert_eq!(uct_score(0, 0), None);
    // One win: the logarithm is zero and the score is wins over visits.
    assert_eq!(uct_score(1, 1), Some(0xBF80_0000));
    assert_eq!(uct_score(1, 2), Some(0xBF00_0000));
    assert!(uct_score(1, 2) > uct_score(1, 3));
    let direct = |wins: f32, visits: f32| wins / visits + 1.41 * wins.log2().sqrt() / visits;
    // (2 + 1.41 * sqrt(log2(2))) / 2
    assert!((direct(2.0, 2.0) - 1.705).abs() < 1e-6);
    // (4 + 1.41 * sqrt(2)) / 8
    assert!((direct(4.0, 8.0) - 0.749254).abs() < 1e-5);
    for (a, b) in [((2, 4), (3, 5)), ((8, 9), (4, 4)), ((16, 40), (2, 3)), ((5, 5), (1, 1))] {
        let left = direct(a.0 as f32, a.1 as f32);
        let right = direct(b.0 as f32, b.1 as f32);
        assert_eq!(uct_score(a.0, a.1) > uct_score(b.0, b.1), left > right);
        assert_eq!(uct_score(a.0, a.1) < uct_score(b.0, b.1), left < right);
    }
}

#[test]
fn selection_follows_the_score() {
    // With a score that is the number of visits the search goes down to
    // the child it has visited most, so one child gets all the rounds
    // after the four that try each move once.
    let by_visits = |_wins: u32, visits: u32| Some(visits as u64);
    let mut rng = StdRng::seed_from_u64(4);
    let mut tree = Mcts::new(Game::new(), &mut rng);
    tree.run_iterations(40, &mut rng, &by_visits);
    let visits: Vec<u32> =
        tree.arena[0].children.iter().map(|&child| tree.arena[child].visits).collect();
    assert_eq!(visits, vec![37, 1, 1, 1]);
    assert_eq!(tree.best_play(), tree.arena[1].state.previous_move);
    check_tree(&tree);
    // With no score at all the search never leaves a fully expanded root.
    let unrated = |_wins: u32, _visits: u32| None;
    let mut rng = StdRng::seed_from_u64(4);
    let mut tree = Mcts::new(Game::new(), &mut rng);
    tree.run_iterations(10, &mut rng, &unrated);
    assert_eq!(tree.arena.len(), 5);
    assert_eq!(tree.arena[0].visits, 10);
    let visits: Vec<u32> =
        tree.arena[0].children.iter().map(|&child| tree.arena[child].visits).collect();
    assert_eq!(visits, vec![1, 1, 1, 1]);
    check_tree(&tree);
}
