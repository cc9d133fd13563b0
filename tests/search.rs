use hnefatafl::agent::{Bot, BotInit};
use hnefatafl::alpha_beta::{AlphaBetaBot, INF};
use hnefatafl::arena::{Arena, MAX_NUMBER_OF_MOVES};
use hnefatafl::board::{Board, GameState};
use hnefatafl::eval::{Eval, EvalInit, HumanScore, HumanScoreParam, RandomRollout};
use hnefatafl::mcts::Mcts;
use hnefatafl::piece::PieceColor;
use hnefatafl::position::Position;
use hnefatafl::random_bot::RandomBot;

fn bit(i: usize) -> u128 {
    1u128 << i
}

fn weights(a: i32, b: i32, c: i32, d: i32, e: i32, f: i32, g: i32) -> HumanScore {
    HumanScore::new(HumanScoreParam {
        w_ring_1: a,
        w_ring_2: b,
        w_ring_3: c,
        w_ring_4: d,
        w_corner: e,
        w_edge: f,
        w_king_dst: g,
    })
}

#[test]
fn human_score_of_initial_board() {
    let board = Board::new();
    assert_eq!(weights(0, 0, 1, 0, 1, -1, -1).get_eval(&board), 18);
    assert_eq!(weights(1, 2, 3, 4, 5, 6, 7).get_eval(&board), 34);
}

#[test]
fn human_score_of_decided_boards() {
    let won = Board::from_bitboards(0, bit(50), bit(40), PieceColor::Attacker).unwrap();
    assert_eq!(weights(1, 1, 1, 1, 1, 1, 1).get_eval(&won), -1000);
    let lost = Board::from_bitboards(bit(1) | bit(11) | bit(12), 0, bit(0), PieceColor::Defender).unwrap();
    assert_eq!(weights(1, 1, 1, 1, 1, 1, 1).get_eval(&lost), 1000);
}

#[test]
fn human_score_king_on_edge_and_distance() {
    // one attacker on (5, 5)'s neighbour row, the king on (0, 5): on the edge, 5 from a corner
    let board = Board::from_bitboards(bit(70), bit(90), bit(5), PieceColor::Attacker).unwrap();
    // pawns 1 - 2 * 1, one row and one column hold an attacker, edge weight 3, distance weight 2
    assert_eq!(weights(0, 0, 0, 0, 0, 3, 2).get_eval(&board), 1 - 2 + 2 + 3 + 2 * 5);
}

#[test]
fn random_rollout_scores_a_game() {
    let rollout = RandomRollout::new(1);
    let board = Board::new();
    for _ in 0..3 {
        let v = rollout.get_eval(&board);
        assert!((-1..=1).contains(&v));
    }
    let won = Board::from_bitboards(0, bit(50), bit(40), PieceColor::Attacker).unwrap();
    assert_eq!(rollout.get_eval(&won), -1);
}

#[test]
fn alpha_beta_finds_the_corner() {
    // the defender can win at once by sliding the king from (0, 2) into the corner
    let board = Board::from_bitboards(bit(50) | bit(70), bit(90), bit(2), PieceColor::Defender).unwrap();
    let mut bot = AlphaBetaBot::new(2, weights(0, 0, 1, 0, 1, -1, -1));
    let m = bot.get_next_move(&board, 10_000).unwrap();
    assert_eq!(m.get_start_pos().get_num(), 2);
    assert!(Position::new_n(m.get_end_pos().get_num()).is_corner());
}

#[test]
fn alpha_beta_full_window_value() {
    // depth one from a board where the defender wins at once: the value for the defender
    // (not the maximising side) is -(-1000 + 1)
    let board = Board::from_bitboards(bit(50) | bit(70), bit(90), bit(2), PieceColor::Defender).unwrap();
    let mut bot = AlphaBetaBot::new(1, weights(0, 0, 1, 0, 1, -1, -1));
    let v = bot.alpha_beta(board.clone(), 1, -INF + 1, INF - 1, false, 0, None);
    assert_eq!(v, 999);
}

#[test]
fn alpha_beta_leaf_is_signed_evaluation() {
    let board = Board::new();
    let mut bot = AlphaBetaBot::new(1, weights(0, 0, 1, 0, 1, -1, -1));
    assert_eq!(bot.alpha_beta(board.clone(), 0, -INF + 1, INF - 1, true, 0, None), 18);
    assert_eq!(bot.alpha_beta(board.clone(), 0, -INF + 1, INF - 1, false, 0, None), -18);
}

#[test]
fn alpha_beta_depth_two_matches_minimax() {
    // a small board searched two plies deep with and without a narrow first window
    let board = Board::from_bitboards(bit(24) | bit(96), bit(40) | bit(80), bit(58), PieceColor::Attacker).unwrap();
    let eval = || weights(1, 1, 1, 1, 1, 1, 1);
    let mut bot = AlphaBetaBot::new(2, eval());
    let full = bot.alpha_beta(board.clone(), 2, -INF + 1, INF - 1, true, 0, None);
    // exhaustive minimax over the same tree
    let ev = eval();
    let mut best = i64::MIN;
    for m in board.get_legal_moves() {
        let mut child = board.clone();
        child.make_move_captured_positions(&m);
        let value = if child.is_game_over() {
            let bonus = match child.who_won() {
                GameState::WinAttacker => -1,
                GameState::WinDefender => 1,
                _ => 0,
            };
            ev.get_eval(&child) + bonus
        } else {
            let mut worst = i64::MAX;
            for r in child.get_legal_moves() {
                let mut grand = child.clone();
                grand.make_move_captured_positions(&r);
                let bonus = if grand.is_game_over() {
                    match grand.who_won() {
                        GameState::WinAttacker => -2,
                        GameState::WinDefender => 2,
                        _ => 0,
                    }
                } else {
                    0
                };
                worst = worst.min(ev.get_eval(&grand) + bonus);
            }
            worst
        };
        best = best.max(value);
    }
    assert_eq!(full, best);
}

#[test]
fn alpha_beta_bot_moves_legally() {
    let board = Board::new();
    let mut bot = AlphaBetaBot::new(1, weights(0, 0, 1, 0, 1, -1, -1));
    let m = bot.get_next_move(&board, 1000).unwrap();
    assert!(board.is_valid_move(&m, &PieceColor::Attacker));
    assert_eq!(bot.get_name(), "AlphaBeta");
    assert_eq!(bot.num_nodes(), 0);
}

#[test]
fn alpha_beta_bot_without_moves() {
    let board = Board::from_bitboards(bit(1) | bit(11) | bit(12), 0, bit(0), PieceColor::Defender).unwrap();
    let mut bot = AlphaBetaBot::new(2, weights(0, 0, 1, 0, 1, -1, -1));
    assert!(bot.get_next_move(&board, 1000).is_none());
}

#[test]
fn random_bot_moves_legally() {
    let board = Board::new();
    let mut bot = RandomBot::new(1, RandomRollout::new(1));
    let m = bot.get_next_move(&board, 10).unwrap();
    assert!(board.is_valid_move(&m, &PieceColor::Attacker));
    assert_eq!(bot.get_name(), "Random");
}

fn grow(tree: &mut Mcts<HumanScore>, times: usize) {
    for _ in 0..times {
        let mut node = 0;
        while tree.needs_selection(node) {
            // go to the child with the most visits: enough for a test of the tree's bookkeeping
            let children = tree.get_node(node).get_children().clone();
            node = *children.iter().max_by_key(|c| tree.get_node(**c).get_n_val()).unwrap();
        }
        tree.grow_at(node);
    }
}

#[test]
fn mcts_grows_and_counts_visits() {
    let board = Board::new();
    let mut tree = Mcts::new(&board, weights(0, 0, 1, 0, 1, -1, -1));
    assert_eq!(tree.num_nodes(), 0);
    assert!(tree.get_best_move().is_none());
    grow(&mut tree, 10);
    assert_eq!(tree.num_nodes(), 10);
    assert_eq!(tree.get_node(0).get_n_val(), 10);
    assert_eq!(tree.get_node(0).get_unexplored_moves_idx(), 10);
    assert_eq!(tree.get_node(0).get_children().len(), 10);
    let best = tree.get_best_move().unwrap();
    assert!(board.is_valid_move(&best, &PieceColor::Attacker));
    for c in tree.get_node(0).get_children().clone() {
        assert_eq!(tree.get_node(c).get_n_val(), 1);
        let child_board = tree.get_node(c).get_board();
        // the child's moves are the legal moves of its board, in some order
        let mut a: Vec<(usize, usize)> = child_board
            .get_legal_moves()
            .iter()
            .map(|m| (m.get_start_pos().get_num(), m.get_end_pos().get_num()))
            .collect();
        a.sort();
        assert_eq!(tree.get_node(c).num_movs(), a.len());
    }
    assert!(tree.compute_depth() >= 1);
}

#[test]
fn mcts_backpropagation_alternates_sign() {
    let board = Board::new();
    let mut tree = Mcts::new(&board, weights(0, 0, 1, 0, 1, -1, -1));
    grow(&mut tree, 1);
    let child = tree.get_node(0).get_children()[0];
    let q_child = tree.get_node(child).get_q_val();
    let q_root = tree.get_node(0).get_q_val();
    assert_eq!(q_root, -q_child);
    tree.back_propagation(child, 5);
    assert_eq!(tree.get_node(child).get_q_val(), q_child + 5);
    assert_eq!(tree.get_node(0).get_q_val(), q_root - 5);
    assert_eq!(tree.get_node(child).get_n_val(), 2);
    assert_eq!(tree.get_node(0).get_n_val(), 2);
}

#[test]
fn mcts_terminal_root_is_not_expanded() {
    let board = Board::from_bitboards(0, bit(50), bit(40), PieceColor::Attacker).unwrap();
    let mut tree = Mcts::new(&board, weights(0, 0, 1, 0, 1, -1, -1));
    assert!(tree.get_node(0).is_terminal());
    tree.grow_at(0);
    tree.grow_at(0);
    assert_eq!(tree.num_nodes(), 0);
    assert_eq!(tree.get_node(0).get_n_val(), 2);
    assert_eq!(tree.get_node(0).get_unexplored_moves_idx(), 0);
    // the attacker is to move and lost: the score -1000 is negated
    assert_eq!(tree.get_node(0).get_q_val(), 2000);
}

#[test]
fn mcts_reset_discards_the_tree() {
    let board = Board::new();
    let mut tree = Mcts::new(&board, weights(0, 0, 1, 0, 1, -1, -1));
    grow(&mut tree, 3);
    tree.reset_to(&board);
    assert_eq!(tree.num_nodes(), 0);
    assert_eq!(tree.get_node(0).get_n_val(), 0);
    assert!(tree.get_node(0).get_mov().is_none());
}

#[test]
fn arena_plays_a_bounded_game() {
    let black = RandomBot::new(1, RandomRollout::new(1));
    let white = RandomBot::new(1, RandomRollout::new(1));
    let mut arena = Arena::new(black, white);
    assert!(arena.get_replay_buffer().is_empty());
    let info = arena.fight_or_be_forgotten(1, 1);
    assert!(info.num_turns <= MAX_NUMBER_OF_MOVES);
    let replay = arena.get_replay_buffer();
    assert_eq!(replay.len(), info.num_turns);
    if info.num_turns < MAX_NUMBER_OF_MOVES {
        assert!(!matches!(info.state, GameState::Undecided));
        assert!(replay.last().unwrap().1.is_game_over());
    }
}

#[test]
fn search_returns_a_best_first_move() {
    let board = Board::from_bitboards(bit(50) | bit(70), bit(90), bit(2), PieceColor::Defender).unwrap();
    let mut bot = AlphaBetaBot::new(3, weights(0, 0, 1, 0, 1, -1, -1));
    let m = bot.search(&board, 60_000).unwrap();
    // both corners of the top row win at once
    assert_eq!(m.get_start_pos().get_num(), 2);
    assert!([0, 10].contains(&m.get_end_pos().get_num()));
}

#[test]
fn search_on_finished_game_finds_nothing() {
    let board = Board::from_bitboards(0, bit(50), bit(40), PieceColor::Attacker).unwrap();
    let mut bot = AlphaBetaBot::new(3, weights(0, 0, 1, 0, 1, -1, -1));
    assert!(bot.search(&board, 1000).is_none());
}

#[test]
fn mcts_best_move_keeps_first_of_ties() {
    // every child of a fresh tree gets one visit; with an evaluator that scores all boards
    // alike the averages tie, and the first child's move is chosen
    let board = Board::new();
    let mut tree = Mcts::new(&board, weights(0, 0, 0, 0, 0, 0, 0));
    grow(&mut tree, 3);
    let first = tree.get_node(0).get_children()[0];
    let q: Vec<i128> = tree.get_node(0).get_children().iter().map(|c| tree.get_node(*c).get_q_val()).collect();
    let best = tree.get_best_move().unwrap();
    if q.iter().all(|v| *v == q[0]) {
        let expected = tree.get_node(first).get_mov().unwrap();
        assert_eq!(best, expected);
    }
}

#[test]
fn rollout_with_fixed_choices() {
    let won = Board::from_bitboards(0, bit(50), bit(40), PieceColor::Attacker).unwrap();
    assert_eq!(RandomRollout::rollout_with(&won, &vec![]), -1);
    // with no choices left an unfinished game counts as a draw
    assert_eq!(RandomRollout::rollout_with(&Board::new(), &vec![]), 0);
    // the defender's king slides into a corner with its first move
    let board = Board::from_bitboards(bit(50) | bit(70), bit(90), bit(2), PieceColor::Defender).unwrap();
    let moves = board.get_legal_moves();
    let pick = moves.iter().position(|m| m.get_end_pos().get_num() == 0).unwrap();
    assert_eq!(RandomRollout::rollout_with(&board, &vec![pick]), -1);
}

#[test]
fn arena_records_why_it_stopped() {
    let black = RandomBot::new(1, RandomRollout::new(1));
    let white = RandomBot::new(1, RandomRollout::new(1));
    let mut arena = Arena::new(black, white);
    let info = arena.fight_or_be_forgotten(1, 1);
    let last_over = arena.get_replay_buffer().last().map(|e| e.1.is_game_over()).unwrap_or(false);
    assert!(info.no_move || last_over || info.num_turns == MAX_NUMBER_OF_MOVES);
}
