use hnefatafl::board::{Board, GameState};
use hnefatafl::moves::Move;
use hnefatafl::piece::{Piece, PieceColor};
use hnefatafl::position::Position;

fn bit(i: usize) -> u128 {
    1u128 << i
}

fn mv(a: usize, b: usize) -> Move {
    Move::new(Position::new_n(a), Position::new_n(b))
}

fn ends_from(board: &Board, cell: usize) -> Vec<usize> {
    board
        .possible_moves_from_pos(&Position::new_n(cell))
        .unwrap()
        .iter()
        .map(|m| m.get_end_pos().get_num())
        .collect()
}

#[test]
fn initial_board_layout() {
    let board = Board::new();
    assert_eq!(board.number_of_colored_pieces(&PieceColor::Attacker), 24);
    assert_eq!(board.number_of_colored_pieces(&PieceColor::Defender), 12);
    assert_eq!(board.get_king_pos().map(|p| p.get_num()), Some(60));
    assert_eq!(board.get_player(), PieceColor::Attacker);
    assert!(board.has_color_piece(&Position::new_n(3), &PieceColor::Attacker));
    assert!(board.has_color_piece(&Position::new_n(60), &PieceColor::Defender));
    assert!(!board.pos_is_occupied(&Position::new_n(0)));
    assert_eq!(*board.get_king(), 1u128 << 60);
}

#[test]
fn initial_move_counts() {
    let board = Board::new();
    assert_eq!(board.get_moves_color(&PieceColor::Attacker).len(), 116);
    assert_eq!(board.get_moves_color(&PieceColor::Defender).len(), 60);
    assert_eq!(board.get_legal_moves().len(), 116);
    assert!(matches!(board.who_won(), GameState::Undecided));
    assert!(!board.is_game_over());
}

#[test]
fn first_generated_moves_slide_down_first() {
    let board = Board::new();
    let moves = board.get_legal_moves();
    let firsts: Vec<(usize, usize)> = moves
        .iter()
        .take(5)
        .map(|m| (m.get_start_pos().get_num(), m.get_end_pos().get_num()))
        .collect();
    assert_eq!(firsts, vec![(3, 14), (3, 25), (3, 36), (3, 47), (3, 2)]);
}

#[test]
fn generated_moves_land_on_empty_cells_only() {
    let board = Board::new();
    for color in [PieceColor::Attacker, PieceColor::Defender] {
        for m in board.get_moves_color(&color) {
            assert!(board.has_color_piece(m.get_start_pos(), &color));
            assert!(!board.pos_is_occupied(m.get_end_pos()));
            let (sx, sy) = (m.get_start_pos().get_x(), m.get_start_pos().get_y());
            let (ex, ey) = (m.get_end_pos().get_x(), m.get_end_pos().get_y());
            assert!(sx == ex || sy == ey);
            let steps = sx.abs_diff(ex) + sy.abs_diff(ey);
            for k in 1..steps {
                let x = if ex > sx { sx + k } else if ex < sx { sx - k } else { sx };
                let y = if ey > sy { sy + k } else if ey < sy { sy - k } else { sy };
                assert!(!board.pos_is_occupied(&Position::new_xy(x, y)));
            }
        }
    }
}

#[test]
fn pawn_passes_over_but_never_stops_on_a_throne() {
    // an attacker pawn on (5, 0) slides right over the empty centre
    let board = Board::from_bitboards(bit(55), bit(13), bit(27), PieceColor::Attacker).unwrap();
    let moves = ends_from(&board, 55);
    assert!(!moves.contains(&60));
    assert!(moves.contains(&59));
    assert!(moves.contains(&61));
    assert!(moves.contains(&65));
}

#[test]
fn king_may_stop_on_a_throne() {
    let board = Board::from_bitboards(bit(33), bit(13), bit(58), PieceColor::Defender).unwrap();
    let moves = ends_from(&board, 58);
    assert!(moves.contains(&60));
    for t in [0usize, 10, 110, 120] {
        for m in board.get_moves_color(&PieceColor::Defender) {
            if m.get_start_pos().get_num() != 58 {
                assert_ne!(m.get_end_pos().get_num(), t);
            }
        }
    }
}

#[test]
fn possible_moves_from_empty_cell_is_none() {
    let board = Board::new();
    assert!(board.possible_moves_from_pos(&Position::new_n(0)).is_none());
    assert_eq!(board.possible_moves_from_pos(&Position::new_n(3)).unwrap().len(), 6);
}

#[test]
fn flanked_pawn_is_captured_alone() {
    // defender pawn on (3, 3), attacker on (3, 4); the attacker on (5, 2) moves up to (3, 2)
    let attackers = bit(37) | bit(57) | bit(100);
    let board = Board::from_bitboards(attackers, bit(36) | bit(90), bit(16), PieceColor::Attacker);
    let mut board = board.unwrap();
    let m = mv(57, 35);
    assert!(board.is_valid_move(&m, &PieceColor::Attacker));
    let captured = board.make_move_captured_positions(&m);
    assert_eq!(captured.iter().map(|p| p.get_num()).collect::<Vec<_>>(), vec![36]);
    assert!(!board.pos_is_occupied(&Position::new_n(36)));
    assert!(board.has_color_piece(&Position::new_n(90), &PieceColor::Defender));
    assert_eq!(board.number_of_colored_pieces(&PieceColor::Defender), 1);
    assert_eq!(board.get_player(), PieceColor::Defender);
}

#[test]
fn throne_acts_as_a_flanking_piece() {
    // defender pawn on (0, 1) next to the corner; an attacker moves onto (0, 2)
    let board = Board::from_bitboards(bit(24), bit(1) | bit(80), bit(40), PieceColor::Attacker);
    let mut board = board.unwrap();
    let captured = board.make_move_captured_positions(&mv(24, 2));
    assert_eq!(captured.iter().map(|p| p.get_num()).collect::<Vec<_>>(), vec![1]);
}

#[test]
fn pawn_without_flank_survives() {
    let board = Board::from_bitboards(bit(57), bit(36) | bit(90), bit(16), PieceColor::Attacker);
    let mut board = board.unwrap();
    let captured = board.make_move_captured_positions(&mv(57, 35));
    assert!(captured.is_empty());
    assert!(board.has_color_piece(&Position::new_n(36), &PieceColor::Defender));
}

#[test]
fn two_pawns_captured_at_once() {
    // defenders on (3, 3) and (5, 3); attackers on (2, 3) and (6, 3); one moves into (4, 3)
    let attackers = bit(25) | bit(69) | bit(50);
    let board = Board::from_bitboards(attackers, bit(36) | bit(58), bit(16), PieceColor::Attacker);
    let mut board = board.unwrap();
    let captured = board.make_move_captured_positions(&mv(50, 47));
    assert_eq!(captured.iter().map(|p| p.get_num()).collect::<Vec<_>>(), vec![36, 58]);
}

#[test]
fn king_captured_only_when_surrounded() {
    // king on (1, 1); attackers on (0, 1), (1, 0) and (2, 1); one moves from (2, 2) to (1, 2)
    let attackers = bit(1) | bit(11) | bit(23) | bit(24);
    let board = Board::from_bitboards(attackers, bit(100), bit(12), PieceColor::Attacker);
    let mut board = board.unwrap();
    let captured = board.make_move_captured_positions(&mv(24, 13));
    assert_eq!(captured.iter().map(|p| p.get_num()).collect::<Vec<_>>(), vec![12]);
    assert!(board.get_king_pos().is_none());
    assert!(matches!(board.who_won(), GameState::WinAttacker));
    assert!(board.is_game_over());
}

#[test]
fn king_with_open_side_survives() {
    let attackers = bit(1) | bit(11) | bit(24);
    let board = Board::from_bitboards(attackers, bit(100), bit(12), PieceColor::Attacker);
    let mut board = board.unwrap();
    let captured = board.make_move_captured_positions(&mv(24, 13));
    assert!(captured.is_empty());
    assert_eq!(board.get_king_pos().map(|p| p.get_num()), Some(12));
}

#[test]
fn king_reaching_a_corner_wins() {
    // the king on (0, 2) slides left to the corner
    let board = Board::from_bitboards(bit(50) | bit(70), bit(90), bit(2), PieceColor::Defender);
    let mut board = board.unwrap();
    assert!(matches!(board.who_won(), GameState::Undecided));
    let m = mv(2, 0);
    assert!(board.is_valid_move(&m, &PieceColor::Defender));
    board.make_move_captured_positions(&m);
    assert!(matches!(board.who_won(), GameState::WinDefender));
    assert!(board.is_game_over());
}

#[test]
fn king_move_from_initial_layout_to_corner() {
    // the initial layout with the king's row and column cleared of its own guards
    let start = Board::new();
    let defenders = *start.get_defender();
    let attackers = *start.get_attacker() & !(bit(3) | bit(4) | bit(5) | bit(6) | bit(7) | bit(16));
    let defenders = defenders & !(bit(38) | bit(49) | bit(59) | bit(61) | bit(71));
    let board = Board::from_bitboards(attackers, defenders & !bit(48) & !bit(50), bit(5), PieceColor::Defender);
    let mut board = board.unwrap();
    let m = mv(5, 0);
    assert!(board.is_valid_move(&m, &PieceColor::Defender));
    board.make_move_captured_positions(&m);
    assert!(matches!(board.who_won(), GameState::WinDefender));
}

#[test]
fn defender_without_moves_loses() {
    // the king alone in the corner region, boxed in
    let board = Board::from_bitboards(bit(1) | bit(11) | bit(12), 0, bit(0), PieceColor::Defender);
    let board = board.unwrap();
    assert_eq!(board.get_moves_color(&PieceColor::Defender).len(), 0);
    assert!(matches!(board.who_won(), GameState::WinAttacker));
}

#[test]
fn attacker_without_moves_loses() {
    let board = Board::from_bitboards(0, bit(50), bit(40), PieceColor::Attacker).unwrap();
    assert!(matches!(board.who_won(), GameState::WinDefender));
}

#[test]
fn bitboards_are_checked() {
    assert!(Board::from_bitboards(bit(3), bit(3), 0, PieceColor::Attacker).is_none());
    assert!(Board::from_bitboards(bit(3), bit(4), bit(3), PieceColor::Attacker).is_none());
    assert!(Board::from_bitboards(bit(3), bit(4), bit(5) | bit(6), PieceColor::Attacker).is_none());
    assert!(Board::from_bitboards(bit(125), 0, 0, PieceColor::Attacker).is_none());
    assert!(Board::from_bitboards(bit(3), bit(4), bit(5), PieceColor::Attacker).is_some());
    assert!(Board::from_bitboards(bit(3), bit(4), 0, PieceColor::Attacker).is_some());
}

#[test]
fn random_move_is_legal() {
    let board = Board::new();
    for _ in 0..20 {
        let m = board.get_random_move().unwrap();
        assert!(board.is_valid_move(&m, &PieceColor::Attacker));
        let d = board.get_random_move_color(&PieceColor::Defender).unwrap();
        assert!(board.is_valid_move(&d, &PieceColor::Defender));
    }
    let boxed = Board::from_bitboards(bit(1) | bit(11) | bit(12), 0, bit(0), PieceColor::Defender);
    assert!(boxed.unwrap().get_random_move().is_none());
}

#[test]
fn clone_keeps_the_board() {
    let mut board = Board::new();
    let copy = board.clone();
    board.make_move_captured_positions(&mv(3, 14));
    assert_eq!(copy.get_legal_moves().len(), 116);
    assert_eq!(copy.get_player(), PieceColor::Attacker);
    assert_eq!(board.get_player(), PieceColor::Defender);
    assert!(board.has_color_piece(&Position::new_n(14), &PieceColor::Attacker));
    assert!(!board.has_color_piece(&Position::new_n(3), &PieceColor::Attacker));
}

#[test]
fn update_possible_moves_keeps_lists() {
    let mut board = Board::new();
    board.update_possible_moves();
    assert_eq!(board.possible_moves_color(&PieceColor::Attacker).len(), 116);
    assert_eq!(board.get_moves_color(&PieceColor::Defender).len(), 60);
}

#[test]
fn pieces_and_colors() {
    let king = Piece::King(PieceColor::Defender);
    let pawn = Piece::Pawn(PieceColor::Attacker);
    assert!(king.is_king());
    assert!(!pawn.is_king());
    assert!(king.is_defender());
    assert!(pawn.is_attacker());
    assert!(!pawn.is_defender());
    assert_eq!(pawn.get_color(), PieceColor::Attacker);
    assert!(king.is_color(&PieceColor::Defender));
    assert!(!king.same_color(&pawn));
    assert!(pawn.same_color(&Piece::Pawn(PieceColor::Attacker)));
    let mut c = PieceColor::Attacker;
    c.flip();
    assert_eq!(c, PieceColor::Defender);
    assert_eq!(c.get_opposite(), PieceColor::Attacker);
}

#[test]
fn positions() {
    let p = Position::new_xy(3, 7);
    assert_eq!(p.get_num(), 40);
    assert_eq!(p.get_x(), 3);
    assert_eq!(p.get_y(), 7);
    assert_eq!(p.manhatten_dist(&Position::new_n(0)), 10);
    assert_eq!(Position::new_n(60).min_dist_to_corner(), 10);
    assert_eq!(Position::new_n(12).min_dist_to_corner(), 2);
    assert_eq!(p.get_pos_mask(), 1u128 << 40);
    assert!(Position::new_n(60).is_throne());
    assert!(!Position::new_n(60).is_corner());
    assert!(Position::new_n(120).is_corner());
    assert!(!p.is_throne());
    let corner_pairs: Vec<(usize, usize)> = Position::new_n(0)
        .get_sur_pos_and_one_after()
        .iter()
        .map(|(a, b)| (a.get_num(), b.get_num()))
        .collect();
    assert_eq!(corner_pairs, vec![(11, 22), (1, 2)]);
    assert_eq!(Position::new_n(60).get_sur_pos_and_one_after().len(), 4);
    let around: Vec<usize> = Position::new_n(12).get_surrounding_pos().iter().map(|p| p.get_num()).collect();
    assert_eq!(around, vec![1, 23, 11, 13]);
    assert_eq!(Position::new_n(120).get_surrounding_pos().len(), 2);
}

#[test]
fn move_parts_and_mask() {
    let m = mv(3, 14);
    assert_eq!(m.get_start_pos().get_num(), 3);
    assert_eq!(m.get_end_pos().get_num(), 14);
    assert_eq!(m.get_mask(), (1u128 << 3) | (1u128 << 14));
}

#[test]
fn single_flanked_pawn_reported_alone() {
    let a = Position::new_xy(0, 2).get_pos_mask() | Position::new_xy(3, 4).get_pos_mask();
    let d = Position::new_xy(3, 3).get_pos_mask();
    let k = Position::new_xy(8, 8).get_pos_mask();
    let mut board = Board::from_bitboards(a, d, k, PieceColor::Attacker).unwrap();
    let m = Move::new(Position::new_xy(0, 2), Position::new_xy(3, 2));
    assert!(board.is_valid_move(&m, &PieceColor::Attacker));
    let captured = board.make_move_captured_positions(&m);
    assert_eq!(captured, vec![Position::new_xy(3, 3)]);
    assert_eq!(*board.get_defender(), 0);
    assert_eq!(*board.get_attacker(), Position::new_xy(3, 2).get_pos_mask() | Position::new_xy(3, 4).get_pos_mask());
    assert_eq!(board.get_king_pos(), Some(Position::new_xy(8, 8)));
    assert_eq!(board.get_player(), PieceColor::Defender);
}
