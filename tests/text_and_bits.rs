use hnefatafl::board::Board;
use hnefatafl::move_generation::MoveGen;
use hnefatafl::moves::Move;
use hnefatafl::position::Position;
use hnefatafl::text::{MoveErrorKind, PositionErrorKind};

#[test]
fn position_from_words() {
    assert_eq!(Position::from_str(&["3", "D"]).ok().map(|p| p.get_num()), Some(36));
    assert_eq!(Position::from_str(&["+3", "B"]).ok().map(|p| p.get_num()), Some(34));
    assert_eq!(Position::from_str(&["10", "K"]).ok().map(|p| p.get_num()), Some(120));
}

#[test]
fn position_errors() {
    let kind = |words: &[&str]| Position::from_str(words).err().map(|e| e.kind);
    assert!(matches!(kind(&["3"]), Some(PositionErrorKind::WrongDataAmount)));
    assert!(matches!(kind(&["3", "D", "E"]), Some(PositionErrorKind::WrongDataAmount)));
    assert!(matches!(kind(&["x", "D"]), Some(PositionErrorKind::IntParsing(_))));
    assert!(matches!(kind(&["-1", "D"]), Some(PositionErrorKind::IntParsing(_))));
    assert!(matches!(kind(&["3", ""]), Some(PositionErrorKind::NonLetter)));
    assert!(matches!(kind(&["11", "A"]), Some(PositionErrorKind::OutOfRange)));
    assert!(matches!(kind(&["3", "L"]), Some(PositionErrorKind::OutOfRange)));
    assert!(matches!(kind(&["3", "a"]), Some(PositionErrorKind::OutOfRange)));
    assert!(matches!(kind(&["3", "1"]), Some(PositionErrorKind::OutOfRange)));
}

#[test]
fn move_from_words() {
    let m = Move::from_str(&["0", "D", "1", "D"]).ok().unwrap();
    assert_eq!(m.get_start_pos().get_num(), 3);
    assert_eq!(m.get_end_pos().get_num(), 14);
    assert!(Move::from_str(&["0", "D", "1", "D", "extra"]).is_ok());
    let kind = |words: &[&str]| Move::from_str(words).err().map(|e| e.kind);
    assert!(matches!(kind(&["0", "D", "1"]), Some(MoveErrorKind::WrongDataAmount)));
    assert!(matches!(kind(&["0", "D", "x", "D"]), Some(MoveErrorKind::PositionError(_))));
    assert!(matches!(kind(&["0", "Z", "1", "D"]), Some(MoveErrorKind::PositionError(_))));
}

#[test]
fn parsed_move_is_playable() {
    let mut board = Board::new();
    let m = Move::from_str(&["0", "D", "1", "D"]).ok().unwrap();
    assert!(board.is_valid_move(&m, &board.get_player()));
    assert!(board.make_move_captured_positions(&m).is_empty());
}

fn column_bits(y: usize) -> u128 {
    (0..11).map(|r| 1u128 << (r * 11 + y)).sum()
}

#[test]
fn slider_masks() {
    let gen = MoveGen::new();
    assert_eq!(gen.slider_mask(&Position::new_n(0)), (0x7FFu128 ^ column_bits(0)));
    let centre = gen.slider_mask(&Position::new_n(60));
    assert_eq!(centre, (0x7FFu128 << 55) ^ column_bits(5));
    assert_eq!(centre.count_ones(), 20);
    assert_eq!(centre >> 60 & 1, 0);
}

#[test]
fn slides_on_bit_sets() {
    let gen = MoveGen::new();
    let centre = Position::new_n(60);
    assert_eq!(gen.old_gen_moves(&centre, 0), gen.slider_mask(&centre));
    // a blocker on (5, 7) stops the slide to the right at (5, 6)
    let blocked = gen.old_gen_moves(&centre, 1u128 << 62);
    assert_eq!(blocked >> 61 & 1, 1);
    assert_eq!(blocked >> 62 & 1, 0);
    assert_eq!(blocked >> 63 & 1, 0);
    assert_eq!(blocked.count_ones(), 16);
    // thrones are not excluded here
    assert_eq!(gen.old_gen_moves(&Position::new_n(1), 0) & 1, 1);
}

#[test]
fn magic_transform_and_occupancy() {
    let gen = MoveGen::new();
    assert_eq!(gen.transform(1, 1u128 << 120, 1), 1);
    assert_eq!(gen.transform(3, 1u128 << 119, 2), 3);
    // the product wraps around
    assert_eq!(gen.transform(1u128 << 127, 2, 4), 0);
    assert_eq!(gen.gen_occupied(0b101, 3, 0b10110), 0b10010);
    assert_eq!(gen.gen_occupied(0b111, 3, 0b10110), 0b10110);
    assert_eq!(gen.gen_occupied(0, 3, 0b10110), 0);
}

#[test]
fn random_multipliers_stay_on_the_board() {
    let gen = MoveGen::new();
    for _ in 0..50 {
        assert_eq!(gen.random_few_bits() >> 121, 0);
    }
}

#[test]
fn magic_candidates_are_checked() {
    let gen = MoveGen::new();
    let magic = 1u128 << 115;
    // the two blocker sets differ only in bit 10, which the product pushes off the board
    let blockings = vec![1u128, 1 | (1 << 10)];
    assert!(gen.magic_fits(0x3F, &blockings, &vec![5, 5], magic, 6));
    assert!(!gen.magic_fits(0x3F, &blockings, &vec![5, 6], magic, 6));
    assert!(gen.magic_fits(0x3F, &vec![1, 2], &vec![5, 6], magic, 6));
    // too few bits of the mask reach the hash
    assert!(!gen.magic_fits(0x3F, &vec![1, 2], &vec![5, 6], 1u128 << 114, 6));
}

#[test]
fn deposit_uses_many_fields() {
    let gen = MoveGen::new();
    let mask = u128::MAX >> 7;
    assert_eq!(gen.gen_occupied(usize::MAX, 40, mask), (1u128 << 40) - 1);
    assert_eq!(gen.gen_occupied(1, 40, 1u128 << 100), 1u128 << 100);
}

#[test]
fn first_fitting_candidate_is_returned() {
    let gen = MoveGen::new();
    let blockings = vec![1u128, 1 | (1 << 10)];
    let correct = vec![5u128, 5];
    // the first candidate spreads too few bits, the second fits, the third would too
    let candidates = vec![1u128 << 114, 1u128 << 115, 1u128 << 115];
    assert_eq!(gen.find_magic(0x3F, &blockings, &correct, &candidates, 6), 1u128 << 115);
    assert_eq!(gen.find_magic(0x3F, &blockings, &correct, &vec![1u128 << 114, 0], 6), 0);
}
