use vstd::prelude::*;
use crate::bits::has_bit;
use crate::board::{apply_move, count_below, is_terminal, legal_moves, move_views, winner, Board, BoardState, GameState};
use crate::rules::lemma_legal_move_applicable;
use crate::piece::PieceColor;
use crate::position::{row_of, col_of, cell_at, corner_distance, on_board, Position, BOARDSIZE, NUM_CELLS};

verus! {

/// Every evaluator's scores lie within this bound, either way.
pub const SCORE_LIMIT: i64 = 0x4_0000_0000_0000;

/// The score of a won game, positive for the attacker.
pub const WIN_SCORE: i64 = 1000;

/// Builds an evaluator from its parameters.
pub trait EvalInit: Sized {
    type Param;

    fn new(param: Self::Param) -> Self;
}

/// Scores a board; a positive score favours the attacker.
pub trait Eval {
    /// The score of a board, for an evaluator whose score depends on the board alone.
    spec fn score(&self, b: BoardState) -> int;

    /// Whether `get_eval` returns `score`: an evaluator that samples games does not.
    spec fn deterministic(&self) -> bool;

    /// The evaluation of `board`.
    fn get_eval(&self, board: &Board) -> (r: i64)
        requires
            board.wf(),
        ensures
            -SCORE_LIMIT <= r <= SCORE_LIMIT,
            self.deterministic() ==> r == self.score(board@);

    /// Lets a stateful evaluator learn from a board.
    fn update(&mut self, board: Board);
}

/// Cells of the first ring around the centre.
pub const RING_1: u128 = 0x802802000000000000;

/// Cells of the second ring around the centre.
pub const RING_2: u128 = 0x401404405004000000000;

/// Cells of the third ring around the centre.
pub const RING_3: u128 = 0x200a0220820880a008000000;

/// Cells of the fourth ring around the centre.
pub const RING_4: u128 = 0x100501104110110411014010000;

/// Cells next to the corners.
pub const CORNER: u128 = 0x411014010000000000000100501104;

/// Cells of the board's edge.
pub const EDGE: u128 = 0x1ffe00c0180300600c0180300600fff;

/// The weights of the hand-made evaluation.
pub struct HumanScoreParam {
    pub w_ring_1: i32,
    pub w_ring_2: i32,
    pub w_ring_3: i32,
    pub w_ring_4: i32,
    pub w_corner: i32,
    pub w_edge: i32,
    pub w_king_dst: i32,
}

/// A hand-made evaluation: material, attacker pawns on rings round the centre and next to the
/// corners, rows and columns that hold an attacker, the king on the edge, and the king's
/// distance to a corner.
pub struct HumanScore {
    pub w_ring_1: i32,
    pub w_ring_2: i32,
    pub w_ring_3: i32,
    pub w_ring_4: i32,
    pub w_corner: i32,
    pub w_edge: i32,
    pub w_king_dst: i32,
}

/// The number of cells of `s` whose bit is set in `mask`.
pub open spec fn count_in(s: Set<int>, mask: u128) -> int {
    count_below(s.filter(|i: int| has_bit(mask, i as u128)), 121) as int
}

/// Row `l` holds a cell of `s`.
pub open spec fn row_used(s: Set<int>, l: int) -> bool {
    exists|c: int| 0 <= c < 11 && #[trigger] s.contains(cell_at(l, c))
}

/// Column `l` holds a cell of `s`.
pub open spec fn col_used(s: Set<int>, l: int) -> bool {
    exists|r: int| 0 <= r < 11 && #[trigger] s.contains(cell_at(r, l))
}

/// Cell `t` of row `l`, or of column `l` with `cols`.
pub open spec fn line_cell(l: int, t: int, cols: bool) -> int {
    if cols {
        cell_at(t, l)
    } else {
        cell_at(l, t)
    }
}

/// The number of rows (or, with `cols`, columns) below `n` that hold a cell of `s`.
pub open spec fn lines_used(s: Set<int>, n: int, cols: bool) -> int
    decreases n,
{
    if n <= 0 {
        0
    } else {
        lines_used(s, n - 1, cols) + if (if cols {
            col_used(s, n - 1)
        } else {
            row_used(s, n - 1)
        }) {
            1int
        } else {
            0int
        }
    }
}

impl HumanScore {
    /// The score of an undecided board with a king.
    pub open spec fn heuristic(&self, b: BoardState) -> int {
        let a = b.attackers;
        let k = b.king->0;
        count_below(a, 121) - 2 * count_below(b.defenders, 121) + self.w_ring_1 * count_in(a, RING_1)
            + self.w_ring_2 * count_in(a, RING_2) + self.w_ring_3 * count_in(a, RING_3)
            + self.w_ring_4 * count_in(a, RING_4) + self.w_corner * count_in(a, CORNER)
            + lines_used(a, 11, false) + lines_used(a, 11, true) + (if has_bit(EDGE, k as u128) {
            self.w_edge as int
        } else {
            0
        }) + self.w_king_dst * (10 - corner_distance(k))
    }

    pub open spec fn value(&self, b: BoardState) -> int {
        match winner(b) {
            GameState::WinAttacker => WIN_SCORE as int,
            GameState::WinDefender => -WIN_SCORE,
            GameState::Draw => 0,
            GameState::Undecided => self.heuristic(b),
        }
    }
}

pub proof fn lemma_count_below_bound(s: Set<int>, n: int)
    requires
        n >= 0,
    ensures
        count_below(s, n) <= n,
    decreases n,
{
    if n > 0 {
        lemma_count_below_bound(s, n - 1);
    }
}

proof fn lemma_weighted(w: i32, c: i64)
    requires
        -121 <= c <= 121,
    ensures
        -0x100_0000_0000 <= w as i64 * c <= 0x100_0000_0000,
{
    assert(-0x100_0000_0000 <= w as i64 * c <= 0x100_0000_0000) by (nonlinear_arith)
        requires
            -121 <= c <= 121,
            -0x8000_0000 <= w < 0x8000_0000,
    ;
}

proof fn lemma_lines_bound(s: Set<int>, n: int, cols: bool)
    requires
        n >= 0,
    ensures
        0 <= lines_used(s, n, cols) <= n,
    decreases n,
{
    if n > 0 {
        lemma_lines_bound(s, n - 1, cols);
    }
}

/// The number of attacker pawns on cells whose bit is set in `mask`.
fn count_attackers_in(board: &Board, mask: u128) -> (r: i64)
    requires
        board.wf(),
    ensures
        r == count_in(board@.attackers, mask),
        0 <= r <= 121,
{
    let ghost s = board@.attackers.filter(|i: int| has_bit(mask, i as u128));
    let mut count: i64 = 0;
    let mut i: usize = 0;
    while i < NUM_CELLS
        invariant
            board.wf(),
            i <= 121,
            s == board@.attackers.filter(|i: int| has_bit(mask, i as u128)),
            count == count_below(s, i as int),
            count <= i,
        decreases 121 - i,
    {
        let p = Position::new_n(i);
        if board.has_color_piece(&p, &PieceColor::Attacker) && (mask >> (i as u128)) & 1 == 1 {
            count += 1;
        }
        i += 1;
    }
    count
}

/// The number of rows (or, with `cols`, columns) that hold an attacker pawn.
fn count_attacker_lines(board: &Board, cols: bool) -> (r: i64)
    requires
        board.wf(),
    ensures
        r == lines_used(board@.attackers, 11, cols),
        0 <= r <= 11,
{
    let ghost s = board@.attackers;
    let mut count: i64 = 0;
    let mut line: usize = 0;
    while line < BOARDSIZE
        invariant
            board.wf(),
            s == board@.attackers,
            line <= 11,
            count == lines_used(s, line as int, cols),
            count <= line,
        decreases 11 - line,
    {
        let mut found = false;
        let mut j: usize = 0;
        while j < BOARDSIZE
            invariant
                board.wf(),
                s == board@.attackers,
                line < 11,
                j <= 11,
                found <==> exists|t: int| 0 <= t < j && s.contains(#[trigger] line_cell(line as int, t, cols)),
            decreases 11 - j,
        {
            let p = if cols { Position::new_xy(j, line) } else { Position::new_xy(line, j) };
            assert(p@ == line_cell(line as int, j as int, cols));
            if board.has_color_piece(&p, &PieceColor::Attacker) {
                found = true;
            }
            j += 1;
        }
        proof {
            if cols {
                if found {
                    let t = choose|t: int| 0 <= t < 11 && s.contains(#[trigger] line_cell(line as int, t, cols));
                    assert(s.contains(cell_at(t, line as int)));
                }
                if col_used(s, line as int) {
                    let t = choose|t: int| 0 <= t < 11 && #[trigger] s.contains(cell_at(t, line as int));
                    assert(s.contains(line_cell(line as int, t, cols)));
                }
                assert(found <==> col_used(s, line as int));
            } else {
                if found {
                    let t = choose|t: int| 0 <= t < 11 && s.contains(#[trigger] line_cell(line as int, t, cols));
                    assert(s.contains(cell_at(line as int, t)));
                }
                if row_used(s, line as int) {
                    let t = choose|t: int| 0 <= t < 11 && #[trigger] s.contains(cell_at(line as int, t));
                    assert(s.contains(line_cell(line as int, t, cols)));
                }
                assert(found <==> row_used(s, line as int));
            }
        }
        if found {
            count += 1;
        }
        line += 1;
    }
    proof {
        lemma_lines_bound(s, 11, cols);
    }
    count
}

impl EvalInit for HumanScore {
    type Param = HumanScoreParam;

    fn new(param: HumanScoreParam) -> HumanScore {
        HumanScore {
            w_ring_1: param.w_ring_1,
            w_ring_2: param.w_ring_2,
            w_ring_3: param.w_ring_3,
            w_ring_4: param.w_ring_4,
            w_corner: param.w_corner,
            w_edge: param.w_edge,
            w_king_dst: param.w_king_dst,
        }
    }
}

impl Eval for HumanScore {
    open spec fn score(&self, b: BoardState) -> int {
        self.value(b)
    }

    open spec fn deterministic(&self) -> bool {
        true
    }

    fn get_eval(&self, board: &Board) -> (r: i64)
        ensures
            winner(board@) == GameState::WinAttacker ==> r == WIN_SCORE,
            winner(board@) == GameState::WinDefender ==> r == -WIN_SCORE,
            winner(board@) == GameState::Draw ==> r == 0,
    {
        match board.who_won() {
            GameState::WinAttacker => return WIN_SCORE,
            GameState::WinDefender => return -WIN_SCORE,
            GameState::Draw => return 0,
            GameState::Undecided => {},
        }
        let attackers = board.number_of_colored_pieces(&PieceColor::Attacker) as i64;
        let defenders = board.number_of_colored_pieces(&PieceColor::Defender) as i64;
        proof {
            lemma_count_below_bound(board@.attackers, 121);
            lemma_count_below_bound(board@.defenders, 121);
        }
        let on_ring_1 = count_attackers_in(board, RING_1);
        let on_ring_2 = count_attackers_in(board, RING_2);
        let on_ring_3 = count_attackers_in(board, RING_3);
        let on_ring_4 = count_attackers_in(board, RING_4);
        let on_corners = count_attackers_in(board, CORNER);
        proof {
            lemma_weighted(self.w_ring_1, on_ring_1);
            lemma_weighted(self.w_ring_2, on_ring_2);
            lemma_weighted(self.w_ring_3, on_ring_3);
            lemma_weighted(self.w_ring_4, on_ring_4);
            lemma_weighted(self.w_corner, on_corners);
        }
        let position_sum = self.w_ring_1 as i64 * on_ring_1 + self.w_ring_2 as i64 * on_ring_2
            + self.w_ring_3 as i64 * on_ring_3 + self.w_ring_4 as i64 * on_ring_4
            + self.w_corner as i64 * on_corners;
        let lines = count_attacker_lines(board, false) + count_attacker_lines(board, true);
        let king = board.get_king_pos().unwrap();
        proof {
            board.lemma_wf();
        }
        let edge_bonus: i64 = if (EDGE >> (king.get_num() as u128)) & 1 == 1 {
            self.w_edge as i64
        } else {
            0
        };
        let dist = king.min_dist_to_corner();
        assert(dist <= 20) by {
            assert(0 <= row_of(king@) <= 10 && 0 <= col_of(king@) <= 10);
        }
        let king_distance = 10 - dist as i64;
        proof {
            lemma_weighted(self.w_king_dst, king_distance);
        }
        attackers - 2 * defenders + position_sum + lines + edge_bonus + self.w_king_dst as i64
            * king_distance
    }

    fn update(&mut self, board: Board) {
    }
}

/// The longest random game that a rollout plays before it calls the game a draw.
pub const MAX_ROLLOUT_PLIES: usize = 1000;

/// The outcome of a finished game: 1 for the attacker's win, -1 for the defender's, 0 else.
pub open spec fn outcome(g: GameState) -> int {
    match g {
        GameState::WinAttacker => 1,
        GameState::WinDefender => -1,
        _ => 0,
    }
}

/// Scores a board by one game of random moves played from it: 1 where the attacker wins, -1
/// where the defender wins, 0 for a draw or a game that runs too long.
pub struct RandomRollout;

impl EvalInit for RandomRollout {
    type Param = usize;

    fn new(param: usize) -> RandomRollout {
        RandomRollout
    }
}

/// The outcome of the game played from `b`, from ply `t` on, where ply `t` plays move
/// `picks[t] % n` of the `n` moves of the side to move: 1 where the attacker wins, -1 where the
/// defender wins, 0 for a draw or once the picks or `MAX_ROLLOUT_PLIES` plies run out; a side
/// without moves loses.
pub open spec fn rollout_value(b: BoardState, picks: Seq<usize>, t: nat) -> int
    decreases MAX_ROLLOUT_PLIES - t,
{
    if is_terminal(b) {
        outcome(winner(b))
    } else if t >= MAX_ROLLOUT_PLIES || t >= picks.len() {
        0
    } else {
        let ms = legal_moves(b, b.player);
        if ms.len() == 0 {
            if b.player == PieceColor::Attacker {
                -1
            } else {
                1
            }
        } else {
            rollout_value(apply_move(b, ms[(picks[t as int] as int) % (ms.len() as int)]), picks, t + 1)
        }
    }
}

proof fn lemma_rollout_range(b: BoardState, picks: Seq<usize>, t: nat)
    ensures
        -1 <= rollout_value(b, picks, t) <= 1,
    decreases MAX_ROLLOUT_PLIES - t,
{
    if !is_terminal(b) && t < MAX_ROLLOUT_PLIES && t < picks.len() {
        let ms = legal_moves(b, b.player);
        if ms.len() > 0 {
            lemma_rollout_range(apply_move(b, ms[(picks[t as int] as int) % (ms.len() as int)]), picks, t + 1);
        }
    }
}

impl RandomRollout {
    /// Plays the game from `board` with the given move choices (see `rollout_value`) and returns
    /// its outcome.
    pub fn rollout_with(board: &Board, picks: &Vec<usize>) -> (r: i64)
        requires
            board.wf(),
        ensures
            r == rollout_value(board@, picks@, 0),
    {
        let mut rollout_board = board.clone();
        let mut plies: usize = 0;
        loop
            invariant
                rollout_board.wf(),
                plies <= MAX_ROLLOUT_PLIES,
                rollout_value(rollout_board@, picks@, plies as nat) == rollout_value(board@, picks@, 0),
            decreases MAX_ROLLOUT_PLIES - plies,
        {
            if rollout_board.is_game_over() {
                return match rollout_board.who_won() {
                    GameState::WinAttacker => 1,
                    GameState::WinDefender => -1,
                    _ => 0,
                };
            }
            if plies >= MAX_ROLLOUT_PLIES || plies >= picks.len() {
                return 0;
            }
            let moves = rollout_board.get_legal_moves();
            if moves.len() == 0 {
                return match rollout_board.get_player() {
                    PieceColor::Attacker => -1,
                    PieceColor::Defender => 1,
                };
            }
            let mov = moves[picks[plies] % moves.len()];
            proof {
                let ms = legal_moves(rollout_board@, rollout_board@.player);
                let k = (picks@[plies as int] as int) % (ms.len() as int);
                assert(move_views(moves@)[k] == mov@);
                assert(ms.contains(mov@));
                rollout_board.lemma_wf();
                lemma_legal_move_applicable(rollout_board@, rollout_board@.player, mov@);
            }
            rollout_board.make_move_captured_positions(&mov);
            plies += 1;
        }
    }
}

impl Eval for RandomRollout {
    /// On a finished game the score is its outcome; on others it is drawn by chance.
    open spec fn score(&self, b: BoardState) -> int {
        outcome(winner(b))
    }

    open spec fn deterministic(&self) -> bool {
        false
    }

    fn get_eval(&self, board: &Board) -> (r: i64)
        ensures
            -1 <= r <= 1,
            is_terminal(board@) ==> r == outcome(winner(board@)),
            exists|picks: Seq<usize>| r == #[trigger] rollout_value(board@, picks, 0),
    {
        let mut picks: Vec<usize> = Vec::with_capacity(MAX_ROLLOUT_PLIES);
        let mut i: usize = 0;
        while i < MAX_ROLLOUT_PLIES
            invariant
                i <= MAX_ROLLOUT_PLIES,
            decreases MAX_ROLLOUT_PLIES - i,
        {
            picks.push(rand::random::<usize>());
            i += 1;
        }
        let r = RandomRollout::rollout_with(board, &picks);
        proof {
            lemma_rollout_range(board@, picks@, 0);
        }
        r
    }

    fn update(&mut self, board: Board) {
    }
}

} // verus!
