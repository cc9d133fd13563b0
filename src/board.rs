use vstd::prelude::*;
use crate::bits::{
    has_bit, lemma_bit_clear, lemma_bit_toggle2, lemma_masked_clear, lemma_masked_toggle2,
    lemma_shift_injective, lemma_single_bit, lemma_single_clear, lemma_single_toggle,
    lemma_zero_no_bits, lemma_and_bit, lemma_masked_single, BOARD_MASK,
};
use crate::chance::choose_move;
use crate::moves::{Move, MoveView};
use crate::piece::{opposite, Piece, PieceColor};
use crate::position::{
    cell_pairs_of, cells_of, col_of, flank_pairs, is_corner_cell, is_throne_cell, neighbours,
    lemma_flank_pairs_on_board, lemma_neighbours_on_board, on_board, row_of, Position, NUM_CELLS,
};

verus! {

/// Outcome of a game, as far as it is decided.
#[derive(Clone, Copy, Debug, PartialEq, Eq, Structural)]
pub enum GameState {
    Undecided,
    WinAttacker,
    WinDefender,
    Draw,
}

/// What a board holds: the cells of the attacker's pawns, of the defender's pawns, the king's
/// cell if the king is still on the board, and the side to move.
pub struct BoardState {
    pub attackers: Set<int>,
    pub defenders: Set<int>,
    pub king: Option<int>,
    pub player: PieceColor,
}

impl BoardState {
    /// Cell `i` holds a piece of side `c` (the king counts for the defender).
    pub open spec fn has_color(self, i: int, c: PieceColor) -> bool {
        match c {
            PieceColor::Attacker => self.attackers.contains(i),
            PieceColor::Defender => self.defenders.contains(i) || self.king == Some(i),
        }
    }

    pub open spec fn occupied(self, i: int) -> bool {
        self.has_color(i, PieceColor::Attacker) || self.has_color(i, PieceColor::Defender)
    }

    /// Cell `i` holds a pawn of side `c`.
    pub open spec fn has_pawn(self, i: int, c: PieceColor) -> bool {
        match c {
            PieceColor::Attacker => self.attackers.contains(i),
            PieceColor::Defender => self.defenders.contains(i),
        }
    }

    pub open spec fn piece_at(self, i: int) -> Option<Piece> {
        if self.attackers.contains(i) {
            Some(Piece::Pawn(PieceColor::Attacker))
        } else if self.defenders.contains(i) {
            Some(Piece::Pawn(PieceColor::Defender))
        } else if self.king == Some(i) {
            Some(Piece::King(PieceColor::Defender))
        } else {
            None
        }
    }

    /// All pieces stand on the board, and no two share a cell.
    pub open spec fn well_formed(self) -> bool {
        &&& forall|i: int| #[trigger] self.attackers.contains(i) ==> on_board(i)
        &&& forall|i: int| #[trigger] self.defenders.contains(i) ==> on_board(i)
        &&& self.attackers.disjoint(self.defenders)
        &&& self.king is Some ==> {
            &&& on_board(self.king->0)
            &&& !self.attackers.contains(self.king->0)
            &&& !self.defenders.contains(self.king->0)
        }
    }
}

/// The cell `k` steps from `s` in direction `d`: 0 down, 1 up, 2 right, 3 left.
pub open spec fn step(s: int, d: int, k: int) -> int {
    if d == 0 {
        s + 11 * k
    } else if d == 1 {
        s - 11 * k
    } else if d == 2 {
        s + k
    } else {
        s - k
    }
}

/// The cell `k` steps from `s` in direction `d` is still on the board.
pub open spec fn within(s: int, d: int, k: int) -> bool {
    if d == 0 {
        row_of(s) + k <= 10
    } else if d == 1 {
        row_of(s) - k >= 0
    } else if d == 2 {
        col_of(s) + k <= 10
    } else {
        col_of(s) - k >= 0
    }
}

/// The slides from `s` in direction `d`, from step `k` on: they go on while the next cell is
/// on the board and empty; a throne is passed over but, unless the piece is the king, not
/// stopped on.
pub open spec fn ray(b: BoardState, s: int, d: int, k: int, is_king: bool) -> Seq<MoveView>
    decreases 11 - k,
{
    if k > 10 || k < 1 || !within(s, d, k) || b.occupied(step(s, d, k)) {
        Seq::empty()
    } else {
        (if is_throne_cell(step(s, d, k)) && !is_king {
            Seq::empty()
        } else {
            seq![MoveView { start: s, end: step(s, d, k) }]
        }) + ray(b, s, d, k + 1, is_king)
    }
}

/// The moves of the piece on cell `s`: down, up, right, left.
pub open spec fn moves_from(b: BoardState, s: int) -> Seq<MoveView> {
    let is_king = b.king == Some(s);
    ray(b, s, 0, 1, is_king) + ray(b, s, 1, 1, is_king) + ray(b, s, 2, 1, is_king) + ray(
        b,
        s,
        3,
        1,
        is_king,
    )
}

/// The moves of the pawns of side `c` on the cells below `n`, cell by cell.
pub open spec fn pawn_moves(b: BoardState, c: PieceColor, n: int) -> Seq<MoveView>
    decreases n,
{
    if n <= 0 {
        Seq::empty()
    } else {
        pawn_moves(b, c, n - 1) + (if b.has_pawn(n - 1, c) {
            moves_from(b, n - 1)
        } else {
            Seq::empty()
        })
    }
}

/// The moves of side `c`: for the defender, the king's first, then the pawns' by cell.
pub open spec fn legal_moves(b: BoardState, c: PieceColor) -> Seq<MoveView> {
    match c {
        PieceColor::Attacker => pawn_moves(b, c, 121),
        PieceColor::Defender => (match b.king {
            Some(k) => moves_from(b, k),
            None => Seq::empty(),
        }) + pawn_moves(b, c, 121),
    }
}

/// A sequence of moves as (start, end) pairs.
pub open spec fn move_views(s: Seq<Move>) -> Seq<MoveView> {
    s.map_values(|m: Move| m@)
}

/// Who has won a board: a missing king or a defender without moves is the attacker's win,
/// then a cornered king or an attacker without moves is the defender's.
pub open spec fn winner(b: BoardState) -> GameState {
    let am = legal_moves(b, PieceColor::Attacker).len();
    let dm = legal_moves(b, PieceColor::Defender).len();
    if b.king is None || dm == 0 {
        GameState::WinAttacker
    } else if is_corner_cell(b.king->0) || am == 0 {
        GameState::WinDefender
    } else if am == 0 || dm == 0 {
        GameState::Draw
    } else {
        GameState::Undecided
    }
}

/// The board after the piece on `m.start` moved to `m.end`, before any capture.
pub open spec fn relocate(b: BoardState, m: MoveView) -> BoardState {
    if b.attackers.contains(m.start) {
        BoardState {
            attackers: b.attackers.remove(m.start).insert(m.end),
            defenders: b.defenders,
            king: b.king,
            player: b.player,
        }
    } else if b.defenders.contains(m.start) {
        BoardState {
            attackers: b.attackers,
            defenders: b.defenders.remove(m.start).insert(m.end),
            king: b.king,
            player: b.player,
        }
    } else {
        BoardState { attackers: b.attackers, defenders: b.defenders, king: Some(m.end), player: b.player }
    }
}

/// Every cell next to `k` holds a piece of side `c` or is a throne.
pub open spec fn king_trapped(b: BoardState, k: int, c: PieceColor) -> bool {
    forall|i: int|
        0 <= i < neighbours(k).len() ==> #[trigger] b.has_color(neighbours(k)[i], c)
            || is_throne_cell(neighbours(k)[i])
}

/// The cells that side `c` captures, scanning the pairs (next cell, cell beyond) in order: an
/// enemy pawn is taken when the cell beyond holds a piece of `c` or is a throne; the king is
/// taken when trapped on all sides, and then the scan stops.
pub open spec fn captures(b: BoardState, pairs: Seq<(int, int)>, c: PieceColor) -> Seq<int>
    decreases pairs.len(),
{
    if pairs.len() == 0 {
        Seq::empty()
    } else {
        let (s, o) = pairs[0];
        let rest = captures(b, pairs.drop_first(), c);
        if !b.has_color(s, opposite(c)) {
            rest
        } else if b.king == Some(s) {
            if king_trapped(b, s, c) {
                seq![s]
            } else {
                rest
            }
        } else if b.has_color(o, c) || is_throne_cell(o) {
            seq![s] + rest
        } else {
            rest
        }
    }
}

/// Each captured cell holds a piece of the enemy of `c`, and lies on the board where the
/// scanned cells do.
pub proof fn lemma_captures_enemy(b: BoardState, pairs: Seq<(int, int)>, c: PieceColor)
    requires
        forall|j: int| 0 <= j < pairs.len() ==> on_board((#[trigger] pairs[j]).0),
    ensures
        forall|t: int|
            0 <= t < captures(b, pairs, c).len() ==> b.has_color(
                #[trigger] captures(b, pairs, c)[t],
                opposite(c),
            ) && on_board(captures(b, pairs, c)[t]),
    decreases pairs.len(),
{
    if pairs.len() > 0 {
        let tail = pairs.drop_first();
        assert forall|j: int| 0 <= j < tail.len() implies on_board((#[trigger] tail[j]).0) by {
            assert(tail[j] == pairs[j + 1]);
        }
        lemma_captures_enemy(b, tail, c);
        let s0 = pairs[0].0;
        assert(on_board(s0));
        let rest = captures(b, tail, c);
        let r = captures(b, pairs, c);
        assert(r == rest || (r == seq![s0] && b.has_color(s0, opposite(c))) || (r == seq![s0]
            + rest && b.has_color(s0, opposite(c))));
        assert forall|t: int| 0 <= t < r.len() implies b.has_color(#[trigger] r[t], opposite(c))
            && on_board(r[t]) by {
            if r == rest {
            } else if r == seq![s0] {
            } else {
                if t > 0 {
                    assert(r[t] == rest[t - 1]);
                }
            }
        }
    }
}

proof fn lemma_push_to_set<A>(s: Seq<A>, x: A)
    ensures
        s.push(x).to_set() == s.to_set().insert(x),
{
    let q = s.push(x);
    assert forall|y: A| q.contains(y) <==> s.contains(y) || y == x by {
        if s.contains(y) {
            let i = choose|i: int| 0 <= i < s.len() && s[i] == y;
            assert(q[i] == y);
        }
        if y == x {
            assert(q[s.len() as int] == y);
        }
        if q.contains(y) {
            let i = choose|i: int| 0 <= i < q.len() && q[i] == y;
            if i < s.len() {
                assert(s[i] == y);
            }
        }
    }
    assert(q.to_set() =~= s.to_set().insert(x));
}

/// The board with the pieces on the cells of `cells` taken off.
pub open spec fn without(b: BoardState, cells: Set<int>) -> BoardState {
    BoardState {
        attackers: b.attackers.difference(cells),
        defenders: b.defenders.difference(cells),
        king: if b.king is Some && cells.contains(b.king->0) {
            None
        } else {
            b.king
        },
        player: b.player,
    }
}

/// The side of the piece that a move moves.
pub open spec fn mover_color(b: BoardState, m: MoveView) -> PieceColor {
    if b.attackers.contains(m.start) {
        PieceColor::Attacker
    } else {
        PieceColor::Defender
    }
}

/// The cells captured by move `m`.
pub open spec fn captured_by(b: BoardState, m: MoveView) -> Seq<int> {
    captures(relocate(b, m), flank_pairs(m.end), mover_color(b, m))
}

/// The board after move `m`: the piece moves, the captured pieces leave, the other side moves
/// next.
pub open spec fn apply_move(b: BoardState, m: MoveView) -> BoardState {
    let after = without(relocate(b, m), captured_by(b, m).to_set());
    BoardState {
        attackers: after.attackers,
        defenders: after.defenders,
        king: after.king,
        player: opposite(b.player),
    }
}

/// The attacker's pawns at the start of a game.
pub const INITIAL_ATTACKERS: u128 = 0x3e01000080300701c01802000100f8;

/// The defender's pawns at the start of a game.
pub const INITIAL_DEFENDERS: u128 = 0x401c06c07004000000000;

/// The king at the start of a game, on the centre cell.
pub const INITIAL_KING: u128 = 0x1000000000000000;

/// The board at the start of a game: the attacker moves first.
pub open spec fn initial_state() -> BoardState {
    BoardState {
        attackers: cells_of_bits(INITIAL_ATTACKERS),
        defenders: cells_of_bits(INITIAL_DEFENDERS),
        king: Some(60),
        player: PieceColor::Attacker,
    }
}

/// The cells whose bits are set in `x`.
pub open spec fn cells_of_bits(x: u128) -> Set<int> {
    Set::new(|i: int| on_board(i) && has_bit(x, i as u128))
}

/// Three bit sets make a board: no bits off the board, no shared cells, at most one king.
pub open spec fn bitboards_valid(attackers: u128, defenders: u128, king: u128) -> bool {
    &&& attackers & !BOARD_MASK == 0
    &&& defenders & !BOARD_MASK == 0
    &&& attackers & defenders == 0
    &&& (attackers | defenders) & king == 0
    &&& (king == 0 || exists|i: int| on_board(i) && king == 1u128 << (i as u128))
}

/// The number of cells below `n` in `s`.
pub open spec fn count_below(s: Set<int>, n: int) -> nat
    decreases n,
{
    if n <= 0 {
        0
    } else {
        count_below(s, n - 1) + if s.contains(n - 1) {
            1nat
        } else {
            0nat
        }
    }
}

/// The game is over on this board.
pub open spec fn is_terminal(b: BoardState) -> bool {
    winner(b) != GameState::Undecided
}

/// A game position: three bit sets over the 121 cells (attacker pawns, defender pawns, the
/// king), the side to move, and the moves of each side.
#[derive(Debug)]
pub struct Board {
    attackers: u128,
    defenders: u128,
    king: u128,
    attacker_moves: Vec<Move>,
    defender_moves: Vec<Move>,
    player: PieceColor,
}

impl View for Board {
    type V = BoardState;

    closed spec fn view(&self) -> BoardState {
        BoardState {
            attackers: Set::new(|i: int| on_board(i) && has_bit(self.attackers, i as u128)),
            defenders: Set::new(|i: int| on_board(i) && has_bit(self.defenders, i as u128)),
            king: if self.king == 0 {
                None
            } else {
                Some(choose|i: int| on_board(i) && self.king == 1u128 << (i as u128))
            },
            player: self.player,
        }
    }
}

impl Board {
    /// The bit sets are consistent: no bits off the board, at most one king, no shared cell.
    pub closed spec fn bits_wf(&self) -> bool {
        &&& self.attackers & !BOARD_MASK == 0
        &&& self.defenders & !BOARD_MASK == 0
        &&& (self.king == 0 || exists|i: int| on_board(i) && self.king == 1u128 << (i as u128))
        &&& self@.well_formed()
    }

    /// Both move lists are those of the board's pieces.
    pub closed spec fn moves_fresh(&self) -> bool {
        &&& move_views(self.attacker_moves@) == legal_moves(self@, PieceColor::Attacker)
        &&& move_views(self.defender_moves@) == legal_moves(self@, PieceColor::Defender)
    }

    /// The board is consistent and its move lists are those of its pieces.
    pub open spec fn wf(&self) -> bool {
        self.bits_wf() && self.moves_fresh()
    }

    /// Two boards have the same bit sets.
    pub closed spec fn same_bits(&self, o: &Board) -> bool {
        self.attackers == o.attackers && self.defenders == o.defenders && self.king == o.king
    }

    pub proof fn lemma_wf(&self)
        requires
            self.wf(),
        ensures
            self@.well_formed(),
    {
    }

    proof fn lemma_king_bit(&self, j: int)
        requires
            self.bits_wf(),
            on_board(j),
        ensures
            has_bit(self.king, j as u128) <==> self@.king == Some(j),
    {
        if self.king == 0 {
            lemma_zero_no_bits(j as u128);
        } else {
            let k = choose|i: int| on_board(i) && self.king == 1u128 << (i as u128);
            lemma_single_bit(k as u128, j as u128);
        }
    }

    /// A board whose king bits are `1 << k` has its king on `k`.
    proof fn lemma_king_at(&self, k: int)
        requires
            on_board(k),
            self.king == 1u128 << (k as u128),
        ensures
            self@.king == Some(k),
    {
        lemma_single_bit(k as u128, k as u128);
        let c = choose|i: int| on_board(i) && self.king == 1u128 << (i as u128);
        lemma_shift_injective(c as u128, k as u128);
    }

    /// Whether cell `pos` holds a piece of side `color`.
    pub fn has_color_piece(&self, pos: &Position, color: &PieceColor) -> (r: bool)
        requires
            self.bits_wf(),
            on_board(pos@),
        ensures
            r == self@.has_color(pos@, *color),
    {
        let n = pos.get_num() as u128;
        proof {
            self.lemma_king_bit(pos@);
        }
        match color {
            PieceColor::Attacker => (self.attackers >> n) & 1 == 1,
            PieceColor::Defender => (self.defenders >> n) & 1 == 1 || (self.king >> n) & 1 == 1,
        }
    }

    /// Whether cell `pos` holds any piece.
    pub fn pos_is_occupied(&self, pos: &Position) -> (r: bool)
        requires
            self.bits_wf(),
            on_board(pos@),
        ensures
            r == self@.occupied(pos@),
    {
        self.has_color_piece(pos, &PieceColor::Attacker) || self.has_color_piece(
            pos,
            &PieceColor::Defender,
        )
    }

    /// The piece on cell `pos`, if any.
    fn get_piece(&self, pos: &Position) -> (r: Option<Piece>)
        requires
            self.bits_wf(),
            on_board(pos@),
        ensures
            r == self@.piece_at(pos@),
    {
        let n = pos.get_num() as u128;
        proof {
            self.lemma_king_bit(pos@);
        }
        if (self.attackers >> n) & 1 == 1 {
            Some(Piece::Pawn(PieceColor::Attacker))
        } else if (self.defenders >> n) & 1 == 1 {
            Some(Piece::Pawn(PieceColor::Defender))
        } else if (self.king >> n) & 1 == 1 {
            Some(Piece::King(PieceColor::Defender))
        } else {
            None
        }
    }

    /// The king's cell, or `None` once the king is captured.
    pub fn get_king_pos(&self) -> (r: Option<Position>)
        requires
            self.bits_wf(),
        ensures
            r matches Some(p) ==> self@.king == Some(p@),
            r is None ==> self@.king is None,
    {
        if self.king == 0 {
            return None;
        }
        let mut i: usize = 0;
        while i < NUM_CELLS
            invariant
                self.bits_wf(),
                self.king != 0,
                i <= 121,
                forall|j: int| 0 <= j < i ==> self@.king != Some(j),
            decreases 121 - i,
        {
            proof {
                self.lemma_king_bit(i as int);
            }
            if (self.king >> (i as u128)) & 1 == 1 {
                return Some(Position::new_n(i));
            }
            i += 1;
        }
        proof {
            let k = choose|i: int| on_board(i) && self.king == 1u128 << (i as u128);
            self.lemma_king_at(k);
        }
        None
    }

    /// Append to `moves` the slides from `pos` in direction `d`.
    fn push_slides(&self, pos: &Position, d: usize, is_king: bool, moves: &mut Vec<Move>)
        requires
            self.bits_wf(),
            on_board(pos@),
            d < 4,
        ensures
            move_views(final(moves)@) == move_views(old(moves)@) + ray(self@, pos@, d as int, 1, is_king),
    {
        let x = pos.get_x();
        let y = pos.get_y();
        let ghost s = pos@;
        let ghost b = self@;
        let mut k: usize = 1;
        while k <= 10
            invariant
                self.bits_wf(),
                b == self@,
                on_board(s),
                s == pos@,
                x == row_of(s),
                y == col_of(s),
                d < 4,
                1 <= k <= 11,
                move_views(moves@) + ray(b, s, d as int, k as int, is_king) == move_views(old(moves)@) + ray(b, s, d as int, 1, is_king),
            ensures
                ray(b, s, d as int, k as int, is_king) == Seq::<MoveView>::empty(),
            decreases 11 - k,
        {
            let ok = if d == 0 {
                x + k <= 10
            } else if d == 1 {
                x >= k
            } else if d == 2 {
                y + k <= 10
            } else {
                y >= k
            };
            if !ok {
                assert(ray(b, s, d as int, k as int, is_king) =~= Seq::empty());
                break;
            }
            let (nx, ny) = if d == 0 {
                (x + k, y)
            } else if d == 1 {
                (x - k, y)
            } else if d == 2 {
                (x, y + k)
            } else {
                (x, y - k)
            };
            let new_pos = Position::new_xy(nx, ny);
            assert(new_pos@ == step(s, d as int, k as int));
            if self.pos_is_occupied(&new_pos) {
                assert(ray(b, s, d as int, k as int, is_king) =~= Seq::empty());
                break;
            }
            let ghost before = moves@;
            if !(new_pos.is_throne() && !is_king) {
                moves.push(Move::new(*pos, new_pos));
                assert(move_views(moves@) =~= move_views(before) + seq![MoveView { start: s, end: new_pos@ }]);
            } else {
                assert(move_views(moves@) =~= move_views(before) + Seq::<MoveView>::empty());
            }
            k += 1;
            assert(k == 11 ==> ray(b, s, d as int, k as int, is_king) =~= Seq::empty());
        }
        assert(move_views(moves@) + ray(b, s, d as int, k as int, is_king) =~= move_views(moves@));
    }

    /// The moves of the piece on `pos`, or `None` where the cell is empty.
    pub fn possible_moves_from_pos(&self, pos: &Position) -> (r: Option<Vec<Move>>)
        requires
            self.bits_wf(),
            on_board(pos@),
        ensures
            r is None <==> !self@.occupied(pos@),
            r matches Some(v) ==> move_views(v@) == moves_from(self@, pos@),
    {
        let piece = self.get_piece(pos);
        match piece {
            None => None,
            Some(p) => {
                let is_king = p.is_king();
                let mut moves = Vec::<Move>::with_capacity(40);
                self.push_slides(pos, 0, is_king, &mut moves);
                self.push_slides(pos, 1, is_king, &mut moves);
                self.push_slides(pos, 2, is_king, &mut moves);
                self.push_slides(pos, 3, is_king, &mut moves);
                assert(move_views(moves@) =~= moves_from(self@, pos@));
                Some(moves)
            },
        }
    }

    /// Computes the moves of side `color` on this board.
    pub fn possible_moves_color(&self, color: &PieceColor) -> (r: Vec<Move>)
        requires
            self.bits_wf(),
        ensures
            move_views(r@) == legal_moves(self@, *color),
    {
        let mut moves = Vec::<Move>::with_capacity(120);
        let ghost b = self@;
        let ghost front = Seq::<MoveView>::empty();
        let current: u128 = match color {
            PieceColor::Attacker => self.attackers,
            PieceColor::Defender => {
                let king = self.get_king_pos();
                if let Some(king_pos) = king {
                    let mut king_moves = self.possible_moves_from_pos(&king_pos).unwrap();
                    moves.append(&mut king_moves);
                    proof {
                        front = moves_from(b, king_pos@);
                    }
                }
                self.defenders
            },
        };
        assert(move_views(moves@) =~= front);
        let mut idx: usize = 0;
        while idx < NUM_CELLS
            invariant
                self.bits_wf(),
                b == self@,
                idx <= 121,
                current == (match *color {
                    PieceColor::Attacker => self.attackers,
                    PieceColor::Defender => self.defenders,
                }),
                front == (match *color {
                    PieceColor::Attacker => Seq::<MoveView>::empty(),
                    PieceColor::Defender => match b.king {
                        Some(k) => moves_from(b, k),
                        None => Seq::empty(),
                    },
                }),
                move_views(moves@) == front + pawn_moves(b, *color, idx as int),
            decreases 121 - idx,
        {
            let ghost before = moves@;
            if (current >> (idx as u128)) & 1 == 1 {
                let current_pos = Position::new_n(idx);
                let mut more = self.possible_moves_from_pos(&current_pos).unwrap();
                let ghost extra = more@;
                moves.append(&mut more);
                assert(move_views(moves@) =~= move_views(before) + move_views(extra));
            } else {
                assert(move_views(moves@) =~= move_views(before) + Seq::<MoveView>::empty());
            }
            idx += 1;
            assert(move_views(moves@) =~= front + pawn_moves(b, *color, idx as int));
        }
        assert(legal_moves(b, *color) =~= front + pawn_moves(b, *color, 121));
        moves
    }

    /// Recomputes both sides' move lists.
    pub fn update_possible_moves(&mut self)
        requires
            old(self).bits_wf(),
        ensures
            final(self).wf(),
            final(self)@ == old(self)@,
            final(self).same_bits(old(self)),
    {
        self.attacker_moves = self.possible_moves_color(&PieceColor::Attacker);
        self.defender_moves = self.possible_moves_color(&PieceColor::Defender);
    }

    /// Whether every cell next to the king's cell `k` holds a piece of `color` or is a throne.
    fn king_surrounded(&self, k: &Position, color: &PieceColor) -> (r: bool)
        requires
            self.bits_wf(),
            on_board(k@),
        ensures
            r == king_trapped(self@, k@, *color),
    {
        let around = k.get_surrounding_pos();
        proof {
            lemma_neighbours_on_board(k@);
        }
        let mut i: usize = 0;
        while i < around.len()
            invariant
                self.bits_wf(),
                on_board(k@),
                cells_of(around@) == neighbours(k@),
                forall|j: int| 0 <= j < neighbours(k@).len() ==> on_board(#[trigger] neighbours(k@)[j]),
                i <= around@.len(),
                forall|j: int|
                    0 <= j < i ==> #[trigger] self@.has_color(neighbours(k@)[j], *color)
                        || is_throne_cell(neighbours(k@)[j]),
            decreases around@.len() - i,
        {
            let p = around[i];
            assert(p@ == neighbours(k@)[i as int]);
            assert(on_board(p@));
            if !(self.has_color_piece(&p, color) || p.is_throne()) {
                return false;
            }
            i += 1;
        }
        true
    }

    /// Take the piece of side `color` off cell `pos`.
    fn remove_color_piece(&mut self, pos: &Position, color: &PieceColor)
        requires
            old(self).bits_wf(),
            on_board(pos@),
            old(self)@.has_color(pos@, *color),
        ensures
            final(self).bits_wf(),
            final(self)@ == without(old(self)@, set![pos@]),
            final(self).attacker_moves == old(self).attacker_moves,
            final(self).defender_moves == old(self).defender_moves,
    {
        let ghost b = self@;
        let mask = pos.get_pos_mask();
        let ghost n = pos@ as u128;
        proof {
            lemma_masked_clear(self.attackers, n);
            lemma_masked_clear(self.defenders, n);
            self.lemma_king_bit(pos@);
        }
        let king = self.get_king_pos();
        match color {
            PieceColor::Attacker => {
                let ghost old_a = self.attackers;
                self.attackers = self.attackers & !mask;
                proof {
                    assert forall|i: int| on_board(i) implies has_bit(self.attackers, i as u128)
                        == (i != pos@ && has_bit(old_a, i as u128)) by {
                        lemma_bit_clear(old_a, n, i as u128);
                    }
                    assert(self@.attackers =~= b.attackers.difference(set![pos@]));
                    assert(self@.defenders =~= b.defenders.difference(set![pos@]));
                }
            },
            PieceColor::Defender => {
                match king {
                    Some(kp) => {
                        if kp.get_num() == pos.get_num() {
                            let ghost old_k = self.king;
                            self.king = self.king & !mask;
                            proof {
                                let k = choose|i: int| on_board(i) && old_k == 1u128 << (i as u128);
                                lemma_shift_injective(k as u128, n);
                                lemma_single_clear(n);
                                assert(self@.defenders =~= b.defenders.difference(set![pos@]));
                                assert(self@.attackers =~= b.attackers.difference(set![pos@]));
                            }
                        } else {
                            let ghost old_d = self.defenders;
                            self.defenders = self.defenders & !mask;
                            proof {
                                assert forall|i: int| on_board(i) implies has_bit(self.defenders, i as u128)
                                    == (i != pos@ && has_bit(old_d, i as u128)) by {
                                    lemma_bit_clear(old_d, n, i as u128);
                                }
                                assert(self@.defenders =~= b.defenders.difference(set![pos@]));
                                assert(self@.attackers =~= b.attackers.difference(set![pos@]));
                            }
                        }
                    },
                    None => {
                        let ghost old_d = self.defenders;
                        self.defenders = self.defenders & !mask;
                        proof {
                            assert forall|i: int| on_board(i) implies has_bit(self.defenders, i as u128)
                                == (i != pos@ && has_bit(old_d, i as u128)) by {
                                lemma_bit_clear(old_d, n, i as u128);
                            }
                            assert(self@.defenders =~= b.defenders.difference(set![pos@]));
                            assert(self@.attackers =~= b.attackers.difference(set![pos@]));
                        }
                    },
                }
            },
        }
        assert(self@ == without(b, set![pos@]));
    }

    /// Moves the piece on `mov`'s start cell to its end cell, takes off the pieces that the
    /// move captures, recomputes both move lists, hands the turn over, and returns the captured
    /// cells in the order up, down, left, right of the end cell.
    pub fn make_move_captured_positions(&mut self, mov: &Move) -> (r: Vec<Position>)
        requires
            old(self).wf(),
            on_board(mov@.start),
            on_board(mov@.end),
            old(self)@.occupied(mov@.start),
            !old(self)@.occupied(mov@.end),
        ensures
            final(self).wf(),
            final(self)@ == apply_move(old(self)@, mov@),
            cells_of(r@) == captured_by(old(self)@, mov@),
    {
        let ghost b0 = self@;
        let ghost m = mov@;
        let start_pos = mov.get_start_pos();
        let end_pos = mov.get_end_pos();
        let moving_piece = self.get_piece(start_pos).unwrap();
        let color = moving_piece.get_color();
        let enemy_color = color.get_opposite();
        let mask = mov.get_mask();
        let ghost s = m.start as u128;
        let ghost e = m.end as u128;
        proof {
            lemma_masked_toggle2(self.attackers, s, e);
            lemma_masked_toggle2(self.defenders, s, e);
        }
        match color {
            PieceColor::Attacker => {
                let ghost old_a = self.attackers;
                self.attackers = self.attackers ^ mask;
                proof {
                    assert forall|i: int| on_board(i) implies has_bit(self.attackers, i as u128)
                        == (if i == m.start || i == m.end {
                        !has_bit(old_a, i as u128)
                    } else {
                        has_bit(old_a, i as u128)
                    }) by {
                        lemma_bit_toggle2(old_a, s, e, i as u128);
                    }
                    assert(self@.attackers =~= b0.attackers.remove(m.start).insert(m.end));
                    assert(self@.defenders =~= b0.defenders);
                }
            },
            PieceColor::Defender => {
                if moving_piece.is_king() {
                    let ghost old_k = self.king;
                    self.king = self.king ^ mask;
                    proof {
                        let k = choose|i: int| on_board(i) && old_k == 1u128 << (i as u128);
                        assert(old(self).bits_wf());
                        assert(on_board(k) && old_k == 1u128 << (k as u128));
                        assert(k == m.start);
                        lemma_single_toggle(s, e);
                        lemma_single_bit(e, e);
                        self.lemma_king_at(m.end);
                        assert(self@.attackers =~= b0.attackers);
                        assert(self@.defenders =~= b0.defenders);
                    }
                } else {
                    let ghost old_d = self.defenders;
                    self.defenders = self.defenders ^ mask;
                    proof {
                        assert forall|i: int| on_board(i) implies has_bit(self.defenders, i as u128)
                            == (if i == m.start || i == m.end {
                            !has_bit(old_d, i as u128)
                        } else {
                            has_bit(old_d, i as u128)
                        }) by {
                            lemma_bit_toggle2(old_d, s, e, i as u128);
                        }
                        assert(self@.defenders =~= b0.defenders.remove(m.start).insert(m.end));
                        assert(self@.attackers =~= b0.attackers);
                    }
                }
            },
        }
        let ghost b1 = self@;
        assert(b1 == relocate(b0, m));
        assert(color == mover_color(b0, m));
        assert(self.bits_wf());
        let pairs = end_pos.get_sur_pos_and_one_after();
        let ghost fp = flank_pairs(m.end);
        proof {
            lemma_flank_pairs_on_board(m.end);
        }
        let king_pos = self.get_king_pos();
        let mut captured = Vec::<Position>::new();
        let mut i: usize = 0;
        assert(fp.subrange(0, fp.len() as int) =~= fp);
        assert(cells_of(captured@) =~= Seq::<int>::empty());
        while i < pairs.len()
            invariant_except_break
                cells_of(captured@) + captures(b1, fp.subrange(i as int, fp.len() as int), color)
                    == captures(b1, fp, color),
            invariant
                self.bits_wf(),
                self@ == b1,
                b1.well_formed(),
                cell_pairs_of(pairs@) == fp,
                forall|j: int| 0 <= j < fp.len() ==> on_board((#[trigger] fp[j]).0) && on_board(fp[j].1),
                i <= pairs@.len(),
                king_pos matches Some(kp) ==> b1.king == Some(kp@),
                king_pos is None ==> b1.king is None,
                enemy_color == opposite(color),
            ensures
                cells_of(captured@) == captures(b1, fp, color),
            decreases pairs@.len() - i,
        {
            let ghost rest = fp.subrange(i as int, fp.len() as int);
            let ghost before = captured@;
            assert(rest.drop_first() =~= fp.subrange(i + 1, fp.len() as int));
            assert(rest[0] == fp[i as int]);
            let (sur_pos, one_after) = pairs[i];
            assert(sur_pos@ == fp[i as int].0 && one_after@ == fp[i as int].1);
            if !self.has_color_piece(&sur_pos, &enemy_color) {
                i += 1;
                continue;
            }
            let is_king_cell = match king_pos {
                Some(kp) => kp.get_num() == sur_pos.get_num(),
                None => false,
            };
            if is_king_cell {
                if self.king_surrounded(&sur_pos, &color) {
                    captured.push(sur_pos);
                    assert(cells_of(captured@) =~= cells_of(before) + seq![sur_pos@]);
                    break;
                }
            } else if self.has_color_piece(&one_after, &color) || one_after.is_throne() {
                captured.push(sur_pos);
                assert(cells_of(captured@) =~= cells_of(before) + seq![sur_pos@]);
                assert(cells_of(captured@) + captures(b1, fp.subrange(i + 1, fp.len() as int), color)
                    =~= cells_of(before) + captures(b1, rest, color));
            }
            i += 1;
        }
        proof {
            if i >= pairs.len() {
                assert(fp.subrange(i as int, fp.len() as int) =~= Seq::<(int, int)>::empty());
            }
        }
        proof {
            lemma_captures_enemy(b1, fp, color);
        }
        let mut j: usize = 0;
        assert(cells_of(captured@.subrange(0, 0)).to_set() =~= Set::<int>::empty());
        assert(b1.attackers.difference(Set::<int>::empty()) =~= b1.attackers);
        assert(b1.defenders.difference(Set::<int>::empty()) =~= b1.defenders);
        while j < captured.len()
            invariant
                self.bits_wf(),
                b1.well_formed(),
                j <= captured@.len(),
                enemy_color == opposite(color),
                cells_of(captured@) == captures(b1, fp, color),
                forall|t: int| 0 <= t < cells_of(captured@).len() ==> b1.has_color(#[trigger] cells_of(captured@)[t], enemy_color),
                forall|t: int| 0 <= t < cells_of(captured@).len() ==> on_board(#[trigger] cells_of(captured@)[t]),
                self@ == without(b1, cells_of(captured@.subrange(0, j as int)).to_set()),
            decreases captured@.len() - j,
        {
            let p = captured[j];
            assert(p@ == cells_of(captured@)[j as int]);
            let ghost done = cells_of(captured@.subrange(0, j as int)).to_set();
            assert(cells_of(captured@.subrange(0, j + 1)) =~= cells_of(captured@.subrange(0, j as int)).push(p@));
            if self.has_color_piece(&p, &enemy_color) {
                self.remove_color_piece(&p, &enemy_color);
            }
            assert(self@.attackers =~= without(b1, done.insert(p@)).attackers);
            assert(self@.defenders =~= without(b1, done.insert(p@)).defenders);
            proof {
                lemma_push_to_set(cells_of(captured@.subrange(0, j as int)), p@);
            }
            assert(self@ == without(b1, done.insert(p@)));
            j += 1;
        }
        assert(captured@.subrange(0, j as int) =~= captured@);
        self.player.flip();
        self.update_possible_moves();
        captured
    }
}

impl Board {
    proof fn lemma_from_valid_bits(&self)
        requires
            bitboards_valid(self.attackers, self.defenders, self.king),
        ensures
            self.bits_wf(),
            self@.attackers == cells_of_bits(self.attackers),
            self@.defenders == cells_of_bits(self.defenders),
            forall|i: int| on_board(i) ==> (self@.king == Some(i) <==> has_bit(self.king, i as u128)),
    {
        let (a, d, k) = (self.attackers, self.defenders, self.king);
        assert forall|i: int| on_board(i) implies !(has_bit(a, i as u128) && has_bit(d, i as u128))
            && !(has_bit(a, i as u128) && has_bit(k, i as u128)) && !(has_bit(d, i as u128)
            && has_bit(k, i as u128)) by {
            lemma_and_bit(a, d, i as u128);
            lemma_and_bit(a | d, k, i as u128);
            lemma_and_bit(a, d, i as u128);
            lemma_zero_no_bits(i as u128);
        }
        if k != 0 {
            let c = choose|i: int| on_board(i) && k == 1u128 << (i as u128);
            self.lemma_king_at(c);
            lemma_single_bit(c as u128, c as u128);
        }
        assert forall|i: int| on_board(i) implies (self@.king == Some(i) <==> has_bit(k, i as u128)) by {
            if k == 0 {
                lemma_zero_no_bits(i as u128);
            } else {
                let c = choose|i: int| on_board(i) && k == 1u128 << (i as u128);
                lemma_single_bit(c as u128, i as u128);
            }
        }
        assert(self@.attackers.disjoint(self@.defenders));
    }

    /// A board with the given bit sets and no moves listed yet.
    fn with_bits(attackers: u128, defenders: u128, king: u128, player: PieceColor) -> (r: Board)
        requires
            bitboards_valid(attackers, defenders, king),
        ensures
            r.wf(),
            r@.attackers == cells_of_bits(attackers),
            r@.defenders == cells_of_bits(defenders),
            forall|i: int| on_board(i) ==> (r@.king == Some(i) <==> has_bit(king, i as u128)),
            r@.player == player,
            r.attackers == attackers,
            r.defenders == defenders,
            r.king == king,
    {
        let mut board = Board {
            attackers,
            defenders,
            king,
            attacker_moves: Vec::new(),
            defender_moves: Vec::new(),
            player,
        };
        proof {
            board.lemma_from_valid_bits();
        }
        board.update_possible_moves();
        board
    }

    /// The board at the start of a game: the attacker moves first.
    pub fn new() -> (r: Board)
        ensures
            r.wf(),
            r@ == initial_state(),
    {
        assert(0x3e01000080300701c01802000100f8u128 & !0x1FF_FFFF_FFFF_FFFF_FFFF_FFFF_FFFF_FFFFu128 == 0) by (bit_vector);
        assert(0x401c06c07004000000000u128 & !0x1FF_FFFF_FFFF_FFFF_FFFF_FFFF_FFFF_FFFFu128 == 0) by (bit_vector);
        assert(0x3e01000080300701c01802000100f8u128 & 0x401c06c07004000000000u128 == 0) by (bit_vector);
        assert((0x3e01000080300701c01802000100f8u128 | 0x401c06c07004000000000u128) & 0x1000000000000000u128 == 0) by (bit_vector);
        assert(0x1000000000000000u128 == 1u128 << 60u128) by (bit_vector);
        assert(on_board(60) && INITIAL_KING == 1u128 << (60int as u128));
        let board = Board::with_bits(INITIAL_ATTACKERS, INITIAL_DEFENDERS, INITIAL_KING, PieceColor::Attacker);
        proof {
            lemma_single_bit(60, 60);
            board.lemma_king_at(60);
        }
        board
    }

    /// A board from three bit sets (bit `i` stands for cell `i`) and the side to move, or
    /// `None` where they overlap, reach off the board, or hold more than one king.
    pub fn from_bitboards(attackers: u128, defenders: u128, king: u128, player: PieceColor) -> (r: Option<Board>)
        ensures
            r is Some <==> bitboards_valid(attackers, defenders, king),
            r matches Some(b) ==> {
                &&& b.wf()
                &&& b@.attackers == cells_of_bits(attackers)
                &&& b@.defenders == cells_of_bits(defenders)
                &&& forall|i: int| on_board(i) ==> (b@.king == Some(i) <==> has_bit(king, i as u128))
                &&& b@.player == player
            },
    {
        if attackers & !BOARD_MASK != 0 || defenders & !BOARD_MASK != 0 || attackers & defenders != 0
            || (attackers | defenders) & king != 0 {
            return None;
        }
        if king != 0 {
            let mut i: usize = 0;
            let mut found = false;
            while i < NUM_CELLS
                invariant
                    i <= 121,
                    !found ==> forall|j: int| 0 <= j < i ==> king != #[trigger] (1u128 << (j as u128)),
                    found ==> exists|j: int| on_board(j) && king == 1u128 << (j as u128),
                decreases 121 - i,
            {
                if king == 1u128 << (i as u128) {
                    found = true;
                    assert(on_board(i as int) && king == 1u128 << ((i as int) as u128));
                }
                i += 1;
            }
            if !found {
                return None;
            }
        }
        Some(Board::with_bits(attackers, defenders, king, player))
    }

    fn copy_moves(v: &Vec<Move>) -> (r: Vec<Move>)
        ensures
            r@ == v@,
    {
        let mut out = Vec::<Move>::with_capacity(v.len());
        let mut i: usize = 0;
        while i < v.len()
            invariant
                i <= v@.len(),
                out@ == v@.subrange(0, i as int),
            decreases v@.len() - i,
        {
            out.push(v[i]);
            i += 1;
            assert(out@ =~= v@.subrange(0, i as int));
        }
        assert(out@ =~= v@);
        out
    }

    /// The moves of the side to move.
    pub fn get_legal_moves(&self) -> (r: Vec<Move>)
        requires
            self.wf(),
        ensures
            move_views(r@) == legal_moves(self@, self@.player),
    {
        self.get_moves_color(&self.player)
    }

    /// The moves of side `color`.
    pub fn get_moves_color(&self, color: &PieceColor) -> (r: Vec<Move>)
        requires
            self.wf(),
        ensures
            move_views(r@) == legal_moves(self@, *color),
    {
        match color {
            PieceColor::Attacker => Board::copy_moves(&self.attacker_moves),
            PieceColor::Defender => Board::copy_moves(&self.defender_moves),
        }
    }

    /// A move of the side to move chosen at random, or `None` where it has none.
    pub fn get_random_move(&self) -> (r: Option<Move>)
        requires
            self.wf(),
        ensures
            r is None <==> legal_moves(self@, self@.player).len() == 0,
            r matches Some(m) ==> legal_moves(self@, self@.player).contains(m@),
    {
        self.get_random_move_color(&self.player)
    }

    /// A move of side `color` chosen at random, or `None` where it has none.
    pub fn get_random_move_color(&self, color: &PieceColor) -> (r: Option<Move>)
        requires
            self.wf(),
        ensures
            r is None <==> legal_moves(self@, *color).len() == 0,
            r matches Some(m) ==> legal_moves(self@, *color).contains(m@),
    {
        let r = match color {
            PieceColor::Attacker => choose_move(&self.attacker_moves),
            PieceColor::Defender => choose_move(&self.defender_moves),
        };
        proof {
            let v = if *color == PieceColor::Attacker { self.attacker_moves@ } else { self.defender_moves@ };
            if let Some(m) = r {
                let i = choose|i: int| 0 <= i < v.len() && v[i] == m;
                assert(move_views(v)[i] == m@);
            }
        }
        r
    }

    /// Who has won, read from the current move lists.
    pub fn who_won(&self) -> (r: GameState)
        requires
            self.wf(),
        ensures
            r == winner(self@),
    {
        let attacker_moves_cnt = self.attacker_moves.len();
        let defender_moves_cnt = self.defender_moves.len();
        let king = self.get_king_pos();
        match king {
            None => GameState::WinAttacker,
            Some(k) => {
                if defender_moves_cnt == 0 {
                    GameState::WinAttacker
                } else if k.is_corner() || attacker_moves_cnt == 0 {
                    GameState::WinDefender
                } else if attacker_moves_cnt == 0 || defender_moves_cnt == 0 {
                    GameState::Draw
                } else {
                    GameState::Undecided
                }
            },
        }
    }

    /// Whether the game is over.
    pub fn is_game_over(&self) -> (r: bool)
        requires
            self.wf(),
        ensures
            r == is_terminal(self@),
    {
        !matches!(self.who_won(), GameState::Undecided)
    }

    /// Whether `mov` is among the moves of side `color`.
    pub fn is_valid_move(&self, mov: &Move, color: &PieceColor) -> (r: bool)
        requires
            self.wf(),
        ensures
            r == legal_moves(self@, *color).contains(mov@),
    {
        let v = match color {
            PieceColor::Attacker => &self.attacker_moves,
            PieceColor::Defender => &self.defender_moves,
        };
        let mut i: usize = 0;
        while i < v.len()
            invariant
                i <= v@.len(),
                move_views(v@) == legal_moves(self@, *color),
                forall|j: int| 0 <= j < i ==> v@[j]@ != mov@,
            decreases v@.len() - i,
        {
            let m = v[i];
            proof {
                Move::lemma_view_injective(m, *mov);
            }
            if m == *mov {
                assert(move_views(v@)[i as int] == mov@);
                return true;
            }
            i += 1;
        }
        proof {
            if legal_moves(self@, *color).contains(mov@) {
                let j = choose|j: int| 0 <= j < move_views(v@).len() && move_views(v@)[j] == mov@;
                assert(v@[j]@ == mov@);
            }
        }
        false
    }

    /// The number of pawns of side `color` (the king is not counted).
    pub fn number_of_colored_pieces(&self, color: &PieceColor) -> (r: u32)
        requires
            self.wf(),
        ensures
            r == count_below(
                match *color {
                    PieceColor::Attacker => self@.attackers,
                    PieceColor::Defender => self@.defenders,
                },
                121,
            ),
    {
        let bits = match color {
            PieceColor::Attacker => self.attackers,
            PieceColor::Defender => self.defenders,
        };
        let ghost s = match *color {
            PieceColor::Attacker => self@.attackers,
            PieceColor::Defender => self@.defenders,
        };
        let mut count: u32 = 0;
        let mut i: usize = 0;
        while i < NUM_CELLS
            invariant
                i <= 121,
                count == count_below(s, i as int),
                count <= i,
                forall|j: int| on_board(j) ==> (s.contains(j) <==> has_bit(bits, j as u128)),
            decreases 121 - i,
        {
            proof {
                assert(on_board(i as int));
                assert(s.contains(i as int) <==> has_bit(bits, i as u128));
            }
            if (bits >> (i as u128)) & 1 == 1 {
                count += 1;
            }
            i += 1;
        }
        count
    }

    /// The side to move.
    pub fn get_player(&self) -> (r: PieceColor)
        ensures
            r == self@.player,
    {
        self.player
    }

    /// The attacker's pawns as a bit set: bit `i` for cell `i`.
    pub fn get_attacker(&self) -> (r: &u128)
        requires
            self.wf(),
        ensures
            cells_of_bits(*r) == self@.attackers,
            *r & !BOARD_MASK == 0,
    {
        &self.attackers
    }

    /// The defender's pawns as a bit set: bit `i` for cell `i`.
    pub fn get_defender(&self) -> (r: &u128)
        requires
            self.wf(),
        ensures
            cells_of_bits(*r) == self@.defenders,
            *r & !BOARD_MASK == 0,
    {
        &self.defenders
    }

    /// The king as a bit set: bit `i` for the king's cell `i`, none once it is captured.
    pub fn get_king(&self) -> (r: &u128)
        requires
            self.wf(),
        ensures
            forall|i: int| on_board(i) ==> (self@.king == Some(i) <==> has_bit(*r, i as u128)),
            *r == 0 <==> self@.king is None,
            *r & !BOARD_MASK == 0,
    {
        proof {
            if self.king != 0 {
                let k = choose|i: int| on_board(i) && self.king == 1u128 << (i as u128);
                lemma_masked_single(k as u128);
            } else {
                assert(0u128 & !BOARD_MASK == 0) by (bit_vector);
            }
            assert forall|i: int| on_board(i) implies (self@.king == Some(i) <==> has_bit(self.king, i as u128)) by {
                self.lemma_king_bit(i);
            }
        }
        &self.king
    }
}

impl Clone for Board {
    fn clone(&self) -> (r: Board)
        ensures
            r@ == self@,
            self.bits_wf() ==> r.bits_wf(),
            self.wf() ==> r.wf(),
    {
        let mut attacker_moves = Vec::<Move>::with_capacity(self.attacker_moves.len());
        let mut i: usize = 0;
        while i < self.attacker_moves.len()
            invariant
                i <= self.attacker_moves@.len(),
                attacker_moves@ == self.attacker_moves@.subrange(0, i as int),
            decreases self.attacker_moves@.len() - i,
        {
            attacker_moves.push(self.attacker_moves[i]);
            i += 1;
            assert(attacker_moves@ =~= self.attacker_moves@.subrange(0, i as int));
        }
        let mut defender_moves = Vec::<Move>::with_capacity(self.defender_moves.len());
        let mut i: usize = 0;
        while i < self.defender_moves.len()
            invariant
                i <= self.defender_moves@.len(),
                defender_moves@ == self.defender_moves@.subrange(0, i as int),
            decreases self.defender_moves@.len() - i,
        {
            defender_moves.push(self.defender_moves[i]);
            i += 1;
            assert(defender_moves@ =~= self.defender_moves@.subrange(0, i as int));
        }
        assert(attacker_moves@ =~= self.attacker_moves@);
        assert(defender_moves@ =~= self.defender_moves@);
        Board {
            attackers: self.attackers,
            defenders: self.defenders,
            king: self.king,
            attacker_moves,
            defender_moves,
            player: self.player,
        }
    }
}

} // verus!
