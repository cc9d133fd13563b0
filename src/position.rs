use vstd::prelude::*;

verus! {

/// Number of cells along one side of the board.
pub const BOARDSIZE: usize = 11;

/// Number of cells on the board.
pub const NUM_CELLS: usize = 121;

/// A cell index lies on the board.
pub open spec fn on_board(i: int) -> bool {
    0 <= i < 121
}

/// Row of a cell index.
pub open spec fn row_of(i: int) -> int {
    i / 11
}

/// Column of a cell index.
pub open spec fn col_of(i: int) -> int {
    i % 11
}

/// The cell at a row and a column.
pub open spec fn cell_at(x: int, y: int) -> int {
    x * 11 + y
}

/// The four corners and the centre: only the king may stop there.
pub open spec fn is_throne_cell(i: int) -> bool {
    i == 0 || i == 10 || i == 60 || i == 110 || i == 120
}

/// The four corners of the board.
pub open spec fn is_corner_cell(i: int) -> bool {
    i == 0 || i == 10 || i == 110 || i == 120
}

pub open spec fn abs_diff(a: int, b: int) -> int {
    if a >= b {
        a - b
    } else {
        b - a
    }
}

/// Manhattan distance between two cells.
pub open spec fn manhattan(i: int, j: int) -> int {
    abs_diff(row_of(i), row_of(j)) + abs_diff(col_of(i), col_of(j))
}

pub open spec fn min2(a: int, b: int) -> int {
    if a <= b {
        a
    } else {
        b
    }
}

/// Manhattan distance from a cell to the nearest corner.
pub open spec fn corner_distance(i: int) -> int {
    min2(min2(manhattan(0, i), manhattan(10, i)), min2(manhattan(110, i), manhattan(120, i)))
}

/// The cells next to `i`, in the order up, down, left, right; cut at the edges.
pub open spec fn neighbours(i: int) -> Seq<int> {
    (if row_of(i) >= 1 { seq![i - 11] } else { Seq::empty() })
        + (if row_of(i) <= 9 { seq![i + 11] } else { Seq::empty() })
        + (if col_of(i) >= 1 { seq![i - 1] } else { Seq::empty() })
        + (if col_of(i) <= 9 { seq![i + 1] } else { Seq::empty() })
}

/// Pairs (next cell, the cell beyond it) in the four directions from `i`, where both lie on
/// the board, in the order up, down, left, right.
pub open spec fn flank_pairs(i: int) -> Seq<(int, int)> {
    (if row_of(i) >= 2 { seq![(i - 11, i - 22)] } else { Seq::empty() })
        + (if row_of(i) <= 8 { seq![(i + 11, i + 22)] } else { Seq::empty() })
        + (if col_of(i) >= 2 { seq![(i - 1, i - 2)] } else { Seq::empty() })
        + (if col_of(i) <= 8 { seq![(i + 1, i + 2)] } else { Seq::empty() })
}

pub proof fn lemma_neighbours_on_board(k: int)
    requires
        on_board(k),
    ensures
        forall|i: int| 0 <= i < neighbours(k).len() ==> on_board(#[trigger] neighbours(k)[i]),
{
    let a: Seq<int> = if row_of(k) >= 1 { seq![k - 11] } else { Seq::empty() };
    let b: Seq<int> = if row_of(k) <= 9 { seq![k + 11] } else { Seq::empty() };
    let c: Seq<int> = if col_of(k) >= 1 { seq![k - 1] } else { Seq::empty() };
    let d: Seq<int> = if col_of(k) <= 9 { seq![k + 1] } else { Seq::empty() };
    assert(forall|i: int| 0 <= i < a.len() ==> on_board(#[trigger] a[i]));
    assert(forall|i: int| 0 <= i < b.len() ==> on_board(#[trigger] b[i]));
    assert(forall|i: int| 0 <= i < c.len() ==> on_board(#[trigger] c[i]));
    assert(forall|i: int| 0 <= i < d.len() ==> on_board(#[trigger] d[i]));
    let ab = a + b;
    let abc = ab + c;
    assert(forall|i: int| 0 <= i < ab.len() ==> on_board(#[trigger] ab[i]));
    assert(forall|i: int| 0 <= i < abc.len() ==> on_board(#[trigger] abc[i]));
    assert(neighbours(k) == abc + d);
}

pub proof fn lemma_flank_pairs_on_board(k: int)
    requires
        on_board(k),
    ensures
        forall|i: int|
            0 <= i < flank_pairs(k).len() ==> on_board((#[trigger] flank_pairs(k)[i]).0) && on_board(
                flank_pairs(k)[i].1,
            ),
{
    let a: Seq<(int, int)> = if row_of(k) >= 2 { seq![(k - 11, k - 22)] } else { Seq::empty() };
    let b: Seq<(int, int)> = if row_of(k) <= 8 { seq![(k + 11, k + 22)] } else { Seq::empty() };
    let c: Seq<(int, int)> = if col_of(k) >= 2 { seq![(k - 1, k - 2)] } else { Seq::empty() };
    let d: Seq<(int, int)> = if col_of(k) <= 8 { seq![(k + 1, k + 2)] } else { Seq::empty() };
    assert(forall|i: int| 0 <= i < a.len() ==> on_board((#[trigger] a[i]).0) && on_board(a[i].1));
    assert(forall|i: int| 0 <= i < b.len() ==> on_board((#[trigger] b[i]).0) && on_board(b[i].1));
    assert(forall|i: int| 0 <= i < c.len() ==> on_board((#[trigger] c[i]).0) && on_board(c[i].1));
    assert(forall|i: int| 0 <= i < d.len() ==> on_board((#[trigger] d[i]).0) && on_board(d[i].1));
    let ab = a + b;
    let abc = ab + c;
    assert(forall|i: int| 0 <= i < ab.len() ==> on_board((#[trigger] ab[i]).0) && on_board(ab[i].1));
    assert(forall|i: int| 0 <= i < abc.len() ==> on_board((#[trigger] abc[i]).0) && on_board(abc[i].1));
    assert(flank_pairs(k) == abc + d);
}

/// A cell of the board, by its index `row * 11 + column`.
#[derive(Clone, Copy, Debug, PartialEq, Eq, Structural, Hash, PartialOrd, Ord)]
pub struct Position {
    num: usize,
}

impl View for Position {
    type V = int;

    closed spec fn view(&self) -> int {
        self.num as int
    }
}

/// The positions of a sequence, as cell indices.
pub open spec fn cells_of(s: Seq<Position>) -> Seq<int> {
    s.map_values(|p: Position| p@)
}

/// The pairs of positions of a sequence, as pairs of cell indices.
pub open spec fn cell_pairs_of(s: Seq<(Position, Position)>) -> Seq<(int, int)> {
    s.map_values(|p: (Position, Position)| (p.0@, p.1@))
}

impl Position {
    pub proof fn lemma_view_injective(a: Position, b: Position)
        ensures
            a@ == b@ <==> a == b,
    {
    }

    /// Create a position from a row and a column.
    pub fn new_xy(x: usize, y: usize) -> (r: Position)
        requires
            x < 11,
            y < 11,
        ensures
            r@ == cell_at(x as int, y as int),
            row_of(r@) == x,
            col_of(r@) == y,
    {
        Position { num: x * BOARDSIZE + y }
    }

    /// Create a position from a cell index.
    pub fn new_n(num: usize) -> (r: Position)
        ensures
            r@ == num,
    {
        Position { num }
    }

    /// The row.
    pub fn get_x(&self) -> (r: usize)
        ensures
            r == row_of(self@),
    {
        self.num / BOARDSIZE
    }

    /// The column.
    pub fn get_y(&self) -> (r: usize)
        ensures
            r == col_of(self@),
    {
        self.num % BOARDSIZE
    }

    /// The cell index.
    pub fn get_num(&self) -> (r: usize)
        ensures
            r == self@,
    {
        self.num
    }

    /// The Manhattan distance to another cell.
    pub fn manhatten_dist(&self, other: &Position) -> (r: usize)
        requires
            on_board(self@),
            on_board(other@),
        ensures
            r == manhattan(self@, other@),
    {
        let (ax, bx) = (self.get_x(), other.get_x());
        let (ay, by) = (self.get_y(), other.get_y());
        let dx = if ax >= bx { ax - bx } else { bx - ax };
        let dy = if ay >= by { ay - by } else { by - ay };
        dx + dy
    }

    /// A bit mask with the bit of this cell set.
    pub fn get_pos_mask(&self) -> (r: u128)
        requires
            on_board(self@),
        ensures
            r == 1u128 << (self@ as u128),
    {
        1u128 << (self.num as u128)
    }

    /// The Manhattan distance to the nearest corner.
    pub fn min_dist_to_corner(&self) -> (r: usize)
        requires
            on_board(self@),
        ensures
            r == corner_distance(self@),
    {
        let a = Position::new_n(0).manhatten_dist(self);
        let b = Position::new_n(10).manhatten_dist(self);
        let c = Position::new_n(110).manhatten_dist(self);
        let d = Position::new_n(120).manhatten_dist(self);
        let ab = if a <= b { a } else { b };
        let cd = if c <= d { c } else { d };
        if ab <= cd { ab } else { cd }
    }

    /// Whether this cell is a throne (a corner or the centre).
    pub fn is_throne(&self) -> (r: bool)
        ensures
            r == is_throne_cell(self@),
    {
        let n = self.num;
        n == 0 || n == 10 || n == 60 || n == 110 || n == 120
    }

    /// Whether this cell is a corner.
    pub fn is_corner(&self) -> (r: bool)
        ensures
            r == is_corner_cell(self@),
    {
        let n = self.num;
        n == 0 || n == 10 || n == 110 || n == 120
    }

    /// The pairs (next cell, the cell beyond it) in each direction where both are on the board.
    pub fn get_sur_pos_and_one_after(&self) -> (r: Vec<(Position, Position)>)
        requires
            on_board(self@),
        ensures
            cell_pairs_of(r@) == flank_pairs(self@),
    {
        let mut pairs = Vec::<(Position, Position)>::new();
        let x = self.get_x();
        let y = self.get_y();
        let n = self.num;
        if x >= 2 {
            pairs.push((Position::new_n(n - BOARDSIZE), Position::new_n(n - 2 * BOARDSIZE)));
        }
        if x <= BOARDSIZE - 3 {
            pairs.push((Position::new_n(n + BOARDSIZE), Position::new_n(n + 2 * BOARDSIZE)));
        }
        if y >= 2 {
            pairs.push((Position::new_n(n - 1), Position::new_n(n - 2)));
        }
        if y <= BOARDSIZE - 3 {
            pairs.push((Position::new_n(n + 1), Position::new_n(n + 2)));
        }
        assert(cell_pairs_of(pairs@) =~= flank_pairs(self@));
        pairs
    }

    /// The cells next to this one (up to four; fewer at the edges).
    pub fn get_surrounding_pos(&self) -> (r: Vec<Position>)
        requires
            on_board(self@),
        ensures
            cells_of(r@) == neighbours(self@),
    {
        let mut around = Vec::<Position>::new();
        let x = self.get_x();
        let y = self.get_y();
        let n = self.num;
        if x >= 1 {
            around.push(Position::new_n(n - BOARDSIZE));
        }
        if x <= BOARDSIZE - 2 {
            around.push(Position::new_n(n + BOARDSIZE));
        }
        if y >= 1 {
            around.push(Position::new_n(n - 1));
        }
        if y <= BOARDSIZE - 2 {
            around.push(Position::new_n(n + 1));
        }
        assert(cells_of(around@) =~= neighbours(self@));
        around
    }
}

} // verus!
