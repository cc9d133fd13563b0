use vstd::prelude::*;
use crate::moves::Move;
use crate::position::{cell_at, Position};

verus! {

broadcast use vstd::string::axiom_spec_iter, vstd::string::next_postcondition;

/// std's error for a number that does not parse.
#[verifier::external_type_specification]
#[verifier::external_body]
pub struct ExParseIntError(std::num::ParseIntError);

/// A decimal digit.
pub open spec fn is_digit(c: char) -> bool {
    '0' <= c && c <= '9'
}

/// The value of a string of decimal digits.
pub open spec fn decimal(s: Seq<char>) -> int
    decreases s.len(),
{
    if s.len() == 0 {
        0
    } else {
        decimal(s.drop_last()) * 10 + (s.last() as int - '0' as int)
    }
}

/// A text without its leading `+`, if it has one.
pub open spec fn unsigned_digits(s: Seq<char>) -> Seq<char> {
    if s.len() > 0 && s[0] == '+' {
        s.drop_first()
    } else {
        s
    }
}

/// The text is an unsigned decimal number, with an optional `+`, whose value fits in `usize`.
pub open spec fn parses_as_usize(s: Seq<char>) -> bool {
    let d = unsigned_digits(s);
    &&& d.len() > 0
    &&& forall|i: int| 0 <= i < d.len() ==> is_digit(#[trigger] d[i])
    &&& decimal(d) <= usize::MAX
}

/// Relies on `str::parse::<usize>` (that is `usize::from_str`): it accepts an optional `+`
/// followed by decimal digits whose value fits, and gives that value; anything else is an error.
#[verifier::external_body]
fn parse_usize(s: &str) -> (r: Result<usize, std::num::ParseIntError>)
    ensures
        r is Ok <==> parses_as_usize(s@),
        r matches Ok(n) ==> n == decimal(unsigned_digits(s@)),
{
    s.parse::<usize>()
}

/// Why a position could not be read.
pub enum PositionErrorKind {
    WrongDataAmount,
    OutOfRange,
    NonLetter,
    IntParsing(std::num::ParseIntError),
}

/// A position that could not be read.
pub struct ParsePositionError {
    pub kind: PositionErrorKind,
}

/// Why a move could not be read.
pub enum MoveErrorKind {
    WrongDataAmount,
    PositionError(ParsePositionError),
}

/// A move that could not be read.
pub struct ParseMoveError {
    pub kind: MoveErrorKind,
}

/// The column index of a letter: 0 for `A`.
pub open spec fn letter_index(c: char) -> int {
    (c as u32) as int - 65
}

/// The cell that a row number and a column letter name, if they name one.
pub open spec fn position_of(row: Seq<char>, col: Seq<char>) -> Option<int> {
    if parses_as_usize(row) && col.len() > 0 && decimal(unsigned_digits(row)) < 11 && 0
        <= letter_index(col[0]) < 11 {
        Some(cell_at(decimal(unsigned_digits(row)), letter_index(col[0])))
    } else {
        None
    }
}

impl Position {
    /// Reads a position from two words: the row as a number, then the column as a capital
    /// letter (`A` for the first).
    pub fn from_str(elements: &[&str]) -> (r: Result<Position, ParsePositionError>)
        ensures
            elements@.len() != 2 ==> (r matches Err(e) && e.kind is WrongDataAmount),
            elements@.len() == 2 ==> {
                let row = elements@[0]@;
                let col = elements@[1]@;
                &&& !parses_as_usize(row) ==> (r matches Err(e) && e.kind is IntParsing)
                &&& parses_as_usize(row) && col.len() == 0 ==> (r matches Err(e) && e.kind is NonLetter)
                &&& parses_as_usize(row) && col.len() > 0 && position_of(row, col) is None ==> (r matches Err(
                    e,
                ) && e.kind is OutOfRange)
                &&& position_of(row, col) matches Some(p) ==> r matches Ok(q) && q@ == p
            },
    {
        if elements.len() != 2 {
            return Err(ParsePositionError { kind: PositionErrorKind::WrongDataAmount });
        }
        let i = match parse_usize(elements[0]) {
            Ok(v) => v,
            Err(err) => {
                return Err(ParsePositionError { kind: PositionErrorKind::IntParsing(err) });
            },
        };
        let mut chars = elements[1].chars();
        let c = match chars.next() {
            Some(c) => c,
            None => {
                return Err(ParsePositionError { kind: PositionErrorKind::NonLetter });
            },
        };
        assert(c == elements@[1]@[0]);
        let code = c as u32;
        if code < 65 || code - 65 >= 11 || i >= 11 {
            return Err(ParsePositionError { kind: PositionErrorKind::OutOfRange });
        }
        let j = (code - 65) as usize;
        Ok(Position::new_xy(i, j))
    }
}

impl Move {
    /// Reads a move from four words: the start position, then the end position, each as a row
    /// number and a column letter. Words after the fourth are ignored.
    pub fn from_str(tokens: &[&str]) -> (r: Result<Move, ParseMoveError>)
        ensures
            tokens@.len() < 4 ==> (r matches Err(e) && e.kind is WrongDataAmount),
            tokens@.len() >= 4 ==> {
                let s = position_of(tokens@[0]@, tokens@[1]@);
                let t = position_of(tokens@[2]@, tokens@[3]@);
                &&& (s is Some && t is Some) <==> r is Ok
                &&& r matches Ok(m) ==> m@.start == s->0 && m@.end == t->0
                &&& r matches Err(e) ==> e.kind is PositionError
            },
    {
        if tokens.len() < 4 {
            return Err(ParseMoveError { kind: MoveErrorKind::WrongDataAmount });
        }
        let start_pos = Position::from_str(&tokens[0..2]);
        let end_pos = Position::from_str(&tokens[2..4]);
        match start_pos {
            Err(err) => Err(ParseMoveError { kind: MoveErrorKind::PositionError(err) }),
            Ok(start) => match end_pos {
                Err(err) => Err(ParseMoveError { kind: MoveErrorKind::PositionError(err) }),
                Ok(end) => Ok(Move::new(start, end)),
            },
        }
    }
}

/// What a human player asks for.
pub enum Action {
    PossibleMoves(Position),
    MakeMove(Move),
    Quit,
    Nothing,
}

} // verus!
