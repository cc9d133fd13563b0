use vstd::prelude::*;

verus! {

/// The two sides of the game.
#[derive(Clone, Copy, Debug, PartialEq, Eq, Structural)]
pub enum PieceColor {
    Attacker,
    Defender,
}

/// A piece: a pawn or a king, of one side.
#[derive(Clone, Copy, Debug, PartialEq, Eq, Structural)]
pub enum Piece {
    Pawn(PieceColor),
    King(PieceColor),
}

/// The other side.
pub open spec fn opposite(c: PieceColor) -> PieceColor {
    match c {
        PieceColor::Attacker => PieceColor::Defender,
        PieceColor::Defender => PieceColor::Attacker,
    }
}

/// The side a piece belongs to.
pub open spec fn color_of(p: Piece) -> PieceColor {
    match p {
        Piece::Pawn(c) => c,
        Piece::King(c) => c,
    }
}

impl Piece {
    /// Whether the piece is a king.
    pub fn is_king(&self) -> (r: bool)
        ensures
            r == (self is King),
    {
        matches!(self, Piece::King(_))
    }

    /// Whether the piece belongs to the defender.
    pub fn is_defender(&self) -> (r: bool)
        ensures
            r == (color_of(*self) == PieceColor::Defender),
    {
        matches!(self, Piece::Pawn(PieceColor::Defender) | Piece::King(PieceColor::Defender))
    }

    /// Whether the piece belongs to the attacker.
    pub fn is_attacker(&self) -> (r: bool)
        ensures
            r == (color_of(*self) == PieceColor::Attacker),
    {
        matches!(self, Piece::Pawn(PieceColor::Attacker) | Piece::King(PieceColor::Attacker))
    }

    /// The side the piece belongs to.
    pub fn get_color(&self) -> (r: PieceColor)
        ensures
            r == color_of(*self),
    {
        match self {
            Piece::King(color) => *color,
            Piece::Pawn(color) => *color,
        }
    }

    /// Whether the piece belongs to the given side.
    pub fn is_color(&self, color: &PieceColor) -> (r: bool)
        ensures
            r == (color_of(*self) == *color),
    {
        match color {
            PieceColor::Attacker => self.is_attacker(),
            PieceColor::Defender => self.is_defender(),
        }
    }

    /// Whether two pieces belong to the same side.
    pub fn same_color(&self, other: &Piece) -> (r: bool)
        ensures
            r == (color_of(*self) == color_of(*other)),
    {
        (self.is_attacker() && other.is_attacker()) || (self.is_defender() && other.is_defender())
    }
}

impl PieceColor {
    /// Switch to the other side.
    pub fn flip(&mut self)
        ensures
            *final(self) == opposite(*old(self)),
    {
        match self {
            PieceColor::Attacker => *self = PieceColor::Defender,
            PieceColor::Defender => *self = PieceColor::Attacker,
        }
    }

    /// The other side.
    pub fn get_opposite(&self) -> (r: PieceColor)
        ensures
            r == opposite(*self),
    {
        match self {
            PieceColor::Attacker => PieceColor::Defender,
            PieceColor::Defender => PieceColor::Attacker,
        }
    }
}

} // verus!
