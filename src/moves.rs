use vstd::prelude::*;
use crate::position::{on_board, Position};

verus! {

/// A move of one piece from a start cell to an end cell.
#[derive(Clone, Copy, Debug, PartialEq, Eq, Structural, Hash, PartialOrd, Ord)]
pub struct Move {
    start_pos: Position,
    end_pos: Position,
}

/// A move as a pair of cell indices (start, end).
pub struct MoveView {
    pub start: int,
    pub end: int,
}

impl View for Move {
    type V = MoveView;

    closed spec fn view(&self) -> MoveView {
        MoveView { start: self.start_pos@, end: self.end_pos@ }
    }
}

impl Move {
    pub proof fn lemma_view_injective(a: Move, b: Move)
        ensures
            a@ == b@ <==> a == b,
    {
        Position::lemma_view_injective(a.start_pos, b.start_pos);
        Position::lemma_view_injective(a.end_pos, b.end_pos);
    }

    /// A move from `start_pos` to `end_pos`.
    pub fn new(start_pos: Position, end_pos: Position) -> (r: Move)
        ensures
            r@ == (MoveView { start: start_pos@, end: end_pos@ }),
    {
        Move { start_pos, end_pos }
    }

    /// The start cell.
    pub fn get_start_pos(&self) -> (r: &Position)
        ensures
            r@ == self@.start,
    {
        &self.start_pos
    }

    /// The end cell.
    pub fn get_end_pos(&self) -> (r: &Position)
        ensures
            r@ == self@.end,
    {
        &self.end_pos
    }

    /// A bit mask with the bits of the start and the end cell set.
    pub fn get_mask(&self) -> (r: u128)
        requires
            on_board(self@.start),
            on_board(self@.end),
        ensures
            r == (1u128 << (self@.start as u128)) | (1u128 << (self@.end as u128)),
    {
        self.start_pos.get_pos_mask() | self.end_pos.get_pos_mask()
    }
}

} // verus!
