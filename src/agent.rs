use vstd::prelude::*;
use crate::board::{legal_moves, Board};
use crate::eval::Eval;
use crate::moves::Move;

verus! {

/// Builds a bot from its parameters and an evaluator.
pub trait BotInit: Sized {
    type Ev: Eval;

    type Params;

    fn new(bot_params: Self::Params, eval_fn: Self::Ev) -> Self;
}

/// A player that picks moves.
pub trait Bot {
    /// The bot's move on `board` within about `time` milliseconds, or `None` where it finds no
    /// move.
    fn get_next_move(&mut self, board: &Board, time: u128) -> (r: Option<Move>)
        requires
            board.wf(),
        ensures
            r matches Some(m) ==> legal_moves(board@, board@.player).contains(m@);

    /// Forget what was learnt about earlier positions and take up `board`.
    fn reset(&mut self, board: &Board)
        requires
            board.wf(),
    ;

    /// The number of positions the bot explored for its last move.
    fn num_nodes(&self) -> usize;

    /// The bot's name.
    fn get_name(&self) -> String;
}

} // verus!
