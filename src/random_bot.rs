use vstd::prelude::*;
use crate::agent::{Bot, BotInit};
use crate::board::{legal_moves, Board};
use crate::eval::Eval;
use crate::moves::Move;

verus! {

/// A bot that plays a move chosen at random.
pub struct RandomBot<T: Eval> {
    _eval: T,
}

impl<T: Eval> BotInit for RandomBot<T> {
    type Ev = T;

    type Params = usize;

    fn new(_bot_params: usize, eval_fn: T) -> RandomBot<T> {
        RandomBot { _eval: eval_fn }
    }
}

impl<T: Eval> Bot for RandomBot<T> {
    fn get_next_move(&mut self, board: &Board, _time: u128) -> (r: Option<Move>)
        ensures
            r is None <==> legal_moves(board@, board@.player).len() == 0,
    {
        board.get_random_move()
    }

    fn reset(&mut self, _board: &Board) {
    }

    fn num_nodes(&self) -> usize {
        0
    }

    fn get_name(&self) -> String {
        "Random".to_owned()
    }
}

} // verus!
