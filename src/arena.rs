use vstd::prelude::*;
use crate::agent::Bot;
use crate::board::{apply_move, initial_state, is_terminal, legal_moves, winner, Board, BoardState, GameState};
use crate::piece::PieceColor;
use crate::moves::Move;
use crate::rules::lemma_legal_move_applicable;

verus! {

/// The longest game the arena plays.
pub const MAX_NUMBER_OF_MOVES: usize = 1000;

/// The board before move `t` of a replay: the initial board, or the board after move `t - 1`.
pub open spec fn board_before(replay: Seq<(Move, Board)>, t: int) -> BoardState {
    if t == 0 {
        initial_state()
    } else {
        replay[t - 1].1@
    }
}

/// Move `t` of a replay was a move of the side to move, the attacker (the black bot) on even
/// turns and the defender (the white bot) on odd ones, and its board is the board after it.
pub open spec fn replay_step_ok(replay: Seq<(Move, Board)>, t: int) -> bool {
    let prev = board_before(replay, t);
    &&& prev.player == (if t % 2 == 0 {
        PieceColor::Attacker
    } else {
        PieceColor::Defender
    })
    &&& legal_moves(prev, prev.player).contains(replay[t].0@)
    &&& replay[t].1@ == apply_move(prev, replay[t].0@)
}

/// The result of one game between two bots.
pub struct FightInfo {
    /// How the game ended.
    pub state: GameState,
    /// The number of moves played.
    pub num_turns: usize,
    /// The nodes the black bot (the attacker) explored, move by move.
    pub black_nodes: Vec<usize>,
    /// The nodes the white bot (the defender) explored, move by move.
    pub white_nodes: Vec<usize>,
    /// The game stopped because the bot to move gave no move.
    pub no_move: bool,
}

/// Two bots that play against each other, the black one (the attacker) first, and the moves
/// and boards of the last game.
pub struct Arena<B: Bot, W: Bot> {
    black_bot: B,
    white_bot: W,
    replay_buffer: Vec<(Move, Board)>,
}

impl<B: Bot, W: Bot> Arena<B, W> {
    /// The moves of the last game, each with the board it led to.
    pub closed spec fn replay(&self) -> Seq<(Move, Board)> {
        self.replay_buffer@
    }

    /// An arena for two bots, with no game played yet.
    pub fn new(black_bot: B, white_bot: W) -> (r: Arena<B, W>)
        ensures
            r.replay().len() == 0,
    {
        Arena { black_bot, white_bot, replay_buffer: Vec::new() }
    }

    /// A copy of the moves of the last game, each with the board it led to.
    pub fn get_replay_buffer(&self) -> (r: Vec<(Move, Board)>)
        ensures
            r@.len() == self.replay().len(),
            forall|i: int|
                0 <= i < r@.len() ==> (#[trigger] r@[i]).0 == self.replay()[i].0 && r@[i].1@
                    == self.replay()[i].1@,
    {
        let mut out: Vec<(Move, Board)> = Vec::with_capacity(self.replay_buffer.len());
        let mut i: usize = 0;
        while i < self.replay_buffer.len()
            invariant
                i <= self.replay_buffer@.len(),
                out@.len() == i,
                forall|j: int|
                    0 <= j < i ==> (#[trigger] out@[j]).0 == self.replay_buffer@[j].0 && out@[j].1@
                        == self.replay_buffer@[j].1@,
            decreases self.replay_buffer@.len() - i,
        {
            let entry = &self.replay_buffer[i];
            out.push((entry.0, entry.1.clone()));
            i += 1;
        }
        out
    }

    /// Lets the bots play one game from the initial board, with the given thinking times in
    /// milliseconds, until it is over, a bot finds no move, or `MAX_NUMBER_OF_MOVES` moves are
    /// played. Each played move is recorded with the board after it.
    pub fn fight_or_be_forgotten(&mut self, time_to_think_black: u128, time_to_think_white: u128) -> (r: FightInfo)
        ensures
            r.num_turns <= MAX_NUMBER_OF_MOVES,
            final(self).replay().len() == r.num_turns,
            r.black_nodes@.len() + r.white_nodes@.len() >= r.num_turns,
            forall|i: int| 0 <= i < r.num_turns ==> (#[trigger] final(self).replay()[i]).1.wf(),
            forall|i: int| 0 <= i < r.num_turns ==> #[trigger] replay_step_ok(final(self).replay(), i),
            r.state == winner(
                if r.num_turns == 0 {
                    initial_state()
                } else {
                    final(self).replay()[r.num_turns - 1].1@
                },
            ),
            ({
                let last = if r.num_turns == 0 {
                    initial_state()
                } else {
                    final(self).replay()[r.num_turns - 1].1@
                };
                &&& r.no_move ==> !is_terminal(last) && r.num_turns < MAX_NUMBER_OF_MOVES
                &&& !r.no_move ==> is_terminal(last) || r.num_turns == MAX_NUMBER_OF_MOVES
            }),
    {
        let mut board = Board::new();
        let mut black_move = true;
        let mut num_of_turns: usize = 0;
        self.replay_buffer = Vec::new();
        let mut num_black_nodes: Vec<usize> = Vec::with_capacity(MAX_NUMBER_OF_MOVES / 2);
        let mut num_white_nodes: Vec<usize> = Vec::with_capacity(MAX_NUMBER_OF_MOVES / 2);
        let mut no_move = false;
        while !board.is_game_over() && num_of_turns < MAX_NUMBER_OF_MOVES
            invariant_except_break
                !no_move,
            invariant
                board.wf(),
                num_of_turns <= MAX_NUMBER_OF_MOVES,
                self.replay_buffer@.len() == num_of_turns,
                num_black_nodes@.len() + num_white_nodes@.len() >= num_of_turns,
                forall|i: int| 0 <= i < num_of_turns ==> (#[trigger] self.replay_buffer@[i]).1.wf(),
                forall|i: int| 0 <= i < num_of_turns ==> #[trigger] replay_step_ok(self.replay_buffer@, i),
                black_move == (num_of_turns % 2 == 0),
                board@.player == (if black_move { PieceColor::Attacker } else { PieceColor::Defender }),
                num_of_turns == 0 ==> board@ == initial_state(),
                num_of_turns > 0 ==> self.replay_buffer@[num_of_turns - 1].1@ == board@,
            ensures
                no_move ==> !is_terminal(board@) && num_of_turns < MAX_NUMBER_OF_MOVES,
                !no_move ==> is_terminal(board@) || num_of_turns == MAX_NUMBER_OF_MOVES,
                board.wf(),
                num_of_turns <= MAX_NUMBER_OF_MOVES,
                self.replay_buffer@.len() == num_of_turns,
                num_black_nodes@.len() + num_white_nodes@.len() >= num_of_turns,
                forall|i: int| 0 <= i < num_of_turns ==> (#[trigger] self.replay_buffer@[i]).1.wf(),
                forall|i: int| 0 <= i < num_of_turns ==> #[trigger] replay_step_ok(self.replay_buffer@, i),
                num_of_turns == 0 ==> board@ == initial_state(),
                num_of_turns > 0 ==> self.replay_buffer@[num_of_turns - 1].1@ == board@,
            decreases MAX_NUMBER_OF_MOVES - num_of_turns,
        {
            let mov = if black_move {
                let next_mov = self.black_bot.get_next_move(&board, time_to_think_black);
                num_black_nodes.push(self.black_bot.num_nodes());
                next_mov
            } else {
                let next_mov = self.white_bot.get_next_move(&board, time_to_think_white);
                num_white_nodes.push(self.white_bot.num_nodes());
                next_mov
            };
            match mov {
                Some(mov) => {
                    proof {
                        board.lemma_wf();
                        lemma_legal_move_applicable(board@, board@.player, mov@);
                    }
                    let ghost prev = board@;
                    let ghost before = self.replay_buffer@;
                    board.make_move_captured_positions(&mov);
                    self.replay_buffer.push((mov, board.clone()));
                    proof {
                        assert forall|i: int| 0 <= i < num_of_turns + 1 implies #[trigger] replay_step_ok(self.replay_buffer@, i) by {
                            if i < num_of_turns {
                                assert(self.replay_buffer@[i] == before[i]);
                                if i > 0 {
                                    assert(self.replay_buffer@[i - 1] == before[i - 1]);
                                }
                                assert(replay_step_ok(before, i));
                            } else {
                                assert(board_before(self.replay_buffer@, i) == prev);
                            }
                        }
                    }
                },
                None => {
                    no_move = true;
                    break;
                },
            }
            black_move = !black_move;
            num_of_turns += 1;
        }
        FightInfo {
            state: board.who_won(),
            num_turns: num_of_turns,
            black_nodes: num_black_nodes,
            white_nodes: num_white_nodes,
            no_move,
        }
    }
}

} // verus!
