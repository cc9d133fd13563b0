use vstd::prelude::*;
use crate::agent::{Bot, BotInit};
use crate::board::{apply_move, is_terminal, legal_moves, move_views, winner, Board, BoardState, GameState};
use crate::chance::shuffle_moves;
use crate::eval::{Eval, SCORE_LIMIT};
use crate::moves::{Move, MoveView};
use crate::piece::PieceColor;
use crate::rules::lemma_legal_move_applicable;

verus! {

broadcast use vstd::seq_lib::group_to_multiset_ensures;

/// A value beyond every score the search can return.
pub const INF: i64 = 0x1000_0000_0000_0000;

/// The deepest that a search may reach, counted from the root.
pub const MAX_SEARCH_PLY: usize = 1_000_000;

/// The attacker is to move: the search maximises for the attacker.
pub open spec fn attacker_moves(b: BoardState) -> bool {
    b.player == PieceColor::Attacker
}

/// The sign of the side that maximises: +1 for it, -1 for the other.
pub open spec fn sign(max_player: bool) -> int {
    if max_player {
        1
    } else {
        -1
    }
}

/// The bonus of a finished game at distance `dist` from the root: the attacker prefers a
/// quick win, the defender a slow loss and a quick win of its own.
pub open spec fn distance_bonus(b: BoardState, dist: int) -> int {
    if is_terminal(b) {
        match winner(b) {
            GameState::WinAttacker => -dist,
            GameState::WinDefender => dist,
            _ => 0,
        }
    } else {
        0
    }
}

/// The value of a leaf for the side to move, given its score.
pub open spec fn leaf_value(score: int, b: BoardState, max_player: bool, dist: int) -> int {
    sign(max_player) * (score + distance_bonus(b, dist))
}

pub open spec fn max_int(a: int, b: int) -> int {
    if a >= b {
        a
    } else {
        b
    }
}

/// The negamax value of board `b` searched `depth` plies deep, `dist` plies from the root:
/// a leaf is scored by the evaluator, an inner node takes the best of its children's values
/// negated.
pub open spec fn negamax<T: Eval>(e: T, b: BoardState, depth: nat, max_player: bool, dist: nat) -> int
    decreases depth, legal_moves(b, b.player).len() + 1,
{
    if depth == 0 || is_terminal(b) {
        leaf_value(e.score(b), b, max_player, dist as int)
    } else {
        best_child(e, b, depth, max_player, dist, legal_moves(b, b.player).len())
    }
}

/// The best negated child value over the first `n` moves of `b`; `-INF` for none.
pub open spec fn best_child<T: Eval>(
    e: T,
    b: BoardState,
    depth: nat,
    max_player: bool,
    dist: nat,
    n: nat,
) -> int
    decreases depth, n,
{
    if depth == 0 || n == 0 || n > legal_moves(b, b.player).len() {
        -INF
    } else {
        let last = -negamax(
            e,
            apply_move(b, legal_moves(b, b.player)[n - 1]),
            (depth - 1) as nat,
            !max_player,
            dist + 1,
        );
        if n == 1 {
            last
        } else {
            max_int(best_child(e, b, depth, max_player, dist, (n - 1) as nat), last)
        }
    }
}

/// The value of move `m` on `b` for the side to move: its child's value, negated.
pub open spec fn move_value<T: Eval>(
    e: T,
    b: BoardState,
    m: MoveView,
    depth: nat,
    max_player: bool,
    dist: nat,
) -> int {
    -negamax(e, apply_move(b, m), (depth - 1) as nat, !max_player, dist + 1)
}

proof fn lemma_best_child<T: Eval>(e: T, b: BoardState, depth: nat, mp: bool, dist: nat, n: nat)
    requires
        depth > 0,
        n <= legal_moves(b, b.player).len(),
    ensures
        forall|i: int|
            0 <= i < n ==> best_child(e, b, depth, mp, dist, n) >= move_value(
                e,
                b,
                #[trigger] legal_moves(b, b.player)[i],
                depth,
                mp,
                dist,
            ),
        n > 0 ==> exists|i: int|
            0 <= i < n && best_child(e, b, depth, mp, dist, n) == move_value(
                e,
                b,
                #[trigger] legal_moves(b, b.player)[i],
                depth,
                mp,
                dist,
            ),
    decreases n,
{
    if n > 0 {
        lemma_best_child(e, b, depth, mp, dist, (n - 1) as nat);
        let ms = legal_moves(b, b.player);
        assert(move_value(e, b, ms[n - 1], depth, mp, dist) == -negamax(
            e,
            apply_move(b, ms[n - 1]),
            (depth - 1) as nat,
            !mp,
            dist + 1,
        ));
        if n > 1 {
            let i = choose|i: int|
                0 <= i < n - 1 && best_child(e, b, depth, mp, dist, (n - 1) as nat) == move_value(
                    e,
                    b,
                    #[trigger] legal_moves(b, b.player)[i],
                    depth,
                    mp,
                    dist,
                );
        }
    }
}

/// The negamax value of an inner node is at least the value of each move, and is the value of
/// one of them.
proof fn lemma_negamax_inner<T: Eval>(e: T, b: BoardState, depth: nat, mp: bool, dist: nat)
    requires
        depth > 0,
        !is_terminal(b),
    ensures
        forall|x: MoveView|
            legal_moves(b, b.player).contains(x) ==> negamax(e, b, depth, mp, dist) >= #[trigger] move_value(
                e,
                b,
                x,
                depth,
                mp,
                dist,
            ),
        exists|x: MoveView|
            legal_moves(b, b.player).contains(x) && negamax(e, b, depth, mp, dist) == #[trigger] move_value(
                e,
                b,
                x,
                depth,
                mp,
                dist,
            ),
        legal_moves(b, b.player).len() > 0,
{
    let ms = legal_moves(b, b.player);
    lemma_best_child(e, b, depth, mp, dist, ms.len());
    assert(ms.len() > 0);
    assert forall|x: MoveView| ms.contains(x) implies negamax(e, b, depth, mp, dist) >= #[trigger] move_value(
        e,
        b,
        x,
        depth,
        mp,
        dist,
    ) by {
        let i = choose|i: int| 0 <= i < ms.len() && ms[i] == x;
        assert(best_child(e, b, depth, mp, dist, ms.len()) >= move_value(e, b, ms[i], depth, mp, dist));
    }
    let i = choose|i: int|
        0 <= i < ms.len() && best_child(e, b, depth, mp, dist, ms.len()) == move_value(
            e,
            b,
            #[trigger] ms[i],
            depth,
            mp,
            dist,
        );
    assert(ms.contains(ms[i]));
}

/// The minimax value of board `b` searched `depth` plies deep: a leaf is scored by the
/// evaluator plus its distance bonus; where `max_player` the best child value is the largest,
/// otherwise the smallest.
pub open spec fn minimax<T: Eval>(e: T, b: BoardState, depth: nat, max_player: bool, dist: nat) -> int
    decreases depth, legal_moves(b, b.player).len() + 1,
{
    if depth == 0 || is_terminal(b) {
        e.score(b) + distance_bonus(b, dist as int)
    } else {
        extreme_child(e, b, depth, max_player, dist, legal_moves(b, b.player).len())
    }
}

/// The largest (or, for the other side, the smallest) minimax value over the first `n` moves.
pub open spec fn extreme_child<T: Eval>(
    e: T,
    b: BoardState,
    depth: nat,
    max_player: bool,
    dist: nat,
    n: nat,
) -> int
    decreases depth, n,
{
    if depth == 0 || n == 0 || n > legal_moves(b, b.player).len() {
        if max_player {
            -INF
        } else {
            INF as int
        }
    } else {
        let last = minimax(
            e,
            apply_move(b, legal_moves(b, b.player)[n - 1]),
            (depth - 1) as nat,
            !max_player,
            dist + 1,
        );
        if n == 1 {
            last
        } else if max_player {
            max_int(extreme_child(e, b, depth, max_player, dist, (n - 1) as nat), last)
        } else {
            let prev = extreme_child(e, b, depth, max_player, dist, (n - 1) as nat);
            if prev <= last {
                prev
            } else {
                last
            }
        }
    }
}

/// The negamax value is the minimax value seen from the side to move: equal for the
/// maximising side, negated for the other.
pub proof fn lemma_negamax_is_minimax<T: Eval>(e: T, b: BoardState, depth: nat, max_player: bool, dist: nat)
    ensures
        negamax(e, b, depth, max_player, dist) == sign(max_player) * minimax(e, b, depth, max_player, dist),
    decreases depth, legal_moves(b, b.player).len() + 1,
{
    if depth == 0 || is_terminal(b) {
    } else {
        let n = legal_moves(b, b.player).len();
        if n > 0 {
            lemma_best_child_is_extreme(e, b, depth, max_player, dist, n);
        }
    }
}

proof fn lemma_best_child_is_extreme<T: Eval>(
    e: T,
    b: BoardState,
    depth: nat,
    max_player: bool,
    dist: nat,
    n: nat,
)
    requires
        depth > 0,
        1 <= n <= legal_moves(b, b.player).len(),
    ensures
        best_child(e, b, depth, max_player, dist, n) == sign(max_player) * extreme_child(
            e,
            b,
            depth,
            max_player,
            dist,
            n,
        ),
    decreases depth, n,
{
    let child = apply_move(b, legal_moves(b, b.player)[n - 1]);
    lemma_negamax_is_minimax(e, child, (depth - 1) as nat, !max_player, dist + 1);
    let nm = negamax(e, child, (depth - 1) as nat, !max_player, dist + 1);
    let mm = minimax(e, child, (depth - 1) as nat, !max_player, dist + 1);
    if max_player {
        assert(nm == -mm);
    } else {
        assert(nm == mm);
    }
    if n > 1 {
        lemma_best_child_is_extreme(e, b, depth, max_player, dist, (n - 1) as nat);
        let pb = best_child(e, b, depth, max_player, dist, (n - 1) as nat);
        let pe = extreme_child(e, b, depth, max_player, dist, (n - 1) as nat);
        if max_player {
            assert(pb == pe);
        } else {
            assert(pb == -pe);
        }
    }
}

proof fn lemma_views_contains(s: Seq<Move>, m: Move)
    ensures
        s.contains(m) <==> move_views(s).contains(m@),
{
    if s.contains(m) {
        let i = choose|i: int| 0 <= i < s.len() && s[i] == m;
        assert(move_views(s)[i] == m@);
    }
    if move_views(s).contains(m@) {
        let i = choose|i: int| 0 <= i < move_views(s).len() && move_views(s)[i] == m@;
        Move::lemma_view_injective(s[i], m);
        assert(s[i] == m);
    }
}

/// A bot that searches the game tree with alpha-beta pruning and iterative deepening.
pub struct AlphaBetaBot<T: Eval> {
    board: Board,
    eval_fn: T,
    max_depth: usize,
    best_move: Option<Move>,
}

impl<T: Eval> AlphaBetaBot<T> {
    /// The bot's evaluator.
    pub closed spec fn evaluator(&self) -> T {
        self.eval_fn
    }

    /// The deepest search the bot runs.
    pub closed spec fn depth_limit(&self) -> nat {
        self.max_depth as nat
    }

    /// The best move of the last search.
    pub closed spec fn best(&self) -> Option<Move> {
        self.best_move
    }

    /// Searches `board` `depth` plies deep with the window `(alpha, beta)`, `dist_from_root`
    /// plies below the root, trying `first_move` first where it is a move of the board. The
    /// value is fail-soft: exact inside the window, a bound outside it. At the root the best
    /// move is kept.
    pub fn alpha_beta(
        &mut self,
        board: Board,
        depth: usize,
        alpha: i64,
        beta: i64,
        max_player: bool,
        dist_from_root: usize,
        first_move: Option<Move>,
    ) -> (r: i64)
        requires
            board.wf(),
            -INF <= alpha < beta <= INF,
            depth + dist_from_root <= MAX_SEARCH_PLY,
        ensures
            final(self).evaluator() == old(self).evaluator(),
            final(self).depth_limit() == old(self).depth_limit(),
            dist_from_root > 0 ==> final(self).best() == old(self).best(),
            final(self).best() == old(self).best() || (final(self).best() matches Some(m)
                && legal_moves(board@, board@.player).contains(m@)),
            -(SCORE_LIMIT + depth + dist_from_root) <= r <= SCORE_LIMIT + depth + dist_from_root,
            old(self).evaluator().deterministic() ==> {
                let v = negamax(
                    old(self).evaluator(),
                    board@,
                    depth as nat,
                    max_player,
                    dist_from_root as nat,
                );
                &&& r <= alpha ==> v <= r
                &&& r >= beta ==> v >= r
                &&& alpha < r < beta ==> v == r
            },
            dist_from_root == 0 && alpha < r < beta && depth > 0 && !is_terminal(board@) ==> {
                &&& final(self).best() matches Some(m)
                &&& legal_moves(board@, board@.player).contains(m@)
                &&& old(self).evaluator().deterministic() ==> move_value(
                    old(self).evaluator(),
                    board@,
                    m@,
                    depth as nat,
                    max_player,
                    0,
                ) == r
            },
            depth == 0 || is_terminal(board@) ==> final(self).best() == old(self).best(),
            (depth == 0 || is_terminal(board@)) && old(self).evaluator().deterministic() ==> r
                == leaf_value(
                old(self).evaluator().score(board@),
                board@,
                max_player,
                dist_from_root as int,
            ),
            dist_from_root == 0 && alpha < r < beta && depth > 0 && !is_terminal(board@)
                && old(self).evaluator().deterministic() ==> (first_move is Some && legal_moves(
                board@,
                board@.player,
            ).contains(first_move->0@) && move_value(
                old(self).evaluator(),
                board@,
                first_move->0@,
                depth as nat,
                max_player,
                0,
            ) == r ==> final(self).best() == first_move),
        decreases depth, 1nat,
    {
        let ghost e = self.eval_fn;
        let ghost det = e.deterministic();
        let ghost b = board@;
        let ghost alpha0 = alpha;
        let ghost bound = SCORE_LIMIT + depth + dist_from_root;
        let over = board.is_game_over();
        if depth == 0 || over {
            let factor: i64 = if max_player { 1 } else { -1 };
            let score = self.eval_fn.get_eval(&board);
            let addition: i64 = if over {
                match board.who_won() {
                    GameState::WinAttacker => -(dist_from_root as i64),
                    GameState::WinDefender => dist_from_root as i64,
                    _ => 0,
                }
            } else {
                0
            };
            assert(-(dist_from_root as int) <= addition <= dist_from_root);
            let sum = score + addition;
            assert(-bound <= sum <= bound);
            let value = if max_player { sum } else { -sum };
            assert(value == factor * sum);
            return value;
        }
        let ghost ms = legal_moves(b, b.player);
        proof {
            lemma_negamax_inner(e, b, depth as nat, max_player, dist_from_root as nat);
            board.lemma_wf();
        }
        let mut legal = board.get_legal_moves();
        let ghost before_shuffle = legal@;
        shuffle_moves(&mut legal);
        let player = board.get_player();
        let fm = match first_move {
            Some(m) => {
                if board.is_valid_move(&m, &player) {
                    Some(m)
                } else {
                    None
                }
            },
            None => None,
        };
        let ghost shuffled = legal@;
        if let Some(m) = fm {
            legal.insert(0, m);
        }
        let ghost lv = move_views(legal@);
        proof {
            assert forall|j: int| 0 <= j < lv.len() implies ms.contains(#[trigger] lv[j]) by {
                let m = legal@[j];
                assert(lv[j] == m@);
                if fm is Some && j == 0 {
                } else {
                    let k = if fm is Some { j - 1 } else { j };
                    assert(m == shuffled[k]);
                    assert(shuffled.contains(m));
                    assert(shuffled.to_multiset().count(m) > 0);
                    assert(before_shuffle.contains(m));
                    lemma_views_contains(before_shuffle, m);
                }
            }
            assert forall|x: MoveView| ms.contains(x) implies lv.contains(x) by {
                let i = choose|i: int| 0 <= i < ms.len() && ms[i] == x;
                let m = before_shuffle[i];
                assert(move_views(before_shuffle)[i] == m@);
                assert(before_shuffle.contains(m));
                assert(before_shuffle.to_multiset().count(m) > 0);
                assert(shuffled.contains(m));
                lemma_views_contains(legal@, m);
                let k = choose|k: int| 0 <= k < shuffled.len() && shuffled[k] == m;
                if fm is Some {
                    assert(legal@[k + 1] == m);
                } else {
                    assert(legal@[k] == m);
                }
                assert(legal@.contains(m));
            }
            assert(lv.len() > 0) by {
                let x = choose|x: MoveView| ms.contains(x) && negamax(e, b, depth as nat, max_player, dist_from_root as nat) == #[trigger] move_value(e, b, x, depth as nat, max_player, dist_from_root as nat);
                assert(lv.contains(x));
            }
        }
        proof {
            assert forall|j: int| 0 <= j < legal@.len() implies ms.contains(#[trigger] legal@[j]@) by {
                assert(lv[j] == legal@[j]@);
            }
        }
        let skip_repeats = match fm {
            Some(_) => true,
            None => false,
        };
        let r = self.search_moves(board, &legal, skip_repeats, depth, alpha, beta, max_player, dist_from_root);
        proof {
            if det && dist_from_root == 0 && alpha < r < beta && first_move is Some && ms.contains(first_move->0@)
                && move_value(e, b, first_move->0@, depth as nat, max_player, 0) == r {
                let j = choose|j: int|
                    0 <= j < legal@.len() && self.best_move == Some(legal@[j]) && move_value(
                        e,
                        b,
                        legal@[j]@,
                        depth as nat,
                        max_player,
                        0,
                    ) == r && forall|k: int| 0 <= k < j ==> #[trigger] move_value(e, b, legal@[k]@, depth as nat, max_player, 0) < r;
                if j > 0 {
                    assert(move_value(e, b, legal@[0]@, depth as nat, max_player, 0) < r);
                }
            }
        }
        r
    }

    /// The inner node of the search: tries the moves of `board` in the order `order` (where
    /// `skip_repeats`, later copies of the first move are passed over), with the window
    /// `(alpha, beta)`, cutting off once `alpha >= beta`. The value is fail-soft like that of
    /// `alpha_beta`; at the root the best move kept is the first move in `order` that reaches it.
    pub fn search_moves(
        &mut self,
        board: Board,
        order: &Vec<Move>,
        skip_repeats: bool,
        depth: usize,
        alpha: i64,
        beta: i64,
        max_player: bool,
        dist_from_root: usize,
    ) -> (r: i64)
        requires
            board.wf(),
            !is_terminal(board@),
            depth > 0,
            -INF <= alpha < beta <= INF,
            depth + dist_from_root <= MAX_SEARCH_PLY,
            forall|j: int| 0 <= j < order@.len() ==> legal_moves(board@, board@.player).contains(#[trigger] order@[j]@),
            forall|x: MoveView| legal_moves(board@, board@.player).contains(x) ==> move_views(order@).contains(x),
        ensures
            final(self).evaluator() == old(self).evaluator(),
            final(self).depth_limit() == old(self).depth_limit(),
            dist_from_root > 0 ==> final(self).best() == old(self).best(),
            final(self).best() == old(self).best() || (final(self).best() matches Some(m)
                && legal_moves(board@, board@.player).contains(m@)),
            -(SCORE_LIMIT + depth + dist_from_root) <= r <= SCORE_LIMIT + depth + dist_from_root,
            old(self).evaluator().deterministic() ==> {
                let v = negamax(
                    old(self).evaluator(),
                    board@,
                    depth as nat,
                    max_player,
                    dist_from_root as nat,
                );
                &&& r <= alpha ==> v <= r
                &&& r >= beta ==> v >= r
                &&& alpha < r < beta ==> v == r
            },
            dist_from_root == 0 && alpha < r < beta ==> {
                &&& final(self).best() matches Some(m)
                &&& legal_moves(board@, board@.player).contains(m@)
                &&& old(self).evaluator().deterministic() ==> move_value(
                    old(self).evaluator(),
                    board@,
                    m@,
                    depth as nat,
                    max_player,
                    0,
                ) == r
            },
            dist_from_root == 0 && alpha < r < beta && old(self).evaluator().deterministic() ==> exists|j: int|
                0 <= j < order@.len() && final(self).best() == Some(order@[j]) && move_value(
                    old(self).evaluator(),
                    board@,
                    order@[j]@,
                    depth as nat,
                    max_player,
                    0,
                ) == r && forall|k: int|
                    0 <= k < j ==> #[trigger] move_value(
                        old(self).evaluator(),
                        board@,
                        order@[k]@,
                        depth as nat,
                        max_player,
                        0,
                    ) < r,
        decreases depth, 0nat,
    {
        let ghost e = self.eval_fn;
        let ghost det = e.deterministic();
        let ghost b = board@;
        let ghost alpha0 = alpha;
        let ghost bound = SCORE_LIMIT + depth + dist_from_root;
        let ghost ms = legal_moves(b, b.player);
        let ghost lv = move_views(order@);
        proof {
            lemma_negamax_inner(e, b, depth as nat, max_player, dist_from_root as nat);
            board.lemma_wf();
            assert forall|j: int| 0 <= j < lv.len() implies ms.contains(#[trigger] lv[j]) by {
                assert(lv[j] == order@[j]@);
            }
            assert(lv.len() > 0) by {
                let x = choose|x: MoveView| ms.contains(x) && negamax(e, b, depth as nat, max_player, dist_from_root as nat) == #[trigger] move_value(e, b, x, depth as nat, max_player, dist_from_root as nat);
                assert(lv.contains(x));
            }
        }
        let mut alpha = alpha;
        let mut value: i64 = -INF;
        let mut idx: usize = 0;
        while idx < order.len()
            invariant_except_break
                alpha < beta,
                idx == 0 ==> value == -INF,
                idx > 0 ==> -bound <= value <= bound,
                det ==> forall|j: int| 0 <= j < idx ==> move_value(e, b, #[trigger] lv[j], depth as nat, max_player, dist_from_root as nat) <= value,
            invariant
                board.wf(),
                b == board@,
                b.well_formed(),
                !is_terminal(b),
                depth > 0,
                depth + dist_from_root <= MAX_SEARCH_PLY,
                bound == SCORE_LIMIT + depth + dist_from_root,
                -INF <= alpha0 < beta <= INF,
                self.eval_fn == e,
                det == e.deterministic(),
                self.max_depth == old(self).max_depth,
                dist_from_root > 0 ==> self.best_move == old(self).best_move,
                self.best_move == old(self).best_move || (self.best_move matches Some(m) && ms.contains(m@)),
                ms == legal_moves(b, b.player),
                lv == move_views(order@),
                lv.len() > 0,
                forall|j: int| 0 <= j < lv.len() ==> ms.contains(#[trigger] lv[j]),
                forall|x: MoveView| ms.contains(x) ==> lv.contains(x),
                idx <= order@.len(),
                alpha < beta ==> det && value > alpha0 ==> exists|j: int|
                    0 <= j < idx && move_value(e, b, #[trigger] lv[j], depth as nat, max_player, dist_from_root as nat) == value,
                alpha < beta ==> dist_from_root == 0 && value > alpha0 ==> {
                    &&& self.best_move matches Some(bm)
                    &&& ms.contains(bm@)
                    &&& det ==> move_value(e, b, bm@, depth as nat, max_player, 0) == value
                },
                alpha < beta ==> det && dist_from_root == 0 && value > alpha0 ==> exists|j: int|
                    0 <= j < idx && self.best_move == Some(order@[j]) && move_value(e, b, order@[j]@, depth as nat, max_player, 0)
                        == value && forall|k: int|
                        0 <= k < j ==> #[trigger] move_value(e, b, order@[k]@, depth as nat, max_player, 0) < value,
                alpha == max_int(alpha0 as int, value as int),
            ensures
                -bound <= value <= bound,

                value >= beta ==> det ==> exists|j: int|
                    0 <= j < lv.len() && move_value(e, b, #[trigger] lv[j], depth as nat, max_player, dist_from_root as nat) >= value,
                value < beta ==> det ==> forall|j: int|
                    0 <= j < lv.len() ==> move_value(e, b, #[trigger] lv[j], depth as nat, max_player, dist_from_root as nat) <= value,
            decreases order@.len() - idx,
        {
            let mov = order[idx];
            assert(mov@ == lv[idx as int]);
            let repeat = skip_repeats && idx != 0 && order[0] == mov;
            if repeat {
                proof {
                    Move::lemma_view_injective(order@[0], mov);
                    if det && dist_from_root == 0 && alpha < beta && value > alpha0 {
                        let j = choose|j: int|
                            0 <= j < idx && self.best_move == Some(order@[j]) && move_value(e, b, order@[j]@, depth as nat, max_player, 0)
                                == value && forall|k: int|
                                0 <= k < j ==> #[trigger] move_value(e, b, order@[k]@, depth as nat, max_player, 0) < value;
                        assert(forall|k: int|
                                0 <= k < j ==> #[trigger] move_value(e, b, order@[k]@, depth as nat, max_player, 0) < value);
                    }
                    assert(lv[idx as int] == lv[0]);
                }
                idx += 1;
                continue;
            }
            let ghost alpha_t = alpha;
            let ghost value_t = value;
            proof {
                lemma_legal_move_applicable(b, b.player, mov@);
            }
            let mut child = board.clone();
            child.make_move_captured_positions(&mov);
            let child_value = self.alpha_beta(
                child,
                depth - 1,
                -beta,
                -alpha,
                !max_player,
                dist_from_root + 1,
                None,
            );
            let eval = -child_value;
            proof {
                if det {
                    let mv = move_value(e, b, mov@, depth as nat, max_player, dist_from_root as nat);
                    assert(eval >= beta ==> mv >= eval);
                    assert(eval <= alpha_t ==> mv <= eval);
                    assert(alpha_t < eval < beta ==> mv == eval);
                }
            }
            proof {
                if det && dist_from_root == 0 && eval > value && alpha_t < eval && eval < beta {
                    assert forall|k: int| 0 <= k < idx implies #[trigger] move_value(e, b, order@[k]@, depth as nat, max_player, 0) < eval by {
                        assert(lv[k] == order@[k]@);
                    }
                }
            }
            if eval > value && dist_from_root == 0 {
                self.best_move = Some(mov);
                assert(ms.contains(mov@));
            }
            if eval > value {
                value = eval;
            }
            if value > alpha {
                alpha = value;
            }
            if alpha >= beta {
                break;
            }
            idx += 1;
        }
        proof {
            if det {
                let v = negamax(e, b, depth as nat, max_player, dist_from_root as nat);
                if value >= beta {
                    let j = choose|j: int|
                        0 <= j < lv.len() && move_value(e, b, #[trigger] lv[j], depth as nat, max_player, dist_from_root as nat) >= value;
                    assert(ms.contains(lv[j]));
                } else {
                    let x = choose|x: MoveView|
                        ms.contains(x) && v == #[trigger] move_value(e, b, x, depth as nat, max_player, dist_from_root as nat);
                    assert(lv.contains(x));
                    let j = choose|j: int| 0 <= j < lv.len() && lv[j] == x;
                    assert(move_value(e, b, lv[j], depth as nat, max_player, dist_from_root as nat) <= value);
                    if value > alpha0 {
                        let j = choose|j: int|
                            0 <= j < idx && move_value(e, b, #[trigger] lv[j], depth as nat, max_player, dist_from_root as nat) == value;
                        assert(ms.contains(lv[j]));
                    }
                }
            }
        }
        value
    }
}

impl<T: Eval> BotInit for AlphaBetaBot<T> {
    type Ev = T;

    type Params = usize;

    fn new(bot_params: usize, eval_fn: T) -> AlphaBetaBot<T> {
        AlphaBetaBot { board: Board::new(), eval_fn, max_depth: bot_params, best_move: None }
    }
}

impl<T: Eval> AlphaBetaBot<T> {
    /// Searches `board` one ply deeper at a time, from depth 1 up to the bot's depth, each
    /// search trying the last best move first, and stops early once `time` milliseconds have
    /// passed after a search. The move found is legal; on an undecided board some move is found;
    /// with a deterministic evaluator it is a best move of one of the completed depths.
    pub fn search(&mut self, board: &Board, time: u128) -> (r: Option<Move>)
        requires
            board.wf(),
        ensures
            final(self).evaluator() == old(self).evaluator(),
            r matches Some(m) ==> legal_moves(board@, board@.player).contains(m@),
            !is_terminal(board@) && old(self).depth_limit() >= 1 ==> r is Some,
            is_terminal(board@) ==> r is None,
            old(self).evaluator().deterministic() && !is_terminal(board@) ==> (r matches Some(m) ==> exists|d: nat|
                1 <= d <= old(self).depth_limit() && #[trigger] move_value(
                    old(self).evaluator(),
                    board@,
                    m@,
                    d,
                    attacker_moves(board@),
                    0,
                ) == negamax(old(self).evaluator(), board@, d, attacker_moves(board@), 0)),
    {
        let start_time = std::time::Instant::now();
        self.board = board.clone();
        let attacker_to_move = match board.get_player() {
            PieceColor::Attacker => true,
            PieceColor::Defender => false,
        };
        let ghost e = self.eval_fn;
        self.best_move = None;
        let last = if self.max_depth < MAX_SEARCH_PLY {
            self.max_depth
        } else {
            MAX_SEARCH_PLY
        };
        let mut i: usize = 1;
        while i <= last
            invariant
                board.wf(),
                last <= MAX_SEARCH_PLY,
                last <= self.max_depth,
                self.max_depth == old(self).max_depth,
                self.eval_fn == e,
                e == old(self).eval_fn,
                attacker_to_move == attacker_moves(board@),
                1 <= i <= last + 1,
                self.best_move matches Some(m) ==> legal_moves(board@, board@.player).contains(m@),
                i > 1 && !is_terminal(board@) ==> self.best_move is Some,
                is_terminal(board@) ==> self.best_move is None,
                e.deterministic() && !is_terminal(board@) ==> (self.best_move matches Some(m) ==> exists|d: nat|
                    1 <= d < i && #[trigger] move_value(e, board@, m@, d, attacker_to_move, 0) == negamax(
                        e,
                        board@,
                        d,
                        attacker_to_move,
                        0,
                    )),
            decreases last + 1 - i,
        {
            let fm = self.best_move;
            self.alpha_beta(board.clone(), i, -INF + 1, INF - 1, attacker_to_move, 0, fm);
            proof {
                if !is_terminal(board@) {
                    let m = self.best_move->0;
                    if e.deterministic() {
                        assert(move_value(e, board@, m@, i as nat, attacker_to_move, 0) == negamax(
                            e,
                            board@,
                            i as nat,
                            attacker_to_move,
                            0,
                        ));
                    }
                }
            }
            if start_time.elapsed().as_millis() > time {
                return self.best_move;
            }
            i += 1;
        }
        self.best_move
    }
}

impl<T: Eval> Bot for AlphaBetaBot<T> {
    fn get_next_move(&mut self, board: &Board, time: u128) -> (r: Option<Move>)
        ensures
            !is_terminal(board@) && old(self).depth_limit() >= 1 ==> r is Some,
            is_terminal(board@) ==> r is None,
            old(self).evaluator().deterministic() && !is_terminal(board@) ==> (r matches Some(m) ==> exists|d: nat|
                1 <= d <= old(self).depth_limit() && #[trigger] move_value(
                    old(self).evaluator(),
                    board@,
                    m@,
                    d,
                    attacker_moves(board@),
                    0,
                ) == negamax(old(self).evaluator(), board@, d, attacker_moves(board@), 0)),
    {
        self.search(board, time)
    }

    fn reset(&mut self, board: &Board) {
        self.board = board.clone();
    }

    fn num_nodes(&self) -> usize {
        0
    }

    fn get_name(&self) -> String {
        "AlphaBeta".to_owned()
    }
}

} // verus!
