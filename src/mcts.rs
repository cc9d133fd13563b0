use vstd::prelude::*;
use vstd::arithmetic::mul::lemma_mul_strict_inequality_converse;
use crate::board::{is_terminal, legal_moves, move_views, Board, BoardState};
use crate::chance::shuffle_moves;
use crate::eval::{Eval, SCORE_LIMIT};
use crate::moves::{Move, MoveView};
use crate::piece::PieceColor;
use crate::rules::lemma_legal_move_applicable;

verus! {

broadcast use vstd::seq_lib::group_to_multiset_ensures;

/// A tree stops growing once its root has been visited this often.
pub const MAX_VISITS: usize = 0x7FFF_FFFF;

/// What a search tree node holds, seen from outside.
pub struct NodeView {
    pub terminal: bool,
    pub board: BoardState,
    pub mov: Option<MoveView>,
    pub unexplored: Seq<MoveView>,
    pub explored: int,
    pub q: int,
    pub n: int,
    pub children: Seq<int>,
    pub parent: Option<int>,
}

/// A node of the search tree: a board, the move that led to it, the moves not yet expanded
/// (taken in order), the visit count, the summed outcomes, and the links to its children and
/// its parent by index in the tree.
pub struct MctsTreenode {
    terminal: bool,
    state: Board,
    mov: Option<Move>,
    unexplored_moves: Vec<Move>,
    unexplored_moves_index: usize,
    q_val: i128,
    n_val: usize,
    children: Vec<usize>,
    parent: Option<usize>,
}

impl View for MctsTreenode {
    type V = NodeView;

    closed spec fn view(&self) -> NodeView {
        NodeView {
            terminal: self.terminal,
            board: self.state@,
            mov: match self.mov {
                Some(m) => Some(m@),
                None => None,
            },
            unexplored: move_views(self.unexplored_moves@),
            explored: self.unexplored_moves_index as int,
            q: self.q_val as int,
            n: self.n_val as int,
            children: self.children@.map_values(|c: usize| c as int),
            parent: match self.parent {
                Some(p) => Some(p as int),
                None => None,
            },
        }
    }
}

/// Node `i` was reached from its parent by a legal move of the parent's board.
pub open spec fn mov_is_legal(t: Seq<NodeView>, i: int) -> bool {
    &&& t[i].parent is Some
    &&& t[i].mov is Some
    &&& 0 <= t[i].parent->0 < t.len()
    &&& legal_moves(t[t[i].parent->0].board, t[t[i].parent->0].board.player).contains(t[i].mov->0)
}

/// The number of parent steps from node `x` up to node `i`, if `i` is `x` or one of its
/// ancestors.
pub open spec fn dist_up(t: Seq<NodeView>, x: int, i: int) -> Option<nat>
    decreases x,
{
    if x == i {
        Some(0)
    } else if x <= 0 || x >= t.len() {
        None
    } else {
        match t[x].parent {
            Some(p) => if 0 <= p < x {
                match dist_up(t, p, i) {
                    Some(d) => Some(d + 1),
                    None => None,
                }
            } else {
                None
            },
            None => None,
        }
    }
}

/// The sign with which an outcome at node `x` reaches node `i`: +1 at `x`, alternating up the
/// ancestors, 0 off that path.
pub open spec fn path_sign(t: Seq<NodeView>, x: int, i: int) -> int {
    match dist_up(t, x, i) {
        Some(d) => if d % 2 == 0 {
            1
        } else {
            -1
        },
        None => 0,
    }
}

/// Tree `t2` is tree `t1` after `outcome` was backed up from node `x`: each node on the path
/// to the root gains one visit and the outcome with its sign; nothing else changes.
pub open spec fn backed_up(t1: Seq<NodeView>, t2: Seq<NodeView>, x: int, outcome: int) -> bool {
    &&& t2.len() == t1.len()
    &&& forall|i: int|
        0 <= i < t1.len() ==> {
            &&& (#[trigger] t2[i]).n == t1[i].n + if path_sign(t1, x, i) != 0 {
                1int
            } else {
                0int
            }
            &&& t2[i].q == t1[i].q + path_sign(t1, x, i) * outcome
            &&& t2[i].parent == t1[i].parent
            &&& t2[i].children == t1[i].children
            &&& t2[i].explored == t1[i].explored
            &&& t2[i].unexplored == t1[i].unexplored
            &&& t2[i].board == t1[i].board
            &&& t2[i].terminal == t1[i].terminal
            &&& t2[i].mov == t1[i].mov
        }
}

/// The outcome of a board for the player who moved into it: the evaluator's score, negated
/// where the attacker is to move.
pub open spec fn signed_outcome(b: BoardState, eval: int) -> int {
    match b.player {
        PieceColor::Attacker => -eval,
        PieceColor::Defender => eval,
    }
}

proof fn lemma_count_views(s: Seq<Move>, m: Move)
    ensures
        move_views(s).to_multiset().count(m@) == s.to_multiset().count(m),
    decreases s.len(),
{
    if s.len() > 0 {
        let init = s.drop_last();
        let a = s.last();
        lemma_count_views(init, m);
        assert(s == init.push(a));
        assert(move_views(s) == move_views(init).push(a@));
        Move::lemma_view_injective(a, m);
    } else {
        assert(move_views(s) =~= Seq::<MoveView>::empty());
    }
}

/// Two sequences of moves that are reorderings of each other have views that are too.
proof fn lemma_views_multiset(s1: Seq<Move>, s2: Seq<Move>)
    requires
        s1.to_multiset() == s2.to_multiset(),
    ensures
        move_views(s1).to_multiset() == move_views(s2).to_multiset(),
{
    let v1 = move_views(s1);
    let v2 = move_views(s2);
    assert forall|y: MoveView| v1.to_multiset().count(y) == v2.to_multiset().count(y) by {
        if v1.contains(y) {
            let i = choose|i: int| 0 <= i < v1.len() && v1[i] == y;
            lemma_count_views(s1, s1[i]);
            lemma_count_views(s2, s1[i]);
        } else if v2.contains(y) {
            let i = choose|i: int| 0 <= i < v2.len() && v2[i] == y;
            lemma_count_views(s1, s2[i]);
            lemma_count_views(s2, s2[i]);
        }
    }
    assert(v1.to_multiset() =~= v2.to_multiset());
}

impl MctsTreenode {
    /// What a consistent node states: its terminal flag is right, its expanded moves are
    /// among its moves, and all its moves are moves of its board.
    pub proof fn lemma_node_wf(&self)
        requires
            self.node_wf(),
        ensures
            self@.terminal == is_terminal(self@.board),
            self@.explored <= self@.unexplored.len(),
            forall|j: int| 0 <= j < self@.unexplored.len() ==> legal_moves(self@.board, self@.board.player).contains(
                #[trigger] self@.unexplored[j],
            ),
            !self@.terminal ==> self@.unexplored.len() > 0,
    {
        assert forall|j: int| 0 <= j < self@.unexplored.len() implies legal_moves(self@.board, self@.board.player).contains(
            #[trigger] self@.unexplored[j],
        ) by {
            assert(self@.unexplored[j] == self.unexplored_moves@[j]@);
        }
    }

    /// The node is consistent: a valid board, its terminal flag, its unexplored moves legal.
    pub closed spec fn node_wf(&self) -> bool {
        &&& self.state.wf()
        &&& self.terminal == is_terminal(self.state@)
        &&& self.unexplored_moves_index <= self.unexplored_moves@.len()
        &&& forall|j: int|
            0 <= j < self.unexplored_moves@.len() ==> legal_moves(self.state@, self.state@.player).contains(
                #[trigger] self.unexplored_moves@[j]@,
            )
        &&& !self.terminal ==> self.unexplored_moves@.len() > 0
    }

    proof fn lemma_unexplored_len(b: BoardState, before: Seq<Move>, after: Seq<Move>)
        requires
            move_views(before) == legal_moves(b, b.player),
            after.to_multiset() == before.to_multiset(),
        ensures
            forall|j: int| 0 <= j < after.len() ==> legal_moves(b, b.player).contains(#[trigger] after[j]@),
            after.len() == legal_moves(b, b.player).len(),
    {
        assert forall|j: int| 0 <= j < after.len() implies legal_moves(b, b.player).contains(#[trigger] after[j]@) by {
            let m = after[j];
            assert(after.contains(m));
            assert(after.to_multiset().count(m) > 0);
            assert(before.contains(m));
            let k = choose|k: int| 0 <= k < before.len() && before[k] == m;
            assert(move_views(before)[k] == m@);
        }
        assert(after.len() == after.to_multiset().len());
        assert(before.len() == before.to_multiset().len());
        assert(move_views(before).len() == before.len());
    }

    /// The root node of a tree for `state`, its moves in the board's order.
    pub fn new_root(state: Board) -> (r: MctsTreenode)
        requires
            state.wf(),
        ensures
            r.node_wf(),
            r@.board == state@,
            r@.mov is None,
            r@.unexplored == legal_moves(state@, state@.player),
            r@.terminal == is_terminal(state@),
            r@.explored == 0,
            r@.q == 0,
            r@.n == 0,
            r@.children.len() == 0,
            r@.parent is None,
    {
        let unexplored_moves = state.get_legal_moves();
        let terminal = state.is_game_over();
        proof {
            assert forall|j: int| 0 <= j < unexplored_moves@.len() implies legal_moves(state@, state@.player).contains(
                #[trigger] unexplored_moves@[j]@,
            ) by {
                assert(move_views(unexplored_moves@)[j] == unexplored_moves@[j]@);
            }
        }
        let r = MctsTreenode {
            terminal,
            state,
            mov: None,
            unexplored_moves,
            unexplored_moves_index: 0,
            q_val: 0,
            n_val: 0,
            children: Vec::new(),
            parent: None,
        };
        assert(r@.children =~= Seq::<int>::empty());
        r
    }

    /// The node reached from `parent` (at index `parent_idx`) by `mov`; its moves are shuffled.
    pub fn new_child_node(parent: &MctsTreenode, parent_idx: usize, mov: Move) -> (r: MctsTreenode)
        requires
            parent.node_wf(),
            legal_moves(parent@.board, parent@.board.player).contains(mov@),
        ensures
            r.node_wf(),
            r@.board == crate::board::apply_move(parent@.board, mov@),
            r@.mov == Some(mov@),
            r@.unexplored.to_multiset() == legal_moves(r@.board, r@.board.player).to_multiset(),
            r@.terminal == is_terminal(r@.board),
            r@.explored == 0,
            r@.q == 0,
            r@.n == 0,
            r@.children.len() == 0,
            r@.parent == Some(parent_idx as int),
    {
        let mut child_state = parent.state.clone();
        proof {
            parent.state.lemma_wf();
            lemma_legal_move_applicable(parent@.board, parent@.board.player, mov@);
        }
        child_state.make_move_captured_positions(&mov);
        let mut unexplored_moves = child_state.get_legal_moves();
        let ghost before = unexplored_moves@;
        shuffle_moves(&mut unexplored_moves);
        proof {
            MctsTreenode::lemma_unexplored_len(child_state@, before, unexplored_moves@);
            lemma_views_multiset(unexplored_moves@, before);
        }
        let terminal = child_state.is_game_over();
        let r = MctsTreenode {
            terminal,
            state: child_state,
            mov: Some(mov),
            unexplored_moves,
            unexplored_moves_index: 0,
            q_val: 0,
            n_val: 0,
            children: Vec::new(),
            parent: Some(parent_idx),
        };
        assert(r@.children =~= Seq::<int>::empty());
        r
    }

    /// The next move to expand, taken in order, or `None` once all are expanded.
    pub fn choose_move(&mut self) -> (r: Option<Move>)
        requires
            old(self).node_wf(),
        ensures
            final(self).node_wf(),
            old(self)@.explored < old(self)@.unexplored.len() ==> {
                &&& r matches Some(m) && m@ == old(self)@.unexplored[old(self)@.explored]
                &&& final(self)@ == (NodeView { explored: old(self)@.explored + 1, ..old(self)@ })
            },
            old(self)@.explored >= old(self)@.unexplored.len() ==> r is None && final(self)@ == old(self)@,
    {
        let pre_i = self.unexplored_moves_index;
        if pre_i >= self.unexplored_moves.len() {
            return None;
        }
        self.unexplored_moves_index = pre_i + 1;
        let m = self.unexplored_moves[pre_i];
        assert(m@ == move_views(self.unexplored_moves@)[pre_i as int]);
        Some(m)
    }

    /// Whether the node's board ends the game.
    pub fn is_terminal(&self) -> (r: bool)
        ensures
            r == self@.terminal,
    {
        self.terminal
    }

    /// The move that led to this node; `None` at the root.
    pub fn get_mov(&self) -> (r: &Option<Move>)
        ensures
            r matches Some(m) ==> self@.mov == Some(m@),
            r is None ==> self@.mov is None,
    {
        &self.mov
    }

    /// The number of moves of the node's board, expanded or not.
    pub fn num_movs(&self) -> (r: usize)
        ensures
            r == self@.unexplored.len(),
    {
        self.unexplored_moves.len()
    }

    /// The number of moves expanded so far.
    pub fn get_unexplored_moves_idx(&self) -> (r: usize)
        ensures
            r == self@.explored,
    {
        self.unexplored_moves_index
    }

    /// The sum of the outcomes backed up through this node.
    pub fn get_q_val(&self) -> (r: i128)
        ensures
            r == self@.q,
    {
        self.q_val
    }

    /// The number of visits.
    pub fn get_n_val(&self) -> (r: usize)
        ensures
            r == self@.n,
    {
        self.n_val
    }

    /// The indices of the children in the tree.
    pub fn get_children(&self) -> (r: &Vec<usize>)
        ensures
            r@.map_values(|c: usize| c as int) == self@.children,
    {
        &self.children
    }

    /// Record the node at index `child` as a child.
    pub fn add_child(&mut self, child: usize)
        ensures
            final(self)@ == (NodeView { children: old(self)@.children.push(child as int), ..old(self)@ }),
            final(self).node_wf() == old(self).node_wf(),
    {
        self.children.push(child);
        assert(self@.children =~= old(self)@.children.push(child as int));
    }

    /// The node's board.
    pub fn get_board(&self) -> (r: &Board)
        ensures
            r@ == self@.board,
            self.node_wf() ==> r.wf(),
    {
        &self.state
    }
}

/// Tree `t2` is tree `t1` with the next move of node `x` expanded into a new last node.
pub open spec fn expanded(t1: Seq<NodeView>, t2: Seq<NodeView>, x: int) -> bool {
    let c = t1.len() as int;
    let m = t1[x].unexplored[t1[x].explored];
    &&& t2.len() == t1.len() + 1
    &&& forall|i: int| 0 <= i < t1.len() && i != x ==> #[trigger] t2[i] == t1[i]
    &&& t2[x] == (NodeView { explored: t1[x].explored + 1, children: t1[x].children.push(c), ..t1[x] })
    &&& t2[c].parent == Some(x)
    &&& t2[c].mov == Some(m)
    &&& t2[c].board == crate::board::apply_move(t1[x].board, m)
    &&& t2[c].n == 0 && t2[c].q == 0 && t2[c].explored == 0 && t2[c].children.len() == 0
}

/// A Monte-Carlo tree search over one board: nodes in a vector, the root first.
pub struct Mcts<T: Eval> {
    nodes: Vec<MctsTreenode>,
    num_nodes: usize,
    eval_fn: T,
}

/// A node of `t` before `x` up the parent chain is `dist_up` steps beyond the node at `k` steps.
proof fn lemma_dist_chain(t: Seq<NodeView>, x: int, i: int, c: int, d: nat, k: nat)
    requires
        dist_up(t, x, i) == Some(d),
        dist_up(t, x, c) == Some(k),
        k <= d,
    ensures
        dist_up(t, c, i) == Some((d - k) as nat),
    decreases x,
{
    if k == 0 {
    } else {
        let p = t[x].parent->0;
        lemma_dist_chain(t, p, i, c, (d - 1) as nat, (k - 1) as nat);
    }
}

proof fn lemma_dist_le(t: Seq<NodeView>, x: int, c: int, k: nat)
    requires
        dist_up(t, x, c) == Some(k),
    ensures
        c <= x,
        k == 0 <==> c == x,
    decreases x,
{
    if x != c {
        let p = t[x].parent->0;
        lemma_dist_le(t, p, c, (k - 1) as nat);
    }
}

proof fn lemma_dist_step(t: Seq<NodeView>, x: int, c: int, p: int, k: nat)
    requires
        dist_up(t, x, c) == Some(k),
        0 < c < t.len(),
        t[c].parent == Some(p),
        0 <= p < c,
    ensures
        dist_up(t, x, p) == Some(k + 1),
    decreases x,
{
    lemma_dist_le(t, x, c, k);
    if x != c {
        let q = t[x].parent->0;
        lemma_dist_step(t, q, c, p, (k - 1) as nat);
    }
}

/// Node `nd` stands for node `i` of `t0` once the outcome reached the first `k` nodes up from
/// `x`.
spec fn part_ok(t0: Seq<NodeView>, nd: MctsTreenode, x: int, i: int, k: nat, outcome: int) -> bool {
    let on = dist_up(t0, x, i) matches Some(d) && d < k;
    let sg = if on {
        path_sign(t0, x, i)
    } else {
        0
    };
    &&& nd@.n == t0[i].n + if on {
        1int
    } else {
        0int
    }
    &&& nd@.q == t0[i].q + sg * outcome
    &&& nd@.parent == t0[i].parent
    &&& nd@.children == t0[i].children
    &&& nd@.explored == t0[i].explored
    &&& nd@.unexplored == t0[i].unexplored
    &&& nd@.board == t0[i].board
    &&& nd@.terminal == t0[i].terminal
    &&& nd@.mov == t0[i].mov
}

spec fn partly_backed(t0: Seq<NodeView>, now: Seq<MctsTreenode>, x: int, k: nat, outcome: int) -> bool {
    forall|i: int| 0 <= i < t0.len() ==> part_ok(t0, #[trigger] now[i], x, i, k, outcome)
}

/// The average `q1 / n1` is at most `q2 / n2` (both counts positive).
#[verifier::opaque]
pub open spec fn avg_le(q1: int, n1: int, q2: int, n2: int) -> bool {
    q1 * n2 <= q2 * n1
}

/// The average `q1 / n1` is below `q2 / n2` (both counts positive).
#[verifier::opaque]
pub open spec fn avg_lt(q1: int, n1: int, q2: int, n2: int) -> bool {
    q1 * n2 < q2 * n1
}

/// Child `j` (by its place in `ch`) has visits and the highest average `q / n` among the
/// visited children, and every visited child before it has a lower one.
pub open spec fn first_best_child(t: Seq<NodeView>, ch: Seq<int>, j: int) -> bool {
    &&& 0 <= j < ch.len()
    &&& t[ch[j]].n > 0
    &&& forall|k: int|
        0 <= k < ch.len() && t[#[trigger] ch[k]].n > 0 ==> avg_le(t[ch[k]].q, t[ch[k]].n, t[ch[j]].q, t[ch[j]].n)
    &&& forall|k: int|
        0 <= k < j && t[#[trigger] ch[k]].n > 0 ==> avg_lt(t[ch[k]].q, t[ch[k]].n, t[ch[j]].q, t[ch[j]].n)
}

/// A child better than the best so far is better than every child before it.
proof fn lemma_new_best(t: Seq<NodeView>, ch: Seq<int>, i: int, q: int, n: int, bq: int, bn: int)
    requires
        forall|k: int|
            0 <= k < i && t[#[trigger] ch[k]].n > 0 ==> avg_le(t[ch[k]].q, t[ch[k]].n, bq, bn),
        avg_lt(bq, bn, q, n),
        bn > 0,
        n > 0,
    ensures
        forall|k: int|
            0 <= k < i && t[#[trigger] ch[k]].n > 0 ==> avg_lt(t[ch[k]].q, t[ch[k]].n, q, n),
{
    assert forall|k: int| 0 <= k < i && t[#[trigger] ch[k]].n > 0 implies avg_lt(t[ch[k]].q, t[ch[k]].n, q, n) by {
        lemma_ratio_order(t[ch[k]].q, t[ch[k]].n, q, n, bq, bn);
    }
}

proof fn lemma_avg_cmp(q: int, n: int, bq: int, bn: int)
    ensures
        avg_lt(bq, bn, q, n) == (q * bn > bq * n),
        avg_le(q, n, bq, bn) == (q * bn <= bq * n),
{
    reveal(avg_le);
    reveal(avg_lt);
}

/// Ratios compare through a ratio between them: `qk / nk <= bq / bn < q / n` gives
/// `qk / nk < q / n`.
proof fn lemma_ratio_order(qk: int, nk: int, q: int, n: int, bq: int, bn: int)
    requires
        avg_le(qk, nk, bq, bn),
        avg_lt(bq, bn, q, n),
        bn > 0,
        nk > 0,
        n > 0,
    ensures
        avg_lt(qk, nk, q, n),
        avg_le(qk, nk, q, n),
{
    reveal(avg_le);
    reveal(avg_lt);
    lemma_cross_products(qk, nk, q, n, bq, bn);
}

proof fn lemma_cross_products(qk: int, nk: int, q: int, n: int, bq: int, bn: int)
    requires
        qk * bn <= bq * nk,
        bq * n < q * bn,
        bn > 0,
        nk > 0,
        n > 0,
    ensures
        qk * n < q * nk,
{
    assert((qk * n) * bn <= (bq * nk) * n) by (nonlinear_arith)
        requires
            qk * bn <= bq * nk,
            n > 0,
    ;
    assert((bq * nk) * n < (q * nk) * bn) by (nonlinear_arith)
        requires
            bq * n < q * bn,
            nk > 0,
    ;
    lemma_mul_strict_inequality_converse(qk * n, q * nk, bn);
}

proof fn lemma_product_bound(q: i128, n: i128)
    requires
        -(0x7FFF_FFFF * SCORE_LIMIT) <= q <= 0x7FFF_FFFF * SCORE_LIMIT,
        0 <= n <= 0x7FFF_FFFF,
    ensures
        -(0x7FFF_FFFF * SCORE_LIMIT * 0x7FFF_FFFF) <= q * n <= 0x7FFF_FFFF * SCORE_LIMIT * 0x7FFF_FFFF,
{
    let b: int = 0x7FFF_FFFF * SCORE_LIMIT;
    assert(-b * n <= q * n <= b * n) by (nonlinear_arith)
        requires
            -b <= q <= b,
            0 <= n,
    ;
    assert(b * n <= b * 0x7FFF_FFFF && -b * n >= -b * 0x7FFF_FFFF) by (nonlinear_arith)
        requires
            0 <= n <= 0x7FFF_FFFF,
            b >= 0,
    ;
}

impl<T: Eval> Mcts<T> {
    /// The tree's nodes, the root first.
    pub closed spec fn tree(&self) -> Seq<NodeView> {
        self.nodes@.map_values(|n: MctsTreenode| n@)
    }

    /// The tree's evaluator.
    pub closed spec fn evaluator(&self) -> T {
        self.eval_fn
    }

    /// The tree is consistent and holds no more nodes than its root has visits, plus one.
    pub closed spec fn wf(&self) -> bool {
        &&& self.links_wf()
        &&& self.tree().len() <= self.tree()[0].n + 1
    }

    /// The tree is consistent: parents come before their children, each expanded move has one
    /// child, visit counts grow towards the root and bound the summed outcomes.
    pub closed spec fn links_wf(&self) -> bool {
        let t = self.tree();
        &&& t.len() >= 1
        &&& t.len() <= t[0].n + 2
        &&& self.num_nodes == t.len() - 1
        &&& t[0].n <= MAX_VISITS
        &&& t[0].parent is None
        &&& forall|i: int| 0 <= i < t.len() ==> (#[trigger] self.nodes@[i]).node_wf()
        &&& forall|i: int|
            0 < i < t.len() ==> ((#[trigger] t[i]).parent matches Some(p) && 0 <= p < i)
        &&& forall|i: int| 0 < i < t.len() ==> (#[trigger] t[i]).mov is Some
        &&& forall|i: int| 0 < i < t.len() ==> #[trigger] mov_is_legal(t, i)
        &&& forall|i: int| 0 <= i < t.len() ==> (#[trigger] t[i]).children.len() == t[i].explored
        &&& forall|i: int, j: int|
            0 <= i < t.len() && 0 <= j < t[i].children.len() ==> i < #[trigger] t[i].children[j]
                < t.len() && t[t[i].children[j]].parent == Some(i)
        &&& forall|i: int|
            0 <= i < t.len() ==> (#[trigger] t[i]).n <= t[0].n && -(t[i].n * SCORE_LIMIT) <= t[i].q
                <= t[i].n * SCORE_LIMIT
    }

    proof fn lemma_tree_index(&self, i: int)
        requires
            0 <= i < self.nodes@.len(),
        ensures
            self.tree()[i] == self.nodes@[i]@,
            self.tree().len() == self.nodes@.len(),
    {
    }

    /// A tree over `board` with the given evaluator.
    pub fn new(board: &Board, eval_fn: T) -> (r: Mcts<T>)
        requires
            board.wf(),
        ensures
            r.wf(),
            r.tree().len() == 1,
            r.tree()[0].board == board@,
            r.evaluator() == eval_fn,
    {
        let root = MctsTreenode::new_root(board.clone());
        let mut nodes = Vec::new();
        nodes.push(root);
        let r = Mcts { nodes, num_nodes: 0, eval_fn };
        proof {
            r.lemma_tree_index(0);
        }
        r
    }

    /// Discards the tree and starts a new one over `board`.
    pub fn reset_to(&mut self, board: &Board)
        requires
            board.wf(),
        ensures
            final(self).wf(),
            final(self).tree().len() == 1,
            final(self).tree()[0].board == board@,
            final(self).evaluator() == old(self).evaluator(),
    {
        let root = MctsTreenode::new_root(board.clone());
        let mut nodes = Vec::new();
        nodes.push(root);
        self.nodes = nodes;
        self.num_nodes = 0;
        proof {
            self.lemma_tree_index(0);
        }
    }

    /// The node at index `i`.
    pub fn get_node(&self, i: usize) -> (r: &MctsTreenode)
        requires
            self.wf(),
            i < self.tree().len(),
        ensures
            r@ == self.tree()[i as int],
            r.node_wf(),
    {
        proof {
            self.lemma_tree_index(i as int);
        }
        &self.nodes[i]
    }

    /// The number of nodes grown below the root.
    pub fn num_nodes(&self) -> (r: usize)
        requires
            self.wf(),
        ensures
            r == self.tree().len() - 1,
    {
        self.num_nodes
    }

    /// Whether the search goes on below node `i` to one of its children: the node is not
    /// terminal and all its moves are expanded. Such a node has children.
    pub fn needs_selection(&self, i: usize) -> (r: bool)
        requires
            self.wf(),
            i < self.tree().len(),
        ensures
            r == (!self.tree()[i as int].terminal && self.tree()[i as int].explored
                >= self.tree()[i as int].unexplored.len()),
            r ==> self.tree()[i as int].children.len() > 0,
    {
        proof {
            self.lemma_tree_index(i as int);
        }
        let node = &self.nodes[i];
        !node.terminal && node.unexplored_moves_index >= node.unexplored_moves.len()
    }

    /// Adds `outcome` to node `node` and to its ancestors, negated at each step up, and counts
    /// a visit at each.
    pub fn back_propagation(&mut self, node: usize, outcome: i64)
        requires
            old(self).links_wf(),
            node < old(self).tree().len(),
            -SCORE_LIMIT <= outcome <= SCORE_LIMIT,
            old(self).tree()[0].n < MAX_VISITS,
        ensures
            final(self).links_wf(),
            old(self).wf() ==> final(self).wf(),
            final(self).tree()[0].n == old(self).tree()[0].n + 1,
            backed_up(old(self).tree(), final(self).tree(), node as int, outcome as int),
            final(self).evaluator() == old(self).evaluator(),
    {
        let ghost t0 = self.tree();
        let mut cur: usize = node;
        let mut o: i128 = outcome as i128;
        let ghost mut k: nat = 0;
        loop
            invariant_except_break
                partly_backed(t0, self.nodes@, node as int, k, outcome as int),
            invariant
                self.nodes@.len() == t0.len(),
                self.eval_fn == old(self).eval_fn,
                self.num_nodes == old(self).num_nodes,
                t0 == old(self).tree(),
                old(self).links_wf(),
                forall|i: int| 0 <= i < t0.len() ==> (#[trigger] self.nodes@[i]).node_wf(),
                cur < t0.len(),
                dist_up(t0, node as int, cur as int) == Some(k),
                o == if k % 2 == 0 { outcome as int } else { -outcome },
                forall|i: int| 0 < i < t0.len() ==> ((#[trigger] t0[i]).parent matches Some(p) && 0 <= p < i),
                t0[0].parent is None,
                forall|i: int| 0 <= i < t0.len() ==> (#[trigger] t0[i]).n <= t0[0].n && -(t0[i].n * SCORE_LIMIT) <= t0[i].q
                    <= t0[i].n * SCORE_LIMIT,
                t0[0].n < MAX_VISITS,
                -SCORE_LIMIT <= outcome <= SCORE_LIMIT,
            ensures
                forall|i: int| 0 <= i < t0.len() ==> {
                    &&& (#[trigger] self.nodes@[i])@.n == t0[i].n + if path_sign(t0, node as int, i) != 0 {
                        1int
                    } else {
                        0int
                    }
                    &&& self.nodes@[i]@.q == t0[i].q + path_sign(t0, node as int, i) * outcome
                    &&& self.nodes@[i]@.parent == t0[i].parent
                    &&& self.nodes@[i]@.children == t0[i].children
                    &&& self.nodes@[i]@.explored == t0[i].explored
                    &&& self.nodes@[i]@.unexplored == t0[i].unexplored
                    &&& self.nodes@[i]@.board == t0[i].board
                    &&& self.nodes@[i]@.terminal == t0[i].terminal
                    &&& self.nodes@[i]@.mov == t0[i].mov
                },
                self.nodes@.len() == t0.len(),
                self.eval_fn == old(self).eval_fn,
                self.num_nodes == old(self).num_nodes,
                forall|i: int| 0 <= i < t0.len() ==> (#[trigger] self.nodes@[i]).node_wf(),
                dist_up(t0, node as int, 0) is Some,
            decreases cur,
        {
            let ghost before = self.nodes@;
            proof {
                assert(self.nodes@[cur as int]@.n == t0[cur as int].n) by {
                    if let Some(d) = dist_up(t0, node as int, cur as int) {
                        assert(d == k);
                    }
                }
                assert forall|i: int| 0 <= i < t0.len() && i != cur implies !(dist_up(t0, node as int, i) == Some(k)) by {
                    if dist_up(t0, node as int, i) == Some(k) {
                        lemma_dist_chain(t0, node as int, i, cur as int, k, k);
                    }
                }
            }
            let n_val = self.nodes[cur].n_val;
            let q_val = self.nodes[cur].q_val;
            self.nodes[cur].n_val = n_val + 1;
            self.nodes[cur].q_val = q_val + o;
            assert forall|i: int| 0 <= i < t0.len() && i != cur implies #[trigger] self.nodes@[i] == before[i] by {}
            proof {
                assert forall|i: int| 0 <= i < t0.len() implies part_ok(t0, #[trigger] self.nodes@[i], node as int, i, (k + 1) as nat, outcome as int) by {
                    if i == cur {
                        assert(dist_up(t0, node as int, i) == Some(k));
                    } else {
                        assert(part_ok(t0, before[i], node as int, i, k, outcome as int));
                    }
                }
            }
            match self.nodes[cur].parent {
                Some(p) => {
                    proof {
                        assert(cur > 0);
                        lemma_dist_step(t0, node as int, cur as int, p as int, k);
                        k = k + 1;
                    }
                    cur = p;
                    o = -o;
                },
                None => {
                    proof {
                        assert(cur == 0);
                        assert(dist_up(t0, node as int, 0) is Some);
                        assert forall|i: int| 0 <= i < t0.len() && dist_up(t0, node as int, i) is Some implies dist_up(t0, node as int, i)->0 <= k by {
                            let d = dist_up(t0, node as int, i)->0;
                            if d > k {
                                lemma_dist_chain(t0, node as int, i, cur as int, d, k);
                            }
                        }
                        assert forall|i: int| 0 <= i < t0.len() implies part_ok(t0, #[trigger] self.nodes@[i], node as int, i, (k + 1) as nat, outcome as int) by {}
                    }
                    break;
                },
            }
        }
        proof {
            let t = self.tree();
            assert forall|i: int| 0 <= i < t0.len() implies #[trigger] t[i] == self.nodes@[i]@ by {}
            assert(t[0].n == t0[0].n + 1);
            assert forall|i: int| 0 <= i < t.len() implies (#[trigger] t[i]).n <= t[0].n && -(t[i].n * SCORE_LIMIT) <= t[i].q
                <= t[i].n * SCORE_LIMIT by {
                assert(t[i] == self.nodes@[i]@);
                let sg = path_sign(t0, node as int, i);
                if sg == 1 {
                    assert(t[i].q == t0[i].q + outcome);
                } else if sg == -1 {
                    assert(t[i].q == t0[i].q - outcome);
                } else {
                    assert(sg == 0);
                }
                assert(t0[i].n <= t0[0].n);
                assert(-(t0[i].n * SCORE_LIMIT) <= t0[i].q <= t0[i].n * SCORE_LIMIT);
            }
            assert forall|i: int, j: int|
                0 <= i < t.len() && 0 <= j < t[i].children.len() implies i < #[trigger] t[i].children[j]
                    < t.len() && t[t[i].children[j]].parent == Some(i) by {
                assert(t0[i].children[j] == t[i].children[j]);
                assert(i < t0[i].children[j] < t0.len() && t0[t0[i].children[j]].parent == Some(i));
            }
            assert forall|i: int| 0 < i < t.len() implies (#[trigger] t[i]).mov is Some by {
                assert(t0[i].mov is Some);
            }
            assert forall|i: int| 0 < i < t.len() implies #[trigger] mov_is_legal(t, i) by {
                assert(mov_is_legal(t0, i));
                let p = t0[i].parent->0;
                assert(t[i] == self.nodes@[i]@);
                assert(t[p] == self.nodes@[p]@);
            }
        }
    }

    /// One growth step at node `node`, the node that selection stopped at: a terminal node has
    /// its own evaluation backed up; otherwise its next unexplored move is expanded into a new
    /// child, which is evaluated and whose evaluation is backed up. Nothing happens once the
    /// root has `MAX_VISITS` visits.
    pub fn grow_at(&mut self, node: usize)
        requires
            old(self).wf(),
            node < old(self).tree().len(),
            old(self).tree()[node as int].terminal || old(self).tree()[node as int].explored
                < old(self).tree()[node as int].unexplored.len(),
        ensures
            final(self).wf(),
            final(self).evaluator() == old(self).evaluator(),
            old(self).tree()[0].n >= MAX_VISITS ==> final(self).tree() == old(self).tree(),
            old(self).tree()[0].n < MAX_VISITS ==> final(self).tree()[0].n == old(self).tree()[0].n + 1,
            old(self).tree()[0].n < MAX_VISITS ==> final(self).tree().len() == old(self).tree().len() + if old(
                self,
            ).tree()[node as int].terminal {
                0int
            } else {
                1int
            },
            forall|i: int| 0 <= i < old(self).tree().len() ==> (#[trigger] final(self).tree()[i]).n >= old(self).tree()[i].n,
            old(self).tree()[0].n < MAX_VISITS && old(self).tree()[node as int].terminal ==> exists|o: int|
                -SCORE_LIMIT <= o <= SCORE_LIMIT && backed_up(old(self).tree(), final(self).tree(), node as int, o)
                    && (old(self).evaluator().deterministic() ==> o == signed_outcome(
                    old(self).tree()[node as int].board,
                    old(self).evaluator().score(old(self).tree()[node as int].board),
                )),
            old(self).tree()[0].n < MAX_VISITS && !old(self).tree()[node as int].terminal ==> exists|
                mid: Seq<NodeView>,
                o: int,
            |
                -SCORE_LIMIT <= o <= SCORE_LIMIT && expanded(old(self).tree(), mid, node as int) && backed_up(
                    mid,
                    final(self).tree(),
                    old(self).tree().len() as int,
                    o,
                ) && (old(self).evaluator().deterministic() ==> o == signed_outcome(
                    mid[old(self).tree().len() as int].board,
                    old(self).evaluator().score(mid[old(self).tree().len() as int].board),
                )),
    {
        proof {
            self.lemma_tree_index(0);
            self.lemma_tree_index(node as int);
        }
        if self.nodes[0].n_val >= MAX_VISITS {
            return;
        }
        let ghost t0 = self.tree();
        if self.nodes[node].terminal {
            let eval = self.eval_fn.get_eval(&self.nodes[node].state);
            let outcome = match self.nodes[node].state.get_player() {
                PieceColor::Attacker => -eval,
                PieceColor::Defender => eval,
            };
            self.back_propagation(node, outcome);
            return;
        }
        let ghost before = self.nodes@;
        let next_move = self.nodes[node].choose_move();
        let mov = next_move.unwrap();
        proof {
            assert(before[node as int].node_wf());
            let j = before[node as int].unexplored_moves_index as int;
            assert(mov@ == move_views(before[node as int].unexplored_moves@)[j]);
            assert(legal_moves(before[node as int].state@, before[node as int].state@.player).contains(
                before[node as int].unexplored_moves@[j]@,
            ));
        }
        let new_child = MctsTreenode::new_child_node(&self.nodes[node], node, mov);
        let eval = self.eval_fn.get_eval(&new_child.state);
        let outcome = match new_child.state.get_player() {
            PieceColor::Attacker => -eval,
            PieceColor::Defender => eval,
        };
        let c = self.nodes.len();
        self.nodes.push(new_child);
        self.nodes[node].add_child(c);
        self.num_nodes = self.num_nodes + 1;
        let ghost mid = self.tree();
        proof {
            assert forall|i: int| 0 <= i < mid.len() implies #[trigger] mid[i] == self.nodes@[i]@ by {}
            assert forall|i: int| 0 <= i < t0.len() && i != node implies #[trigger] mid[i] == t0[i] by {
                assert(self.nodes@[i] == before[i]);
            }
            assert(mid[node as int] == (NodeView {
                explored: t0[node as int].explored + 1,
                children: t0[node as int].children.push(c as int),
                ..t0[node as int]
            }));
            assert(expanded(t0, mid, node as int));
            assert forall|i: int| 0 <= i < mid.len() implies (#[trigger] self.nodes@[i]).node_wf() by {
                if i < t0.len() && i != node {
                    assert(self.nodes@[i] == before[i]);
                }
            }
            assert forall|i: int, j: int|
                0 <= i < mid.len() && 0 <= j < mid[i].children.len() implies i < #[trigger] mid[i].children[j]
                    < mid.len() && mid[mid[i].children[j]].parent == Some(i) by {
                if i != node && i < t0.len() {
                    assert(t0[i].children[j] == mid[i].children[j]);
                    assert(i < t0[i].children[j] < t0.len() && t0[t0[i].children[j]].parent == Some(i));
                } else if i == node && j < t0[i].children.len() {
                    assert(t0[i].children[j] == mid[i].children[j]);
                    assert(i < t0[i].children[j] < t0.len() && t0[t0[i].children[j]].parent == Some(i));
                }
            }
            assert forall|i: int| 0 < i < mid.len() implies #[trigger] mov_is_legal(mid, i) by {
                if i < t0.len() {
                    assert(mov_is_legal(t0, i));
                    let p = t0[i].parent->0;
                    assert(mid[i].parent == t0[i].parent && mid[i].mov == t0[i].mov);
                    assert(mid[p].board == t0[p].board);
                } else {
                    before[node as int].lemma_node_wf();
                    assert(t0[node as int] == before[node as int]@);
                }
            }
            assert forall|i: int| 0 < i < mid.len() implies ((#[trigger] mid[i]).parent matches Some(p) && 0 <= p < i) by {
                if i < t0.len() {
                    assert(mid[i].parent == t0[i].parent);
                }
            }
            assert forall|i: int| 0 <= i < mid.len() implies (#[trigger] mid[i]).children.len() == mid[i].explored by {
                if i < t0.len() && i != node {
                    assert(mid[i] == t0[i]);
                }
            }
            assert forall|i: int| 0 <= i < mid.len() implies (#[trigger] mid[i]).n <= mid[0].n && -(mid[i].n * SCORE_LIMIT)
                <= mid[i].q <= mid[i].n * SCORE_LIMIT by {
                if i < t0.len() {
                    assert(mid[i].n == t0[i].n && mid[i].q == t0[i].q);
                }
            }
            assert(mid[0].n == t0[0].n);
            assert(self.links_wf());
        }
        self.back_propagation(c, outcome);
    }

    /// The move of the root's child with the highest average outcome `q / n` (the first such
    /// child); children without visits are passed over. `None` where no child qualifies.
    pub fn get_best_move(&self) -> (r: Option<Move>)
        requires
            self.wf(),
        ensures
            ({
                let t = self.tree();
                let ch = t[0].children;
                &&& r is None <==> forall|k: int| 0 <= k < ch.len() ==> t[#[trigger] ch[k]].n == 0
                &&& r matches Some(m) ==> exists|j: int|
                    #[trigger] first_best_child(t, ch, j) && t[ch[j]].mov == Some(m@)
                &&& r matches Some(m) ==> legal_moves(t[0].board, t[0].board.player).contains(m@)
            }),
    {
        proof {
            self.lemma_tree_index(0);
        }
        let ghost t = self.tree();
        let ghost ch = t[0].children;
        let root = &self.nodes[0];
        let children = &root.children;
        let mut best: Option<usize> = None;
        let mut best_q: i128 = 0;
        let mut best_n: i128 = 0;
        let mut i: usize = 0;
        while i < children.len()
            invariant
                self.wf(),
                t == self.tree(),
                ch == t[0].children,
                children@.map_values(|c: usize| c as int) == ch,
                i <= ch.len(),
                best is None ==> forall|k: int| 0 <= k < i ==> t[#[trigger] ch[k]].n == 0,
                best is Some ==> forall|k: int|
                    0 <= k < best->0 && t[#[trigger] ch[k]].n > 0 ==> avg_lt(t[ch[k]].q, t[ch[k]].n, best_q as int, best_n as int),
                best matches Some(j) ==> {
                    &&& j < i
                    &&& best_n == t[ch[j as int]].n
                    &&& best_q == t[ch[j as int]].q
                    &&& best_n > 0
                    &&& forall|k: int|
                        0 <= k < i && t[#[trigger] ch[k]].n > 0 ==> avg_le(t[ch[k]].q, t[ch[k]].n, best_q as int, best_n as int)
                },
            decreases ch.len() - i,
        {
            let c = children[i];
            assert(c as int == ch[i as int]);
            assert(0 < c < t.len());
            proof {
                self.lemma_tree_index(c as int);
            }
            let child = &self.nodes[c];
            let n = child.n_val as i128;
            let q = child.q_val;
            if n > 0 {
                proof {
                    assert(t[c as int].n <= t[0].n && -(t[c as int].n * SCORE_LIMIT) <= t[c as int].q <= t[c as int].n * SCORE_LIMIT);
                    assert(t[0].n <= MAX_VISITS);
                    if let Some(j) = best {
                        lemma_product_bound(q, best_n);
                        lemma_product_bound(best_q, n);
                    }
                }
                let better = match best {
                    None => true,
                    Some(_) => q * best_n > best_q * n,
                };
                proof {
                    lemma_avg_cmp(q as int, n as int, best_q as int, best_n as int);
                }
                if better {
                    let ghost old_best = best;
                    let ghost bq = best_q;
                    let ghost bn = best_n;
                    best = Some(i);
                    best_q = q;
                    best_n = n;
                    proof {
                        if old_best is Some {
                            lemma_new_best(t, ch, i as int, q as int, n as int, bq as int, bn as int);
                        }
                        assert forall|k: int|
                            0 <= k < i + 1 && t[#[trigger] ch[k]].n > 0 implies avg_le(t[ch[k]].q, t[ch[k]].n, best_q as int, best_n as int) by {
                            if k < i {
                                lemma_ratio_order(t[ch[k]].q, t[ch[k]].n, q as int, n as int, bq as int, bn as int);
                            } else {
                                assert(ch[k] == c as int);
                                lemma_avg_cmp(q as int, n as int, q as int, n as int);
                            }
                        }
                    }
                } else {
                    proof {
                        assert(avg_le(q as int, n as int, best_q as int, best_n as int));
                        assert(ch[i as int] == c as int);
                    }
                }
            }
            i += 1;
        }
        match best {
            Some(j) => {
                let c = children[j];
                proof {
                    self.lemma_tree_index(c as int);
                    assert(c as int == ch[j as int]);
                }
                let m = self.nodes[c].mov;
                proof {
                    let jj = j as int;
                    assert(m matches Some(mv) && t[ch[jj]].mov == Some(mv@));
                    assert(first_best_child(t, ch, jj));
                    assert(mov_is_legal(t, ch[jj]));
                }
                m
            },
            None => None,
        }
    }

    /// The length of the path that always goes to the first child, from the root.
    pub fn compute_depth(&self) -> (r: usize)
        requires
            self.wf(),
        ensures
            r == first_child_depth(self.tree(), 0),
    {
        let ghost t = self.tree();
        let mut current: usize = 0;
        let mut counter: usize = 0;
        proof {
            self.lemma_tree_index(0);
        }
        loop
            invariant
                self.wf(),
                t == self.tree(),
                current < t.len(),
                counter <= current,
                counter + first_child_depth(t, current as int) == first_child_depth(t, 0),
            decreases t.len() - current,
        {
            proof {
                self.lemma_tree_index(current as int);
            }
            let children = &self.nodes[current].children;
            if children.len() == 0 {
                return counter;
            }
            let next = children[0];
            assert(next as int == t[current as int].children[0]);
            current = next;
            counter += 1;
        }
    }
}

/// The number of steps down from node `i` that always take the first child.
pub open spec fn first_child_depth(t: Seq<NodeView>, i: int) -> int
    decreases t.len() - i,
{
    if 0 <= i < t.len() && t[i].children.len() > 0 && i < t[i].children[0] < t.len() {
        1 + first_child_depth(t, t[i].children[0])
    } else {
        0
    }
}

/// Backing up an outcome never lowers a visit count; a node either keeps its count and its
/// summed outcomes, or gains one visit and the outcome once, with one sign or the other.
pub proof fn lemma_backup_monotone(t1: Seq<NodeView>, t2: Seq<NodeView>, x: int, outcome: int)
    requires
        backed_up(t1, t2, x, outcome),
    ensures
        forall|i: int|
            0 <= i < t1.len() ==> (#[trigger] t2[i]).n >= t1[i].n && ((t2[i].n == t1[i].n && t2[i].q
                == t1[i].q) || (t2[i].n == t1[i].n + 1 && (t2[i].q == t1[i].q + outcome || t2[i].q
                == t1[i].q - outcome))),
{
    assert forall|i: int| 0 <= i < t1.len() implies (#[trigger] t2[i]).n >= t1[i].n && ((t2[i].n
        == t1[i].n && t2[i].q == t1[i].q) || (t2[i].n == t1[i].n + 1 && (t2[i].q == t1[i].q + outcome
        || t2[i].q == t1[i].q - outcome))) by {
        let sg = path_sign(t1, x, i);
        if sg == 1 {
            assert(t2[i].q == t1[i].q + outcome);
        } else if sg == -1 {
            assert(t2[i].q == t1[i].q - outcome);
        }
    }
}

/// Expanding a node keeps every existing node's visits and summed outcomes, and the new node
/// starts with none.
pub proof fn lemma_expansion_keeps_counts(t1: Seq<NodeView>, t2: Seq<NodeView>, x: int)
    requires
        0 <= x < t1.len(),
        expanded(t1, t2, x),
    ensures
        forall|i: int| 0 <= i < t1.len() ==> (#[trigger] t2[i]).n == t1[i].n && t2[i].q == t1[i].q,
        t2[t1.len() as int].n == 0,
        t2[t1.len() as int].q == 0,
{
    assert forall|i: int| 0 <= i < t1.len() implies (#[trigger] t2[i]).n == t1[i].n && t2[i].q == t1[i].q by {
        if i != x {
            assert(t2[i] == t1[i]);
        }
    }
}

/// Backing up from a terminal node expands nothing: the tree keeps its size and every node
/// keeps its expanded moves and children.
pub proof fn lemma_terminal_no_expansion(t1: Seq<NodeView>, t2: Seq<NodeView>, x: int, outcome: int)
    requires
        backed_up(t1, t2, x, outcome),
    ensures
        t2.len() == t1.len(),
        forall|i: int|
            0 <= i < t1.len() ==> (#[trigger] t2[i]).explored == t1[i].explored && t2[i].children
                == t1[i].children,
{
}

} // verus!
