use vstd::prelude::*;
use crate::board::{
    captured_by, captures, is_terminal, king_trapped, legal_moves, moves_from, pawn_moves, ray,
    relocate, step, winner, within, mover_color, BoardState, GameState,
};
use crate::moves::MoveView;
use crate::piece::{opposite, PieceColor};
use crate::position::{col_of, flank_pairs, is_corner_cell, is_throne_cell, on_board, row_of};

verus! {

/// Move `m` slides in a straight line from its start over empty cells and ends on an empty
/// cell.
pub open spec fn slide_clear(b: BoardState, m: MoveView) -> bool {
    exists|d: int, k: int|
        0 <= d < 4 && 1 <= k && within(m.start, d, k) && m.end == #[trigger] step(m.start, d, k)
            && forall|t: int| 1 <= t <= k ==> !b.occupied(#[trigger] step(m.start, d, t))
}

/// What the slides of `ray(b, s, d, k, is_king)` have in common.
spec fn ray_member(b: BoardState, s: int, d: int, k: int, is_king: bool, x: MoveView) -> bool {
    &&& x.start == s
    &&& is_throne_cell(x.end) ==> is_king
    &&& exists|j: int|
        j >= k && within(s, d, j) && x.end == #[trigger] step(s, d, j) && forall|t: int|
            k <= t <= j ==> !b.occupied(#[trigger] step(s, d, t))
}

proof fn lemma_ray(b: BoardState, s: int, d: int, k: int, is_king: bool)
    requires
        1 <= k,
    ensures
        forall|i: int|
            0 <= i < ray(b, s, d, k, is_king).len() ==> ray_member(
                b,
                s,
                d,
                k,
                is_king,
                #[trigger] ray(b, s, d, k, is_king)[i],
            ),
    decreases 11 - k,
{
    let r = ray(b, s, d, k, is_king);
    if k > 10 || !within(s, d, k) || b.occupied(step(s, d, k)) {
    } else {
        lemma_ray(b, s, d, k + 1, is_king);
        let rest = ray(b, s, d, k + 1, is_king);
        let head: Seq<MoveView> = if is_throne_cell(step(s, d, k)) && !is_king {
            Seq::empty()
        } else {
            seq![MoveView { start: s, end: step(s, d, k) }]
        };
        assert(r == head + rest);
        assert forall|i: int| 0 <= i < r.len() implies ray_member(b, s, d, k, is_king, #[trigger] r[i]) by {
            if i < head.len() {
                assert(r[i] == head[i]);
                assert(forall|t: int| k <= t <= k ==> !b.occupied(#[trigger] step(s, d, t)));
                assert(within(s, d, k) && r[i].end == step(s, d, k));
            } else {
                let x = rest[i - head.len()];
                assert(r[i] == x);
                assert(ray_member(b, s, d, k + 1, is_king, x));
                let j = choose|j: int|
                    j >= k + 1 && within(s, d, j) && x.end == #[trigger] step(s, d, j) && forall|t: int|
                        k + 1 <= t <= j ==> !b.occupied(#[trigger] step(s, d, t));
                assert forall|t: int| k <= t <= j implies !b.occupied(#[trigger] step(s, d, t)) by {
                    if t > k {
                    }
                }
            }
        }
    }
}

/// A move of side `c` on board `b`: it starts on a piece of `c`, slides over empty cells onto an
/// empty cell, and ends on a throne only if it moves the king.
pub open spec fn sound_move(b: BoardState, c: PieceColor, m: MoveView) -> bool {
    &&& b.has_color(m.start, c)
    &&& slide_clear(b, m)
    &&& is_throne_cell(m.end) ==> b.king == Some(m.start)
}

/// Every move of a single piece (the list `possible_moves_from_pos` gives) starts on that
/// piece, slides in a straight line over empty cells onto an empty cell, and ends on a throne
/// only if the piece is the king.
pub proof fn lemma_moves_from(b: BoardState, s: int, c: PieceColor)
    requires
        b.has_color(s, c),
    ensures
        forall|i: int| 0 <= i < moves_from(b, s).len() ==> sound_move(b, c, #[trigger] moves_from(b, s)[i]),
{
    let kk = b.king == Some(s);
    let r0 = ray(b, s, 0, 1, kk);
    let r1 = ray(b, s, 1, 1, kk);
    let r2 = ray(b, s, 2, 1, kk);
    let r3 = ray(b, s, 3, 1, kk);
    lemma_ray(b, s, 0, 1, kk);
    lemma_ray(b, s, 1, 1, kk);
    lemma_ray(b, s, 2, 1, kk);
    lemma_ray(b, s, 3, 1, kk);
    assert forall|d: int, x: MoveView| 0 <= d < 4 && #[trigger] ray_member(b, s, d, 1, kk, x) implies sound_move(b, c, x) by {
        let j = choose|j: int|
            j >= 1 && within(s, d, j) && x.end == #[trigger] step(s, d, j) && forall|t: int|
                1 <= t <= j ==> !b.occupied(#[trigger] step(s, d, t));
        assert(slide_clear(b, x));
    }
    let m = moves_from(b, s);
    assert(m == r0 + r1 + r2 + r3);
    assert forall|i: int| 0 <= i < m.len() implies sound_move(b, c, #[trigger] m[i]) by {
        let l0 = r0.len();
        let l1 = r1.len();
        let l2 = r2.len();
        if i < l0 {
            assert(m[i] == r0[i]);
            assert(ray_member(b, s, 0, 1, kk, r0[i]));
        } else if i < l0 + l1 {
            assert(m[i] == r1[i - l0]);
            assert(ray_member(b, s, 1, 1, kk, r1[i - l0]));
        } else if i < l0 + l1 + l2 {
            assert(m[i] == r2[i - l0 - l1]);
            assert(ray_member(b, s, 2, 1, kk, r2[i - l0 - l1]));
        } else {
            assert(m[i] == r3[i - l0 - l1 - l2]);
            assert(ray_member(b, s, 3, 1, kk, r3[i - l0 - l1 - l2]));
        }
    }
}

proof fn lemma_pawn_moves(b: BoardState, c: PieceColor, n: int)
    ensures
        forall|i: int| 0 <= i < pawn_moves(b, c, n).len() ==> sound_move(b, c, #[trigger] pawn_moves(b, c, n)[i]),
    decreases n,
{
    if n > 0 {
        lemma_pawn_moves(b, c, n - 1);
        let prev = pawn_moves(b, c, n - 1);
        let here: Seq<MoveView> = if b.has_pawn(n - 1, c) {
            moves_from(b, n - 1)
        } else {
            Seq::empty()
        };
        if b.has_pawn(n - 1, c) {
            lemma_moves_from(b, n - 1, c);
        }
        let all = pawn_moves(b, c, n);
        assert(all == prev + here);
        assert forall|i: int| 0 <= i < all.len() implies sound_move(b, c, #[trigger] all[i]) by {
            if i < prev.len() {
                assert(all[i] == prev[i]);
            } else {
                assert(all[i] == here[i - prev.len()]);
            }
        }
    }
}

/// Every generated move starts on a piece of the side that moves, slides in a straight line
/// over empty cells only, and ends on a cell that was empty.
pub proof fn lemma_moves_sound(b: BoardState, c: PieceColor)
    ensures
        forall|i: int|
            0 <= i < legal_moves(b, c).len() ==> #[trigger] b.has_color(legal_moves(b, c)[i].start, c)
                && slide_clear(b, legal_moves(b, c)[i]),
{
    lemma_all_sound(b, c);
}

/// No generated move ends on a throne unless it moves the king.
pub proof fn lemma_throne_only_king(b: BoardState, c: PieceColor)
    ensures
        forall|i: int|
            0 <= i < legal_moves(b, c).len() && is_throne_cell(#[trigger] legal_moves(b, c)[i].end)
                ==> b.king == Some(legal_moves(b, c)[i].start),
{
    lemma_all_sound(b, c);
}

proof fn lemma_all_sound(b: BoardState, c: PieceColor)
    ensures
        forall|i: int| 0 <= i < legal_moves(b, c).len() ==> sound_move(b, c, #[trigger] legal_moves(b, c)[i]),
{
    lemma_pawn_moves(b, c, 121);
    let pm = pawn_moves(b, c, 121);
    match c {
        PieceColor::Attacker => {},
        PieceColor::Defender => {
            let front: Seq<MoveView> = match b.king {
                Some(k) => moves_from(b, k),
                None => Seq::empty(),
            };
            if let Some(k) = b.king {
                lemma_moves_from(b, k, c);
            }
            let all = legal_moves(b, c);
            assert(all == front + pm);
            assert forall|i: int| 0 <= i < all.len() implies sound_move(b, c, #[trigger] all[i]) by {
                if i < front.len() {
                    assert(all[i] == front[i]);
                } else {
                    assert(all[i] == pm[i - front.len()]);
                }
            }
        },
    }
}

proof fn lemma_ray_reaches(b: BoardState, s: int, d: int, j: int, k: int, is_king: bool)
    requires
        on_board(s),
        0 <= d < 4,
        1 <= j <= k,
        forall|t: int| j <= t <= k ==> within(s, d, t) && !b.occupied(#[trigger] step(s, d, t)),
        is_king || !is_throne_cell(step(s, d, k)),
    ensures
        ray(b, s, d, j, is_king).contains(MoveView { start: s, end: step(s, d, k) }),
    decreases k - j,
{
    let target = MoveView { start: s, end: step(s, d, k) };
    assert(within(s, d, j) && !b.occupied(step(s, d, j)));
    assert(j <= 10);
    let head: Seq<MoveView> = if is_throne_cell(step(s, d, j)) && !is_king {
        Seq::empty()
    } else {
        seq![MoveView { start: s, end: step(s, d, j) }]
    };
    let rest = ray(b, s, d, j + 1, is_king);
    assert(ray(b, s, d, j, is_king) == head + rest);
    if j == k {
        assert((head + rest)[0] == target);
    } else {
        lemma_ray_reaches(b, s, d, j + 1, k, is_king);
        let i = choose|i: int| 0 <= i < rest.len() && rest[i] == target;
        assert((head + rest)[head.len() + i] == target);
    }
}

/// The king may stop on any cell, a throne included, that it reaches in a straight line over
/// empty cells: that slide is among the moves of the king's cell.
pub proof fn lemma_king_cell_reaches_thrones(b: BoardState, d: int, k: int)
    requires
        b.king is Some,
        on_board(b.king->0),
        0 <= d < 4,
        1 <= k,
        forall|t: int| 1 <= t <= k ==> within(b.king->0, d, t) && !b.occupied(#[trigger] step(b.king->0, d, t)),
    ensures
        moves_from(b, b.king->0).contains(MoveView { start: b.king->0, end: step(b.king->0, d, k) }),
{
    let s = b.king->0;
    let target = MoveView { start: s, end: step(s, d, k) };
    lemma_ray_reaches(b, s, d, 1, k, true);
    let r0 = ray(b, s, 0, 1, true);
    let r1 = ray(b, s, 1, 1, true);
    let r2 = ray(b, s, 2, 1, true);
    let r3 = ray(b, s, 3, 1, true);
    let m = moves_from(b, s);
    assert(m == r0 + r1 + r2 + r3);
    let rd = ray(b, s, d, 1, true);
    let i = choose|i: int| 0 <= i < rd.len() && rd[i] == target;
    let off: int = if d == 0 {
        0
    } else if d == 1 {
        r0.len() as int
    } else if d == 2 {
        (r0.len() + r1.len()) as int
    } else {
        (r0.len() + r1.len() + r2.len()) as int
    };
    assert(m[off + i] == target);
}

/// The king may stop on any cell, a throne included, that it reaches in a straight line over
/// empty cells: that slide is among the defender's moves.
pub proof fn lemma_king_reaches_thrones(b: BoardState, d: int, k: int)
    requires
        b.king is Some,
        on_board(b.king->0),
        0 <= d < 4,
        1 <= k,
        forall|t: int| 1 <= t <= k ==> within(b.king->0, d, t) && !b.occupied(#[trigger] step(b.king->0, d, t)),
    ensures
        legal_moves(b, PieceColor::Defender).contains(MoveView { start: b.king->0, end: step(b.king->0, d, k) }),
{
    let s = b.king->0;
    let target = MoveView { start: s, end: step(s, d, k) };
    lemma_king_cell_reaches_thrones(b, d, k);
    let m = moves_from(b, s);
    let i = choose|i: int| 0 <= i < m.len() && m[i] == target;
    let all = legal_moves(b, PieceColor::Defender);
    assert(all == m + pawn_moves(b, PieceColor::Defender, 121));
    assert(all[i] == target);
}

/// A generated move can be played: it starts on a piece and ends on an empty cell, both on
/// the board.
pub proof fn lemma_legal_move_applicable(b: BoardState, c: PieceColor, m: MoveView)
    requires
        b.well_formed(),
        legal_moves(b, c).contains(m),
    ensures
        on_board(m.start),
        on_board(m.end),
        b.occupied(m.start),
        !b.occupied(m.end),
{
    lemma_all_sound(b, c);
    let i = choose|i: int| 0 <= i < legal_moves(b, c).len() && legal_moves(b, c)[i] == m;
    assert(sound_move(b, c, legal_moves(b, c)[i]));
    let (d, k) = choose|d: int, k: int|
        0 <= d < 4 && 1 <= k && within(m.start, d, k) && m.end == #[trigger] step(m.start, d, k)
            && forall|t: int| 1 <= t <= k ==> !b.occupied(#[trigger] step(m.start, d, t));
    assert(!b.occupied(step(m.start, d, k)));
    assert(on_board(m.start));
}

/// Pair `p` (next cell, cell beyond) flanks an enemy pawn of side `c`: the next cell holds a
/// pawn of the other side, and the cell beyond holds a piece of `c` or is a throne.
pub open spec fn flanks_pawn(b: BoardState, p: (int, int), c: PieceColor) -> bool {
    &&& b.has_color(p.0, opposite(c))
    &&& b.king != Some(p.0)
    &&& b.has_color(p.1, c) || is_throne_cell(p.1)
}

/// Pair `p` has the king on its next cell, trapped on all sides by side `c` and thrones.
pub open spec fn traps_king(b: BoardState, p: (int, int), c: PieceColor) -> bool {
    &&& b.king == Some(p.0)
    &&& b.has_color(p.0, opposite(c))
    &&& king_trapped(b, p.0, c)
}

proof fn lemma_captures(b: BoardState, pairs: Seq<(int, int)>, c: PieceColor)
    ensures
        forall|t: int|
            0 <= t < captures(b, pairs, c).len() ==> exists|i: int|
                0 <= i < pairs.len() && (#[trigger] pairs[i]).0 == #[trigger] captures(b, pairs, c)[t] && (
                flanks_pawn(b, pairs[i], c) || traps_king(b, pairs[i], c)),
        (forall|i: int| 0 <= i < pairs.len() ==> !traps_king(b, #[trigger] pairs[i], c)) ==> forall|
            i: int,
        |
            0 <= i < pairs.len() && flanks_pawn(b, #[trigger] pairs[i], c) ==> captures(
                b,
                pairs,
                c,
            ).contains(pairs[i].0),
    decreases pairs.len(),
{
    if pairs.len() > 0 {
        let tail = pairs.drop_first();
        lemma_captures(b, tail, c);
        let rest = captures(b, tail, c);
        let r = captures(b, pairs, c);
        let p0 = pairs[0];
        assert forall|t: int| 0 <= t < r.len() implies exists|i: int|
            0 <= i < pairs.len() && (#[trigger] pairs[i]).0 == #[trigger] r[t] && (flanks_pawn(b, pairs[i], c)
                || traps_king(b, pairs[i], c)) by {
            if r == rest {
                let i = choose|i: int|
                    0 <= i < tail.len() && (#[trigger] tail[i]).0 == rest[t] && (flanks_pawn(b, tail[i], c)
                        || traps_king(b, tail[i], c));
                assert(pairs[i + 1] == tail[i]);
            } else if t == 0 {
                assert(pairs[0].0 == r[t]);
            } else {
                assert(r == seq![p0.0] + rest);
                assert(r[t] == rest[t - 1]);
                let i = choose|i: int|
                    0 <= i < tail.len() && (#[trigger] tail[i]).0 == rest[t - 1] && (flanks_pawn(
                        b,
                        tail[i],
                        c,
                    ) || traps_king(b, tail[i], c));
                assert(pairs[i + 1] == tail[i]);
            }
        }
        if forall|i: int| 0 <= i < pairs.len() ==> !traps_king(b, #[trigger] pairs[i], c) {
            assert(forall|i: int| 0 <= i < tail.len() ==> !traps_king(b, #[trigger] tail[i], c)) by {
                assert forall|i: int| 0 <= i < tail.len() implies !traps_king(b, #[trigger] tail[i], c) by {
                    assert(tail[i] == pairs[i + 1]);
                }
            }
            assert(!traps_king(b, pairs[0], c));
            assert forall|i: int| 0 <= i < pairs.len() && flanks_pawn(b, #[trigger] pairs[i], c)
                implies r.contains(pairs[i].0) by {
                if i == 0 {
                    assert(r == seq![p0.0] + rest);
                    assert(r[0] == p0.0);
                } else {
                    assert(pairs[i] == tail[i - 1]);
                    assert(rest.contains(tail[i - 1].0));
                    let t = choose|t: int| 0 <= t < rest.len() && rest[t] == tail[i - 1].0;
                    if r == rest {
                        assert(r[t] == pairs[i].0);
                    } else {
                        assert(r == seq![p0.0] + rest);
                        assert(r[t + 1] == pairs[i].0);
                    }
                }
            }
        }
    }
}

/// The cells that move `m` captures are exactly the enemy pawns next to its end cell that it
/// flanks against a piece of its side or a throne, and the king when trapped on all sides;
/// where the king is not taken, every flanked enemy pawn next to the end cell is taken.
#[verifier::spinoff_prover]
pub proof fn lemma_capture_rule(b: BoardState, m: MoveView)
    ensures
        ({
            let after = relocate(b, m);
            let c = mover_color(b, m);
            let pairs = flank_pairs(m.end);
            &&& forall|t: int|
                0 <= t < captured_by(b, m).len() ==> exists|i: int|
                    0 <= i < pairs.len() && (#[trigger] pairs[i]).0 == #[trigger] captured_by(b, m)[t] && (
                    flanks_pawn(after, pairs[i], c) || traps_king(after, pairs[i], c))
            &&& (forall|i: int| 0 <= i < pairs.len() ==> !traps_king(after, #[trigger] pairs[i], c))
                ==> forall|i: int|
                0 <= i < pairs.len() && flanks_pawn(after, #[trigger] pairs[i], c) ==> captured_by(
                    b,
                    m,
                ).contains(pairs[i].0)
        }),
{
    lemma_captures(relocate(b, m), flank_pairs(m.end), mover_color(b, m));
    assert(captured_by(b, m) == captures(relocate(b, m), flank_pairs(m.end), mover_color(b, m)));
}

proof fn lemma_flank_cells_distinct(k: int)
    ensures
        forall|i: int, j: int|
            0 <= i < flank_pairs(k).len() && 0 <= j < flank_pairs(k).len() && i != j ==> (
            #[trigger] flank_pairs(k)[i]).0 != (#[trigger] flank_pairs(k)[j]).0,
{
    let a: Seq<(int, int)> = if row_of(k) >= 2 { seq![(k - 11, k - 22)] } else { Seq::empty() };
    let b: Seq<(int, int)> = if row_of(k) <= 8 { seq![(k + 11, k + 22)] } else { Seq::empty() };
    let c: Seq<(int, int)> = if col_of(k) >= 2 { seq![(k - 1, k - 2)] } else { Seq::empty() };
    let d: Seq<(int, int)> = if col_of(k) <= 8 { seq![(k + 1, k + 2)] } else { Seq::empty() };
    let fp = flank_pairs(k);
    assert(fp == a + b + c + d);
    let la = a.len() as int;
    let lb = b.len() as int;
    let lc = c.len() as int;
    // the offset of each entry from k tells its part
    assert forall|i: int| 0 <= i < fp.len() implies (if i < la {
        fp[i].0 == k - 11
    } else if i < la + lb {
        fp[i].0 == k + 11
    } else if i < la + lb + lc {
        fp[i].0 == k - 1
    } else {
        fp[i].0 == k + 1
    }) by {
        if i < la {
            assert(fp[i] == a[i]);
        } else if i < la + lb {
            assert(fp[i] == b[i - la]);
        } else if i < la + lb + lc {
            assert(fp[i] == c[i - la - lb]);
        } else {
            assert(fp[i] == d[i - la - lb - lc]);
        }
    }
}

proof fn lemma_captures_king(b: BoardState, pairs: Seq<(int, int)>, c: PieceColor, i: int)
    requires
        0 <= i < pairs.len(),
        traps_king(b, pairs[i], c),
        forall|j: int| 0 <= j < pairs.len() && j != i ==> (#[trigger] pairs[j]).0 != pairs[i].0,
    ensures
        captures(b, pairs, c).len() > 0,
        captures(b, pairs, c).last() == pairs[i].0,
    decreases pairs.len(),
{
    let tail = pairs.drop_first();
    if i > 0 {
        assert forall|j: int| 0 <= j < tail.len() && j != i - 1 implies (#[trigger] tail[j]).0 != tail[i - 1].0 by {
            assert(tail[j] == pairs[j + 1]);
        }
        assert(tail[i - 1] == pairs[i]);
        lemma_captures_king(b, tail, c, i - 1);
        assert(pairs[0].0 != pairs[i].0);
        let rest = captures(b, tail, c);
        let r = captures(b, pairs, c);
        assert(r == rest || r == seq![pairs[0].0] + rest);
        if r != rest {
            assert(r.last() == rest.last());
        }
    }
}

/// Where a move traps the king on all sides with the mover's pieces or thrones, the king is
/// captured, and it is the last cell captured: the scan stops there.
pub proof fn lemma_king_capture(b: BoardState, m: MoveView)
    ensures
        ({
            let after = relocate(b, m);
            let c = mover_color(b, m);
            let pairs = flank_pairs(m.end);
            forall|i: int|
                0 <= i < pairs.len() && traps_king(after, #[trigger] pairs[i], c) ==> captured_by(b, m).len() > 0
                    && captured_by(b, m).last() == pairs[i].0
        }),
{
    let after = relocate(b, m);
    let c = mover_color(b, m);
    let pairs = flank_pairs(m.end);
    lemma_flank_cells_distinct(m.end);
    assert forall|i: int| 0 <= i < pairs.len() && traps_king(after, #[trigger] pairs[i], c) implies captured_by(b, m).len()
        > 0 && captured_by(b, m).last() == pairs[i].0 by {
        assert forall|j: int| 0 <= j < pairs.len() && j != i implies (#[trigger] pairs[j]).0 != pairs[i].0 by {}
        lemma_captures_king(after, pairs, c, i);
    }
}

/// A board is terminal exactly when a winner is named; then a side has no move, or the king is
/// taken or stands on a corner.
pub proof fn lemma_terminal_consistent(b: BoardState)
    ensures
        is_terminal(b) <==> winner(b) != GameState::Undecided,
        is_terminal(b) ==> legal_moves(b, PieceColor::Attacker).len() == 0 || legal_moves(
            b,
            PieceColor::Defender,
        ).len() == 0 || b.king is None || is_corner_cell(b.king->0),
{
}

} // verus!
