use vstd::prelude::*;
use vstd::arithmetic::power2::pow2;
use crate::bits::{has_bit, lemma_and_bit, lemma_masked_high, BOARD_MASK};
use crate::board::{cells_of_bits, ray, step, within, Board, BoardState};
use crate::moves::{Move, MoveView};
use crate::piece::PieceColor;
use crate::position::{col_of, on_board, row_of, Position, BOARDSIZE};

verus! {

/// The cells of the first column.
pub const COLUMN: u128 = 0x4008010020040080100200400801;

/// The cells of the first row.
pub const ROW: u128 = 0x7FF;

/// The four corners and the centre.
pub const THRONE: u128 = 0x1004000000000001000000000000401;

/// Tables for move generation by magic multiplication: for each cell a multiplier, a shift,
/// and the slides for each hashed arrangement of blockers.
pub struct MoveGen {
    magics: Vec<u128>,
    shifts: Vec<usize>,
    lookup: Vec<Vec<u128>>,
}

/// The board whose only pieces stand on the cells of `occupied`.
pub open spec fn occupancy_board(occupied: u128) -> BoardState {
    BoardState {
        attackers: Set::new(|i: int| on_board(i) && has_bit(occupied, i as u128)),
        defenders: Set::empty(),
        king: None,
        player: PieceColor::Attacker,
    }
}

/// The end cells of a sequence of moves.
pub open spec fn end_cells(s: Seq<MoveView>) -> Set<int> {
    Set::new(|c: int| exists|j: int| 0 <= j < s.len() && s[j].end == c)
}

/// The cells a piece on `s` can slide to over the pieces of `occupied`, thrones included.
pub open spec fn slide_targets(s: int, occupied: u128) -> Set<int> {
    let b = occupancy_board(occupied);
    end_cells(ray(b, s, 0, 1, true) + ray(b, s, 1, 1, true) + ray(b, s, 2, 1, true) + ray(b, s, 3, 1, true))
}

/// The lowest set bit of `m`, alone.
pub open spec fn low_bit(m: u128) -> u128 {
    (m ^ ((m - 1) as u128)) & m
}

/// `m` has at least `k` set bits.
pub open spec fn enough_bits(m: u128, k: nat) -> bool
    decreases k,
{
    k == 0 || (m != 0 && enough_bits(m ^ low_bit(m), (k - 1) as nat))
}

/// The lowest `k` bits of `index` spread onto the lowest `k` set bits of `m`, in order.
pub open spec fn deposit(index: usize, m: u128, k: nat) -> u128
    decreases k,
{
    if k == 0 {
        0
    } else {
        (if index & 1 == 1 {
            low_bit(m)
        } else {
            0
        }) | deposit(index >> 1, m ^ low_bit(m), (k - 1) as nat)
    }
}

/// The value left after the lowest `k` set bits of `m` are cleared.
pub open spec fn strip(m: u128, k: nat) -> u128
    decreases k,
{
    if k == 0 {
        m
    } else {
        let s = strip(m, (k - 1) as nat);
        s ^ low_bit(s)
    }
}

/// The hash of a blocker set under `magic`, on `bits` bits.
pub open spec fn hash_of(blocking: u128, magic: u128, bits: usize) -> usize {
    ((vstd::wrapping::u128_specs::wrapping_mul(blocking, magic) & BOARD_MASK) >> (121 - bits) as u128) as usize
}

proof fn lemma_strip_shrinks(m: u128)
    by (bit_vector)
    requires
        m != 0,
    ensures
        m ^ ((m ^ ((m - 1) as u128)) & m) < m,
{
}

proof fn lemma_hash_bound(x: u128, bits: u128)
    by (bit_vector)
    requires
        1 <= bits <= 24,
    ensures
        (x & 0x1FF_FFFF_FFFF_FFFF_FFFF_FFFF_FFFF_FFFFu128) >> ((121 - bits) as u128) < (1u128 << bits),
{
}

/// `m` has `k` set bits or more exactly when stripping fewer than `k` of them leaves some.
proof fn lemma_enough_bits(m: u128, k: nat)
    requires
        forall|i: nat| i < k ==> #[trigger] strip(m, i) != 0,
    ensures
        enough_bits(m, k),
    decreases k,
{
    if k > 0 {
        assert(strip(m, 0) != 0);
        assert forall|i: nat| i < (k - 1) as nat implies #[trigger] strip(m ^ low_bit(m), i) != 0 by {
            lemma_strip_shift(m, i);
            assert(strip(m, i + 1) != 0);
        }
        lemma_enough_bits(m ^ low_bit(m), (k - 1) as nat);
    }
}

proof fn lemma_strip_shift(m: u128, i: nat)
    ensures
        strip(m ^ low_bit(m), i) == strip(m, i + 1),
    decreases i,
{
    assert(strip(m, 0) == m);
    if i > 0 {
        lemma_strip_shift(m, (i - 1) as nat);
        assert(strip(m, i + 1) == strip(m, i) ^ low_bit(strip(m, i)));
    } else {
        assert(strip(m, 1) == m ^ low_bit(m));
    }
}

proof fn lemma_strip_low(x: u128, k: u128)
    by (bit_vector)
    requires
        k < 127,
        x & (((1u128 << k) - 1) as u128) == 0,
        x != 0,
    ensures
        (x ^ ((x ^ ((x - 1) as u128)) & x)) & (((1u128 << ((k + 1) as u128)) - 1) as u128) == 0,
{
}

proof fn lemma_strip_last(x: u128)
    by (bit_vector)
    requires
        x & (((1u128 << 127u128) - 1) as u128) == 0,
        x != 0,
    ensures
        x ^ ((x ^ ((x - 1) as u128)) & x) == 0,
{
}

/// `m` has no more than `k` set bits where stripping `k` of them leaves none.
proof fn lemma_not_enough_bits(m: u128, k: nat)
    requires
        strip(m, k) == 0,
    ensures
        !enough_bits(m, k + 1),
    decreases k,
{
    if k == 0 {
    } else if m != 0 {
        lemma_strip_shift(m, (k - 1) as nat);
        lemma_not_enough_bits(m ^ low_bit(m), (k - 1) as nat);
    }
}

/// The number of set bits of `m`.
fn count_bits(m: u128) -> (r: u32)
    ensures
        enough_bits(m, r as nat),
        !enough_bits(m, r as nat + 1),
        r <= 128,
{
    let mut rest = m;
    let mut count: u32 = 0;
    assert(m & (((1u128 << 0u128) - 1) as u128) == 0) by (bit_vector);
    while rest != 0
        invariant
            rest == strip(m, count as nat),
            forall|i: nat| i < count ==> #[trigger] strip(m, i) != 0,
            count <= 128,
            count < 128 ==> rest & (((1u128 << (count as u128)) - 1) as u128) == 0,
            count == 128 ==> rest == 0,
        decreases rest,
    {
        proof {
            lemma_strip_shrinks(rest);
            if count < 127 {
                lemma_strip_low(rest, count as u128);
            } else {
                lemma_strip_last(rest);
            }
        }
        rest = rest ^ ((rest ^ (rest - 1)) & rest);
        count += 1;
    }
    proof {
        lemma_enough_bits(m, count as nat);
        lemma_not_enough_bits(m, count as nat);
    }
    count
}

proof fn lemma_or_assoc(a: u128, b: u128, c: u128)
    by (bit_vector)
    ensures
        (a | b) | c == a | (b | c),
        a | 0 == a,
{
}

proof fn lemma_row_bits(s: u128, i: u128)
    by (bit_vector)
    requires
        s <= 110,
        i < 128,
    ensures
        has_bit(0x7FFu128 << s, i) == (s <= i && i < s + 11),
{
}

proof fn lemma_column_bits(y: u128, i: u128)
    by (bit_vector)
    requires
        y <= 10,
        i < 128,
    ensures
        has_bit(0x4008010020040080100200400801u128 << y, i) == (i >= y
            && i - y <= 110 && (i - y) % 11 == 0),
{
}

proof fn lemma_set_bit(x: u128, c: u128, i: u128)
    by (bit_vector)
    requires
        c < 128,
        i < 128,
    ensures
        has_bit(x | (1u128 << c), i) == (has_bit(x, i) || i == c),
{
}

impl MoveGen {
    /// The multipliers, one per cell.
    pub closed spec fn magic_table(&self) -> Seq<u128> {
        self.magics@
    }

    /// The shifts, one per cell.
    pub closed spec fn shift_table(&self) -> Seq<usize> {
        self.shifts@
    }

    /// The slides, one table per cell, indexed by the hashed blockers.
    pub closed spec fn lookup_table(&self) -> Seq<Seq<u128>> {
        self.lookup@.map_values(|v: Vec<u128>| v@)
    }

    /// The table entry of cell `p` for hash `key`.
    pub open spec fn table_entry(&self, p: int, key: int) -> u128 {
        self.lookup_table()[p][key]
    }

    /// The hash of a blocker set at cell `p`: the product with the cell's multiplier, shifted
    /// down by the cell's shift.
    pub open spec fn table_key(&self, p: int, blockers: u128) -> int {
        ((vstd::wrapping::u128_specs::wrapping_mul(blockers, self.magic_table()[p]) >> (
        self.shift_table()[p] as u128)) as usize) as int
    }

    /// A generator with empty tables.
    pub fn new() -> (r: MoveGen)
        ensures
            r.magic_table().len() == 0,
            r.shift_table().len() == 0,
            r.lookup_table().len() == 0,
    {
        let r = MoveGen { magics: Vec::new(), shifts: Vec::new(), lookup: Vec::new() };
        assert(r.lookup_table() =~= Seq::<Seq<u128>>::empty());
        r
    }

    /// The cells in the row or the column of `pos`, `pos` itself left out.
    pub fn slider_mask(&self, pos: &Position) -> (r: u128)
        requires
            on_board(pos@),
        ensures
            forall|i: int| 0 <= i < 128 ==> #[trigger] has_bit(r, i as u128) == (on_board(i) && ((row_of(i)
                == row_of(pos@)) != (col_of(i) == col_of(pos@)))),
            r == slider_bits(pos@),
    {
        let (pos_x, pos_y) = (pos.get_x(), pos.get_y());
        let s = (pos_x * BOARDSIZE) as u128;
        let y = pos_y as u128;
        let r = (ROW << s) ^ (COLUMN << y);
        proof {
            assert forall|i: int| 0 <= i < 128 implies #[trigger] has_bit(r, i as u128) == (on_board(i) && ((row_of(i)
                == row_of(pos@)) != (col_of(i) == col_of(pos@)))) by {
                lemma_row_bits(s, i as u128);
                lemma_column_bits(y, i as u128);
                lemma_xor_bit(ROW << s, COLUMN << y, i as u128);
            }
        }
        r
    }

    /// The cells that a piece on `pos` can slide to, as a bit set, where the bits of
    /// `occupied` block; thrones are not excluded.
    pub fn old_gen_moves(&self, pos: &Position, occupied: u128) -> (r: u128)
        requires
            on_board(pos@),
        ensures
            forall|i: int| on_board(i) ==> (#[trigger] has_bit(r, i as u128) <==> slide_targets(pos@, occupied).contains(i)),
            forall|i: int| 121 <= i < 128 ==> !#[trigger] has_bit(r, i as u128),
    {
        let mut result: u128 = 0;
        let ghost b = occupancy_board(occupied);
        let ghost s = pos@;
        let ghost mut done: Seq<MoveView> = Seq::empty();
        let mut d: usize = 0;
        proof {
            assert forall|i: int| 0 <= i < 128 implies !#[trigger] has_bit(result, i as u128) by {
                crate::bits::lemma_zero_no_bits(i as u128);
            }
        }
        while d < 4
            invariant
                on_board(s),
                s == pos@,
                b == occupancy_board(occupied),
                d <= 4,
                done == (if d == 0 {
                    Seq::<MoveView>::empty()
                } else if d == 1 {
                    ray(b, s, 0, 1, true)
                } else if d == 2 {
                    ray(b, s, 0, 1, true) + ray(b, s, 1, 1, true)
                } else if d == 3 {
                    ray(b, s, 0, 1, true) + ray(b, s, 1, 1, true) + ray(b, s, 2, 1, true)
                } else {
                    ray(b, s, 0, 1, true) + ray(b, s, 1, 1, true) + ray(b, s, 2, 1, true) + ray(b, s, 3, 1, true)
                }),
                forall|i: int| 0 <= i < 128 ==> (#[trigger] has_bit(result, i as u128) <==> end_cells(done).contains(i)),
            decreases 4 - d,
        {
            let ghost before = done;
            self.add_slides(pos, occupied, d, &mut result);
            proof {
                done = done + ray(b, s, d as int, 1, true);
                assert forall|i: int| 0 <= i < 128 implies (#[trigger] has_bit(result, i as u128) <==> end_cells(done).contains(i)) by {
                    let r = ray(b, s, d as int, 1, true);
                    if end_cells(done).contains(i) {
                        let j = choose|j: int| 0 <= j < done.len() && done[j].end == i;
                        if j < before.len() {
                            assert(done[j] == before[j]);
                            assert(end_cells(before).contains(i));
                        } else {
                            assert(done[j] == r[j - before.len()]);
                            assert(end_cells(r).contains(i));
                        }
                    }
                    if end_cells(before).contains(i) {
                        let j = choose|j: int| 0 <= j < before.len() && before[j].end == i;
                        assert(done[j] == before[j]);
                    }
                    if end_cells(r).contains(i) {
                        let j = choose|j: int| 0 <= j < r.len() && r[j].end == i;
                        assert(done[j + before.len()] == r[j]);
                    }
                }
            }
            d += 1;
        }
        proof {
            assert forall|i: int| 121 <= i < 128 implies !#[trigger] has_bit(result, i as u128) by {
                if end_cells(done).contains(i) {
                    let j = choose|j: int| 0 <= j < done.len() && done[j].end == i;
                    lemma_ray_ends_on_board(b, s, done, j);
                }
            }
        }
        result
    }

    /// Adds to `result` the bits of the cells reached from `pos` in direction `d`.
    fn add_slides(&self, pos: &Position, occupied: u128, d: usize, result: &mut u128)
        requires
            on_board(pos@),
            d < 4,
        ensures
            forall|i: int|
                0 <= i < 128 ==> (#[trigger] has_bit(*final(result), i as u128) <==> (has_bit(*old(result), i as u128)
                    || end_cells(ray(occupancy_board(occupied), pos@, d as int, 1, true)).contains(i))),
    {
        let ghost b = occupancy_board(occupied);
        let ghost s = pos@;
        let ghost mut pre: Seq<MoveView> = Seq::empty();
        let x = pos.get_x();
        let y = pos.get_y();
        let mut k: usize = 1;
        assert(pre + ray(b, s, d as int, 1, true) =~= ray(b, s, d as int, 1, true));
        while k <= 10
            invariant
                on_board(s),
                s == pos@,
                b == occupancy_board(occupied),
                x == row_of(s),
                y == col_of(s),
                d < 4,
                1 <= k <= 11,
                pre + ray(b, s, d as int, k as int, true) == ray(b, s, d as int, 1, true),
                forall|i: int|
                    0 <= i < 128 ==> (#[trigger] has_bit(*result, i as u128) <==> (has_bit(*old(result), i as u128)
                        || end_cells(pre).contains(i))),
            ensures
                ray(b, s, d as int, k as int, true) == Seq::<MoveView>::empty(),
            decreases 11 - k,
        {
            let ok = if d == 0 {
                x + k <= 10
            } else if d == 1 {
                x >= k
            } else if d == 2 {
                y + k <= 10
            } else {
                y >= k
            };
            if !ok {
                assert(ray(b, s, d as int, k as int, true) =~= Seq::empty());
                break;
            }
            let (nx, ny) = if d == 0 {
                (x + k, y)
            } else if d == 1 {
                (x - k, y)
            } else if d == 2 {
                (x, y + k)
            } else {
                (x, y - k)
            };
            let cell = nx * BOARDSIZE + ny;
            assert(cell == step(s, d as int, k as int));
            if (occupied >> (cell as u128)) & 1 == 1 {
                assert(b.occupied(cell as int));
                assert(ray(b, s, d as int, k as int, true) =~= Seq::empty());
                break;
            }
            let ghost prev = *result;
            *result = *result | (1u128 << (cell as u128));
            proof {
                let mv = MoveView { start: s, end: cell as int };
                let next = ray(b, s, d as int, k + 1, true);
                assert(ray(b, s, d as int, k as int, true) == seq![mv] + next);
                let pre2 = pre.push(mv);
                assert(pre2 + next =~= pre + (seq![mv] + next));
                assert forall|i: int| 0 <= i < 128 implies (#[trigger] has_bit(*result, i as u128) <==> (has_bit(*old(result), i as u128)
                    || end_cells(pre2).contains(i))) by {
                    lemma_set_bit(prev, cell as u128, i as u128);
                    if end_cells(pre2).contains(i) {
                        let j = choose|j: int| 0 <= j < pre2.len() && pre2[j].end == i;
                        if j < pre.len() {
                            assert(pre[j] == pre2[j]);
                            assert(end_cells(pre).contains(i));
                        }
                    }
                    if end_cells(pre).contains(i) {
                        let j = choose|j: int| 0 <= j < pre.len() && pre[j].end == i;
                        assert(pre2[j] == pre[j]);
                    }
                    if i == cell {
                        assert(pre2[pre.len() as int].end == i);
                    }
                }
                pre = pre2;
            }
            k += 1;
            assert(k == 11 ==> ray(b, s, d as int, k as int, true) =~= Seq::empty());
        }
        assert(pre + ray(b, s, d as int, k as int, true) =~= pre);
    }

    /// The hash index of a blocker set: the product with `magic`, cut to the board and shifted
    /// down to `bits` bits. The product wraps around.
    pub fn transform(&self, blocking: u128, magic: u128, bits: usize) -> (r: usize)
        requires
            1 <= bits <= 32,
        ensures
            r == ((vstd::wrapping::u128_specs::wrapping_mul(blocking, magic) & BOARD_MASK) >> (121 - bits) as u128) as usize,
    {
        (((blocking.wrapping_mul(magic)) & BOARD_MASK) >> ((121 - bits) as u128)) as usize
    }

    /// Spreads the lowest `num_fields` bits of `index` onto the lowest `num_fields` set bits of
    /// `mask`.
    pub fn gen_occupied(&self, index: usize, num_fields: u32, mask: u128) -> (r: u128)
        requires
            enough_bits(mask, num_fields as nat),
        ensures
            r == deposit(index, mask, num_fields as nat),
    {
        let mut occupancy: u128 = 0;
        let mut mask_copy = mask;
        let mut rest_index = index;
        let mut idx: u32 = 0;
        proof {
            lemma_zero_or(deposit(index, mask, num_fields as nat));
        }
        while idx < num_fields
            invariant
                idx <= num_fields,
                enough_bits(mask_copy, (num_fields - idx) as nat),
                occupancy | deposit(rest_index, mask_copy, (num_fields - idx) as nat) == deposit(index, mask, num_fields as nat),
            decreases num_fields - idx,
        {
            let b = (mask_copy ^ (mask_copy - 1)) & mask_copy;
            let ghost rest = deposit(rest_index >> 1usize, mask_copy ^ b, (num_fields - idx - 1) as nat);
            let ghost prev = occupancy;
            if rest_index & 1 == 1 {
                occupancy = occupancy | b;
            }
            proof {
                lemma_or_assoc(prev, b, rest);
                lemma_or_assoc(prev, 0, rest);
                lemma_zero_or(rest);
            }
            mask_copy = mask_copy ^ b;
            rest_index = rest_index >> 1usize;
            idx += 1;
        }
        proof {
            lemma_or_assoc(occupancy, 0, 0);
        }
        occupancy
    }

    /// The moves from `pos` read from the tables for the blockers on `board`: the table entry
    /// for the hashed blockers, with thrones taken out unless `pos` holds the king, one move
    /// per set bit, in increasing order of cells. A hash beyond the cell's table gives no move.
    pub fn generate_moves(&self, pos: Position, board: &Board) -> (r: Vec<Move>)
        requires
            board.wf(),
            on_board(pos@),
            pos@ < self.magic_table().len(),
            pos@ < self.shift_table().len(),
            pos@ < self.lookup_table().len(),
            self.shift_table()[pos@] < 128,
        ensures
            forall|j: int| 0 <= j < r@.len() ==> (#[trigger] r@[j])@.start == pos@,
            exists|blockers: u128|
                #![trigger self.table_key(pos@, blockers)]
                is_blocker_set(blockers, board@, pos@) && ({
                    let key = self.table_key(pos@, blockers);
                    &&& key >= self.lookup_table()[pos@].len() ==> r@.len() == 0
                    &&& key < self.lookup_table()[pos@].len() ==> r@.map_values(|m: Move| m@.end) == bit_cells(
                        if board@.king == Some(pos@) {
                            self.table_entry(pos@, key)
                        } else {
                            self.table_entry(pos@, key) & !THRONE
                        },
                        128,
                    )
                }),
    {
        let pos_num = pos.get_num();
        let a = *board.get_attacker();
        let d = *board.get_defender();
        let kb = *board.get_king();
        let all_pieces = a | d | kb;
        let blockers = all_pieces & self.slider_mask(&pos);
        let key = ((blockers.wrapping_mul(self.magics[pos_num])) >> (self.shifts[pos_num] as u128)) as usize;
        proof {
            board.lemma_wf();
            assert forall|i: int| 0 <= i < 128 implies #[trigger] has_bit(blockers, i as u128) == (on_board(i)
                && board@.occupied(i) && has_bit(slider_bits(pos@), i as u128)) by {
                lemma_and_bit(all_pieces, slider_bits(pos@), i as u128);
                lemma_and_bit(a | d, kb, i as u128);
                lemma_and_bit(a, d, i as u128);
                if i >= 121 {
                    lemma_masked_high(a, i as u128);
                    lemma_masked_high(d, i as u128);
                    lemma_masked_high(kb, i as u128);
                } else {
                    assert(cells_of_bits(a).contains(i) == has_bit(a, i as u128));
                    assert(cells_of_bits(d).contains(i) == has_bit(d, i as u128));
                }
            }
            assert(is_blocker_set(blockers, board@, pos@));
            assert(self.table_key(pos@, blockers) == key as int);
        }
        let mut moves = Vec::<Move>::new();
        if key >= self.lookup[pos_num].len() {
            return moves;
        }
        let entry = self.lookup[pos_num][key];
        assert(entry == self.table_entry(pos@, key as int));
        let is_king = match board.get_king_pos() {
            Some(k) => k.get_num() == pos_num,
            None => false,
        };
        let moves_bitboard = if !is_king {
            entry & !THRONE
        } else {
            entry
        };
        let mut idx: usize = 0;
        while idx < 128
            invariant
                idx <= 128,
                forall|j: int| 0 <= j < moves@.len() ==> (#[trigger] moves@[j])@.start == pos@,
                moves@.map_values(|m: Move| m@.end) == bit_cells(moves_bitboard, idx as int),
            decreases 128 - idx,
        {
            let ghost before = moves@;
            if (moves_bitboard >> (idx as u128)) & 1 == 1 {
                moves.push(Move::new(pos, Position::new_n(idx)));
                assert(moves@.map_values(|m: Move| m@.end) =~= before.map_values(|m: Move| m@.end).push(idx as int));
            } else {
                assert(moves@.map_values(|m: Move| m@.end) =~= before.map_values(|m: Move| m@.end));
            }
            idx += 1;
        }
        moves
    }
}

/// The cells below `n` whose bits are set in `x`, in increasing order.
pub open spec fn bit_cells(x: u128, n: int) -> Seq<int>
    decreases n,
{
    if n <= 0 {
        Seq::empty()
    } else if has_bit(x, (n - 1) as u128) {
        bit_cells(x, n - 1).push(n - 1)
    } else {
        bit_cells(x, n - 1)
    }
}


proof fn lemma_zero_or(x: u128)
    by (bit_vector)
    ensures
        0u128 | x == x,
        x | 0u128 == x,
{
}

proof fn lemma_xor_bit(a: u128, b: u128, i: u128)
    by (bit_vector)
    requires
        i < 128,
    ensures
        has_bit(a ^ b, i) == (has_bit(a, i) != has_bit(b, i)),
{
}

/// Every end cell of a ray from step `k` on lies on the board.
proof fn lemma_ray_ends_after(b: BoardState, s: int, d: int, k: int)
    requires
        on_board(s),
        0 <= d < 4,
        k >= 1,
    ensures
        forall|j: int| 0 <= j < ray(b, s, d, k, true).len() ==> on_board(#[trigger] ray(b, s, d, k, true)[j].end),
    decreases 11 - k,
{
    if !(k > 10 || !within(s, d, k) || b.occupied(step(s, d, k))) {
        lemma_ray_ends_after(b, s, d, k + 1);
        let r = ray(b, s, d, k, true);
        let next = ray(b, s, d, k + 1, true);
        assert(r == seq![MoveView { start: s, end: step(s, d, k) }] + next);
        assert forall|j: int| 0 <= j < r.len() implies on_board(#[trigger] r[j].end) by {
            if j > 0 {
                assert(r[j] == next[j - 1]);
            }
        }
    }
}

proof fn lemma_ray_ends_on_board(b: BoardState, s: int, done: Seq<MoveView>, j: int)
    requires
        on_board(s),
        done == ray(b, s, 0, 1, true) + ray(b, s, 1, 1, true) + ray(b, s, 2, 1, true) + ray(b, s, 3, 1, true),
        0 <= j < done.len(),
    ensures
        on_board(done[j].end),
{
    let r0 = ray(b, s, 0, 1, true);
    let r1 = ray(b, s, 1, 1, true);
    let r2 = ray(b, s, 2, 1, true);
    let r3 = ray(b, s, 3, 1, true);
    lemma_ray_ends_after(b, s, 0, 1);
    lemma_ray_ends_after(b, s, 1, 1);
    lemma_ray_ends_after(b, s, 2, 1);
    lemma_ray_ends_after(b, s, 3, 1);
    if j < r0.len() {
        assert(done[j] == r0[j]);
    } else if j < r0.len() + r1.len() {
        assert(done[j] == r1[j - r0.len()]);
    } else if j < r0.len() + r1.len() + r2.len() {
        assert(done[j] == r2[j - r0.len() - r1.len()]);
    } else {
        assert(done[j] == r3[j - r0.len() - r1.len() - r2.len()]);
    }
}

impl MoveGen {
    /// A random multiplier with few set bits, within the board's 121 bits.
    pub fn random_few_bits(&self) -> (r: u128)
        ensures
            r & !BOARD_MASK == 0,
    {
        let u1 = rand::random::<u128>();
        let u2 = rand::random::<u128>();
        let u3 = rand::random::<u128>();
        let r = u1 & u2 & u3 & BOARD_MASK;
        assert(r & !BOARD_MASK == 0) by (bit_vector)
            requires
                r == u1 & u2 & u3 & 0x1FF_FFFF_FFFF_FFFF_FFFF_FFFF_FFFF_FFFFu128,
        ;
        r
    }

    /// Whether `magic` hashes the blocker sets of `blockings` on `bits` bits so that sets with
    /// the same hash have the same slides (`correct_move`), and spreads `mask` onto at least 6
    /// bits of the hash.
    pub fn magic_fits(
        &self,
        mask: u128,
        blockings: &Vec<u128>,
        correct_move: &Vec<u128>,
        magic: u128,
        bits: usize,
    ) -> (r: bool)
        requires
            1 <= bits <= 24,
            blockings@.len() == correct_move@.len(),
        ensures
            r == (enough_bits(spread_of(mask, magic, bits), 6) && collision_free(
                blockings@,
                correct_move@,
                magic,
                bits,
            )),
    {
        let spread = count_bits((mask.wrapping_mul(magic) & BOARD_MASK) >> ((121 - bits) as u128));
        if spread < 6 {
            proof {
                if enough_bits(spread_of(mask, magic, bits), 6) {
                    lemma_enough_fewer(spread_of(mask, magic, bits), 6, spread as nat + 1);
                }
            }
            return false;
        }
        proof {
            lemma_enough_fewer(spread_of(mask, magic, bits), spread as nat, 6);
            lemma_pow2_bound(bits as nat);
            vstd::bits::lemma_usize_shl_is_mul(1, bits);
        }
        let table: usize = 1usize << bits;
        let mut flag: Vec<bool> = vec![false; table];
        let mut used: Vec<u128> = vec![0; table];
        let total = blockings.len();
        proof {
            assert forall|k2: int| 0 <= k2 < total implies hash_of(#[trigger] blockings@[k2], magic, bits) < table by {
                lemma_hash_in_table(blockings@[k2], magic, bits);
            }
        }
        let mut k: usize = 0;
        while k < total
            invariant
                1 <= bits <= 24,
                table == pow2(bits as nat),
                flag@.len() == table,
                used@.len() == table,
                k <= total,
                total == blockings@.len(),
                blockings@.len() == correct_move@.len(),
                forall|k2: int| 0 <= k2 < total ==> hash_of(#[trigger] blockings@[k2], magic, bits) < table,
                forall|k2: int|
                    0 <= k2 < k ==> flag@[#[trigger] hash_of(blockings@[k2], magic, bits) as int]
                        && used@[hash_of(blockings@[k2], magic, bits) as int] == correct_move@[k2],
                forall|h: int|
                    0 <= h < table && #[trigger] flag@[h] ==> exists|k2: int|
                        0 <= k2 < k && hash_of(blockings@[k2], magic, bits) == h && #[trigger] correct_move@[k2]
                            == used@[h],
                forall|i: int, j: int|
                    0 <= i < k && 0 <= j < k && hash_of(#[trigger] blockings@[i], magic, bits) == hash_of(
                        #[trigger] blockings@[j],
                        magic,
                        bits,
                    ) ==> correct_move@[i] == correct_move@[j],
            decreases total - k,
        {
            let hash_idx = self.transform(blockings[k], magic, bits);
            let ghost hk = hash_idx as int;
            if !flag[hash_idx] {
                proof {
                    assert forall|k2: int| 0 <= k2 < k implies hash_of(blockings@[k2], magic, bits) != hk by {
                        assert(flag@[hash_of(blockings@[k2], magic, bits) as int]);
                    }
                }
                let ghost old_flag = flag@;
                let ghost old_used = used@;
                flag.set(hash_idx, true);
                used.set(hash_idx, correct_move[k]);
                proof {
                    assert forall|h: int|
                        0 <= h < table && #[trigger] flag@[h] implies exists|k2: int|
                            0 <= k2 < k + 1 && hash_of(blockings@[k2], magic, bits) == h && #[trigger] correct_move@[k2]
                                == used@[h] by {
                        if h == hk {
                            assert(hash_of(blockings@[k as int], magic, bits) == h && correct_move@[k as int] == used@[h]);
                        } else {
                            assert(old_flag[h] && old_used[h] == used@[h]);
                        }
                    }
                }
            } else if used[hash_idx] != correct_move[k] {
                proof {
                    let k2 = choose|k2: int|
                        0 <= k2 < k && hash_of(blockings@[k2], magic, bits) == hk && #[trigger] correct_move@[k2]
                            == used@[hk];
                    assert(hash_of(blockings@[k2], magic, bits) == hash_of(blockings@[k as int], magic, bits));
                    assert(!collision_free(blockings@, correct_move@, magic, bits));
                }
                return false;
            }
            k += 1;
        }
        true
    }

    /// Searches at random for a multiplier that hashes, on `bits` bits, every arrangement of
    /// blockers on the row and column of `pos` so that arrangements with the same hash have
    /// the same slides. Returns 0 where 500000 tries find none, or where the row and column
    /// hold 24 cells or more.
    pub fn gen_magics(&self, pos: &Position, bits: usize) -> (r: u128)
        requires
            on_board(pos@),
            1 <= bits <= 24,
        ensures
            r != 0 ==> {
                let mask = slider_bits(pos@);
                forall|n: nat, i: usize, j: usize|
                    #![trigger deposit(i, mask, n), deposit(j, mask, n)]
                    enough_bits(mask, n) && !enough_bits(mask, n + 1) && (i as int) < pow2(n)
                        && (j as int) < pow2(n) && hash_of(deposit(i, mask, n), r, bits)
                        == hash_of(deposit(j, mask, n), r, bits) ==> slide_targets(
                        pos@,
                        deposit(i, mask, n),
                    ) == slide_targets(pos@, deposit(j, mask, n))
            },
    {
        let mask = self.slider_mask(pos);
        let num_fields = count_bits(mask);
        if num_fields >= 24 {
            return 0;
        }
        proof {
            lemma_pow2_bound(num_fields as nat);
            lemma_pow2_bound(bits as nat);
            vstd::bits::lemma_usize_shl_is_mul(1, num_fields as usize);
            vstd::bits::lemma_usize_shl_is_mul(1, bits);
        }
        let total: usize = 1usize << (num_fields as usize);
        let mut blockings = Vec::<u128>::with_capacity(total);
        let mut correct_move = Vec::<u128>::with_capacity(total);
        let mut i: usize = 0;
        while i < total
            invariant
                on_board(pos@),
                mask == slider_bits(pos@),
                num_fields < 24,
                enough_bits(mask, num_fields as nat),
                i <= total,
                blockings@.len() == i,
                correct_move@.len() == i,
                forall|k: int| 0 <= k < i ==> #[trigger] blockings@[k] == deposit(k as usize, mask, num_fields as nat),
                forall|k: int, c: int|
                    0 <= k < i && on_board(c) ==> (#[trigger] has_bit(correct_move@[k], c as u128)
                        <==> slide_targets(pos@, blockings@[k]).contains(c)),
            decreases total - i,
        {
            let current_blocking = self.gen_occupied(i, num_fields, mask);
            blockings.push(current_blocking);
            correct_move.push(self.old_gen_moves(pos, current_blocking));
            i += 1;
        }
        let mut candidates: Vec<u128> = Vec::with_capacity(MAGIC_TRIES);
        let mut it: usize = 0;
        while it < MAGIC_TRIES
            invariant
                it <= MAGIC_TRIES,
            decreases MAGIC_TRIES - it,
        {
            candidates.push(self.random_few_bits());
            it += 1;
        }
        let magic = self.find_magic(mask, &blockings, &correct_move, &candidates, bits);
        if magic != 0 {
            proof {
                let mask_s = slider_bits(pos@);
                assert forall|n: nat, i: usize, j: usize|
                    #![trigger deposit(i, mask_s, n), deposit(j, mask_s, n)]
                    enough_bits(mask_s, n) && !enough_bits(mask_s, n + 1) && (i as int) < pow2(n)
                        && (j as int) < pow2(n) && hash_of(deposit(i, mask_s, n), magic, bits)
                        == hash_of(deposit(j, mask_s, n), magic, bits) implies slide_targets(
                        pos@,
                        deposit(i, mask_s, n),
                    ) == slide_targets(pos@, deposit(j, mask_s, n)) by {
                    lemma_bits_count_unique(mask_s, n, num_fields as nat);
                    assert(blockings@[i as int] == deposit(i, mask_s, n));
                    assert(blockings@[j as int] == deposit(j, mask_s, n));
                    assert(correct_move@[i as int] == correct_move@[j as int]);
                    lemma_targets_on_board(pos@, blockings@[i as int]);
                    lemma_targets_on_board(pos@, blockings@[j as int]);
                    assert forall|c: int| slide_targets(pos@, blockings@[i as int]).contains(c)
                        <==> slide_targets(pos@, blockings@[j as int]).contains(c) by {
                        if on_board(c) {
                            assert(has_bit(correct_move@[i as int], c as u128) == has_bit(correct_move@[j as int], c as u128));
                        }
                    }
                    assert(slide_targets(pos@, blockings@[i as int]) =~= slide_targets(pos@, blockings@[j as int]));
                }
            }
        }
        magic
    }

    /// The first of `candidates` that fits (see `magic_fits`), or 0 where none does.
    pub fn find_magic(
        &self,
        mask: u128,
        blockings: &Vec<u128>,
        correct_move: &Vec<u128>,
        candidates: &Vec<u128>,
        bits: usize,
    ) -> (r: u128)
        requires
            1 <= bits <= 24,
            blockings@.len() == correct_move@.len(),
        ensures
            r == first_fitting(mask, blockings@, correct_move@, candidates@, bits, 0),
            r != 0 ==> magic_ok(mask, blockings@, correct_move@, r, bits),
    {
        let mut i: usize = 0;
        while i < candidates.len()
            invariant
                1 <= bits <= 24,
                blockings@.len() == correct_move@.len(),
                i <= candidates@.len(),
                first_fitting(mask, blockings@, correct_move@, candidates@, bits, i as int) == first_fitting(
                    mask,
                    blockings@,
                    correct_move@,
                    candidates@,
                    bits,
                    0,
                ),
            decreases candidates@.len() - i,
        {
            if self.magic_fits(mask, blockings, correct_move, candidates[i], bits) {
                return candidates[i];
            }
            i += 1;
        }
        0
    }
}

/// The number of random multipliers the magic search tries.
pub const MAGIC_TRIES: usize = 500_000;

/// `magic` spreads `mask` onto at least 6 hash bits and hashes `blockings` without collisions
/// between different slides.
pub open spec fn magic_ok(mask: u128, blockings: Seq<u128>, correct: Seq<u128>, magic: u128, bits: usize) -> bool {
    enough_bits(spread_of(mask, magic, bits), 6) && collision_free(blockings, correct, magic, bits)
}

/// The first candidate from index `i` on that is `magic_ok`, or 0.
pub open spec fn first_fitting(
    mask: u128,
    blockings: Seq<u128>,
    correct: Seq<u128>,
    candidates: Seq<u128>,
    bits: usize,
    i: int,
) -> u128
    decreases candidates.len() - i,
{
    if i < 0 || i >= candidates.len() {
        0
    } else if magic_ok(mask, blockings, correct, candidates[i], bits) {
        candidates[i]
    } else {
        first_fitting(mask, blockings, correct, candidates, bits, i + 1)
    }
}

/// `blockers` holds exactly the occupied cells of `b` in the row and the column of `p`.
pub open spec fn is_blocker_set(blockers: u128, b: BoardState, p: int) -> bool {
    forall|i: int|
        0 <= i < 128 ==> #[trigger] has_bit(blockers, i as u128) == (on_board(i) && b.occupied(i)
            && has_bit(slider_bits(p), i as u128))
}

/// The bits of the hash of `mask` itself under `magic`.
pub open spec fn spread_of(mask: u128, magic: u128, bits: usize) -> u128 {
    (vstd::wrapping::u128_specs::wrapping_mul(mask, magic) & BOARD_MASK) >> (121 - bits) as u128
}

/// Blocker sets with the same hash under `magic` have the same slides.
pub open spec fn collision_free(blockings: Seq<u128>, correct: Seq<u128>, magic: u128, bits: usize) -> bool {
    forall|i: int, j: int|
        0 <= i < blockings.len() && 0 <= j < blockings.len() && hash_of(#[trigger] blockings[i], magic, bits)
            == hash_of(#[trigger] blockings[j], magic, bits) ==> correct[i] == correct[j]
}

/// The row and the column of cell `p`, without `p`, as a bit set.
pub open spec fn slider_bits(p: int) -> u128 {
    (ROW << ((row_of(p) * 11) as u128)) ^ (COLUMN << (col_of(p) as u128))
}

proof fn lemma_pow2_bound(n: nat)
    requires
        n <= 24,
    ensures
        pow2(n) <= 0x100_0000,
{
    if n < 24 {
        vstd::arithmetic::power2::lemma_pow2_strictly_increases(n, 24);
    }
    vstd::arithmetic::power2::lemma2_to64();
}

proof fn lemma_hash_in_table(blocking: u128, magic: u128, bits: usize)
    requires
        1 <= bits <= 24,
    ensures
        hash_of(blocking, magic, bits) < pow2(bits as nat),
{
    let x = vstd::wrapping::u128_specs::wrapping_mul(blocking, magic);
    lemma_hash_bound(x, bits as u128);
    lemma_pow2_bound(bits as nat);
    lemma_shift_widen(bits as u64);
    vstd::bits::lemma_u64_shl_is_mul(1, bits as u64);
}

proof fn lemma_shift_widen(b: u64)
    by (bit_vector)
    requires
        b <= 24,
    ensures
        (1u128 << (b as u128)) == ((1u64 << b) as u128),
{
}

/// The number of set bits is unique.
proof fn lemma_bits_count_unique(m: u128, a: nat, b: nat)
    requires
        enough_bits(m, a),
        !enough_bits(m, a + 1),
        enough_bits(m, b),
        !enough_bits(m, b + 1),
    ensures
        a == b,
{
    if a < b {
        lemma_enough_fewer(m, b, a + 1);
    } else if b < a {
        lemma_enough_fewer(m, a, b + 1);
    }
}

proof fn lemma_enough_fewer(m: u128, a: nat, b: nat)
    requires
        enough_bits(m, a),
        b <= a,
    ensures
        enough_bits(m, b),
    decreases b,
{
    if b > 0 {
        lemma_enough_fewer(m ^ low_bit(m), (a - 1) as nat, (b - 1) as nat);
    }
}

/// Every slide target lies on the board.
proof fn lemma_targets_on_board(s: int, occupied: u128)
    requires
        on_board(s),
    ensures
        forall|c: int| slide_targets(s, occupied).contains(c) ==> on_board(c),
{
    let b = occupancy_board(occupied);
    let done = ray(b, s, 0, 1, true) + ray(b, s, 1, 1, true) + ray(b, s, 2, 1, true) + ray(b, s, 3, 1, true);
    assert forall|c: int| slide_targets(s, occupied).contains(c) implies on_board(c) by {
        let j = choose|j: int| 0 <= j < done.len() && done[j].end == c;
        lemma_ray_ends_on_board(b, s, done, j);
    }
}

} // verus!
