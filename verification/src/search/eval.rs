use vstd::prelude::*;
use crate::board::{
    BOARD_MASK, bit_count, count_below, in_bb, mill, mill_mask, mill_line, popcount, lemma_mill_lines, lemma_in_bb_and,
    lemma_in_bb_not, lemma_in_bb_or, lemma_in_bb_board_mask, lemma_in_bb_zero, lemma_bits_ext,
};
use crate::position::{CurrentGameState, StateView};
use crate::types::{Color, opponent_of};

verus! {

/// Value of one piece, whether on the board or still in hand — an unplaced
/// piece during the placing phase is just as much an asset as a placed one.
pub const PIECE_VALUE: i32 = 100;

/// Value of one "open" mill: two of its three squares owned, the third
/// empty, i.e. one move away from completing it.
pub const MILL_THREAT_VALUE: i32 = 20;

/// `c`'s material, in score units.
pub open spec fn material_score(v: StateView, c: Color) -> int {
    (v.on_board(c) + v.hand(c)) * PIECE_VALUE
}

/// `c` owns two points of mill `m` and its third point is empty.
pub open spec fn open_mill(v: StateView, c: Color, m: u32) -> bool {
    bit_count(v.pieces(c) & m) == 2 && v.empty() & m != 0
}

/// Number of the first `n` mills that are open for `c`.
pub open spec fn open_mills_below(v: StateView, c: Color, n: nat) -> nat
    decreases n,
{
    if n == 0 {
        0
    } else {
        open_mills_below(v, c, (n - 1) as nat) + if open_mill(v, c, mill_mask((n - 1) as u8)) { 1nat } else { 0nat }
    }
}

/// `c`'s material plus its open mill threats.
pub open spec fn side_score(v: StateView, c: Color) -> int {
    material_score(v, c) + open_mills_below(v, c, 16) * MILL_THREAT_VALUE
}

/// Score of a position from `side`'s point of view.
pub open spec fn evaluation(v: StateView, side: Color) -> int {
    side_score(v, side) - side_score(v, opponent_of(side))
}

proof fn lemma_open_mills_le(v: StateView, c: Color, n: nat)
    ensures
        open_mills_below(v, c, n) <= n,
    decreases n,
{
    if n > 0 {
        lemma_open_mills_le(v, c, (n - 1) as nat);
    }
}

/// Scores stay far inside `i32`.
pub proof fn lemma_side_score_bounds(v: StateView, c: Color)
    ensures
        0 <= side_score(v, c) <= 30_000,
{
    crate::board::lemma_count_le(v.pieces(c), 32);
    lemma_open_mills_le(v, c, 16);
}

fn material(state: &CurrentGameState, color: Color) -> (r: i32)
    ensures
        r == material_score(state@, color),
{
    (state.pieces_on_board(color) as i32 + state.pieces_in_hand(color) as i32) * PIECE_VALUE
}

/// Number of mills where `color` owns exactly two of the three squares and
/// the third is empty.
fn open_mill_count(state: &CurrentGameState, color: Color) -> (r: i32)
    ensures
        r == open_mills_below(state@, color, 16),
{
    let own = state.pieces(color);
    let empty = state.empty_squares();
    let mut count: i32 = 0;
    let mut i: usize = 0;
    while i < 16
        invariant
            i <= 16,
            own == state@.pieces(color),
            empty == state@.empty(),
            count == open_mills_below(state@, color, i as nat),
            count <= i,
        decreases 16 - i,
    {
        let m = mill(i);
        if popcount(own & m) == 2 && (empty & m) != 0 {
            count = count + 1;
        }
        i = i + 1;
    }
    count
}

/// Score of `state` from `side`'s point of view: positive means `side` is
/// better off, negative means the opponent is. Combines material with open
/// mill threats for each side.
pub fn evaluate(state: &CurrentGameState, side: Color) -> (r: i32)
    ensures
        r == evaluation(state@, side),
{
    let opponent = side.opponent();
    proof {
        lemma_side_score_bounds(state@, side);
        lemma_side_score_bounds(state@, opponent);
    }
    let side_score = material(state, side) + open_mill_count(state, side) * MILL_THREAT_VALUE;
    let opponent_score = material(state, opponent) + open_mill_count(state, opponent) * MILL_THREAT_VALUE;
    side_score - opponent_score
}

/// The evaluation is zero-sum: what one side gains the other loses.
pub proof fn lemma_evaluation_antisymmetric(v: StateView)
    ensures
        evaluation(v, Color::White) == -evaluation(v, Color::Black),
{
}

/// A point's worth in a count: one where `c` has a piece on it.
pub open spec fn owned_point(v: StateView, c: Color, sq: u8) -> nat {
    if in_bb(v.pieces(c), sq as u32) {
        1
    } else {
        0
    }
}

/// Counting the bits of a set drawn from three points counts those points.
proof fn lemma_count_three(x: u32, p: u32, q: u32, r: u32, n: nat)
    requires
        p < 32 && q < 32 && r < 32,
        p != q && q != r && p != r,
        n <= 32,
        forall|i: u32| i < 32 && #[trigger] in_bb(x, i) ==> i == p || i == q || i == r,
    ensures
        count_below(x, n) == (if p < n && in_bb(x, p) { 1nat } else { 0nat }) + (if q < n && in_bb(x, q) {
            1nat
        } else {
            0nat
        }) + (if r < n && in_bb(x, r) { 1nat } else { 0nat }),
    decreases n,
{
    if n > 0 {
        lemma_count_three(x, p, q, r, (n - 1) as nat);
        let i = (n - 1) as u32;
        if in_bb(x, i) {
            assert(i == p || i == q || i == r);
        }
    }
}

/// A mill is an open threat for `c` exactly when `c` holds two of its
/// three points and one of them is empty (so the third point, the one `c`
/// does not hold, is the empty one): a mill blocked by an opponent's piece
/// is no threat.
pub proof fn lemma_open_mill_meaning(v: StateView, c: Color, k: u8)
    requires
        k < 16,
    ensures
        open_mill(v, c, mill_mask(k)) <==> (owned_point(v, c, mill_line(k).0) + owned_point(v, c, mill_line(k).1)
            + owned_point(v, c, mill_line(k).2) == 2 && (v.is_empty_at(mill_line(k).0 as u32) || v.is_empty_at(
            mill_line(k).1 as u32,
        ) || v.is_empty_at(mill_line(k).2 as u32))),
{
    lemma_mill_lines();
    let (p, q, r) = mill_line(k);
    let m = mill_mask(k);
    let own = v.pieces(c) & m;
    lemma_in_bb_and(v.pieces(c), m);
    lemma_count_three(own, p as u32, q as u32, r as u32, 32);
    let e = v.empty() & m;
    lemma_in_bb_and(v.empty(), m);
    lemma_in_bb_and(!(v.white | v.black), BOARD_MASK);
    lemma_in_bb_not(v.white | v.black);
    lemma_in_bb_or(v.white, v.black);
    lemma_in_bb_board_mask();
    lemma_in_bb_zero();
    if e != 0 {
        if !(in_bb(e, p as u32) || in_bb(e, q as u32) || in_bb(e, r as u32)) {
            assert forall|i: u32| i < 32 implies #[trigger] in_bb(e, i) == in_bb(0, i) by {}
            lemma_bits_ext(e, 0);
        }
    }
    if in_bb(e, p as u32) || in_bb(e, q as u32) || in_bb(e, r as u32) {
        assert(e != 0);
    }
}

} // verus!
