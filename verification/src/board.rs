use vstd::prelude::*;
use crate::types::Square;

verus! {

/// A set of board points: bit `N` stands for square `N`; only bits 0..23
/// are ever used.
pub type BitBoard = u32;

/// The 24 bits that stand for board points.
pub const BOARD_MASK: BitBoard = 0x00FF_FFFF;

//   A  B  C  D  E  F  G
// 1 0        1        2
// 2    3     4     5
// 3       6  7  8
// 4 9 10 11    12 13 14
// 5      15 16 17
// 6   18    19    20
// 7 21       22       23

/// Whether square `i` is in the set `bb`.
pub open spec fn in_bb(bb: u32, i: u32) -> bool {
    bb & (1u32 << i) != 0
}

/// Number of squares below `n` that are in `bb`.
pub open spec fn count_below(bb: u32, n: nat) -> nat
    decreases n,
{
    if n == 0 {
        0
    } else {
        count_below(bb, (n - 1) as nat) + if in_bb(bb, (n - 1) as u32) { 1nat } else { 0nat }
    }
}

/// Number of set bits of `bb`.
pub open spec fn bit_count(bb: u32) -> nat {
    count_below(bb, 32)
}

/// The squares joined to square `sq` by a board line (the slide targets).
pub open spec fn adjacency(sq: u8) -> u32 {
    match sq {
        0 => (1u32 << 1) | (1u32 << 9), // A1
        1 => (1u32 << 0) | (1u32 << 2) | (1u32 << 4), // D1
        2 => (1u32 << 1) | (1u32 << 14), // G1
        3 => (1u32 << 4) | (1u32 << 10), // B2
        4 => (1u32 << 1) | (1u32 << 3) | (1u32 << 5) | (1u32 << 7), // D2
        5 => (1u32 << 4) | (1u32 << 13), // F2
        6 => (1u32 << 7) | (1u32 << 11), // C3
        7 => (1u32 << 4) | (1u32 << 6) | (1u32 << 8), // D3
        8 => (1u32 << 7) | (1u32 << 12), // E3
        9 => (1u32 << 0) | (1u32 << 10) | (1u32 << 21), // A4
        10 => (1u32 << 3) | (1u32 << 9) | (1u32 << 11) | (1u32 << 18), // B4
        11 => (1u32 << 6) | (1u32 << 10) | (1u32 << 15), // C4
        12 => (1u32 << 8) | (1u32 << 13) | (1u32 << 17), // E4
        13 => (1u32 << 5) | (1u32 << 12) | (1u32 << 14) | (1u32 << 20), // F4
        14 => (1u32 << 2) | (1u32 << 13) | (1u32 << 23), // G4
        15 => (1u32 << 11) | (1u32 << 16), // C5
        16 => (1u32 << 15) | (1u32 << 17) | (1u32 << 19), // D5
        17 => (1u32 << 12) | (1u32 << 16), // E5
        18 => (1u32 << 10) | (1u32 << 19), // B6
        19 => (1u32 << 16) | (1u32 << 18) | (1u32 << 20) | (1u32 << 22), // D6
        20 => (1u32 << 13) | (1u32 << 19), // F6
        21 => (1u32 << 9) | (1u32 << 22), // A7
        22 => (1u32 << 19) | (1u32 << 21) | (1u32 << 23), // D7
        23 => (1u32 << 14) | (1u32 << 22), // G7
        _ => 0,
    }
}

/// The sixteen mills (three squares on one line).
pub open spec fn mill_mask(i: u8) -> u32 {
    match i {
        0 => (1u32 << 0) | (1u32 << 1) | (1u32 << 2), // A1-D1-G1
        1 => (1u32 << 3) | (1u32 << 4) | (1u32 << 5), // B2-D2-F2
        2 => (1u32 << 6) | (1u32 << 7) | (1u32 << 8), // C3-D3-E3
        3 => (1u32 << 9) | (1u32 << 10) | (1u32 << 11), // A4-B4-C4
        4 => (1u32 << 12) | (1u32 << 13) | (1u32 << 14), // E4-F4-G4
        5 => (1u32 << 15) | (1u32 << 16) | (1u32 << 17), // C5-D5-E5
        6 => (1u32 << 18) | (1u32 << 19) | (1u32 << 20), // B6-D6-F6
        7 => (1u32 << 21) | (1u32 << 22) | (1u32 << 23), // A7-D7-G7
        8 => (1u32 << 0) | (1u32 << 9) | (1u32 << 21), // A1-A4-A7
        9 => (1u32 << 3) | (1u32 << 10) | (1u32 << 18), // B2-B4-B6
        10 => (1u32 << 6) | (1u32 << 11) | (1u32 << 15), // C3-C4-C5
        11 => (1u32 << 1) | (1u32 << 4) | (1u32 << 7), // D1-D2-D3
        12 => (1u32 << 16) | (1u32 << 19) | (1u32 << 22), // D5-D6-D7
        13 => (1u32 << 8) | (1u32 << 12) | (1u32 << 17), // E3-E4-E5
        14 => (1u32 << 5) | (1u32 << 13) | (1u32 << 20), // F2-F4-F6
        15 => (1u32 << 2) | (1u32 << 14) | (1u32 << 23), // G1-G4-G7
        _ => 0,
    }
}

/// The indices of the two mills through each square.
pub open spec fn square_mill_ids(sq: u8) -> (u8, u8) {
    match sq {
        0 => (0, 8),
        1 => (0, 11),
        2 => (0, 15),
        3 => (1, 9),
        4 => (1, 11),
        5 => (1, 14),
        6 => (2, 10),
        7 => (2, 11),
        8 => (2, 13),
        9 => (3, 8),
        10 => (3, 9),
        11 => (3, 10),
        12 => (4, 13),
        13 => (4, 14),
        14 => (4, 15),
        15 => (5, 10),
        16 => (5, 12),
        17 => (5, 13),
        18 => (6, 9),
        19 => (6, 12),
        20 => (6, 14),
        21 => (7, 8),
        22 => (7, 12),
        23 => (7, 15),
        _ => (16, 16),
    }
}

/// The two mills through each square.
pub open spec fn square_mill_masks(sq: u8) -> (u32, u32) {
    (mill_mask(square_mill_ids(sq).0), mill_mask(square_mill_ids(sq).1))
}

/// Bitboard of all squares connected to `sq` (the board's lines).
pub fn adjacent(sq: Square) -> (r: BitBoard)
    requires
        sq.0 < 24,
    ensures
        r == adjacency(sq.0),
{
    match sq.0 {
        0 => (1u32 << 1) | (1u32 << 9),
        1 => (1u32 << 0) | (1u32 << 2) | (1u32 << 4),
        2 => (1u32 << 1) | (1u32 << 14),
        3 => (1u32 << 4) | (1u32 << 10),
        4 => (1u32 << 1) | (1u32 << 3) | (1u32 << 5) | (1u32 << 7),
        5 => (1u32 << 4) | (1u32 << 13),
        6 => (1u32 << 7) | (1u32 << 11),
        7 => (1u32 << 4) | (1u32 << 6) | (1u32 << 8),
        8 => (1u32 << 7) | (1u32 << 12),
        9 => (1u32 << 0) | (1u32 << 10) | (1u32 << 21),
        10 => (1u32 << 3) | (1u32 << 9) | (1u32 << 11) | (1u32 << 18),
        11 => (1u32 << 6) | (1u32 << 10) | (1u32 << 15),
        12 => (1u32 << 8) | (1u32 << 13) | (1u32 << 17),
        13 => (1u32 << 5) | (1u32 << 12) | (1u32 << 14) | (1u32 << 20),
        14 => (1u32 << 2) | (1u32 << 13) | (1u32 << 23),
        15 => (1u32 << 11) | (1u32 << 16),
        16 => (1u32 << 15) | (1u32 << 17) | (1u32 << 19),
        17 => (1u32 << 12) | (1u32 << 16),
        18 => (1u32 << 10) | (1u32 << 19),
        19 => (1u32 << 16) | (1u32 << 18) | (1u32 << 20) | (1u32 << 22),
        20 => (1u32 << 13) | (1u32 << 19),
        21 => (1u32 << 9) | (1u32 << 22),
        22 => (1u32 << 19) | (1u32 << 21) | (1u32 << 23),
        23 => (1u32 << 14) | (1u32 << 22),
        _ => 0,
    }
}

/// The `i`-th of the sixteen mills.
pub fn mill(i: usize) -> (r: BitBoard)
    requires
        i < 16,
    ensures
        r == mill_mask(i as u8),
{
    match i {
        0 => (1u32 << 0) | (1u32 << 1) | (1u32 << 2),
        1 => (1u32 << 3) | (1u32 << 4) | (1u32 << 5),
        2 => (1u32 << 6) | (1u32 << 7) | (1u32 << 8),
        3 => (1u32 << 9) | (1u32 << 10) | (1u32 << 11),
        4 => (1u32 << 12) | (1u32 << 13) | (1u32 << 14),
        5 => (1u32 << 15) | (1u32 << 16) | (1u32 << 17),
        6 => (1u32 << 18) | (1u32 << 19) | (1u32 << 20),
        7 => (1u32 << 21) | (1u32 << 22) | (1u32 << 23),
        8 => (1u32 << 0) | (1u32 << 9) | (1u32 << 21),
        9 => (1u32 << 3) | (1u32 << 10) | (1u32 << 18),
        10 => (1u32 << 6) | (1u32 << 11) | (1u32 << 15),
        11 => (1u32 << 1) | (1u32 << 4) | (1u32 << 7),
        12 => (1u32 << 16) | (1u32 << 19) | (1u32 << 22),
        13 => (1u32 << 8) | (1u32 << 12) | (1u32 << 17),
        14 => (1u32 << 5) | (1u32 << 13) | (1u32 << 20),
        15 => (1u32 << 2) | (1u32 << 14) | (1u32 << 23),
        _ => 0,
    }
}

/// The two mills that pass through `sq`.
pub fn square_mills(sq: Square) -> (r: (BitBoard, BitBoard))
    requires
        sq.0 < 24,
    ensures
        r == square_mill_masks(sq.0),
{
    match sq.0 {
        0 => (mill(0), mill(8)),
        1 => (mill(0), mill(11)),
        2 => (mill(0), mill(15)),
        3 => (mill(1), mill(9)),
        4 => (mill(1), mill(11)),
        5 => (mill(1), mill(14)),
        6 => (mill(2), mill(10)),
        7 => (mill(2), mill(11)),
        8 => (mill(2), mill(13)),
        9 => (mill(3), mill(8)),
        10 => (mill(3), mill(9)),
        11 => (mill(3), mill(10)),
        12 => (mill(4), mill(13)),
        13 => (mill(4), mill(14)),
        14 => (mill(4), mill(15)),
        15 => (mill(5), mill(10)),
        16 => (mill(5), mill(12)),
        17 => (mill(5), mill(13)),
        18 => (mill(6), mill(9)),
        19 => (mill(6), mill(12)),
        20 => (mill(6), mill(14)),
        21 => (mill(7), mill(8)),
        22 => (mill(7), mill(12)),
        23 => (mill(7), mill(15)),
        _ => (0, 0),
    }
}

/// The one-square set `{sq}`.
pub fn bit(sq: Square) -> (r: BitBoard)
    requires
        sq.0 < 32,
    ensures
        r == 1u32 << sq.0,
{
    1u32 << sq.0
}

/// Whether `sq` is in `bb`.
pub fn is_bb(bb: BitBoard, sq: Square) -> (r: bool)
    requires
        sq.0 < 32,
    ensures
        r == in_bb(bb, sq.0 as u32),
{
    (bb & bit(sq)) != 0
}

/// `bb` with `sq` added.
pub fn set(bb: BitBoard, sq: Square) -> (r: BitBoard)
    requires
        sq.0 < 32,
    ensures
        r == bb | (1u32 << sq.0),
        forall|i: u32| i < 32 ==> #[trigger] in_bb(r, i) == (in_bb(bb, i) || i == sq.0),
{
    proof {
        lemma_in_bb_set(bb, sq.0 as u32);
    }
    bb | bit(sq)
}

/// `bb` with `sq` removed.
pub fn clear(bb: BitBoard, sq: Square) -> (r: BitBoard)
    requires
        sq.0 < 32,
    ensures
        r == bb & !(1u32 << sq.0),
        forall|i: u32| i < 32 ==> #[trigger] in_bb(r, i) == (in_bb(bb, i) && i != sq.0),
{
    proof {
        lemma_in_bb_clear(bb, sq.0 as u32);
    }
    bb & !bit(sq)
}

/// Number of squares in `bb`.
pub fn popcount(bb: BitBoard) -> (r: u32)
    ensures
        r == bit_count(bb),
        r <= 32,
{
    let mut n: u32 = 0;
    let mut i: u32 = 0;
    while i < 32
        invariant
            i <= 32,
            n == count_below(bb, i as nat),
            n <= i,
        decreases 32 - i,
    {
        if bb & (1u32 << i) != 0 {
            n = n + 1;
        }
        i = i + 1;
    }
    n
}

// ---- facts about single bits ----

pub proof fn lemma_in_bb_set(bb: u32, s: u32)
    requires
        s < 32,
    ensures
        forall|i: u32| i < 32 ==> #[trigger] in_bb(bb | (1u32 << s), i) == (in_bb(bb, i) || i == s),
{
    assert forall|i: u32| i < 32 implies #[trigger] in_bb(bb | (1u32 << s), i) == (in_bb(bb, i) || i == s) by {
        assert((bb | (1u32 << s)) & (1u32 << i) != 0 <==> (bb & (1u32 << i) != 0 || i == s)) by (bit_vector)
            requires
                s < 32,
                i < 32,
        ;
    }
}

pub proof fn lemma_in_bb_clear(bb: u32, s: u32)
    requires
        s < 32,
    ensures
        forall|i: u32| i < 32 ==> #[trigger] in_bb(bb & !(1u32 << s), i) == (in_bb(bb, i) && i != s),
{
    assert forall|i: u32| i < 32 implies #[trigger] in_bb(bb & !(1u32 << s), i) == (in_bb(bb, i) && i != s) by {
        assert((bb & !(1u32 << s)) & (1u32 << i) != 0 <==> (bb & (1u32 << i) != 0 && i != s)) by (bit_vector)
            requires
                s < 32,
                i < 32,
        ;
    }
}

pub proof fn lemma_in_bb_and(a: u32, b: u32)
    ensures
        forall|i: u32| i < 32 ==> #[trigger] in_bb(a & b, i) == (in_bb(a, i) && in_bb(b, i)),
{
    assert forall|i: u32| i < 32 implies #[trigger] in_bb(a & b, i) == (in_bb(a, i) && in_bb(b, i)) by {
        assert((a & b) & (1u32 << i) != 0 <==> (a & (1u32 << i) != 0 && b & (1u32 << i) != 0)) by (bit_vector)
            requires
                i < 32,
        ;
    }
}

pub proof fn lemma_in_bb_or(a: u32, b: u32)
    ensures
        forall|i: u32| i < 32 ==> #[trigger] in_bb(a | b, i) == (in_bb(a, i) || in_bb(b, i)),
{
    assert forall|i: u32| i < 32 implies #[trigger] in_bb(a | b, i) == (in_bb(a, i) || in_bb(b, i)) by {
        assert((a | b) & (1u32 << i) != 0 <==> (a & (1u32 << i) != 0 || b & (1u32 << i) != 0)) by (bit_vector)
            requires
                i < 32,
        ;
    }
}

pub proof fn lemma_in_bb_not(a: u32)
    ensures
        forall|i: u32| i < 32 ==> #[trigger] in_bb(!a, i) == !in_bb(a, i),
{
    assert forall|i: u32| i < 32 implies #[trigger] in_bb(!a, i) == !in_bb(a, i) by {
        assert((!a) & (1u32 << i) != 0 <==> !(a & (1u32 << i) != 0)) by (bit_vector)
            requires
                i < 32,
        ;
    }
}

pub proof fn lemma_in_bb_board_mask()
    ensures
        forall|i: u32| i < 32 ==> #[trigger] in_bb(BOARD_MASK, i) == (i < 24),
{
    assert forall|i: u32| i < 32 implies #[trigger] in_bb(BOARD_MASK, i) == (i < 24) by {
        assert(0x00FF_FFFFu32 & (1u32 << i) != 0 <==> i < 24) by (bit_vector)
            requires
                i < 32,
        ;
    }
}

pub proof fn lemma_in_bb_zero()
    ensures
        forall|i: u32| i < 32 ==> !#[trigger] in_bb(0, i),
{
    assert forall|i: u32| i < 32 implies !#[trigger] in_bb(0, i) by {
        assert(0u32 & (1u32 << i) == 0) by (bit_vector);
    }
}

/// Two bitboards with the same squares are equal.
pub proof fn lemma_bits_ext(a: u32, b: u32)
    requires
        forall|i: u32| i < 32 ==> #[trigger] in_bb(a, i) == in_bb(b, i),
    ensures
        a == b,
{
    assert(in_bb(a, 0) == in_bb(b, 0));
    assert(in_bb(a, 1) == in_bb(b, 1));
    assert(in_bb(a, 2) == in_bb(b, 2));
    assert(in_bb(a, 3) == in_bb(b, 3));
    assert(in_bb(a, 4) == in_bb(b, 4));
    assert(in_bb(a, 5) == in_bb(b, 5));
    assert(in_bb(a, 6) == in_bb(b, 6));
    assert(in_bb(a, 7) == in_bb(b, 7));
    assert(in_bb(a, 8) == in_bb(b, 8));
    assert(in_bb(a, 9) == in_bb(b, 9));
    assert(in_bb(a, 10) == in_bb(b, 10));
    assert(in_bb(a, 11) == in_bb(b, 11));
    assert(in_bb(a, 12) == in_bb(b, 12));
    assert(in_bb(a, 13) == in_bb(b, 13));
    assert(in_bb(a, 14) == in_bb(b, 14));
    assert(in_bb(a, 15) == in_bb(b, 15));
    assert(in_bb(a, 16) == in_bb(b, 16));
    assert(in_bb(a, 17) == in_bb(b, 17));
    assert(in_bb(a, 18) == in_bb(b, 18));
    assert(in_bb(a, 19) == in_bb(b, 19));
    assert(in_bb(a, 20) == in_bb(b, 20));
    assert(in_bb(a, 21) == in_bb(b, 21));
    assert(in_bb(a, 22) == in_bb(b, 22));
    assert(in_bb(a, 23) == in_bb(b, 23));
    assert(in_bb(a, 24) == in_bb(b, 24));
    assert(in_bb(a, 25) == in_bb(b, 25));
    assert(in_bb(a, 26) == in_bb(b, 26));
    assert(in_bb(a, 27) == in_bb(b, 27));
    assert(in_bb(a, 28) == in_bb(b, 28));
    assert(in_bb(a, 29) == in_bb(b, 29));
    assert(in_bb(a, 30) == in_bb(b, 30));
    assert(in_bb(a, 31) == in_bb(b, 31));
    lemma_bits_ext_bv(a, b);
}

proof fn lemma_bits_ext_bv(a: u32, b: u32)
    requires
        in_bb(a, 0) == in_bb(b, 0), in_bb(a, 1) == in_bb(b, 1), in_bb(a, 2) == in_bb(b, 2), in_bb(a, 3) == in_bb(b, 3),
        in_bb(a, 4) == in_bb(b, 4), in_bb(a, 5) == in_bb(b, 5), in_bb(a, 6) == in_bb(b, 6), in_bb(a, 7) == in_bb(b, 7),
        in_bb(a, 8) == in_bb(b, 8), in_bb(a, 9) == in_bb(b, 9), in_bb(a, 10) == in_bb(b, 10), in_bb(a, 11) == in_bb(b, 11),
        in_bb(a, 12) == in_bb(b, 12), in_bb(a, 13) == in_bb(b, 13), in_bb(a, 14) == in_bb(b, 14), in_bb(a, 15) == in_bb(b, 15),
        in_bb(a, 16) == in_bb(b, 16), in_bb(a, 17) == in_bb(b, 17), in_bb(a, 18) == in_bb(b, 18), in_bb(a, 19) == in_bb(b, 19),
        in_bb(a, 20) == in_bb(b, 20), in_bb(a, 21) == in_bb(b, 21), in_bb(a, 22) == in_bb(b, 22), in_bb(a, 23) == in_bb(b, 23),
        in_bb(a, 24) == in_bb(b, 24), in_bb(a, 25) == in_bb(b, 25), in_bb(a, 26) == in_bb(b, 26), in_bb(a, 27) == in_bb(b, 27),
        in_bb(a, 28) == in_bb(b, 28), in_bb(a, 29) == in_bb(b, 29), in_bb(a, 30) == in_bb(b, 30), in_bb(a, 31) == in_bb(b, 31),
    ensures
        a == b,
{
    assert(a == b) by (bit_vector)
        requires
            (a & (1u32 << 0) != 0) == (b & (1u32 << 0) != 0), (a & (1u32 << 1) != 0) == (b & (1u32 << 1) != 0),
            (a & (1u32 << 2) != 0) == (b & (1u32 << 2) != 0), (a & (1u32 << 3) != 0) == (b & (1u32 << 3) != 0),
            (a & (1u32 << 4) != 0) == (b & (1u32 << 4) != 0), (a & (1u32 << 5) != 0) == (b & (1u32 << 5) != 0),
            (a & (1u32 << 6) != 0) == (b & (1u32 << 6) != 0), (a & (1u32 << 7) != 0) == (b & (1u32 << 7) != 0),
            (a & (1u32 << 8) != 0) == (b & (1u32 << 8) != 0), (a & (1u32 << 9) != 0) == (b & (1u32 << 9) != 0),
            (a & (1u32 << 10) != 0) == (b & (1u32 << 10) != 0), (a & (1u32 << 11) != 0) == (b & (1u32 << 11) != 0),
            (a & (1u32 << 12) != 0) == (b & (1u32 << 12) != 0), (a & (1u32 << 13) != 0) == (b & (1u32 << 13) != 0),
            (a & (1u32 << 14) != 0) == (b & (1u32 << 14) != 0), (a & (1u32 << 15) != 0) == (b & (1u32 << 15) != 0),
            (a & (1u32 << 16) != 0) == (b & (1u32 << 16) != 0), (a & (1u32 << 17) != 0) == (b & (1u32 << 17) != 0),
            (a & (1u32 << 18) != 0) == (b & (1u32 << 18) != 0), (a & (1u32 << 19) != 0) == (b & (1u32 << 19) != 0),
            (a & (1u32 << 20) != 0) == (b & (1u32 << 20) != 0), (a & (1u32 << 21) != 0) == (b & (1u32 << 21) != 0),
            (a & (1u32 << 22) != 0) == (b & (1u32 << 22) != 0), (a & (1u32 << 23) != 0) == (b & (1u32 << 23) != 0),
            (a & (1u32 << 24) != 0) == (b & (1u32 << 24) != 0), (a & (1u32 << 25) != 0) == (b & (1u32 << 25) != 0),
            (a & (1u32 << 26) != 0) == (b & (1u32 << 26) != 0), (a & (1u32 << 27) != 0) == (b & (1u32 << 27) != 0),
            (a & (1u32 << 28) != 0) == (b & (1u32 << 28) != 0), (a & (1u32 << 29) != 0) == (b & (1u32 << 29) != 0),
            (a & (1u32 << 30) != 0) == (b & (1u32 << 30) != 0), (a & (1u32 << 31) != 0) == (b & (1u32 << 31) != 0),
    ;
}

/// No single square covers a whole mill: every mill has at least two bits.
pub proof fn lemma_mills_have_two_bits()
    ensures
        forall|k: u8| k < 16 ==> #[trigger] mill_mask(k) & ((mill_mask(k) - 1) as u32) != 0,
{
    assert(
        ((1u32 << 0) | (1u32 << 1) | (1u32 << 2)) & ((((1u32 << 0) | (1u32 << 1) | (1u32 << 2)) - 1) as u32) != 0 &&
        ((1u32 << 3) | (1u32 << 4) | (1u32 << 5)) & ((((1u32 << 3) | (1u32 << 4) | (1u32 << 5)) - 1) as u32) != 0 &&
        ((1u32 << 6) | (1u32 << 7) | (1u32 << 8)) & ((((1u32 << 6) | (1u32 << 7) | (1u32 << 8)) - 1) as u32) != 0 &&
        ((1u32 << 9) | (1u32 << 10) | (1u32 << 11)) & ((((1u32 << 9) | (1u32 << 10) | (1u32 << 11)) - 1) as u32) != 0 &&
        ((1u32 << 12) | (1u32 << 13) | (1u32 << 14)) & ((((1u32 << 12) | (1u32 << 13) | (1u32 << 14)) - 1) as u32) != 0 &&
        ((1u32 << 15) | (1u32 << 16) | (1u32 << 17)) & ((((1u32 << 15) | (1u32 << 16) | (1u32 << 17)) - 1) as u32) != 0 &&
        ((1u32 << 18) | (1u32 << 19) | (1u32 << 20)) & ((((1u32 << 18) | (1u32 << 19) | (1u32 << 20)) - 1) as u32) != 0 &&
        ((1u32 << 21) | (1u32 << 22) | (1u32 << 23)) & ((((1u32 << 21) | (1u32 << 22) | (1u32 << 23)) - 1) as u32) != 0 &&
        ((1u32 << 0) | (1u32 << 9) | (1u32 << 21)) & ((((1u32 << 0) | (1u32 << 9) | (1u32 << 21)) - 1) as u32) != 0 &&
        ((1u32 << 3) | (1u32 << 10) | (1u32 << 18)) & ((((1u32 << 3) | (1u32 << 10) | (1u32 << 18)) - 1) as u32) != 0 &&
        ((1u32 << 6) | (1u32 << 11) | (1u32 << 15)) & ((((1u32 << 6) | (1u32 << 11) | (1u32 << 15)) - 1) as u32) != 0 &&
        ((1u32 << 1) | (1u32 << 4) | (1u32 << 7)) & ((((1u32 << 1) | (1u32 << 4) | (1u32 << 7)) - 1) as u32) != 0 &&
        ((1u32 << 16) | (1u32 << 19) | (1u32 << 22)) & ((((1u32 << 16) | (1u32 << 19) | (1u32 << 22)) - 1) as u32) != 0 &&
        ((1u32 << 8) | (1u32 << 12) | (1u32 << 17)) & ((((1u32 << 8) | (1u32 << 12) | (1u32 << 17)) - 1) as u32) != 0 &&
        ((1u32 << 5) | (1u32 << 13) | (1u32 << 20)) & ((((1u32 << 5) | (1u32 << 13) | (1u32 << 20)) - 1) as u32) != 0 &&
        ((1u32 << 2) | (1u32 << 14) | (1u32 << 23)) & ((((1u32 << 2) | (1u32 << 14) | (1u32 << 23)) - 1) as u32) != 0
    ) by (bit_vector);
}

/// A set holding a single square never contains a mill.
pub proof fn lemma_single_square_no_mill(s: u8, k: u8)
    requires
        s < 32,
        k < 16,
    ensures
        (1u32 << s) & mill_mask(k) != mill_mask(k),
{
    lemma_mills_have_two_bits();
    let m = mill_mask(k);
    let ss = s as u32;
    assert((1u32 << ss) & m != m) by (bit_vector)
        requires
            ss < 32,
            m & ((m - 1) as u32) != 0,
    ;
}

/// Adding a square changes the count by one exactly when it was absent.
pub proof fn lemma_count_set(bb: u32, s: u32, n: nat)
    requires
        s < 32,
        n <= 32,
    ensures
        count_below(bb | (1u32 << s), n) == count_below(bb, n) + if s < n && !in_bb(bb, s) { 1nat } else { 0nat },
    decreases n,
{
    lemma_in_bb_set(bb, s);
    if n > 0 {
        lemma_count_set(bb, s, (n - 1) as nat);
    }
}

/// Removing a square changes the count by one exactly when it was present.
pub proof fn lemma_count_clear(bb: u32, s: u32, n: nat)
    requires
        s < 32,
        n <= 32,
    ensures
        count_below(bb & !(1u32 << s), n) + if s < n && in_bb(bb, s) { 1nat } else { 0nat } == count_below(bb, n),
    decreases n,
{
    lemma_in_bb_clear(bb, s);
    if n > 0 {
        lemma_count_clear(bb, s, (n - 1) as nat);
    }
}

/// A count never exceeds the number of squares looked at.
pub proof fn lemma_count_le(bb: u32, n: nat)
    ensures
        count_below(bb, n) <= n,
    decreases n,
{
    if n > 0 {
        lemma_count_le(bb, (n - 1) as nat);
    }
}

/// The two mills `square_mill_masks` gives for a point are exactly the
/// mills through it: two different mills of the table, and no other mill
/// of the table passes through the point.
pub proof fn lemma_square_mills_exact()
    ensures
        forall|sq: u8, k: u8| sq < 24 && k < 16 ==> (#[trigger] in_bb(mill_mask(k), sq as u32) <==> (square_mill_masks(
            sq,
        ).0 == mill_mask(k) || square_mill_masks(sq).1 == mill_mask(k))),
        forall|sq: u8| sq < 24 ==> in_bb(#[trigger] square_mill_masks(sq).0, sq as u32) && in_bb(
            square_mill_masks(sq).1,
            sq as u32,
        ),
        forall|sq: u8| #![trigger square_mill_ids(sq)] sq < 24 ==> square_mill_ids(sq).0 < 16 && square_mill_ids(sq).1 < 16
            && square_mill_ids(sq).0 != square_mill_ids(sq).1,
        forall|sq: u8, k: u8| sq < 24 && k < 16 ==> (#[trigger] in_bb(mill_mask(k), sq as u32) <==> (k
            == square_mill_ids(sq).0 || k == square_mill_ids(sq).1)),
{
    assert forall|s: u32| s < 32 implies
            (((1u32 << 0) | (1u32 << 1) | (1u32 << 2)) & (1u32 << s) != 0) == (s == 0 || s == 1 || s == 2) &&
            (((1u32 << 3) | (1u32 << 4) | (1u32 << 5)) & (1u32 << s) != 0) == (s == 3 || s == 4 || s == 5) &&
            (((1u32 << 6) | (1u32 << 7) | (1u32 << 8)) & (1u32 << s) != 0) == (s == 6 || s == 7 || s == 8) &&
            (((1u32 << 9) | (1u32 << 10) | (1u32 << 11)) & (1u32 << s) != 0) == (s == 9 || s == 10 || s == 11) &&
            (((1u32 << 12) | (1u32 << 13) | (1u32 << 14)) & (1u32 << s) != 0) == (s == 12 || s == 13 || s == 14) &&
            (((1u32 << 15) | (1u32 << 16) | (1u32 << 17)) & (1u32 << s) != 0) == (s == 15 || s == 16 || s == 17) &&
            (((1u32 << 18) | (1u32 << 19) | (1u32 << 20)) & (1u32 << s) != 0) == (s == 18 || s == 19 || s == 20) &&
            (((1u32 << 21) | (1u32 << 22) | (1u32 << 23)) & (1u32 << s) != 0) == (s == 21 || s == 22 || s == 23) &&
            (((1u32 << 0) | (1u32 << 9) | (1u32 << 21)) & (1u32 << s) != 0) == (s == 0 || s == 9 || s == 21) &&
            (((1u32 << 3) | (1u32 << 10) | (1u32 << 18)) & (1u32 << s) != 0) == (s == 3 || s == 10 || s == 18) &&
            (((1u32 << 6) | (1u32 << 11) | (1u32 << 15)) & (1u32 << s) != 0) == (s == 6 || s == 11 || s == 15) &&
            (((1u32 << 1) | (1u32 << 4) | (1u32 << 7)) & (1u32 << s) != 0) == (s == 1 || s == 4 || s == 7) &&
            (((1u32 << 16) | (1u32 << 19) | (1u32 << 22)) & (1u32 << s) != 0) == (s == 16 || s == 19 || s == 22) &&
            (((1u32 << 8) | (1u32 << 12) | (1u32 << 17)) & (1u32 << s) != 0) == (s == 8 || s == 12 || s == 17) &&
            (((1u32 << 5) | (1u32 << 13) | (1u32 << 20)) & (1u32 << s) != 0) == (s == 5 || s == 13 || s == 20) &&
            (((1u32 << 2) | (1u32 << 14) | (1u32 << 23)) & (1u32 << s) != 0) == (s == 2 || s == 14 || s == 23) by {
        assert(
            (((1u32 << 0) | (1u32 << 1) | (1u32 << 2)) & (1u32 << s) != 0) == (s == 0 || s == 1 || s == 2) &&
            (((1u32 << 3) | (1u32 << 4) | (1u32 << 5)) & (1u32 << s) != 0) == (s == 3 || s == 4 || s == 5) &&
            (((1u32 << 6) | (1u32 << 7) | (1u32 << 8)) & (1u32 << s) != 0) == (s == 6 || s == 7 || s == 8) &&
            (((1u32 << 9) | (1u32 << 10) | (1u32 << 11)) & (1u32 << s) != 0) == (s == 9 || s == 10 || s == 11) &&
            (((1u32 << 12) | (1u32 << 13) | (1u32 << 14)) & (1u32 << s) != 0) == (s == 12 || s == 13 || s == 14) &&
            (((1u32 << 15) | (1u32 << 16) | (1u32 << 17)) & (1u32 << s) != 0) == (s == 15 || s == 16 || s == 17) &&
            (((1u32 << 18) | (1u32 << 19) | (1u32 << 20)) & (1u32 << s) != 0) == (s == 18 || s == 19 || s == 20) &&
            (((1u32 << 21) | (1u32 << 22) | (1u32 << 23)) & (1u32 << s) != 0) == (s == 21 || s == 22 || s == 23) &&
            (((1u32 << 0) | (1u32 << 9) | (1u32 << 21)) & (1u32 << s) != 0) == (s == 0 || s == 9 || s == 21) &&
            (((1u32 << 3) | (1u32 << 10) | (1u32 << 18)) & (1u32 << s) != 0) == (s == 3 || s == 10 || s == 18) &&
            (((1u32 << 6) | (1u32 << 11) | (1u32 << 15)) & (1u32 << s) != 0) == (s == 6 || s == 11 || s == 15) &&
            (((1u32 << 1) | (1u32 << 4) | (1u32 << 7)) & (1u32 << s) != 0) == (s == 1 || s == 4 || s == 7) &&
            (((1u32 << 16) | (1u32 << 19) | (1u32 << 22)) & (1u32 << s) != 0) == (s == 16 || s == 19 || s == 22) &&
            (((1u32 << 8) | (1u32 << 12) | (1u32 << 17)) & (1u32 << s) != 0) == (s == 8 || s == 12 || s == 17) &&
            (((1u32 << 5) | (1u32 << 13) | (1u32 << 20)) & (1u32 << s) != 0) == (s == 5 || s == 13 || s == 20) &&
            (((1u32 << 2) | (1u32 << 14) | (1u32 << 23)) & (1u32 << s) != 0) == (s == 2 || s == 14 || s == 23)
        ) by (bit_vector)
            requires
                s < 32,
        ;
    }
}

/// The points of the `k`-th mill in order along its line: the middle point
/// second.
pub open spec fn mill_line(k: u8) -> (u8, u8, u8) {
    match k {
        0 => (0, 1, 2),
        1 => (3, 4, 5),
        2 => (6, 7, 8),
        3 => (9, 10, 11),
        4 => (12, 13, 14),
        5 => (15, 16, 17),
        6 => (18, 19, 20),
        7 => (21, 22, 23),
        8 => (0, 9, 21),
        9 => (3, 10, 18),
        10 => (6, 11, 15),
        11 => (1, 4, 7),
        12 => (16, 19, 22),
        13 => (8, 12, 17),
        14 => (5, 13, 20),
        15 => (2, 14, 23),
        _ => (24, 24, 24),
    }
}

/// The file (column A to G, from 0) of a point, as the board diagram names it.
pub open spec fn point_file(sq: u8) -> int {
    match sq {
        0 => 0, // A1
        1 => 3, // D1
        2 => 6, // G1
        3 => 1, // B2
        4 => 3, // D2
        5 => 5, // F2
        6 => 2, // C3
        7 => 3, // D3
        8 => 4, // E3
        9 => 0, // A4
        10 => 1, // B4
        11 => 2, // C4
        12 => 4, // E4
        13 => 5, // F4
        14 => 6, // G4
        15 => 2, // C5
        16 => 3, // D5
        17 => 4, // E5
        18 => 1, // B6
        19 => 3, // D6
        20 => 5, // F6
        21 => 0, // A7
        22 => 3, // D7
        23 => 6, // G7
        _ => 7,
    }
}

/// The rank (row 1 to 7, from 0) of a point, as the board diagram names it.
pub open spec fn point_rank(sq: u8) -> int {
    match sq {
        0 => 0,
        1 => 0,
        2 => 0,
        3 => 1,
        4 => 1,
        5 => 1,
        6 => 2,
        7 => 2,
        8 => 2,
        9 => 3,
        10 => 3,
        11 => 3,
        12 => 3,
        13 => 3,
        14 => 3,
        15 => 4,
        16 => 4,
        17 => 4,
        18 => 5,
        19 => 5,
        20 => 5,
        21 => 6,
        22 => 6,
        23 => 6,
        _ => 7,
    }
}

/// Two points are consecutive on the line of mill `k`: one of them is its
/// middle point and the other one of its ends.
pub open spec fn line_consecutive(k: u8, a: u8, b: u8) -> bool {
    let (p, q, r) = mill_line(k);
    (a == q && (b == p || b == r)) || (b == q && (a == p || a == r))
}

/// The mills' points are the points of their lines, and each line is
/// straight on the board with its middle point strictly between its ends;
/// no two points share a place on the board.
pub proof fn lemma_mill_lines()
    ensures
        forall|k: u8, s: u32| k < 16 && s < 32 ==> (#[trigger] in_bb(mill_mask(k), s) <==> (s == mill_line(k).0
            || s == mill_line(k).1 || s == mill_line(k).2)),
        forall|k: u8| #![trigger mill_line(k)] k < 16 ==> {
            let (p, q, r) = mill_line(k);
            &&& p < 24 && q < 24 && r < 24
            &&& (point_rank(p) == point_rank(q) == point_rank(r) && point_file(p) < point_file(q) < point_file(r))
                || (point_file(p) == point_file(q) == point_file(r) && point_rank(p) < point_rank(q) < point_rank(r))
        },
        forall|a: u8, b: u8| #![trigger point_file(a), point_file(b)] a < 24 && b < 24 && a != b ==> point_file(a)
            != point_file(b) || point_rank(a) != point_rank(b),
{
    assert forall|s: u32| s < 32 implies
            (((1u32 << 0) | (1u32 << 1) | (1u32 << 2)) & (1u32 << s) != 0) == (s == 0 || s == 1 || s == 2) &&
            (((1u32 << 3) | (1u32 << 4) | (1u32 << 5)) & (1u32 << s) != 0) == (s == 3 || s == 4 || s == 5) &&
            (((1u32 << 6) | (1u32 << 7) | (1u32 << 8)) & (1u32 << s) != 0) == (s == 6 || s == 7 || s == 8) &&
            (((1u32 << 9) | (1u32 << 10) | (1u32 << 11)) & (1u32 << s) != 0) == (s == 9 || s == 10 || s == 11) &&
            (((1u32 << 12) | (1u32 << 13) | (1u32 << 14)) & (1u32 << s) != 0) == (s == 12 || s == 13 || s == 14) &&
            (((1u32 << 15) | (1u32 << 16) | (1u32 << 17)) & (1u32 << s) != 0) == (s == 15 || s == 16 || s == 17) &&
            (((1u32 << 18) | (1u32 << 19) | (1u32 << 20)) & (1u32 << s) != 0) == (s == 18 || s == 19 || s == 20) &&
            (((1u32 << 21) | (1u32 << 22) | (1u32 << 23)) & (1u32 << s) != 0) == (s == 21 || s == 22 || s == 23) &&
            (((1u32 << 0) | (1u32 << 9) | (1u32 << 21)) & (1u32 << s) != 0) == (s == 0 || s == 9 || s == 21) &&
            (((1u32 << 3) | (1u32 << 10) | (1u32 << 18)) & (1u32 << s) != 0) == (s == 3 || s == 10 || s == 18) &&
            (((1u32 << 6) | (1u32 << 11) | (1u32 << 15)) & (1u32 << s) != 0) == (s == 6 || s == 11 || s == 15) &&
            (((1u32 << 1) | (1u32 << 4) | (1u32 << 7)) & (1u32 << s) != 0) == (s == 1 || s == 4 || s == 7) &&
            (((1u32 << 16) | (1u32 << 19) | (1u32 << 22)) & (1u32 << s) != 0) == (s == 16 || s == 19 || s == 22) &&
            (((1u32 << 8) | (1u32 << 12) | (1u32 << 17)) & (1u32 << s) != 0) == (s == 8 || s == 12 || s == 17) &&
            (((1u32 << 5) | (1u32 << 13) | (1u32 << 20)) & (1u32 << s) != 0) == (s == 5 || s == 13 || s == 20) &&
            (((1u32 << 2) | (1u32 << 14) | (1u32 << 23)) & (1u32 << s) != 0) == (s == 2 || s == 14 || s == 23) by {
        assert(
            (((1u32 << 0) | (1u32 << 1) | (1u32 << 2)) & (1u32 << s) != 0) == (s == 0 || s == 1 || s == 2) &&
            (((1u32 << 3) | (1u32 << 4) | (1u32 << 5)) & (1u32 << s) != 0) == (s == 3 || s == 4 || s == 5) &&
            (((1u32 << 6) | (1u32 << 7) | (1u32 << 8)) & (1u32 << s) != 0) == (s == 6 || s == 7 || s == 8) &&
            (((1u32 << 9) | (1u32 << 10) | (1u32 << 11)) & (1u32 << s) != 0) == (s == 9 || s == 10 || s == 11) &&
            (((1u32 << 12) | (1u32 << 13) | (1u32 << 14)) & (1u32 << s) != 0) == (s == 12 || s == 13 || s == 14) &&
            (((1u32 << 15) | (1u32 << 16) | (1u32 << 17)) & (1u32 << s) != 0) == (s == 15 || s == 16 || s == 17) &&
            (((1u32 << 18) | (1u32 << 19) | (1u32 << 20)) & (1u32 << s) != 0) == (s == 18 || s == 19 || s == 20) &&
            (((1u32 << 21) | (1u32 << 22) | (1u32 << 23)) & (1u32 << s) != 0) == (s == 21 || s == 22 || s == 23) &&
            (((1u32 << 0) | (1u32 << 9) | (1u32 << 21)) & (1u32 << s) != 0) == (s == 0 || s == 9 || s == 21) &&
            (((1u32 << 3) | (1u32 << 10) | (1u32 << 18)) & (1u32 << s) != 0) == (s == 3 || s == 10 || s == 18) &&
            (((1u32 << 6) | (1u32 << 11) | (1u32 << 15)) & (1u32 << s) != 0) == (s == 6 || s == 11 || s == 15) &&
            (((1u32 << 1) | (1u32 << 4) | (1u32 << 7)) & (1u32 << s) != 0) == (s == 1 || s == 4 || s == 7) &&
            (((1u32 << 16) | (1u32 << 19) | (1u32 << 22)) & (1u32 << s) != 0) == (s == 16 || s == 19 || s == 22) &&
            (((1u32 << 8) | (1u32 << 12) | (1u32 << 17)) & (1u32 << s) != 0) == (s == 8 || s == 12 || s == 17) &&
            (((1u32 << 5) | (1u32 << 13) | (1u32 << 20)) & (1u32 << s) != 0) == (s == 5 || s == 13 || s == 20) &&
            (((1u32 << 2) | (1u32 << 14) | (1u32 << 23)) & (1u32 << s) != 0) == (s == 2 || s == 14 || s == 23)
        ) by (bit_vector)
            requires
                s < 32,
        ;
    }
}

/// Slides follow exactly the board's lines: two points are adjacent
/// exactly when they are consecutive on the line of some mill, and
/// adjacency is symmetric.
pub proof fn lemma_adjacency_follows_lines()
    ensures
        forall|a: u8, b: u8| a < 24 && b < 24 ==> (#[trigger] in_bb(adjacency(a), b as u32) <==> exists|k: u8|
            k < 16 && #[trigger] line_consecutive(k, a, b)),
        forall|a: u8, b: u8| a < 24 && b < 24 ==> (#[trigger] in_bb(adjacency(a), b as u32) <==> in_bb(
            adjacency(b),
            a as u32,
        )),
{
    lemma_mill_lines();
    lemma_square_mills_exact();
    assert forall|s: u32| #![trigger (1u32 << s)] s < 32 implies
            (((1u32 << 1) | (1u32 << 9)) & (1u32 << s) != 0) == (s == 1 || s == 9) &&
            (((1u32 << 0) | (1u32 << 2) | (1u32 << 4)) & (1u32 << s) != 0) == (s == 0 || s == 2 || s == 4) &&
            (((1u32 << 1) | (1u32 << 14)) & (1u32 << s) != 0) == (s == 1 || s == 14) &&
            (((1u32 << 4) | (1u32 << 10)) & (1u32 << s) != 0) == (s == 4 || s == 10) &&
            (((1u32 << 1) | (1u32 << 3) | (1u32 << 5) | (1u32 << 7)) & (1u32 << s) != 0) == (s == 1 || s == 3 || s == 5 || s == 7) &&
            (((1u32 << 4) | (1u32 << 13)) & (1u32 << s) != 0) == (s == 4 || s == 13) &&
            (((1u32 << 7) | (1u32 << 11)) & (1u32 << s) != 0) == (s == 7 || s == 11) &&
            (((1u32 << 4) | (1u32 << 6) | (1u32 << 8)) & (1u32 << s) != 0) == (s == 4 || s == 6 || s == 8) &&
            (((1u32 << 7) | (1u32 << 12)) & (1u32 << s) != 0) == (s == 7 || s == 12) &&
            (((1u32 << 0) | (1u32 << 10) | (1u32 << 21)) & (1u32 << s) != 0) == (s == 0 || s == 10 || s == 21) &&
            (((1u32 << 3) | (1u32 << 9) | (1u32 << 11) | (1u32 << 18)) & (1u32 << s) != 0) == (s == 3 || s == 9 || s == 11 || s == 18) &&
            (((1u32 << 6) | (1u32 << 10) | (1u32 << 15)) & (1u32 << s) != 0) == (s == 6 || s == 10 || s == 15) &&
            (((1u32 << 8) | (1u32 << 13) | (1u32 << 17)) & (1u32 << s) != 0) == (s == 8 || s == 13 || s == 17) &&
            (((1u32 << 5) | (1u32 << 12) | (1u32 << 14) | (1u32 << 20)) & (1u32 << s) != 0) == (s == 5 || s == 12 || s == 14 || s == 20) &&
            (((1u32 << 2) | (1u32 << 13) | (1u32 << 23)) & (1u32 << s) != 0) == (s == 2 || s == 13 || s == 23) &&
            (((1u32 << 11) | (1u32 << 16)) & (1u32 << s) != 0) == (s == 11 || s == 16) &&
            (((1u32 << 15) | (1u32 << 17) | (1u32 << 19)) & (1u32 << s) != 0) == (s == 15 || s == 17 || s == 19) &&
            (((1u32 << 12) | (1u32 << 16)) & (1u32 << s) != 0) == (s == 12 || s == 16) &&
            (((1u32 << 10) | (1u32 << 19)) & (1u32 << s) != 0) == (s == 10 || s == 19) &&
            (((1u32 << 16) | (1u32 << 18) | (1u32 << 20) | (1u32 << 22)) & (1u32 << s) != 0) == (s == 16 || s == 18 || s == 20 || s == 22) &&
            (((1u32 << 13) | (1u32 << 19)) & (1u32 << s) != 0) == (s == 13 || s == 19) &&
            (((1u32 << 9) | (1u32 << 22)) & (1u32 << s) != 0) == (s == 9 || s == 22) &&
            (((1u32 << 19) | (1u32 << 21) | (1u32 << 23)) & (1u32 << s) != 0) == (s == 19 || s == 21 || s == 23) &&
            (((1u32 << 14) | (1u32 << 22)) & (1u32 << s) != 0) == (s == 14 || s == 22) by {
        assert(
            (((1u32 << 1) | (1u32 << 9)) & (1u32 << s) != 0) == (s == 1 || s == 9) &&
            (((1u32 << 0) | (1u32 << 2) | (1u32 << 4)) & (1u32 << s) != 0) == (s == 0 || s == 2 || s == 4) &&
            (((1u32 << 1) | (1u32 << 14)) & (1u32 << s) != 0) == (s == 1 || s == 14) &&
            (((1u32 << 4) | (1u32 << 10)) & (1u32 << s) != 0) == (s == 4 || s == 10) &&
            (((1u32 << 1) | (1u32 << 3) | (1u32 << 5) | (1u32 << 7)) & (1u32 << s) != 0) == (s == 1 || s == 3 || s == 5 || s == 7) &&
            (((1u32 << 4) | (1u32 << 13)) & (1u32 << s) != 0) == (s == 4 || s == 13) &&
            (((1u32 << 7) | (1u32 << 11)) & (1u32 << s) != 0) == (s == 7 || s == 11) &&
            (((1u32 << 4) | (1u32 << 6) | (1u32 << 8)) & (1u32 << s) != 0) == (s == 4 || s == 6 || s == 8) &&
            (((1u32 << 7) | (1u32 << 12)) & (1u32 << s) != 0) == (s == 7 || s == 12) &&
            (((1u32 << 0) | (1u32 << 10) | (1u32 << 21)) & (1u32 << s) != 0) == (s == 0 || s == 10 || s == 21) &&
            (((1u32 << 3) | (1u32 << 9) | (1u32 << 11) | (1u32 << 18)) & (1u32 << s) != 0) == (s == 3 || s == 9 || s == 11 || s == 18) &&
            (((1u32 << 6) | (1u32 << 10) | (1u32 << 15)) & (1u32 << s) != 0) == (s == 6 || s == 10 || s == 15) &&
            (((1u32 << 8) | (1u32 << 13) | (1u32 << 17)) & (1u32 << s) != 0) == (s == 8 || s == 13 || s == 17) &&
            (((1u32 << 5) | (1u32 << 12) | (1u32 << 14) | (1u32 << 20)) & (1u32 << s) != 0) == (s == 5 || s == 12 || s == 14 || s == 20) &&
            (((1u32 << 2) | (1u32 << 13) | (1u32 << 23)) & (1u32 << s) != 0) == (s == 2 || s == 13 || s == 23) &&
            (((1u32 << 11) | (1u32 << 16)) & (1u32 << s) != 0) == (s == 11 || s == 16) &&
            (((1u32 << 15) | (1u32 << 17) | (1u32 << 19)) & (1u32 << s) != 0) == (s == 15 || s == 17 || s == 19) &&
            (((1u32 << 12) | (1u32 << 16)) & (1u32 << s) != 0) == (s == 12 || s == 16) &&
            (((1u32 << 10) | (1u32 << 19)) & (1u32 << s) != 0) == (s == 10 || s == 19) &&
            (((1u32 << 16) | (1u32 << 18) | (1u32 << 20) | (1u32 << 22)) & (1u32 << s) != 0) == (s == 16 || s == 18 || s == 20 || s == 22) &&
            (((1u32 << 13) | (1u32 << 19)) & (1u32 << s) != 0) == (s == 13 || s == 19) &&
            (((1u32 << 9) | (1u32 << 22)) & (1u32 << s) != 0) == (s == 9 || s == 22) &&
            (((1u32 << 19) | (1u32 << 21) | (1u32 << 23)) & (1u32 << s) != 0) == (s == 19 || s == 21 || s == 23) &&
            (((1u32 << 14) | (1u32 << 22)) & (1u32 << s) != 0) == (s == 14 || s == 22)
        ) by (bit_vector)
            requires
                s < 32,
        ;
    }
    assert forall|a: u8, b: u8| a < 24 && b < 24 implies (#[trigger] in_bb(adjacency(a), b as u32) <==> (
    line_consecutive(square_mill_ids(a).0, a, b) || line_consecutive(square_mill_ids(a).1, a, b))) by {}
    assert forall|a: u8, b: u8, k: u8| a < 24 && b < 24 && k < 16 && #[trigger] line_consecutive(k, a, b) implies k
        == square_mill_ids(a).0 || k == square_mill_ids(a).1 by {
        assert(in_bb(mill_mask(k), a as u32));
    }
    assert forall|a: u8, b: u8| a < 24 && b < 24 implies (#[trigger] in_bb(adjacency(a), b as u32) <==> exists|k: u8|
        k < 16 && #[trigger] line_consecutive(k, a, b)) by {
        if in_bb(adjacency(a), b as u32) {
            if line_consecutive(square_mill_ids(a).0, a, b) {
                assert(square_mill_ids(a).0 < 16);
            } else {
                assert(square_mill_ids(a).1 < 16);
            }
        }
    }
    assert forall|a: u8, b: u8| a < 24 && b < 24 implies (#[trigger] in_bb(adjacency(a), b as u32) <==> in_bb(
        adjacency(b),
        a as u32,
    )) by {
        if in_bb(adjacency(a), b as u32) {
            let k = choose|k: u8| k < 16 && #[trigger] line_consecutive(k, a, b);
            assert(line_consecutive(k, b, a));
        }
        if in_bb(adjacency(b), a as u32) {
            let k = choose|k: u8| k < 16 && #[trigger] line_consecutive(k, b, a);
            assert(line_consecutive(k, a, b));
        }
    }
}

} // verus!
