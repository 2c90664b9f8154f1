use vstd::prelude::*;
use crate::board::{BOARD_MASK, in_bb, is_bb, lemma_in_bb_set, lemma_in_bb_clear};
use crate::position::{CurrentGameState, StateView};
use crate::types::{Color, Square};

verus! {

// Zobrist hashing: XOR together one pseudo-random 64-bit number per
// independent "fact" that is true about a position, so equal positions
// always collapse to the same key and (with overwhelming probability)
// different ones don't. This is what a search transposition table indexes on.
//
// Unlike chess, the board bitboards alone are not enough facts: two
// positions can have identical bitboards but different hand counts, and
// that difference changes the phase and therefore which moves are legal.
// So the hand count of each side is hashed too.
//
// The draw clock is deliberately excluded — it changes almost every ply,
// so hashing it would defeat transposition sharing entirely.

/// Increment of the splitmix64 state.
pub const SPLITMIX_GAMMA: u64 = 0x9E3779B97F4A7C15;

/// Seed of the key stream (first digits of e and pi, interleaved).
pub const ZOBRIST_SEED: u64 = 0x2718281828459045u64 ^ 0x3141592653589793u64;

/// One splitmix64 step: the next state and the output drawn from it.
pub open spec fn splitmix_step(seed: u64) -> (u64, u64) {
    let seed = seed.wrapping_add(SPLITMIX_GAMMA);
    let z = (seed ^ (seed >> 30)).wrapping_mul(0xBF58476D1CE4E5B9);
    let z = (z ^ (z >> 27)).wrapping_mul(0x94D049BB133111EB);
    (seed, z ^ (z >> 31))
}

/// The generator state after `n` draws from the key stream.
pub open spec fn stream_state(n: nat) -> u64
    decreases n,
{
    if n == 0 {
        ZOBRIST_SEED
    } else {
        splitmix_step(stream_state((n - 1) as nat)).0
    }
}

/// The `n`-th key of the stream (counting from 0).
pub open spec fn stream_key(n: nat) -> u64 {
    splitmix_step(stream_state(n)).1
}

/// Table row of a color.
pub open spec fn color_row(c: Color) -> nat {
    match c {
        Color::White => 0,
        Color::Black => 1,
    }
}

/// Key for "`c` occupies square `sq`".
pub open spec fn piece_key(c: Color, sq: nat) -> u64 {
    stream_key(color_row(c) * 24 + sq)
}

/// Key for "`c` has `count` pieces in hand" (0..=9).
pub open spec fn hand_key(c: Color, count: nat) -> u64 {
    stream_key(48 + color_row(c) * 10 + count)
}

/// Key XOR'd in whenever Black is to move.
pub open spec fn black_to_move_key() -> u64 {
    stream_key(68)
}

/// `h` with the keys of `c`'s pieces below square `n` XOR'd in, lowest first.
pub open spec fn xor_pieces(h: u64, c: Color, bb: u32, n: nat) -> u64
    decreases n,
{
    if n == 0 {
        h
    } else {
        let prev = xor_pieces(h, c, bb, (n - 1) as nat);
        if in_bb(bb, (n - 1) as u32) {
            prev ^ piece_key(c, (n - 1) as nat)
        } else {
            prev
        }
    }
}

/// `h` with everything about `c` XOR'd in: its pieces, then its hand count.
pub open spec fn xor_side(h: u64, v: StateView, c: Color) -> u64 {
    xor_pieces(h, c, v.pieces(c), 24) ^ hand_key(c, v.hand(c) as nat)
}

/// The Zobrist hash of a position.
pub open spec fn zobrist_of(v: StateView) -> u64 {
    let h = xor_side(xor_side(0, v, Color::White), v, Color::Black);
    if v.turn == Color::Black {
        h ^ black_to_move_key()
    } else {
        h
    }
}

/// The key tables cover the position: pieces only on board points and at
/// most nine pieces in each hand.
pub open spec fn hashable(v: StateView) -> bool {
    &&& v.white & !BOARD_MASK == 0
    &&& v.black & !BOARD_MASK == 0
    &&& v.white_hand <= 9
    &&& v.black_hand <= 9
}

fn color_index(color: Color) -> (r: usize)
    ensures
        r == color_row(color),
{
    match color {
        Color::White => 0,
        Color::Black => 1,
    }
}

/// splitmix64: a small, fast, well-distributed generator, used only to
/// fill the key tables. Deterministic seed -> deterministic tables ->
/// reproducible hashes across builds and runs.
pub fn splitmix64(seed: u64) -> (r: (u64, u64))
    ensures
        r == splitmix_step(seed),
{
    let seed = seed.wrapping_add(SPLITMIX_GAMMA);
    let mut z = seed;
    z = (z ^ (z >> 30)).wrapping_mul(0xBF58476D1CE4E5B9);
    z = (z ^ (z >> 27)).wrapping_mul(0x94D049BB133111EB);
    (seed, z ^ (z >> 31))
}

/// The key tables.
pub struct ZobristTables {
    /// [color * 24 + square] -> key for "this color occupies this square"
    pub piece: Vec<u64>,
    /// [color * 10 + count] -> key for "this color has `count` pieces in hand"
    pub unplaced: Vec<u64>,
    /// XOR'd in whenever Black is to move
    pub side_to_move: u64,
}

impl ZobristTables {
    /// The tables hold the keys of the stream, in table order.
    pub open spec fn filled(&self) -> bool {
        &&& self.piece@.len() == 48
        &&& self.unplaced@.len() == 20
        &&& forall|i: int| 0 <= i < 48 ==> #[trigger] self.piece@[i] == stream_key(i as nat)
        &&& forall|i: int| 0 <= i < 20 ==> #[trigger] self.unplaced@[i] == stream_key((48 + i) as nat)
        &&& self.side_to_move == black_to_move_key()
    }
}

/// Draws the key tables from the splitmix64 stream: the piece keys of
/// both colors, then the hand-count keys, then the side-to-move key.
pub fn build_tables() -> (r: ZobristTables)
    ensures
        r.filled(),
{
    let mut seed: u64 = ZOBRIST_SEED;
    let ghost drawn: nat = 0;

    let mut piece: Vec<u64> = Vec::new();
    let mut color: usize = 0;
    while color < 2
        invariant
            color <= 2,
            piece@.len() == color * 24,
            drawn == color * 24,
            seed == stream_state(drawn),
            forall|i: int| 0 <= i < piece@.len() ==> #[trigger] piece@[i] == stream_key(i as nat),
        decreases 2 - color,
    {
        let mut sq: usize = 0;
        while sq < 24
            invariant
                color < 2,
                sq <= 24,
                piece@.len() == color * 24 + sq,
                drawn == piece@.len(),
                seed == stream_state(drawn),
                forall|i: int| 0 <= i < piece@.len() ==> #[trigger] piece@[i] == stream_key(i as nat),
            decreases 24 - sq,
        {
            let (next_seed, value) = splitmix64(seed);
            seed = next_seed;
            piece.push(value);
            proof {
                drawn = drawn + 1;
            }
            sq = sq + 1;
        }
        color = color + 1;
    }

    let mut unplaced: Vec<u64> = Vec::new();
    let mut color: usize = 0;
    while color < 2
        invariant
            color <= 2,
            unplaced@.len() == color * 10,
            drawn == 48 + color * 10,
            seed == stream_state(drawn),
            forall|i: int| 0 <= i < unplaced@.len() ==> #[trigger] unplaced@[i] == stream_key((48 + i) as nat),
        decreases 2 - color,
    {
        let mut n: usize = 0;
        while n < 10
            invariant
                color < 2,
                n <= 10,
                unplaced@.len() == color * 10 + n,
                drawn == 48 + unplaced@.len(),
                seed == stream_state(drawn),
                forall|i: int| 0 <= i < unplaced@.len() ==> #[trigger] unplaced@[i] == stream_key((48 + i) as nat),
            decreases 10 - n,
        {
            let (next_seed, value) = splitmix64(seed);
            seed = next_seed;
            unplaced.push(value);
            proof {
                drawn = drawn + 1;
            }
            n = n + 1;
        }
        color = color + 1;
    }

    let (_, side_to_move) = splitmix64(seed);
    ZobristTables { piece, unplaced, side_to_move }
}

impl CurrentGameState {
    /// Full-recompute Zobrist hash of this position: the keys of both
    /// sides' pieces and hand counts, and of the side to move. The draw
    /// clock is not part of it.
    pub fn zobrist(&self) -> (r: u64)
        requires
            hashable(self@),
        ensures
            r == zobrist_of(self@),
    {
        let tables = build_tables();
        self.zobrist_with(&tables)
    }

    /// The Zobrist hash of this position, from key tables built once by
    /// the caller (a search hashes every node with the same tables).
    pub fn zobrist_with(&self, tables: &ZobristTables) -> (r: u64)
        requires
            hashable(self@),
            tables.filled(),
        ensures
            r == zobrist_of(self@),
    {
        let mut hash: u64 = 0;

        let mut k: usize = 0;
        while k < 2
            invariant
                k <= 2,
                hashable(self@),
                tables.filled(),
                hash == (if k == 0 { 0 } else if k == 1 { xor_side(0, self@, Color::White) } else {
                    xor_side(xor_side(0, self@, Color::White), self@, Color::Black)
                }),
            decreases 2 - k,
        {
            let color = if k == 0 { Color::White } else { Color::Black };
            let idx = color_index(color);
            let remaining = self.pieces(color);
            let ghost start = hash;
            let mut sq: u8 = 0;
            while sq < 24
                invariant
                    sq <= 24,
                    idx == color_row(color),
                    remaining == self@.pieces(color),
                    tables.filled(),
                    hash == xor_pieces(start, color, remaining, sq as nat),
                decreases 24 - sq,
            {
                if is_bb(remaining, Square(sq)) {
                    hash = hash ^ tables.piece[idx * 24 + sq as usize];
                }
                sq = sq + 1;
            }
            let hand = self.pieces_in_hand(color);
            hash = hash ^ tables.unplaced[idx * 10 + hand as usize];
            k = k + 1;
        }

        if self.side_to_move() == Color::Black {
            hash = hash ^ tables.side_to_move;
        }

        hash
    }
}

/// Equal positions hash equal, whatever their draw clocks: the hash only
/// depends on the bitboards, the hand counts and the side to move.
pub proof fn lemma_zobrist_ignores_clock(a: StateView, b: StateView)
    requires
        a.white == b.white,
        a.black == b.black,
        a.white_hand == b.white_hand,
        a.black_hand == b.black_hand,
        a.turn == b.turn,
    ensures
        zobrist_of(a) == zobrist_of(b),
{
}

/// XOR can be regrouped: a key XOR'd in earlier or later gives the same hash.
proof fn lemma_xor_swap(a: u64, b: u64, c: u64)
    ensures
        (a ^ b) ^ c == (a ^ c) ^ b,
        a ^ 0 == a,
{
    assert((a ^ b) ^ c == (a ^ c) ^ b && a ^ 0 == a) by (bit_vector);
}

/// Starting the piece scan from `h ^ k` ends `k` away from starting at `h`.
proof fn lemma_xor_pieces_start(h: u64, k: u64, c: Color, bb: u32, n: nat)
    ensures
        xor_pieces(h ^ k, c, bb, n) == xor_pieces(h, c, bb, n) ^ k,
    decreases n,
{
    if n > 0 {
        lemma_xor_pieces_start(h, k, c, bb, (n - 1) as nat);
        lemma_xor_swap(xor_pieces(h, c, bb, (n - 1) as nat), k, piece_key(c, (n - 1) as nat));
    }
}

/// One more piece on a point below `n` XORs in exactly that point's key.
proof fn lemma_xor_pieces_add(h: u64, c: Color, bb: u32, sq: u32, n: nat)
    requires
        sq < 32,
        n <= 32,
        !in_bb(bb, sq),
    ensures
        xor_pieces(h, c, bb | (1u32 << sq), n) == if sq < n {
            xor_pieces(h, c, bb, n) ^ piece_key(c, sq as nat)
        } else {
            xor_pieces(h, c, bb, n)
        },
    decreases n,
{
    lemma_in_bb_set(bb, sq);
    if n > 0 {
        lemma_xor_pieces_add(h, c, bb, sq, (n - 1) as nat);
        let i = (n - 1) as u32;
        let prev = xor_pieces(h, c, bb, (n - 1) as nat);
        lemma_xor_swap(prev, piece_key(c, sq as nat), piece_key(c, (n - 1) as nat));
        lemma_xor_swap(prev, 0, 0);
    }
}

/// `v` with one more piece of `c`, on `sq`.
pub open spec fn with_piece_on(v: StateView, c: Color, sq: u8) -> StateView {
    match c {
        Color::White => StateView { white: v.white | (1u32 << sq), ..v },
        Color::Black => StateView { black: v.black | (1u32 << sq), ..v },
    }
}

/// Every piece counts in the hash, whichever its colour: putting one more
/// piece of `c` on a point XORs exactly that point's key for `c` into the
/// hash, and nothing else changes it.
pub proof fn lemma_zobrist_piece_added(v: StateView, c: Color, sq: u8)
    requires
        sq < 24,
        !in_bb(v.pieces(c), sq as u32),
    ensures
        zobrist_of(with_piece_on(v, c, sq)) == zobrist_of(v) ^ piece_key(c, sq as nat),
{
    let w = with_piece_on(v, c, sq);
    let key = piece_key(c, sq as nat);
    let wk = hand_key(Color::White, v.hand(Color::White) as nat);
    let bk = hand_key(Color::Black, v.hand(Color::Black) as nat);
    lemma_xor_pieces_add(0, c, v.pieces(c), sq as u32, 24);
    let pw = xor_pieces(0, Color::White, v.white, 24);
    let h1 = xor_side(0, v, Color::White);
    let h2 = xor_side(h1, v, Color::Black);
    if c == Color::White {
        assert(w.pieces(Color::White) == v.white | (1u32 << sq));
        lemma_xor_swap(pw, key, wk);
        assert(xor_side(0, w, Color::White) == h1 ^ key);
        lemma_xor_pieces_start(h1, key, Color::Black, v.black, 24);
        let pb = xor_pieces(h1, Color::Black, v.black, 24);
        lemma_xor_swap(pb, key, bk);
        assert(xor_side(h1 ^ key, w, Color::Black) == h2 ^ key);
    } else {
        assert(w.pieces(Color::Black) == v.black | (1u32 << sq));
        lemma_xor_pieces_add(h1, c, v.pieces(c), sq as u32, 24);
        let pb = xor_pieces(h1, Color::Black, v.black, 24);
        lemma_xor_swap(pb, key, bk);
        assert(xor_side(0, w, Color::White) == h1);
        assert(xor_side(h1, w, Color::Black) == h2 ^ key);
    }
    lemma_xor_swap(h2, key, black_to_move_key());
}

/// Moving a piece of `c` from one point to an empty one changes the hash
/// by exactly the two points' keys for `c`.
pub proof fn lemma_zobrist_piece_moved(v: StateView, c: Color, from: u8, to: u8)
    requires
        from < 24,
        to < 24,
        from != to,
        in_bb(v.pieces(c), from as u32),
        !in_bb(v.pieces(c), to as u32),
    ensures
        zobrist_of(with_piece_on(without_piece_on(v, c, from), c, to)) == zobrist_of(v) ^ piece_key(c, from as nat)
            ^ piece_key(c, to as nat),
{
    let u = without_piece_on(v, c, from);
    let bb = v.pieces(c);
    lemma_in_bb_clear(bb, from as u32);
    let f = from as u32;
    assert((bb & !(1u32 << f)) | (1u32 << f) == bb) by (bit_vector)
        requires
            bb & (1u32 << f) != 0,
    ;
    assert(with_piece_on(u, c, from) == v);
    lemma_zobrist_piece_added(u, c, from);
    lemma_zobrist_piece_added(u, c, to);
    let zu = zobrist_of(u);
    let kf = piece_key(c, from as nat);
    let kt = piece_key(c, to as nat);
    assert(((zu ^ kf) ^ kf) ^ kt == zu ^ kt) by (bit_vector);
}

/// `v` without `c`'s piece on `sq`.
pub open spec fn without_piece_on(v: StateView, c: Color, sq: u8) -> StateView {
    match c {
        Color::White => StateView { white: v.white & !(1u32 << sq), ..v },
        Color::Black => StateView { black: v.black & !(1u32 << sq), ..v },
    }
}

proof fn lemma_xor_pieces_empty(h: u64, c: Color, n: nat)
    requires
        n <= 32,
    ensures
        xor_pieces(h, c, 0, n) == h,
    decreases n,
{
    crate::board::lemma_in_bb_zero();
    if n > 0 {
        lemma_xor_pieces_empty(h, c, (n - 1) as nat);
    }
}

/// On an empty board the hash is the two hand-count keys, and the
/// side-to-move key when Black is to move.
pub proof fn lemma_zobrist_empty_board(v: StateView)
    requires
        v.white == 0,
        v.black == 0,
    ensures
        zobrist_of(v) == if v.turn == Color::Black {
            hand_key(Color::White, v.white_hand as nat) ^ hand_key(Color::Black, v.black_hand as nat)
                ^ black_to_move_key()
        } else {
            hand_key(Color::White, v.white_hand as nat) ^ hand_key(Color::Black, v.black_hand as nat)
        },
{
    lemma_xor_pieces_empty(0, Color::White, 24);
    let h1 = xor_side(0, v, Color::White);
    lemma_xor_pieces_empty(h1, Color::Black, 24);
    let wk = hand_key(Color::White, v.white_hand as nat);
    assert(0u64 ^ wk == wk) by (bit_vector);
}

/// Handing the move to the other side XORs the side-to-move key in or out.
pub proof fn lemma_zobrist_turn(v: StateView)
    ensures
        zobrist_of(StateView { turn: crate::types::opponent_of(v.turn), ..v }) == zobrist_of(v) ^ black_to_move_key(),
{
    let h = xor_side(xor_side(0, v, Color::White), v, Color::Black);
    let k = black_to_move_key();
    assert((h ^ k) ^ k == h && h ^ 0 == h) by (bit_vector);
}

/// Changing a side's hand count swaps the old count's key for the new one's.
pub proof fn lemma_zobrist_hand(v: StateView, c: Color, n: u8)
    ensures
        zobrist_of(match c {
            Color::White => StateView { white_hand: n, ..v },
            Color::Black => StateView { black_hand: n, ..v },
        }) == zobrist_of(v) ^ hand_key(c, v.hand(c) as nat) ^ hand_key(c, n as nat),
{
    let w = match c {
        Color::White => StateView { white_hand: n, ..v },
        Color::Black => StateView { black_hand: n, ..v },
    };
    let ko = hand_key(c, v.hand(c) as nat);
    let kn = hand_key(c, n as nat);
    let pw = xor_pieces(0, Color::White, v.white, 24);
    let wk = hand_key(Color::White, v.white_hand as nat);
    let bk = hand_key(Color::Black, v.black_hand as nat);
    let t = black_to_move_key();
    if c == Color::White {
        let h1 = pw ^ wk;
        let d = ko ^ kn;
        lemma_xor_pieces_start(h1, d, Color::Black, v.black, 24);
        assert(pw ^ kn == h1 ^ d) by (bit_vector)
            requires
                h1 == pw ^ wk,
                d == wk ^ kn,
        ;
        let pb = xor_pieces(h1, Color::Black, v.black, 24);
        assert(((pb ^ d) ^ bk) == ((pb ^ bk) ^ d) && (((pb ^ d) ^ bk) ^ t) == (((pb ^ bk) ^ t) ^ d) && (((pb ^ bk)
            ^ d) == ((pb ^ bk) ^ ko) ^ kn) && ((((pb ^ bk) ^ t) ^ d) == (((pb ^ bk) ^ t) ^ ko) ^ kn)) by (bit_vector)
            requires
                d == ko ^ kn,
        ;
    } else {
        let h1 = pw ^ wk;
        let pb = xor_pieces(h1, Color::Black, v.black, 24);
        assert((pb ^ kn) == ((pb ^ ko) ^ ko) ^ kn && ((pb ^ kn) ^ t) == (((pb ^ ko) ^ t) ^ ko) ^ kn) by (bit_vector);
    }
}

} // verus!
