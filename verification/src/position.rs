use vstd::prelude::*;
use crate::board::{
    BitBoard, BOARD_MASK, in_bb, bit_count, count_below, popcount, is_bb, clear, lemma_in_bb_or,
    lemma_in_bb_and, lemma_in_bb_not, lemma_in_bb_board_mask, lemma_in_bb_zero,
};
use crate::types::{Color, Square};

verus! {

/// Number of plies without a capture after which the game is drawn, for a
/// game started with `CurrentGameState::new`.
pub const DEFAULT_DRAW_PLY_LIMIT: u16 = 100;

/// Every fact a position holds, as plain values.
pub struct StateView {
    pub white: u32,
    pub black: u32,
    pub white_hand: u8,
    pub black_hand: u8,
    pub turn: Color,
    pub plies: u16,
    pub ply_limit: u16,
}

impl StateView {
    /// Squares occupied by `c`.
    pub open spec fn pieces(self, c: Color) -> u32 {
        match c {
            Color::White => self.white,
            Color::Black => self.black,
        }
    }

    /// Pieces `c` still has to place.
    pub open spec fn hand(self, c: Color) -> u8 {
        match c {
            Color::White => self.white_hand,
            Color::Black => self.black_hand,
        }
    }

    /// Pieces `c` has on the board.
    pub open spec fn on_board(self, c: Color) -> nat {
        bit_count(self.pieces(c))
    }

    /// Empty board points.
    pub open spec fn empty(self) -> u32 {
        !(self.white | self.black) & BOARD_MASK
    }

    /// Whether board point `i` is empty.
    pub open spec fn is_empty_at(self, i: u32) -> bool {
        !in_bb(self.white, i) && !in_bb(self.black, i)
    }

    /// Both bitboards use board points only and never share one.
    pub open spec fn board_ok(self) -> bool {
        &&& self.white & self.black == 0
        &&& self.white & !BOARD_MASK == 0
        &&& self.black & !BOARD_MASK == 0
    }

    /// Each side owns at most nine pieces, in hand and on the board.
    pub open spec fn counts_ok(self) -> bool {
        &&& self.white_hand + self.on_board(Color::White) <= 9
        &&& self.black_hand + self.on_board(Color::Black) <= 9
    }

    /// The position invariants.
    pub open spec fn wf(self) -> bool {
        self.board_ok() && self.counts_ok()
    }
}

/// Why `CurrentGameState::from_bitboards` refused its input.
#[derive(Clone, Copy, PartialEq, Eq, Debug, Structural)]
pub enum PositionError {
    /// A bitboard sets a bit above 23.
    OffBoard,
    /// A square is claimed by both colors.
    Overlap,
    /// The color holds more than nine pieces in hand and on the board.
    TooManyPieces(Color),
}

/// The error `from_bitboards` gives for these fields, if any.
pub open spec fn position_error(v: StateView) -> Option<PositionError> {
    if v.white & !BOARD_MASK != 0 || v.black & !BOARD_MASK != 0 {
        Some(PositionError::OffBoard)
    } else if v.white & v.black != 0 {
        Some(PositionError::Overlap)
    } else if v.white_hand + v.on_board(Color::White) > 9 {
        Some(PositionError::TooManyPieces(Color::White))
    } else if v.black_hand + v.on_board(Color::Black) > 9 {
        Some(PositionError::TooManyPieces(Color::Black))
    } else {
        None
    }
}

/// A game position: bitboards, hand counts, turn and draw clock. The
/// fields are private; every mutation goes through a method that keeps the
/// board invariants, and `from_bitboards` is the one checked entry for
/// outside data.
#[derive(Clone, Copy, Debug, PartialEq, Eq, Hash)]
pub struct CurrentGameState {
    white_pieces: BitBoard,
    black_pieces: BitBoard,
    white_unplaced: u8,
    black_unplaced: u8,
    turn: Color,
    plies_since_capture: u16,
    draw_ply_limit: u16,
}

impl View for CurrentGameState {
    type V = StateView;

    closed spec fn view(&self) -> StateView {
        StateView {
            white: self.white_pieces,
            black: self.black_pieces,
            white_hand: self.white_unplaced,
            black_hand: self.black_unplaced,
            turn: self.turn,
            plies: self.plies_since_capture,
            ply_limit: self.draw_ply_limit,
        }
    }
}

pub proof fn lemma_count_zero(n: nat)
    requires
        n <= 32,
    ensures
        count_below(0, n) == 0,
    decreases n,
{
    lemma_in_bb_zero();
    if n > 0 {
        lemma_count_zero((n - 1) as nat);
    }
}

impl CurrentGameState {
    /// The opening position: empty board, nine pieces in each hand, White
    /// to move.
    pub fn new() -> (r: Self)
        ensures
            r@ == (StateView {
                white: 0,
                black: 0,
                white_hand: 9,
                black_hand: 9,
                turn: Color::White,
                plies: 0,
                ply_limit: DEFAULT_DRAW_PLY_LIMIT,
            }),
            r@.wf(),
    {
        proof {
            lemma_count_zero(32);
            assert(0u32 & 0u32 == 0 && 0u32 & !0x00FF_FFFFu32 == 0) by (bit_vector);
        }
        Self {
            white_pieces: 0,
            black_pieces: 0,
            white_unplaced: 9,
            black_unplaced: 9,
            turn: Color::White,
            plies_since_capture: 0,
            draw_ply_limit: DEFAULT_DRAW_PLY_LIMIT,
        }
    }

    /// Builds a position from raw fields, checking every invariant: this is
    /// the one seam where untrusted data becomes a trusted state.
    pub fn from_bitboards(
        white_pieces: BitBoard,
        black_pieces: BitBoard,
        white_unplaced: u8,
        black_unplaced: u8,
        turn: Color,
        plies_since_capture: u16,
        draw_ply_limit: u16,
    ) -> (r: Result<Self, PositionError>)
        ensures
            ({
                let v = StateView {
                    white: white_pieces,
                    black: black_pieces,
                    white_hand: white_unplaced,
                    black_hand: black_unplaced,
                    turn,
                    plies: plies_since_capture,
                    ply_limit: draw_ply_limit,
                };
                match r {
                    Ok(s) => position_error(v) is None && s@ == v && s@.wf(),
                    Err(e) => position_error(v) == Some(e),
                }
            }),
    {
        if white_pieces & !BOARD_MASK != 0 || black_pieces & !BOARD_MASK != 0 {
            return Err(PositionError::OffBoard);
        }
        if white_pieces & black_pieces != 0 {
            return Err(PositionError::Overlap);
        }
        if white_unplaced as u32 + popcount(white_pieces) > 9 {
            return Err(PositionError::TooManyPieces(Color::White));
        }
        if black_unplaced as u32 + popcount(black_pieces) > 9 {
            return Err(PositionError::TooManyPieces(Color::Black));
        }
        Ok(Self {
            white_pieces,
            black_pieces,
            white_unplaced,
            black_unplaced,
            turn,
            plies_since_capture,
            draw_ply_limit,
        })
    }

    /// Whether every position invariant holds.
    pub fn invariants_hold(&self) -> (r: bool)
        ensures
            r == self@.wf(),
    {
        self.white_pieces & self.black_pieces == 0
            && self.white_pieces & !BOARD_MASK == 0
            && self.black_pieces & !BOARD_MASK == 0
            && self.white_unplaced as u32 + popcount(self.white_pieces) <= 9
            && self.black_unplaced as u32 + popcount(self.black_pieces) <= 9
    }

    /// Squares occupied by `side`.
    pub fn pieces(&self, side: Color) -> (r: BitBoard)
        ensures
            r == self@.pieces(side),
    {
        match side {
            Color::White => self.white_pieces,
            Color::Black => self.black_pieces,
        }
    }

    /// Empty board points.
    pub fn empty_squares(&self) -> (r: BitBoard)
        ensures
            r == self@.empty(),
    {
        !(self.white_pieces | self.black_pieces) & BOARD_MASK
    }

    /// Plies played since the last capture.
    pub fn plies_since_capture(&self) -> (r: u16)
        ensures
            r == self@.plies,
    {
        self.plies_since_capture
    }

    /// Plies without a capture after which the game is a draw.
    pub fn draw_ply_limit(&self) -> (r: u16)
        ensures
            r == self@.ply_limit,
    {
        self.draw_ply_limit
    }

    pub fn is_white(&self, sq: Square) -> (r: bool)
        requires
            sq.0 < 32,
        ensures
            r == in_bb(self@.white, sq.0 as u32),
    {
        is_bb(self.white_pieces, sq)
    }

    pub fn is_black(&self, sq: Square) -> (r: bool)
        requires
            sq.0 < 32,
        ensures
            r == in_bb(self@.black, sq.0 as u32),
    {
        is_bb(self.black_pieces, sq)
    }

    pub fn is_empty(&self, sq: Square) -> (r: bool)
        requires
            sq.0 < 32,
        ensures
            r == self@.is_empty_at(sq.0 as u32),
    {
        !self.is_white(sq) && !self.is_black(sq)
    }

    /// Who occupies `sq`, if anyone.
    pub fn owner(&self, sq: Square) -> (r: Option<Color>)
        requires
            sq.0 < 32,
        ensures
            r == (if in_bb(self@.white, sq.0 as u32) {
                Some(Color::White)
            } else if in_bb(self@.black, sq.0 as u32) {
                Some(Color::Black)
            } else {
                None
            }),
    {
        if self.is_white(sq) {
            Some(Color::White)
        } else if self.is_black(sq) {
            Some(Color::Black)
        } else {
            None
        }
    }

    pub fn pieces_on_board(&self, side: Color) -> (r: u8)
        ensures
            r == self@.on_board(side),
            r <= 32,
    {
        let n = popcount(self.pieces(side));
        n as u8
    }

    pub fn pieces_in_hand(&self, side: Color) -> (r: u8)
        ensures
            r == self@.hand(side),
    {
        match side {
            Color::White => self.white_unplaced,
            Color::Black => self.black_unplaced,
        }
    }

    pub fn total_pieces_on_board(&self) -> (r: u8)
        ensures
            r == self@.on_board(Color::White) + self@.on_board(Color::Black),
    {
        self.pieces_on_board(Color::White) + self.pieces_on_board(Color::Black)
    }

    pub fn side_to_move(&self) -> (r: Color)
        ensures
            r == self@.turn,
    {
        self.turn
    }

    // --- mutators ---

    /// Takes one piece out of `side`'s hand.
    pub fn dec_unplaced(&mut self, side: Color)
        requires
            old(self)@.hand(side) > 0,
        ensures
            final(self)@ == (match side {
                Color::White => StateView { white_hand: (old(self)@.white_hand - 1) as u8, ..old(self)@ },
                Color::Black => StateView { black_hand: (old(self)@.black_hand - 1) as u8, ..old(self)@ },
            }),
    {
        match side {
            Color::White => self.white_unplaced = self.white_unplaced - 1,
            Color::Black => self.black_unplaced = self.black_unplaced - 1,
        }
    }

    /// Puts a piece of `side` on the empty point `sq`.
    pub fn place_piece(&mut self, side: Color, sq: Square)
        requires
            sq.0 < 24,
            old(self)@.is_empty_at(sq.0 as u32),
        ensures
            final(self)@ == (match side {
                Color::White => StateView { white: old(self)@.white | (1u32 << sq.0), ..old(self)@ },
                Color::Black => StateView { black: old(self)@.black | (1u32 << sq.0), ..old(self)@ },
            }),
    {
        match side {
            Color::White => self.white_pieces = crate::board::set(self.white_pieces, sq),
            Color::Black => self.black_pieces = crate::board::set(self.black_pieces, sq),
        }
    }

    /// Moves `side`'s piece from `from` to the empty point `to`.
    pub fn move_piece(&mut self, side: Color, from: Square, to: Square)
        requires
            from.0 < 24,
            to.0 < 24,
            in_bb(old(self)@.pieces(side), from.0 as u32),
            old(self)@.is_empty_at(to.0 as u32),
        ensures
            final(self)@ == (match side {
                Color::White => StateView {
                    white: (old(self)@.white & !(1u32 << from.0)) | (1u32 << to.0),
                    ..old(self)@
                },
                Color::Black => StateView {
                    black: (old(self)@.black & !(1u32 << from.0)) | (1u32 << to.0),
                    ..old(self)@
                },
            }),
    {
        match side {
            Color::White => self.white_pieces = crate::board::set(clear(self.white_pieces, from), to),
            Color::Black => self.black_pieces = crate::board::set(clear(self.black_pieces, from), to),
        }
    }

    /// Empties the point `sq`, whoever occupies it.
    pub fn remove_piece(&mut self, sq: Square)
        requires
            sq.0 < 24,
        ensures
            final(self)@ == (StateView {
                white: old(self)@.white & !(1u32 << sq.0),
                black: old(self)@.black & !(1u32 << sq.0),
                ..old(self)@
            }),
    {
        self.white_pieces = clear(self.white_pieces, sq);
        self.black_pieces = clear(self.black_pieces, sq);
    }

    /// Counts one more ply without a capture (saturating at `u16::MAX`).
    pub fn tick_capture_clock(&mut self)
        ensures
            final(self)@ == (StateView {
                plies: if old(self)@.plies < u16::MAX { (old(self)@.plies + 1) as u16 } else { u16::MAX },
                ..old(self)@
            }),
    {
        self.plies_since_capture = self.plies_since_capture.saturating_add(1);
    }

    /// Restarts the draw clock after a capture.
    pub fn reset_capture_clock(&mut self)
        ensures
            final(self)@ == (StateView { plies: 0, ..old(self)@ }),
    {
        self.plies_since_capture = 0;
    }

    pub fn set_turn(&mut self, side: Color)
        ensures
            final(self)@ == (StateView { turn: side, ..old(self)@ }),
    {
        self.turn = side;
    }
}

} // verus!
