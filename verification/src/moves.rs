use vstd::prelude::*;
use crate::board::{
    BOARD_MASK, in_bb, count_below, lemma_in_bb_set, lemma_in_bb_clear, lemma_in_bb_and, lemma_in_bb_not,
    lemma_in_bb_or, lemma_in_bb_board_mask, lemma_bits_ext, lemma_count_set, lemma_count_clear,
    lemma_in_bb_zero,
};
use crate::position::{CurrentGameState, StateView};
use crate::types::{Captures, Color, Move, Square, opponent_of, target_of, origin_of, captures_of};

verus! {

/// `v` with `c`'s bitboard replaced by `bb`.
pub open spec fn with_pieces(v: StateView, c: Color, bb: u32) -> StateView {
    match c {
        Color::White => StateView { white: bb, ..v },
        Color::Black => StateView { black: bb, ..v },
    }
}

/// `v` with `c`'s hand count replaced by `h`.
pub open spec fn with_hand(v: StateView, c: Color, h: u8) -> StateView {
    match c {
        Color::White => StateView { white_hand: h, ..v },
        Color::Black => StateView { black_hand: h, ..v },
    }
}

/// The bitboard of a list of squares.
pub open spec fn squares_mask(caps: Seq<Square>) -> u32
    decreases caps.len(),
{
    if caps.len() == 0 {
        0
    } else {
        squares_mask(caps.drop_last()) | (1u32 << caps.last().0)
    }
}

/// The draw clock after one more capture-free ply (saturating).
pub open spec fn ticked(plies: u16) -> u16 {
    if plies < u16::MAX { (plies + 1) as u16 } else { u16::MAX }
}

/// The side to move's piece lands, without captures and without handing
/// the turn over.
pub open spec fn moved(v: StateView, mv: Move) -> StateView {
    let c = v.turn;
    match mv {
        Move::Place { to, .. } => with_pieces(
            with_hand(v, c, (v.hand(c) - 1) as u8),
            c,
            v.pieces(c) | (1u32 << to.0),
        ),
        Move::Slide { from, to, .. } => with_pieces(v, c, (v.pieces(c) & !(1u32 << from.0)) | (1u32 << to.0)),
        Move::Fly { from, to, .. } => with_pieces(v, c, (v.pieces(c) & !(1u32 << from.0)) | (1u32 << to.0)),
    }
}

/// The captured points are emptied and the draw clock updated.
pub open spec fn captured(v: StateView, caps: Seq<Square>) -> StateView {
    if caps.len() == 0 {
        StateView { plies: ticked(v.plies), ..v }
    } else {
        StateView {
            white: v.white & !squares_mask(caps),
            black: v.black & !squares_mask(caps),
            plies: 0,
            ..v
        }
    }
}

/// The position after the side to move plays `mv`.
pub open spec fn after_move(v: StateView, mv: Move) -> StateView {
    StateView { turn: opponent_of(v.turn), ..captured(moved(v, mv), captures_of(mv).squares()) }
}

/// `mv` can be played out in `v`: it lands on an empty point, moves one
/// of the mover's own pieces (or places one from a non-empty hand), and
/// captures distinct opponent pieces.
pub open spec fn playable(v: StateView, mv: Move) -> bool {
    let c = v.turn;
    let to = target_of(mv);
    let caps = captures_of(mv).squares();
    &&& to.0 < 24
    &&& v.is_empty_at(to.0 as u32)
    &&& match origin_of(mv) {
        None => v.hand(c) > 0,
        Some(from) => from.0 < 24 && in_bb(v.pieces(c), from.0 as u32),
    }
    &&& forall|i: int| 0 <= i < caps.len() ==> (#[trigger] caps[i]).0 < 24 && in_bb(
        v.pieces(opponent_of(c)),
        caps[i].0 as u32,
    )
    &&& (caps.len() == 2 ==> caps[0] != caps[1])
}

/// All pieces of both sides, in hand and on the board.
pub open spec fn material(v: StateView) -> nat {
    (v.white_hand + v.black_hand + v.on_board(Color::White) + v.on_board(Color::Black)) as nat
}

pub proof fn lemma_squares_mask_bits(caps: Seq<Square>)
    requires
        forall|k: int| 0 <= k < caps.len() ==> (#[trigger] caps[k]).0 < 32,
    ensures
        forall|i: u32| i < 32 ==> #[trigger] in_bb(squares_mask(caps), i) == exists|k: int|
            0 <= k < caps.len() && (#[trigger] caps[k]).0 == i,
    decreases caps.len(),
{
    lemma_in_bb_zero();
    if caps.len() > 0 {
        let rest = caps.drop_last();
        lemma_squares_mask_bits(rest);
        lemma_in_bb_set(squares_mask(rest), caps.last().0 as u32);
        assert forall|i: u32| i < 32 implies #[trigger] in_bb(squares_mask(caps), i) == exists|k: int|
            0 <= k < caps.len() && (#[trigger] caps[k]).0 == i by {
            if in_bb(squares_mask(caps), i) {
                if in_bb(squares_mask(rest), i) {
                    let k = choose|k: int| 0 <= k < rest.len() && (#[trigger] rest[k]).0 == i;
                    assert(caps[k] == rest[k]);
                } else {
                    assert(caps[caps.len() - 1].0 == i);
                }
            }
            if exists|k: int| 0 <= k < caps.len() && (#[trigger] caps[k]).0 == i {
                let k = choose|k: int| 0 <= k < caps.len() && (#[trigger] caps[k]).0 == i;
                if k < caps.len() - 1 {
                    assert(rest[k] == caps[k]);
                }
            }
        }
    }
}

/// Landing the piece keeps the board invariants and the mover's total;
/// the opponent's pieces stay as they were.
proof fn lemma_moved(v: StateView, mv: Move)
    requires
        v.wf(),
        playable(v, mv),
    ensures
        moved(v, mv).board_ok(),
        moved(v, mv).turn == v.turn,
        moved(v, mv).plies == v.plies,
        moved(v, mv).ply_limit == v.ply_limit,
        moved(v, mv).pieces(opponent_of(v.turn)) == v.pieces(opponent_of(v.turn)),
        moved(v, mv).hand(opponent_of(v.turn)) == v.hand(opponent_of(v.turn)),
        moved(v, mv).hand(v.turn) + moved(v, mv).on_board(v.turn) == v.hand(v.turn) + v.on_board(v.turn),
        in_bb(moved(v, mv).pieces(v.turn), target_of(mv).0 as u32),
        forall|i: u32| i < 32 ==> #[trigger] in_bb(moved(v, mv).pieces(v.turn), i) ==> (in_bb(v.pieces(v.turn), i)
            || i == target_of(mv).0),
{
    let c = v.turn;
    let o = opponent_of(c);
    let to = target_of(mv).0 as u32;
    let p = v.pieces(c);
    let q = v.pieces(o);
    let m = moved(v, mv);
    lemma_in_bb_and(v.white, v.black);
    lemma_in_bb_not(BOARD_MASK);
    lemma_in_bb_and(v.white, !BOARD_MASK);
    lemma_in_bb_and(v.black, !BOARD_MASK);
    lemma_in_bb_board_mask();
    lemma_in_bb_zero();
    match origin_of(mv) {
        None => {
            lemma_in_bb_set(p, to);
            lemma_count_set(p, to, 32);
        },
        Some(f) => {
            let from = f.0 as u32;
            let cleared = p & !(1u32 << from);
            lemma_in_bb_clear(p, from);
            lemma_count_clear(p, from, 32);
            lemma_in_bb_set(cleared, to);
            lemma_count_set(cleared, to, 32);
        },
    }
    let np = m.pieces(c);
    lemma_in_bb_and(np, q);
    lemma_in_bb_and(np, !BOARD_MASK);
    lemma_bits_ext(np & q, 0);
    lemma_bits_ext(np & !BOARD_MASK, 0);
    if c == Color::White {
        assert(m.white & m.black == 0);
    } else {
        lemma_in_bb_and(q, np);
        lemma_bits_ext(q & np, 0);
        assert(m.white & m.black == 0);
    }
}

/// Emptying the captured points keeps the board invariants, leaves the
/// mover's pieces alone and takes exactly one opponent piece per capture.
proof fn lemma_captured(v: StateView, c: Color, caps: Seq<Square>)
    requires
        v.board_ok(),
        caps.len() <= 2,
        forall|i: int| 0 <= i < caps.len() ==> (#[trigger] caps[i]).0 < 24 && in_bb(
            v.pieces(opponent_of(c)),
            caps[i].0 as u32,
        ),
        caps.len() == 2 ==> caps[0] != caps[1],
    ensures
        captured(v, caps).board_ok(),
        captured(v, caps).pieces(c) == v.pieces(c),
        captured(v, caps).on_board(opponent_of(c)) + caps.len() == v.on_board(opponent_of(c)),
        captured(v, caps).hand(c) == v.hand(c),
        captured(v, caps).hand(opponent_of(c)) == v.hand(opponent_of(c)),
        captured(v, caps).turn == v.turn,
        captured(v, caps).ply_limit == v.ply_limit,
{
    let o = opponent_of(c);
    let p = v.pieces(c);
    let q = v.pieces(o);
    if caps.len() > 0 {
        let mask = squares_mask(caps);
        lemma_squares_mask_bits(caps);
        lemma_in_bb_not(mask);
        lemma_in_bb_and(p, !mask);
        lemma_in_bb_and(v.white, v.black);
        lemma_in_bb_zero();
        assert forall|i: u32| i < 32 implies #[trigger] in_bb(p & !mask, i) == in_bb(p, i) by {
            if in_bb(p, i) && in_bb(mask, i) {
                let k = choose|k: int| 0 <= k < caps.len() && (#[trigger] caps[k]).0 == i;
                assert(in_bb(q, i));
                assert(in_bb(v.white & v.black, i));
            }
        }
        lemma_bits_ext(p & !mask, p);
        let a = caps[0].0 as u32;
        assert(caps.drop_last().len() == caps.len() - 1);
        if caps.len() == 1 {
            assert(caps.drop_last() =~= Seq::<Square>::empty());
            assert(squares_mask(Seq::<Square>::empty()) == 0);
            assert(caps.last() == caps[0]);
            assert(mask == 0u32 | (1u32 << a));
            assert(0u32 | (1u32 << a) == (1u32 << a)) by (bit_vector);
            lemma_count_clear(q, a, 32);
        } else {
            let b = caps[1].0 as u32;
            assert(caps.drop_last().drop_last() =~= Seq::<Square>::empty());
            assert(squares_mask(Seq::<Square>::empty()) == 0);
            assert(caps.drop_last().last() == caps[0]);
            assert(caps.last() == caps[1]);
            assert(squares_mask(caps.drop_last()) == 0u32 | (1u32 << a));
            assert(mask == (0u32 | (1u32 << a)) | (1u32 << b));
            assert(q & !((0u32 | (1u32 << a)) | (1u32 << b)) == (q & !(1u32 << a)) & !(1u32 << b)) by (bit_vector);
            lemma_count_clear(q, a, 32);
            lemma_in_bb_clear(q, a);
            lemma_count_clear(q & !(1u32 << a), b, 32);
        }
        let w2 = v.white & !mask;
        let b2 = v.black & !mask;
        let wb = v.white;
        let bb = v.black;
        assert(wb & bb == 0 ==> w2 & b2 == 0) by (bit_vector)
            requires w2 == wb & !mask, b2 == bb & !mask;
        assert(wb & !0x00FF_FFFFu32 == 0 ==> w2 & !0x00FF_FFFFu32 == 0) by (bit_vector)
            requires w2 == wb & !mask;
        assert(bb & !0x00FF_FFFFu32 == 0 ==> b2 & !0x00FF_FFFFu32 == 0) by (bit_vector)
            requires b2 == bb & !mask;
    }
}

/// Playing a playable move keeps every position invariant, hands the turn
/// to the opponent, puts the mover's piece on the target point and costs
/// the opponent exactly one piece per capture.
pub proof fn lemma_after_move(v: StateView, mv: Move)
    requires
        v.wf(),
        playable(v, mv),
    ensures
        after_move(v, mv).wf(),
        after_move(v, mv).turn == opponent_of(v.turn),
        in_bb(after_move(v, mv).pieces(v.turn), target_of(mv).0 as u32),
        material(after_move(v, mv)) + captures_of(mv).squares().len() == material(v),
        after_move(v, mv).on_board(opponent_of(v.turn)) + captures_of(mv).squares().len() == v.on_board(opponent_of(v.turn)),
        after_move(v, mv).hand(v.turn) + after_move(v, mv).on_board(v.turn) == v.hand(v.turn) + v.on_board(v.turn),
{
    let c = v.turn;
    let caps = captures_of(mv).squares();
    lemma_moved(v, mv);
    let m = moved(v, mv);
    captures_of(mv).lemma_at_most_two();
    lemma_captured(m, c, caps);
}

/// Whether `mv` moves a piece off point `i`.
pub open spec fn leaves(mv: Move, i: u32) -> bool {
    match origin_of(mv) {
        Some(f) => f.0 as u32 == i,
        None => false,
    }
}

/// What each kind of move does, point by point: the mover's piece leaves
/// its origin (a slide or a flight) or its hand (a placement) and lands on
/// the target; each captured point is emptied, costing the opponent one
/// piece on the board and nothing in hand; every other point keeps its
/// owner; the draw clock restarts on a capture and otherwise counts up.
pub proof fn lemma_move_effects(v: StateView, mv: Move)
    requires
        v.wf(),
        playable(v, mv),
    ensures
        after_move(v, mv).turn == opponent_of(v.turn),
        forall|i: u32| i < 24 ==> (#[trigger] in_bb(after_move(v, mv).pieces(v.turn), i) <==> (i == target_of(mv).0
            || (in_bb(v.pieces(v.turn), i) && !leaves(mv, i)))),
        forall|i: u32| i < 24 ==> (#[trigger] in_bb(after_move(v, mv).pieces(opponent_of(v.turn)), i) <==> (in_bb(
            v.pieces(opponent_of(v.turn)),
            i,
        ) && !(exists|k: int| 0 <= k < captures_of(mv).squares().len() && (#[trigger] captures_of(mv).squares()[k]).0
            == i))),
        origin_of(mv) matches Some(f) ==> after_move(v, mv).is_empty_at(f.0 as u32),
        forall|k: int| 0 <= k < captures_of(mv).squares().len() ==> after_move(v, mv).is_empty_at(
            (#[trigger] captures_of(mv).squares()[k]).0 as u32,
        ),
        mv is Place ==> after_move(v, mv).hand(v.turn) == v.hand(v.turn) - 1 && after_move(v, mv).on_board(v.turn)
            == v.on_board(v.turn) + 1,
        !(mv is Place) ==> after_move(v, mv).hand(v.turn) == v.hand(v.turn) && after_move(v, mv).on_board(v.turn)
            == v.on_board(v.turn),
        after_move(v, mv).hand(opponent_of(v.turn)) == v.hand(opponent_of(v.turn)),
        after_move(v, mv).on_board(opponent_of(v.turn)) + captures_of(mv).squares().len() == v.on_board(
            opponent_of(v.turn),
        ),
        after_move(v, mv).plies == (if captures_of(mv).squares().len() == 0 { ticked(v.plies) } else { 0 }),
        after_move(v, mv).ply_limit == v.ply_limit,
{
    let c = v.turn;
    let o = opponent_of(c);
    let caps = captures_of(mv).squares();
    let to = target_of(mv).0 as u32;
    let p = v.pieces(c);
    let q = v.pieces(o);
    let m = moved(v, mv);
    let r = after_move(v, mv);
    lemma_after_move(v, mv);
    lemma_moved(v, mv);
    captures_of(mv).lemma_at_most_two();
    lemma_captured(m, c, caps);
    lemma_in_bb_and(v.white, v.black);
    lemma_in_bb_zero();
    // The mover's board.
    assert(r.pieces(c) == m.pieces(c));
    match origin_of(mv) {
        None => {
            lemma_in_bb_set(p, to);
        },
        Some(f) => {
            let from = f.0 as u32;
            lemma_in_bb_clear(p, from);
            lemma_in_bb_set(p & !(1u32 << from), to);
        },
    }
    // The opponent's board.
    if caps.len() == 0 {
        assert(r.pieces(o) == q);
    } else {
        let mask = squares_mask(caps);
        lemma_squares_mask_bits(caps);
        lemma_in_bb_not(mask);
        lemma_in_bb_and(q, !mask);
        assert(r.pieces(o) == q & !mask);
    }
    // Emptied points.
    if origin_of(mv) is Some {
        let f = origin_of(mv)->0;
        let from = f.0 as u32;
        assert(in_bb(p, from));
        assert(!in_bb(q, from)) by {
            assert(!in_bb(v.white & v.black, from));
        }
        assert(from != to);
        assert(!in_bb(r.pieces(c), from));
        assert(!in_bb(r.pieces(o), from));
    }
    assert forall|k: int| 0 <= k < caps.len() implies r.is_empty_at((#[trigger] caps[k]).0 as u32) by {
        let i = caps[k].0 as u32;
        assert(in_bb(q, i));
        assert(!in_bb(p, i)) by {
            assert(!in_bb(v.white & v.black, i));
        }
        assert(i != to);
        assert(!in_bb(r.pieces(c), i));
        assert(!in_bb(r.pieces(o), i));
    }
}

impl CurrentGameState {
    /// Removes every captured piece and updates the draw clock.
    fn apply_capture(&mut self, captures: Captures)
        requires
            forall|i: int| 0 <= i < captures.squares().len() ==> (#[trigger] captures.squares()[i]).0 < 24,
        ensures
            final(self)@ == captured(old(self)@, captures.squares()),
    {
        if captures.is_empty() {
            self.tick_capture_clock();
            return;
        }
        let squares = captures.iter();
        let ghost start = self@;
        let mut i: usize = 0;
        proof {
            assert(squares@.take(0) =~= Seq::<Square>::empty());
            let w = start.white;
            let bl = start.black;
            assert(w & !0u32 == w && bl & !0u32 == bl) by (bit_vector);
        }
        while i < squares.len()
            invariant
                i <= squares@.len(),
                squares@ == captures.squares(),
                forall|k: int| 0 <= k < squares@.len() ==> (#[trigger] squares@[k]).0 < 24,
                self@ == (StateView {
                    white: start.white & !squares_mask(squares@.take(i as int)),
                    black: start.black & !squares_mask(squares@.take(i as int)),
                    ..start
                }),
            decreases squares@.len() - i,
        {
            let sq = squares[i];
            proof {
                let prev = squares_mask(squares@.take(i as int));
                assert(squares@.take(i + 1).drop_last() =~= squares@.take(i as int));
                assert(squares@.take(i + 1).last() == sq);
                let b = 1u32 << sq.0;
                let w = start.white;
                let bl = start.black;
                assert((w & !prev) & !b == w & !(prev | b)) by (bit_vector);
                assert((bl & !prev) & !b == bl & !(prev | b)) by (bit_vector);
            }
            self.remove_piece(sq);
            i = i + 1;
        }
        proof {
            assert(squares@.take(squares@.len() as int) =~= squares@);
        }
        self.reset_capture_clock();
    }

    /// Places a piece on the new square and removes it from hand.
    /// Order matters: hand count must drop before the piece appears on the
    /// board, otherwise the piece is briefly counted in both places at once.
    fn apply_place(&mut self, color: Color, to: Square, captures: Captures)
        requires
            to.0 < 24,
            old(self)@.is_empty_at(to.0 as u32),
            old(self)@.hand(color) > 0,
            forall|i: int| 0 <= i < captures.squares().len() ==> (#[trigger] captures.squares()[i]).0 < 24,
        ensures
            final(self)@ == captured(
                with_pieces(
                    with_hand(old(self)@, color, (old(self)@.hand(color) - 1) as u8),
                    color,
                    old(self)@.pieces(color) | (1u32 << to.0),
                ),
                captures.squares(),
            ),
    {
        self.dec_unplaced(color);
        self.place_piece(color, to);
        self.apply_capture(captures);
    }

    /// Moves a piece from the old square to the new square and applies captures.
    fn apply_slide(&mut self, color: Color, from: Square, to: Square, captures: Captures)
        requires
            from.0 < 24,
            to.0 < 24,
            in_bb(old(self)@.pieces(color), from.0 as u32),
            old(self)@.is_empty_at(to.0 as u32),
            forall|i: int| 0 <= i < captures.squares().len() ==> (#[trigger] captures.squares()[i]).0 < 24,
        ensures
            final(self)@ == captured(
                with_pieces(old(self)@, color, (old(self)@.pieces(color) & !(1u32 << from.0)) | (1u32 << to.0)),
                captures.squares(),
            ),
    {
        self.move_piece(color, from, to);
        self.apply_capture(captures);
    }

    /// Moves a piece from the old square to the new square and applies captures.
    fn apply_fly(&mut self, color: Color, from: Square, to: Square, captures: Captures)
        requires
            from.0 < 24,
            to.0 < 24,
            in_bb(old(self)@.pieces(color), from.0 as u32),
            old(self)@.is_empty_at(to.0 as u32),
            forall|i: int| 0 <= i < captures.squares().len() ==> (#[trigger] captures.squares()[i]).0 < 24,
        ensures
            final(self)@ == captured(
                with_pieces(old(self)@, color, (old(self)@.pieces(color) & !(1u32 << from.0)) | (1u32 << to.0)),
                captures.squares(),
            ),
    {
        self.move_piece(color, from, to);
        self.apply_capture(captures);
    }

    /// Plays `mv` for the side to move and returns the resulting position;
    /// `self` is unchanged. Legality is decided by move generation; this
    /// only plays a move out.
    pub fn make_move(&self, mv: Move) -> (r: CurrentGameState)
        requires
            self@.wf(),
            playable(self@, mv),
        ensures
            r@ == after_move(self@, mv),
            r@.wf(),
    {
        proof {
            lemma_after_move(self@, mv);
        }
        let mut next = *self;
        let color = next.side_to_move();
        match mv {
            Move::Place { to, captures } => next.apply_place(color, to, captures),
            Move::Slide { from, to, captures } => next.apply_slide(color, from, to, captures),
            Move::Fly { from, to, captures } => next.apply_fly(color, from, to, captures),
        }
        next.set_turn(color.opponent());
        next
    }
}

} // verus!
