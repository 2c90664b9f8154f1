use vstd::prelude::*;
use crate::board::{
    BitBoard, in_bb, bit_count, count_below, adjacency, mill_mask, square_mill_ids, lemma_square_mills_exact, square_mill_masks, adjacent, square_mills, popcount, is_bb,
    clear, lemma_in_bb_and, lemma_in_bb_not, lemma_in_bb_or, lemma_in_bb_board_mask,
};
use crate::position::{CurrentGameState, StateView};
use crate::moves::{playable, after_move, lemma_after_move};
use crate::types::{Captures, Color, GameResult, Move, Phase, Square, opponent_of, target_of, origin_of, captures_of};

verus! {

// ---------------------------------------------------------------------
// The rules, stated over plain values.
// ---------------------------------------------------------------------

/// The stage `c` is in.
pub open spec fn phase_of(v: StateView, c: Color) -> Phase {
    if v.hand(c) > 0 {
        Phase::Placing
    } else if v.on_board(c) <= 3 {
        Phase::Flying
    } else {
        Phase::Sliding
    }
}

/// `c` owns every point of `mill`.
pub open spec fn owns_mill(v: StateView, c: Color, mill: u32) -> bool {
    v.pieces(c) & mill == mill
}

/// The piece of `c` on `sq` is part of a completed mill.
pub open spec fn in_mill(v: StateView, c: Color, sq: u8) -> bool {
    owns_mill(v, c, square_mill_masks(sq).0) || owns_mill(v, c, square_mill_masks(sq).1)
}

/// `c`'s pieces after moving one from `from` (if any) to `sq`.
pub open spec fn landed(v: StateView, c: Color, sq: Square, from: Option<Square>) -> u32 {
    let own = match from {
        Some(f) => v.pieces(c) & !(1u32 << f.0),
        None => v.pieces(c),
    };
    own | (1u32 << sq.0)
}

/// How many mills through `sq` `c` completes by landing there.
pub open spec fn mills_formed(v: StateView, c: Color, sq: Square, from: Option<Square>) -> nat {
    let h = landed(v, c, sq, from);
    let (m1, m2) = square_mill_masks(sq.0);
    (if h & m1 == m1 { 1nat } else { 0nat }) + (if h & m2 == m2 { 1nat } else { 0nat })
}

/// Every piece `c` has on the board is part of a mill.
pub open spec fn all_in_mills(v: StateView, c: Color) -> bool {
    forall|i: u8| i < 24 && #[trigger] in_bb(v.pieces(c), i as u32) ==> in_mill(v, c, i)
}

/// `c` has lost by material: nothing in hand and fewer than three on the board.
pub open spec fn lost_by_pieces(v: StateView, c: Color) -> bool {
    v.hand(c) == 0 && v.on_board(c) < 3
}

pub open spec fn terminal_by_pieces(v: StateView) -> bool {
    lost_by_pieces(v, Color::White) || lost_by_pieces(v, Color::Black)
}

/// The points below `n` that satisfy `p`, in increasing order.
pub open spec fn squares_below(p: spec_fn(u8) -> bool, n: nat) -> Seq<Square>
    decreases n,
{
    if n == 0 {
        Seq::empty()
    } else {
        let i = (n - 1) as u8;
        squares_below(p, (n - 1) as nat) + if p(i) { seq![Square(i)] } else { Seq::empty() }
    }
}

/// Points holding a piece `c` may capture: an opponent piece outside any
/// mill, or any opponent piece once all of them are in mills.
pub open spec fn capturable(v: StateView, c: Color) -> spec_fn(u8) -> bool {
    let opp = opponent_of(c);
    |i: u8| in_bb(v.pieces(opp), i as u32) && (all_in_mills(v, opp) || !in_mill(v, opp, i))
}

/// The capture targets of `c`, in increasing order.
pub open spec fn capture_targets(v: StateView, c: Color) -> Seq<Square> {
    squares_below(capturable(v, c), 24)
}

/// Empty points, as a predicate.
pub open spec fn empty_point(v: StateView) -> spec_fn(u8) -> bool {
    |i: u8| in_bb(v.empty(), i as u32)
}

/// Empty points next to `from`, as a predicate.
pub open spec fn slide_target(v: StateView, from: u8) -> spec_fn(u8) -> bool {
    |i: u8| in_bb(adjacency(from) & v.empty(), i as u32)
}

/// Placements onto the empty points below `n`, capture-free.
pub open spec fn place_base_below(v: StateView, n: nat) -> Seq<Move>
    decreases n,
{
    if n == 0 {
        Seq::empty()
    } else {
        let i = (n - 1) as u8;
        place_base_below(v, (n - 1) as nat) + if in_bb(v.empty(), i as u32) {
            seq![Move::Place { to: Square(i), captures: Captures::empty_set() }]
        } else {
            Seq::empty()
        }
    }
}

/// Slides of the piece on `from` onto the adjacent empty points below `n`.
pub open spec fn slide_row(v: StateView, from: u8, n: nat) -> Seq<Move>
    decreases n,
{
    if n == 0 {
        Seq::empty()
    } else {
        let i = (n - 1) as u8;
        slide_row(v, from, (n - 1) as nat) + if in_bb(adjacency(from) & v.empty(), i as u32) {
            seq![Move::Slide { from: Square(from), to: Square(i), captures: Captures::empty_set() }]
        } else {
            Seq::empty()
        }
    }
}

/// Flights of the piece on `from` onto the empty points below `n`.
pub open spec fn fly_row(v: StateView, from: u8, n: nat) -> Seq<Move>
    decreases n,
{
    if n == 0 {
        Seq::empty()
    } else {
        let i = (n - 1) as u8;
        fly_row(v, from, (n - 1) as nat) + if in_bb(v.empty(), i as u32) {
            seq![Move::Fly { from: Square(from), to: Square(i), captures: Captures::empty_set() }]
        } else {
            Seq::empty()
        }
    }
}

/// Capture-free slides of `c`'s pieces on the points below `n`.
pub open spec fn slide_base_below(v: StateView, c: Color, n: nat) -> Seq<Move>
    decreases n,
{
    if n == 0 {
        Seq::empty()
    } else {
        let i = (n - 1) as u8;
        slide_base_below(v, c, (n - 1) as nat) + if in_bb(v.pieces(c), i as u32) {
            slide_row(v, i, 24)
        } else {
            Seq::empty()
        }
    }
}

/// Capture-free flights of `c`'s pieces on the points below `n`.
pub open spec fn fly_base_below(v: StateView, c: Color, n: nat) -> Seq<Move>
    decreases n,
{
    if n == 0 {
        Seq::empty()
    } else {
        let i = (n - 1) as u8;
        fly_base_below(v, c, (n - 1) as nat) + if in_bb(v.pieces(c), i as u32) {
            fly_row(v, i, 24)
        } else {
            Seq::empty()
        }
    }
}

/// The capture-free moves of the side to move, in generation order.
pub open spec fn base_moves(v: StateView) -> Seq<Move> {
    match phase_of(v, v.turn) {
        Phase::Placing => place_base_below(v, 24),
        Phase::Sliding => slide_base_below(v, v.turn, 24),
        Phase::Flying => fly_base_below(v, v.turn, 24),
    }
}

/// Mills `c` completes with move `m`.
pub open spec fn mills_of_move(v: StateView, c: Color, m: Move) -> nat {
    mills_formed(v, c, target_of(m), origin_of(m))
}

/// `m` with its captures replaced.
pub open spec fn with_caps(m: Move, captures: Captures) -> Move {
    match m {
        Move::Place { to, .. } => Move::Place { to, captures },
        Move::Slide { from, to, .. } => Move::Slide { from, to, captures },
        Move::Fly { from, to, .. } => Move::Fly { from, to, captures },
    }
}

/// Row `i` of the two-capture choices: `avail[i]` with each later target.
pub open spec fn pair_row(avail: Seq<Square>, i: int) -> Seq<Captures> {
    Seq::new((avail.len() - i - 1) as nat, |j: int| Captures::pair(avail[i], avail[i + 1 + j]))
}

/// Two-capture choices whose first target has index below `n`.
pub open spec fn pairs_below(avail: Seq<Square>, n: nat) -> Seq<Captures>
    decreases n,
{
    if n == 0 {
        Seq::empty()
    } else {
        pairs_below(avail, (n - 1) as nat) + pair_row(avail, n - 1)
    }
}

/// All ways to choose `n` (one or two) distinct targets from `avail`.
pub open spec fn combinations(avail: Seq<Square>, n: nat) -> Seq<Captures> {
    if n == 1 {
        Seq::new(avail.len(), |i: int| Captures::single(avail[i]))
    } else if n == 2 {
        pairs_below(avail, avail.len())
    } else {
        Seq::empty()
    }
}

/// The moves that base move `m` of `c` becomes once captures are chosen.
pub open spec fn expand(v: StateView, c: Color, avail: Seq<Square>, m: Move) -> Seq<Move> {
    let k = mills_of_move(v, c, m);
    if k == 0 {
        seq![m]
    } else {
        let n = if k < avail.len() { k } else { avail.len() };
        combinations(avail, n).map_values(|cap: Captures| with_caps(m, cap))
    }
}

/// `expand` applied to every base move, concatenated in order.
pub open spec fn expand_all(v: StateView, c: Color, avail: Seq<Square>, base: Seq<Move>) -> Seq<Move>
    decreases base.len(),
{
    if base.len() == 0 {
        Seq::empty()
    } else {
        expand_all(v, c, avail, base.drop_last()) + expand(v, c, avail, base.last())
    }
}

/// The legal moves of the side to move, in generation order.
#[verifier::opaque]
pub open spec fn legal_moves(v: StateView) -> Seq<Move> {
    expand_all(v, v.turn, capture_targets(v, v.turn), base_moves(v))
}

/// Move generation is defined: a mill can only be formed while there is
/// something to capture.
#[verifier::opaque]
pub open spec fn moves_defined(v: StateView) -> bool {
    &&& v.wf()
    &&& (capture_targets(v, v.turn).len() > 0 || forall|i: int|
        0 <= i < base_moves(v).len() ==> mills_of_move(v, v.turn, #[trigger] base_moves(v)[i]) == 0)
}

/// Move generation may be asked for: the invariants hold, nobody has
/// already lost by material, and captures exist wherever a mill can form.
pub open spec fn can_generate(v: StateView) -> bool {
    moves_defined(v) && !terminal_by_pieces(v)
}

/// The game has ended: a side lost by material or the side to move is stuck.
pub open spec fn terminal(v: StateView) -> bool {
    terminal_by_pieces(v) || legal_moves(v).len() == 0
}

/// Whether `terminal` may be asked for this position.
pub open spec fn terminal_decidable(v: StateView) -> bool {
    v.wf() && (terminal_by_pieces(v) || moves_defined(v))
}

pub open spec fn draw_by_plies(v: StateView) -> bool {
    v.plies >= v.ply_limit
}

pub open spec fn game_over(v: StateView) -> bool {
    terminal(v) || draw_by_plies(v)
}

/// The result of a position: a winner once the game is decided, a draw once
/// the ply clock has run out, and otherwise none yet.
pub open spec fn result_of(v: StateView) -> GameResult {
    if !terminal(v) {
        if draw_by_plies(v) {
            GameResult::Draw
        } else {
            GameResult::Ongoing
        }
    } else if lost_by_pieces(v, Color::White) {
        GameResult::Winner(Color::Black)
    } else if lost_by_pieces(v, Color::Black) {
        GameResult::Winner(Color::White)
    } else {
        GameResult::Winner(opponent_of(v.turn))
    }
}


/// A game has a result exactly when it is over: a winner once decided,
/// a draw when only the clock ended it.
pub proof fn lemma_result_iff_over(v: StateView)
    ensures
        game_over(v) <==> result_of(v) != GameResult::Ongoing,
        terminal(v) ==> result_of(v) is Winner,
        !terminal(v) && draw_by_plies(v) ==> result_of(v) == GameResult::Draw,
{
}

/// The loser is the side that lost by material, or else the side to move
/// when it has no legal move: a side that alone lost by material makes its
/// opponent the winner, a side stuck on its turn makes its opponent the
/// winner, and whoever is named winner has an opponent that lost one of
/// these two ways.
pub proof fn lemma_result_names_the_winner(v: StateView)
    ensures
        forall|c: Color| #[trigger] lost_by_pieces(v, c) && !lost_by_pieces(v, opponent_of(c)) ==> result_of(v)
            == GameResult::Winner(opponent_of(c)),
        !terminal_by_pieces(v) && legal_moves(v).len() == 0 ==> result_of(v) == GameResult::Winner(opponent_of(v.turn)),
        forall|w: Color| result_of(v) == GameResult::Winner(w) ==> #[trigger] lost_by_pieces(v, opponent_of(w)) || (
        opponent_of(w) == v.turn && legal_moves(v).len() == 0),
        result_of(v) is Winner ==> terminal(v),
{
    assert forall|w: Color| result_of(v) == GameResult::Winner(w) implies #[trigger] lost_by_pieces(v, opponent_of(w)) || (
    opponent_of(w) == v.turn && legal_moves(v).len() == 0) by {
        assert(opponent_of(Color::Black) == Color::White);
        assert(opponent_of(Color::White) == Color::Black);
        assert(opponent_of(opponent_of(v.turn)) == v.turn);
    }
}

// ---------------------------------------------------------------------
// The rules, computed.
// ---------------------------------------------------------------------

impl CurrentGameState {
    // --- phase ---

    pub fn phase(&self, side: Color) -> (r: Phase)
        ensures
            r == phase_of(self@, side),
    {
        if self.pieces_in_hand(side) > 0 {
            Phase::Placing
        } else if popcount(self.pieces(side)) <= 3 {
            Phase::Flying
        } else {
            Phase::Sliding
        }
    }

    pub fn current_phase(&self) -> (r: Phase)
        ensures
            r == phase_of(self@, self@.turn),
    {
        self.phase(self.side_to_move())
    }

    pub fn can_fly(&self, side: Color) -> (r: bool)
        ensures
            r == (phase_of(self@, side) == Phase::Flying),
    {
        self.phase(side) == Phase::Flying
    }

    // --- mill detection ---

    /// Returns true if the given color completely owns this mill bitboard.
    pub fn is_mill(&self, side: Color, mill: BitBoard) -> (r: bool)
        ensures
            r == owns_mill(self@, side, mill),
    {
        self.pieces(side) & mill == mill
    }

    /// Returns true if the piece on `sq` is currently part of any mill for `color`.
    pub fn is_in_mill(&self, color: Color, sq: Square) -> (r: bool)
        requires
            sq.0 < 24,
        ensures
            r == in_mill(self@, color, sq.0),
    {
        let (m1, m2) = square_mills(sq);
        self.is_mill(color, m1) || self.is_mill(color, m2)
    }

    /// Returns true if placing/moving a piece of `color` to `sq` would complete
    /// one or more mills.
    pub fn forms_mill(&self, color: Color, sq: Square, from: Option<Square>) -> (r: bool)
        requires
            sq.0 < 24,
            from matches Some(f) ==> f.0 < 32,
        ensures
            r == (mills_formed(self@, color, sq, from) > 0),
    {
        self.mills_created_by(color, sq, from) > 0
    }

    /// Returns how many mills would be completed by landing on `sq` with `color`
    /// (0, 1, or 2).
    pub fn mills_created_by(&self, color: Color, sq: Square, from: Option<Square>) -> (r: u8)
        requires
            sq.0 < 24,
            from matches Some(f) ==> f.0 < 32,
        ensures
            r == mills_formed(self@, color, sq, from),
            r <= 2,
    {
        let mut hypothetical = self.pieces(color);
        if let Some(from) = from {
            hypothetical = clear(hypothetical, from);
        }
        hypothetical = crate::board::set(hypothetical, sq);
        let (m1, m2) = square_mills(sq);
        let mut mills: u8 = 0;
        if (hypothetical & m1) == m1 {
            mills = mills + 1;
        }
        if (hypothetical & m2) == m2 {
            mills = mills + 1;
        }
        mills
    }

    /// Returns true if every piece the given color still has on the board
    /// is currently part of a mill. Needed for the capture rule exception.
    pub fn all_pieces_in_mills(&self, color: Color) -> (r: bool)
        requires
            self@.pieces(color) & !crate::board::BOARD_MASK == 0,
        ensures
            r == all_in_mills(self@, color),
    {
        let own = self.pieces(color);
        let mut i: u8 = 0;
        while i < 24
            invariant
                i <= 24,
                own == self@.pieces(color),
                forall|j: u8| j < i && #[trigger] in_bb(own, j as u32) ==> in_mill(self@, color, j),
            decreases 24 - i,
        {
            if is_bb(own, Square(i)) && !self.is_in_mill(color, Square(i)) {
                return false;
            }
            i = i + 1;
        }
        true
    }

    // --- terminal / draw / result ---

    /// Whether `side` has nothing in hand and fewer than three pieces on the board.
    fn lost_by_material(&self, side: Color) -> (r: bool)
        ensures
            r == lost_by_pieces(self@, side),
    {
        self.pieces_in_hand(side) == 0 && self.pieces_on_board(side) < 3
    }

    /// Returns true if either side already has fewer than 3 pieces with none
    /// left in hand — losing by piece count alone, no move generation needed.
    pub fn is_terminal_by_pieces(&self) -> (r: bool)
        ensures
            r == terminal_by_pieces(self@),
    {
        self.lost_by_material(Color::White) || self.lost_by_material(Color::Black)
    }

    pub fn has_legal_moves(&self) -> (r: bool)
        requires
            can_generate(self@),
        ensures
            r == (legal_moves(self@).len() > 0),
    {
        let moves = self.generate_moves();
        moves.len() > 0
    }

    pub fn is_terminal(&self) -> (r: bool)
        requires
            terminal_decidable(self@),
        ensures
            r == terminal(self@),
    {
        self.is_terminal_by_pieces() || !self.has_legal_moves()
    }

    pub fn is_draw_by_plies(&self) -> (r: bool)
        ensures
            r == draw_by_plies(self@),
    {
        self.plies_since_capture() >= self.draw_ply_limit()
    }

    pub fn is_game_over(&self) -> (r: bool)
        requires
            terminal_decidable(self@),
        ensures
            r == game_over(self@),
    {
        self.is_terminal() || self.is_draw_by_plies()
    }

    pub fn result(&self) -> (r: GameResult)
        requires
            terminal_decidable(self@),
        ensures
            r == result_of(self@),
            lost_by_pieces(self@, Color::White) && !lost_by_pieces(self@, Color::Black) ==> r == GameResult::Winner(
                Color::Black,
            ),
            lost_by_pieces(self@, Color::Black) && !lost_by_pieces(self@, Color::White) ==> r == GameResult::Winner(
                Color::White,
            ),
            !terminal_by_pieces(self@) && legal_moves(self@).len() == 0 ==> r == GameResult::Winner(
                opponent_of(self@.turn),
            ),
    {
        proof {
            lemma_result_names_the_winner(self@);
        }
        if !self.is_terminal() {
            if self.is_draw_by_plies() {
                return GameResult::Draw;
            }
            return GameResult::Ongoing;
        }
        if self.lost_by_material(Color::White) {
            return GameResult::Winner(Color::Black);
        }
        if self.lost_by_material(Color::Black) {
            return GameResult::Winner(Color::White);
        }
        // Terminal but not by piece count: the side to move has no legal moves.
        GameResult::Winner(self.side_to_move().opponent())
    }

    // --- move generation ---

    /// Returns all pieces of the given color that can currently slide.
    fn movable_pieces(&self, color: Color) -> (r: BitBoard)
        requires
            self@.board_ok(),
        ensures
            forall|i: u32| i < 32 ==> #[trigger] in_bb(r, i) == (i < 24 && in_bb(self@.pieces(color), i)
                && adjacency(i as u8) & self@.empty() != 0),
    {
        let empties = self.empty_squares();
        let own = self.pieces(color);
        let mut movable: BitBoard = 0;
        let mut i: u8 = 0;
        proof {
            crate::board::lemma_in_bb_zero();
        }
        while i < 24
            invariant
                i <= 24,
                empties == self@.empty(),
                own == self@.pieces(color),
                forall|j: u32| j < 32 ==> #[trigger] in_bb(movable, j) == (j < i && in_bb(own, j)
                    && adjacency(j as u8) & empties != 0),
            decreases 24 - i,
        {
            if is_bb(own, Square(i)) && adjacent(Square(i)) & empties != 0 {
                movable = crate::board::set(movable, Square(i));
            }
            i = i + 1;
        }
        movable
    }

    fn with_captures_applied(mv: Move, captures: Captures) -> (r: Move)
        ensures
            r == with_caps(mv, captures),
    {
        match mv {
            Move::Place { to, .. } => Move::Place { to, captures },
            Move::Slide { from, to, .. } => Move::Slide { from, to, captures },
            Move::Fly { from, to, .. } => Move::Fly { from, to, captures },
        }
    }

    /// All ways to choose `n` distinct capture squares from `available`
    /// (`n` is always 1 or 2 here — at most two mills can form from a
    /// single move).
    fn capture_combinations(available: &Vec<Square>, n: usize) -> (r: Vec<Captures>)
        requires
            n == 1 || n == 2,
        ensures
            r@ == combinations(available@, n as nat),
    {
        let len = available.len();
        let mut combos: Vec<Captures> = Vec::new();
        if n == 1 {
            let mut i: usize = 0;
            while i < len
                invariant
                    i <= len,
                    len == available@.len(),
                    combos@ == Seq::new(i as nat, |k: int| Captures::single(available@[k])),
                decreases len - i,
            {
                combos.push(Captures::one(available[i]));
                i = i + 1;
                proof {
                    assert(combos@ =~= Seq::new(i as nat, |k: int| Captures::single(available@[k])));
                }
            }
        } else {
            let mut i: usize = 0;
            while i < len
                invariant
                    i <= len,
                    len == available@.len(),
                    combos@ == pairs_below(available@, i as nat),
                decreases len - i,
            {
                let mut j: usize = i + 1;
                let ghost start = combos@;
                while j < len
                    invariant
                        i < len,
                        i + 1 <= j <= len,
                        len == available@.len(),
                        start == pairs_below(available@, i as nat),
                        combos@ == start + pair_row(available@, i as int).take(j - i - 1),
                    decreases len - j,
                {
                    combos.push(Captures::two(available[i], available[j]));
                    proof {
                        assert(pair_row(available@, i as int).take(j - i) =~= pair_row(available@, i as int).take(j - i - 1).push(Captures::pair(available@[i as int], available@[j as int])));
                    }
                    j = j + 1;
                }
                proof {
                    assert(pair_row(available@, i as int).take(len - i - 1) =~= pair_row(available@, i as int));
                }
                i = i + 1;
            }
        }
        combos
    }

    /// Turns each base move into its legal capture variants.
    fn with_captures(&self, base_moves: Vec<Move>, color: Color) -> (r: Vec<Move>)
        requires
            self@.board_ok(),
            forall|k: int| 0 <= k < base_moves@.len() ==> (#[trigger] target_of(base_moves@[k])).0 < 24,
            forall|k: int| 0 <= k < base_moves@.len() ==> (#[trigger] origin_of(base_moves@[k]) matches Some(f) ==> f.0 < 24),
            forall|k: int| 0 <= k < base_moves@.len() && mills_of_move(self@, color, #[trigger] base_moves@[k]) > 0
                ==> capture_targets(self@, color).len() > 0,
        ensures
            r@ == expand_all(self@, color, capture_targets(self@, color), base_moves@),
    {
        // computed once — identical for every move in this batch
        let available = self.generate_captures(color);
        let ghost avail = capture_targets(self@, color);
        let mut result: Vec<Move> = Vec::new();
        let mut i: usize = 0;
        while i < base_moves.len()
            invariant
                i <= base_moves@.len(),
                available@ == avail,
                avail == capture_targets(self@, color),
                self@.board_ok(),
                forall|k: int| 0 <= k < base_moves@.len() ==> (#[trigger] target_of(base_moves@[k])).0 < 24,
                forall|k: int| 0 <= k < base_moves@.len() ==> (#[trigger] origin_of(base_moves@[k]) matches Some(f) ==> f.0 < 24),
                forall|k: int| 0 <= k < base_moves@.len() && mills_of_move(self@, color, #[trigger] base_moves@[k]) > 0
                    ==> avail.len() > 0,
                result@ == expand_all(self@, color, avail, base_moves@.take(i as int)),
            decreases base_moves@.len() - i,
        {
            let mv = base_moves[i];
            proof {
                assert(base_moves@.take(i + 1).drop_last() =~= base_moves@.take(i as int));
                assert(base_moves@.take(i + 1).last() == mv);
                assert(target_of(base_moves@[i as int]).0 < 24);
                assert(origin_of(base_moves@[i as int]) matches Some(f) ==> f.0 < 24);
            }
            let mill_count = match mv {
                Move::Place { to, .. } => self.mills_created_by(color, to, None),
                Move::Slide { from, to, .. } => self.mills_created_by(color, to, Some(from)),
                Move::Fly { from, to, .. } => self.mills_created_by(color, to, Some(from)),
            };
            if mill_count == 0 {
                result.push(mv);
            } else {
                // Capped by how many targets are actually legal to capture.
                let n: usize = if (mill_count as usize) < available.len() {
                    mill_count as usize
                } else {
                    available.len()
                };
                let combos = Self::capture_combinations(&available, n);
                let ghost before = result@;
                let mut j: usize = 0;
                while j < combos.len()
                    invariant
                        j <= combos@.len(),
                        result@ == before + combos@.take(j as int).map_values(|cap: Captures| with_caps(mv, cap)),
                    decreases combos@.len() - j,
                {
                    let m2 = Self::with_captures_applied(mv, combos[j]);
                    result.push(m2);
                    proof {
                        assert(combos@.take(j + 1).map_values(|cap: Captures| with_caps(mv, cap)) =~= combos@.take(j as int).map_values(|cap: Captures| with_caps(mv, cap)).push(m2));
                    }
                    j = j + 1;
                }
                proof {
                    assert(combos@.take(combos@.len() as int) =~= combos@);
                }
            }
            i = i + 1;
        }
        proof {
            assert(base_moves@.take(base_moves@.len() as int) =~= base_moves@);
        }
        result
    }

    /// Returns all squares that the given color is currently allowed to capture.
    /// Respects the rule: cannot capture a piece in a mill unless all opponent
    /// pieces are in mills.
    pub fn generate_captures(&self, color: Color) -> (r: Vec<Square>)
        requires
            self@.pieces(opponent_of(color)) & !crate::board::BOARD_MASK == 0,
        ensures
            r@ == capture_targets(self@, color),
    {
        let opponent = color.opponent();
        // Once every remaining piece is in a mill, mill membership no
        // longer protects any of them from capture.
        let all_milled = self.all_pieces_in_mills(opponent);
        let theirs = self.pieces(opponent);
        let mut squares: Vec<Square> = Vec::new();
        let mut i: u8 = 0;
        while i < 24
            invariant
                i <= 24,
                opponent == opponent_of(color),
                theirs == self@.pieces(opponent),
                all_milled == all_in_mills(self@, opponent),
                squares@ == squares_below(capturable(self@, color), i as nat),
            decreases 24 - i,
        {
            if is_bb(theirs, Square(i)) && (all_milled || !self.is_in_mill(opponent, Square(i))) {
                squares.push(Square(i));
            }
            i = i + 1;
        }
        squares
    }

    /// Generates all legal placing moves (Phase 1).
    fn generate_place_moves(&self, color: Color) -> (r: Vec<Move>)
        requires
            self@.board_ok(),
            capture_targets(self@, color).len() > 0 || forall|k: int| 0 <= k < place_base_below(self@, 24).len()
                ==> mills_of_move(self@, color, #[trigger] place_base_below(self@, 24)[k]) == 0,
        ensures
            r@ == expand_all(self@, color, capture_targets(self@, color), place_base_below(self@, 24)),
    {
        let mut base: Vec<Move> = Vec::new();
        let empties = self.empty_squares();
        let mut i: u8 = 0;
        while i < 24
            invariant
                i <= 24,
                empties == self@.empty(),
                base@ == place_base_below(self@, i as nat),
                forall|k: int| 0 <= k < base@.len() ==> (#[trigger] target_of(base@[k])).0 < 24,
                forall|k: int| 0 <= k < base@.len() ==> origin_of(#[trigger] base@[k]) is None,
            decreases 24 - i,
        {
            if is_bb(empties, Square(i)) {
                base.push(Move::Place { to: Square(i), captures: Captures::none() });
            }
            i = i + 1;
        }
        self.with_captures(base, color)
    }

    /// Generates all legal sliding moves (Phase 2).
    fn generate_slide_moves(&self, color: Color) -> (r: Vec<Move>)
        requires
            self@.board_ok(),
            capture_targets(self@, color).len() > 0 || forall|k: int| 0 <= k < slide_base_below(self@, color, 24).len()
                ==> mills_of_move(self@, color, #[trigger] slide_base_below(self@, color, 24)[k]) == 0,
        ensures
            r@ == expand_all(self@, color, capture_targets(self@, color), slide_base_below(self@, color, 24)),
    {
        let mut base: Vec<Move> = Vec::new();
        let empties = self.empty_squares();
        let movable = self.movable_pieces(color);
        let mut from: u8 = 0;
        while from < 24
            invariant
                from <= 24,
                self@.board_ok(),
                empties == self@.empty(),
                forall|i: u32| i < 32 ==> #[trigger] in_bb(movable, i) == (i < 24 && in_bb(self@.pieces(color), i)
                    && adjacency(i as u8) & self@.empty() != 0),
                base@ == slide_base_below(self@, color, from as nat),
                forall|k: int| 0 <= k < base@.len() ==> (#[trigger] target_of(base@[k])).0 < 24,
                forall|k: int| 0 <= k < base@.len() ==> (#[trigger] origin_of(base@[k]) matches Some(f) ==> f.0 < 24),
            decreases 24 - from,
        {
            let ghost before = base@;
            if is_bb(movable, Square(from)) {
                let dests = adjacent(Square(from)) & empties;
                let mut to: u8 = 0;
                while to < 24
                    invariant
                        to <= 24,
                        from < 24,
                        dests == adjacency(from) & self@.empty(),
                        base@ == before + slide_row(self@, from, to as nat),
                        forall|k: int| 0 <= k < base@.len() ==> (#[trigger] target_of(base@[k])).0 < 24,
                        forall|k: int| 0 <= k < base@.len() ==> (#[trigger] origin_of(base@[k]) matches Some(f) ==> f.0 < 24),
                    decreases 24 - to,
                {
                    if is_bb(dests, Square(to)) {
                        base.push(Move::Slide { from: Square(from), to: Square(to), captures: Captures::none() });
                    }
                    proof {
                        assert(before + slide_row(self@, from, (to + 1) as nat) =~= base@);
                    }
                    to = to + 1;
                }
            } else {
                proof {
                    if in_bb(self@.pieces(color), from as u32) {
                        lemma_slide_row_blocked(self@, from, 24);
                    }
                }
            }
            from = from + 1;
        }
        self.with_captures(base, color)
    }

    /// Generates all legal flying moves (Phase 3).
    fn generate_fly_moves(&self, color: Color) -> (r: Vec<Move>)
        requires
            self@.board_ok(),
            capture_targets(self@, color).len() > 0 || forall|k: int| 0 <= k < fly_base_below(self@, color, 24).len()
                ==> mills_of_move(self@, color, #[trigger] fly_base_below(self@, color, 24)[k]) == 0,
        ensures
            r@ == expand_all(self@, color, capture_targets(self@, color), fly_base_below(self@, color, 24)),
    {
        let mut base: Vec<Move> = Vec::new();
        let empties = self.empty_squares();
        // no adjacency restriction — flying reaches any empty square
        let own = self.pieces(color);
        let mut from: u8 = 0;
        while from < 24
            invariant
                from <= 24,
                empties == self@.empty(),
                own == self@.pieces(color),
                base@ == fly_base_below(self@, color, from as nat),
                forall|k: int| 0 <= k < base@.len() ==> (#[trigger] target_of(base@[k])).0 < 24,
                forall|k: int| 0 <= k < base@.len() ==> (#[trigger] origin_of(base@[k]) matches Some(f) ==> f.0 < 24),
            decreases 24 - from,
        {
            let ghost before = base@;
            if is_bb(own, Square(from)) {
                let mut to: u8 = 0;
                while to < 24
                    invariant
                        to <= 24,
                        from < 24,
                        empties == self@.empty(),
                        base@ == before + fly_row(self@, from, to as nat),
                        forall|k: int| 0 <= k < base@.len() ==> (#[trigger] target_of(base@[k])).0 < 24,
                        forall|k: int| 0 <= k < base@.len() ==> (#[trigger] origin_of(base@[k]) matches Some(f) ==> f.0 < 24),
                    decreases 24 - to,
                {
                    if is_bb(empties, Square(to)) {
                        base.push(Move::Fly { from: Square(from), to: Square(to), captures: Captures::none() });
                    }
                    proof {
                        assert(before + fly_row(self@, from, (to + 1) as nat) =~= base@);
                    }
                    to = to + 1;
                }
            }
            from = from + 1;
        }
        self.with_captures(base, color)
    }

    /// Generates all legal moves for the side to move in the current position.
    pub fn generate_moves(&self) -> (r: Vec<Move>)
        requires
            can_generate(self@),
        ensures
            r@ == legal_moves(self@),
    {
        proof {
            reveal(legal_moves);
            reveal(moves_defined);
        }
        let color = self.side_to_move();
        match self.current_phase() {
            Phase::Placing => {
                proof {
                    assert(base_moves(self@) == place_base_below(self@, 24));
                }
                self.generate_place_moves(color)
            },
            Phase::Sliding => {
                proof {
                    assert(base_moves(self@) == slide_base_below(self@, color, 24));
                }
                self.generate_slide_moves(color)
            },
            Phase::Flying => {
                proof {
                    assert(base_moves(self@) == fly_base_below(self@, color, 24));
                }
                self.generate_fly_moves(color)
            },
        }
    }
}

/// A piece with no empty neighbour has no slides.
pub proof fn lemma_slide_row_blocked(v: StateView, from: u8, n: nat)
    requires
        adjacency(from) & v.empty() == 0,
        n <= 24,
    ensures
        slide_row(v, from, n) == Seq::<Move>::empty(),
    decreases n,
{
    crate::board::lemma_in_bb_zero();
    if n > 0 {
        lemma_slide_row_blocked(v, from, (n - 1) as nat);
        assert(!in_bb(adjacency(from) & v.empty(), (n - 1) as u32));
    }
}


// ---------------------------------------------------------------------
// Every generated move can be played.
// ---------------------------------------------------------------------

/// The points collected by `squares_below` satisfy the predicate, lie
/// below `n` and come in strictly increasing order.
pub proof fn lemma_squares_below(p: spec_fn(u8) -> bool, n: nat)
    requires
        n <= 256,
    ensures
        forall|k: int| 0 <= k < squares_below(p, n).len() ==> (#[trigger] squares_below(p, n)[k]).0 < n
            && p(squares_below(p, n)[k].0),
        forall|a: int, b: int| 0 <= a < b < squares_below(p, n).len()
            ==> (#[trigger] squares_below(p, n)[a]).0 < (#[trigger] squares_below(p, n)[b]).0,
    decreases n,
{
    if n > 0 {
        lemma_squares_below(p, (n - 1) as nat);
        let prev = squares_below(p, (n - 1) as nat);
        let s = squares_below(p, n);
        assert forall|k: int| 0 <= k < s.len() implies (#[trigger] s[k]).0 < n && p(s[k].0) by {
            if k < prev.len() {
                assert(s[k] == prev[k]);
            }
        }
        assert forall|a: int, b: int| 0 <= a < b < s.len() implies (#[trigger] s[a]).0 < (#[trigger] s[b]).0 by {
            assert(s[a] == prev[a]);
            if b < prev.len() {
                assert(s[b] == prev[b]);
            } else {
                assert(s[b].0 == n - 1);
            }
        }
    }
}

/// An empty point as the bitboards see it.
pub proof fn lemma_empty_point(v: StateView, i: u32)
    requires
        i < 32,
        in_bb(v.empty(), i),
    ensures
        i < 24,
        v.is_empty_at(i),
{
    lemma_in_bb_and(!(v.white | v.black), crate::board::BOARD_MASK);
    lemma_in_bb_not(v.white | v.black);
    lemma_in_bb_or(v.white, v.black);
    lemma_in_bb_board_mask();
}

/// The move is of the kind the mover's phase allows: a placement while
/// placing, a slide along a board line while sliding, a flight while flying.
pub open spec fn kind_fits(v: StateView, m: Move) -> bool {
    match phase_of(v, v.turn) {
        Phase::Placing => m is Place,
        Phase::Sliding => m is Slide && in_bb(adjacency(origin_of(m).unwrap().0), target_of(m).0 as u32),
        Phase::Flying => m is Fly,
    }
}

/// The moves the rules allow: a move of the phase's kind onto an empty
/// point, capturing distinct capturable opponent pieces, exactly one per
/// mill formed unless fewer pieces are capturable.
pub open spec fn follows_rules(v: StateView, m: Move) -> bool {
    let c = v.turn;
    let targets = capture_targets(v, c);
    let caps = captures_of(m).squares();
    let k = mills_of_move(v, c, m);
    &&& playable(v, m)
    &&& kind_fits(v, m)
    &&& forall|i: int| 0 <= i < caps.len() ==> targets.contains(#[trigger] caps[i])
    &&& caps.len() == (if k == 0 {
        0
    } else if k < targets.len() {
        k
    } else {
        targets.len()
    })
}

/// A capture-free move that lands on an empty point with one of the
/// mover's pieces (or from a non-empty hand).
pub open spec fn base_ok(v: StateView, m: Move) -> bool {
    &&& kind_fits(v, m)
    &&& target_of(m).0 < 24
    &&& v.is_empty_at(target_of(m).0 as u32)
    &&& match origin_of(m) {
        None => v.hand(v.turn) > 0,
        Some(f) => f.0 < 24 && in_bb(v.pieces(v.turn), f.0 as u32),
    }
    &&& captures_of(m) == Captures::empty_set()
}

pub proof fn lemma_place_base(v: StateView, n: nat)
    requires
        n <= 24,
    ensures
        forall|k: int| 0 <= k < place_base_below(v, n).len() ==> (#[trigger] place_base_below(v, n)[k]) is Place
            && in_bb(v.empty(), target_of(place_base_below(v, n)[k]).0 as u32)
            && target_of(place_base_below(v, n)[k]).0 < n
            && captures_of(place_base_below(v, n)[k]) == Captures::empty_set(),
    decreases n,
{
    if n > 0 {
        lemma_place_base(v, (n - 1) as nat);
    }
}

pub proof fn lemma_slide_row(v: StateView, from: u8, n: nat)
    requires
        n <= 24,
    ensures
        forall|k: int| 0 <= k < slide_row(v, from, n).len() ==> (#[trigger] slide_row(v, from, n)[k]) is Slide
            && origin_of(slide_row(v, from, n)[k]) == Some(Square(from))
            && in_bb(adjacency(from) & v.empty(), target_of(slide_row(v, from, n)[k]).0 as u32)
            && target_of(slide_row(v, from, n)[k]).0 < n
            && captures_of(slide_row(v, from, n)[k]) == Captures::empty_set(),
    decreases n,
{
    if n > 0 {
        lemma_slide_row(v, from, (n - 1) as nat);
    }
}

pub proof fn lemma_fly_row(v: StateView, from: u8, n: nat)
    requires
        n <= 24,
    ensures
        forall|k: int| 0 <= k < fly_row(v, from, n).len() ==> (#[trigger] fly_row(v, from, n)[k]) is Fly
            && origin_of(fly_row(v, from, n)[k]) == Some(Square(from))
            && in_bb(v.empty(), target_of(fly_row(v, from, n)[k]).0 as u32)
            && target_of(fly_row(v, from, n)[k]).0 < n
            && captures_of(fly_row(v, from, n)[k]) == Captures::empty_set(),
    decreases n,
{
    if n > 0 {
        lemma_fly_row(v, from, (n - 1) as nat);
    }
}

pub proof fn lemma_slide_base(v: StateView, c: Color, n: nat)
    requires
        n <= 24,
    ensures
        forall|k: int| 0 <= k < slide_base_below(v, c, n).len() ==> {
            let m = #[trigger] slide_base_below(v, c, n)[k];
            &&& m is Slide
            &&& origin_of(m) matches Some(f) && f.0 < n && in_bb(v.pieces(c), f.0 as u32)
                && in_bb(adjacency(f.0) & v.empty(), target_of(m).0 as u32)
            &&& target_of(m).0 < 24
            &&& captures_of(m) == Captures::empty_set()
        },
    decreases n,
{
    if n > 0 {
        let i = (n - 1) as u8;
        lemma_slide_base(v, c, (n - 1) as nat);
        lemma_slide_row(v, i, 24);
    }
}

pub proof fn lemma_fly_base(v: StateView, c: Color, n: nat)
    requires
        n <= 24,
    ensures
        forall|k: int| 0 <= k < fly_base_below(v, c, n).len() ==> {
            let m = #[trigger] fly_base_below(v, c, n)[k];
            &&& m is Fly
            &&& origin_of(m) matches Some(f) && f.0 < n && in_bb(v.pieces(c), f.0 as u32)
            &&& in_bb(v.empty(), target_of(m).0 as u32)
            &&& target_of(m).0 < 24
            &&& captures_of(m) == Captures::empty_set()
        },
    decreases n,
{
    if n > 0 {
        let i = (n - 1) as u8;
        lemma_fly_base(v, c, (n - 1) as nat);
        lemma_fly_row(v, i, 24);
    }
}

/// Every capture-free base move is well placed.
pub proof fn lemma_base_moves_ok(v: StateView)
    requires
        v.wf(),
    ensures
        forall|k: int| 0 <= k < base_moves(v).len() ==> base_ok(v, #[trigger] base_moves(v)[k]),
{
    let c = v.turn;
    match phase_of(v, c) {
        Phase::Placing => {
            lemma_place_base(v, 24);
            assert forall|k: int| 0 <= k < base_moves(v).len() implies base_ok(v, #[trigger] base_moves(v)[k]) by {
                lemma_empty_point(v, target_of(base_moves(v)[k]).0 as u32);
            }
        },
        Phase::Sliding => {
            lemma_slide_base(v, c, 24);
            assert forall|k: int| 0 <= k < base_moves(v).len() implies base_ok(v, #[trigger] base_moves(v)[k]) by {
                let m = base_moves(v)[k];
                let f = origin_of(m).unwrap();
                lemma_in_bb_and(adjacency(f.0), v.empty());
                lemma_empty_point(v, target_of(m).0 as u32);
                assert(in_bb(adjacency(f.0), target_of(m).0 as u32));
            }
        },
        Phase::Flying => {
            lemma_fly_base(v, c, 24);
            assert forall|k: int| 0 <= k < base_moves(v).len() implies base_ok(v, #[trigger] base_moves(v)[k]) by {
                lemma_empty_point(v, target_of(base_moves(v)[k]).0 as u32);
            }
        },
    }
}

/// Each element of `pairs_below` pairs two distinct indices `i < j`.
pub proof fn lemma_pairs_below(avail: Seq<Square>, n: nat)
    requires
        n <= avail.len(),
    ensures
        forall|k: int| 0 <= k < pairs_below(avail, n).len() ==> exists|i: int, j: int| #![trigger avail[i], avail[j]]
            0 <= i < j < avail.len() && #[trigger] pairs_below(avail, n)[k] == Captures::pair(avail[i], avail[j]),
    decreases n,
{
    if n > 0 {
        lemma_pairs_below(avail, (n - 1) as nat);
        let prev = pairs_below(avail, (n - 1) as nat);
        let row = pair_row(avail, n - 1);
        assert forall|k: int| 0 <= k < pairs_below(avail, n).len() implies exists|i: int, j: int| #![trigger avail[i], avail[j]]
            0 <= i < j < avail.len() && #[trigger] pairs_below(avail, n)[k] == Captures::pair(avail[i], avail[j]) by {
            if k < prev.len() {
                assert(pairs_below(avail, n)[k] == prev[k]);
                let (i, j) = choose|i: int, j: int| #![trigger avail[i], avail[j]] 0 <= i < j < avail.len() && prev[k] == Captures::pair(avail[i], avail[j]);
                assert(0 <= i < j < avail.len() && pairs_below(avail, n)[k] == Captures::pair(avail[i], avail[j]));
            } else {
                let t = k - prev.len();
                assert(pairs_below(avail, n)[k] == row[t]);
                assert(row[t] == Captures::pair(avail[n - 1], avail[n - 1 + 1 + t]));
                let i = n - 1;
                let j = n - 1 + 1 + t;
                assert(0 <= i < j < avail.len() && pairs_below(avail, n)[k] == Captures::pair(avail[i], avail[j]));
            }
        }
    }
}

/// Capture targets are distinct opponent pieces on the board.
pub proof fn lemma_targets(v: StateView, c: Color)
    ensures
        forall|k: int| 0 <= k < capture_targets(v, c).len() ==> (#[trigger] capture_targets(v, c)[k]).0 < 24
            && in_bb(v.pieces(opponent_of(c)), capture_targets(v, c)[k].0 as u32),
        forall|a: int, b: int| 0 <= a < b < capture_targets(v, c).len()
            ==> (#[trigger] capture_targets(v, c)[a]).0 < (#[trigger] capture_targets(v, c)[b]).0,
{
    lemma_squares_below(capturable(v, c), 24);
}

/// Choosing captures for a well placed base move gives a playable move.
pub proof fn lemma_expand_ok(v: StateView, m: Move, k: int)
    requires
        v.wf(),
        base_ok(v, m),
        0 <= k < expand(v, v.turn, capture_targets(v, v.turn), m).len(),
    ensures
        follows_rules(v, #[trigger] expand(v, v.turn, capture_targets(v, v.turn), m)[k]),
{
    let c = v.turn;
    let avail = capture_targets(v, c);
    let e = expand(v, c, avail, m);
    Captures::lemma_shapes();
    lemma_targets(v, c);
    let mills = mills_of_move(v, c, m);
    assert(mills <= 2);
    if mills == 0 {
        assert(e[k] == m);
    } else {
        let n = if mills < avail.len() { mills } else { avail.len() };
        let combos = combinations(avail, n);
        let cap = combos[k];
        assert(e[k] == with_caps(m, cap));
        assert(mills_of_move(v, c, e[k]) == mills);
        if n == 1 {
            assert(cap == Captures::single(avail[k]));
            assert(cap.squares() == seq![avail[k]]);
            assert(avail.contains(cap.squares()[0]));
        } else if n == 2 {
            lemma_pairs_below(avail, avail.len());
            let (i, j) = choose|i: int, j: int| #![trigger avail[i], avail[j]] 0 <= i < j < avail.len() && combos[k] == Captures::pair(avail[i], avail[j]);
            assert(cap.squares() == seq![avail[i], avail[j]]);
            assert(avail[i].0 < avail[j].0);
            assert(avail.contains(cap.squares()[0]));
            assert(avail.contains(cap.squares()[1]));
        } else {
            assert(combos.len() == 0);
        }
    }
}

/// Elements of `expand_all` come from expanding one of the base moves.
pub proof fn lemma_expand_all_member(v: StateView, c: Color, avail: Seq<Square>, base: Seq<Move>, k: int)
    requires
        0 <= k < expand_all(v, c, avail, base).len(),
    ensures
        exists|j: int, t: int| 0 <= j < base.len() && 0 <= t < expand(v, c, avail, base[j]).len()
            && expand_all(v, c, avail, base)[k] == #[trigger] expand(v, c, avail, base[j])[t],
    decreases base.len(),
{
    let prev = expand_all(v, c, avail, base.drop_last());
    if k < prev.len() {
        lemma_expand_all_member(v, c, avail, base.drop_last(), k);
        let (j, t) = choose|j: int, t: int| 0 <= j < base.drop_last().len() && 0 <= t < expand(v, c, avail, base.drop_last()[j]).len()
            && prev[k] == #[trigger] expand(v, c, avail, base.drop_last()[j])[t];
        assert(base.drop_last()[j] == base[j]);
    } else {
        let t = k - prev.len();
        assert(expand_all(v, c, avail, base)[k] == expand(v, c, avail, base[base.len() - 1])[t]);
    }
}

/// Every generated move follows the rules: it is of the kind the phase
/// allows (slides along a board line, flights anywhere), lands on an empty
/// point, moves the mover's own piece, and captures distinct capturable
/// pieces — one per mill formed, or every capturable piece when there are
/// fewer — and so can be played out by `make_move`.
pub proof fn lemma_legal_moves_follow_rules(v: StateView)
    requires
        v.wf(),
    ensures
        forall|k: int| 0 <= k < legal_moves(v).len() ==> follows_rules(v, #[trigger] legal_moves(v)[k]),
{
    reveal(legal_moves);
    lemma_base_moves_ok(v);
    assert forall|k: int| 0 <= k < legal_moves(v).len() implies follows_rules(v, #[trigger] legal_moves(v)[k]) by {
        lemma_expand_all_member(v, v.turn, capture_targets(v, v.turn), base_moves(v), k);
        let (j, t) = choose|j: int, t: int| 0 <= j < base_moves(v).len() && 0 <= t < expand(v, v.turn, capture_targets(v, v.turn), base_moves(v)[j]).len()
            && legal_moves(v)[k] == #[trigger] expand(v, v.turn, capture_targets(v, v.turn), base_moves(v)[j])[t];
        lemma_expand_ok(v, base_moves(v)[j], t);
    }
}

/// Every generated move can be played out by `make_move`.
pub proof fn lemma_legal_moves_playable(v: StateView)
    requires
        v.wf(),
    ensures
        forall|k: int| 0 <= k < legal_moves(v).len() ==> playable(v, #[trigger] legal_moves(v)[k]),
{
    lemma_legal_moves_follow_rules(v);
    assert forall|k: int| 0 <= k < legal_moves(v).len() implies playable(v, #[trigger] legal_moves(v)[k]) by {
        assert(follows_rules(v, legal_moves(v)[k]));
    }
}

/// Some point below `n` satisfies `p`, so `squares_below` is not empty.
pub proof fn lemma_squares_below_nonempty(p: spec_fn(u8) -> bool, n: nat, i: u8)
    requires
        i < n,
        p(i),
    ensures
        squares_below(p, n).len() > 0,
    decreases n,
{
    if i < n - 1 {
        lemma_squares_below_nonempty(p, (n - 1) as nat, i);
    }
}

/// When the opponent of `c` has a piece on the board, `c` has something to capture.
pub proof fn lemma_targets_nonempty(v: StateView, c: Color, i: u8)
    requires
        i < 24,
        in_bb(v.pieces(opponent_of(c)), i as u32),
    ensures
        capture_targets(v, c).len() > 0,
{
    let opp = opponent_of(c);
    if all_in_mills(v, opp) || !in_mill(v, opp, i) {
        lemma_squares_below_nonempty(capturable(v, c), 24, i);
    } else {
        let j = choose|j: u8| !(j < 24 && #[trigger] in_bb(v.pieces(opp), j as u32) ==> in_mill(v, opp, j));
        lemma_squares_below_nonempty(capturable(v, c), 24, j);
    }
}

/// `c` has something to capture exactly when its opponent has a piece on
/// the board.
pub proof fn lemma_targets_empty_iff(v: StateView, c: Color)
    ensures
        capture_targets(v, c).len() > 0 <==> exists|i: u8| i < 24 && #[trigger] in_bb(v.pieces(opponent_of(c)), i as u32),
{
    if exists|i: u8| i < 24 && #[trigger] in_bb(v.pieces(opponent_of(c)), i as u32) {
        let i = choose|i: u8| i < 24 && #[trigger] in_bb(v.pieces(opponent_of(c)), i as u32);
        lemma_targets_nonempty(v, c, i);
    }
    if capture_targets(v, c).len() > 0 {
        lemma_targets(v, c);
        let sq = capture_targets(v, c)[0];
        assert(sq.0 < 24 && in_bb(v.pieces(opponent_of(c)), sq.0 as u32));
    }
}

/// While the opponent of the side to move has a piece on the board, move
/// generation is defined.
pub proof fn lemma_opponent_on_board_moves_defined(v: StateView, i: u8)
    requires
        v.wf(),
        i < 24,
        in_bb(v.pieces(opponent_of(v.turn)), i as u32),
    ensures
        moves_defined(v),
        terminal_decidable(v),
{
    reveal(moves_defined);
    lemma_targets_nonempty(v, v.turn, i);
}

/// After a playable move, the next side always has something to capture
/// (the piece that just moved), so moves can be generated and
/// `terminal` decided for the new position.
pub proof fn lemma_child_decidable(v: StateView, mv: Move)
    requires
        v.wf(),
        playable(v, mv),
    ensures
        moves_defined(after_move(v, mv)),
        terminal_decidable(after_move(v, mv)),
{
    reveal(moves_defined);
    lemma_after_move(v, mv);
    let c = after_move(v, mv);
    assert(opponent_of(c.turn) == v.turn);
    lemma_targets_nonempty(c, c.turn, target_of(mv).0);
}

/// With an empty board no move can complete a mill, so move generation
/// is defined for the opening position.
pub proof fn lemma_empty_board_moves_defined(v: StateView)
    requires
        v.wf(),
        v.white == 0,
        v.black == 0,
        v.hand(v.turn) > 0,
    ensures
        moves_defined(v),
        terminal_decidable(v),
{
    reveal(moves_defined);
    lemma_place_base(v, 24);
    assert forall|i: int| 0 <= i < base_moves(v).len() implies mills_of_move(v, v.turn, #[trigger] base_moves(v)[i]) == 0 by {
        let m = base_moves(v)[i];
        let s = target_of(m).0;
        let b = 1u32 << s;
        assert(0u32 | b == b) by (bit_vector);
        assert(v.pieces(v.turn) == 0u32);
        assert(landed(v, v.turn, target_of(m), None) == b);
        assert forall|k: u8| k < 16 implies (1u32 << s) & #[trigger] crate::board::mill_mask(k) != crate::board::mill_mask(k) by {
            crate::board::lemma_single_square_no_mill(s, k);
        }
    }
}

// ---------------------------------------------------------------------
// Every move the rules allow is generated.
// ---------------------------------------------------------------------

/// Two capture sets hold the same squares, in any order.
pub open spec fn same_captures(a: Captures, b: Captures) -> bool {
    &&& a.squares().len() == b.squares().len()
    &&& forall|i: int| 0 <= i < a.squares().len() ==> b.squares().contains(#[trigger] a.squares()[i])
}

/// An empty point is empty as the bitboards see it.
proof fn lemma_point_empty(v: StateView, i: u32)
    requires
        i < 24,
        v.is_empty_at(i),
    ensures
        in_bb(v.empty(), i),
{
    lemma_in_bb_and(!(v.white | v.black), crate::board::BOARD_MASK);
    lemma_in_bb_not(v.white | v.black);
    lemma_in_bb_or(v.white, v.black);
    lemma_in_bb_board_mask();
}

proof fn lemma_place_base_has(v: StateView, n: nat, i: u8)
    requires
        i < n <= 24,
        in_bb(v.empty(), i as u32),
    ensures
        place_base_below(v, n).contains(Move::Place { to: Square(i), captures: Captures::empty_set() }),
    decreases n,
{
    let m = Move::Place { to: Square(i), captures: Captures::empty_set() };
    let prev = place_base_below(v, (n - 1) as nat);
    if i < n - 1 {
        lemma_place_base_has(v, (n - 1) as nat, i);
        let k = choose|k: int| 0 <= k < prev.len() && prev[k] == m;
        assert(place_base_below(v, n)[k] == m);
    } else {
        assert(place_base_below(v, n)[prev.len() as int] == m);
    }
}

proof fn lemma_slide_row_has(v: StateView, from: u8, n: nat, i: u8)
    requires
        i < n <= 24,
        in_bb(adjacency(from) & v.empty(), i as u32),
    ensures
        slide_row(v, from, n).contains(Move::Slide { from: Square(from), to: Square(i), captures: Captures::empty_set() }),
    decreases n,
{
    let m = Move::Slide { from: Square(from), to: Square(i), captures: Captures::empty_set() };
    let prev = slide_row(v, from, (n - 1) as nat);
    if i < n - 1 {
        lemma_slide_row_has(v, from, (n - 1) as nat, i);
        let k = choose|k: int| 0 <= k < prev.len() && prev[k] == m;
        assert(slide_row(v, from, n)[k] == m);
    } else {
        assert(slide_row(v, from, n)[prev.len() as int] == m);
    }
}

proof fn lemma_fly_row_has(v: StateView, from: u8, n: nat, i: u8)
    requires
        i < n <= 24,
        in_bb(v.empty(), i as u32),
    ensures
        fly_row(v, from, n).contains(Move::Fly { from: Square(from), to: Square(i), captures: Captures::empty_set() }),
    decreases n,
{
    let m = Move::Fly { from: Square(from), to: Square(i), captures: Captures::empty_set() };
    let prev = fly_row(v, from, (n - 1) as nat);
    if i < n - 1 {
        lemma_fly_row_has(v, from, (n - 1) as nat, i);
        let k = choose|k: int| 0 <= k < prev.len() && prev[k] == m;
        assert(fly_row(v, from, n)[k] == m);
    } else {
        assert(fly_row(v, from, n)[prev.len() as int] == m);
    }
}

proof fn lemma_slide_base_has(v: StateView, c: Color, n: nat, from: u8, m: Move)
    requires
        from < n <= 24,
        in_bb(v.pieces(c), from as u32),
        slide_row(v, from, 24).contains(m),
    ensures
        slide_base_below(v, c, n).contains(m),
    decreases n,
{
    let prev = slide_base_below(v, c, (n - 1) as nat);
    if from < n - 1 {
        lemma_slide_base_has(v, c, (n - 1) as nat, from, m);
        let k = choose|k: int| 0 <= k < prev.len() && prev[k] == m;
        assert(slide_base_below(v, c, n)[k] == m);
    } else {
        let row = slide_row(v, from, 24);
        let k = choose|k: int| 0 <= k < row.len() && row[k] == m;
        assert(slide_base_below(v, c, n)[prev.len() + k] == m);
    }
}

proof fn lemma_fly_base_has(v: StateView, c: Color, n: nat, from: u8, m: Move)
    requires
        from < n <= 24,
        in_bb(v.pieces(c), from as u32),
        fly_row(v, from, 24).contains(m),
    ensures
        fly_base_below(v, c, n).contains(m),
    decreases n,
{
    let prev = fly_base_below(v, c, (n - 1) as nat);
    if from < n - 1 {
        lemma_fly_base_has(v, c, (n - 1) as nat, from, m);
        let k = choose|k: int| 0 <= k < prev.len() && prev[k] == m;
        assert(fly_base_below(v, c, n)[k] == m);
    } else {
        let row = fly_row(v, from, 24);
        let k = choose|k: int| 0 <= k < row.len() && row[k] == m;
        assert(fly_base_below(v, c, n)[prev.len() + k] == m);
    }
}

/// The capture-free form of a move the rules allow is a base move.
proof fn lemma_base_has(v: StateView, m: Move)
    requires
        v.wf(),
        follows_rules(v, m),
    ensures
        base_moves(v).contains(with_caps(m, Captures::empty_set())),
{
    let c = v.turn;
    let to = target_of(m).0;
    lemma_point_empty(v, to as u32);
    match phase_of(v, c) {
        Phase::Placing => {
            lemma_place_base_has(v, 24, to);
        },
        Phase::Sliding => {
            let from = origin_of(m).unwrap().0;
            lemma_in_bb_and(adjacency(from), v.empty());
            lemma_slide_row_has(v, from, 24, to);
            lemma_slide_base_has(v, c, 24, from, with_caps(m, Captures::empty_set()));
        },
        Phase::Flying => {
            let from = origin_of(m).unwrap().0;
            lemma_fly_row_has(v, from, 24, to);
            lemma_fly_base_has(v, c, 24, from, with_caps(m, Captures::empty_set()));
        },
    }
}

/// `pairs_below` holds every pair `avail[p], avail[q]` with `p < q` and `p < n`.
proof fn lemma_pairs_below_has(avail: Seq<Square>, n: nat, p: int, q: int)
    requires
        n <= avail.len(),
        0 <= p < q < avail.len(),
        p < n,
    ensures
        pairs_below(avail, n).contains(Captures::pair(avail[p], avail[q])),
    decreases n,
{
    let prev = pairs_below(avail, (n - 1) as nat);
    if p < n - 1 {
        lemma_pairs_below_has(avail, (n - 1) as nat, p, q);
        let k = choose|k: int| 0 <= k < prev.len() && prev[k] == Captures::pair(avail[p], avail[q]);
        assert(pairs_below(avail, n)[k] == Captures::pair(avail[p], avail[q]));
    } else {
        let row = pair_row(avail, p);
        assert(row[q - p - 1] == Captures::pair(avail[p], avail[q]));
        assert(pairs_below(avail, n)[prev.len() + q - p - 1] == Captures::pair(avail[p], avail[q]));
    }
}

/// `expand_all` holds every expansion of every base move.
proof fn lemma_expand_all_has(v: StateView, c: Color, avail: Seq<Square>, base: Seq<Move>, j: int, t: int)
    requires
        0 <= j < base.len(),
        0 <= t < expand(v, c, avail, base[j]).len(),
    ensures
        expand_all(v, c, avail, base).contains(expand(v, c, avail, base[j])[t]),
    decreases base.len(),
{
    let x = expand(v, c, avail, base[j])[t];
    let prev = expand_all(v, c, avail, base.drop_last());
    if j < base.len() - 1 {
        assert(base.drop_last()[j] == base[j]);
        lemma_expand_all_has(v, c, avail, base.drop_last(), j, t);
        let k = choose|k: int| 0 <= k < prev.len() && prev[k] == x;
        assert(expand_all(v, c, avail, base)[k] == x);
    } else {
        assert(expand_all(v, c, avail, base)[prev.len() + t] == x);
    }
}

/// Every move the rules allow is generated, up to the order in which its
/// captured squares are listed: move generation is complete.
pub proof fn lemma_rule_moves_generated(v: StateView, m: Move)
    requires
        can_generate(v),
        follows_rules(v, m),
    ensures
        exists|k: int| 0 <= k < legal_moves(v).len()
            && with_caps(#[trigger] legal_moves(v)[k], Captures::empty_set()) == with_caps(m, Captures::empty_set())
            && same_captures(captures_of(legal_moves(v)[k]), captures_of(m)),
{
    reveal(legal_moves);
    reveal(moves_defined);
    Captures::lemma_shapes();
    let c = v.turn;
    let avail = capture_targets(v, c);
    let b = with_caps(m, Captures::empty_set());
    let base = base_moves(v);
    lemma_base_has(v, m);
    let j = choose|j: int| 0 <= j < base.len() && base[j] == b;
    let caps = captures_of(m).squares();
    let k = mills_of_move(v, c, m);
    assert(mills_of_move(v, c, b) == k);
    captures_of(m).lemma_at_most_two();
    let e = expand(v, c, avail, b);
    let t: int = if k == 0 {
        assert(e[0] == b);
        0
    } else {
        assert(avail.len() > 0);
        let n = if k < avail.len() { k } else { avail.len() };
        assert(n == caps.len());
        if n == 1 {
            assert(avail.contains(caps[0]));
            let i = choose|i: int| 0 <= i < avail.len() && avail[i] == caps[0];
            assert(e[i] == with_caps(b, Captures::single(avail[i])));
            i
        } else {
            assert(n == 2);
            assert(avail.contains(caps[0]));
            assert(avail.contains(caps[1]));
            let i0 = choose|i: int| 0 <= i < avail.len() && avail[i] == caps[0];
            let i1 = choose|i: int| 0 <= i < avail.len() && avail[i] == caps[1];
            let p = if i0 < i1 { i0 } else { i1 };
            let q = if i0 < i1 { i1 } else { i0 };
            lemma_pairs_below_has(avail, avail.len(), p, q);
            let combos = combinations(avail, n);
            let r = choose|r: int| 0 <= r < combos.len() && combos[r] == Captures::pair(avail[p], avail[q]);
            assert(e[r] == with_caps(b, Captures::pair(avail[p], avail[q])));
            assert(Captures::pair(avail[p], avail[q]).squares() == seq![avail[p], avail[q]]);
            r
        }
    };
    lemma_expand_all_has(v, c, avail, base, j, t);
    let x = e[t];
    let lm = legal_moves(v);
    let idx = choose|idx: int| 0 <= idx < lm.len() && lm[idx] == x;
    assert(with_caps(lm[idx], Captures::empty_set()) == b);
    assert(same_captures(captures_of(lm[idx]), captures_of(m)));
}

// ---------------------------------------------------------------------
// Move generation lists no move twice.
// ---------------------------------------------------------------------

/// Sort key of a move's points: the origin (if any) first, then the target.
pub open spec fn base_key(m: Move) -> int {
    (match origin_of(m) {
        Some(f) => f.0 as int + 1,
        None => 0,
    }) * 32 + target_of(m).0 as int
}

/// Sort key of a capture set.
pub open spec fn cap_key(c: Captures) -> int {
    let s = c.squares();
    if s.len() == 0 {
        0
    } else if s.len() == 1 {
        s[0].0 as int + 1
    } else {
        (s[0].0 as int + 1) * 32 + s[1].0 as int + 1
    }
}

/// Sort key of a move: its points, then its captures.
pub open spec fn move_key(m: Move) -> int {
    base_key(m) * 2048 + cap_key(captures_of(m))
}

/// The moves' point keys strictly increase.
pub open spec fn base_increasing(s: Seq<Move>) -> bool {
    forall|a: int, b: int| 0 <= a < b < s.len() ==> base_key(#[trigger] s[a]) < base_key(#[trigger] s[b])
}

/// The moves' keys strictly increase.
pub open spec fn moves_increasing(s: Seq<Move>) -> bool {
    forall|a: int, b: int| 0 <= a < b < s.len() ==> move_key(#[trigger] s[a]) < move_key(#[trigger] s[b])
}

/// The capture sets' keys strictly increase.
pub open spec fn caps_increasing(s: Seq<Captures>) -> bool {
    forall|a: int, b: int| 0 <= a < b < s.len() ==> cap_key(#[trigger] s[a]) < cap_key(#[trigger] s[b])
}

proof fn lemma_place_base_increasing(v: StateView, n: nat)
    requires
        n <= 24,
    ensures
        base_increasing(place_base_below(v, n)),
    decreases n,
{
    if n > 0 {
        lemma_place_base_increasing(v, (n - 1) as nat);
        lemma_place_base(v, (n - 1) as nat);
        lemma_place_base(v, n);
    }
}

proof fn lemma_slide_row_increasing(v: StateView, from: u8, n: nat)
    requires
        n <= 24,
    ensures
        base_increasing(slide_row(v, from, n)),
    decreases n,
{
    if n > 0 {
        lemma_slide_row_increasing(v, from, (n - 1) as nat);
        lemma_slide_row(v, from, (n - 1) as nat);
        lemma_slide_row(v, from, n);
    }
}

proof fn lemma_fly_row_increasing(v: StateView, from: u8, n: nat)
    requires
        n <= 24,
    ensures
        base_increasing(fly_row(v, from, n)),
    decreases n,
{
    if n > 0 {
        lemma_fly_row_increasing(v, from, (n - 1) as nat);
        lemma_fly_row(v, from, (n - 1) as nat);
        lemma_fly_row(v, from, n);
    }
}

proof fn lemma_slide_base_increasing(v: StateView, c: Color, n: nat)
    requires
        n <= 24,
    ensures
        base_increasing(slide_base_below(v, c, n)),
    decreases n,
{
    if n > 0 {
        let i = (n - 1) as u8;
        lemma_slide_base_increasing(v, c, (n - 1) as nat);
        lemma_slide_base(v, c, (n - 1) as nat);
        lemma_slide_row_increasing(v, i, 24);
        lemma_slide_row(v, i, 24);
        let prev = slide_base_below(v, c, (n - 1) as nat);
        let row = if in_bb(v.pieces(c), i as u32) { slide_row(v, i, 24) } else { Seq::empty() };
        let all = slide_base_below(v, c, n);
        assert(all == prev + row);
        assert forall|a: int, b: int| 0 <= a < b < all.len() implies base_key(#[trigger] all[a]) < base_key(
            #[trigger] all[b],
        ) by {
            if b >= prev.len() && a < prev.len() {
                assert(all[a] == prev[a]);
                assert(all[b] == row[b - prev.len()]);
            } else if a >= prev.len() {
                assert(all[a] == row[a - prev.len()]);
                assert(all[b] == row[b - prev.len()]);
            } else {
                assert(all[a] == prev[a]);
                assert(all[b] == prev[b]);
            }
        }
    }
}

proof fn lemma_fly_base_increasing(v: StateView, c: Color, n: nat)
    requires
        n <= 24,
    ensures
        base_increasing(fly_base_below(v, c, n)),
    decreases n,
{
    if n > 0 {
        let i = (n - 1) as u8;
        lemma_fly_base_increasing(v, c, (n - 1) as nat);
        lemma_fly_base(v, c, (n - 1) as nat);
        lemma_fly_row_increasing(v, i, 24);
        lemma_fly_row(v, i, 24);
        let prev = fly_base_below(v, c, (n - 1) as nat);
        let row = if in_bb(v.pieces(c), i as u32) { fly_row(v, i, 24) } else { Seq::empty() };
        let all = fly_base_below(v, c, n);
        assert(all == prev + row);
        assert forall|a: int, b: int| 0 <= a < b < all.len() implies base_key(#[trigger] all[a]) < base_key(
            #[trigger] all[b],
        ) by {
            if b >= prev.len() && a < prev.len() {
                assert(all[a] == prev[a]);
                assert(all[b] == row[b - prev.len()]);
            } else if a >= prev.len() {
                assert(all[a] == row[a - prev.len()]);
                assert(all[b] == row[b - prev.len()]);
            } else {
                assert(all[a] == prev[a]);
                assert(all[b] == prev[b]);
            }
        }
    }
}

/// The base moves come in strictly increasing point order, capture-free.
proof fn lemma_base_increasing(v: StateView)
    ensures
        base_increasing(base_moves(v)),
        forall|k: int| 0 <= k < base_moves(v).len() ==> captures_of(#[trigger] base_moves(v)[k]) == Captures::empty_set()
            && target_of(base_moves(v)[k]).0 < 24 && (origin_of(base_moves(v)[k]) matches Some(f) ==> f.0 < 24),
{
    match phase_of(v, v.turn) {
        Phase::Placing => {
            lemma_place_base_increasing(v, 24);
            lemma_place_base(v, 24);
        },
        Phase::Sliding => {
            lemma_slide_base_increasing(v, v.turn, 24);
            lemma_slide_base(v, v.turn, 24);
        },
        Phase::Flying => {
            lemma_fly_base_increasing(v, v.turn, 24);
            lemma_fly_base(v, v.turn, 24);
        },
    }
}

/// Points strictly increasing, all on the board.
pub open spec fn points_increasing(avail: Seq<Square>) -> bool {
    &&& forall|k: int| 0 <= k < avail.len() ==> (#[trigger] avail[k]).0 < 24
    &&& forall|a: int, b: int| 0 <= a < b < avail.len() ==> (#[trigger] avail[a]).0 < (#[trigger] avail[b]).0
}

proof fn lemma_pairs_increasing(avail: Seq<Square>, n: nat)
    requires
        n <= avail.len(),
        points_increasing(avail),
    ensures
        caps_increasing(pairs_below(avail, n)),
        forall|k: int| 0 <= k < pairs_below(avail, n).len() ==> 0 <= cap_key(#[trigger] pairs_below(avail, n)[k])
            < (avail[n - 1].0 + 2) * 32,
    decreases n,
{
    Captures::lemma_shapes();
    if n > 0 {
        lemma_pairs_increasing(avail, (n - 1) as nat);
        let prev = pairs_below(avail, (n - 1) as nat);
        let row = pair_row(avail, n - 1);
        let all = pairs_below(avail, n);
        assert(all == prev + row);
        assert forall|j: int| 0 <= j < row.len() implies cap_key(#[trigger] row[j]) == (avail[n - 1].0 + 1) * 32
            + avail[n + j].0 + 1 by {
            assert(row[j] == Captures::pair(avail[n - 1], avail[n - 1 + 1 + j]));
        }
        if n > 1 {
            assert(avail[n - 2].0 < avail[n - 1].0);
        }
        assert forall|k: int| 0 <= k < all.len() implies 0 <= cap_key(#[trigger] all[k]) < (avail[n - 1].0 + 2) * 32 by {
            if k < prev.len() {
                assert(all[k] == prev[k]);
            } else {
                assert(all[k] == row[k - prev.len()]);
                assert(avail[n + (k - prev.len())].0 < 24);
            }
        }
        assert forall|a: int, b: int| 0 <= a < b < all.len() implies cap_key(#[trigger] all[a]) < cap_key(
            #[trigger] all[b],
        ) by {
            if b >= prev.len() && a < prev.len() {
                assert(all[a] == prev[a]);
                assert(all[b] == row[b - prev.len()]);
            } else if a >= prev.len() {
                assert(all[a] == row[a - prev.len()]);
                assert(all[b] == row[b - prev.len()]);
                assert(avail[n + (a - prev.len())].0 < avail[n + (b - prev.len())].0);
            } else {
                assert(all[a] == prev[a]);
                assert(all[b] == prev[b]);
            }
        }
    }
}

proof fn lemma_combinations_increasing(avail: Seq<Square>, n: nat)
    requires
        points_increasing(avail),
    ensures
        caps_increasing(combinations(avail, n)),
        forall|k: int| 0 <= k < combinations(avail, n).len() ==> 0 <= cap_key(#[trigger] combinations(avail, n)[k]) < 2048,
{
    Captures::lemma_shapes();
    if n == 2 {
        lemma_pairs_increasing(avail, avail.len());
        if avail.len() > 0 {
            assert(avail[avail.len() - 1].0 < 24);
        }
    }
}

proof fn lemma_expand_increasing(v: StateView, c: Color, avail: Seq<Square>, m: Move)
    requires
        points_increasing(avail),
        captures_of(m) == Captures::empty_set(),
    ensures
        moves_increasing(expand(v, c, avail, m)),
        forall|k: int| 0 <= k < expand(v, c, avail, m).len() ==> base_key(#[trigger] expand(v, c, avail, m)[k]) == base_key(m)
            && 0 <= cap_key(captures_of(expand(v, c, avail, m)[k])) < 2048,
{
    Captures::lemma_shapes();
    let k = mills_of_move(v, c, m);
    if k != 0 {
        let n: nat = if k < avail.len() { k } else { avail.len() };
        lemma_combinations_increasing(avail, n);
        let combos = combinations(avail, n);
        let e = expand(v, c, avail, m);
        assert forall|j: int| 0 <= j < e.len() implies #[trigger] e[j] == with_caps(m, combos[j]) by {}
        assert forall|j: int| 0 <= j < e.len() implies base_key(#[trigger] e[j]) == base_key(m) && captures_of(e[j])
            == combos[j] by {
            assert(e[j] == with_caps(m, combos[j]));
        }
        assert forall|a: int, b: int| 0 <= a < b < e.len() implies move_key(#[trigger] e[a]) < move_key(#[trigger] e[b]) by {
            assert(cap_key(combos[a]) < cap_key(combos[b]));
        }
    }
}

proof fn lemma_expand_all_increasing(v: StateView, c: Color, avail: Seq<Square>, base: Seq<Move>)
    requires
        points_increasing(avail),
        base_increasing(base),
        forall|k: int| 0 <= k < base.len() ==> captures_of(#[trigger] base[k]) == Captures::empty_set(),
    ensures
        moves_increasing(expand_all(v, c, avail, base)),
        forall|k: int| 0 <= k < expand_all(v, c, avail, base).len() ==> exists|j: int|
            0 <= j < base.len() && base_key(#[trigger] base[j]) == base_key(#[trigger] expand_all(v, c, avail, base)[k]),
        forall|k: int| 0 <= k < expand_all(v, c, avail, base).len() ==> 0 <= cap_key(
            captures_of(#[trigger] expand_all(v, c, avail, base)[k]),
        ) < 2048,
    decreases base.len(),
{
    if base.len() > 0 {
        let init = base.drop_last();
        let last = base.last();
        assert forall|k: int| 0 <= k < init.len() implies captures_of(#[trigger] init[k]) == Captures::empty_set() by {
            assert(init[k] == base[k]);
        }
        assert(base_increasing(init)) by {
            assert forall|a: int, b: int| 0 <= a < b < init.len() implies base_key(#[trigger] init[a]) < base_key(
                #[trigger] init[b],
            ) by {
                assert(init[a] == base[a] && init[b] == base[b]);
            }
        }
        lemma_expand_all_increasing(v, c, avail, init);
        lemma_expand_increasing(v, c, avail, last);
        let prev = expand_all(v, c, avail, init);
        let tail = expand(v, c, avail, last);
        let all = expand_all(v, c, avail, base);
        assert(all == prev + tail);
        assert forall|k: int| 0 <= k < prev.len() implies base_key(#[trigger] prev[k]) < base_key(last) by {
            let j = choose|j: int| 0 <= j < init.len() && base_key(#[trigger] init[j]) == base_key(prev[k]);
            assert(init[j] == base[j]);
            assert(base_key(base[j]) < base_key(base[base.len() - 1]));
        }
        assert forall|k: int| 0 <= k < all.len() implies exists|j: int|
            0 <= j < base.len() && base_key(#[trigger] base[j]) == base_key(#[trigger] all[k]) by {
            if k < prev.len() {
                assert(all[k] == prev[k]);
                let j = choose|j: int| 0 <= j < init.len() && base_key(#[trigger] init[j]) == base_key(prev[k]);
                assert(init[j] == base[j]);
            } else {
                assert(all[k] == tail[k - prev.len()]);
                assert(base[base.len() - 1] == last);
            }
        }
        assert forall|k: int| 0 <= k < all.len() implies 0 <= cap_key(captures_of(#[trigger] all[k])) < 2048 by {
            if k < prev.len() {
                assert(all[k] == prev[k]);
            } else {
                assert(all[k] == tail[k - prev.len()]);
            }
        }
        assert forall|a: int, b: int| 0 <= a < b < all.len() implies move_key(#[trigger] all[a]) < move_key(
            #[trigger] all[b],
        ) by {
            if b >= prev.len() && a < prev.len() {
                assert(all[a] == prev[a]);
                assert(all[b] == tail[b - prev.len()]);
                assert(base_key(prev[a]) < base_key(last));
            } else if a >= prev.len() {
                assert(all[a] == tail[a - prev.len()]);
                assert(all[b] == tail[b - prev.len()]);
            } else {
                assert(all[a] == prev[a]);
                assert(all[b] == prev[b]);
            }
        }
    }
}

/// Move generation lists no move twice: the legal moves come in strictly
/// increasing order of their points and then their captures.
pub proof fn lemma_legal_moves_distinct(v: StateView)
    ensures
        moves_increasing(legal_moves(v)),
        legal_moves(v).no_duplicates(),
{
    reveal(legal_moves);
    lemma_base_increasing(v);
    lemma_targets(v, v.turn);
    lemma_expand_all_increasing(v, v.turn, capture_targets(v, v.turn), base_moves(v));
    let lm = legal_moves(v);
    assert forall|a: int, b: int| 0 <= a < lm.len() && 0 <= b < lm.len() && a != b implies lm[a] != lm[b] by {
        if a < b {
            assert(move_key(lm[a]) < move_key(lm[b]));
        } else {
            assert(move_key(lm[b]) < move_key(lm[a]));
        }
    }
}

// ---------------------------------------------------------------------
// Counting.
// ---------------------------------------------------------------------

proof fn lemma_count_off_board(bb: u32, n: nat)
    requires
        24 <= n <= 32,
        forall|i: u32| 24 <= i < 32 ==> !#[trigger] in_bb(bb, i),
    ensures
        count_below(bb, n) == count_below(bb, 24),
    decreases n,
{
    if n > 24 {
        lemma_count_off_board(bb, (n - 1) as nat);
        assert(!in_bb(bb, (n - 1) as u32));
    }
}

/// A side's pieces on the board are the points it owns.
pub proof fn lemma_on_board_counts_points(v: StateView, c: Color)
    requires
        v.wf(),
    ensures
        v.on_board(c) == count_below(v.pieces(c), 24),
{
    let bb = v.pieces(c);
    lemma_in_bb_and(bb, !crate::board::BOARD_MASK);
    lemma_in_bb_not(crate::board::BOARD_MASK);
    lemma_in_bb_board_mask();
    crate::board::lemma_in_bb_zero();
    assert forall|i: u32| 24 <= i < 32 implies !#[trigger] in_bb(bb, i) by {
        assert(!in_bb(bb & !crate::board::BOARD_MASK, i));
    }
    lemma_count_off_board(bb, 32);
}

proof fn lemma_fly_row_len(v: StateView, from: u8, n: nat)
    requires
        n <= 24,
    ensures
        fly_row(v, from, n).len() == count_below(v.empty(), n),
    decreases n,
{
    if n > 0 {
        lemma_fly_row_len(v, from, (n - 1) as nat);
    }
}

proof fn lemma_fly_base_len(v: StateView, c: Color, n: nat)
    requires
        n <= 24,
    ensures
        fly_base_below(v, c, n).len() == count_below(v.pieces(c), n) * count_below(v.empty(), 24),
    decreases n,
{
    if n > 0 {
        lemma_fly_base_len(v, c, (n - 1) as nat);
        lemma_fly_row_len(v, (n - 1) as u8, 24);
        let a = count_below(v.pieces(c), (n - 1) as nat);
        let e = count_below(v.empty(), 24);
        assert((a + 1) * e == a * e + e) by (nonlinear_arith);
        let i = (n - 1) as u8;
        assert(i as u32 == (n - 1) as u32);
        if in_bb(v.pieces(c), i as u32) {
            assert(count_below(v.pieces(c), n) == a + 1);
            assert(fly_base_below(v, c, n).len() == fly_base_below(v, c, (n - 1) as nat).len() + e);
        } else {
            assert(count_below(v.pieces(c), n) == a);
            assert(fly_base_below(v, c, n).len() == fly_base_below(v, c, (n - 1) as nat).len());
        }
    } else {
        let e = count_below(v.empty(), 24);
        assert(0 * e == 0) by (nonlinear_arith);
    }
}

/// A flying side has, before captures are chosen, one flight for each of
/// its pieces and each empty point.
pub proof fn lemma_flight_count(v: StateView)
    requires
        phase_of(v, v.turn) == Phase::Flying,
    ensures
        base_moves(v).len() == count_below(v.pieces(v.turn), 24) * count_below(v.empty(), 24),
{
    lemma_fly_base_len(v, v.turn, 24);
}

proof fn lemma_pairs_len(avail: Seq<Square>, m: nat)
    requires
        1 <= m <= avail.len(),
    ensures
        pairs_below(avail, m).len() >= avail.len() - 1,
    decreases m,
{
    if m > 1 {
        lemma_pairs_len(avail, (m - 1) as nat);
    }
}

/// Once generation is defined, the side to move has a legal move exactly
/// when it has some point to move to: choosing captures never leaves a
/// move without a way to make it.
pub proof fn lemma_stuck_iff_nowhere_to_go(v: StateView)
    requires
        can_generate(v),
    ensures
        legal_moves(v).len() == 0 <==> base_moves(v).len() == 0,
{
    reveal(legal_moves);
    reveal(moves_defined);
    let c = v.turn;
    let avail = capture_targets(v, c);
    let base = base_moves(v);
    if base.len() > 0 {
        let last = base.last();
        let k = mills_of_move(v, c, last);
        let e = expand(v, c, avail, last);
        assert(expand_all(v, c, avail, base) == expand_all(v, c, avail, base.drop_last()) + e);
        if k != 0 {
            assert(mills_of_move(v, c, base[base.len() - 1]) != 0);
            assert(avail.len() > 0);
            let n: nat = if k < avail.len() { k } else { avail.len() };
            assert(k <= 2);
            if n == 2 {
                lemma_pairs_len(avail, avail.len());
            }
            assert(combinations(avail, n).len() > 0);
        }
        assert(e.len() > 0);
    }
}

// ---------------------------------------------------------------------
// Mills over the whole table.
// ---------------------------------------------------------------------

/// How many of the first `n` mills of the table pass through `sq` and are
/// completed in `h`.
pub open spec fn table_mills_through(h: u32, sq: u8, n: nat) -> nat
    decreases n,
{
    if n == 0 {
        0
    } else {
        let k = (n - 1) as u8;
        table_mills_through(h, sq, (n - 1) as nat) + if in_bb(mill_mask(k), sq as u32) && h & mill_mask(k)
            == mill_mask(k) {
            1nat
        } else {
            0nat
        }
    }
}

proof fn lemma_table_mills_through(h: u32, sq: u8, n: nat)
    requires
        sq < 24,
        n <= 16,
    ensures
        table_mills_through(h, sq, n) == (if square_mill_ids(sq).0 < n && h & mill_mask(square_mill_ids(sq).0)
            == mill_mask(square_mill_ids(sq).0) {
            1nat
        } else {
            0nat
        }) + (if square_mill_ids(sq).1 < n && h & mill_mask(square_mill_ids(sq).1) == mill_mask(
            square_mill_ids(sq).1,
        ) {
            1nat
        } else {
            0nat
        }),
    decreases n,
{
    lemma_square_mills_exact();
    if n > 0 {
        lemma_table_mills_through(h, sq, (n - 1) as nat);
        let k = (n - 1) as u8;
        assert(in_bb(mill_mask(k), sq as u32) <==> (k == square_mill_ids(sq).0 || k == square_mill_ids(sq).1));
    }
}

/// Landing on `sq` completes as many mills as the table has mills through
/// `sq` that the mover then owns whole.
pub proof fn lemma_mills_formed_over_table(v: StateView, c: Color, sq: Square, from: Option<Square>)
    requires
        sq.0 < 24,
    ensures
        mills_formed(v, c, sq, from) == table_mills_through(landed(v, c, sq, from), sq.0, 16),
{
    lemma_square_mills_exact();
    lemma_table_mills_through(landed(v, c, sq, from), sq.0, 16);
}

/// A piece is in a mill exactly when some mill of the table passes through
/// its point and its owner holds the whole mill.
pub proof fn lemma_in_mill_over_table(v: StateView, c: Color, sq: u8)
    requires
        sq < 24,
    ensures
        in_mill(v, c, sq) <==> exists|k: u8| k < 16 && #[trigger] in_bb(mill_mask(k), sq as u32) && owns_mill(
            v,
            c,
            mill_mask(k),
        ),
{
    lemma_square_mills_exact();
    let (a, b) = square_mill_ids(sq);
    if in_mill(v, c, sq) {
        if owns_mill(v, c, mill_mask(a)) {
            assert(in_bb(mill_mask(a), sq as u32));
        } else {
            assert(in_bb(mill_mask(b), sq as u32));
        }
    }
}

// ---------------------------------------------------------------------
// Move generation as a whole.
// ---------------------------------------------------------------------

/// Choosing captures for a base move always leaves at least one move, and
/// each such move has the base move's points.
proof fn lemma_expand_base(v: StateView, j: int)
    requires
        can_generate(v),
        0 <= j < base_moves(v).len(),
    ensures
        expand(v, v.turn, capture_targets(v, v.turn), base_moves(v)[j]).len() > 0,
        forall|t: int| 0 <= t < expand(v, v.turn, capture_targets(v, v.turn), base_moves(v)[j]).len() ==> with_caps(
            #[trigger] expand(v, v.turn, capture_targets(v, v.turn), base_moves(v)[j])[t],
            Captures::empty_set(),
        ) == base_moves(v)[j],
{
    reveal(moves_defined);
    lemma_base_increasing(v);
    let c = v.turn;
    let avail = capture_targets(v, c);
    let m = base_moves(v)[j];
    let k = mills_of_move(v, c, m);
    let e = expand(v, c, avail, m);
    assert(captures_of(m) == Captures::empty_set());
    assert(with_caps(m, Captures::empty_set()) == m);
    if k != 0 {
        assert(avail.len() > 0);
        let n: nat = if k < avail.len() { k } else { avail.len() };
        assert(k <= 2);
        if n == 2 {
            lemma_pairs_len(avail, avail.len());
        }
        assert(combinations(avail, n).len() > 0);
        assert forall|t: int| 0 <= t < e.len() implies with_caps(#[trigger] e[t], Captures::empty_set()) == m by {
            assert(e[t] == with_caps(m, combinations(avail, n)[t]));
        }
    }
}

/// Move generation as a whole, once it is defined: every move follows the
/// rules (so its kind is the phase's), no move is listed twice, the moves
/// are exactly the capture choices of the base moves (each base move has
/// at least one), so the side is stuck exactly when it has no base move;
/// while placing, the targets are exactly the empty points.
pub proof fn lemma_generate_moves(v: StateView)
    requires
        can_generate(v),
    ensures
        forall|k: int| 0 <= k < legal_moves(v).len() ==> follows_rules(v, #[trigger] legal_moves(v)[k]),
        legal_moves(v).no_duplicates(),
        forall|k: int| 0 <= k < legal_moves(v).len() ==> base_moves(v).contains(
            with_caps(#[trigger] legal_moves(v)[k], Captures::empty_set()),
        ),
        forall|j: int| 0 <= j < base_moves(v).len() ==> exists|k: int|
            0 <= k < legal_moves(v).len() && with_caps(#[trigger] legal_moves(v)[k], Captures::empty_set())
                == #[trigger] base_moves(v)[j],
        legal_moves(v).len() == 0 <==> base_moves(v).len() == 0,
        phase_of(v, v.turn) == Phase::Placing ==> forall|sq: u8| sq < 24 ==> (#[trigger] v.is_empty_at(sq as u32) <==> exists|k: int|
            0 <= k < legal_moves(v).len() && #[trigger] target_of(legal_moves(v)[k]) == Square(sq)),
{
    reveal(moves_defined);
    let c = v.turn;
    let avail = capture_targets(v, c);
    let base = base_moves(v);
    let lm = legal_moves(v);
    lemma_legal_moves_follow_rules(v);
    lemma_legal_moves_distinct(v);
    lemma_stuck_iff_nowhere_to_go(v);
    lemma_base_increasing(v);
    assert(lm == expand_all(v, c, avail, base)) by {
        reveal(legal_moves);
    }
    assert forall|k: int| 0 <= k < lm.len() implies base.contains(with_caps(#[trigger] lm[k], Captures::empty_set())) by {
        lemma_expand_all_member(v, c, avail, base, k);
        let (j, t) = choose|j: int, t: int| 0 <= j < base.len() && 0 <= t < expand(v, c, avail, base[j]).len()
            && expand_all(v, c, avail, base)[k] == #[trigger] expand(v, c, avail, base[j])[t];
        lemma_expand_base(v, j);
    }
    assert forall|j: int| 0 <= j < base.len() implies exists|k: int|
        0 <= k < lm.len() && with_caps(#[trigger] lm[k], Captures::empty_set()) == #[trigger] base[j] by {
        lemma_expand_base(v, j);
        lemma_expand_all_has(v, c, avail, base, j, 0);
        let k = choose|k: int| 0 <= k < lm.len() && lm[k] == expand(v, c, avail, base[j])[0];
        assert(with_caps(lm[k], Captures::empty_set()) == base[j]);
    }
    if phase_of(v, c) == Phase::Placing {
        lemma_place_base(v, 24);
        assert forall|sq: u8| sq < 24 implies (#[trigger] v.is_empty_at(sq as u32) <==> exists|k: int|
            0 <= k < lm.len() && #[trigger] target_of(lm[k]) == Square(sq)) by {
            if v.is_empty_at(sq as u32) {
                lemma_point_empty(v, sq as u32);
                lemma_place_base_has(v, 24, sq);
                let b = Move::Place { to: Square(sq), captures: Captures::empty_set() };
                let j = choose|j: int| 0 <= j < base.len() && base[j] == b;
                let k = choose|k: int| 0 <= k < lm.len() && with_caps(#[trigger] lm[k], Captures::empty_set()) == base[j];
                assert(target_of(lm[k]) == target_of(with_caps(lm[k], Captures::empty_set())));
            }
            if exists|k: int| 0 <= k < lm.len() && #[trigger] target_of(lm[k]) == Square(sq) {
                let k = choose|k: int| 0 <= k < lm.len() && #[trigger] target_of(lm[k]) == Square(sq);
                assert(follows_rules(v, lm[k]));
            }
        }
    }
}

} // verus!
