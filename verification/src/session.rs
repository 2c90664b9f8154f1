use vstd::prelude::*;
use crate::board::in_bb;
use vstd::string::StringSliceAdditionalSpecFns;
use crate::moves::{after_move, playable, lemma_after_move};
use crate::position::{CurrentGameState, StateView, DEFAULT_DRAW_PLY_LIMIT};
use crate::rules::{
    legal_moves, moves_defined, terminal_by_pieces, terminal_decidable, game_over, result_of, phase_of,
    follows_rules, mills_of_move, lemma_legal_moves_playable, lemma_legal_moves_follow_rules, lemma_child_decidable,
    lemma_empty_board_moves_defined,
};
use crate::search::{
    search, search_with_randomization, searchable, search_scores, is_last_best, pick_near_best, EASY_DEPTH,
    MEDIUM_DEPTH, HARD_DEPTH, EASY_RANDOMIZATION_MARGIN,
};
use crate::types::{Captures, Color, GameResult, Move, Phase, Square, origin_of, target_of, captures_of};

verus! {

// One live game behind a plain-number interface: colors, phases and
// squares as small integers, and the untrusted-input check for moves
// requested from outside.

/// 0 for White, 1 for Black.
pub open spec fn color_code(c: Color) -> u8 {
    match c {
        Color::White => 0,
        Color::Black => 1,
    }
}

/// 0 is White; any other number is Black.
pub open spec fn code_color(v: u8) -> Color {
    if v == 0 {
        Color::White
    } else {
        Color::Black
    }
}

/// 0 placing, 1 sliding, 2 flying.
pub open spec fn phase_code(p: Phase) -> u8 {
    match p {
        Phase::Placing => 0,
        Phase::Sliding => 1,
        Phase::Flying => 2,
    }
}

/// 0 empty, 1 white, 2 black.
pub open spec fn cell_code(v: StateView, i: u8) -> u8 {
    if in_bb(v.white, i as u32) {
        1
    } else if in_bb(v.black, i as u32) {
        2
    } else {
        0
    }
}

/// The `(from, to)` squares of a move, as numbers.
pub open spec fn from_to(m: Move) -> (Option<u8>, u8) {
    (
        match origin_of(m) {
            Some(f) => Some(f.0),
            None => None,
        },
        target_of(m).0,
    )
}

/// The `(from, to)` pairs of `ms`, each kept at its first occurrence.
pub open spec fn distinct_pairs(ms: Seq<Move>, n: nat) -> Seq<(Option<u8>, u8)>
    decreases n,
{
    if n == 0 {
        Seq::empty()
    } else {
        let prev = distinct_pairs(ms, (n - 1) as nat);
        let p = from_to(ms[n - 1]);
        if prev.contains(p) {
            prev
        } else {
            prev.push(p)
        }
    }
}

/// `t` with each square of `caps` appended unless already there.
pub open spec fn add_new(t: Seq<u8>, caps: Seq<Square>) -> Seq<u8>
    decreases caps.len(),
{
    if caps.len() == 0 {
        t
    } else {
        let t1 = add_new(t, caps.drop_last());
        if t1.contains(caps.last().0) {
            t1
        } else {
            t1.push(caps.last().0)
        }
    }
}

/// Capture squares offered by the first `n` moves of `ms` that go `from` `to`.
pub open spec fn targets_upto(ms: Seq<Move>, from: Option<u8>, to: u8, n: nat) -> Seq<u8>
    decreases n,
{
    if n == 0 {
        Seq::empty()
    } else {
        let t = targets_upto(ms, from, to, (n - 1) as nat);
        if from_to(ms[n - 1]) == (from, to) {
            add_new(t, captures_of(ms[n - 1]).squares())
        } else {
            t
        }
    }
}

/// The captured squares are exactly the requested ones, as a set: as many,
/// none requested twice, each of them captured.
pub open spec fn captures_agree(actual: Seq<Square>, requested: Seq<u8>) -> bool {
    &&& actual.len() == requested.len()
    &&& forall|i: int, j: int| 0 <= i < j < requested.len() ==> requested[i] != requested[j]
    &&& forall|i: int| 0 <= i < requested.len() ==> actual.contains(Square(#[trigger] requested[i]))
}

/// For a capture list of at most two distinct squares (what a legal move
/// captures), agreeing is set equality: the requested squares are
/// distinct, as many, and the same squares.
pub proof fn lemma_captures_agree_as_sets(actual: Seq<Square>, requested: Seq<u8>)
    requires
        actual.len() <= 2,
        actual.no_duplicates(),
    ensures
        captures_agree(actual, requested) <==> (requested.no_duplicates() && requested.len() == actual.len() && forall|
            sq: Square,
        | #[trigger] actual.contains(sq) <==> requested.contains(sq.0)),
{
    if captures_agree(actual, requested) {
        assert forall|sq: Square| #[trigger] actual.contains(sq) implies requested.contains(sq.0) by {
            if actual.len() == 1 {
                assert(actual.contains(Square(requested[0])));
                assert(requested[0] == sq.0);
            } else {
                assert(actual.contains(Square(requested[0])));
                assert(actual.contains(Square(requested[1])));
                if requested[0] != sq.0 {
                    assert(requested[1] == sq.0);
                }
            }
        }
        assert forall|sq: Square| requested.contains(sq.0) implies #[trigger] actual.contains(sq) by {
            let i = choose|i: int| 0 <= i < requested.len() && requested[i] == sq.0;
            assert(actual.contains(Square(requested[i])));
        }
    }
    if requested.no_duplicates() && requested.len() == actual.len() && forall|sq: Square|
        #[trigger] actual.contains(sq) <==> requested.contains(sq.0) {
        assert forall|i: int| 0 <= i < requested.len() implies actual.contains(Square(#[trigger] requested[i])) by {
            assert(requested.contains(Square(requested[i]).0));
        }
    }
}

/// Move `m` is the one asked for.
pub open spec fn is_requested(m: Move, from: Option<u8>, to: u8, requested: Seq<u8>) -> bool {
    from_to(m) == (from, to) && captures_agree(captures_of(m).squares(), requested)
}

/// Index of the first move of `ms`, from `i` on, that is the one asked for.
pub open spec fn first_requested(ms: Seq<Move>, from: Option<u8>, to: u8, requested: Seq<u8>, i: int) -> Option<int>
    decreases ms.len() - i,
{
    if i < 0 || i >= ms.len() {
        None
    } else if is_requested(ms[i], from, to, requested) {
        Some(i)
    } else {
        first_requested(ms, from, to, requested, i + 1)
    }
}

/// ASCII of "easy", "medium" and "hard".
pub open spec fn easy_word() -> Seq<u8> {
    seq![101u8, 97u8, 115u8, 121u8]
}

pub open spec fn medium_word() -> Seq<u8> {
    seq![109u8, 101u8, 100u8, 105u8, 117u8, 109u8]
}

pub open spec fn hard_word() -> Seq<u8> {
    seq![104u8, 97u8, 114u8, 100u8]
}

/// The search depth of a difficulty name, if it is one.
pub open spec fn difficulty_depth(name: Seq<u8>) -> Option<u8> {
    if name == easy_word() {
        Some(EASY_DEPTH)
    } else if name == medium_word() {
        Some(MEDIUM_DEPTH)
    } else if name == hard_word() {
        Some(HARD_DEPTH)
    } else {
        None
    }
}

/// The move a search of `depth` chooses in `v`: for "easy", the seeded
/// pick among moves within `EASY_RANDOMIZATION_MARGIN` of the best;
/// otherwise the last of the best-scored moves.
pub open spec fn search_choice(v: StateView, depth: u8, easy: bool, seed: u64, m: Move, score: i32) -> bool {
    let s = search_scores(v, depth as nat);
    if easy {
        (m, score) == pick_near_best(s, EASY_RANDOMIZATION_MARGIN, seed)
    } else {
        exists|i: int| #[trigger] is_last_best(s, i) && (m, score) == s[i]
    }
}

/// Why a session refused a request.
#[derive(Clone, Copy, PartialEq, Eq, Debug, Structural)]
pub enum SessionError {
    /// The requested move is not a legal move of this position.
    IllegalMove,
    /// The difficulty is none of easy, medium or hard.
    UnknownDifficulty,
}

fn color_to_u8(color: Color) -> (r: u8)
    ensures
        r == color_code(color),
{
    match color {
        Color::White => 0,
        Color::Black => 1,
    }
}

fn u8_to_color(v: u8) -> (r: Color)
    ensures
        r == code_color(v),
{
    if v == 0 {
        Color::White
    } else {
        Color::Black
    }
}

fn phase_to_u8(phase: Phase) -> (r: u8)
    ensures
        r == phase_code(phase),
{
    match phase {
        Phase::Placing => 0,
        Phase::Sliding => 1,
        Phase::Flying => 2,
    }
}

fn move_from_to(mv: Move) -> (r: (Option<u8>, u8))
    ensures
        r == from_to(mv),
{
    match mv {
        Move::Place { to, .. } => (None, to.0),
        Move::Slide { from, to, .. } => (Some(from.0), to.0),
        Move::Fly { from, to, .. } => (Some(from.0), to.0),
    }
}

fn move_captures(mv: Move) -> (r: Captures)
    ensures
        r == captures_of(mv),
{
    match mv {
        Move::Place { captures, .. } => captures,
        Move::Slide { captures, .. } => captures,
        Move::Fly { captures, .. } => captures,
    }
}

/// Does `mv`'s capture set match the exact squares asked for, as an
/// unordered set?
fn captures_match(mv: Move, requested: &Vec<u8>) -> (r: bool)
    ensures
        r == captures_agree(captures_of(mv).squares(), requested@),
{
    let actual = move_captures(mv);
    if actual.len() != requested.len() {
        return false;
    }
    let mut i: usize = 0;
    while i < requested.len()
        invariant
            i <= requested@.len(),
            actual == captures_of(mv),
            forall|k: int| 0 <= k < i ==> actual.squares().contains(Square(#[trigger] requested@[k])),
            forall|k: int, l: int| 0 <= k < l < i ==> requested@[k] != requested@[l],
        decreases requested@.len() - i,
    {
        if !actual.contains(Square(requested[i])) {
            return false;
        }
        let mut j: usize = 0;
        while j < i
            invariant
                j <= i < requested@.len(),
                forall|k: int| 0 <= k < j ==> requested@[k] != requested@[i as int],
            decreases i - j,
        {
            if requested[j] == requested[i] {
                return false;
            }
            j = j + 1;
        }
        i = i + 1;
    }
    true
}

fn is_word(name: &[u8], word: &[u8]) -> (r: bool)
    ensures
        r == (name@ == word@),
{
    if name.len() != word.len() {
        return false;
    }
    let mut i: usize = 0;
    while i < name.len()
        invariant
            i <= name@.len(),
            name@.len() == word@.len(),
            forall|k: int| 0 <= k < i ==> name@[k] == word@[k],
        decreases name@.len() - i,
    {
        if name[i] != word[i] {
            return false;
        }
        i = i + 1;
    }
    proof {
        assert(name@ =~= word@);
    }
    true
}

/// The search depth for a difficulty name: "easy", "medium" or "hard".
pub fn depth_for(difficulty: &str) -> (r: Result<u8, SessionError>)
    ensures
        r == (match difficulty_depth(difficulty.spec_bytes()) {
            Some(d) => Ok(d),
            None => Err(SessionError::UnknownDifficulty),
        }),
{
    let name = difficulty.as_bytes();
    let easy: [u8; 4] = [101, 97, 115, 121];
    let medium: [u8; 6] = [109, 101, 100, 105, 117, 109];
    let hard: [u8; 4] = [104, 97, 114, 100];
    proof {
        assert(easy@ =~= easy_word());
        assert(medium@ =~= medium_word());
        assert(hard@ =~= hard_word());
    }
    if is_word(name, &easy) {
        Ok(EASY_DEPTH)
    } else if is_word(name, &medium) {
        Ok(MEDIUM_DEPTH)
    } else if is_word(name, &hard) {
        Ok(HARD_DEPTH)
    } else {
        Err(SessionError::UnknownDifficulty)
    }
}

/// A legal `(from, to)` pair, with the capture choice left open.
#[derive(Clone, Copy, Debug)]
pub struct LegalMove {
    from: Option<u8>,
    to: u8,
}

impl LegalMove {
    /// The squares this pair stands for.
    pub closed spec fn squares(self) -> (Option<u8>, u8) {
        (self.from, self.to)
    }

    pub fn new(from: Option<u8>, to: u8) -> (r: LegalMove)
        ensures
            r.squares() == (from, to),
    {
        LegalMove { from, to }
    }

    pub fn from(&self) -> (r: Option<u8>)
        ensures
            r == self.squares().0,
    {
        self.from
    }

    pub fn to(&self) -> (r: u8)
        ensures
            r == self.squares().1,
    {
        self.to
    }
}

/// A move that was played or suggested, with its search score.
#[derive(Clone, Debug)]
pub struct MoveResult {
    from: Option<u8>,
    to: u8,
    captures: Vec<u8>,
    score: i32,
}

impl MoveResult {
    /// This result reports move `m` with `score`.
    pub closed spec fn reports(&self, m: Move, score: i32) -> bool {
        &&& (self.from, self.to) == from_to(m)
        &&& self.captures@ == captures_of(m).squares().map_values(|s: Square| s.0)
        &&& self.score == score
    }

    pub closed spec fn origin(&self) -> Option<u8> {
        self.from
    }

    pub closed spec fn target(&self) -> u8 {
        self.to
    }

    pub closed spec fn captured(&self) -> Seq<u8> {
        self.captures@
    }

    pub closed spec fn score_value(&self) -> i32 {
        self.score
    }

    pub fn new(from: Option<u8>, to: u8, captures: Vec<u8>, score: i32) -> (r: MoveResult)
        ensures
            r.origin() == from,
            r.target() == to,
            r.captured() == captures@,
            r.score_value() == score,
    {
        MoveResult { from, to, captures, score }
    }

    pub proof fn lemma_reports(&self, m: Move, score: i32)
        requires
            self.reports(m, score),
        ensures
            (self.origin(), self.target()) == from_to(m),
            self.captured() == captures_of(m).squares().map_values(|s: Square| s.0),
            self.score_value() == score,
    {
    }

    pub fn from(&self) -> (r: Option<u8>)
        ensures
            r == self.origin(),
    {
        self.from
    }

    pub fn to(&self) -> (r: u8)
        ensures
            r == self.target(),
    {
        self.to
    }

    pub fn captures(&self) -> (r: Vec<u8>)
        ensures
            r@ == self.captured(),
    {
        let r = self.captures.clone();
        proof {
            assert(r@ =~= self.captures@);
        }
        r
    }

    pub fn score(&self) -> (r: i32)
        ensures
            r == self.score_value(),
    {
        self.score
    }
}

/// Describes `mv` with `score`.
fn report(mv: Move, score: i32) -> (r: MoveResult)
    ensures
        r.reports(mv, score),
{
    let (from, to) = move_from_to(mv);
    let squares = move_captures(mv).iter();
    let mut captures: Vec<u8> = Vec::new();
    let mut i: usize = 0;
    while i < squares.len()
        invariant
            i <= squares@.len(),
            squares@ == captures_of(mv).squares(),
            captures@ == squares@.take(i as int).map_values(|s: Square| s.0),
        decreases squares@.len() - i,
    {
        captures.push(squares[i].0);
        i = i + 1;
        proof {
            assert(captures@ =~= squares@.take(i as int).map_values(|s: Square| s.0));
        }
    }
    proof {
        assert(squares@.take(squares@.len() as int) =~= squares@);
    }
    MoveResult { from, to, captures, score }
}

/// One live game, mutated in place. Wraps a `CurrentGameState`, which is
/// itself functional (`make_move` returns a new state); this struct is
/// where that gets turned into something a caller can hold and update.
/// Only legal moves from the opening are ever played, so move generation
/// is always defined for its position.
#[derive(Clone, Copy, Debug)]
pub struct GameSession {
    state: CurrentGameState,
}

impl GameSession {
    #[verifier::type_invariant]
    closed spec fn reachable(self) -> bool {
        moves_defined(self.state@)
    }

    /// The current position.
    pub closed spec fn position(self) -> StateView {
        self.state@
    }


    pub fn new_game() -> (r: GameSession)
        ensures
            r.position() == (StateView {
                white: 0,
                black: 0,
                white_hand: 9,
                black_hand: 9,
                turn: Color::White,
                plies: 0,
                ply_limit: DEFAULT_DRAW_PLY_LIMIT,
            }),
    {
        let state = CurrentGameState::new();
        proof {
            lemma_empty_board_moves_defined(state@);
        }
        GameSession { state }
    }

    /// The position of this session.
    pub fn state(&self) -> (r: &CurrentGameState)
        ensures
            r@ == self.position(),
    {
        &self.state
    }

    /// 24 entries, one per square: 0 empty, 1 white, 2 black.
    pub fn board(&self) -> (r: Vec<u8>)
        ensures
            r@.len() == 24,
            forall|i: int| 0 <= i < 24 ==> #[trigger] r@[i] == cell_code(self.position(), i as u8),
    {
        let mut cells: Vec<u8> = Vec::new();
        let mut sq: u8 = 0;
        while sq < 24
            invariant
                sq <= 24,
                cells@.len() == sq,
                forall|i: int| 0 <= i < sq ==> #[trigger] cells@[i] == cell_code(self.position(), i as u8),
            decreases 24 - sq,
        {
            let cell: u8 = match self.state.owner(Square(sq)) {
                None => 0,
                Some(Color::White) => 1,
                Some(Color::Black) => 2,
            };
            cells.push(cell);
            sq = sq + 1;
        }
        cells
    }

    pub fn side_to_move(&self) -> (r: u8)
        ensures
            r == color_code(self.position().turn),
    {
        color_to_u8(self.state.side_to_move())
    }

    /// 0 placing, 1 sliding, 2 flying.
    pub fn phase(&self) -> (r: u8)
        ensures
            r == phase_code(phase_of(self.position(), self.position().turn)),
    {
        phase_to_u8(self.state.current_phase())
    }

    pub fn pieces_in_hand(&self, color: u8) -> (r: u8)
        ensures
            r == self.position().hand(code_color(color)),
    {
        self.state.pieces_in_hand(u8_to_color(color))
    }

    /// Every currently-legal `(from, to)` pair, deduplicated across
    /// capture-choice variants — capture selection is a separate step, see
    /// `capture_targets`.
    pub fn legal_moves(&self) -> (r: Vec<LegalMove>)
        requires
            !terminal_by_pieces(self.position()),
        ensures
            r@.len() == distinct_pairs(legal_moves(self.position()), legal_moves(self.position()).len()).len(),
            forall|k: int| 0 <= k < r@.len() ==> (#[trigger] r@[k]).squares() == distinct_pairs(
                legal_moves(self.position()),
                legal_moves(self.position()).len(),
            )[k],
    {
        proof {
            use_type_invariant(&*self);
            lemma_defined_ok(self.state@);
        }
        let moves = self.state.generate_moves();
        let ghost ms = moves@;
        let mut pairs: Vec<(Option<u8>, u8)> = Vec::new();
        let mut i: usize = 0;
        while i < moves.len()
            invariant
                i <= ms.len(),
                moves@ == ms,
                pairs@ == distinct_pairs(ms, i as nat),
            decreases ms.len() - i,
        {
            let pair = move_from_to(moves[i]);
            if !contains_pair(&pairs, pair) {
                pairs.push(pair);
            }
            i = i + 1;
        }
        let mut result: Vec<LegalMove> = Vec::new();
        let mut j: usize = 0;
        while j < pairs.len()
            invariant
                j <= pairs@.len(),
                result@.len() == j,
                forall|k: int| 0 <= k < j ==> (#[trigger] result@[k]).squares() == pairs@[k],
            decreases pairs@.len() - j,
        {
            let (from, to) = pairs[j];
            result.push(LegalMove { from, to });
            j = j + 1;
        }
        result
    }

    /// Legal individual capture squares for the move `(from, to)`, before
    /// it's actually played. Empty means that move doesn't form a mill;
    /// otherwise the player must choose (one square normally, two distinct
    /// ones for a move that completes two mills at once).
    pub fn capture_targets(&self, from: Option<u8>, to: u8) -> (r: Vec<u8>)
        requires
            !terminal_by_pieces(self.position()),
        ensures
            r@ == targets_upto(legal_moves(self.position()), from, to, legal_moves(self.position()).len()),
    {
        proof {
            use_type_invariant(&*self);
            lemma_defined_ok(self.state@);
        }
        let moves = self.state.generate_moves();
        let ghost ms = moves@;
        let mut targets: Vec<u8> = Vec::new();
        let mut i: usize = 0;
        while i < moves.len()
            invariant
                i <= ms.len(),
                moves@ == ms,
                targets@ == targets_upto(ms, from, to, i as nat),
            decreases ms.len() - i,
        {
            let pair = move_from_to(moves[i]);
            if pair.0 == from && pair.1 == to {
                let squares = move_captures(moves[i]).iter();
                let ghost start = targets@;
                let mut j: usize = 0;
                while j < squares.len()
                    invariant
                        j <= squares@.len(),
                        squares@ == captures_of(ms[i as int]).squares(),
                        targets@ == add_new(start, squares@.take(j as int)),
                    decreases squares@.len() - j,
                {
                    proof {
                        assert(squares@.take(j + 1).drop_last() =~= squares@.take(j as int));
                    }
                    let sq = squares[j].0;
                    if !contains_u8(&targets, sq) {
                        targets.push(sq);
                    }
                    j = j + 1;
                }
                proof {
                    assert(squares@.take(squares@.len() as int) =~= squares@);
                }
            }
            i = i + 1;
        }
        targets
    }

    /// Applies a requested move. This is the untrusted-input boundary: the
    /// request is looked up among the legal moves, and anything that
    /// matches none of them is refused.
    pub fn try_play_move(&mut self, from: Option<u8>, to: u8, captures: Vec<u8>) -> (r: Result<(), SessionError>)
        requires
            !terminal_by_pieces(old(self).position()),
        ensures
            match first_requested(legal_moves(old(self).position()), from, to, captures@, 0) {
                Some(k) => r is Ok && final(self).position() == after_move(
                    old(self).position(),
                    legal_moves(old(self).position())[k],
                ),
                None => r == Err::<(), SessionError>(SessionError::IllegalMove) && final(self).position() == old(self).position(),
            },
    {
        proof {
            use_type_invariant(&*self);
            lemma_defined_ok(self.state@);
        }
        let ghost v = self.state@;
        let moves = self.state.generate_moves();
        let mut i: usize = 0;
        while i < moves.len()
            invariant
                i <= moves@.len(),
                v == self.state@,
                v == old(self).state@,
                v.wf(),
                moves@ == legal_moves(v),
                first_requested(moves@, from, to, captures@, 0) == first_requested(moves@, from, to, captures@, i as int),
            decreases moves@.len() - i,
        {
            let mv = moves[i];
            let pair = move_from_to(mv);
            if pair.0 == from && pair.1 == to && captures_match(mv, &captures) {
                proof {
                    lemma_legal_moves_playable(v);
                    assert(playable(v, moves@[i as int]));
                    lemma_child_decidable(v, mv);
                    assert(is_requested(moves@[i as int], from, to, captures@));
                    assert(first_requested(moves@, from, to, captures@, i as int) == Some(i as int));
                }
                let next = self.state.make_move(mv);
                self.state = next;
                return Ok(());
            }
            i = i + 1;
        }
        Err(SessionError::IllegalMove)
    }

    /// Runs the bot's move at the given difficulty ("easy"/"medium"/"hard")
    /// and applies it. `seed` is supplied by the caller; only "easy" uses it,
    /// to pick among near-best moves.
    pub fn try_bot_move(&mut self, difficulty: &str, seed: u64) -> (r: Result<MoveResult, SessionError>)
        requires
            difficulty_depth(difficulty.spec_bytes()) is Some ==> !game_over(old(self).position()),
        ensures
            difficulty_depth(difficulty.spec_bytes()) is None ==> r is Err && r->Err_0 == SessionError::UnknownDifficulty
                && final(self).position() == old(self).position(),
            difficulty_depth(difficulty.spec_bytes()) is Some ==> r is Ok && exists|m: Move, score: i32|
                legal_moves(old(self).position()).contains(m) && search_choice(
                    old(self).position(),
                    difficulty_depth(difficulty.spec_bytes())->Some_0,
                    difficulty.spec_bytes() == easy_word(),
                    seed,
                    m,
                    score,
                ) && final(self).position() == after_move(old(self).position(), m) && (#[trigger] r->Ok_0.reports(
                    m,
                    score,
                )),
    {
        proof {
            use_type_invariant(&*self);
            lemma_defined_ok(self.state@);
        }
        let ghost v = self.state@;
        let depth = match depth_for(difficulty) {
            Ok(d) => d,
            Err(e) => return Err(e),
        };
        let easy: [u8; 4] = [101, 97, 115, 121];
        proof {
            assert(easy@ =~= easy_word());
        }
        let result = if is_word(difficulty.as_bytes(), &easy) {
            search_with_randomization(&self.state, depth, EASY_RANDOMIZATION_MARGIN, seed)
        } else {
            search(&self.state, depth)
        };
        proof {
            assert(search_choice(v, depth, difficulty.spec_bytes() == easy_word(), seed, result.best_move, result.score));
            lemma_legal_moves_playable(v);
            let k = choose|k: int| 0 <= k < legal_moves(v).len() && legal_moves(v)[k] == result.best_move;
            assert(playable(v, legal_moves(v)[k]));
            lemma_child_decidable(v, result.best_move);
        }
        self.state = self.state.make_move(result.best_move);
        let res = report(result.best_move, result.score);
        let r: Result<MoveResult, SessionError> = Ok(res);
        proof {
            assert(r->Ok_0.reports(result.best_move, result.score));
        }
        r
    }

    /// Suggests the strongest move for the side to move, searched at the
    /// depth of `difficulty`, without applying it. Always the plain best
    /// move, never the randomized one.
    pub fn try_hint(&self, difficulty: &str) -> (r: Result<MoveResult, SessionError>)
        requires
            difficulty_depth(difficulty.spec_bytes()) is Some ==> !game_over(self.position()),
        ensures
            difficulty_depth(difficulty.spec_bytes()) is None ==> r is Err && r->Err_0 == SessionError::UnknownDifficulty,
            difficulty_depth(difficulty.spec_bytes()) is Some ==> r is Ok && exists|m: Move, score: i32|
                legal_moves(self.position()).contains(m) && search_choice(
                    self.position(),
                    difficulty_depth(difficulty.spec_bytes())->Some_0,
                    false,
                    0,
                    m,
                    score,
                ) && (
                #[trigger] r->Ok_0.reports(m, score)),
    {
        proof {
            use_type_invariant(&*self);
            lemma_defined_ok(self.state@);
        }
        let depth = match depth_for(difficulty) {
            Ok(d) => d,
            Err(e) => return Err(e),
        };
        let result = search(&self.state, depth);
        proof {
            assert(search_choice(self.state@, depth, false, 0, result.best_move, result.score));
        }
        let res = report(result.best_move, result.score);
        let r: Result<MoveResult, SessionError> = Ok(res);
        proof {
            assert(r->Ok_0.reports(result.best_move, result.score));
        }
        r
    }

    pub fn is_game_over(&self) -> (r: bool)
        ensures
            r == game_over(self.position()),
    {
        proof {
            use_type_invariant(&*self);
            lemma_defined_ok(self.state@);
        }
        self.state.is_game_over()
    }

    /// Winning color, if the game has a decisive result (`None` for an
    /// ongoing game or a draw).
    pub fn winner(&self) -> (r: Option<u8>)
        ensures
            r == (match result_of(self.position()) {
                GameResult::Winner(c) => Some(color_code(c)),
                _ => None,
            }),
    {
        proof {
            use_type_invariant(&*self);
            lemma_defined_ok(self.state@);
        }
        match self.state.result() {
            GameResult::Winner(color) => Some(color_to_u8(color)),
            GameResult::Draw => None,
            GameResult::Ongoing => None,
        }
    }
}

/// Adding no squares leaves the list as it is; adding some leaves it non-empty.
proof fn lemma_add_new(t: Seq<u8>, caps: Seq<Square>)
    ensures
        caps.len() == 0 ==> add_new(t, caps) == t,
        t.len() > 0 ==> add_new(t, caps).len() > 0,
        add_new(t, caps).len() >= t.len(),
    decreases caps.len(),
{
    if caps.len() > 0 {
        lemma_add_new(t, caps.drop_last());
    }
}

/// Capture squares are offered for `(from, to)` only by a move going
/// `from` `to` that captures.
proof fn lemma_targets_come_from_captures(ms: Seq<Move>, from: Option<u8>, to: u8, n: nat)
    requires
        n <= ms.len(),
        targets_upto(ms, from, to, n).len() > 0,
    ensures
        exists|j: int| 0 <= j < n && from_to(#[trigger] ms[j]) == (from, to) && captures_of(ms[j]).squares().len() > 0,
    decreases n,
{
    let prev = targets_upto(ms, from, to, (n - 1) as nat);
    lemma_add_new(prev, captures_of(ms[n - 1]).squares());
    if prev.len() > 0 {
        lemma_targets_come_from_captures(ms, from, to, (n - 1) as nat);
        let j = choose|j: int| 0 <= j < n - 1 && from_to(#[trigger] ms[j]) == (from, to) && captures_of(ms[j]).squares().len() > 0;
        assert(0 <= j < n && from_to(ms[j]) == (from, to) && captures_of(ms[j]).squares().len() > 0);
    } else {
        assert(from_to(ms[n - 1]) == (from, to) && captures_of(ms[n - 1]).squares().len() > 0);
    }
}

/// When no move from index `i` on is the one asked for, the search finds none.
proof fn lemma_no_request_found(ms: Seq<Move>, from: Option<u8>, to: u8, requested: Seq<u8>, i: int)
    requires
        0 <= i,
        forall|k: int| i <= k < ms.len() ==> !is_requested(#[trigger] ms[k], from, to, requested),
    ensures
        first_requested(ms, from, to, requested, i) is None,
    decreases ms.len() - i,
{
    if i < ms.len() {
        lemma_no_request_found(ms, from, to, requested, i + 1);
    }
}

/// A move that completes a mill must capture: when capture squares are
/// offered for `(from, to)`, playing `(from, to)` without captures is
/// refused.
pub proof fn lemma_mill_moves_must_capture(v: StateView, from: Option<u8>, to: u8)
    requires
        v.wf(),
        targets_upto(legal_moves(v), from, to, legal_moves(v).len()).len() > 0,
    ensures
        first_requested(legal_moves(v), from, to, Seq::empty(), 0) is None,
{
    let ms = legal_moves(v);
    lemma_legal_moves_follow_rules(v);
    lemma_targets_come_from_captures(ms, from, to, ms.len());
    let j = choose|j: int| 0 <= j < ms.len() && from_to(#[trigger] ms[j]) == (from, to) && captures_of(ms[j]).squares().len() > 0;
    assert(follows_rules(v, ms[j]));
    assert forall|k: int| 0 <= k < ms.len() implies !is_requested(#[trigger] ms[k], from, to, Seq::empty()) by {
        if from_to(ms[k]) == (from, to) {
            assert(follows_rules(v, ms[k]));
            assert(target_of(ms[k]) == target_of(ms[j]));
            assert(origin_of(ms[k]) == origin_of(ms[j]));
            assert(mills_of_move(v, v.turn, ms[k]) == mills_of_move(v, v.turn, ms[j]));
        }
    }
    lemma_no_request_found(ms, from, to, Seq::empty(), 0);
}

/// What a position with defined move generation offers.
proof fn lemma_defined_ok(v: StateView)
    requires
        moves_defined(v),
    ensures
        terminal_decidable(v),
        v.wf(),
{
    reveal(moves_defined);
}

fn contains_pair(pairs: &Vec<(Option<u8>, u8)>, p: (Option<u8>, u8)) -> (r: bool)
    ensures
        r == pairs@.contains(p),
{
    let mut i: usize = 0;
    while i < pairs.len()
        invariant
            i <= pairs@.len(),
            forall|k: int| 0 <= k < i ==> pairs@[k] != p,
        decreases pairs@.len() - i,
    {
        if pairs[i].0 == p.0 && pairs[i].1 == p.1 {
            proof {
                assert(pairs@[i as int] == p);
            }
            return true;
        }
        i = i + 1;
    }
    false
}

fn contains_u8(v: &Vec<u8>, x: u8) -> (r: bool)
    ensures
        r == v@.contains(x),
{
    let mut i: usize = 0;
    while i < v.len()
        invariant
            i <= v@.len(),
            forall|k: int| 0 <= k < i ==> v@[k] != x,
        decreases v@.len() - i,
    {
        if v[i] == x {
            return true;
        }
        i = i + 1;
    }
    false
}

} // verus!
