pub mod eval;
pub mod negamax;
pub mod ordering;
pub mod tt;

use vstd::prelude::*;
use crate::moves::{after_move, material, playable, lemma_after_move};
use crate::position::{CurrentGameState, StateView};
use crate::rules::{legal_moves, terminal, terminal_decidable, game_over, lemma_legal_moves_playable, lemma_child_decidable};
use crate::types::Move;
use crate::zobrist::{splitmix64, splitmix_step, zobrist_of, build_tables, ZobristTables};
use self::negamax::{WIN_SCORE, negamax_keyed, inner_score, table_inner, lemma_ab_inner, q_value, lemma_q_bounds, lemma_q_unfold, ab, remembered, lemma_ab_unfold};
use self::ordering::{order_moves, ordered, lemma_ordered_members, lemma_ordered_permutation};
use self::tt::{TranspositionTable, TTEntry, lookup, is_pow2};

verus! {

/// Table size is a tuning knob, not a correctness concern — a collision
/// just costs a cache miss, it never produces a wrong answer.
pub const DEFAULT_TT_CAPACITY: usize = 1 << 16;

/// Recommended `depth` values for a three-tier difficulty selector. An
/// "easy" feel should come from pairing `EASY_DEPTH` with
/// `search_with_randomization` and `EASY_RANDOMIZATION_MARGIN`, not from
/// shallow search alone.
pub const EASY_DEPTH: u8 = 4;
pub const MEDIUM_DEPTH: u8 = 6;
pub const HARD_DEPTH: u8 = 8;

/// Recommended `margin` for `search_with_randomization` at `EASY_DEPTH`:
/// roughly one piece's value.
pub const EASY_RANDOMIZATION_MARGIN: i32 = 100;

#[derive(Clone, Copy, Debug, PartialEq, Eq, Structural)]
pub struct SearchResult {
    pub best_move: Move,
    pub score: i32,
}

/// The move a table remembers for a position, if any.
pub open spec fn remembered_move(tt: TranspositionTable, v: StateView) -> Option<Move> {
    remembered(lookup(tt.entries(), tt.index_mask(), zobrist_of(v)))
}

/// Scores of `moves[i..]` at the root of a search of `depth`, each move's
/// reply searched in turn by `ab` with the full window on the slots left
/// by the previous one; gives the scores and the slots afterwards.
pub open spec fn root_scan(
    v: StateView,
    depth: nat,
    moves: Seq<Move>,
    i: nat,
    t: Seq<Option<TTEntry>>,
    mask: u64,
) -> (Seq<(Move, i32)>, Seq<Option<TTEntry>>)
    decreases moves.len() - i,
{
    if i >= moves.len() {
        (Seq::empty(), t)
    } else {
        let m = moves[i as int];
        let child = ab(after_move(v, m), (depth - 1) as nat, 1, -(WIN_SCORE + 1), WIN_SCORE + 1, t, mask);
        let rest = root_scan(v, depth, moves, i + 1, child.1, mask);
        (seq![(m, (-child.0) as i32)] + rest.0, rest.1)
    }
}

/// One root pass of `depth`: every legal move, the remembered one first,
/// scored by `root_scan`.
pub open spec fn root_pass(v: StateView, depth: nat, t: Seq<Option<TTEntry>>, mask: u64) -> (
    Seq<(Move, i32)>,
    Seq<Option<TTEntry>>,
) {
    root_scan(v, depth, ordered(legal_moves(v), remembered(lookup(t, mask, zobrist_of(v)))), 0, t, mask)
}

/// The slots of a fresh table of `DEFAULT_TT_CAPACITY`.
pub open spec fn fresh_slots() -> Seq<Option<TTEntry>> {
    Seq::new(65536, |i: int| None::<TTEntry>)
}

/// The index mask of a table of `DEFAULT_TT_CAPACITY`.
pub open spec fn fresh_mask() -> u64 {
    65535
}

/// Iterative deepening: root passes of depth one up to `depth` on one
/// table, fresh at the start; gives the last pass's scores and the slots.
pub open spec fn deepening(v: StateView, depth: nat) -> (Seq<(Move, i32)>, Seq<Option<TTEntry>>)
    decreases depth,
{
    if depth <= 1 {
        root_pass(v, 1, fresh_slots(), fresh_mask())
    } else {
        root_pass(v, depth, deepening(v, (depth - 1) as nat).1, fresh_mask())
    }
}

/// The root scores a search of `depth` compares: those of its deepest pass.
pub open spec fn search_scores(v: StateView, depth: nat) -> Seq<(Move, i32)> {
    deepening(v, depth).0
}

/// Root moves paired with their exact depth-one scores: every legal move,
/// captures first, scored by the capture-only value of the reply position.
pub open spec fn depth_one_scores(s: Seq<(Move, i32)>, v: StateView) -> bool {
    let ms = ordered(legal_moves(v), None);
    &&& s.len() == ms.len()
    &&& forall|k: int| 0 <= k < s.len() ==> (#[trigger] s[k]).0 == ms[k] && s[k].1 == -q_value(after_move(v, ms[k]), 1)
}

/// The moves of the root scores.
pub open spec fn root_moves(s: Seq<(Move, i32)>) -> Seq<Move> {
    s.map_values(|p: (Move, i32)| p.0)
}

/// Root scores of a search: every legal move exactly once (in some
/// order), each with a score a full-window search can produce.
pub open spec fn root_scoring(s: Seq<(Move, i32)>, v: StateView) -> bool {
    &&& root_moves(s).to_multiset() == legal_moves(v).to_multiset()
    &&& forall|k: int| 0 <= k < s.len() ==> -(WIN_SCORE + 1) <= (#[trigger] s[k]).1 <= WIN_SCORE + 1
}

/// `s[i]` has the highest score, and no later entry ties it.
pub open spec fn is_last_best(s: Seq<(Move, i32)>, i: int) -> bool {
    &&& 0 <= i < s.len()
    &&& forall|j: int| 0 <= j < s.len() ==> (#[trigger] s[j]).1 <= s[i].1
    &&& forall|j: int| i < j < s.len() ==> (#[trigger] s[j]).1 < s[i].1
}

/// The highest score among the first `n` entries.
pub open spec fn max_score(s: Seq<(Move, i32)>, n: nat) -> int
    decreases n,
{
    if n <= 1 {
        s[0].1 as int
    } else {
        let prev = max_score(s, (n - 1) as nat);
        if s[n - 1].1 > prev {
            s[n - 1].1 as int
        } else {
            prev
        }
    }
}

/// Entries within `margin` of the best score, as a predicate.
pub open spec fn near_best(best: int, margin: i32) -> spec_fn((Move, i32)) -> bool {
    |p: (Move, i32)| best - p.1 <= margin
}

/// The entry picked among those within `margin` of the best, from `seed`.
pub open spec fn pick_near_best(s: Seq<(Move, i32)>, margin: i32, seed: u64) -> (Move, i32) {
    let candidates = s.filter(near_best(max_score(s, s.len()), margin));
    candidates[((splitmix_step(seed).1 as usize) as nat % candidates.len()) as int]
}

/// The search can start here: a game in progress, a positive depth, and
/// room for the ply counter.
pub open spec fn searchable(v: StateView, depth: u8) -> bool {
    &&& terminal_decidable(v)
    &&& !game_over(v)
    &&& 1 <= depth
    &&& depth + material(v) <= 255
}

/// Material never exceeds eighteen pieces.
pub proof fn lemma_material_bound(v: StateView)
    requires
        v.wf(),
    ensures
        material(v) <= 18,
{
}

/// Every root move together with its fully-searched negamax score, from
/// the root side's point of view, in move-ordering order.
fn root_search(state: &CurrentGameState, keys: &ZobristTables, depth: u8, tt: &mut TranspositionTable) -> (r: Vec<(Move, i32)>)
    requires
        keys.filled(),
        terminal_decidable(state@),
        !terminal(state@),
        1 <= depth,
        depth + material(state@) <= 255,
        old(tt).wf(),
        old(tt).scores_within(WIN_SCORE + 1),
    ensures
        r@ == root_pass(state@, depth as nat, old(tt).entries(), old(tt).index_mask()).0,
        final(tt).entries() == root_pass(state@, depth as nat, old(tt).entries(), old(tt).index_mask()).1,
        final(tt).index_mask() == old(tt).index_mask(),
        final(tt).wf(),
        final(tt).scores_within(WIN_SCORE + 1),
        r@.len() == legal_moves(state@).len(),
        r@.len() > 0,
        forall|k: int| 0 <= k < r@.len() ==> (#[trigger] r@[k]).0 == ordered(legal_moves(state@), remembered_move(*old(tt), state@))[k],
        forall|k: int| 0 <= k < r@.len() ==> legal_moves(state@).contains((#[trigger] r@[k]).0),
        forall|k: int| 0 <= k < r@.len() ==> -(WIN_SCORE + 1) <= (#[trigger] r@[k]).1 <= WIN_SCORE + 1,
        depth == 1 ==> forall|k: int| 0 <= k < r@.len() ==> (#[trigger] r@[k]).1 == -q_value(after_move(state@, r@[k].0), 1),
        root_scoring(r@, state@),
{
    let ghost v = state@;
    let mut moves = state.generate_moves();
    let key = state.zobrist_with(keys);
    proof {
        tt.lemma_slot_in_range(key);
    }
    let tt_move = match tt.probe(key) {
        Some(entry) => entry.best_move,
        None => None,
    };
    proof {
        lemma_ordered_members(moves@, tt_move);
        lemma_legal_moves_playable(v);
    }
    order_moves(&mut moves, tt_move);

    let alpha = -WIN_SCORE - 1;
    let beta = WIN_SCORE + 1;
    let mut scored: Vec<(Move, i32)> = Vec::new();
    let ghost mask = tt.index_mask();
    let ghost full = root_scan(v, depth as nat, moves@, 0, tt.entries(), mask);
    proof {
        assert(scored@ + full.0 =~= full.0);
    }

    let mut i: usize = 0;
    while i < moves.len()
        invariant
            keys.filled(),
            tt.index_mask() == mask,
            scored@ + root_scan(v, depth as nat, moves@, i as nat, tt.entries(), mask).0 == full.0,
            root_scan(v, depth as nat, moves@, i as nat, tt.entries(), mask).1 == full.1,
            v == state@,
            v.wf(),
            i <= moves@.len(),
            moves@ == ordered(legal_moves(v), tt_move),
            moves@.len() == legal_moves(v).len(),
            forall|k: int| 0 <= k < moves@.len() ==> legal_moves(v).contains(#[trigger] moves@[k]),
            forall|k: int| 0 <= k < legal_moves(v).len() ==> playable(v, #[trigger] legal_moves(v)[k]),
            depth + material(v) <= 255,
            1 <= depth,
            alpha == -WIN_SCORE - 1,
            beta == WIN_SCORE + 1,
            tt.wf(),
            tt.scores_within(WIN_SCORE + 1),
            scored@.len() == i,
            forall|k: int| 0 <= k < i ==> (#[trigger] scored@[k]).0 == moves@[k],
            forall|k: int| 0 <= k < i ==> -(WIN_SCORE + 1) <= (#[trigger] scored@[k]).1 <= WIN_SCORE + 1,
            depth == 1 ==> forall|k: int| 0 <= k < i ==> (#[trigger] scored@[k]).1 == -q_value(after_move(v, scored@[k].0), 1),
        decreases moves@.len() - i,
    {
        let mv = moves[i];
        proof {
            let j = choose|j: int| 0 <= j < legal_moves(v).len() && legal_moves(v)[j] == mv;
            assert(playable(v, legal_moves(v)[j]));
            lemma_child_decidable(v, mv);
            lemma_after_move(v, mv);
            lemma_q_bounds(after_move(v, mv), 1);
            lemma_q_unfold(after_move(v, mv), 1);
        }
        let next = state.make_move(mv);
        let ghost before = tt.entries();
        let ghost done = scored@;
        // The same full window for every sibling: each root score has to
        // be exact, since the callers compare them with each other.
        let score = -negamax_keyed(&next, keys, depth - 1, 1, -beta, -alpha, tt);
        scored.push((mv, score));
        proof {
            let rest = root_scan(v, depth as nat, moves@, (i + 1) as nat, tt.entries(), mask);
            assert(root_scan(v, depth as nat, moves@, i as nat, before, mask) == (seq![(mv, score)] + rest.0, rest.1));
            assert(scored@ + rest.0 =~= done + (seq![(mv, score)] + rest.0));
        }
        i = i + 1;
    }
    proof {
        assert(scored@ + root_scan(v, depth as nat, moves@, i as nat, tt.entries(), mask).0 =~= scored@);
        assert(root_moves(scored@) =~= ordered(legal_moves(v), tt_move));
        lemma_ordered_permutation(legal_moves(v), tt_move);
    }
    scored
}

/// The entry with the highest score; among equals, the last one.
fn pick_best(scored: &Vec<(Move, i32)>) -> (r: SearchResult)
    requires
        scored@.len() > 0,
    ensures
        exists|i: int| is_last_best(scored@, i) && r.best_move == scored@[i].0 && r.score == scored@[i].1,
{
    let mut best: usize = 0;
    let mut i: usize = 1;
    while i < scored.len()
        invariant
            1 <= i <= scored@.len(),
            best < i,
            forall|j: int| 0 <= j < i ==> (#[trigger] scored@[j]).1 <= scored@[best as int].1,
            forall|j: int| best < j < i ==> (#[trigger] scored@[j]).1 < scored@[best as int].1,
        decreases scored@.len() - i,
    {
        if scored[i].1 >= scored[best].1 {
            best = i;
        }
        i = i + 1;
    }
    proof {
        assert(is_last_best(scored@, best as int));
    }
    SearchResult { best_move: scored[best].0, score: scored[best].1 }
}

/// Finds the strongest move for the side to move, via iterative deepening
/// up to `depth` plies: the last of the best-scored root moves of the
/// deepest pass, `search_scores`. The move is always legal; at depth one
/// each score is the capture-only value of the reply. The score is
/// `WIN_SCORE - 1` exactly when some move wins at once, and then the move
/// returned does.
pub fn search(state: &CurrentGameState, depth: u8) -> (r: SearchResult)
    requires
        searchable(state@, depth),
    ensures
        exists|i: int| #[trigger] is_last_best(search_scores(state@, depth as nat), i)
            && r.best_move == search_scores(state@, depth as nat)[i].0
            && r.score == search_scores(state@, depth as nat)[i].1,
        legal_moves(state@).contains(r.best_move),
        -(WIN_SCORE + 1) <= r.score <= WIN_SCORE + 1,
        root_scoring(search_scores(state@, depth as nat), state@),
        depth == 1 ==> depth_one_scores(search_scores(state@, depth as nat), state@),
        r.score <= WIN_SCORE - 1,
        r.score == WIN_SCORE - 1 <==> exists|m: Move| legal_moves(state@).contains(m) && #[trigger] terminal(
            after_move(state@, m),
        ),
        r.score == WIN_SCORE - 1 ==> terminal(after_move(state@, r.best_move)),
{
    let scored = iterate(state, depth);
    let r = pick_best(&scored);
    proof {
        let i = choose|i: int| #[trigger] is_last_best(search_scores(state@, depth as nat), i)
            && r.best_move == search_scores(state@, depth as nat)[i].0
            && r.score == search_scores(state@, depth as nat)[i].1;
        lemma_search_mate_in_one(state@, depth, i);
    }
    r
}

/// Runs `root_search` at each depth from one to `depth` on one table and
/// returns the last (deepest) scores.
#[verifier::rlimit(40)]
fn iterate(state: &CurrentGameState, depth: u8) -> (r: Vec<(Move, i32)>)
    requires
        searchable(state@, depth),
    ensures
        r@ == search_scores(state@, depth as nat),
        r@.len() > 0,
        forall|k: int| 0 <= k < r@.len() ==> legal_moves(state@).contains((#[trigger] r@[k]).0),
        forall|k: int| 0 <= k < r@.len() ==> -(WIN_SCORE + 1) <= (#[trigger] r@[k]).1 <= WIN_SCORE + 1,
        depth == 1 ==> depth_one_scores(r@, state@),
        root_scoring(r@, state@),
{
    let ghost v = state@;
    proof {
        lemma_material_bound(v);
        assert(1usize << 16 == 65536usize) by (bit_vector);
    }
    proof {
        reveal_with_fuel(is_pow2, 17);
        assert(is_pow2(65536));
    }
    let mut tt = TranspositionTable::new(DEFAULT_TT_CAPACITY);
    proof {
        assert(tt.entries() =~= fresh_slots());
        tt.lemma_slot_in_range(zobrist_of(v));
        assert(remembered_move(tt, v) is None);
        lemma_ordered_members(legal_moves(v), None);
    }
    let keys = build_tables();
    let mut scored = root_search(state, &keys, 1, &mut tt);
    let mut d: u8 = 2;
    while d <= depth
        invariant
            v == state@,
            searchable(v, depth),
            keys.filled(),
            material(v) <= 18,
            2 <= d <= depth as int + 1,
            tt.wf(),
            tt.scores_within(WIN_SCORE + 1),
            scored@.len() > 0,
            forall|k: int| 0 <= k < scored@.len() ==> legal_moves(v).contains((#[trigger] scored@[k]).0),
            forall|k: int| 0 <= k < scored@.len() ==> -(WIN_SCORE + 1) <= (#[trigger] scored@[k]).1 <= WIN_SCORE + 1,
            depth == 1 ==> depth_one_scores(scored@, v),
            root_scoring(scored@, v),
            tt.index_mask() == fresh_mask(),
            scored@ == deepening(v, (d - 1) as nat).0,
            tt.entries() == deepening(v, (d - 1) as nat).1,
        decreases depth as int + 1 - d,
    {
        scored = root_search(state, &keys, d, &mut tt);
        d = d + 1;
    }
    scored
}

/// The maximum score is attained and bounds every score.
pub proof fn lemma_max_score(s: Seq<(Move, i32)>, n: nat)
    requires
        1 <= n <= s.len(),
    ensures
        exists|k: int| 0 <= k < n && #[trigger] s[k].1 == max_score(s, n),
        forall|k: int| 0 <= k < n ==> (#[trigger] s[k]).1 <= max_score(s, n),
    decreases n,
{
    if n > 1 {
        lemma_max_score(s, (n - 1) as nat);
    } else {
        assert(s[0].1 == max_score(s, n));
    }
}

/// Among root entries, the one picked from `seed` is within `margin` of
/// the best score and is one of the entries.
pub proof fn lemma_pick_within_margin(s: Seq<(Move, i32)>, margin: i32, seed: u64)
    requires
        s.len() > 0,
        margin >= 0,
    ensures
        max_score(s, s.len()) - pick_near_best(s, margin, seed).1 <= margin,
        s.contains(pick_near_best(s, margin, seed)),
{
    lemma_max_score(s, s.len());
    let best = max_score(s, s.len());
    let p = near_best(best, margin);
    let k = choose|k: int| 0 <= k < s.len() && #[trigger] s[k].1 == max_score(s, s.len());
    s.lemma_filter_contains(p, k);
    let c = s.filter(p);
    assert(c.len() > 0);
    let idx = ((splitmix_step(seed).1 as usize) as nat % c.len()) as int;
    s.lemma_filter_pred(p, idx);
    assert(c.contains(c[idx]));
    s.lemma_filter_contains_rev(p, c[idx]);
}

/// The depth-one root scores of a position are unique, so a depth-one
/// search (plain or with a given margin and seed) always gives the same
/// answer for the same position.
pub proof fn lemma_depth_one_scores_unique(v: StateView, a: Seq<(Move, i32)>, b: Seq<(Move, i32)>)
    requires
        depth_one_scores(a, v),
        depth_one_scores(b, v),
    ensures
        a == b,
{
    assert(a =~= b);
}

/// Both searches compare the same root scores, so at any depth the
/// randomized pick is never more than `margin` below the score of the move
/// `search` returns, and never above it.
pub proof fn lemma_randomized_within_margin_of_best(v: StateView, depth: nat, i: int, margin: i32, seed: u64)
    requires
        is_last_best(search_scores(v, depth), i),
        margin >= 0,
    ensures
        search_scores(v, depth)[i].1 - margin <= pick_near_best(search_scores(v, depth), margin, seed).1,
        pick_near_best(search_scores(v, depth), margin, seed).1 <= search_scores(v, depth)[i].1,
{
    let s = search_scores(v, depth);
    lemma_pick_within_margin(s, margin, seed);
    lemma_max_score(s, s.len());
    let k = choose|k: int| 0 <= k < s.len() && #[trigger] s[k].1 == max_score(s, s.len());
    assert(s[k].1 <= s[i].1);
    let p = pick_near_best(s, margin, seed);
    let j = choose|j: int| 0 <= j < s.len() && s[j] == p;
    assert(s[j].1 <= s[i].1);
}

/// The last best entry is unique: a search has one answer.
pub proof fn lemma_last_best_unique(s: Seq<(Move, i32)>, i: int, j: int)
    requires
        is_last_best(s, i),
        is_last_best(s, j),
    ensures
        i == j,
{
    if i < j {
        assert(s[j].1 < s[i].1);
        assert(s[i].1 <= s[j].1);
    } else if j < i {
        assert(s[i].1 < s[j].1);
        assert(s[j].1 <= s[i].1);
    }
}

/// Root scan entries are the scanned moves in order; a move after which
/// the game is over scores `WIN_SCORE - 1`, a win one ply away.
pub proof fn lemma_root_scan_wins(v: StateView, depth: nat, moves: Seq<Move>, i: nat, t: Seq<Option<TTEntry>>, mask: u64)
    ensures
        root_scan(v, depth, moves, i, t, mask).0.len() == if i <= moves.len() { moves.len() - i } else { 0 },
        forall|k: int| 0 <= k < root_scan(v, depth, moves, i, t, mask).0.len()
            ==> (#[trigger] root_scan(v, depth, moves, i, t, mask).0[k]).0 == moves[i + k],
        forall|k: int| 0 <= k < root_scan(v, depth, moves, i, t, mask).0.len()
            && terminal(after_move(v, (#[trigger] root_scan(v, depth, moves, i, t, mask).0[k]).0))
            ==> root_scan(v, depth, moves, i, t, mask).0[k].1 == WIN_SCORE - 1,
    decreases moves.len() - i,
{
    if i < moves.len() {
        let m = moves[i as int];
        let child = ab(after_move(v, m), (depth - 1) as nat, 1, -(WIN_SCORE + 1), WIN_SCORE + 1, t, mask);
        lemma_ab_unfold(after_move(v, m), (depth - 1) as nat, 1, -(WIN_SCORE + 1), WIN_SCORE + 1, t, mask);
        lemma_root_scan_wins(v, depth, moves, i + 1, child.1, mask);
        let res = root_scan(v, depth, moves, i, t, mask).0;
        let rest = root_scan(v, depth, moves, i + 1, child.1, mask).0;
        assert forall|k: int| 0 <= k < res.len() implies (#[trigger] res[k]).0 == moves[i + k] && (terminal(
            after_move(v, res[k].0),
        ) ==> res[k].1 == WIN_SCORE - 1) by {
            if k > 0 {
                assert(res[k] == rest[k - 1]);
            }
        }
    }
}

/// A root move after which the game is over by the rules scores
/// `WIN_SCORE - 1` in every search, whatever the depth.
pub proof fn lemma_immediate_win_scores(v: StateView, depth: nat, k: int)
    requires
        0 <= k < search_scores(v, depth).len(),
        terminal(after_move(v, search_scores(v, depth)[k].0)),
    ensures
        search_scores(v, depth)[k].1 == WIN_SCORE - 1,
{
    let t = if depth <= 1 { fresh_slots() } else { deepening(v, (depth - 1) as nat).1 };
    let d = if depth <= 1 { 1 } else { depth };
    let moves = ordered(legal_moves(v), remembered(lookup(t, fresh_mask(), zobrist_of(v))));
    lemma_root_scan_wins(v, d, moves, 0, t, fresh_mask());
}

/// Root scan entries after which the game goes on score an inner score,
/// and the table keeps only inner scores.
proof fn lemma_root_scan_inner(v: StateView, depth: nat, moves: Seq<Move>, i: nat, t: Seq<Option<TTEntry>>, mask: u64)
    requires
        v.wf(),
        1 <= depth,
        depth + material(v) <= 255,
        forall|k: int| 0 <= k < moves.len() ==> playable(v, #[trigger] moves[k]),
        table_inner(t),
        t.len() == mask + 1,
    ensures
        forall|k: int| 0 <= k < root_scan(v, depth, moves, i, t, mask).0.len() && !terminal(
            after_move(v, (#[trigger] root_scan(v, depth, moves, i, t, mask).0[k]).0),
        ) ==> inner_score(root_scan(v, depth, moves, i, t, mask).0[k].1 as int),
        table_inner(root_scan(v, depth, moves, i, t, mask).1),
        root_scan(v, depth, moves, i, t, mask).1.len() == t.len(),
    decreases moves.len() - i,
{
    if i < moves.len() {
        let m = moves[i as int];
        assert(playable(v, m));
        lemma_child_decidable(v, m);
        lemma_after_move(v, m);
        let c = after_move(v, m);
        let child = ab(c, (depth - 1) as nat, 1, -(WIN_SCORE + 1), WIN_SCORE + 1, t, mask);
        lemma_ab_unfold(c, (depth - 1) as nat, 1, -(WIN_SCORE + 1), WIN_SCORE + 1, t, mask);
        if !terminal(c) {
            lemma_ab_inner(c, (depth - 1) as nat, 1, -(WIN_SCORE + 1), WIN_SCORE + 1, t, mask);
        }
        lemma_root_scan_inner(v, depth, moves, i + 1, child.1, mask);
        let res = root_scan(v, depth, moves, i, t, mask).0;
        let rest = root_scan(v, depth, moves, i + 1, child.1, mask).0;
        assert forall|k: int| 0 <= k < res.len() && !terminal(after_move(v, (#[trigger] res[k]).0)) implies inner_score(
            res[k].1 as int,
        ) by {
            if k > 0 {
                assert(res[k] == rest[k - 1]);
            }
        }
    }
}

/// The legal moves, in an order a root pass may use, are all playable.
proof fn lemma_ordered_playable(v: StateView, tt_move: Option<Move>)
    requires
        v.wf(),
    ensures
        forall|k: int| 0 <= k < ordered(legal_moves(v), tt_move).len() ==> playable(
            v,
            #[trigger] ordered(legal_moves(v), tt_move)[k],
        ),
        forall|k: int| 0 <= k < ordered(legal_moves(v), tt_move).len() ==> legal_moves(v).contains(
            #[trigger] ordered(legal_moves(v), tt_move)[k],
        ),
{
    lemma_ordered_members(legal_moves(v), tt_move);
    lemma_legal_moves_playable(v);
    let moves = ordered(legal_moves(v), tt_move);
    assert forall|k: int| 0 <= k < moves.len() implies playable(v, #[trigger] moves[k]) by {
        let j = choose|j: int| 0 <= j < legal_moves(v).len() && legal_moves(v)[j] == moves[k];
        assert(playable(v, legal_moves(v)[j]));
    }
}

/// Every pass of iterative deepening keeps the table's scores inner and
/// scores every root move after which the game goes on with an inner score.
proof fn lemma_deepening_inner(v: StateView, depth: nat)
    requires
        v.wf(),
        1 <= depth,
        depth + material(v) <= 255,
    ensures
        table_inner(deepening(v, depth).1),
        deepening(v, depth).1.len() == 65536,
        forall|k: int| 0 <= k < deepening(v, depth).0.len() && !terminal(after_move(v, (#[trigger] deepening(v, depth).0[k]).0))
            ==> inner_score(deepening(v, depth).0[k].1 as int),
    decreases depth,
{
    let t = if depth <= 1 { fresh_slots() } else { deepening(v, (depth - 1) as nat).1 };
    let d = if depth <= 1 { 1 } else { depth };
    if depth > 1 {
        lemma_deepening_inner(v, (depth - 1) as nat);
    }
    let tm = remembered(lookup(t, fresh_mask(), zobrist_of(v)));
    lemma_ordered_playable(v, tm);
    lemma_root_scan_inner(v, d, ordered(legal_moves(v), tm), 0, t, fresh_mask());
}

/// A root move scores `WIN_SCORE - 1` exactly when the game is over after
/// it, and no root move scores more.
pub proof fn lemma_mate_in_one_scores(v: StateView, depth: u8)
    requires
        searchable(v, depth),
    ensures
        forall|k: int| 0 <= k < search_scores(v, depth as nat).len() ==> (#[trigger] search_scores(v, depth as nat)[k]).1
            <= WIN_SCORE - 1 && (search_scores(v, depth as nat)[k].1 == WIN_SCORE - 1 <==> terminal(
            after_move(v, search_scores(v, depth as nat)[k].0),
        )),
{
    lemma_deepening_inner(v, depth as nat);
    let s = search_scores(v, depth as nat);
    assert forall|k: int| 0 <= k < s.len() implies (#[trigger] s[k]).1 <= WIN_SCORE - 1 && (s[k].1 == WIN_SCORE - 1
        <==> terminal(after_move(v, s[k].0))) by {
        if terminal(after_move(v, s[k].0)) {
            lemma_immediate_win_scores(v, depth as nat, k);
        }
    }
}

/// A search scores `WIN_SCORE - 1` exactly when some legal move ends the
/// game at once, and then the move it returns is such a move.
pub proof fn lemma_search_mate_in_one(v: StateView, depth: u8, i: int)
    requires
        searchable(v, depth),
        is_last_best(search_scores(v, depth as nat), i),
    ensures
        search_scores(v, depth as nat)[i].1 <= WIN_SCORE - 1,
        search_scores(v, depth as nat)[i].1 == WIN_SCORE - 1 <==> exists|m: Move|
            legal_moves(v).contains(m) && #[trigger] terminal(after_move(v, m)),
        search_scores(v, depth as nat)[i].1 == WIN_SCORE - 1 ==> terminal(after_move(v, search_scores(v, depth as nat)[i].0)),
        legal_moves(v).contains(search_scores(v, depth as nat)[i].0),
{
    broadcast use vstd::seq_lib::to_multiset_contains;

    lemma_mate_in_one_scores(v, depth);
    let s = search_scores(v, depth as nat);
    let dn = depth as nat;
    let t = if dn <= 1 { fresh_slots() } else { deepening(v, (dn - 1) as nat).1 };
    let d = if dn <= 1 { 1 } else { dn };
    let tm = remembered(lookup(t, fresh_mask(), zobrist_of(v)));
    let moves = ordered(legal_moves(v), tm);
    lemma_root_scan_wins(v, d, moves, 0, t, fresh_mask());
    lemma_ordered_playable(v, tm);
    lemma_ordered_permutation(legal_moves(v), tm);
    assert(s == root_scan(v, d, moves, 0, t, fresh_mask()).0);
    assert(s[i].0 == moves[i]);
    if exists|m: Move| legal_moves(v).contains(m) && #[trigger] terminal(after_move(v, m)) {
        let m = choose|m: Move| legal_moves(v).contains(m) && #[trigger] terminal(after_move(v, m));
        assert(legal_moves(v).to_multiset().count(m) > 0);
        assert(moves.contains(m));
        let k = choose|k: int| 0 <= k < moves.len() && moves[k] == m;
        assert(s[k].0 == m);
        assert(s[k].1 == WIN_SCORE - 1);
        assert(s[k].1 <= s[i].1);
    }
    if s[i].1 == WIN_SCORE - 1 {
        assert(legal_moves(v).contains(s[i].0) && terminal(after_move(v, s[i].0)));
    }
}

/// Picks, from `seed`, one of the entries within `margin` of the best score.
fn pick_randomized(scored: &Vec<(Move, i32)>, margin: i32, seed: u64) -> (r: SearchResult)
    requires
        scored@.len() > 0,
        margin >= 0,
        forall|k: int| 0 <= k < scored@.len() ==> -(WIN_SCORE + 1) <= (#[trigger] scored@[k]).1 <= WIN_SCORE + 1,
    ensures
        (r.best_move, r.score) == pick_near_best(scored@, margin, seed),
{
    let ghost s = scored@;
    let mut best_score: i32 = scored[0].1;
    let mut i: usize = 1;
    while i < scored.len()
        invariant
            s == scored@,
            1 <= i <= s.len(),
            best_score == max_score(s, i as nat),
            -(WIN_SCORE + 1) <= best_score <= WIN_SCORE + 1,
            forall|k: int| 0 <= k < s.len() ==> -(WIN_SCORE + 1) <= (#[trigger] s[k]).1 <= WIN_SCORE + 1,
        decreases s.len() - i,
    {
        if scored[i].1 > best_score {
            best_score = scored[i].1;
        }
        i = i + 1;
    }
    let ghost p = near_best(best_score as int, margin);
    let mut candidates: Vec<(Move, i32)> = Vec::new();
    let mut j: usize = 0;
    proof {
        reveal(Seq::filter);
        assert(s.take(0) =~= Seq::<(Move, i32)>::empty());
    }
    while j < scored.len()
        invariant
            s == scored@,
            j <= s.len(),
            best_score == max_score(s, s.len()),
            -(WIN_SCORE + 1) <= best_score <= WIN_SCORE + 1,
            forall|k: int| 0 <= k < s.len() ==> -(WIN_SCORE + 1) <= (#[trigger] s[k]).1 <= WIN_SCORE + 1,
            p == near_best(best_score as int, margin),
            candidates@ == s.take(j as int).filter(p),
        decreases s.len() - j,
    {
        proof {
            reveal(Seq::filter);
            assert(s.take(j + 1).drop_last() =~= s.take(j as int));
        }
        if best_score - scored[j].1 <= margin {
            candidates.push(scored[j]);
        }
        j = j + 1;
    }
    proof {
        assert(s.take(s.len() as int) =~= s);
        lemma_max_score(s, s.len());
        let k = choose|k: int| 0 <= k < s.len() && #[trigger] s[k].1 == max_score(s, s.len());
        s.lemma_filter_contains(p, k);
    }
    let (_, pick) = splitmix64(seed);
    let idx = (pick as usize) % candidates.len();
    let (best_move, score) = candidates[idx];
    SearchResult { best_move, score }
}

/// Like `search`, but among root moves within `margin` of the best score,
/// picks one deterministically from `seed` instead of always the single
/// strongest — a weaker, still-reproducible "easy mode". The core never
/// generates its own randomness; `seed` is entirely the caller's choice.
pub fn search_with_randomization(state: &CurrentGameState, depth: u8, margin: i32, seed: u64) -> (r: SearchResult)
    requires
        searchable(state@, depth),
        margin >= 0,
    ensures
        (r.best_move, r.score) == pick_near_best(search_scores(state@, depth as nat), margin, seed),
        legal_moves(state@).contains(r.best_move),
        -(WIN_SCORE + 1) <= r.score <= WIN_SCORE + 1,
        root_scoring(search_scores(state@, depth as nat), state@),
        depth == 1 ==> depth_one_scores(search_scores(state@, depth as nat), state@),
{
    let scored = iterate(state, depth);
    let r = pick_randomized(&scored, margin, seed);
    proof {
        lemma_pick_within_margin(scored@, margin, seed);
        let k = choose|k: int| 0 <= k < scored@.len() && scored@[k] == pick_near_best(scored@, margin, seed);
        assert(legal_moves(state@).contains(scored@[k].0));
    }
    r
}

} // verus!
