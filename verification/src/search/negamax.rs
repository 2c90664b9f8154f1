use vstd::prelude::*;
use crate::moves::{after_move, material, playable, lemma_after_move};
use crate::position::{CurrentGameState, StateView};
use crate::rules::{
    legal_moves, terminal, terminal_decidable, draw_by_plies, terminal_by_pieces, lost_by_pieces, moves_defined,
    lemma_legal_moves_playable, lemma_child_decidable,
};
use crate::types::{Move, captures_of};
use super::eval::{evaluate, evaluation, lemma_side_score_bounds};
use super::ordering::{
    order_moves, ordered, is_capture, is_capture_move, lemma_ordered_members, lemma_ordered_captures,
    lemma_ordered_permutation,
};
use super::tt::{Bound, TTEntry, TranspositionTable, lookup, stored};
use crate::zobrist::{zobrist_of, build_tables, ZobristTables};

verus! {

/// Score of a position that is a forced win for the side to move "right
/// now" (ply 0). Actual win/loss scores are offset by ply so the engine
/// prefers a faster win and a slower loss over an equally-certain one
/// further away (mate-distance scoring).
pub const WIN_SCORE: i32 = 100_000;

/// A score a search with the full window can produce.
pub open spec fn bounded_score(x: i32) -> bool {
    -(WIN_SCORE + 1) <= x <= WIN_SCORE + 1
}

/// `x` limited to the window `lo..=hi`.
pub open spec fn clamp(x: int, lo: int, hi: int) -> int {
    if x < lo {
        lo
    } else if x > hi {
        hi
    } else {
        x
    }
}

/// Capturing moves, as a predicate.
pub open spec fn capture_pred() -> spec_fn(Move) -> bool {
    |m: Move| is_capture_move(m)
}

/// The legal capturing moves, in generation order.
pub open spec fn capture_moves(v: StateView) -> Seq<Move> {
    legal_moves(v).filter(capture_pred())
}

/// A legal capture costs material.
pub proof fn lemma_capture_shrinks(v: StateView, k: int)
    requires
        v.wf(),
        0 <= k < capture_moves(v).len(),
    ensures
        playable(v, capture_moves(v)[k]),
        material(after_move(v, capture_moves(v)[k])) < material(v),
{
    let m = capture_moves(v)[k];
    legal_moves(v).lemma_filter_pred(capture_pred(), k);
    assert(capture_moves(v).contains(m));
    legal_moves(v).lemma_filter_contains_rev(capture_pred(), m);
    lemma_legal_moves_playable(v);
    let j = choose|j: int| 0 <= j < legal_moves(v).len() && legal_moves(v)[j] == m;
    assert(playable(v, legal_moves(v)[j]));
    lemma_after_move(v, m);
}

/// Value of a position for the side to move when only captures are
/// searched: a loss (scored by distance `ply`) at a terminal position, 0 at
/// a draw, otherwise the better of the static evaluation ("stand pat") and
/// the best capture.
#[verifier::opaque]
pub open spec fn q_value(v: StateView, ply: int) -> int
    decreases material(v), 1nat, 0nat,
{
    if !terminal_decidable(v) {
        0
    } else if terminal(v) {
        -(WIN_SCORE - ply)
    } else if draw_by_plies(v) {
        0
    } else {
        best_capture(v, ply, capture_moves(v).len())
    }
}

/// The better of standing pat and the first `n` captures.
#[verifier::opaque]
pub open spec fn best_capture(v: StateView, ply: int, n: nat) -> int
    decreases material(v), 0nat, n,
{
    if n == 0 || n > capture_moves(v).len() || !terminal_decidable(v) {
        evaluation(v, v.turn)
    } else {
        let m = capture_moves(v)[n - 1];
        proof {
            lemma_capture_shrinks(v, n - 1);
        }
        let prev = best_capture(v, ply, (n - 1) as nat);
        let here = -q_value(after_move(v, m), ply + 1);
        if here > prev {
            here
        } else {
            prev
        }
    }
}

/// `q_value`, one step unfolded.
pub proof fn lemma_q_unfold(v: StateView, ply: int)
    requires
        terminal_decidable(v),
    ensures
        terminal(v) ==> q_value(v, ply) == -(WIN_SCORE - ply),
        !terminal(v) && draw_by_plies(v) ==> q_value(v, ply) == 0,
        !terminal(v) && !draw_by_plies(v) ==> q_value(v, ply) == best_capture(v, ply, capture_moves(v).len()),
{
    reveal(q_value);
    reveal(best_capture);
}

/// `best_capture`, one step unfolded.
pub proof fn lemma_best_unfold(v: StateView, ply: int, n: nat)
    requires
        terminal_decidable(v),
        n <= capture_moves(v).len(),
    ensures
        n == 0 ==> best_capture(v, ply, n) == evaluation(v, v.turn),
        n > 0 ==> best_capture(v, ply, n) == (if -q_value(after_move(v, capture_moves(v)[n - 1]), ply + 1)
            > best_capture(v, ply, (n - 1) as nat) {
            -q_value(after_move(v, capture_moves(v)[n - 1]), ply + 1)
        } else {
            best_capture(v, ply, (n - 1) as nat)
        }),
{
    reveal(q_value);
    reveal(best_capture);
}

/// Quiescence values are real scores: never beyond a win either way.
pub proof fn lemma_q_bounds(v: StateView, ply: int)
    requires
        0 <= ply,
        ply + material(v) <= 255,
    ensures
        -WIN_SCORE <= q_value(v, ply) <= WIN_SCORE,
    decreases material(v), 1nat, 0nat,
{
    reveal(q_value);
    reveal(best_capture);
    if terminal_decidable(v) && !terminal(v) && !draw_by_plies(v) {
        lemma_best_bounds(v, ply, capture_moves(v).len());
    }
}

pub proof fn lemma_best_bounds(v: StateView, ply: int, n: nat)
    requires
        0 <= ply,
        ply + material(v) <= 255,
    ensures
        -WIN_SCORE <= best_capture(v, ply, n) <= WIN_SCORE,
    decreases material(v), 0nat, n,
{
    reveal(q_value);
    reveal(best_capture);
    lemma_side_score_bounds(v, v.turn);
    lemma_side_score_bounds(v, crate::types::opponent_of(v.turn));
    if !(n == 0 || n > capture_moves(v).len() || !terminal_decidable(v)) {
        lemma_capture_shrinks(v, n - 1);
        lemma_best_bounds(v, ply, (n - 1) as nat);
        lemma_q_bounds(after_move(v, capture_moves(v)[n - 1]), ply + 1);
    }
}

/// Looking at more captures never lowers the best found.
pub proof fn lemma_best_monotone(v: StateView, ply: int, k: nat, n: nat)
    requires
        k <= n <= capture_moves(v).len(),
        terminal_decidable(v),
    ensures
        best_capture(v, ply, k) <= best_capture(v, ply, n),
    decreases n,
{
    reveal(q_value);
    reveal(best_capture);
    if k < n {
        lemma_best_monotone(v, ply, k, (n - 1) as nat);
    }
}

/// What `quiescence` computes, step by step: a loss (scored by distance
/// `ply`) at a terminal position, 0 at a draw; otherwise `beta` when
/// standing pat already reaches it, else the capture scan started from the
/// better of `alpha` and standing pat.
#[verifier::opaque]
pub open spec fn q_search(v: StateView, ply: int, alpha: int, beta: int) -> int
    decreases material(v), 1nat, 0nat,
{
    if !terminal_decidable(v) {
        0
    } else if terminal(v) {
        -(WIN_SCORE - ply)
    } else if draw_by_plies(v) {
        0
    } else if evaluation(v, v.turn) >= beta {
        beta
    } else {
        q_scan(v, ply, beta, 0, if alpha > evaluation(v, v.turn) { alpha } else { evaluation(v, v.turn) })
    }
}

/// The capture scan of `q_search` from the `i`-th capture on, with running
/// lower bound `a`: a capture whose score reaches `beta` ends it with
/// `beta`; otherwise it ends with the best of `a` and the scores seen.
#[verifier::opaque]
pub open spec fn q_scan(v: StateView, ply: int, beta: int, i: nat, a: int) -> int
    decreases material(v), 0nat, capture_moves(v).len() - i,
{
    if !terminal_decidable(v) || i >= capture_moves(v).len() {
        a
    } else {
        let m = capture_moves(v)[i as int];
        proof {
            lemma_capture_shrinks(v, i as int);
        }
        let score = -q_search(after_move(v, m), ply + 1, -beta, -a);
        if score >= beta {
            beta
        } else {
            q_scan(v, ply, beta, i + 1, if a > score { a } else { score })
        }
    }
}

/// `q_search`, one step unfolded.
pub proof fn lemma_q_search_unfold(v: StateView, ply: int, alpha: int, beta: int)
    requires
        terminal_decidable(v),
    ensures
        q_search(v, ply, alpha, beta) == (if terminal(v) {
            -(WIN_SCORE - ply)
        } else if draw_by_plies(v) {
            0
        } else if evaluation(v, v.turn) >= beta {
            beta
        } else {
            q_scan(v, ply, beta, 0, if alpha > evaluation(v, v.turn) { alpha } else { evaluation(v, v.turn) })
        }),
{
    reveal(q_search);
    reveal(q_scan);
}

/// `q_scan`, one step unfolded.
pub proof fn lemma_q_scan_unfold(v: StateView, ply: int, beta: int, i: nat, a: int)
    requires
        terminal_decidable(v),
    ensures
        i >= capture_moves(v).len() ==> q_scan(v, ply, beta, i, a) == a,
        i < capture_moves(v).len() ==> q_scan(v, ply, beta, i, a) == (if -q_search(
            after_move(v, capture_moves(v)[i as int]),
            ply + 1,
            -beta,
            -a,
        ) >= beta {
            beta
        } else {
            q_scan(
                v,
                ply,
                beta,
                i + 1,
                if a > -q_search(after_move(v, capture_moves(v)[i as int]), ply + 1, -beta, -a) {
                    a
                } else {
                    -q_search(after_move(v, capture_moves(v)[i as int]), ply + 1, -beta, -a)
                },
            )
        }),
{
    reveal(q_search);
    reveal(q_scan);
}

/// Quiescence is fail-hard: in a game still going on, for a non-empty
/// window, it answers the capture-only value clamped to the window; at a
/// finished game it answers that value itself.
pub proof fn lemma_q_search_clamps(v: StateView, ply: int, alpha: int, beta: int)
    requires
        terminal_decidable(v),
        alpha < beta,
    ensures
        terminal(v) || draw_by_plies(v) ==> q_search(v, ply, alpha, beta) == q_value(v, ply),
        !terminal(v) && !draw_by_plies(v) ==> q_search(v, ply, alpha, beta) == clamp(q_value(v, ply), alpha, beta),
    decreases material(v), 1nat, 0nat,
{
    lemma_q_search_unfold(v, ply, alpha, beta);
    lemma_q_unfold(v, ply);
    if !terminal(v) && !draw_by_plies(v) {
        let n = capture_moves(v).len();
        lemma_best_unfold(v, ply, 0);
        lemma_best_monotone(v, ply, 0, n);
        let sp = evaluation(v, v.turn);
        if sp < beta {
            let a = if alpha > sp { alpha } else { sp };
            lemma_q_scan_clamps(v, ply, beta, 0, a);
        }
    }
}

/// The capture scan from the `i`-th capture on, started with a bound `a`
/// at least the best of the earlier captures and below `beta`, answers
/// the best capture value clamped to `a..=beta`.
pub proof fn lemma_q_scan_clamps(v: StateView, ply: int, beta: int, i: nat, a: int)
    requires
        terminal_decidable(v),
        !terminal(v),
        !draw_by_plies(v),
        i <= capture_moves(v).len(),
        best_capture(v, ply, i) <= a,
        a < beta,
    ensures
        q_scan(v, ply, beta, i, a) == clamp(best_capture(v, ply, capture_moves(v).len()), a, beta),
    decreases material(v), 0nat, capture_moves(v).len() - i,
{
    let n = capture_moves(v).len();
    lemma_q_scan_unfold(v, ply, beta, i, a);
    lemma_best_monotone(v, ply, i, n);
    if i < n {
        let m = capture_moves(v)[i as int];
        lemma_capture_shrinks(v, i as int);
        lemma_child_decidable(v, m);
        let c = after_move(v, m);
        lemma_q_search_clamps(c, ply + 1, -beta, -a);
        lemma_best_unfold(v, ply, i + 1);
        lemma_best_monotone(v, ply, i + 1, n);
        let here = -q_value(c, ply + 1);
        let score = -q_search(c, ply + 1, -beta, -a);
        if score < beta {
            let a2 = if a > score { a } else { score };
            lemma_q_scan_clamps(v, ply, beta, i + 1, a2);
        }
    }
}

/// The legal captures of the side to move, in generation order.
fn collect_captures(state: &CurrentGameState) -> (r: Vec<Move>)
    requires
        terminal_decidable(state@),
        !terminal_by_pieces(state@),
    ensures
        r@ == capture_moves(state@),
{
    let all = state.generate_moves();
    let mut captures: Vec<Move> = Vec::new();
    let mut k: usize = 0;
    proof {
        reveal(Seq::filter);
        assert(all@.take(0) =~= Seq::<Move>::empty());
    }
    while k < all.len()
        invariant
            k <= all@.len(),
            all@ == legal_moves(state@),
            captures@ == all@.take(k as int).filter(capture_pred()),
        decreases all@.len() - k,
    {
        proof {
            reveal(Seq::filter);
            assert(all@.take(k + 1).drop_last() =~= all@.take(k as int));
        }
        if is_capture(all[k]) {
            captures.push(all[k]);
        }
        k = k + 1;
    }
    proof {
        assert(all@.take(all@.len() as int) =~= all@);
    }
    captures
}

/// The legal captures, put through move ordering (which, with no
/// remembered move, leaves a list of captures as it is).
fn ordered_captures(state: &CurrentGameState) -> (r: Vec<Move>)
    requires
        terminal_decidable(state@),
        !terminal_by_pieces(state@),
    ensures
        r@ == capture_moves(state@),
{
    let mut captures = collect_captures(state);
    proof {
        assert forall|i: int| 0 <= i < captures@.len() implies is_capture_move(#[trigger] captures@[i]) by {
            legal_moves(state@).lemma_filter_pred(capture_pred(), i);
        }
        lemma_ordered_captures(captures@);
    }
    order_moves(&mut captures, None);
    captures
}

/// One step of the capture loop: either the capture refutes the window
/// (the value reaches `beta`), or the running bound becomes the best of
/// the first `i + 1` captures.
proof fn lemma_q_step(v: StateView, ply: int, i: nat, alpha: int, beta: int, a: int, child_r: int)
    requires
        terminal_decidable(v),
        i < capture_moves(v).len(),
        alpha < beta,
        a == (if alpha > best_capture(v, ply, i) { alpha } else { best_capture(v, ply, i) }),
        best_capture(v, ply, i) < beta,
        terminal(after_move(v, capture_moves(v)[i as int])) || draw_by_plies(after_move(v, capture_moves(v)[i as int]))
            ==> child_r == q_value(after_move(v, capture_moves(v)[i as int]), ply + 1),
        !(terminal(after_move(v, capture_moves(v)[i as int])) || draw_by_plies(after_move(v, capture_moves(v)[i as int])))
            ==> child_r == clamp(q_value(after_move(v, capture_moves(v)[i as int]), ply + 1), -beta, -a),
    ensures
        -child_r >= beta ==> best_capture(v, ply, i + 1) >= beta,
        -child_r < beta ==> best_capture(v, ply, i + 1) < beta && (if a > -child_r { a } else { -child_r }) == (if alpha
            > best_capture(v, ply, i + 1) {
            alpha
        } else {
            best_capture(v, ply, i + 1)
        }),
{
    lemma_capture_shrinks(v, i as int);
    lemma_best_unfold(v, ply, i + 1);
}

/// Extends search past the nominal depth limit through capturing moves
/// only, so `negamax` never evaluates a position mid-capture-exchange.
/// Terminates since every capture removes a piece. Computes exactly
/// `q_search`; fail-hard: outside a finished game, for a non-empty window,
/// that is the capture-only value `q_value` clamped to the window.
#[verifier::rlimit(30)]
pub fn quiescence(state: &CurrentGameState, ply: u8, alpha: i32, beta: i32) -> (r: i32)
    requires
        terminal_decidable(state@),
        i32::MIN < alpha,
        i32::MIN < beta,
        terminal(state@) || draw_by_plies(state@) || ply + material(state@) <= 255,
    ensures
        r == q_search(state@, ply as int, alpha as int, beta as int),
        terminal(state@) || draw_by_plies(state@) ==> r == q_value(state@, ply as int),
        !(terminal(state@) || draw_by_plies(state@)) && alpha < beta ==> r == clamp(
            q_value(state@, ply as int),
            alpha as int,
            beta as int,
        ),
        i32::MIN < r,
        bounded_score(alpha) && bounded_score(beta) ==> bounded_score(r),
    decreases material(state@), 1nat,
{
    let ghost v = state@;
    proof {
        lemma_q_unfold(v, ply as int);
        lemma_q_search_unfold(v, ply as int, alpha as int, beta as int);
    }
    if state.is_terminal() {
        return -(WIN_SCORE - ply as i32);
    }
    if state.is_draw_by_plies() {
        return 0;
    }
    proof {
        lemma_q_bounds(v, ply as int);
    }

    // Stand pat: the side to move isn't forced to capture, so "decline and
    // take the static score" is always a legal option and a valid lower
    // bound on what this node is worth.
    let stand_pat = evaluate(state, state.side_to_move());
    proof {
        lemma_best_monotone(v, ply as int, 0, capture_moves(v).len());
        lemma_best_unfold(v, ply as int, 0);
    }
    if stand_pat >= beta {
        return beta;
    }
    let mut a: i32 = if alpha > stand_pat { alpha } else { stand_pat };

    let captures = ordered_captures(state);

    proof {
        lemma_best_monotone(v, ply as int, 0, capture_moves(v).len());
    }
    capture_loop(state, ply, alpha, beta, a, &captures)
}

/// The capture loop of `quiescence`, entered with the running lower
/// bound `a` (the better of `alpha` and standing pat).
#[verifier::rlimit(30)]
fn capture_loop(state: &CurrentGameState, ply: u8, alpha: i32, beta: i32, a0: i32, captures: &Vec<Move>) -> (r: i32)
    requires
        terminal_decidable(state@),
        !terminal(state@),
        !draw_by_plies(state@),
        captures@ == capture_moves(state@),
        i32::MIN < alpha,
        i32::MIN < beta,
        ply + material(state@) <= 255,
        alpha <= a0,
        bounded_score(alpha) && bounded_score(beta) ==> bounded_score(a0),
        alpha < beta ==> a0 as int == (if alpha as int > best_capture(state@, ply as int, 0) {
            alpha as int
        } else {
            best_capture(state@, ply as int, 0)
        }) && best_capture(state@, ply as int, 0) < beta,
        q_value(state@, ply as int) == best_capture(state@, ply as int, capture_moves(state@).len()),
    ensures
        r == q_scan(state@, ply as int, beta as int, 0, a0 as int),
        alpha < beta ==> r == clamp(q_value(state@, ply as int), alpha as int, beta as int),
        i32::MIN < r,
        bounded_score(alpha) && bounded_score(beta) ==> bounded_score(r),
    decreases material(state@), 0nat,
{
    let ghost v = state@;
    let ghost bounded = bounded_score(alpha) && bounded_score(beta);
    let mut a = a0;
    let ghost caps = capture_moves(v);
    let mut i: usize = 0;
    while i < captures.len()
        invariant
            captures@ == caps,
            caps == capture_moves(v),
            i <= caps.len(),
            v == state@,
            terminal_decidable(v),
            !terminal(v),
            !draw_by_plies(v),
            i32::MIN < alpha,
            i32::MIN < beta,
            ply + material(v) <= 255,
            alpha <= a,
            bounded == (bounded_score(alpha) && bounded_score(beta)),
            bounded ==> bounded_score(a),
            alpha < beta ==> a as int == (if alpha as int > best_capture(v, ply as int, i as nat) {
                alpha as int
            } else {
                best_capture(v, ply as int, i as nat)
            }) && best_capture(v, ply as int, i as nat) < beta && a < beta,
            q_value(v, ply as int) == best_capture(v, ply as int, caps.len()),
            q_scan(v, ply as int, beta as int, 0, a0 as int) == q_scan(v, ply as int, beta as int, i as nat, a as int),
        decreases caps.len() - i,
    {
        let mv = captures[i];
        proof {
            lemma_q_scan_unfold(v, ply as int, beta as int, i as nat, a as int);
            lemma_capture_shrinks(v, i as int);
            lemma_child_decidable(v, mv);
            lemma_q_bounds(after_move(v, mv), ply + 1);
        }
        let next = state.make_move(mv);
        let child = quiescence(&next, ply + 1, -beta, -a);
        proof {
            if alpha < beta {
                lemma_q_step(v, ply as int, i as nat, alpha as int, beta as int, a as int, child as int);
                lemma_best_monotone(v, ply as int, (i + 1) as nat, caps.len());
            }
        }
        let score = -child;
        if score >= beta {
            proof {
                if alpha < beta {
                    assert(best_capture(v, ply as int, (i + 1) as nat) >= beta);
                    assert(q_value(v, ply as int) >= beta);
                }
            }
            return beta;
        }
        a = if a > score { a } else { score };
        i = i + 1;
    }
    proof {
        lemma_q_scan_unfold(v, ply as int, beta as int, i as nat, a as int);
    }
    a
}

/// A side only loses by material on its own turn: after a move by a side
/// that owns at least three pieces (in hand and on the board), a position
/// lost by material is lost by the side now to move. This is why a
/// terminal position is scored as a loss for the side to move.
pub proof fn lemma_material_loss_is_side_to_move(v: StateView, mv: Move)
    requires
        v.wf(),
        playable(v, mv),
        v.hand(v.turn) + v.on_board(v.turn) >= 3,
    ensures
        terminal_by_pieces(after_move(v, mv)) ==> lost_by_pieces(after_move(v, mv), after_move(v, mv).turn),
{
    lemma_after_move(v, mv);
}

/// Lets the table keep every stored score within `-(WIN_SCORE + 1)..=WIN_SCORE + 1`.
proof fn lemma_store_keeps_scores(slots: Seq<Option<TTEntry>>, mask: u64, key: u64, entry: TTEntry, b: int)
    requires
        0 <= (key & mask) < slots.len(),
        forall|i: int| 0 <= i < slots.len() && #[trigger] slots[i] is Some ==> -b <= slots[i]->0.score <= b,
        -b <= entry.score <= b,
    ensures
        forall|i: int| 0 <= i < stored(slots, mask, key, entry).len() && #[trigger] stored(slots, mask, key, entry)[i] is Some
            ==> -b <= stored(slots, mask, key, entry)[i]->0.score <= b,
{
}

/// The move a table entry remembers, if any.
pub open spec fn remembered(found: Option<TTEntry>) -> Option<Move> {
    match found {
        Some(e) => e.best_move,
        None => None,
    }
}

/// What a table entry does to a search of `depth` with window
/// `alpha..beta`: an entry searched at least as deep narrows the window by
/// its bound, and answers its score outright when it is exact or the
/// narrowed window is closed. Gives the answer, if any, and the window.
pub open spec fn probe_window(found: Option<TTEntry>, depth: nat, alpha: int, beta: int) -> (Option<int>, int, int) {
    if found is Some && found->0.depth >= depth {
        let e = found->0;
        let a1 = if e.bound == Bound::Lower && e.score > alpha { e.score as int } else { alpha };
        let b1 = if e.bound == Bound::Upper && e.score < beta { e.score as int } else { beta };
        if e.bound == Bound::Exact || a1 >= b1 {
            (Some(e.score as int), a1, b1)
        } else {
            (None, a1, b1)
        }
    } else {
        (None, alpha, beta)
    }
}

/// The entry a finished node stores: its key, depth, score, the bound the
/// score represents against the window it was searched with, and its best
/// move.
pub open spec fn node_entry(key: u64, depth: nat, score: int, alpha: int, beta: int, best_move: Move) -> TTEntry {
    TTEntry {
        key,
        depth: depth as u8,
        score: score as i32,
        bound: if score <= alpha {
            Bound::Upper
        } else if score >= beta {
            Bound::Lower
        } else {
            Bound::Exact
        },
        best_move: Some(best_move),
    }
}

/// What `negamax` computes, with the slots `t` of a table with index mask
/// `mask`: the score, and the slots afterwards. A terminal position is a
/// loss by distance `ply`, a draw by the clock is 0, depth 0 hands over to
/// `q_search`. Otherwise the table entry for the position, if searched at
/// least this deep, answers an exact score outright and narrows the window
/// by a bound, answering its score when the window closes; else every legal
/// move, the remembered one first, is searched in turn by `ab_scan`, and the
/// outcome is stored.
#[verifier::opaque]
pub open spec fn ab(
    v: StateView,
    depth: nat,
    ply: int,
    alpha: int,
    beta: int,
    t: Seq<Option<TTEntry>>,
    mask: u64,
) -> (int, Seq<Option<TTEntry>>)
    decreases depth, 1nat, 0nat,
{
    if terminal(v) {
        (-(WIN_SCORE - ply), t)
    } else if draw_by_plies(v) {
        (0, t)
    } else if depth == 0 {
        (q_search(v, ply, alpha, beta), t)
    } else {
        let key = zobrist_of(v);
        let found = lookup(t, mask, key);
        let w = probe_window(found, depth, alpha, beta);
        match w.0 {
            Some(score) => (score, t),
            None => {
                let moves = ordered(legal_moves(v), remembered(found));
                let res = ab_scan(v, depth, ply, moves, 0, w.1, w.2, -WIN_SCORE - 1, moves[0], t, mask);
                (res.0, stored(res.2, mask, key, node_entry(key, depth, res.0, alpha, w.2, res.1)))
            },
        }
    }
}

/// The move loop of `ab` from the `i`-th move on: the running window
/// `alpha..beta`, the best score and move so far, and the slots. Each
/// child is searched with the negated window; a strictly better score
/// becomes the best; the loop stops once `alpha` reaches `beta`. Gives the
/// best score, the best move and the slots.
#[verifier::opaque]
pub open spec fn ab_scan(
    v: StateView,
    depth: nat,
    ply: int,
    moves: Seq<Move>,
    i: nat,
    alpha: int,
    beta: int,
    best: int,
    best_move: Move,
    t: Seq<Option<TTEntry>>,
    mask: u64,
) -> (int, Move, Seq<Option<TTEntry>>)
    decreases depth, 0nat, moves.len() - i,
{
    if depth == 0 || i >= moves.len() {
        (best, best_move, t)
    } else {
        let m = moves[i as int];
        let child = ab(after_move(v, m), (depth - 1) as nat, ply + 1, -beta, -alpha, t, mask);
        let score = -child.0;
        let best2 = if score > best { score } else { best };
        let move2 = if score > best { m } else { best_move };
        let alpha2 = if score > alpha { score } else { alpha };
        if alpha2 >= beta {
            (best2, move2, child.1)
        } else {
            ab_scan(v, depth, ply, moves, i + 1, alpha2, beta, best2, move2, child.1, mask)
        }
    }
}

/// `ab`, one step unfolded.
pub proof fn lemma_ab_unfold(
    v: StateView,
    depth: nat,
    ply: int,
    alpha: int,
    beta: int,
    t: Seq<Option<TTEntry>>,
    mask: u64,
)
    ensures
        ab(v, depth, ply, alpha, beta, t, mask) == (if terminal(v) {
            (-(WIN_SCORE - ply), t)
        } else if draw_by_plies(v) {
            (0, t)
        } else if depth == 0 {
            (q_search(v, ply, alpha, beta), t)
        } else {
            let key = zobrist_of(v);
            let found = lookup(t, mask, key);
            let w = probe_window(found, depth, alpha, beta);
            match w.0 {
                Some(score) => (score, t),
                None => {
                    let moves = ordered(legal_moves(v), remembered(found));
                    let res = ab_scan(v, depth, ply, moves, 0, w.1, w.2, -WIN_SCORE - 1, moves[0], t, mask);
                    (res.0, stored(res.2, mask, key, node_entry(key, depth, res.0, alpha, w.2, res.1)))
                },
            }
        }),
{
    reveal(ab);
    reveal(ab_scan);
}

/// `ab_scan`, one step unfolded.
pub proof fn lemma_ab_scan_unfold(
    v: StateView,
    depth: nat,
    ply: int,
    moves: Seq<Move>,
    i: nat,
    alpha: int,
    beta: int,
    best: int,
    best_move: Move,
    t: Seq<Option<TTEntry>>,
    mask: u64,
)
    ensures
        ab_scan(v, depth, ply, moves, i, alpha, beta, best, best_move, t, mask) == (if depth == 0 || i >= moves.len() {
            (best, best_move, t)
        } else {
            let m = moves[i as int];
            let child = ab(after_move(v, m), (depth - 1) as nat, ply + 1, -beta, -alpha, t, mask);
            let score = -child.0;
            let best2 = if score > best { score } else { best };
            let move2 = if score > best { m } else { best_move };
            let alpha2 = if score > alpha { score } else { alpha };
            if alpha2 >= beta {
                (best2, move2, child.1)
            } else {
                ab_scan(v, depth, ply, moves, i + 1, alpha2, beta, best2, move2, child.1, mask)
            }
        }),
{
    reveal(ab);
    reveal(ab_scan);
}

/// Each slot of `t2` is that of `t`, or an entry searched no deeper than `d`.
pub open spec fn kept_or_within(t: Seq<Option<TTEntry>>, t2: Seq<Option<TTEntry>>, d: nat) -> bool {
    &&& t2.len() == t.len()
    &&& forall|i: int| 0 <= i < t.len() ==> #[trigger] t2[i] == t[i] || (t2[i] is Some && t2[i]->0.depth <= d)
}

/// A search of `depth` only writes entries of at most that depth.
pub proof fn lemma_ab_keeps(
    v: StateView,
    depth: nat,
    ply: int,
    alpha: int,
    beta: int,
    t: Seq<Option<TTEntry>>,
    mask: u64,
)
    requires
        depth <= 255,
        t.len() == mask + 1,
    ensures
        kept_or_within(t, ab(v, depth, ply, alpha, beta, t, mask).1, depth),
    decreases depth, 1nat, 0nat,
{
    lemma_ab_unfold(v, depth, ply, alpha, beta, t, mask);
    if !terminal(v) && !draw_by_plies(v) && depth != 0 {
        let key = zobrist_of(v);
        let found = lookup(t, mask, key);
        let w = probe_window(found, depth, alpha, beta);
        if w.0 is None {
            let moves = ordered(legal_moves(v), remembered(found));
            let res = ab_scan(v, depth, ply, moves, 0, w.1, w.2, -WIN_SCORE - 1, moves[0], t, mask);
            lemma_ab_scan_keeps(v, depth, ply, moves, 0, w.1, w.2, -WIN_SCORE - 1, moves[0], t, mask);
            assert(key & mask <= mask) by (bit_vector);
            let e = node_entry(key, depth, res.0, alpha, w.2, res.1);
            assert(e.depth as nat == depth);
            let t2 = stored(res.2, mask, key, e);
            assert forall|i: int| 0 <= i < t.len() implies #[trigger] t2[i] == t[i] || (t2[i] is Some && t2[i]->0.depth
                <= depth) by {
                assert(res.2[i] == t[i] || (res.2[i] is Some && res.2[i]->0.depth <= depth));
            }
        }
    }
}

/// The move loop of a search of `depth` only writes entries of at most
/// that depth.
pub proof fn lemma_ab_scan_keeps(
    v: StateView,
    depth: nat,
    ply: int,
    moves: Seq<Move>,
    i: nat,
    alpha: int,
    beta: int,
    best: int,
    best_move: Move,
    t: Seq<Option<TTEntry>>,
    mask: u64,
)
    requires
        depth <= 255,
        t.len() == mask + 1,
    ensures
        kept_or_within(t, ab_scan(v, depth, ply, moves, i, alpha, beta, best, best_move, t, mask).2, depth),
    decreases depth, 0nat, moves.len() - i,
{
    lemma_ab_scan_unfold(v, depth, ply, moves, i, alpha, beta, best, best_move, t, mask);
    if depth != 0 && i < moves.len() {
        let m = moves[i as int];
        let child = ab(after_move(v, m), (depth - 1) as nat, ply + 1, -beta, -alpha, t, mask);
        lemma_ab_keeps(after_move(v, m), (depth - 1) as nat, ply + 1, -beta, -alpha, t, mask);
        let score = -child.0;
        let best2 = if score > best { score } else { best };
        let move2 = if score > best { m } else { best_move };
        let alpha2 = if score > alpha { score } else { alpha };
        if alpha2 < beta {
            lemma_ab_scan_keeps(v, depth, ply, moves, i + 1, alpha2, beta, best2, move2, child.1, mask);
            let t3 = ab_scan(v, depth, ply, moves, i + 1, alpha2, beta, best2, move2, child.1, mask).2;
            assert forall|k: int| 0 <= k < t.len() implies #[trigger] t3[k] == t[k] || (t3[k] is Some && t3[k]->0.depth
                <= depth) by {
                assert(child.1[k] == t[k] || (child.1[k] is Some && child.1[k]->0.depth <= depth));
                assert(t3[k] == child.1[k] || (t3[k] is Some && t3[k]->0.depth <= depth));
            }
        }
    }
}

/// The best move of the move loop is one of the moves, where the one it
/// starts from is.
pub proof fn lemma_ab_scan_move(
    v: StateView,
    depth: nat,
    ply: int,
    moves: Seq<Move>,
    i: nat,
    alpha: int,
    beta: int,
    best: int,
    best_move: Move,
    t: Seq<Option<TTEntry>>,
    mask: u64,
)
    requires
        moves.contains(best_move),
    ensures
        moves.contains(ab_scan(v, depth, ply, moves, i, alpha, beta, best, best_move, t, mask).1),
    decreases moves.len() - i,
{
    lemma_ab_scan_unfold(v, depth, ply, moves, i, alpha, beta, best, best_move, t, mask);
    if depth != 0 && i < moves.len() {
        let m = moves[i as int];
        assert(moves.contains(m));
        let child = ab(after_move(v, m), (depth - 1) as nat, ply + 1, -beta, -alpha, t, mask);
        let score = -child.0;
        let best2 = if score > best { score } else { best };
        let move2 = if score > best { m } else { best_move };
        let alpha2 = if score > alpha { score } else { alpha };
        if alpha2 < beta {
            lemma_ab_scan_move(v, depth, ply, moves, i + 1, alpha2, beta, best2, move2, child.1, mask);
        }
    }
}

/// After a search of depth at least one of a game in progress, on a table
/// with no entry for the position and none deeper than the search (a fresh
/// table, say), the table holds the position's entry: its key, the depth,
/// the score found, a legal best move, and the bound that score is against
/// the window: an upper bound when the search failed low (score at or below
/// `alpha`), a lower bound when it failed high (score at or above `beta`),
/// exact in between.
pub proof fn lemma_root_entry_stored(
    v: StateView,
    depth: nat,
    ply: int,
    alpha: int,
    beta: int,
    t: Seq<Option<TTEntry>>,
    mask: u64,
)
    requires
        1 <= depth <= 255,
        !terminal(v),
        !draw_by_plies(v),
        t.len() == mask + 1,
        lookup(t, mask, zobrist_of(v)) is None,
        forall|i: int| 0 <= i < t.len() && #[trigger] t[i] is Some ==> t[i]->0.depth <= depth,
    ensures
        exists|m: Move|
            legal_moves(v).contains(m) && lookup(ab(v, depth, ply, alpha, beta, t, mask).1, mask, zobrist_of(v))
                == Some(#[trigger] node_entry(zobrist_of(v), depth, ab(v, depth, ply, alpha, beta, t, mask).0, alpha, beta, m)),
        lookup(ab(v, depth, ply, alpha, beta, t, mask).1, mask, zobrist_of(v)) matches Some(e) && {
            let score = ab(v, depth, ply, alpha, beta, t, mask).0;
            &&& e.key == zobrist_of(v)
            &&& e.depth == depth
            &&& e.score == score as i32
            &&& e.best_move matches Some(m) && legal_moves(v).contains(m)
            &&& (e.bound == Bound::Upper <==> score <= alpha)
            &&& (e.bound == Bound::Lower <==> alpha < score && beta <= score)
            &&& (e.bound == Bound::Exact <==> alpha < score && score < beta)
        },
{
    lemma_ab_unfold(v, depth, ply, alpha, beta, t, mask);
    let key = zobrist_of(v);
    let moves = ordered(legal_moves(v), None);
    lemma_ordered_members(legal_moves(v), None);
    assert(moves.contains(moves[0]));
    let res = ab_scan(v, depth, ply, moves, 0, alpha, beta, -WIN_SCORE - 1, moves[0], t, mask);
    lemma_ab_scan_keeps(v, depth, ply, moves, 0, alpha, beta, -WIN_SCORE - 1, moves[0], t, mask);
    lemma_ab_scan_move(v, depth, ply, moves, 0, alpha, beta, -WIN_SCORE - 1, moves[0], t, mask);
    assert(key & mask <= mask) by (bit_vector);
    let idx = (key & mask) as int;
    assert(res.2[idx] == t[idx] || (res.2[idx] is Some && res.2[idx]->0.depth <= depth));
    let e = node_entry(key, depth, res.0, alpha, beta, res.1);
    assert(e.depth as nat == depth);
    assert(e.bound == Bound::Upper <==> res.0 <= alpha);
    assert(e.bound == Bound::Lower <==> alpha < res.0 && beta <= res.0);
    assert(e.bound == Bound::Exact <==> alpha < res.0 && res.0 < beta);
    assert(legal_moves(v).contains(res.1));
    assert(lookup(stored(res.2, mask, key, e), mask, key) == Some(e));
    assert(probe_window(lookup(t, mask, key), depth, alpha, beta) == (None::<int>, alpha, beta));
    assert(remembered(lookup(t, mask, key)) is None);
    assert(ab(v, depth, ply, alpha, beta, t, mask) == (res.0, stored(res.2, mask, key, e)));
    assert(legal_moves(v).contains(res.1) && lookup(ab(v, depth, ply, alpha, beta, t, mask).1, mask, key) == Some(
        node_entry(key, depth, ab(v, depth, ply, alpha, beta, t, mask).0, alpha, beta, res.1),
    ));
}

/// A score strictly between a loss and a win one ply from the root: what
/// every node below the root's children is worth.
pub open spec fn inner_score(x: int) -> bool {
    -(WIN_SCORE - 1) < x < WIN_SCORE - 1
}

/// A lower window bound as searches pass them down: the full window's or
/// an inner score.
pub open spec fn low_bound_ok(a: int) -> bool {
    a == -(WIN_SCORE + 1) || inner_score(a)
}

/// An upper window bound as searches pass them down.
pub open spec fn high_bound_ok(b: int) -> bool {
    b == WIN_SCORE + 1 || inner_score(b)
}

/// Every stored score is an inner score.
pub open spec fn table_inner(t: Seq<Option<TTEntry>>) -> bool {
    forall|i: int| 0 <= i < t.len() && #[trigger] t[i] is Some ==> inner_score(t[i]->0.score as int)
}

/// Below the root's children, quiescence never scores a win or loss one
/// ply from the root.
pub proof fn lemma_q_inner(v: StateView, ply: int, alpha: int, beta: int)
    requires
        1 <= ply,
        ply + material(v) <= 255,
        ply >= 2 || !terminal(v),
        low_bound_ok(alpha),
        high_bound_ok(beta),
    ensures
        inner_score(q_search(v, ply, alpha, beta)),
    decreases material(v), 1nat, 0nat,
{
    if !terminal_decidable(v) {
        reveal(q_search);
    } else {
        lemma_q_search_unfold(v, ply, alpha, beta);
        lemma_side_score_bounds(v, v.turn);
        lemma_side_score_bounds(v, crate::types::opponent_of(v.turn));
        if !terminal(v) && !draw_by_plies(v) && evaluation(v, v.turn) < beta {
            let sp = evaluation(v, v.turn);
            let a = if alpha > sp { alpha } else { sp };
            lemma_q_scan_inner(v, ply, beta, 0, a);
        }
    }
}

/// The capture scan keeps scores inner.
pub proof fn lemma_q_scan_inner(v: StateView, ply: int, beta: int, i: nat, a: int)
    requires
        1 <= ply,
        ply + material(v) <= 255,
        high_bound_ok(beta),
        inner_score(a),
    ensures
        inner_score(q_scan(v, ply, beta, i, a)),
    decreases material(v), 0nat, capture_moves(v).len() - i,
{
    if !terminal_decidable(v) {
        reveal(q_scan);
    } else {
        lemma_q_scan_unfold(v, ply, beta, i, a);
        if i < capture_moves(v).len() {
            let m = capture_moves(v)[i as int];
            lemma_capture_shrinks(v, i as int);
            let child = q_search(after_move(v, m), ply + 1, -beta, -a);
            lemma_q_inner(after_move(v, m), ply + 1, -beta, -a);
            let score = -child;
            if score < beta {
                lemma_q_scan_inner(v, ply, beta, i + 1, if a > score { a } else { score });
            }
        }
    }
}

/// Below the root's children, a search never scores a win or loss one ply
/// from the root, and stores only inner scores, when the table held only
/// inner scores and the window comes from a full-window search.
pub proof fn lemma_ab_inner(
    v: StateView,
    depth: nat,
    ply: int,
    alpha: int,
    beta: int,
    t: Seq<Option<TTEntry>>,
    mask: u64,
)
    requires
        terminal_decidable(v),
        1 <= ply,
        ply + depth + material(v) <= 255,
        ply >= 2 || !terminal(v),
        low_bound_ok(alpha),
        high_bound_ok(beta),
        table_inner(t),
        t.len() == mask + 1,
    ensures
        inner_score(ab(v, depth, ply, alpha, beta, t, mask).0),
        table_inner(ab(v, depth, ply, alpha, beta, t, mask).1),
        ab(v, depth, ply, alpha, beta, t, mask).1.len() == t.len(),
    decreases depth, 1nat, 0nat,
{
    lemma_ab_unfold(v, depth, ply, alpha, beta, t, mask);
    if terminal(v) || draw_by_plies(v) {
    } else if depth == 0 {
        lemma_q_inner(v, ply, alpha, beta);
    } else {
        let key = zobrist_of(v);
        let found = lookup(t, mask, key);
        assert(key & mask <= mask) by (bit_vector);
        let idx = (key & mask) as int;
        if found is Some {
            assert(t[idx] is Some);
        }
        let w = probe_window(found, depth, alpha, beta);
        if w.0 is None {
            let moves = ordered(legal_moves(v), remembered(found));
            lemma_ordered_members(legal_moves(v), remembered(found));
            lemma_legal_moves_playable(v);
            assert forall|k: int| 0 <= k < moves.len() implies playable(v, #[trigger] moves[k]) by {
                let j = choose|j: int| 0 <= j < legal_moves(v).len() && legal_moves(v)[j] == moves[k];
                assert(playable(v, legal_moves(v)[j]));
            }
            let res = ab_scan(v, depth, ply, moves, 0, w.1, w.2, -WIN_SCORE - 1, moves[0], t, mask);
            lemma_ab_scan_inner(v, depth, ply, moves, 0, w.1, w.2, -WIN_SCORE - 1, moves[0], t, mask);
            let e = node_entry(key, depth, res.0, alpha, w.2, res.1);
            assert(e.score as int == res.0);
            let t2 = stored(res.2, mask, key, e);
            assert forall|i: int| 0 <= i < t2.len() && #[trigger] t2[i] is Some implies inner_score(
                t2[i]->0.score as int,
            ) by {
                if i != idx {
                    assert(t2[i] == res.2[i]);
                }
            }
        }
    }
}

/// The move loop keeps scores inner: once a move has been searched the
/// best score is an inner score.
pub proof fn lemma_ab_scan_inner(
    v: StateView,
    depth: nat,
    ply: int,
    moves: Seq<Move>,
    i: nat,
    alpha: int,
    beta: int,
    best: int,
    best_move: Move,
    t: Seq<Option<TTEntry>>,
    mask: u64,
)
    requires
        v.wf(),
        depth >= 1,
        1 <= ply,
        ply + depth + material(v) <= 255,
        forall|k: int| 0 <= k < moves.len() ==> playable(v, #[trigger] moves[k]),
        low_bound_ok(alpha),
        high_bound_ok(beta),
        inner_score(best) || (best == -WIN_SCORE - 1 && i < moves.len()),
        table_inner(t),
        t.len() == mask + 1,
    ensures
        inner_score(ab_scan(v, depth, ply, moves, i, alpha, beta, best, best_move, t, mask).0),
        table_inner(ab_scan(v, depth, ply, moves, i, alpha, beta, best, best_move, t, mask).2),
        ab_scan(v, depth, ply, moves, i, alpha, beta, best, best_move, t, mask).2.len() == t.len(),
    decreases depth, 0nat, moves.len() - i,
{
    lemma_ab_scan_unfold(v, depth, ply, moves, i, alpha, beta, best, best_move, t, mask);
    if i < moves.len() {
        let m = moves[i as int];
        assert(playable(v, m));
        lemma_child_decidable(v, m);
        lemma_after_move(v, m);
        let child = ab(after_move(v, m), (depth - 1) as nat, ply + 1, -beta, -alpha, t, mask);
        lemma_ab_inner(after_move(v, m), (depth - 1) as nat, ply + 1, -beta, -alpha, t, mask);
        let score = -child.0;
        let best2 = if score > best { score } else { best };
        let move2 = if score > best { m } else { best_move };
        let alpha2 = if score > alpha { score } else { alpha };
        if alpha2 < beta {
            lemma_ab_scan_inner(v, depth, ply, moves, i + 1, alpha2, beta, best2, move2, child.1, mask);
        }
    }
}

/// The best of the first `n` moves' capture-only reply values, negated
/// (each move's value for the side playing it); `-(WIN_SCORE + 1)` for none.
pub open spec fn best_reply(v: StateView, ply: int, moves: Seq<Move>, n: nat) -> int
    decreases n,
{
    if n == 0 {
        -(WIN_SCORE + 1)
    } else {
        let prev = best_reply(v, ply, moves, (n - 1) as nat);
        let x = -q_value(after_move(v, moves[n - 1]), ply + 1);
        if x > prev {
            x
        } else {
            prev
        }
    }
}

proof fn lemma_best_reply(v: StateView, ply: int, moves: Seq<Move>, n: nat)
    requires
        n <= moves.len(),
    ensures
        forall|j: int| 0 <= j < n ==> -q_value(after_move(v, #[trigger] moves[j]), ply + 1) <= best_reply(v, ply, moves, n),
        n == 0 || best_reply(v, ply, moves, n) == -(WIN_SCORE + 1) || exists|j: int|
            0 <= j < n && best_reply(v, ply, moves, n) == -q_value(after_move(v, #[trigger] moves[j]), ply + 1),
    decreases n,
{
    if n > 0 {
        lemma_best_reply(v, ply, moves, (n - 1) as nat);
        let prev = best_reply(v, ply, moves, (n - 1) as nat);
        let x = -q_value(after_move(v, moves[n - 1]), ply + 1);
        if x > prev {
            assert(best_reply(v, ply, moves, n) == -q_value(after_move(v, moves[n - 1]), ply + 1));
        } else if n - 1 > 0 && prev != -(WIN_SCORE + 1) {
            let j = choose|j: int| 0 <= j < n - 1 && prev == -q_value(after_move(v, #[trigger] moves[j]), ply + 1);
            assert(best_reply(v, ply, moves, n) == -q_value(after_move(v, moves[j]), ply + 1));
        }
    }
}

/// The move loop of a depth-one search with the full window, entered
/// with the best reply so far as both the running bound and the best score.
proof fn lemma_depth_one_scan(
    v: StateView,
    ply: int,
    moves: Seq<Move>,
    i: nat,
    best_move: Move,
    t: Seq<Option<TTEntry>>,
    mask: u64,
)
    requires
        v.wf(),
        0 <= ply,
        ply + 1 + material(v) <= 255,
        i <= moves.len(),
        forall|k: int| 0 <= k < moves.len() ==> playable(v, #[trigger] moves[k]),
        -(WIN_SCORE + 1) <= best_reply(v, ply, moves, i) <= WIN_SCORE,
    ensures
        ab_scan(
            v,
            1,
            ply,
            moves,
            i,
            best_reply(v, ply, moves, i),
            WIN_SCORE + 1,
            best_reply(v, ply, moves, i),
            best_move,
            t,
            mask,
        ).0 == best_reply(v, ply, moves, moves.len()),
    decreases moves.len() - i,
{
    let b = best_reply(v, ply, moves, i);
    lemma_ab_scan_unfold(v, 1, ply, moves, i, b, WIN_SCORE + 1, b, best_move, t, mask);
    if i < moves.len() {
        let m = moves[i as int];
        assert(playable(v, m));
        lemma_child_decidable(v, m);
        lemma_after_move(v, m);
        let c = after_move(v, m);
        lemma_ab_unfold(c, 0, ply + 1, -(WIN_SCORE + 1), -b, t, mask);
        lemma_q_unfold(c, ply + 1);
        lemma_q_bounds(c, ply + 1);
        lemma_q_search_clamps(c, ply + 1, -(WIN_SCORE + 1), -b);
        let child = ab(c, 0, ply + 1, -(WIN_SCORE + 1), -b, t, mask);
        lemma_depth_one_scan(v, ply, moves, i + 1, if -child.0 > b { m } else { best_move }, child.1, mask);
    }
}

/// The value of playing `m` in `v` for the side playing it, when only
/// captures are searched after it.
pub open spec fn reply_value(v: StateView, ply: int, m: Move) -> int {
    -q_value(after_move(v, m), ply + 1)
}

/// The move loop of a depth-one search from the `i`-th move on, with
/// window lower end `a0` and running bound `alpha` the better of `a0` and
/// the best score `best` so far: it fails low below every move's value,
/// fails high at or below some move's value, and otherwise hits one.
proof fn lemma_depth_one_window_scan(
    v: StateView,
    ply: int,
    moves: Seq<Move>,
    i: nat,
    a0: int,
    alpha: int,
    beta: int,
    best: int,
    best_move: Move,
    t: Seq<Option<TTEntry>>,
    mask: u64,
)
    requires
        v.wf(),
        0 <= ply,
        ply + 1 + material(v) <= 255,
        i <= moves.len(),
        forall|k: int| 0 <= k < moves.len() ==> playable(v, #[trigger] moves[k]),
        alpha == (if a0 > best { a0 } else { best }),
        a0 < beta,
        best < beta,
        beta <= WIN_SCORE + 1,
        -(WIN_SCORE + 1) <= best,
        forall|j: int| 0 <= j < i ==> reply_value(v, ply, #[trigger] moves[j]) <= best,
        best > a0 ==> exists|j: int| 0 <= j < i && reply_value(v, ply, #[trigger] moves[j]) == best,
    ensures
        ({
            let r = ab_scan(v, 1, ply, moves, i, alpha, beta, best, best_move, t, mask).0;
            &&& r < beta ==> forall|j: int| 0 <= j < moves.len() ==> reply_value(v, ply, #[trigger] moves[j]) <= r
            &&& r >= beta ==> exists|j: int| 0 <= j < moves.len() && reply_value(v, ply, #[trigger] moves[j]) >= r
            &&& a0 < r < beta ==> exists|j: int| 0 <= j < moves.len() && reply_value(v, ply, #[trigger] moves[j]) == r
            &&& r >= best
            &&& -(WIN_SCORE + 1) <= r <= WIN_SCORE + 1
        }),
    decreases moves.len() - i,
{
    lemma_ab_scan_unfold(v, 1, ply, moves, i, alpha, beta, best, best_move, t, mask);
    if i < moves.len() {
        let m = moves[i as int];
        assert(playable(v, m));
        lemma_child_decidable(v, m);
        lemma_after_move(v, m);
        let c = after_move(v, m);
        lemma_ab_unfold(c, 0, ply + 1, -beta, -alpha, t, mask);
        lemma_q_unfold(c, ply + 1);
        lemma_q_bounds(c, ply + 1);
        lemma_q_search_clamps(c, ply + 1, -beta, -alpha);
        let child = ab(c, 0, ply + 1, -beta, -alpha, t, mask);
        let score = -child.0;
        let best2 = if score > best { score } else { best };
        let move2 = if score > best { m } else { best_move };
        let alpha2 = if score > alpha { score } else { alpha };
        assert(reply_value(v, ply, m) == -q_value(c, ply + 1));
        if alpha2 < beta {
            assert forall|j: int| 0 <= j < i + 1 implies reply_value(v, ply, #[trigger] moves[j]) <= best2 by {
                if j == i {
                    assert(moves[j] == m);
                }
            }
            if best2 > a0 {
                if score > best {
                    assert(reply_value(v, ply, moves[i as int]) == best2);
                } else {
                    let j = choose|j: int| 0 <= j < i && reply_value(v, ply, #[trigger] moves[j]) == best;
                    assert(reply_value(v, ply, moves[j]) == best2);
                }
            }
            lemma_depth_one_window_scan(v, ply, moves, i + 1, a0, alpha2, beta, best2, move2, child.1, mask);
        } else {
            assert(reply_value(v, ply, moves[i as int]) >= best2);
        }
    }
}

/// The depth-one move loop over the legal moves, in the order a remembered
/// move `tm` gives them, with window `alpha..beta`.
proof fn lemma_depth_one_loop(
    v: StateView,
    ply: int,
    tm: Option<Move>,
    alpha: int,
    beta: int,
    t: Seq<Option<TTEntry>>,
    mask: u64,
)
    requires
        terminal_decidable(v),
        0 <= ply,
        ply + 1 + material(v) <= 255,
        -(WIN_SCORE + 1) <= alpha < beta <= WIN_SCORE + 1,
    ensures
        ({
            let moves = ordered(legal_moves(v), tm);
            let r = ab_scan(v, 1, ply, moves, 0, alpha, beta, -WIN_SCORE - 1, moves[0], t, mask).0;
            &&& -(WIN_SCORE + 1) <= r <= WIN_SCORE + 1
            &&& r < beta ==> forall|m: Move| #[trigger] legal_moves(v).contains(m) ==> reply_value(v, ply, m) <= r
            &&& r >= beta ==> exists|m: Move| #[trigger] legal_moves(v).contains(m) && reply_value(v, ply, m) >= r
            &&& alpha < r < beta ==> exists|m: Move| #[trigger] legal_moves(v).contains(m) && reply_value(v, ply, m)
                == r
        }),
{
    broadcast use vstd::seq_lib::to_multiset_contains;

    let moves = ordered(legal_moves(v), tm);
    lemma_ordered_members(legal_moves(v), tm);
    lemma_ordered_permutation(legal_moves(v), tm);
    lemma_legal_moves_playable(v);
    assert forall|k: int| 0 <= k < moves.len() implies playable(v, #[trigger] moves[k]) by {
        let j = choose|j: int| 0 <= j < legal_moves(v).len() && legal_moves(v)[j] == moves[k];
        assert(playable(v, legal_moves(v)[j]));
    }
    lemma_depth_one_window_scan(v, ply, moves, 0, alpha, alpha, beta, -WIN_SCORE - 1, moves[0], t, mask);
    let r = ab_scan(v, 1, ply, moves, 0, alpha, beta, -WIN_SCORE - 1, moves[0], t, mask).0;
    if r < beta {
        assert forall|m: Move| #[trigger] legal_moves(v).contains(m) implies reply_value(v, ply, m) <= r by {
            assert(legal_moves(v).to_multiset().count(m) > 0);
            assert(moves.contains(m));
            let k = choose|k: int| 0 <= k < moves.len() && moves[k] == m;
            assert(reply_value(v, ply, moves[k]) <= r);
        }
    }
    if r >= beta {
        let j = choose|j: int| 0 <= j < moves.len() && reply_value(v, ply, #[trigger] moves[j]) >= r;
        assert(legal_moves(v).contains(moves[j]));
    }
    if alpha < r < beta {
        let j = choose|j: int| 0 <= j < moves.len() && reply_value(v, ply, #[trigger] moves[j]) == r;
        assert(legal_moves(v).contains(moves[j]));
    }
}

/// A depth-one search with any window `alpha..beta` (within the full
/// window), on a table with no entry for the position, gives a score that
/// is truthful about the position's depth-one value (the best move's
/// capture-only value): below `beta` it is at least that value; at or above
/// `beta` some move is worth at least it; strictly inside the window it is
/// that value.
pub proof fn lemma_depth_one_window(v: StateView, ply: int, alpha: int, beta: int, t: Seq<Option<TTEntry>>, mask: u64)
    requires
        terminal_decidable(v),
        !terminal(v),
        !draw_by_plies(v),
        0 <= ply,
        ply + 1 + material(v) <= 255,
        -(WIN_SCORE + 1) <= alpha < beta <= WIN_SCORE + 1,
        lookup(t, mask, zobrist_of(v)) is None,
    ensures
        -(WIN_SCORE + 1) <= ab(v, 1, ply, alpha, beta, t, mask).0 <= WIN_SCORE + 1,
        ({
            let r = ab(v, 1, ply, alpha, beta, t, mask).0;
            &&& r < beta ==> forall|m: Move| #[trigger] legal_moves(v).contains(m) ==> reply_value(v, ply, m) <= r
            &&& r >= beta ==> exists|m: Move| #[trigger] legal_moves(v).contains(m) && reply_value(v, ply, m) >= r
            &&& alpha < r < beta ==> exists|m: Move| #[trigger] legal_moves(v).contains(m) && reply_value(v, ply, m)
                == r
        }),
{
    lemma_ab_unfold(v, 1, ply, alpha, beta, t, mask);
    lemma_depth_one_loop(v, ply, None, alpha, beta, t, mask);
}

/// Every move's capture-only value is a real score.
proof fn lemma_reply_bounds(v: StateView, ply: int)
    requires
        terminal_decidable(v),
        0 <= ply,
        ply + 1 + material(v) <= 255,
    ensures
        forall|m: Move| #[trigger] legal_moves(v).contains(m) ==> -WIN_SCORE <= reply_value(v, ply, m) <= WIN_SCORE,
{
    lemma_legal_moves_playable(v);
    assert forall|m: Move| #[trigger] legal_moves(v).contains(m) implies -WIN_SCORE <= reply_value(v, ply, m)
        <= WIN_SCORE by {
        let j = choose|j: int| 0 <= j < legal_moves(v).len() && legal_moves(v)[j] == m;
        assert(playable(v, legal_moves(v)[j]));
        lemma_after_move(v, m);
        lemma_q_bounds(after_move(v, m), ply + 1);
    }
}

/// What a table remembers from an earlier depth-one search of a position
/// does not change the answer of a full-window depth-one search of it: it
/// gives the same score as on a table without that entry.
pub proof fn lemma_depth_one_repeat(
    v: StateView,
    ply: int,
    alpha: int,
    beta: int,
    t: Seq<Option<TTEntry>>,
    mask: u64,
)
    requires
        terminal_decidable(v),
        !terminal(v),
        !draw_by_plies(v),
        0 <= ply,
        ply + 1 + material(v) <= 255,
        -(WIN_SCORE + 1) <= alpha < beta <= WIN_SCORE + 1,
        t.len() == mask + 1,
        lookup(t, mask, zobrist_of(v)) is None,
        forall|i: int| 0 <= i < t.len() && #[trigger] t[i] is Some ==> t[i]->0.depth <= 1,
    ensures
        ab(v, 1, ply, -(WIN_SCORE + 1), WIN_SCORE + 1, ab(v, 1, ply, alpha, beta, t, mask).1, mask).0 == ab(
            v,
            1,
            ply,
            -(WIN_SCORE + 1),
            WIN_SCORE + 1,
            t,
            mask,
        ).0,
{
    let t1 = ab(v, 1, ply, alpha, beta, t, mask).1;
    let fresh = ab(v, 1, ply, -(WIN_SCORE + 1), WIN_SCORE + 1, t, mask).0;
    lemma_depth_one_entry_truthful(v, ply, alpha, beta, t, mask);
    lemma_depth_one_window(v, ply, -(WIN_SCORE + 1), WIN_SCORE + 1, t, mask);
    lemma_reply_bounds(v, ply);
    lemma_root_entry_stored(v, 1, ply, alpha, beta, t, mask);
    let e = lookup(t1, mask, zobrist_of(v))->0;
    let mf = choose|m: Move| #[trigger] legal_moves(v).contains(m) && reply_value(v, ply, m) == fresh;
    lemma_ab_unfold(v, 1, ply, -(WIN_SCORE + 1), WIN_SCORE + 1, t1, mask);
    let w = probe_window(Some(e), 1, -(WIN_SCORE + 1), WIN_SCORE + 1);
    if w.0 is None {
        lemma_depth_one_loop(v, ply, e.best_move, w.1, w.2, t1, mask);
        let moves = ordered(legal_moves(v), e.best_move);
        let r = ab_scan(v, 1, ply, moves, 0, w.1, w.2, -WIN_SCORE - 1, moves[0], t1, mask).0;
        if r < w.2 {
            assert(reply_value(v, ply, mf) <= r);
        }
        if r >= w.2 {
            let m = choose|m: Move| #[trigger] legal_moves(v).contains(m) && reply_value(v, ply, m) >= r;
            assert(reply_value(v, ply, m) <= fresh);
        }
        if w.1 < r < w.2 {
            let m = choose|m: Move| #[trigger] legal_moves(v).contains(m) && reply_value(v, ply, m) == r;
            assert(reply_value(v, ply, m) <= fresh);
        }
        if e.bound == Bound::Lower {
            let m = choose|m: Move| #[trigger] legal_moves(v).contains(m) && reply_value(v, ply, m) >= e.score;
            assert(reply_value(v, ply, m) <= fresh);
        }
    } else {
        if e.bound == Bound::Exact {
            let m = choose|m: Move| #[trigger] legal_moves(v).contains(m) && reply_value(v, ply, m) == e.score;
            assert(reply_value(v, ply, m) <= fresh);
            assert(reply_value(v, ply, mf) <= e.score);
        } else if e.bound == Bound::Upper {
            assert(reply_value(v, ply, mf) <= e.score);
        } else {
            let m = choose|m: Move| #[trigger] legal_moves(v).contains(m) && reply_value(v, ply, m) >= e.score;
            assert(reply_value(v, ply, m) <= fresh);
        }
    }
}

/// The entry a depth-one search stores for its position tells the truth
/// about the position's depth-one value: an upper bound (the search failed
/// low) is at least every move's value, a lower bound (it failed high) is
/// at most some move's value, and an exact score is the best move's value.
pub proof fn lemma_depth_one_entry_truthful(
    v: StateView,
    ply: int,
    alpha: int,
    beta: int,
    t: Seq<Option<TTEntry>>,
    mask: u64,
)
    requires
        terminal_decidable(v),
        !terminal(v),
        !draw_by_plies(v),
        0 <= ply,
        ply + 1 + material(v) <= 255,
        -(WIN_SCORE + 1) <= alpha < beta <= WIN_SCORE + 1,
        t.len() == mask + 1,
        lookup(t, mask, zobrist_of(v)) is None,
        forall|i: int| 0 <= i < t.len() && #[trigger] t[i] is Some ==> t[i]->0.depth <= 1,
    ensures
        lookup(ab(v, 1, ply, alpha, beta, t, mask).1, mask, zobrist_of(v)) matches Some(e) && {
            &&& e.bound == Bound::Upper ==> forall|m: Move| #[trigger] legal_moves(v).contains(m) ==> reply_value(v, ply, m)
                <= e.score
            &&& e.bound == Bound::Lower ==> exists|m: Move| #[trigger] legal_moves(v).contains(m) && reply_value(v, ply, m)
                >= e.score
            &&& e.bound == Bound::Exact ==> (forall|m: Move| #[trigger] legal_moves(v).contains(m) ==> reply_value(
                v,
                ply,
                m,
            ) <= e.score) && exists|m: Move| #[trigger] legal_moves(v).contains(m) && reply_value(v, ply, m) == e.score
        },
{
    lemma_root_entry_stored(v, 1, ply, alpha, beta, t, mask);
    lemma_depth_one_window(v, ply, alpha, beta, t, mask);
}

/// A depth-one search with the full window, on a table with no entry for
/// the position, is worth exactly the best move's capture-only value: at
/// least every legal move's, and equal to some legal move's.
pub proof fn lemma_depth_one_value(v: StateView, ply: int, t: Seq<Option<TTEntry>>, mask: u64)
    requires
        terminal_decidable(v),
        !terminal(v),
        !draw_by_plies(v),
        0 <= ply,
        ply + 1 + material(v) <= 255,
        lookup(t, mask, zobrist_of(v)) is None,
    ensures
        forall|m: Move| #[trigger] legal_moves(v).contains(m) ==> -q_value(after_move(v, m), ply + 1) <= ab(
            v,
            1,
            ply,
            -(WIN_SCORE + 1),
            WIN_SCORE + 1,
            t,
            mask,
        ).0,
        exists|m: Move| #[trigger] legal_moves(v).contains(m) && ab(v, 1, ply, -(WIN_SCORE + 1), WIN_SCORE + 1, t, mask).0
            == -q_value(after_move(v, m), ply + 1),
{
    broadcast use vstd::seq_lib::to_multiset_contains;

    lemma_ab_unfold(v, 1, ply, -(WIN_SCORE + 1), WIN_SCORE + 1, t, mask);
    let moves = ordered(legal_moves(v), None);
    lemma_ordered_members(legal_moves(v), None);
    lemma_ordered_permutation(legal_moves(v), None);
    lemma_legal_moves_playable(v);
    assert forall|k: int| 0 <= k < moves.len() implies playable(v, #[trigger] moves[k]) by {
        let j = choose|j: int| 0 <= j < legal_moves(v).len() && legal_moves(v)[j] == moves[k];
        assert(playable(v, legal_moves(v)[j]));
    }
    lemma_depth_one_scan(v, ply, moves, 0, moves[0], t, mask);
    let r = best_reply(v, ply, moves, moves.len());
    assert(ab(v, 1, ply, -(WIN_SCORE + 1), WIN_SCORE + 1, t, mask).0 == r);
    lemma_best_reply(v, ply, moves, moves.len());
    assert forall|m: Move| #[trigger] legal_moves(v).contains(m) implies -q_value(after_move(v, m), ply + 1) <= r by {
        assert(legal_moves(v).to_multiset().count(m) > 0);
        assert(moves.contains(m));
        let k = choose|k: int| 0 <= k < moves.len() && moves[k] == m;
        assert(-q_value(after_move(v, moves[k]), ply + 1) <= r);
    }
    let m0 = moves[0];
    assert(legal_moves(v).contains(m0));
    assert(playable(v, m0));
    lemma_after_move(v, m0);
    lemma_q_bounds(after_move(v, m0), ply + 1);
    assert(-q_value(after_move(v, moves[0]), ply + 1) <= r);
    let j = choose|j: int| 0 <= j < moves.len() && r == -q_value(after_move(v, #[trigger] moves[j]), ply + 1);
    assert(legal_moves(v).contains(moves[j]));
}

/// Reads the table entry for `key`: the score it answers outright, if
/// any, the window it leaves, and the move it remembers.
fn probe_entry(tt: &TranspositionTable, key: u64, depth: u8, alpha: i32, beta: i32) -> (r: (
    Option<i32>,
    i32,
    i32,
    Option<Move>,
))
    requires
        tt.wf(),
        tt.scores_within(i32::MAX as int),
        i32::MIN < alpha,
        i32::MIN < beta,
    ensures
        (match r.0 {
            Some(x) => Some(x as int),
            None => None,
        }) == probe_window(lookup(tt.entries(), tt.index_mask(), key), depth as nat, alpha as int, beta as int).0,
        r.1 == probe_window(lookup(tt.entries(), tt.index_mask(), key), depth as nat, alpha as int, beta as int).1,
        r.2 == probe_window(lookup(tt.entries(), tt.index_mask(), key), depth as nat, alpha as int, beta as int).2,
        r.3 == remembered(lookup(tt.entries(), tt.index_mask(), key)),
        i32::MIN < r.1,
        i32::MIN < r.2,
        r.0 matches Some(x) ==> i32::MIN < x,
        bounded_score(alpha) && bounded_score(beta) && tt.scores_within(WIN_SCORE + 1) ==> bounded_score(r.1)
            && bounded_score(r.2) && (r.0 matches Some(x) ==> bounded_score(x)),
{
    let mut alpha = alpha;
    let mut beta = beta;
    proof {
        tt.lemma_slot_in_range(key);
    }
    match tt.probe(key) {
        Some(entry) => {
            proof {
                let i = tt.slot_of(key);
                assert(tt.entries()[i] is Some);
            }
            if entry.depth >= depth {
                match entry.bound {
                    Bound::Exact => {
                        return (Some(entry.score), alpha, beta, entry.best_move);
                    },
                    Bound::Lower => {
                        if entry.score > alpha {
                            alpha = entry.score;
                        }
                    },
                    Bound::Upper => {
                        if entry.score < beta {
                            beta = entry.score;
                        }
                    },
                }
                if alpha >= beta {
                    return (Some(entry.score), alpha, beta, entry.best_move);
                }
            }
            (None, alpha, beta, entry.best_move)
        },
        None => (None, alpha, beta, None),
    }
}

/// The move loop of `negamax`: searches `moves` in turn with the window
/// `alpha..beta`, exactly as `ab_scan` from the first move on, and gives
/// the best score and move.
#[verifier::rlimit(30)]
fn scan_moves(
    state: &CurrentGameState,
    keys: &ZobristTables,
    depth: u8,
    ply: u8,
    moves: &Vec<Move>,
    alpha: i32,
    beta: i32,
    tt: &mut TranspositionTable,
) -> (r: (i32, Move))
    requires
        state@.wf(),
        keys.filled(),
        depth >= 1,
        moves@.len() > 0,
        forall|k: int| 0 <= k < moves@.len() ==> playable(state@, #[trigger] moves@[k]),
        i32::MIN < alpha,
        i32::MIN < beta,
        ply + depth + material(state@) <= 255,
        old(tt).wf(),
        old(tt).scores_within(i32::MAX as int),
    ensures
        (r.0 as int, r.1, final(tt).entries()) == ab_scan(
            state@,
            depth as nat,
            ply as int,
            moves@,
            0,
            alpha as int,
            beta as int,
            -WIN_SCORE - 1,
            moves@[0],
            old(tt).entries(),
            old(tt).index_mask(),
        ),
        final(tt).wf(),
        final(tt).scores_within(i32::MAX as int),
        final(tt).index_mask() == old(tt).index_mask(),
        final(tt).entries().len() == old(tt).entries().len(),
        i32::MIN < r.0,
        bounded_score(alpha) && bounded_score(beta) && old(tt).scores_within(WIN_SCORE + 1) ==> bounded_score(r.0)
            && final(tt).scores_within(WIN_SCORE + 1),
    decreases depth, 0nat,
{
    let ghost v = state@;
    let ghost mask = tt.index_mask();
    let ghost bounded = bounded_score(alpha) && bounded_score(beta) && tt.scores_within(WIN_SCORE + 1);
    let mut alpha = alpha;
    let mut best_score: i32 = -WIN_SCORE - 1;
    let mut best_move = moves[0];
    let ghost scan0 = ab_scan(v, depth as nat, ply as int, moves@, 0, alpha as int, beta as int, best_score as int, best_move, tt.entries(), mask);
    let ghost mut stopped = false;

    let mut i: usize = 0;
    while i < moves.len()
        invariant_except_break
            !stopped,
        invariant
            v == state@,
            v.wf(),
            keys.filled(),
            i <= moves@.len(),
            forall|k: int| 0 <= k < moves@.len() ==> playable(v, #[trigger] moves@[k]),
            i32::MIN < alpha,
            i32::MIN < beta,
            i32::MIN < best_score,
            bounded ==> bounded_score(alpha) && bounded_score(beta) && bounded_score(best_score) && tt.scores_within(
                WIN_SCORE + 1,
            ),
            ply + depth + material(v) <= 255,
            depth >= 1,
            tt.wf(),
            tt.scores_within(i32::MAX as int),
            tt.index_mask() == mask,
            tt.entries().len() == old(tt).entries().len(),
            stopped ==> scan0 == (best_score as int, best_move, tt.entries()),
            !stopped ==> scan0 == ab_scan(
                v,
                depth as nat,
                ply as int,
                moves@,
                i as nat,
                alpha as int,
                beta as int,
                best_score as int,
                best_move,
                tt.entries(),
                mask,
            ),
        ensures
            stopped || i >= moves@.len(),
        decreases moves@.len() - i,
    {
        let mv = moves[i];
        proof {
            assert(playable(v, moves@[i as int]));
            lemma_child_decidable(v, mv);
            lemma_after_move(v, mv);
            lemma_ab_scan_unfold(
                v,
                depth as nat,
                ply as int,
                moves@,
                i as nat,
                alpha as int,
                beta as int,
                best_score as int,
                best_move,
                tt.entries(),
                mask,
            );
        }
        let next = state.make_move(mv);
        let score = -negamax_keyed(&next, keys, depth - 1, ply + 1, -beta, -alpha, tt);
        if score > best_score {
            best_score = score;
            best_move = mv;
        }
        if score > alpha {
            alpha = score;
        }
        if alpha >= beta {
            proof {
                stopped = true;
            }
            break;
        }
        i = i + 1;
    }
    proof {
        if !stopped {
            lemma_ab_scan_unfold(
                v,
                depth as nat,
                ply as int,
                moves@,
                i as nat,
                alpha as int,
                beta as int,
                best_score as int,
                best_move,
                tt.entries(),
                mask,
            );
        }
    }
    (best_score, best_move)
}

/// Negamax search with alpha-beta pruning and a transposition table.
/// Returns a score from the perspective of the side to move: exactly `ab`
/// of the position and the table's slots, which also gives the slots
/// afterwards. A terminal position is scored as a loss for the side to
/// move, offset by `ply`, and a draw by the ply clock as 0, with the table
/// untouched; at depth 0 the table is untouched too and the answer is the
/// capture-only value clamped to the window (see `quiescence`).
pub fn negamax(
    state: &CurrentGameState,
    depth: u8,
    ply: u8,
    alpha: i32,
    beta: i32,
    tt: &mut TranspositionTable,
) -> (r: i32)
    requires
        terminal_decidable(state@),
        i32::MIN < alpha,
        i32::MIN < beta,
        terminal(state@) || draw_by_plies(state@) || ply + depth + material(state@) <= 255,
        old(tt).wf(),
        old(tt).scores_within(i32::MAX as int),
    ensures
        r == ab(state@, depth as nat, ply as int, alpha as int, beta as int, old(tt).entries(), old(tt).index_mask()).0,
        final(tt).entries() == ab(
            state@,
            depth as nat,
            ply as int,
            alpha as int,
            beta as int,
            old(tt).entries(),
            old(tt).index_mask(),
        ).1,
        final(tt).wf(),
        final(tt).scores_within(i32::MAX as int),
        final(tt).index_mask() == old(tt).index_mask(),
        final(tt).entries().len() == old(tt).entries().len(),
        i32::MIN < r,
        bounded_score(alpha) && bounded_score(beta) && old(tt).scores_within(WIN_SCORE + 1) ==> bounded_score(r)
            && final(tt).scores_within(WIN_SCORE + 1),
        terminal(state@) || draw_by_plies(state@) || depth == 0 ==> *final(tt) == *old(tt),
        terminal(state@) ==> r == -(WIN_SCORE - ply),
        !terminal(state@) && draw_by_plies(state@) ==> r == 0,
        !terminal(state@) && !draw_by_plies(state@) && depth == 0 && alpha < beta ==> r == clamp(
            q_value(state@, ply as int),
            alpha as int,
            beta as int,
        ),
{
    let keys = build_tables();
    negamax_keyed(state, &keys, depth, ply, alpha, beta, tt)
}

/// `negamax` with the key tables built once by the caller.
pub fn negamax_keyed(
    state: &CurrentGameState,
    keys: &ZobristTables,
    depth: u8,
    ply: u8,
    alpha: i32,
    beta: i32,
    tt: &mut TranspositionTable,
) -> (r: i32)
    requires
        terminal_decidable(state@),
        keys.filled(),
        i32::MIN < alpha,
        i32::MIN < beta,
        terminal(state@) || draw_by_plies(state@) || ply + depth + material(state@) <= 255,
        old(tt).wf(),
        old(tt).scores_within(i32::MAX as int),
    ensures
        r == ab(state@, depth as nat, ply as int, alpha as int, beta as int, old(tt).entries(), old(tt).index_mask()).0,
        final(tt).entries() == ab(
            state@,
            depth as nat,
            ply as int,
            alpha as int,
            beta as int,
            old(tt).entries(),
            old(tt).index_mask(),
        ).1,
        final(tt).wf(),
        final(tt).scores_within(i32::MAX as int),
        final(tt).index_mask() == old(tt).index_mask(),
        final(tt).entries().len() == old(tt).entries().len(),
        i32::MIN < r,
        bounded_score(alpha) && bounded_score(beta) && old(tt).scores_within(WIN_SCORE + 1) ==> bounded_score(r)
            && final(tt).scores_within(WIN_SCORE + 1),
        terminal(state@) || draw_by_plies(state@) || depth == 0 ==> *final(tt) == *old(tt),
        terminal(state@) ==> r == -(WIN_SCORE - ply),
        !terminal(state@) && draw_by_plies(state@) ==> r == 0,
        !terminal(state@) && !draw_by_plies(state@) && depth == 0 && alpha < beta ==> r == clamp(
            q_value(state@, ply as int),
            alpha as int,
            beta as int,
        ),
    decreases depth, 1nat,
{
    let ghost v = state@;
    let ghost t0 = tt.entries();
    let ghost mask = tt.index_mask();
    let ghost bounded = bounded_score(alpha) && bounded_score(beta) && tt.scores_within(WIN_SCORE + 1);
    proof {
        lemma_ab_unfold(v, depth as nat, ply as int, alpha as int, beta as int, t0, mask);
    }
    if state.is_terminal() {
        return -(WIN_SCORE - ply as i32);
    }
    if state.is_draw_by_plies() {
        return 0;
    }
    if depth == 0 {
        return quiescence(state, ply, alpha, beta);
    }

    let key = state.zobrist_with(keys);
    let (answer, window_alpha, window_beta, tt_move) = probe_entry(tt, key, depth, alpha, beta);
    if let Some(score) = answer {
        return score;
    }

    let mut moves = state.generate_moves();
    proof {
        lemma_ordered_members(moves@, tt_move);
        lemma_legal_moves_playable(v);
    }
    order_moves(&mut moves, tt_move);
    let (best_score, best_move) = scan_moves(state, keys, depth, ply, &moves, window_alpha, window_beta, tt);

    let bound = if best_score <= alpha {
        Bound::Upper
    } else if best_score >= window_beta {
        Bound::Lower
    } else {
        Bound::Exact
    };
    let entry = TTEntry { key, depth, score: best_score, bound, best_move: Some(best_move) };
    proof {
        tt.lemma_slot_in_range(key);
        lemma_store_keeps_scores(tt.entries(), tt.index_mask(), key, entry, i32::MAX as int);
        if bounded {
            lemma_store_keeps_scores(tt.entries(), tt.index_mask(), key, entry, WIN_SCORE + 1);
        }
    }
    tt.store(key, entry);
    best_score
}

} // verus!
