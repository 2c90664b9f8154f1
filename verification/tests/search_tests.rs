use ninemensmorris::position::CurrentGameState;
use ninemensmorris::search::eval::{evaluate, MILL_THREAT_VALUE, PIECE_VALUE};
use ninemensmorris::search::negamax::{negamax, quiescence, WIN_SCORE};
use ninemensmorris::search::ordering::{is_capture, order_moves};
use ninemensmorris::search::tt::{Bound, TTEntry, TranspositionTable};
use ninemensmorris::search::{search, search_with_randomization, SearchResult};
use ninemensmorris::types::{Captures, Color, Move, Square};

fn bits(squares: &[u8]) -> u32 {
    let mut bb = 0u32;
    for &sq in squares {
        bb = ninemensmorris::board::set(bb, Square(sq));
    }
    bb
}

fn entry(key: u64, depth: u8, score: i32) -> TTEntry {
    TTEntry { key, depth, score, bound: Bound::Exact, best_move: None }
}

// ---- eval ----

#[test]
fn empty_board_is_symmetric() {
    let state = CurrentGameState::new();
    assert_eq!(evaluate(&state, Color::White), 0);
    assert_eq!(evaluate(&state, Color::Black), 0);
}

#[test]
fn material_edge_is_scored_for_the_side_ahead() {
    // White: 0 on board + 9 in hand = 9 total.
    // Black: 0 on board + 8 in hand = 8 total (down one piece).
    let state = CurrentGameState::from_bitboards(0, 0, 9, 8, Color::White, 0, 100).unwrap();
    assert_eq!(evaluate(&state, Color::White), PIECE_VALUE);
    assert_eq!(evaluate(&state, Color::Black), -PIECE_VALUE);
}

#[test]
fn open_mill_threat_is_scored_for_the_threatening_side() {
    // White owns two of mill (0, 1, 2); square 2 is empty.
    let white = ninemensmorris::board::set(ninemensmorris::board::set(0, Square(0)), Square(1));
    let state = CurrentGameState::from_bitboards(white, 0, 7, 9, Color::White, 0, 100).unwrap();
    assert_eq!(evaluate(&state, Color::White), MILL_THREAT_VALUE);
    assert_eq!(evaluate(&state, Color::Black), -MILL_THREAT_VALUE);
}

#[test]
fn evaluation_is_zero_sum_on_an_uneven_position() {
    let state = CurrentGameState::from_bitboards(bits(&[0, 1, 9]), bits(&[5, 13]), 4, 6, Color::Black, 0, 100).unwrap();
    assert_eq!(evaluate(&state, Color::White), -evaluate(&state, Color::Black));
    // White: 7 pieces and the open mills (0,1,2) and (0,9,21); Black: 8 pieces,
    // and (5,13,20) is open for Black.
    assert_eq!(evaluate(&state, Color::White), 7 * PIECE_VALUE + 2 * MILL_THREAT_VALUE - (8 * PIECE_VALUE + MILL_THREAT_VALUE));
}

// ---- ordering ----

#[test]
fn tt_move_sorts_first() {
    let a = Move::Place { to: Square(0), captures: Captures::none() };
    let b = Move::Place { to: Square(1), captures: Captures::none() };
    let c = Move::Place { to: Square(2), captures: Captures::one(Square(5)) };
    let mut moves = vec![a, b, c];
    order_moves(&mut moves, Some(b));
    assert_eq!(moves[0], b);
}

#[test]
fn captures_sort_before_quiet_moves_when_no_tt_move() {
    let quiet = Move::Place { to: Square(0), captures: Captures::none() };
    let capture = Move::Place { to: Square(1), captures: Captures::one(Square(5)) };
    let mut moves = vec![quiet, capture];
    order_moves(&mut moves, None);
    assert_eq!(moves[0], capture);
}

#[test]
fn ordering_is_stable_within_a_priority() {
    let q1 = Move::Place { to: Square(0), captures: Captures::none() };
    let c1 = Move::Place { to: Square(1), captures: Captures::one(Square(5)) };
    let q2 = Move::Place { to: Square(2), captures: Captures::none() };
    let c2 = Move::Place { to: Square(3), captures: Captures::two(Square(5), Square(6)) };
    let mut moves = vec![q1, c1, q2, c2];
    order_moves(&mut moves, Some(q2));
    assert_eq!(moves, vec![q2, c1, c2, q1]);
    assert!(is_capture(c2));
    assert!(!is_capture(q1));
}

// ---- transposition table ----

#[test]
fn store_then_probe_round_trips() {
    let mut tt = TranspositionTable::new(16);
    tt.store(5, entry(5, 3, 42));
    assert_eq!(tt.probe(5).unwrap().score, 42);
}

#[test]
fn probing_an_absent_key_misses() {
    let tt = TranspositionTable::new(16);
    assert!(tt.probe(5).is_none());
}

#[test]
fn a_different_key_at_the_same_slot_is_a_miss_not_a_stale_hit() {
    let mut tt = TranspositionTable::new(16); // mask = 15
    tt.store(5, entry(5, 3, 42));
    // 5 and 21 both map to slot 5 (5 & 15 == 21 & 15) but differ as keys.
    assert!(tt.probe(21).is_none());
}

#[test]
fn shallower_search_does_not_evict_a_deeper_entry() {
    let mut tt = TranspositionTable::new(16);
    tt.store(5, entry(5, 5, 100));
    tt.store(5, entry(5, 2, 1));
    assert_eq!(tt.probe(5).unwrap().score, 100);
}

#[test]
fn equal_or_deeper_search_does_replace() {
    let mut tt = TranspositionTable::new(16);
    tt.store(5, entry(5, 2, 1));
    tt.store(5, entry(5, 5, 100));
    assert_eq!(tt.probe(5).unwrap().score, 100);
}

#[test]
fn capacity_rounds_up_to_a_power_of_two() {
    // 10 slots round up to 16: keys 3 and 19 share a slot, 3 and 13 do not.
    let mut tt = TranspositionTable::new(10);
    tt.store(3, entry(3, 1, 7));
    tt.store(13, entry(13, 1, 8));
    assert_eq!(tt.probe(3).unwrap().score, 7);
    assert_eq!(tt.probe(13).unwrap().score, 8);
    tt.store(19, entry(19, 1, 9));
    assert!(tt.probe(3).is_none());
    assert_eq!(tt.probe(19).unwrap().score, 9);
    // A zero capacity still gives one slot.
    let mut one = TranspositionTable::new(0);
    one.store(8, entry(8, 1, 2));
    assert_eq!(one.probe(8).unwrap().score, 2);
}

// ---- negamax / quiescence ----

#[test]
fn terminal_loss_is_scored_relative_to_ply() {
    // White to move has no legal moves (each of its 4 pieces is boxed in).
    let white = bits(&[0, 2, 21, 23]);
    let black = bits(&[1, 9, 14, 22]);
    let state = CurrentGameState::from_bitboards(white, black, 0, 0, Color::White, 0, 100).unwrap();

    let mut tt = TranspositionTable::new(16);
    let score = negamax(&state, 3, 0, -WIN_SCORE - 1, WIN_SCORE + 1, &mut tt);
    assert_eq!(score, -WIN_SCORE);
}

#[test]
fn quiescence_search_looks_through_a_hanging_capture() {
    // White can slide 14 -> 2, completing mill (0, 1, 2) and capturing one
    // of Black's 4 pieces (none in a mill).
    let white = ninemensmorris::board::set(bits(&[0, 1, 14]), Square(9));
    let black = ninemensmorris::board::set(bits(&[5, 6, 18]), Square(20));
    let state = CurrentGameState::from_bitboards(white, black, 0, 0, Color::White, 0, 100).unwrap();

    let mut tt = TranspositionTable::new(16);
    let stand_pat = evaluate(&state, Color::White);
    let quiescent_score = negamax(&state, 0, 0, -WIN_SCORE - 1, WIN_SCORE + 1, &mut tt);

    assert!(
        quiescent_score > stand_pat,
        "quiescence should find White's capture and score above the static eval \
         (stand_pat={stand_pat}, quiescent_score={quiescent_score})"
    );
}

#[test]
fn quiescence_clamps_to_the_window() {
    let white = ninemensmorris::board::set(bits(&[0, 1, 14]), Square(9));
    let black = ninemensmorris::board::set(bits(&[5, 6, 18]), Square(20));
    let state = CurrentGameState::from_bitboards(white, black, 0, 0, Color::White, 0, 100).unwrap();
    let full = quiescence(&state, 0, -WIN_SCORE - 1, WIN_SCORE + 1);
    assert_eq!(quiescence(&state, 0, full + 1, full + 10), full + 1);
    assert_eq!(quiescence(&state, 0, full - 10, full - 1), full - 1);
    assert_eq!(quiescence(&state, 0, full - 10, full + 10), full);
}

#[test]
fn draw_by_ply_clock_scores_zero() {
    let state = CurrentGameState::from_bitboards(bits(&[0, 5, 20, 23]), bits(&[1, 8, 11, 17]), 0, 0, Color::White, 100, 100)
        .unwrap();
    let mut tt = TranspositionTable::new(16);
    assert_eq!(negamax(&state, 2, 0, -WIN_SCORE - 1, WIN_SCORE + 1, &mut tt), 0);
}

// ---- search ----

#[test]
fn finds_an_immediate_winning_capture() {
    // White slides 14 -> 2, completing mill (0, 1, 2) and capturing one of
    // Black's 3 pieces, dropping Black to 2 on board: an immediate loss.
    let white = bits(&[0, 1, 14]);
    let white = ninemensmorris::board::set(white, Square(22)); // 4th piece keeps White sliding
    let black = bits(&[6, 12, 18]);
    let state = CurrentGameState::from_bitboards(white, black, 0, 0, Color::White, 0, 100).unwrap();

    let result = search(&state, 1);
    assert_eq!(result.score, WIN_SCORE - 1);
    match result.best_move {
        Move::Slide { from: Square(14), to: Square(2), captures } if !captures.is_empty() => {}
        other => panic!("expected a winning slide from 14 to 2, got {other:?}"),
    }
}

#[test]
fn self_play_runs_without_panicking() {
    let mut state = CurrentGameState::new();
    for _ in 0..12 {
        if state.is_game_over() {
            break;
        }
        let result = search(&state, 2);
        state = state.make_move(result.best_move);
        assert!(state.invariants_hold());
    }
}

#[test]
fn search_with_randomization_is_deterministic_for_a_given_seed() {
    let state = CurrentGameState::new();
    let a = search_with_randomization(&state, 1, 0, 42);
    let b = search_with_randomization(&state, 1, 0, 42);
    assert_eq!(a, b);
}

#[test]
fn search_with_randomization_stays_within_margin_of_best() {
    let state = CurrentGameState::new();
    let best = search(&state, 1);
    let picked = search_with_randomization(&state, 1, 10, 7);
    assert!(best.score - picked.score <= 10);
}

#[test]
fn search_result_is_a_legal_move() {
    let state = CurrentGameState::new();
    let result: SearchResult = search(&state, 2);
    assert!(state.generate_moves().contains(&result.best_move));
}

#[test]
fn deeper_search_still_scores_an_immediate_win_as_one_ply_away() {
    let white = ninemensmorris::board::set(bits(&[0, 1, 14]), Square(22));
    let black = bits(&[6, 12, 18]);
    let state = CurrentGameState::from_bitboards(white, black, 0, 0, Color::White, 0, 100).unwrap();
    let result = search(&state, 3);
    assert_eq!(result.score, WIN_SCORE - 1);
    assert!(state.make_move(result.best_move).is_terminal());
}

#[test]
fn randomized_pick_stays_within_margin_at_depth_three() {
    let white = ninemensmorris::board::set(bits(&[0, 1, 14]), Square(9));
    let black = ninemensmorris::board::set(bits(&[5, 6, 18]), Square(20));
    let state = CurrentGameState::from_bitboards(white, black, 0, 0, Color::White, 0, 100).unwrap();
    let best = search(&state, 3);
    assert_eq!(search(&state, 3), best);
    for seed in 0..8u64 {
        let picked = search_with_randomization(&state, 3, 100, seed);
        assert!(picked.score <= best.score);
        assert!(best.score - picked.score <= 100);
        assert_eq!(search_with_randomization(&state, 3, 100, seed), picked);
    }
    assert_eq!(search_with_randomization(&state, 3, 0, 5).score, best.score);
}

#[test]
fn negamax_leaves_the_table_alone_on_a_finished_game() {
    let state = CurrentGameState::from_bitboards(bits(&[0, 2, 21, 23]), bits(&[1, 9, 14, 22]), 0, 0, Color::White, 0, 100)
        .unwrap();
    let mut tt = TranspositionTable::new(16);
    tt.store(state.zobrist(), entry(state.zobrist(), 1, 7));
    assert_eq!(negamax(&state, 4, 0, -WIN_SCORE - 1, WIN_SCORE + 1, &mut tt), -WIN_SCORE);
    assert_eq!(tt.probe(state.zobrist()).map(|e| e.score), Some(7));
}

#[test]
fn negamax_stores_the_root_entry() {
    let state = CurrentGameState::new();
    let mut tt = TranspositionTable::new(1 << 12);
    let score = negamax(&state, 2, 0, -WIN_SCORE - 1, WIN_SCORE + 1, &mut tt);
    let e = *tt.probe(state.zobrist()).expect("root entry stored");
    assert_eq!(e.key, state.zobrist());
    assert_eq!(e.depth, 2);
    assert_eq!(e.score, score);
    assert_eq!(e.bound, Bound::Exact);
    assert!(state.generate_moves().contains(&e.best_move.expect("a best move")));
}

#[test]
fn a_finished_game_deep_in_the_ply_count_still_scores() {
    let state = CurrentGameState::from_bitboards(bits(&[0, 2, 21, 23]), bits(&[1, 9, 14, 22]), 0, 0, Color::White, 0, 100)
        .unwrap();
    let mut tt = TranspositionTable::new(16);
    assert_eq!(negamax(&state, 20, 250, -WIN_SCORE - 1, WIN_SCORE + 1, &mut tt), -(WIN_SCORE - 250));
    assert_eq!(quiescence(&state, 250, -WIN_SCORE - 1, WIN_SCORE + 1), -(WIN_SCORE - 250));
}

#[test]
fn no_move_scores_as_an_immediate_win_without_one() {
    let state = CurrentGameState::new();
    let result = search(&state, 3);
    assert!(result.score < WIN_SCORE - 1);
}
