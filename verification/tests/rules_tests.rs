use ninemensmorris::position::CurrentGameState;
use ninemensmorris::types::{Captures, Color, GameResult, Move, Phase, Square};

fn bits(squares: &[u8]) -> u32 {
    let mut bb = 0u32;
    for &sq in squares {
        bb = ninemensmorris::board::set(bb, Square(sq));
    }
    bb
}

#[test]
fn generate_moves_does_not_recurse() {
    let state = CurrentGameState::new();
    assert!(!state.is_terminal());
    let moves = state.generate_moves();
    assert_eq!(moves.len(), 24); // empty board, phase Placing, no mills possible yet
}

#[test]
fn result_reports_winner_when_side_to_move_is_blocked() {
    // White pieces sit on four degree-2 squares (0, 2, 21, 23); Black
    // occupies every one of their neighbors (1, 9, 14, 22), so White has
    // zero movable pieces even though both sides have 4 pieces on board.
    let white = ninemensmorris::board::set(
        ninemensmorris::board::set(ninemensmorris::board::set(ninemensmorris::board::set(0, Square(0)), Square(2)), Square(21)),
        Square(23),
    );
    let black = ninemensmorris::board::set(
        ninemensmorris::board::set(ninemensmorris::board::set(ninemensmorris::board::set(0, Square(1)), Square(9)), Square(14)),
        Square(22),
    );
    let state = CurrentGameState::from_bitboards(white, black, 0, 0, Color::White, 0, 100).expect("valid position");

    assert!(!state.has_legal_moves());
    assert!(state.is_terminal());
    assert_eq!(state.result(), GameResult::Winner(Color::Black));
}

#[test]
fn completing_two_mills_at_once_offers_two_captures() {
    // White owns 0, 2 (two-thirds of mill (0,1,2)) and 4, 7 (two-thirds of
    // mill (1,4,7)). Placing on square 1 completes both. Black has 4
    // pieces, none in a mill, so every distinct pair should appear.
    let white = bits(&[0, 2, 4, 7]);
    let black = bits(&[3, 5, 6, 8]);
    let state = CurrentGameState::from_bitboards(white, black, 5, 5, Color::White, 0, 100).expect("valid position");

    assert_eq!(state.mills_created_by(Color::White, Square(1), None), 2);

    let moves = state.generate_moves();
    let double_captures: Vec<_> = moves
        .iter()
        .filter_map(|mv| match mv {
            Move::Place { to: Square(1), captures } if captures.len() == 2 => Some(*captures),
            _ => None,
        })
        .collect();

    // C(4, 2) = 6 distinct pairs from {3, 5, 6, 8}.
    assert_eq!(double_captures.len(), 6);
    for &(a, b) in &[(3, 5), (3, 6), (3, 8), (5, 6), (5, 8), (6, 8)] {
        assert!(
            double_captures.iter().any(|c| c.contains(Square(a)) && c.contains(Square(b))),
            "missing capture pair ({a}, {b})"
        );
    }

    // No single-capture variant should exist for this move.
    assert!(!moves.iter().any(|mv| matches!(mv, Move::Place { to: Square(1), captures } if captures.len() == 1)));
}

#[test]
fn generate_captures_allows_capturing_from_a_mill_when_all_pieces_are_milled() {
    let white = bits(&[0, 1]);
    let black = bits(&[3, 4, 5]); // mill (3,4,5)
    let state = CurrentGameState::from_bitboards(white, black, 7, 6, Color::White, 0, 100).expect("valid position");

    // Placing on square 2 completes mill (0,1,2); every Black piece is
    // already in a mill, so all three become valid capture targets.
    let moves = state.generate_moves();
    let capturing_moves = moves
        .iter()
        .filter(|mv| matches!(mv, Move::Place { to: Square(2), captures } if !captures.is_empty()))
        .count();
    assert_eq!(capturing_moves, 3);
}

#[test]
fn flying_reaches_non_adjacent_empty_squares() {
    // Flying phase (3 pieces, hand empty): a flying piece may land on any
    // empty square, not just an adjacent one.
    let white = bits(&[0, 5, 20]);
    let black = bits(&[8, 11, 17]);
    let state = CurrentGameState::from_bitboards(white, black, 0, 0, Color::White, 0, 100).expect("valid position");

    assert_eq!(state.current_phase(), Phase::Flying);
    let moves = state.generate_moves();
    assert!(moves.contains(&Move::Fly { from: Square(0), to: Square(16), captures: Captures::none() }));
}

#[test]
fn full_placing_phase_plays_out_without_panicking() {
    let mut state = CurrentGameState::new();
    let mut rng_seed = 7u64;
    for _ in 0..18 {
        if state.is_terminal() {
            break;
        }
        let moves = state.generate_moves();
        assert!(!moves.is_empty());
        rng_seed = rng_seed.wrapping_mul(6364136223846793005).wrapping_add(1);
        let idx = (rng_seed >> 33) as usize % moves.len();
        state = state.make_move(moves[idx]);
        assert!(state.invariants_hold());
    }
}

#[test]
fn sliding_only_reaches_adjacent_empty_squares() {
    // Four pieces each, nothing in hand: sliding. Square 0's neighbours are
    // 1 and 9; with 1 taken by Black only 0 -> 9 is possible from there.
    let white = bits(&[0, 5, 20, 23]);
    let black = bits(&[1, 8, 11, 17]);
    let state = CurrentGameState::from_bitboards(white, black, 0, 0, Color::White, 0, 100).expect("valid position");
    assert_eq!(state.current_phase(), Phase::Sliding);
    let moves = state.generate_moves();
    let from_zero: Vec<_> = moves
        .iter()
        .filter(|mv| matches!(mv, Move::Slide { from: Square(0), .. }))
        .collect();
    assert_eq!(from_zero.len(), 1);
    assert_eq!(*from_zero[0], Move::Slide { from: Square(0), to: Square(9), captures: Captures::none() });
    assert!(moves.iter().all(|mv| matches!(mv, Move::Slide { .. })));
}

#[test]
fn result_reports_material_loss() {
    // White has two pieces and nothing in hand: lost by material.
    let white = bits(&[0, 5]);
    let black = bits(&[8, 11, 17]);
    let state = CurrentGameState::from_bitboards(white, black, 0, 0, Color::Black, 0, 100).expect("valid position");
    assert!(state.is_terminal_by_pieces());
    assert!(state.is_terminal());
    assert!(state.is_game_over());
    assert_eq!(state.result(), GameResult::Winner(Color::Black));
}

#[test]
fn ongoing_game_has_no_result_and_ply_limit_draws() {
    let state = CurrentGameState::new();
    assert_eq!(state.result(), GameResult::Ongoing);
    assert!(!state.is_game_over());
    let drawn = CurrentGameState::from_bitboards(bits(&[0, 5, 20, 23]), bits(&[1, 8, 11, 17]), 0, 0, Color::White, 100, 100)
        .expect("valid position");
    assert!(drawn.is_draw_by_plies());
    assert!(drawn.is_game_over());
    assert_eq!(drawn.result(), GameResult::Draw);
}

#[test]
fn capture_targets_skip_milled_pieces() {
    // Black has a mill (3,4,5) and a loose piece on 10: only 10 is capturable.
    let white = bits(&[0, 1]);
    let black = bits(&[3, 4, 5, 10]);
    let state = CurrentGameState::from_bitboards(white, black, 7, 5, Color::White, 0, 100).expect("valid position");
    assert_eq!(state.generate_captures(Color::White), vec![Square(10)]);
    assert!(state.is_in_mill(Color::Black, Square(4)));
    assert!(!state.is_in_mill(Color::Black, Square(10)));
    assert!(!state.all_pieces_in_mills(Color::Black));
    assert!(state.forms_mill(Color::White, Square(2), None));
    assert!(!state.forms_mill(Color::White, Square(9), None));
    assert!(state.is_mill(Color::Black, 0b111000));
}

#[test]
fn phases_follow_hand_and_board_counts() {
    let state = CurrentGameState::new();
    assert_eq!(state.phase(Color::White), Phase::Placing);
    assert!(!state.can_fly(Color::White));
    let flying = CurrentGameState::from_bitboards(bits(&[0, 5, 20]), bits(&[8, 11, 17, 22]), 0, 0, Color::White, 0, 100)
        .expect("valid position");
    assert_eq!(flying.phase(Color::White), Phase::Flying);
    assert!(flying.can_fly(Color::White));
    assert_eq!(flying.phase(Color::Black), Phase::Sliding);
}

#[test]
fn generated_moves_are_never_listed_twice() {
    let positions = [
        CurrentGameState::new(),
        CurrentGameState::from_bitboards(bits(&[0, 5, 20]), bits(&[8, 11, 17]), 0, 0, Color::White, 0, 100).unwrap(),
        CurrentGameState::from_bitboards(bits(&[0, 2, 4, 7]), bits(&[10, 12, 20, 22]), 5, 5, Color::White, 0, 100).unwrap(),
    ];
    for state in positions.iter() {
        let moves = state.generate_moves();
        for i in 0..moves.len() {
            for j in (i + 1)..moves.len() {
                assert_ne!(moves[i], moves[j]);
            }
        }
    }
}

#[test]
fn a_flying_side_has_a_flight_per_piece_and_empty_point() {
    let state = CurrentGameState::from_bitboards(bits(&[0, 5, 20]), bits(&[8, 11, 17]), 0, 0, Color::White, 0, 100).unwrap();
    assert_eq!(state.current_phase(), Phase::Flying);
    let moves = state.generate_moves();
    let mut pairs: Vec<(u8, u8)> = Vec::new();
    for mv in moves.iter() {
        if let Move::Fly { from, to, .. } = mv {
            if !pairs.contains(&(from.0, to.0)) {
                pairs.push((from.0, to.0));
            }
        } else {
            panic!("expected only flights, got {mv:?}");
        }
    }
    assert_eq!(pairs.len(), 3 * 18);
    // Flying 0 -> 13 closes the mill (5, 13, 20): one move per capturable piece.
    assert_eq!(moves.len(), 3 * 18 - 1 + 3);
}

#[test]
fn nothing_to_capture_once_the_opponent_has_no_piece_on_the_board() {
    let state = CurrentGameState::from_bitboards(bits(&[0, 1]), 0, 7, 9, Color::White, 0, 100).unwrap();
    assert!(state.generate_captures(Color::White).is_empty());
    let state = CurrentGameState::from_bitboards(bits(&[0, 1]), bits(&[9]), 7, 8, Color::White, 0, 100).unwrap();
    assert_eq!(state.generate_captures(Color::White), vec![Square(9)]);
}

#[test]
fn a_finished_game_has_a_result() {
    let drawn = CurrentGameState::from_bitboards(bits(&[0, 5, 20, 23]), bits(&[1, 8, 11, 17]), 0, 0, Color::White, 100, 100)
        .unwrap();
    assert!(drawn.is_game_over());
    assert_ne!(drawn.result(), GameResult::Ongoing);
    let blocked = CurrentGameState::from_bitboards(bits(&[0, 2, 21, 23]), bits(&[1, 9, 14, 22]), 0, 0, Color::White, 0, 100)
        .unwrap();
    assert!(blocked.is_game_over());
    assert_eq!(blocked.result(), GameResult::Winner(Color::Black));
}

#[test]
fn each_kind_of_move_changes_exactly_its_points() {
    // A placement costs the hand one piece and adds one on the board.
    let state = CurrentGameState::new();
    let after = state.make_move(Move::Place { to: Square(4), captures: Captures::none() });
    assert_eq!(after.pieces_in_hand(Color::White), 8);
    assert_eq!(after.pieces_on_board(Color::White), 1);
    assert_eq!(after.owner(Square(4)), Some(Color::White));
    assert_eq!(after.plies_since_capture(), 1);

    // A slide empties its origin; a capture empties its point and resets the clock.
    let white = bits(&[0, 1, 14, 22]);
    let black = bits(&[6, 12, 18]);
    let state = CurrentGameState::from_bitboards(white, black, 0, 0, Color::White, 7, 100).unwrap();
    let capture = state
        .generate_moves()
        .into_iter()
        .find(|mv| matches!(mv, Move::Slide { from: Square(14), to: Square(2), .. }))
        .expect("the slide that closes the mill");
    let taken = match capture {
        Move::Slide { captures, .. } => captures.iter()[0],
        _ => unreachable!(),
    };
    let after = state.make_move(capture);
    assert!(after.is_empty(Square(14)));
    assert!(after.is_empty(taken));
    assert_eq!(after.owner(Square(2)), Some(Color::White));
    assert_eq!(after.pieces_on_board(Color::White), 4);
    assert_eq!(after.pieces_on_board(Color::Black), 2);
    assert_eq!(after.plies_since_capture(), 0);
    assert_eq!(after.owner(Square(22)), Some(Color::White));
}

#[test]
fn mills_are_counted_over_the_whole_table() {
    let state = CurrentGameState::from_bitboards(bits(&[0, 2, 4, 7]), bits(&[10, 12, 20, 22]), 5, 5, Color::White, 0, 100)
        .unwrap();
    assert_eq!(state.mills_created_by(Color::White, Square(1), None), 2);
    assert_eq!(state.mills_created_by(Color::White, Square(9), None), 0);
    let after = state.make_move(
        state.generate_moves().into_iter().find(|mv| matches!(mv, Move::Place { to: Square(1), .. })).unwrap(),
    );
    assert!(after.is_in_mill(Color::White, Square(1)));
    assert!(after.is_in_mill(Color::White, Square(4)));
    assert!(!after.is_in_mill(Color::White, Square(9)));
}
