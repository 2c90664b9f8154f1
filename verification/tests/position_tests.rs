use ninemensmorris::position::{CurrentGameState, PositionError, DEFAULT_DRAW_PLY_LIMIT};
use ninemensmorris::types::{Captures, Color, Move, Square};

#[test]
fn new_game_is_empty_with_full_hands() {
    let state = CurrentGameState::new();
    assert_eq!(state.pieces(Color::White), 0);
    assert_eq!(state.pieces(Color::Black), 0);
    assert_eq!(state.pieces_in_hand(Color::White), 9);
    assert_eq!(state.pieces_in_hand(Color::Black), 9);
    assert_eq!(state.side_to_move(), Color::White);
    assert_eq!(state.plies_since_capture(), 0);
    assert_eq!(state.draw_ply_limit(), DEFAULT_DRAW_PLY_LIMIT);
    assert_eq!(state.empty_squares(), 0x00FF_FFFF);
    assert!(state.invariants_hold());
}

#[test]
fn from_bitboards_rejects_each_broken_invariant() {
    assert_eq!(
        CurrentGameState::from_bitboards(1 << 24, 0, 0, 0, Color::White, 0, 100),
        Err(PositionError::OffBoard)
    );
    assert_eq!(CurrentGameState::from_bitboards(0b11, 0b10, 0, 0, Color::White, 0, 100), Err(PositionError::Overlap));
    assert_eq!(
        CurrentGameState::from_bitboards(0b1, 0, 9, 0, Color::White, 0, 100),
        Err(PositionError::TooManyPieces(Color::White))
    );
    assert_eq!(
        CurrentGameState::from_bitboards(0, 0b11, 0, 8, Color::White, 0, 100),
        Err(PositionError::TooManyPieces(Color::Black))
    );
    assert!(CurrentGameState::from_bitboards(0b1, 0b10, 8, 8, Color::Black, 3, 100).is_ok());
}

#[test]
fn square_queries_report_owners() {
    let state = CurrentGameState::from_bitboards(0b1, 0b10, 8, 8, Color::Black, 0, 100).unwrap();
    assert!(state.is_white(Square(0)));
    assert!(state.is_black(Square(1)));
    assert!(state.is_empty(Square(2)));
    assert_eq!(state.owner(Square(0)), Some(Color::White));
    assert_eq!(state.owner(Square(1)), Some(Color::Black));
    assert_eq!(state.owner(Square(2)), None);
    assert_eq!(state.pieces_on_board(Color::White), 1);
    assert_eq!(state.total_pieces_on_board(), 2);
}

#[test]
fn make_move_places_captures_and_passes_the_turn() {
    // White to move owns 0 and 1; placing on 2 completes the mill and
    // captures Black's piece on 10.
    let state = CurrentGameState::from_bitboards(0b11, 1 << 10, 7, 8, Color::White, 5, 100).unwrap();
    let next = state.make_move(Move::Place { to: Square(2), captures: Captures::one(Square(10)) });
    assert_eq!(next.pieces(Color::White), 0b111);
    assert_eq!(next.pieces(Color::Black), 0);
    assert_eq!(next.pieces_in_hand(Color::White), 6);
    assert_eq!(next.side_to_move(), Color::Black);
    assert_eq!(next.plies_since_capture(), 0);
    assert!(next.invariants_hold());
    // `state` itself is untouched.
    assert_eq!(state.pieces(Color::White), 0b11);

    // A quiet move ticks the draw clock instead.
    let quiet = state.make_move(Move::Place { to: Square(5), captures: Captures::none() });
    assert_eq!(quiet.plies_since_capture(), 6);
}

#[test]
fn slides_and_flights_move_the_piece() {
    let state = CurrentGameState::from_bitboards(1 << 0, 1 << 5, 0, 0, Color::White, 0, 100).unwrap();
    let slid = state.make_move(Move::Slide { from: Square(0), to: Square(9), captures: Captures::none() });
    assert_eq!(slid.pieces(Color::White), 1 << 9);
    let flown = state.make_move(Move::Fly { from: Square(0), to: Square(23), captures: Captures::none() });
    assert_eq!(flown.pieces(Color::White), 1 << 23);
    assert_eq!(flown.side_to_move(), Color::Black);
}

#[test]
fn mutators_keep_the_position_in_step() {
    let mut state = CurrentGameState::new();
    state.dec_unplaced(Color::Black);
    state.place_piece(Color::Black, Square(7));
    assert_eq!(state.pieces(Color::Black), 1 << 7);
    state.move_piece(Color::Black, Square(7), Square(8));
    assert_eq!(state.pieces(Color::Black), 1 << 8);
    state.remove_piece(Square(8));
    assert_eq!(state.pieces(Color::Black), 0);
    state.tick_capture_clock();
    state.tick_capture_clock();
    assert_eq!(state.plies_since_capture(), 2);
    state.reset_capture_clock();
    assert_eq!(state.plies_since_capture(), 0);
    state.set_turn(Color::Black);
    assert_eq!(state.side_to_move(), Color::Black);
}
