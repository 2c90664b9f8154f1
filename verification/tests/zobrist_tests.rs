use ninemensmorris::position::CurrentGameState;
use ninemensmorris::types::{Captures, Color, Move, Square};
use ninemensmorris::zobrist::{build_tables, splitmix64};

#[test]
fn deterministic_for_equal_states() {
    let a = CurrentGameState::new();
    let b = CurrentGameState::new();
    assert_eq!(a.zobrist(), b.zobrist());
}

#[test]
fn placing_a_piece_changes_the_hash() {
    let state = CurrentGameState::new();
    let before = state.zobrist();
    let after = state.make_move(Move::Place { to: Square(0), captures: Captures::none() });
    assert_ne!(before, after.zobrist());
}

#[test]
fn side_to_move_affects_the_hash() {
    let state = CurrentGameState::new();
    let after_white_moves = state.make_move(Move::Place { to: Square(0), captures: Captures::none() });
    let mut same_board_white_to_move = after_white_moves.clone();
    same_board_white_to_move.set_turn(Color::White);
    assert_ne!(after_white_moves.zobrist(), same_board_white_to_move.zobrist());
}

/// Two different move orders that land on the identical position must
/// hash identically.
#[test]
fn transposition_same_position_hashes_equal() {
    let start = CurrentGameState::new();

    let order_a = start
        .make_move(Move::Place { to: Square(0), captures: Captures::none() }) // White
        .make_move(Move::Place { to: Square(9), captures: Captures::none() }) // Black
        .make_move(Move::Place { to: Square(1), captures: Captures::none() }) // White
        .make_move(Move::Place { to: Square(10), captures: Captures::none() }); // Black

    let order_b = start
        .make_move(Move::Place { to: Square(1), captures: Captures::none() }) // White
        .make_move(Move::Place { to: Square(10), captures: Captures::none() }) // Black
        .make_move(Move::Place { to: Square(0), captures: Captures::none() }) // White
        .make_move(Move::Place { to: Square(9), captures: Captures::none() }); // Black

    assert_eq!(order_a, order_b);
    assert_eq!(order_a.zobrist(), order_b.zobrist());
}

/// Same board occupancy, different hand counts, must not collide.
#[test]
fn identical_board_different_hand_count_hashes_differently() {
    let mut fewer_captures = CurrentGameState::new();
    fewer_captures.place_piece(Color::White, Square(0));
    fewer_captures.dec_unplaced(Color::White);

    let mut more_captures = CurrentGameState::new();
    more_captures.place_piece(Color::White, Square(0));
    more_captures.dec_unplaced(Color::White);
    more_captures.dec_unplaced(Color::White);
    more_captures.dec_unplaced(Color::White);
    more_captures.place_piece(Color::White, Square(1));
    more_captures.remove_piece(Square(1));

    assert_eq!(fewer_captures.pieces(Color::White), more_captures.pieces(Color::White));
    assert_ne!(fewer_captures.pieces_in_hand(Color::White), more_captures.pieces_in_hand(Color::White));
    assert_ne!(fewer_captures.zobrist(), more_captures.zobrist());
}

#[test]
fn single_piece_on_each_square_hashes_are_pairwise_distinct() {
    let mut hashes = Vec::new();
    for sq in 0..24u8 {
        let state = CurrentGameState::new().make_move(Move::Place { to: Square(sq), captures: Captures::none() });
        hashes.push(state.zobrist());
    }
    for i in 0..hashes.len() {
        for j in (i + 1)..hashes.len() {
            assert_ne!(hashes[i], hashes[j], "collision between square {i} and {j}");
        }
    }
}

#[test]
fn draw_clock_does_not_affect_the_hash() {
    let a = CurrentGameState::from_bitboards(0b101, 0b10, 7, 8, Color::Black, 0, 100).unwrap();
    let b = CurrentGameState::from_bitboards(0b101, 0b10, 7, 8, Color::Black, 37, 50).unwrap();
    assert_eq!(a.zobrist(), b.zobrist());
}

#[test]
fn splitmix64_matches_the_reference_stream() {
    // splitmix64 seeded with 0 gives 0xE220A8397B1DCDAF as its first output.
    let (next, value) = splitmix64(0);
    assert_eq!(next, 0x9E3779B97F4A7C15);
    assert_eq!(value, 0xE220A8397B1DCDAF);
}

#[test]
fn empty_board_hash_is_the_two_hand_keys() {
    let tables = build_tables();
    assert_eq!(tables.piece.len(), 48);
    assert_eq!(tables.unplaced.len(), 20);
    let state = CurrentGameState::new();
    assert_eq!(state.zobrist(), tables.unplaced[9] ^ tables.unplaced[10 + 9]);
}

#[test]
fn hashing_with_prebuilt_tables_matches() {
    let tables = build_tables();
    let mut state = CurrentGameState::new();
    for sq in [0u8, 9, 3, 12] {
        assert_eq!(state.zobrist_with(&tables), state.zobrist());
        state = state.make_move(Move::Place { to: Square(sq), captures: Captures::none() });
    }
    assert_eq!(state.zobrist_with(&tables), state.zobrist());
    assert_eq!(state.side_to_move(), Color::White);
}
