use ninemensmorris::session::{GameSession, SessionError};

#[test]
fn new_game_starts_with_empty_board_and_white_to_move() {
    let session = GameSession::new_game();
    assert_eq!(session.board(), vec![0u8; 24]);
    assert_eq!(session.side_to_move(), 0);
    assert_eq!(session.phase(), 0);
}

#[test]
fn legal_moves_from_start_has_24_placements() {
    let session = GameSession::new_game();
    let moves = session.legal_moves();
    assert_eq!(moves.len(), 24);
    assert!(moves.iter().all(|mv| mv.from().is_none()));
}

#[test]
fn play_move_applies_a_legal_placement() {
    let mut session = GameSession::new_game();
    session.try_play_move(None, 0, vec![]).expect("placement should be legal");
    assert_eq!(session.board()[0], 1); // White
    assert_eq!(session.side_to_move(), 1); // Black
}

#[test]
fn play_move_rejects_an_illegal_move() {
    let mut session = GameSession::new_game();
    session.try_play_move(None, 0, vec![]).unwrap();
    // Square 0 is occupied now — placing there again isn't legal.
    assert!(session.try_play_move(None, 0, vec![]).is_err());
}

#[test]
fn capture_targets_and_play_move_agree_on_a_mill() {
    let mut session = GameSession::new_game();
    // White: 0, 1 (will complete mill 0,1,2). Black: 10, 11.
    session.try_play_move(None, 0, vec![]).unwrap(); // White
    session.try_play_move(None, 10, vec![]).unwrap(); // Black
    session.try_play_move(None, 1, vec![]).unwrap(); // White
    session.try_play_move(None, 11, vec![]).unwrap(); // Black

    let targets = session.capture_targets(None, 2);
    assert_eq!(targets, vec![10, 11]);

    // A mill formed, so playing it with zero captures must be rejected.
    let mut without_capture = session.clone();
    assert!(without_capture.try_play_move(None, 2, vec![]).is_err());

    session.try_play_move(None, 2, vec![10]).expect("capturing move should be legal");
    assert_eq!(session.board()[10], 0); // captured, now empty
    assert_eq!(session.board()[2], 1); // White completed the mill
}

#[test]
fn bot_move_applies_a_move_and_reports_a_score() {
    let mut session = GameSession::new_game();
    let result = session.try_bot_move("medium", 42).expect("bot move should succeed");
    assert!(session.board().iter().any(|&sq| sq != 0));
    assert_eq!(result.from(), None);
}

#[test]
fn bot_move_rejects_an_unknown_difficulty() {
    let mut session = GameSession::new_game();
    assert!(session.try_bot_move("nightmare", 1).is_err());
}

#[test]
fn hint_suggests_a_move_without_mutating_the_session() {
    let session = GameSession::new_game();
    let before = session.board();
    let result = session.try_hint("medium").expect("hint should succeed");
    assert_eq!(session.board(), before, "hint must not apply the move");
    assert_eq!(result.from(), None); // opening move is always a placement
}

#[test]
fn hint_rejects_an_unknown_difficulty() {
    let session = GameSession::new_game();
    assert!(session.try_hint("nightmare").is_err());
}

#[test]
fn errors_name_their_cause() {
    let mut session = GameSession::new_game();
    assert_eq!(session.try_play_move(Some(3), 4, vec![]), Err(SessionError::IllegalMove));
    assert_eq!(session.try_hint("Easy").err(), Some(SessionError::UnknownDifficulty));
}

#[test]
fn easy_bot_plays_a_reported_move() {
    let mut session = GameSession::new_game();
    let result = session.try_bot_move("easy", 7).expect("easy bot move should succeed");
    let to = result.to() as usize;
    assert_eq!(session.board()[to], 1);
    assert!(result.captures().is_empty());
    assert_eq!(session.pieces_in_hand(0), 8);
    assert_eq!(session.pieces_in_hand(1), 9);
    assert!(!session.is_game_over());
    assert_eq!(session.winner(), None);
    let _ = result.score();
}

#[test]
fn play_move_refuses_a_square_requested_twice() {
    let mut session = GameSession::new_game();
    // White builds two open mills through square 1; Black's pieces stay loose.
    for (i, sq) in [0u8, 10, 2, 12, 4, 20, 7, 22].iter().enumerate() {
        session.try_play_move(None, *sq, vec![]).unwrap_or_else(|_| panic!("placement {} refused", i));
    }
    // Placing on 1 closes both mills: two distinct captures are owed.
    assert_eq!(session.try_play_move(None, 1, vec![10, 10]), Err(SessionError::IllegalMove));
    assert_eq!(session.board()[1], 0);
    assert_eq!(session.try_play_move(None, 1, vec![12, 10]), Ok(()));
    assert_eq!(session.board()[10], 0);
    assert_eq!(session.board()[12], 0);
    assert_eq!(session.board()[1], 1);
}
