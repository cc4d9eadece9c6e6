use zertz_core::app::{App, GameInputData};
use zertz_core::board::{BoardKind, Marble, Ring};
use zertz_core::coordinate::Coordinate;
use zertz_core::error::ZertzError;
use zertz_core::rules::{CatchableMove, GameState, Player};

fn c(x: usize, y: usize) -> Coordinate {
    Coordinate::new(x, y)
}

#[test]
fn session_runs_the_state_machine() {
    let mut app = App::new(BoardKind::Rings37);
    assert_eq!(app.get_game_state(), GameState::CheckIsCatchable);
    app.play(None).unwrap();
    assert_eq!(app.get_game_state(), GameState::PutMarble);
    app.play(Some(GameInputData::put_marble_data(c(0, 0), c(2, 0), Marble::White))).unwrap();
    assert_eq!(app.get_game_state(), GameState::CheckIsCatchable);
    app.play(None).unwrap();
    assert_eq!(app.get_game_state(), GameState::PutMarble);
    assert!(app.get_output().unwrap().movable_list.is_empty());
    app.play(Some(GameInputData::put_marble_data(c(0, 1), c(6, 6), Marble::Gray))).unwrap();
    app.play(None).unwrap();
    assert_eq!(app.get_game_state(), GameState::CatchMarble);
    let list = app.get_output().unwrap().movable_list;
    assert_eq!(list.len(), 1);
    // A placement request does not fit a pending jump.
    assert_eq!(
        app.play(Some(GameInputData::put_marble_data(c(3, 3), c(6, 5), Marble::Black))),
        Err(ZertzError::InvalidInputData)
    );
    assert_eq!(app.play(None), Err(ZertzError::InvalidInputData));
    app.play(Some(GameInputData::catch_marble_data(list[0]))).unwrap();
    assert!(app.get_output().is_none());
    assert_eq!(app.get_game_state(), GameState::PutMarble);
    assert_eq!(app.get_game().get_current_player(), Player::Bob);
    assert_eq!(app.get_current_board().get(c(0, 2)), Some(&Ring::Occupied(Marble::White)));
}

#[test]
fn rewind_restores_the_recorded_position() {
    let mut app = App::new(BoardKind::Rings37);
    app.play(None).unwrap();
    app.play(Some(GameInputData::put_marble_data(c(0, 0), c(2, 0), Marble::White))).unwrap();
    app.play(None).unwrap();
    app.play(Some(GameInputData::put_marble_data(c(3, 3), c(6, 6), Marble::Gray))).unwrap();
    // Back to the position recorded after the last move.
    app.force_rewind();
    assert_eq!(app.get_game_state(), GameState::CheckIsCatchable);
    assert_eq!(app.get_current_board().get(c(3, 3)), Some(&Ring::Occupied(Marble::Gray)));
    // A second rewind stays there.
    app.rewind();
    assert_eq!(app.get_current_board().get(c(3, 3)), Some(&Ring::Occupied(Marble::Gray)));
    assert_eq!(app.get_game().get_current_player(), Player::Alice);
    // Forcing goes one recorded move further back.
    app.force_rewind();
    assert_eq!(app.get_current_board().get(c(3, 3)), Some(&Ring::Vacant));
    assert_eq!(app.get_current_board().get(c(0, 0)), Some(&Ring::Occupied(Marble::White)));
    assert_eq!(app.get_game().get_current_player(), Player::Bob);
}

#[test]
fn jump_request_in_placement_state_is_refused() {
    let mut app = App::new(BoardKind::Rings37);
    let mv = CatchableMove { start_coord: c(0, 0), catched_coord: c(0, 1), marble_land_coord: c(0, 2) };
    // The opening capture check ignores the request.
    app.play(Some(GameInputData::catch_marble_data(mv))).unwrap();
    assert_eq!(app.get_game_state(), GameState::PutMarble);
    assert_eq!(
        app.play(Some(GameInputData::catch_marble_data(mv))),
        Err(ZertzError::InvalidInputData)
    );
    assert_eq!(app.play(None), Err(ZertzError::InvalidInputData));
}

#[test]
fn saved_match_is_taken_up_again() {
    let mut app = App::new(BoardKind::Rings37);
    app.play(None).unwrap();
    app.play(Some(GameInputData::put_marble_data(c(0, 0), c(2, 0), Marble::White))).unwrap();
    let (current, record, play) = app.saved();
    assert_eq!(record.len(), 1);
    let mut again = App::from_saved(current, record, play).unwrap();
    assert_eq!(again.get_game_state(), GameState::CheckIsCatchable);
    assert_eq!(again.get_game().get_current_player(), Player::Bob);
    assert_eq!(again.get_current_board().get(c(0, 0)), Some(&Ring::Occupied(Marble::White)));
    again.play(None).unwrap();
    assert_eq!(again.get_game_state(), GameState::PutMarble);
}

#[test]
fn saved_position_with_a_lost_marble_is_refused() {
    let app = App::new(BoardKind::Rings37);
    let (mut current, _, play) = app.saved();
    current.total_marble.white_count = 5;
    assert!(matches!(App::from_saved(current, Vec::new(), play), Err(ZertzError::InvalidPosition)));
    let (mut tied, _, play) = app.saved();
    tied.current_player = Player::Tie;
    assert!(matches!(App::from_saved(tied, Vec::new(), play), Err(ZertzError::InvalidPosition)));
    // A record made on another board does not fit.
    let (good, _, play) = app.saved();
    let (other, _, _) = App::new(BoardKind::Rings61).saved();
    assert!(matches!(App::from_saved(good, vec![other], play), Err(ZertzError::InvalidPosition)));
    let (good, _, play) = app.saved();
    let (same, _, _) = app.saved();
    assert!(App::from_saved(good, vec![same], play).is_ok());
    // A count past three, or a jump awaited with none offered, is refused.
    let (good, _, mut play) = app.saved();
    play.repeat_count = 4;
    assert!(matches!(App::from_saved(good, Vec::new(), play), Err(ZertzError::InvalidPosition)));
    let (good, _, mut play) = app.saved();
    play.state = GameState::CatchMarble;
    assert!(matches!(App::from_saved(good, Vec::new(), play), Err(ZertzError::InvalidPosition)));
}

#[test]
fn saved_pending_jump_is_taken_up_again() {
    let mut app = App::new(BoardKind::Rings37);
    app.play(None).unwrap();
    app.play(Some(GameInputData::put_marble_data(c(0, 0), c(2, 0), Marble::White))).unwrap();
    app.play(None).unwrap();
    app.play(Some(GameInputData::put_marble_data(c(0, 1), c(6, 6), Marble::Gray))).unwrap();
    app.play(None).unwrap();
    assert_eq!(app.get_game_state(), GameState::CatchMarble);
    let (current, record, play) = app.saved();
    let expected = CatchableMove { start_coord: c(0, 0), catched_coord: c(0, 1), marble_land_coord: c(0, 2) };
    assert_eq!(play.options, vec![expected]);
    let mut again = App::from_saved(current, record, play).unwrap();
    assert_eq!(again.get_game_state(), GameState::CatchMarble);
    assert_eq!(again.get_game().get_options(), vec![expected]);
    again.play(Some(GameInputData::catch_marble_data(expected))).unwrap();
    assert_eq!(again.get_game().get_history_len(), 1);
    // A jump the board does not allow is refused.
    let (current, record, mut play) = app.saved();
    play.options[0].marble_land_coord = c(0, 3);
    assert!(matches!(App::from_saved(current, record, play), Err(ZertzError::InvalidPosition)));
}
