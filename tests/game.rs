use zertz_core::board::{Board, BoardKind, Marble, Ring};
use zertz_core::coordinate::Coordinate;
use zertz_core::error::ZertzError;
use zertz_core::game::Game;
use zertz_core::rules::{CatchableMove, GameState, MarbleCount, Player};

fn c(x: usize, y: usize) -> Coordinate {
    Coordinate::new(x, y)
}

/// A new game past its opening capture check, waiting for a placement.
fn started(kind: BoardKind) -> Game {
    let mut game = Game::new(kind);
    assert!(game.check_catchable().unwrap().is_empty());
    game
}

fn count_on_board(board: &Board, marble: Marble) -> usize {
    board.data.iter().filter(|r| **r == Ring::Occupied(marble)).count()
}

fn assert_conserved(game: &Game) {
    let board = game.get_board();
    let pool = game.get_pool();
    let a = game.get_score(Player::Alice);
    let b = game.get_score(Player::Bob);
    assert_eq!(pool.white_count + count_on_board(&board, Marble::White) + a.white_count + b.white_count, 6);
    assert_eq!(pool.gray_count + count_on_board(&board, Marble::Gray) + a.gray_count + b.gray_count, 8);
    assert_eq!(pool.black_count + count_on_board(&board, Marble::Black) + a.black_count + b.black_count, 10);
}

#[test]
fn fresh_board_removable_set_is_its_rim() {
    let game = Game::new(BoardKind::Rings37);
    let expected = vec![
        c(0, 0), c(1, 0), c(2, 0), c(3, 0), c(0, 1), c(4, 1), c(0, 2), c(5, 2), c(0, 3),
        c(6, 3), c(1, 4), c(6, 4), c(2, 5), c(6, 5), c(3, 6), c(4, 6), c(5, 6), c(6, 6),
    ];
    assert_eq!(game.collect_removable_rings(), expected);
    assert!(!game.valid_to_remove_ring(c(3, 3)));
    assert!(!game.valid_to_remove_ring(c(8, 8)));
    assert!(!game.valid_to_remove_ring(c(20, 0)));
}

#[test]
fn removal_opens_the_next_ring() {
    let mut game = started(BoardKind::Rings37);
    // (1, 1) has left-down and down neighbours (0, 0) and (1, 0): once both
    // are gone it lies on the rim.
    assert!(!game.valid_to_remove_ring(c(1, 1)));
    game.put_marble(c(3, 3), c(0, 0), Marble::White).unwrap();
    game.check_catchable().unwrap();
    assert!(!game.valid_to_remove_ring(c(1, 1)));
    game.put_marble(c(4, 4), c(1, 0), Marble::White).unwrap();
    assert!(game.valid_to_remove_ring(c(1, 1)));
    // A ring holding a marble is never removable.
    assert!(!game.valid_to_remove_ring(c(3, 3)));
}

#[test]
fn end_to_end_first_moves_and_a_forced_jump() {
    let mut game = Game::new(BoardKind::Rings37);
    assert_eq!(game.get_game_state(), GameState::CheckIsCatchable);
    assert_eq!(game.get_current_player(), Player::Alice);
    assert!(game.check_catchable().unwrap().is_empty());
    assert_eq!(game.get_game_state(), GameState::PutMarble);

    game.put_marble(c(0, 0), c(2, 0), Marble::White).unwrap();
    assert_eq!(game.get_game_state(), GameState::CheckIsCatchable);
    assert_eq!(game.get_current_player(), Player::Bob);
    assert_eq!(game.get_board().get(c(2, 0)), Some(&Ring::Empty));
    let found = game.check_catchable().unwrap();
    assert!(found.is_empty());
    assert_eq!(game.get_game_state(), GameState::PutMarble);

    // Bob puts a marble right above Alice's: she may now jump over it.
    game.put_marble(c(0, 1), c(6, 6), Marble::Gray).unwrap();
    assert_eq!(game.get_current_player(), Player::Alice);
    let found = game.check_catchable().unwrap();
    assert_eq!(game.get_game_state(), GameState::CatchMarble);
    let expected = CatchableMove {
        start_coord: c(0, 0),
        catched_coord: c(0, 1),
        marble_land_coord: c(0, 2),
    };
    assert_eq!(found, vec![expected]);
    assert_eq!(game.get_options(), vec![expected]);
    assert_conserved(&game);
}

fn forced_jump_game() -> (Game, CatchableMove) {
    let mut game = started(BoardKind::Rings37);
    game.put_marble(c(0, 0), c(2, 0), Marble::White).unwrap();
    game.check_catchable().unwrap();
    game.put_marble(c(0, 1), c(6, 6), Marble::Gray).unwrap();
    game.check_catchable().unwrap();
    let mv = CatchableMove {
        start_coord: c(0, 0),
        catched_coord: c(0, 1),
        marble_land_coord: c(0, 2),
    };
    (game, mv)
}

#[test]
fn placement_is_refused_while_a_jump_is_owed() {
    let (mut game, _) = forced_jump_game();
    let before = game.get_board();
    assert_eq!(
        game.put_marble(c(3, 3), c(6, 5), Marble::Black),
        Err(ZertzError::InvalidInputData)
    );
    assert_eq!(game.get_game_state(), GameState::CatchMarble);
    assert!(game.get_board().same_cells(&before));
}

#[test]
fn placement_is_refused_before_the_capture_check() {
    let mut game = started(BoardKind::Rings37);
    game.put_marble(c(0, 0), c(2, 0), Marble::White).unwrap();
    assert_eq!(
        game.put_marble(c(3, 3), c(6, 6), Marble::Gray),
        Err(ZertzError::InvalidInputData)
    );
}

#[test]
fn jump_credits_the_mover_and_ends_the_chain() {
    let (mut game, mv) = forced_jump_game();
    let next = game.catch_marble(mv).unwrap();
    assert_eq!(next, None);
    let board = game.get_board();
    assert_eq!(board.get(c(0, 0)), Some(&Ring::Vacant));
    assert_eq!(board.get(c(0, 1)), Some(&Ring::Vacant));
    assert_eq!(board.get(c(0, 2)), Some(&Ring::Occupied(Marble::White)));
    assert_eq!(game.get_score(Player::Alice), MarbleCount { white_count: 0, gray_count: 1, black_count: 0 });
    assert_eq!(game.get_current_player(), Player::Bob);
    assert_eq!(game.get_game_state(), GameState::PutMarble);
    assert_eq!(game.get_history_len(), 1);
    assert_conserved(&game);
}

#[test]
fn jump_not_offered_is_refused() {
    let (mut game, _) = forced_jump_game();
    let bogus = CatchableMove {
        start_coord: c(3, 3),
        catched_coord: c(3, 4),
        marble_land_coord: c(3, 5),
    };
    assert_eq!(game.catch_marble(bogus), Err(ZertzError::InvalidInputData));
    assert_eq!(game.get_game_state(), GameState::CatchMarble);
}

#[test]
fn ring_removal_clears_the_repetition_record() {
    let (mut game, mv) = forced_jump_game();
    game.catch_marble(mv).unwrap();
    assert_eq!(game.get_history_len(), 1);
    game.put_marble(c(3, 3), c(6, 5), Marble::Black).unwrap();
    assert_eq!(game.get_history_len(), 0);
    assert_eq!(game.get_repeat_count(), 0);
}

#[test]
fn placement_errors() {
    let mut game = started(BoardKind::Rings37);
    // No ring there.
    assert_eq!(game.put_marble(c(6, 0), c(0, 0), Marble::White), Err(ZertzError::InvalidPuttingMarble));
    // Off the grid.
    assert_eq!(game.put_marble(c(9, 9), c(0, 0), Marble::White), Err(ZertzError::InvalidPuttingMarble));
    // An inner ring cannot be removed.
    assert_eq!(game.put_marble(c(0, 0), c(3, 3), Marble::White), Err(ZertzError::InvalidRingToRemove));
    // The ring just filled cannot be removed either.
    assert_eq!(game.put_marble(c(0, 0), c(0, 0), Marble::White), Err(ZertzError::InvalidRingToRemove));
    // Nothing changed on error.
    assert_eq!(game.get_board().get(c(0, 0)), Some(&Ring::Vacant));
    assert_eq!(game.get_pool().white_count, 6);
    assert_eq!(game.get_current_player(), Player::Alice);
    // A filled ring takes no marble.
    game.put_marble(c(0, 0), c(1, 0), Marble::White).unwrap();
    game.check_catchable().unwrap();
    assert_eq!(game.put_marble(c(0, 0), c(2, 0), Marble::Gray), Err(ZertzError::InvalidPuttingMarble));
}

#[test]
fn empty_pool_and_stock_refuse_the_colour() {
    let mut game = started(BoardKind::Rings61);
    let spots = [(4, 4), (2, 2), (6, 6), (2, 5), (6, 3), (4, 7)];
    let rims = [(0, 0), (1, 0), (2, 0), (3, 0), (4, 0), (0, 1)];
    for k in 0..6 {
        let (px, py) = spots[k];
        let (rx, ry) = rims[k];
        game.put_marble(c(px, py), c(rx, ry), Marble::White).unwrap();
        let found = game.check_catchable().unwrap();
        assert!(found.is_empty());
    }
    assert_eq!(game.get_pool().white_count, 0);
    assert_eq!(
        game.put_marble(c(4, 5), c(0, 2), Marble::White),
        Err(ZertzError::InvalidPuttingMarble)
    );
    assert_conserved(&game);
}

/// A position on the small board with rings only at (0,0) white, (0,1)
/// gray, and vacant rings at (1,0), (2,0), (3,0).
fn sealed_position() -> Game {
    let mut game = Game::new(BoardKind::Rings37);
    let mut board = game.get_board();
    for i in 0..81 {
        board.data[i] = Ring::Empty;
    }
    board.data[0] = Ring::Occupied(Marble::White);
    board.data[9] = Ring::Occupied(Marble::Gray);
    board.data[1] = Ring::Vacant;
    board.data[2] = Ring::Vacant;
    board.data[3] = Ring::Vacant;
    let zero = MarbleCount { white_count: 0, gray_count: 0, black_count: 0 };
    let pool = MarbleCount { white_count: 5, gray_count: 7, black_count: 10 };
    game.restore(board, Player::Alice, [zero, zero], pool);
    game
}

#[test]
fn sealed_pair_is_captured_by_the_mover() {
    let mut game = sealed_position();
    assert!(game.check_catchable().unwrap().is_empty());
    game.put_marble(c(2, 0), c(1, 0), Marble::Black).unwrap();
    let board = game.get_board();
    assert_eq!(board.get(c(0, 0)), Some(&Ring::Empty));
    assert_eq!(board.get(c(0, 1)), Some(&Ring::Empty));
    assert_eq!(board.get(c(1, 0)), Some(&Ring::Empty));
    assert_eq!(board.get(c(2, 0)), Some(&Ring::Occupied(Marble::Black)));
    assert_eq!(board.get(c(3, 0)), Some(&Ring::Vacant));
    assert_eq!(game.get_score(Player::Alice), MarbleCount { white_count: 1, gray_count: 1, black_count: 0 });
    assert_eq!(game.get_score(Player::Bob), MarbleCount { white_count: 0, gray_count: 0, black_count: 0 });
    assert_eq!(game.get_current_player(), Player::Bob);
    assert_conserved(&game);
}

#[test]
fn lone_marble_cut_off_is_captured() {
    let mut game = sealed_position();
    game.check_catchable().unwrap();
    // Filling (3, 0) and removing (2, 0) leaves (3, 0) alone: it goes too.
    game.put_marble(c(3, 0), c(2, 0), Marble::Black).unwrap();
    let board = game.get_board();
    assert_eq!(board.get(c(3, 0)), Some(&Ring::Empty));
    assert_eq!(board.get(c(1, 0)), Some(&Ring::Vacant));
    assert_eq!(board.get(c(0, 0)), Some(&Ring::Occupied(Marble::White)));
    assert_eq!(game.get_score(Player::Alice), MarbleCount { white_count: 0, gray_count: 0, black_count: 1 });
}

#[test]
fn rebuild_twice_gives_the_same_classes() {
    let mut game = sealed_position();
    game.calculate_components();
    let first = game.component_roots();
    game.calculate_components();
    let second = game.component_roots();
    assert_eq!(first, second);
    // Every cell without a ring shares the outside's class; the two
    // marbles and the vacant rings form one class of rings.
    assert_eq!(first[80], first[8]);
    assert_eq!(first[0], first[9]);
    assert_eq!(first[0], first[3]);
    assert_ne!(first[0], first[8]);
}

#[test]
fn marble_count_thresholds() {
    let mut m = MarbleCount { white_count: 3, gray_count: 3, black_count: 2 };
    assert!(!m.is_win());
    m.inc(Marble::Black);
    assert!(m.is_win());
    assert!(MarbleCount { white_count: 4, gray_count: 0, black_count: 0 }.is_win());
    assert!(MarbleCount { white_count: 0, gray_count: 5, black_count: 0 }.is_win());
    assert!(MarbleCount { white_count: 0, gray_count: 0, black_count: 6 }.is_win());
    assert!(!MarbleCount { white_count: 3, gray_count: 2, black_count: 5 }.is_win());
    assert!(MarbleCount { white_count: 3, gray_count: 4, black_count: 5 }.is_win());
    let mut e = MarbleCount { white_count: 0, gray_count: 1, black_count: 0 };
    assert!(!e.dec(Marble::White));
    assert!(e.dec(Marble::Gray));
    assert_eq!(e.gray_count, 0);
}

#[test]
fn player_turns_alternate() {
    let mut p = Player::Alice;
    p.change_player();
    assert_eq!(p, Player::Bob);
    p.change_player();
    assert_eq!(p, Player::Alice);
    let mut t = Player::Tie;
    t.change_player();
    assert_eq!(t, Player::Tie);
    assert_eq!(Player::Bob.index(), 1);
}

#[test]
fn captures_win_the_game() {
    // Alice holds three white already; one more white wins.
    let mut game = Game::new(BoardKind::Rings37);
    let mut board = game.get_board();
    for i in 0..81 {
        board.data[i] = Ring::Empty;
    }
    board.data[0] = Ring::Occupied(Marble::White);
    board.data[1] = Ring::Vacant;
    board.data[2] = Ring::Vacant;
    let three = MarbleCount { white_count: 3, gray_count: 0, black_count: 0 };
    let zero = MarbleCount { white_count: 0, gray_count: 0, black_count: 0 };
    let pool = MarbleCount { white_count: 2, gray_count: 8, black_count: 10 };
    game.restore(board, Player::Alice, [three, zero], pool);
    game.check_catchable().unwrap();
    // Filling (1, 0) and removing (2, 0) cuts (0, 0) and (1, 0) off.
    game.put_marble(c(1, 0), c(2, 0), Marble::Gray).unwrap();
    assert_eq!(game.get_game_state(), GameState::GameEnd(Player::Alice));
    assert_eq!(game.get_score(Player::Alice), MarbleCount { white_count: 4, gray_count: 1, black_count: 0 });
    assert_conserved(&game);
}

#[test]
fn repeated_board_counts_and_removal_resets_the_count() {
    let (mut game, mv) = forced_jump_game();
    let board = game.get_board();
    let scores = [game.get_score(Player::Alice), game.get_score(Player::Bob)];
    let pool = game.get_pool();
    game.catch_marble(mv).unwrap();
    assert_eq!(game.get_repeat_count(), 0);
    assert_eq!(game.get_history_len(), 1);
    // Back to the position before the jump, and the same jump again: the
    // board it gives was recorded already.
    game.restore(board, Player::Alice, scores, pool);
    assert_eq!(game.check_catchable().unwrap(), vec![mv]);
    game.catch_marble(mv).unwrap();
    assert_eq!(game.get_repeat_count(), 1);
    assert_eq!(game.get_history_len(), 2);
    assert_eq!(game.get_game_state(), GameState::PutMarble);
    // A ring removal clears both.
    game.put_marble(c(3, 3), c(6, 5), Marble::Black).unwrap();
    assert_eq!(game.get_repeat_count(), 0);
    assert_eq!(game.get_history_len(), 0);
    assert_conserved(&game);
}

#[test]
fn third_repetition_ties_the_game() {
    let (mut game, mv) = forced_jump_game();
    let board = game.get_board();
    let scores = [game.get_score(Player::Alice), game.get_score(Player::Bob)];
    let pool = game.get_pool();
    game.catch_marble(mv).unwrap();
    for expected in 1..=2 {
        game.restore(board, Player::Alice, scores, pool);
        game.check_catchable().unwrap();
        game.catch_marble(mv).unwrap();
        assert_eq!(game.get_repeat_count(), expected);
        assert_eq!(game.get_game_state(), GameState::PutMarble);
    }
    game.restore(board, Player::Alice, scores, pool);
    game.check_catchable().unwrap();
    game.catch_marble(mv).unwrap();
    assert_eq!(game.get_repeat_count(), 3);
    assert_eq!(game.get_game_state(), GameState::GameEnd(Player::Tie));
}

#[test]
fn full_count_ties_only_on_a_repeated_board() {
    let (mut game, mv) = forced_jump_game();
    let board = game.get_board();
    let scores = [game.get_score(Player::Alice), game.get_score(Player::Bob)];
    let pool = game.get_pool();
    game.catch_marble(mv).unwrap();
    for _ in 0..3 {
        game.restore(board, Player::Alice, scores, pool);
        game.check_catchable().unwrap();
        game.catch_marble(mv).unwrap();
    }
    assert_eq!(game.get_repeat_count(), 3);
    assert_eq!(game.get_game_state(), GameState::GameEnd(Player::Tie));
    // Take the position back with one more marble on the board: the same
    // jump now gives a board never recorded, and the game goes on.
    let mut other = board;
    other.data[3 + 9 * 3] = Ring::Occupied(Marble::Black);
    let mut fewer = pool;
    fewer.black_count -= 1;
    game.restore(other, Player::Alice, scores, fewer);
    assert_eq!(game.check_catchable().unwrap(), vec![mv]);
    game.catch_marble(mv).unwrap();
    assert_eq!(game.get_repeat_count(), 3);
    assert_eq!(game.get_game_state(), GameState::PutMarble);
    assert_conserved(&game);
}
