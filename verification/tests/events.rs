use tetris::event::{handle_events, handle_events_with, EventOutcome, Intent};
use tetris::field::new_field;
use tetris::shapes::{spawn, TetriminoGenerator, TetriminoI, TetriminoO, TetriminoT};
use tetris::tetrimino::Kind;
use tetris::tetris::Tetris;

fn game_with(current: Kind, next: Kind) -> Tetris {
    let mut game = Tetris::with_next(current);
    assert!(game.spawn_next_with(next));
    game
}

const QUIET: EventOutcome = EventOutcome { locked: false, quit: false, timer_reset: false };

#[test]
fn frame_without_intents_changes_nothing() {
    let mut game = game_with(Kind::T, Kind::I);
    let before = game.clone();
    assert_eq!(handle_events_with(&mut game, &[], Kind::O), QUIET);
    assert_eq!(game, before);
}

#[test]
fn intents_without_a_falling_piece_do_nothing() {
    let mut game = Tetris::with_next(Kind::T);
    let before = game.clone();
    let intents = [Intent::Quit, Intent::Down, Intent::Hold, Intent::HardDrop];
    assert_eq!(handle_events_with(&mut game, &intents, Kind::O), QUIET);
    assert_eq!(game, before);
    assert_eq!(handle_events(&mut game, &intents), QUIET);
    assert_eq!(game, before);
}

#[test]
fn moves_add_up_to_one_target() {
    let mut game = game_with(Kind::T, Kind::I);
    let intents = [Intent::Left, Intent::Left, Intent::Down, Intent::Right, Intent::Left];
    let outcome = handle_events_with(&mut game, &intents, Kind::O);
    assert_eq!(outcome, EventOutcome { locked: false, quit: false, timer_reset: true });
    let piece = game.current_piece.as_ref().unwrap();
    assert_eq!((piece.x, piece.y, piece.current_state), (2, 1, 0));
}

#[test]
fn target_that_does_not_fit_in_the_same_row_leaves_the_piece() {
    let mut game = game_with(Kind::T, Kind::I);
    let before = game.clone();
    let intents = [Intent::Left; 5];
    assert_eq!(handle_events_with(&mut game, &intents, Kind::O), QUIET);
    assert_eq!(game, before);
    let intents = [Intent::Right; 4];
    assert_eq!(handle_events_with(&mut game, &intents, Kind::O), QUIET);
    assert_eq!(game, before);
}

#[test]
fn target_that_does_not_fit_in_another_row_locks_the_piece() {
    let mut game = game_with(Kind::O, Kind::I);
    let intents = [Intent::Down; 15];
    let outcome = handle_events_with(&mut game, &intents, Kind::T);
    assert_eq!(outcome, EventOutcome { locked: true, quit: false, timer_reset: true });
    assert_eq!(game.current_piece, None);
    assert_eq!(game.game_map[0], vec![0, 0, 0, 0, 0, 4, 4, 0, 0, 0]);
    assert_eq!(game.game_map[1], vec![0, 0, 0, 0, 0, 4, 4, 0, 0, 0]);
}

#[test]
fn soft_drop_counts_the_time_anew() {
    let mut game = game_with(Kind::O, Kind::I);
    let outcome = handle_events_with(&mut game, &[Intent::Down], Kind::T);
    assert_eq!(outcome, EventOutcome { locked: false, quit: false, timer_reset: true });
    assert_eq!(game.current_piece.as_ref().unwrap().y, 1);
}

#[test]
fn rotation_acts_at_once_and_the_target_starts_from_the_old_column() {
    // The standing bar at the right wall is kicked two columns to the left
    // by the rotation; the move to the left then goes by the column that the
    // piece had when the frame began.
    let mut game = game_with(Kind::I, Kind::T);
    let piece = game.current_piece.as_mut().unwrap();
    piece.current_state = 1;
    piece.x = 8;
    piece.y = 2;
    let outcome = handle_events_with(&mut game, &[Intent::Rotate, Intent::Left], Kind::O);
    assert_eq!(outcome, QUIET);
    let piece = game.current_piece.as_ref().unwrap();
    assert_eq!((piece.x, piece.y, piece.current_state), (6, 2, 0));
    // Without the move the piece is asked to go back to column 8, where it does not fit.
    let outcome = handle_events_with(&mut game, &[Intent::Rotate], Kind::O);
    assert_eq!(outcome, QUIET);
    let piece = game.current_piece.as_ref().unwrap();
    assert_eq!((piece.x, piece.y, piece.current_state), (6, 2, 1));
}

#[test]
fn hard_drop_locks_and_later_moves_are_lost() {
    let mut game = game_with(Kind::I, Kind::T);
    let intents = [Intent::Left, Intent::HardDrop, Intent::Left, Intent::Down];
    let outcome = handle_events_with(&mut game, &intents, Kind::O);
    assert_eq!(outcome, EventOutcome { locked: true, quit: false, timer_reset: true });
    assert_eq!(game.current_piece, None);
    assert_eq!(game.game_map[15], vec![0, 0, 0, 0, 1, 1, 1, 1, 0, 0]);
    assert_eq!(game.next_piece, TetriminoT::new());
}

#[test]
fn quit_drops_the_intents_that_follow() {
    let mut game = game_with(Kind::T, Kind::I);
    let intents = [Intent::Left, Intent::Quit, Intent::Left, Intent::HardDrop, Intent::Hold];
    let outcome = handle_events_with(&mut game, &intents, Kind::O);
    assert_eq!(outcome, EventOutcome { locked: false, quit: true, timer_reset: false });
    let piece = game.current_piece.as_ref().unwrap();
    assert_eq!((piece.x, piece.y), (3, 0));
    assert_eq!(game.holding_piece, None);
    assert_eq!(game.game_map, new_field(16, 10));
}

#[test]
fn hold_comes_last() {
    let mut game = game_with(Kind::T, Kind::I);
    let intents = [Intent::Hold, Intent::Left, Intent::Rotate];
    let outcome = handle_events_with(&mut game, &intents, Kind::O);
    assert_eq!(outcome, QUIET);
    assert_eq!(game.holding_piece, Some(TetriminoT::new()));
    assert_eq!(game.current_piece, Some(TetriminoI::new()));
    assert_eq!(game.next_piece, TetriminoO::new());
}

#[test]
fn hold_after_a_hard_drop_finds_no_piece() {
    let mut game = game_with(Kind::I, Kind::T);
    let intents = [Intent::Hold, Intent::HardDrop];
    let outcome = handle_events_with(&mut game, &intents, Kind::O);
    assert_eq!(outcome, EventOutcome { locked: true, quit: false, timer_reset: true });
    assert_eq!(game.current_piece, None);
    assert_eq!(game.holding_piece, None);
    assert_eq!(game.next_piece, TetriminoT::new());
}

#[test]
fn random_frame_draws_for_a_hold_only() {
    let mut game = game_with(Kind::T, Kind::I);
    let outcome = handle_events(&mut game, &[Intent::Right, Intent::Hold]);
    assert_eq!(outcome, QUIET);
    assert_eq!(game.holding_piece, Some(TetriminoT::new()));
    assert_eq!(game.current_piece, Some(TetriminoI::new()));
    assert_eq!(game.next_piece, spawn(game.next_piece.kind));
    assert!(game.is_well_formed());
    let waiting = game.next_piece.clone();
    let outcome = handle_events(&mut game, &[Intent::Right, Intent::Down]);
    assert_eq!(outcome, EventOutcome { locked: false, quit: false, timer_reset: true });
    assert_eq!(game.next_piece, waiting);
    let piece = game.current_piece.as_ref().unwrap();
    assert_eq!((piece.x, piece.y), (5, 1));
}

#[test]
fn very_many_moves_do_not_overflow() {
    let mut game = game_with(Kind::T, Kind::I);
    let piece = game.current_piece.as_mut().unwrap();
    piece.x = isize::MAX - 1;
    let before = game.clone();
    let intents = [Intent::Right; 4];
    assert_eq!(handle_events_with(&mut game, &intents, Kind::O), QUIET);
    assert_eq!(game, before);
    let piece = game.current_piece.as_mut().unwrap();
    piece.x = isize::MIN + 1;
    let before = game.clone();
    let intents = [Intent::Left; 4];
    assert_eq!(handle_events_with(&mut game, &intents, Kind::O), QUIET);
    assert_eq!(game, before);
}
