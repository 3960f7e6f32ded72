use tetris::field::new_field;
use tetris::shapes::{spawn, TetriminoGenerator, TetriminoI, TetriminoO, TetriminoS, TetriminoT};
use tetris::tetrimino::{Kind, KICKS};

#[test]
fn change_position_moves_a_piece_that_fits() {
    let field = new_field(16, 10);
    let mut piece = TetriminoT::new();
    assert!(piece.change_position(&field, 3, 0));
    assert_eq!((piece.x, piece.y), (3, 0));
    assert!(piece.change_position(&field, 3, 1));
    assert_eq!((piece.x, piece.y), (3, 1));
    assert!(piece.change_position(&field, 7, 14));
    assert_eq!((piece.x, piece.y), (7, 14));
}

#[test]
fn change_position_leaves_a_rejected_piece_alone() {
    let field = new_field(16, 10);
    let mut piece = TetriminoT::new();
    let before = piece.clone();
    assert!(!piece.change_position(&field, 8, 0));
    assert_eq!(piece, before);
    assert!(!piece.change_position(&field, -1, 0));
    assert_eq!(piece, before);
    assert!(!piece.change_position(&field, 4, 15));
    assert_eq!(piece, before);
}

#[test]
fn bar_rotates_on_an_empty_field() {
    let field = new_field(16, 10);
    let mut piece = TetriminoI::new();
    assert_eq!((piece.x, piece.y, piece.current_state), (4, 0, 0));
    piece.rotate(&field);
    assert_eq!(piece.current_state, 1);
    assert_eq!((piece.x, piece.y), (4, 0));
    assert!(piece.test_current_position(&field));
    piece.rotate(&field);
    assert_eq!(piece.current_state, 0);
    assert_eq!((piece.x, piece.y), (4, 0));
    assert!(piece.test_current_position(&field));
}

#[test]
fn rotation_goes_through_the_states_in_order() {
    let field = new_field(16, 10);
    let mut piece = TetriminoT::new();
    for expected in [1u8, 2, 3, 0, 1] {
        piece.rotate(&field);
        assert_eq!(piece.current_state, expected);
        assert_eq!((piece.x, piece.y), (4, 0));
    }
    let mut square = TetriminoO::new();
    square.rotate(&field);
    assert_eq!((square.x, square.y, square.current_state), (5, 0, 0));
}

#[test]
fn kicks_are_tried_in_their_order() {
    assert_eq!(KICKS, [0, -1, 1, -2, 2, -3]);
}

#[test]
fn standing_bar_at_the_right_wall_is_kicked_two_columns_left() {
    let field = new_field(16, 10);
    let mut piece = TetriminoI::new();
    piece.current_state = 1;
    piece.x = 8;
    piece.y = 3;
    assert!(piece.test_current_position(&field));
    piece.rotate(&field);
    assert_eq!(piece.current_state, 0);
    assert_eq!((piece.x, piece.y), (6, 3));
    assert!(piece.test_current_position(&field));
}

#[test]
fn first_kick_that_fits_wins_over_a_later_one() {
    // The S piece, lying, at column 3: standing it takes columns 4 and 5.
    // With the cell at column 4 of the top row taken, the unmoved rotation
    // collides; one column to the left and one to the right both fit, and
    // the left one comes first.
    let mut field = new_field(16, 10);
    field[0][4] = 1;
    let mut piece = TetriminoS::new();
    piece.x = 3;
    piece.y = 0;
    piece.current_state = 0;
    assert!(!piece.test_position(&field, 1, 3, 0));
    assert!(piece.test_position(&field, 1, 2, 0));
    assert!(piece.test_position(&field, 1, 4, 0));
    piece.rotate(&field);
    assert_eq!(piece.current_state, 1);
    assert_eq!((piece.x, piece.y), (2, 0));
}

#[test]
fn kick_to_the_right_is_taken_when_the_left_is_blocked() {
    let mut field = new_field(16, 10);
    field[0][4] = 1;
    field[1][3] = 1;
    let mut piece = TetriminoS::new();
    piece.x = 3;
    assert!(!piece.test_position(&field, 1, 3, 0));
    assert!(!piece.test_position(&field, 1, 2, 0));
    assert!(piece.test_position(&field, 1, 4, 0));
    piece.rotate(&field);
    assert_eq!(piece.current_state, 1);
    assert_eq!((piece.x, piece.y), (4, 0));
}

#[test]
fn rotation_without_a_kick_that_fits_changes_nothing() {
    let field = new_field(16, 3);
    let mut piece = TetriminoI::new();
    piece.current_state = 1;
    piece.x = 0;
    piece.y = 2;
    assert!(piece.test_current_position(&field));
    let before = piece.clone();
    piece.rotate(&field);
    assert_eq!(piece, before);
}

#[test]
fn rotation_fits_or_changes_nothing_everywhere() {
    let mut field = new_field(8, 6);
    field[7] = vec![1, 1, 0, 1, 1, 1];
    field[6] = vec![0, 0, 0, 2, 2, 0];
    field[3][1] = 5;
    for kind in [Kind::I, Kind::J, Kind::L, Kind::O, Kind::S, Kind::Z, Kind::T] {
        let states = spawn(kind).states.len();
        for state in 0..states {
            for x in -4isize..8 {
                for y in 0usize..9 {
                    let mut piece = spawn(kind);
                    piece.current_state = state as u8;
                    piece.x = x;
                    piece.y = y;
                    let before = piece.clone();
                    piece.rotate(&field);
                    assert_eq!(piece.states, before.states);
                    assert_eq!(piece.kind, before.kind);
                    assert_eq!(piece.y, before.y);
                    if piece != before {
                        assert!(piece.test_current_position(&field));
                        assert_eq!(piece.current_state as usize, (state + 1) % states);
                    }
                }
            }
        }
    }
}

#[test]
fn rotation_at_the_ends_of_the_number_range_changes_nothing() {
    let field = new_field(16, 10);
    for x in [isize::MAX, isize::MAX - 1, isize::MIN, isize::MIN + 2] {
        let mut piece = TetriminoT::new();
        piece.x = x;
        let before = piece.clone();
        piece.rotate(&field);
        assert_eq!(piece, before);
    }
}

#[test]
fn drop_down_falls_to_the_floor() {
    let field = new_field(16, 10);
    let mut piece = TetriminoI::new();
    piece.drop_down(&field);
    assert_eq!((piece.x, piece.y, piece.current_state), (4, 15, 0));
    let mut square = TetriminoO::new();
    square.drop_down(&field);
    assert_eq!((square.x, square.y), (5, 14));
}

#[test]
fn drop_down_stops_on_what_lies_below() {
    let mut field = new_field(16, 10);
    field[10][6] = 3;
    let mut piece = TetriminoI::new();
    piece.drop_down(&field);
    assert_eq!((piece.x, piece.y), (4, 9));
    let mut standing = TetriminoI::new();
    standing.current_state = 1;
    standing.x = 5;
    standing.drop_down(&field);
    assert_eq!((standing.x, standing.y), (5, 6));
}

#[test]
fn drop_down_of_a_resting_piece_changes_nothing() {
    let field = new_field(16, 10);
    let mut piece = TetriminoI::new();
    piece.y = 15;
    let before = piece.clone();
    piece.drop_down(&field);
    assert_eq!(piece, before);
    // A piece that is out of the field does not move either.
    let mut lost = TetriminoI::new();
    lost.y = usize::MAX;
    let before = lost.clone();
    lost.drop_down(&field);
    assert_eq!(lost, before);
}

#[test]
fn respawn_puts_the_piece_where_it_enters() {
    let mut piece = TetriminoT::new();
    piece.x = 1;
    piece.y = 9;
    piece.current_state = 3;
    piece.respawn();
    assert_eq!(piece, TetriminoT::new());
    let mut square = TetriminoO::new();
    square.x = 0;
    square.y = 3;
    square.respawn();
    assert_eq!((square.x, square.y, square.current_state), (5, 0, 0));
}

#[test]
fn clone_is_a_piece_of_its_own() {
    let piece = TetriminoS::new();
    let mut copy = piece.clone();
    assert_eq!(copy, piece);
    copy.x = 0;
    copy.states[0][0][0] = 5;
    assert_eq!(piece, TetriminoS::new());
}
