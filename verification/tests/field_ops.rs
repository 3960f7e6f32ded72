use tetris::field::{
    clear_full_rows, is_field_well_formed, is_row_full, new_field, new_row, stamp,
};
use tetris::shapes::{TetriminoGenerator, TetriminoI, TetriminoT};

#[test]
fn new_field_is_empty_and_rectangular() {
    let field = new_field(16, 10);
    assert_eq!(field.len(), 16);
    for row in &field {
        assert_eq!(row, &vec![0u8; 10]);
    }
    assert!(is_field_well_formed(&field));
    assert_eq!(new_row(3), vec![0, 0, 0]);
    assert_eq!(new_row(0), Vec::<u8>::new());
    assert_eq!(new_field(0, 10), Vec::<Vec<u8>>::new());
}

#[test]
fn field_well_formedness() {
    assert!(is_field_well_formed(&new_field(0, 0)));
    assert!(is_field_well_formed(&new_field(2, 1)));
    assert!(!is_field_well_formed(&new_field(2, 0)));
    assert!(!is_field_well_formed(&vec![vec![0u8; 3], vec![0u8; 4]]));
    assert!(is_field_well_formed(&vec![vec![0, 7, 1], vec![3, 0, 0]]));
    assert!(!is_field_well_formed(&vec![vec![0, 7, 1], vec![3, 8, 0]]));
}

#[test]
fn full_row_has_no_empty_cell() {
    assert!(is_row_full(&vec![1, 2, 3, 7]));
    assert!(!is_row_full(&vec![1, 0, 3, 7]));
    assert!(!is_row_full(&vec![0, 0]));
    assert!(is_row_full(&Vec::new()));
}

#[test]
fn stamp_writes_the_value_under_the_cells_of_the_piece() {
    let mut field = new_field(4, 6);
    let piece = TetriminoT::new();
    stamp(&mut field, &piece.states[0], 1, 2, 7);
    assert_eq!(
        field,
        vec![
            vec![0, 0, 0, 0, 0, 0],
            vec![0, 0, 0, 0, 0, 0],
            vec![0, 7, 7, 7, 0, 0],
            vec![0, 0, 7, 0, 0, 0],
        ]
    );
    // What lay under empty cells of the grid stays.
    let mut other = vec![vec![1u8; 6]; 4];
    stamp(&mut other, &piece.states[0], 1, 2, 7);
    assert_eq!(
        other,
        vec![
            vec![1, 1, 1, 1, 1, 1],
            vec![1, 1, 1, 1, 1, 1],
            vec![1, 7, 7, 7, 1, 1],
            vec![1, 1, 7, 1, 1, 1],
        ]
    );
}

#[test]
fn stamp_writes_the_given_value_and_not_the_cell_of_the_grid() {
    let mut field = new_field(2, 4);
    let piece = TetriminoI::new();
    stamp(&mut field, &piece.states[0], 0, 1, 5);
    assert_eq!(field, vec![vec![0, 0, 0, 0], vec![5, 5, 5, 5]]);
}

#[test]
fn stamp_passes_over_cells_outside_the_field() {
    let mut field = new_field(3, 3);
    let piece = TetriminoI::new();
    stamp(&mut field, &piece.states[0], -2, 0, 1);
    assert_eq!(field, vec![vec![1, 1, 0], vec![0, 0, 0], vec![0, 0, 0]]);
    stamp(&mut field, &piece.states[1], 1, 1, 1);
    assert_eq!(field, vec![vec![1, 1, 0], vec![0, 0, 1], vec![0, 0, 1]]);
    let before = field.clone();
    stamp(&mut field, &piece.states[0], 3, 0, 1);
    stamp(&mut field, &piece.states[0], 0, 3, 1);
    stamp(&mut field, &piece.states[0], isize::MAX, usize::MAX, 1);
    stamp(&mut field, &piece.states[0], isize::MIN, 0, 1);
    assert_eq!(field, before);
}

#[test]
fn clearing_takes_out_the_full_rows_and_lets_the_rest_sink() {
    let mut field = vec![
        vec![0, 0, 0],
        vec![1, 0, 0],
        vec![2, 2, 2],
        vec![0, 3, 0],
        vec![4, 4, 4],
        vec![5, 0, 5],
    ];
    let removed = clear_full_rows(&mut field);
    assert_eq!(removed, 2);
    assert_eq!(
        field,
        vec![
            vec![0, 0, 0],
            vec![0, 0, 0],
            vec![0, 0, 0],
            vec![1, 0, 0],
            vec![0, 3, 0],
            vec![5, 0, 5],
        ]
    );
}

#[test]
fn clearing_a_field_without_full_rows_changes_nothing() {
    let mut field = vec![vec![0, 1], vec![1, 0], vec![0, 0]];
    let before = field.clone();
    assert_eq!(clear_full_rows(&mut field), 0);
    assert_eq!(field, before);
    let mut none: Vec<Vec<u8>> = Vec::new();
    assert_eq!(clear_full_rows(&mut none), 0);
    assert!(none.is_empty());
}

#[test]
fn clearing_a_field_of_full_rows_leaves_it_empty() {
    let mut field = vec![vec![1, 1], vec![2, 2], vec![3, 3]];
    assert_eq!(clear_full_rows(&mut field), 3);
    assert_eq!(field, new_field(3, 2));
}

#[test]
fn no_row_is_full_after_clearing() {
    let mut field = vec![
        vec![1, 1, 1, 1],
        vec![1, 0, 1, 1],
        vec![1, 1, 1, 1],
        vec![1, 1, 1, 1],
        vec![0, 0, 0, 1],
        vec![7, 7, 7, 7],
    ];
    let rows = field.len();
    let removed = clear_full_rows(&mut field);
    assert_eq!(removed, 4);
    assert_eq!(field.len(), rows);
    for row in &field {
        assert!(!is_row_full(row));
        assert_eq!(row.len(), 4);
    }
    assert_eq!(field[4], vec![1, 0, 1, 1]);
    assert_eq!(field[5], vec![0, 0, 0, 1]);
}
