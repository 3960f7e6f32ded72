use tetris::field::new_field;
use tetris::shapes::{
    TetriminoGenerator, TetriminoI, TetriminoJ, TetriminoL, TetriminoO, TetriminoS, TetriminoT,
    TetriminoZ,
};
use tetris::tetrimino::{is_shape_well_formed, shape_fits, Kind, Tetrimino};

#[test]
fn every_piece_fits_where_it_enters_an_empty_field() {
    let field = new_field(16, 10);
    let pieces = vec![
        TetriminoI::new(),
        TetriminoJ::new(),
        TetriminoL::new(),
        TetriminoO::new(),
        TetriminoS::new(),
        TetriminoZ::new(),
        TetriminoT::new(),
    ];
    for piece in &pieces {
        assert!(piece.is_well_formed());
        assert!(piece.test_current_position(&field));
    }
}

#[test]
fn catalogue_holds_the_classic_shapes() {
    let i = TetriminoI::new();
    assert_eq!(i.kind, Kind::I);
    assert_eq!(i.states.len(), 2);
    assert_eq!(
        i.states[0],
        vec![vec![1, 1, 1, 1], vec![0, 0, 0, 0], vec![0, 0, 0, 0], vec![0, 0, 0, 0]]
    );
    assert_eq!(
        i.states[1],
        vec![vec![0, 1, 0, 0], vec![0, 1, 0, 0], vec![0, 1, 0, 0], vec![0, 1, 0, 0]]
    );
    assert_eq!((i.x, i.y, i.current_state), (4, 0, 0));

    let j = TetriminoJ::new();
    assert_eq!(j.states.len(), 4);
    assert_eq!(
        j.states[3],
        vec![vec![2, 0, 0, 0], vec![2, 0, 0, 0], vec![2, 2, 0, 0], vec![0, 0, 0, 0]]
    );
    let l = TetriminoL::new();
    assert_eq!(l.states.len(), 4);
    assert_eq!(
        l.states[1],
        vec![vec![0, 3, 0, 0], vec![0, 3, 0, 0], vec![3, 3, 0, 0], vec![0, 0, 0, 0]]
    );
    let o = TetriminoO::new();
    assert_eq!(o.states.len(), 1);
    assert_eq!(
        o.states[0],
        vec![vec![4, 4, 0, 0], vec![4, 4, 0, 0], vec![0, 0, 0, 0], vec![0, 0, 0, 0]]
    );
    assert_eq!((o.x, o.y, o.current_state), (5, 0, 0));
    let s = TetriminoS::new();
    assert_eq!(s.states.len(), 2);
    assert_eq!(
        s.states[0],
        vec![vec![0, 5, 5, 0], vec![5, 5, 0, 0], vec![0, 0, 0, 0], vec![0, 0, 0, 0]]
    );
    let z = TetriminoZ::new();
    assert_eq!(z.states.len(), 2);
    assert_eq!(
        z.states[1],
        vec![vec![0, 0, 6, 0], vec![0, 6, 6, 0], vec![0, 6, 0, 0], vec![0, 0, 0, 0]]
    );
    let t = TetriminoT::new();
    assert_eq!(t.states.len(), 4);
    assert_eq!(
        t.states[2],
        vec![vec![0, 7, 0, 0], vec![7, 7, 7, 0], vec![0, 0, 0, 0], vec![0, 0, 0, 0]]
    );
    assert_eq!((t.x, t.y, t.current_state), (4, 0, 0));
}

#[test]
fn every_state_has_four_cells_of_its_kind() {
    let pieces = vec![
        TetriminoI::new(),
        TetriminoJ::new(),
        TetriminoL::new(),
        TetriminoO::new(),
        TetriminoS::new(),
        TetriminoZ::new(),
        TetriminoT::new(),
    ];
    for (n, piece) in pieces.iter().enumerate() {
        assert_eq!(piece.kind.value() as usize, n + 1);
        for state in &piece.states {
            let mut cells = 0;
            for row in state {
                for cell in row {
                    if *cell != 0 {
                        assert_eq!(*cell, piece.kind.value());
                        cells += 1;
                    }
                }
            }
            assert_eq!(cells, 4);
        }
    }
}

#[test]
fn horizontal_bar_meets_the_right_wall() {
    let field = new_field(16, 10);
    let bar = TetriminoI::new();
    assert!(bar.test_position(&field, 0, 6, 0));
    assert!(!bar.test_position(&field, 0, 7, 0));
}

#[test]
fn empty_cells_of_the_grid_may_lie_outside_the_field() {
    let field = new_field(16, 10);
    let bar = TetriminoI::new();
    // The standing bar fills column 1 of its grid only.
    assert!(bar.test_position(&field, 1, -1, 0));
    assert!(!bar.test_position(&field, 1, -2, 0));
    assert!(bar.test_position(&field, 1, 8, 0));
    assert!(!bar.test_position(&field, 1, 9, 0));
    // The lying bar fills the top row of its grid only.
    assert!(bar.test_position(&field, 0, 0, 15));
    assert!(!bar.test_position(&field, 0, 0, 16));
    let square = TetriminoO::new();
    assert!(square.test_position(&field, 0, 8, 14));
    assert!(!square.test_position(&field, 0, 9, 14));
    assert!(!square.test_position(&field, 0, 8, 15));
}

#[test]
fn taken_cell_rejects_the_piece() {
    let mut field = new_field(16, 10);
    field[1][5] = 3;
    let square = TetriminoO::new();
    assert!(!square.test_position(&field, 0, 5, 0));
    assert!(!square.test_position(&field, 0, 4, 1));
    assert!(square.test_position(&field, 0, 6, 0));
    assert!(square.test_position(&field, 0, 5, 2));
    // A taken cell under an empty cell of the grid does not matter.
    let bar = TetriminoI::new();
    assert!(bar.test_position(&field, 0, 4, 0));
    assert!(!bar.test_position(&field, 0, 4, 1));
}

#[test]
fn oracle_agrees_with_a_cell_by_cell_search() {
    // The placement is refused exactly when some cell of the piece lies
    // outside the field or on a taken cell.
    let mut field = new_field(6, 5);
    field[5][0] = 1;
    field[5][1] = 1;
    field[4][3] = 2;
    field[2][2] = 7;
    let pieces = vec![TetriminoI::new(), TetriminoS::new(), TetriminoT::new(), TetriminoO::new()];
    for piece in &pieces {
        for state in 0..piece.states.len() {
            for x in -4isize..7 {
                for y in 0usize..8 {
                    let mut collision = false;
                    for dy in 0..4usize {
                        for dx in 0..4usize {
                            if piece.states[state][dy][dx] == 0 {
                                continue;
                            }
                            let col = x + dx as isize;
                            let row = y + dy;
                            if row >= field.len()
                                || col < 0
                                || col as usize >= field[row].len()
                                || field[row][col as usize] != 0
                            {
                                collision = true;
                            }
                        }
                    }
                    assert_eq!(piece.test_position(&field, state, x, y), !collision);
                }
            }
        }
    }
}

#[test]
fn oracle_at_the_ends_of_the_number_range() {
    let field = new_field(16, 10);
    let bar = TetriminoI::new();
    assert!(!bar.test_position(&field, 0, isize::MAX, 0));
    assert!(!bar.test_position(&field, 0, isize::MIN, 0));
    assert!(!bar.test_position(&field, 0, 4, usize::MAX));
    assert!(!bar.test_position(&field, 1, isize::MAX, usize::MAX));
}

#[test]
fn nothing_fits_a_field_without_rows() {
    let field = new_field(0, 10);
    let bar = TetriminoI::new();
    assert!(!bar.test_current_position(&field));
}

#[test]
fn oracle_reads_rows_of_different_widths_each_by_its_own() {
    let field = vec![vec![0u8; 10], vec![0u8; 4]];
    let square = TetriminoO::new();
    assert!(square.test_position(&field, 0, 2, 0));
    assert!(!square.test_position(&field, 0, 3, 0));
    let bar = TetriminoI::new();
    assert!(bar.test_position(&field, 0, 6, 0));
    assert!(!bar.test_position(&field, 0, 1, 1));
    assert!(bar.test_position(&field, 0, 0, 1));
}

#[test]
fn shape_fits_is_the_oracle_on_a_bare_grid() {
    let field = new_field(4, 4);
    let grid = vec![vec![0, 0, 0, 0], vec![0, 9, 9, 0], vec![0, 9, 9, 0], vec![0, 0, 0, 0]];
    assert!(shape_fits(&field, &grid, 0, 0));
    assert!(shape_fits(&field, &grid, 1, 1));
    assert!(shape_fits(&field, &grid, -1, 0));
    assert!(!shape_fits(&field, &grid, 2, 0));
    assert!(!shape_fits(&field, &grid, 0, 2));
    // A grid without a cell fits anywhere.
    let nothing = vec![vec![0u8; 4]; 4];
    assert!(shape_fits(&field, &nothing, 100, 100));
}

#[test]
fn well_formedness_of_shapes_and_pieces() {
    let good = vec![vec![0, 2, 0, 0], vec![0, 2, 2, 0], vec![0, 0, 0, 0], vec![0, 0, 0, 0]];
    assert!(is_shape_well_formed(&good, 2));
    assert!(!is_shape_well_formed(&good, 3));
    let mixed = vec![vec![0, 2, 0, 0], vec![0, 3, 2, 0], vec![0, 0, 0, 0], vec![0, 0, 0, 0]];
    assert!(!is_shape_well_formed(&mixed, 2));
    let empty = vec![vec![0u8; 4]; 4];
    assert!(!is_shape_well_formed(&empty, 2));
    let short = vec![vec![2u8; 4]; 3];
    assert!(!is_shape_well_formed(&short, 2));
    let narrow = vec![vec![2u8; 3]; 4];
    assert!(!is_shape_well_formed(&narrow, 2));

    let mut piece = TetriminoT::new();
    assert!(piece.is_well_formed());
    piece.current_state = 4;
    assert!(!piece.is_well_formed());
    piece.current_state = 3;
    assert!(piece.is_well_formed());
    piece.kind = Kind::I;
    assert!(!piece.is_well_formed());
    let none = Tetrimino { kind: Kind::I, states: Vec::new(), x: 0, y: 0, current_state: 0 };
    assert!(!none.is_well_formed());
}
