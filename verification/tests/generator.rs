use tetris::generator::{create_new_tetrimino, is_redraw_needed, kind_from_draws, next_kind};
use tetris::shapes::spawn;
use tetris::tetrimino::Kind;

const KINDS: [Kind; 7] = [Kind::I, Kind::J, Kind::L, Kind::O, Kind::S, Kind::Z, Kind::T];

#[test]
fn kind_values_and_entry_columns() {
    for (n, kind) in KINDS.iter().enumerate() {
        assert_eq!(kind.value() as usize, n + 1);
        assert_eq!(Kind::from_value(n as u8 + 1), Some(*kind));
        assert_eq!(kind.spawn_x(), if *kind == Kind::O { 5 } else { 4 });
    }
    assert_eq!(Kind::from_value(0), None);
    assert_eq!(Kind::from_value(8), None);
    assert_eq!(Kind::from_value(255), None);
}

#[test]
fn draw_selects_the_kind_by_its_remainder() {
    for draw in 0..=255u8 {
        assert_eq!(Kind::from_draw(draw), KINDS[(draw % 7) as usize]);
    }
    assert_eq!(Kind::from_draw(0), Kind::I);
    assert_eq!(Kind::from_draw(6), Kind::T);
    assert_eq!(Kind::from_draw(7), Kind::I);
    assert_eq!(Kind::from_draw(255), Kind::O);
}

#[test]
fn first_draw_stands_unless_it_repeats() {
    assert_eq!(kind_from_draws(None, 0, 3), Kind::I);
    assert_eq!(kind_from_draws(Some(Kind::J), 0, 3), Kind::I);
    assert_eq!(kind_from_draws(Some(Kind::I), 0, 3), Kind::O);
    assert_eq!(kind_from_draws(Some(Kind::I), 7, 13), Kind::T);
    assert!(!is_redraw_needed(None, 0));
    assert!(is_redraw_needed(Some(Kind::I), 0));
    assert!(is_redraw_needed(Some(Kind::I), 14));
    assert!(!is_redraw_needed(Some(Kind::I), 1));
}

#[test]
fn second_draw_is_taken_as_it_comes() {
    // The one retry may repeat the kind.
    assert_eq!(kind_from_draws(Some(Kind::I), 0, 0), Kind::I);
    assert_eq!(kind_from_draws(Some(Kind::T), 6, 13), Kind::T);
}

#[test]
fn no_kind_follows_itself_when_the_draws_differ() {
    for previous in KINDS {
        for first in 0..=255u8 {
            for second in 0..=255u8 {
                let kind = kind_from_draws(Some(previous), first, second);
                if first % 7 != second % 7 {
                    assert_ne!(kind, previous);
                }
                let expected = if KINDS[(first % 7) as usize] == previous {
                    KINDS[(second % 7) as usize]
                } else {
                    KINDS[(first % 7) as usize]
                };
                assert_eq!(kind, expected);
            }
        }
    }
}

#[test]
fn random_pieces_enter_in_their_spawn_pose() {
    let mut previous = None;
    for _ in 0..200 {
        let piece = create_new_tetrimino(previous);
        assert!(piece.is_well_formed());
        assert_eq!(piece, spawn(piece.kind));
        previous = Some(piece.kind);
    }
}

#[test]
fn random_kinds_are_not_all_the_same() {
    let first = next_kind(None);
    let mut other = false;
    for _ in 0..1000 {
        if next_kind(None) != first {
            other = true;
        }
    }
    assert!(other);
}
