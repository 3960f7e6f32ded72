//! The play field: rows of cells, top row first. A cell holds 0 when it is
//! empty and the value of a piece's kind, 1 to 7, when a piece was locked on it.

use crate::tetrimino::{occupied, shape_wf};
use vstd::prelude::*;

verus! {

/// The rows all have one width, which is at least 1, and no cell holds more than 7.
pub open spec fn field_wf(field: Seq<Seq<u8>>) -> bool {
    forall|r: int|
        0 <= r < field.len() ==> {
            &&& (#[trigger] field[r]).len() == field[0].len()
            &&& field[r].len() >= 1
            &&& forall|c: int| 0 <= c < field[r].len() ==> #[trigger] field[r][c] <= 7
        }
}

/// Whether two fields have as many rows, each as wide in the one as in the other.
pub open spec fn same_size(a: Seq<Seq<u8>>, b: Seq<Seq<u8>>) -> bool {
    &&& a.len() == b.len()
    &&& forall|r: int| 0 <= r < a.len() ==> (#[trigger] a[r]).len() == b[r].len()
}

/// A row is full when none of its cells is empty.
pub open spec fn row_full(row: Seq<u8>) -> bool {
    forall|c: int| 0 <= c < row.len() ==> #[trigger] row[c] != 0
}

/// The test that a row passes when it stays in the field at a line clear.
pub open spec fn row_survives() -> spec_fn(Seq<u8>) -> bool {
    |row: Seq<u8>| !row_full(row)
}

/// A row of `width` empty cells.
pub open spec fn empty_row(width: nat) -> Seq<u8> {
    Seq::new(width, |c: int| 0u8)
}

/// `count` empty rows of the given width.
pub open spec fn empty_rows(count: nat, width: nat) -> Seq<Seq<u8>> {
    Seq::new(count, |r: int| empty_row(width))
}

/// The number of full rows of a field.
pub open spec fn full_row_count(field: Seq<Seq<u8>>) -> nat {
    (field.len() - field.filter(row_survives()).len()) as nat
}

/// The field after a line clear: the full rows are gone, the rows above them
/// have moved down, and as many empty rows have come in at the top.
pub open spec fn cleared(field: Seq<Seq<u8>>) -> Seq<Seq<u8>> {
    empty_rows(full_row_count(field), field[0].len()) + field.filter(row_survives())
}

/// Whether the cell at column `c` of row `r` is under a cell of a piece that
/// is anchored at `(x, y)`.
pub open spec fn covered(shape: Seq<Seq<u8>>, x: int, y: int, c: int, r: int) -> bool {
    0 <= c - x < 4 && 0 <= r - y < 4 && occupied(shape, c - x, r - y)
}

/// The field with `value` written into every cell that is under a cell of the piece.
pub open spec fn stamped(field: Seq<Seq<u8>>, shape: Seq<Seq<u8>>, x: int, y: int, value: u8) -> Seq<
    Seq<u8>,
> {
    Seq::new(
        field.len(),
        |r: int|
            Seq::new(
                field[r].len(),
                |c: int|
                    if covered(shape, x, y, c, r) {
                        value
                    } else {
                        field[r][c]
                    },
            ),
    )
}

/// The field with `value` written under the first `n` cells of the piece's
/// grid, counted row by row.
pub open spec fn stamped_upto(
    field: Seq<Seq<u8>>,
    shape: Seq<Seq<u8>>,
    x: int,
    y: int,
    value: u8,
    n: int,
) -> Seq<Seq<u8>> {
    Seq::new(
        field.len(),
        |r: int|
            Seq::new(
                field[r].len(),
                |c: int|
                    if covered(shape, x, y, c, r) && 4 * (r - y) + (c - x) < n {
                        value
                    } else {
                        field[r][c]
                    },
            ),
    )
}

/// After a line clear no row of the field is full.
pub proof fn lemma_cleared_has_no_full_row(field: Seq<Seq<u8>>)
    requires
        field_wf(field),
    ensures
        cleared(field).len() == field.len(),
        same_size(cleared(field), field),
        field_wf(cleared(field)),
        forall|r: int| 0 <= r < field.len() ==> !row_full(#[trigger] cleared(field)[r]),
{
    broadcast use Seq::lemma_filter_len;

    let kept = field.filter(row_survives());
    let n = full_row_count(field);
    let after = cleared(field);
    assert forall|r: int| 0 <= r < after.len() implies {
        &&& (#[trigger] after[r]).len() == field[0].len()
        &&& after[r].len() >= 1
        &&& !row_full(after[r])
        &&& forall|c: int| 0 <= c < after[r].len() ==> #[trigger] after[r][c] <= 7
    } by {
        if r < n {
            assert(field.len() > 0);
            assert(field[0].len() >= 1);
            assert(after[r] == empty_row(field[0].len()));
            assert(after[r][0] == 0);
        } else {
            let row = kept[r - n];
            assert(after[r] == row);
            field.lemma_filter_pred(row_survives(), r - n);
            assert(kept.contains(row));
            field.lemma_filter_contains_rev(row_survives(), row);
            let j = choose|j: int| 0 <= j < field.len() && field[j] == row;
            assert(field[j].len() == field[0].len());
        }
    }
    assert(after[0].len() == field[0].len() || after.len() == 0);
}

/// Whether the field is well formed.
pub fn is_field_well_formed(game_map: &[Vec<u8>]) -> (ok: bool)
    ensures
        ok == field_wf(game_map.deep_view()),
{
    let ghost field = game_map.deep_view();
    let rows = game_map.len();
    if rows == 0 {
        return true;
    }
    let width = game_map[0].len();
    assert(field[0] == game_map@[0]@);
    let mut r: usize = 0;
    while r < rows
        invariant
            0 <= r <= rows,
            rows == game_map.len(),
            rows == field.len(),
            rows > 0,
            field == game_map.deep_view(),
            width == field[0].len(),
            forall|i: int|
                0 <= i < r ==> {
                    &&& (#[trigger] field[i]).len() == field[0].len()
                    &&& field[i].len() >= 1
                    &&& forall|c: int| 0 <= c < field[i].len() ==> #[trigger] field[i][c] <= 7
                },
        decreases rows - r,
    {
        assert(field[r as int] == game_map@[r as int]@);
        let row = &game_map[r];
        if row.len() != width || width < 1 {
            return false;
        }
        let mut c: usize = 0;
        while c < width
            invariant
                0 <= c <= width,
                0 <= r < rows,
                rows == field.len(),
                width == row.len(),
                row@ == field[r as int],
                field == game_map.deep_view(),
                forall|j: int| 0 <= j < c ==> #[trigger] row@[j] <= 7,
            decreases width - c,
        {
            if row[c] > 7 {
                assert(!(field[r as int][c as int] <= 7));
                return false;
            }
            c += 1;
        }
        r += 1;
    }
    true
}

/// A row of `width` empty cells.
pub fn new_row(width: usize) -> (row: Vec<u8>)
    ensures
        row@ == empty_row(width as nat),
{
    let mut row: Vec<u8> = Vec::new();
    let mut c: usize = 0;
    while c < width
        invariant
            0 <= c <= width,
            row.len() == c,
            forall|i: int| 0 <= i < c ==> #[trigger] row[i] == 0,
        decreases width - c,
    {
        row.push(0);
        c += 1;
    }
    assert(row@ =~= empty_row(width as nat));
    row
}

/// A field of `rows` rows of `width` empty cells.
pub fn new_field(rows: usize, width: usize) -> (game_map: Vec<Vec<u8>>)
    ensures
        game_map.deep_view() == empty_rows(rows as nat, width as nat),
        width >= 1 ==> field_wf(game_map.deep_view()),
{
    let mut game_map: Vec<Vec<u8>> = Vec::new();
    let mut r: usize = 0;
    while r < rows
        invariant
            0 <= r <= rows,
            game_map.len() == r,
            forall|i: int| 0 <= i < r ==> (#[trigger] game_map[i])@ == empty_row(width as nat),
        decreases rows - r,
    {
        game_map.push(new_row(width));
        r += 1;
    }
    assert(game_map.deep_view() =~~= empty_rows(rows as nat, width as nat));
    game_map
}

/// A copy of the field.
pub fn copy_field(game_map: &[Vec<u8>]) -> (copy: Vec<Vec<u8>>)
    ensures
        copy.deep_view() == game_map.deep_view(),
{
    let mut copy: Vec<Vec<u8>> = Vec::new();
    let mut r: usize = 0;
    while r < game_map.len()
        invariant
            0 <= r <= game_map.len(),
            copy.len() == r,
            forall|i: int| 0 <= i < r ==> (#[trigger] copy[i])@ == game_map@[i]@,
        decreases game_map.len() - r,
    {
        let row = game_map[r].clone();
        assert(row@ =~= game_map@[r as int]@);
        copy.push(row);
        r += 1;
    }
    assert(copy.deep_view() =~~= game_map.deep_view());
    copy
}

/// Whether no cell of the row is empty.
pub fn is_row_full(row: &Vec<u8>) -> (full: bool)
    ensures
        full == row_full(row@),
{
    let mut c: usize = 0;
    while c < row.len()
        invariant
            0 <= c <= row.len(),
            forall|i: int| 0 <= i < c ==> #[trigger] row@[i] != 0,
        decreases row.len() - c,
    {
        if row[c] == 0 {
            return false;
        }
        c += 1;
    }
    true
}

/// Writes `value` into every cell of the field that is under a cell of the
/// piece anchored at column `x` of row `y`. Cells of the piece that fall
/// outside the field are passed over.
pub fn stamp(game_map: &mut Vec<Vec<u8>>, shape: &Vec<Vec<u8>>, x: isize, y: usize, value: u8)
    requires
        shape_wf(shape.deep_view()),
    ensures
        final(game_map).deep_view() == stamped(
            old(game_map).deep_view(),
            shape.deep_view(),
            x as int,
            y as int,
            value,
        ),
{
    let ghost before = game_map.deep_view();
    let ghost sh = shape.deep_view();
    let rows = game_map.len();
    assert(game_map.deep_view() =~~= stamped_upto(before, sh, x as int, y as int, value, 0));
    let mut dy: usize = 0;
    while dy < 4
        invariant
            0 <= dy <= 4,
            rows == game_map.len(),
            rows == before.len(),
            sh == shape.deep_view(),
            shape_wf(sh),
            game_map.deep_view() == stamped_upto(before, sh, x as int, y as int, value, 4 * dy),
        decreases 4 - dy,
    {
        let mut dx: usize = 0;
        while dx < 4
            invariant
                0 <= dx <= 4,
                0 <= dy < 4,
                rows == game_map.len(),
                rows == before.len(),
                sh == shape.deep_view(),
                shape_wf(sh),
                game_map.deep_view() == stamped_upto(
                    before,
                    sh,
                    x as int,
                    y as int,
                    value,
                    4 * dy + dx,
                ),
            decreases 4 - dx,
        {
            let ghost current = game_map.deep_view();
            let ghost n = 4 * dy + dx;
            let ghost target = stamped_upto(before, sh, x as int, y as int, value, n + 1);
            assert(sh[dy as int] == shape@[dy as int]@);
            if shape[dy][dx] != 0 && y < rows && dy < rows - y && x >= 0 - (dx as isize) {
                let r = y + dy;
                let c: usize = if x >= 0 {
                    x as usize + dx
                } else {
                    dx - ((0 - x) as usize)
                };
                if c < game_map[r].len() {
                    game_map[r][c] = value;
                }
            }
            assert forall|r2: int| 0 <= r2 < rows implies #[trigger] game_map.deep_view()[r2]
                =~= target[r2] by {
                assert(current[r2] == stamped_upto(before, sh, x as int, y as int, value, n)[r2]);
                assert(current[r2].len() == before[r2].len());
                assert(target[r2].len() == before[r2].len());
                assert(game_map.deep_view()[r2] == game_map@[r2]@);
                assert forall|c2: int| 0 <= c2 < target[r2].len() implies game_map@[r2]@[c2]
                    == target[r2][c2] by {
                    assert(current[r2][c2] == if covered(sh, x as int, y as int, c2, r2) && 4 * (r2
                        - y) + (c2 - x) < n {
                        value
                    } else {
                        before[r2][c2]
                    });
                    if r2 == y + dy && c2 == x + dx {
                        assert(covered(sh, x as int, y as int, c2, r2) == occupied(
                            sh,
                            dx as int,
                            dy as int,
                        ));
                    } else {
                        assert(4 * (r2 - y) + (c2 - x) < n + 1 && covered(
                            sh,
                            x as int,
                            y as int,
                            c2,
                            r2,
                        ) ==> 4 * (r2 - y) + (c2 - x) < n);
                    }
                }
            }
            assert(game_map.deep_view() =~~= target);
            dx += 1;
        }
        dy += 1;
    }
    assert(stamped_upto(before, sh, x as int, y as int, value, 16) =~~= stamped(
        before,
        sh,
        x as int,
        y as int,
        value,
    ));
}

/// Clears the lines: takes every full row out of the field, lets the rows
/// above it move down, and puts as many empty rows in at the top. Returns the
/// number of rows taken out.
pub fn clear_full_rows(game_map: &mut Vec<Vec<u8>>) -> (removed: usize)
    requires
        field_wf(old(game_map).deep_view()),
    ensures
        final(game_map).deep_view() == cleared(old(game_map).deep_view()),
        removed == full_row_count(old(game_map).deep_view()),
        final(game_map).len() == old(game_map).len(),
        same_size(final(game_map).deep_view(), old(game_map).deep_view()),
        field_wf(final(game_map).deep_view()),
        forall|r: int|
            0 <= r < final(game_map).len() ==> !row_full(#[trigger] final(game_map).deep_view()[r]),
{
    let ghost before = game_map.deep_view();
    let rows = game_map.len();
    let mut removed: usize = 0;
    let mut y: usize = 0;
    proof {
        reveal(Seq::filter);
        assert(before.subrange(0, 0).filter(row_survives()).len() == 0);
        assert(game_map.deep_view() =~~= empty_rows(0, before[0].len()) + before.subrange(
            0,
            0,
        ).filter(row_survives()) + before.subrange(0, rows as int));
    }
    while y < rows
        invariant
            0 <= y <= rows,
            rows == game_map.len(),
            rows == before.len(),
            field_wf(before),
            removed + before.subrange(0, y as int).filter(row_survives()).len() == y,
            game_map.deep_view() == empty_rows(removed as nat, before[0].len()) + before.subrange(
                0,
                y as int,
            ).filter(row_survives()) + before.subrange(y as int, rows as int),
        decreases rows - y,
    {
        let ghost current = game_map.deep_view();
        let ghost kept = before.subrange(0, y as int).filter(row_survives());
        let ghost top = empty_rows(removed as nat, before[0].len());
        proof {
            reveal(Seq::filter);
            assert(before.subrange(0, y + 1).drop_last() =~= before.subrange(0, y as int));
            assert(before.subrange(0, y + 1).last() == before[y as int]);
            assert(current[y as int] == before.subrange(y as int, rows as int)[0]);
            assert(current[y as int] == game_map@[y as int]@);
        }
        if is_row_full(&game_map[y]) {
            let width = game_map[y].len();
            let ghost rows_before = game_map@;
            game_map.remove(y);
            game_map.insert(0, new_row(width));
            removed += 1;
            proof {
                assert(width == before[0].len());
                assert(before.subrange(0, y + 1).filter(row_survives()) == kept);
                let target = empty_rows(removed as nat, before[0].len()) + kept + before.subrange(
                    y + 1,
                    rows as int,
                );
                assert(game_map@.len() == rows);
                assert forall|i: int| 0 <= i < rows implies #[trigger] game_map.deep_view()[i]
                    == target[i] by {
                    assert(game_map.deep_view()[i] == game_map@[i]@);
                    if i == 0 {
                        assert(target[0] == empty_row(before[0].len()));
                    } else if i <= y {
                        assert(game_map@[i] == rows_before[i - 1]);
                        assert(current[i - 1] == rows_before[i - 1]@);
                    } else {
                        assert(game_map@[i] == rows_before[i]);
                        assert(current[i] == rows_before[i]@);
                    }
                }
                assert(game_map.deep_view() =~~= empty_rows(removed as nat, before[0].len()) + kept
                    + before.subrange(y + 1, rows as int));
            }
        } else {
            proof {
                assert(before.subrange(0, y + 1).filter(row_survives()) == kept.push(
                    before[y as int],
                ));
                assert(game_map.deep_view() =~~= top + kept.push(before[y as int])
                    + before.subrange(y + 1, rows as int));
            }
        }
        y += 1;
    }
    proof {
        assert(before.subrange(0, rows as int) =~= before);
        assert(game_map.deep_view() =~~= cleared(before));
        lemma_cleared_has_no_full_row(before);
    }
    removed
}

} // verus!
