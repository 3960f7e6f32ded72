//! Counting the taken cells of a field: what a lock adds to their number
//! and what a line clear takes from it.

use crate::field::{
    cleared, empty_row, empty_rows, field_wf, full_row_count, row_full, row_survives, stamped,
    stamped_upto,
};
use crate::tetrimino::{fits, free_at, occupied};
use vstd::prelude::*;

verus! {

/// The number of taken cells of a row.
pub open spec fn row_taken(row: Seq<u8>) -> nat
    decreases row.len(),
{
    if row.len() == 0 {
        0
    } else {
        row_taken(row.drop_last()) + if row.last() != 0 {
            1nat
        } else {
            0nat
        }
    }
}

/// The number of taken cells of a field.
pub open spec fn taken(field: Seq<Seq<u8>>) -> nat
    decreases field.len(),
{
    if field.len() == 0 {
        0
    } else {
        taken(field.drop_last()) + row_taken(field.last())
    }
}

/// The number of cells of a piece among the first `n` cells of its grid,
/// counted row by row.
pub open spec fn cells_upto(shape: Seq<Seq<u8>>, n: int) -> nat
    decreases n,
{
    if n <= 0 {
        0
    } else {
        cells_upto(shape, n - 1) + if occupied(shape, (n - 1) % 4, (n - 1) / 4) {
            1nat
        } else {
            0nat
        }
    }
}

/// The number of cells of a piece in a rotation state.
pub open spec fn shape_cells(shape: Seq<Seq<u8>>) -> nat {
    cells_upto(shape, 16)
}

/// Every row of the field has the given width.
pub open spec fn rows_of_width(field: Seq<Seq<u8>>, width: nat) -> bool {
    forall|r: int| 0 <= r < field.len() ==> (#[trigger] field[r]).len() == width
}

/// Taking an empty cell of a row raises the number of its taken cells by one.
pub proof fn lemma_row_take(row: Seq<u8>, c: int, value: u8)
    requires
        0 <= c < row.len(),
        row[c] == 0,
        value != 0,
    ensures
        row_taken(row.update(c, value)) == row_taken(row) + 1,
    decreases row.len(),
{
    let after = row.update(c, value);
    if c == row.len() - 1 {
        assert(after.drop_last() == row.drop_last());
    } else {
        lemma_row_take(row.drop_last(), c, value);
        assert(after.drop_last() == row.drop_last().update(c, value));
        assert(after.last() == row.last());
    }
}

/// Putting a row with one taken cell more in a row's place raises the
/// number of the field's taken cells by one.
pub proof fn lemma_field_take(field: Seq<Seq<u8>>, r: int, row: Seq<u8>)
    requires
        0 <= r < field.len(),
        row_taken(row) == row_taken(field[r]) + 1,
    ensures
        taken(field.update(r, row)) == taken(field) + 1,
    decreases field.len(),
{
    let after = field.update(r, row);
    if r == field.len() - 1 {
        assert(after.drop_last() == field.drop_last());
    } else {
        lemma_field_take(field.drop_last(), r, row);
        assert(after.drop_last() == field.drop_last().update(r, row));
        assert(after.last() == field.last());
    }
}

/// Writing under one more cell of the grid takes one more cell of the field
/// if that cell of the grid is part of the piece, and none if it is not.
pub proof fn lemma_stamp_step(
    field: Seq<Seq<u8>>,
    shape: Seq<Seq<u8>>,
    x: int,
    y: int,
    value: u8,
    dx: int,
    dy: int,
)
    requires
        fits(field, shape, x, y),
        value != 0,
        0 <= dx < 4,
        0 <= dy < 4,
    ensures
        taken(stamped_upto(field, shape, x, y, value, 4 * dy + dx + 1)) == taken(
            stamped_upto(field, shape, x, y, value, 4 * dy + dx),
        ) + if occupied(shape, dx, dy) {
            1nat
        } else {
            0nat
        },
{
    let n = 4 * dy + dx;
    let before = stamped_upto(field, shape, x, y, value, n);
    let after = stamped_upto(field, shape, x, y, value, n + 1);
    if occupied(shape, dx, dy) {
        let r = y + dy;
        let c = x + dx;
        assert(free_at(field, c, r));
        assert(before[r][c] == 0);
        let row = before[r].update(c, value);
        assert(after =~~= before.update(r, row)) by {
            assert(after.len() == before.len());
            assert forall|r2: int| 0 <= r2 < after.len() implies #[trigger] after[r2]
                =~= before.update(r, row)[r2] by {
                assert(after[r2].len() == field[r2].len());
                assert(before[r2].len() == field[r2].len());
            }
        }
        lemma_row_take(before[r], c, value);
        lemma_field_take(before, r, row);
    } else {
        assert(after =~~= before) by {
            assert forall|r2: int| 0 <= r2 < after.len() implies #[trigger] after[r2]
                =~= before[r2] by {
                assert(after[r2].len() == field[r2].len());
                assert(before[r2].len() == field[r2].len());
            }
        }
    }
}

/// Writing under the first `n` cells of the grid of a piece that fits takes
/// as many cells of the field as the piece has among them.
pub proof fn lemma_stamp_upto(
    field: Seq<Seq<u8>>,
    shape: Seq<Seq<u8>>,
    x: int,
    y: int,
    value: u8,
    n: int,
)
    requires
        fits(field, shape, x, y),
        value != 0,
        0 <= n <= 16,
    ensures
        taken(stamped_upto(field, shape, x, y, value, n)) == taken(field) + cells_upto(shape, n),
    decreases n,
{
    if n == 0 {
        assert(stamped_upto(field, shape, x, y, value, 0) =~~= field);
    } else {
        lemma_stamp_upto(field, shape, x, y, value, n - 1);
        let dx = (n - 1) % 4;
        let dy = (n - 1) / 4;
        assert(4 * dy + dx == n - 1);
        lemma_stamp_step(field, shape, x, y, value, dx, dy);
    }
}

/// Writing a piece that fits into the field takes as many cells as the piece has.
pub proof fn lemma_stamped_taken(field: Seq<Seq<u8>>, shape: Seq<Seq<u8>>, x: int, y: int, value: u8)
    requires
        fits(field, shape, x, y),
        value != 0,
    ensures
        taken(stamped(field, shape, x, y, value)) == taken(field) + shape_cells(shape),
{
    lemma_stamp_upto(field, shape, x, y, value, 16);
    assert(stamped_upto(field, shape, x, y, value, 16) =~~= stamped(field, shape, x, y, value));
}

/// The taken cells of two fields, one put on top of the other, are those of both.
pub proof fn lemma_taken_concat(top: Seq<Seq<u8>>, bottom: Seq<Seq<u8>>)
    ensures
        taken(top + bottom) == taken(top) + taken(bottom),
    decreases bottom.len(),
{
    if bottom.len() == 0 {
        assert(top + bottom == top);
    } else {
        lemma_taken_concat(top, bottom.drop_last());
        assert((top + bottom).drop_last() == top + bottom.drop_last());
        assert((top + bottom).last() == bottom.last());
    }
}

/// An empty row has no taken cell.
pub proof fn lemma_empty_row_taken(width: nat)
    ensures
        row_taken(empty_row(width)) == 0,
    decreases width,
{
    if width > 0 {
        lemma_empty_row_taken((width - 1) as nat);
        assert(empty_row(width).drop_last() == empty_row((width - 1) as nat));
    }
}

/// Empty rows have no taken cell.
pub proof fn lemma_empty_rows_taken(count: nat, width: nat)
    ensures
        taken(empty_rows(count, width)) == 0,
    decreases count,
{
    if count > 0 {
        lemma_empty_rows_taken((count - 1) as nat, width);
        lemma_empty_row_taken(width);
        assert(empty_rows(count, width).drop_last() == empty_rows((count - 1) as nat, width));
        assert(empty_rows(count, width).last() == empty_row(width));
    }
}

/// In a full row every cell is taken.
pub proof fn lemma_full_row_taken(row: Seq<u8>)
    requires
        row_full(row),
    ensures
        row_taken(row) == row.len(),
    decreases row.len(),
{
    if row.len() > 0 {
        assert forall|c: int| 0 <= c < row.drop_last().len() implies #[trigger] row.drop_last()[c]
            != 0 by {
            assert(row.drop_last()[c] == row[c]);
        }
        lemma_full_row_taken(row.drop_last());
        assert(row.last() == row[row.len() - 1]);
    }
}

/// The rows that stay at a line clear hold the taken cells of the field
/// but for those of the full rows, each of which holds as many as it is wide.
pub proof fn lemma_survivors_taken(field: Seq<Seq<u8>>, width: nat)
    requires
        rows_of_width(field, width),
    ensures
        taken(field.filter(row_survives())) + width * full_row_count(field) == taken(field),
        field.filter(row_survives()).len() <= field.len(),
    decreases field.len(),
{
    reveal(Seq::filter);
    if field.len() > 0 {
        let shorter = field.drop_last();
        assert(rows_of_width(shorter, width)) by {
            assert forall|r: int| 0 <= r < shorter.len() implies (#[trigger] shorter[r]).len()
                == width by {
                assert(shorter[r] == field[r]);
            }
        }
        lemma_survivors_taken(shorter, width);
        let kept = shorter.filter(row_survives());
        let gone = full_row_count(shorter);
        assert(field.last() == field[field.len() - 1]);
        if row_full(field.last()) {
            lemma_full_row_taken(field.last());
            assert(field.filter(row_survives()) == kept);
            assert(full_row_count(field) == gone + 1);
            assert(width * (gone + 1) == width * gone + width) by (nonlinear_arith);
        } else {
            assert(field.filter(row_survives()) == kept.push(field.last()));
            assert(kept.push(field.last()).drop_last() == kept);
            assert(full_row_count(field) == gone);
        }
    } else {
        assert(width * 0 == 0) by (nonlinear_arith);
    }
}

/// A line clear takes from the taken cells of a field those of its full
/// rows: as many as the field is wide, for each row cleared.
pub proof fn lemma_cleared_taken(field: Seq<Seq<u8>>)
    requires
        field_wf(field),
        field.len() > 0,
    ensures
        taken(cleared(field)) + field[0].len() * full_row_count(field) == taken(field),
{
    let width = field[0].len();
    lemma_survivors_taken(field, width);
    lemma_empty_rows_taken(full_row_count(field), width);
    lemma_taken_concat(empty_rows(full_row_count(field), width), field.filter(row_survives()));
}

} // verus!
