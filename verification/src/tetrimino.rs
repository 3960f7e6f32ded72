//! The falling piece and the collision oracle.
//!
//! A piece is one of seven kinds. It carries the ordered list of its rotation
//! states, each a 4x4 grid of cell values, the index of the state it is in and
//! the field coordinate of the grid's top-left corner (its anchor).

use vstd::prelude::*;

verus! {

/// The seven kinds of piece.
#[derive(Clone, Copy, Debug, PartialEq, Eq, Structural)]
pub enum Kind {
    I,
    J,
    L,
    O,
    S,
    Z,
    T,
}

impl Kind {
    /// The cell value that marks this kind in a rotation state and in the field: 1 to 7.
    pub open spec fn value_spec(self) -> u8 {
        match self {
            Kind::I => 1,
            Kind::J => 2,
            Kind::L => 3,
            Kind::O => 4,
            Kind::S => 5,
            Kind::Z => 6,
            Kind::T => 7,
        }
    }

    /// The kind that a random byte selects: its remainder by seven, in the order I, J, L, O, S, Z, T.
    pub open spec fn from_draw_spec(draw: u8) -> Kind {
        let n = draw % 7;
        if n == 0 {
            Kind::I
        } else if n == 1 {
            Kind::J
        } else if n == 2 {
            Kind::L
        } else if n == 3 {
            Kind::O
        } else if n == 4 {
            Kind::S
        } else if n == 5 {
            Kind::Z
        } else {
            Kind::T
        }
    }

    /// The column of the anchor at which a piece of this kind enters the field.
    pub open spec fn spawn_x_spec(self) -> isize {
        match self {
            Kind::O => 5,
            _ => 4,
        }
    }

    #[verifier::when_used_as_spec(value_spec)]
    pub fn value(self) -> (v: u8)
        ensures
            v == self.value_spec(),
            1 <= v <= 7,
    {
        match self {
            Kind::I => 1,
            Kind::J => 2,
            Kind::L => 3,
            Kind::O => 4,
            Kind::S => 5,
            Kind::Z => 6,
            Kind::T => 7,
        }
    }

    /// The kind whose cell value is `value`, if there is one.
    pub fn from_value(value: u8) -> (k: Option<Kind>)
        ensures
            1 <= value <= 7 <==> k.is_some(),
            k matches Some(kind) ==> kind.value_spec() == value,
    {
        match value {
            1 => Some(Kind::I),
            2 => Some(Kind::J),
            3 => Some(Kind::L),
            4 => Some(Kind::O),
            5 => Some(Kind::S),
            6 => Some(Kind::Z),
            7 => Some(Kind::T),
            _ => None,
        }
    }

    #[verifier::when_used_as_spec(from_draw_spec)]
    pub fn from_draw(draw: u8) -> (k: Kind)
        ensures
            k == Kind::from_draw_spec(draw),
            k.value_spec() == draw % 7 + 1,
    {
        match draw % 7 {
            0 => Kind::I,
            1 => Kind::J,
            2 => Kind::L,
            3 => Kind::O,
            4 => Kind::S,
            5 => Kind::Z,
            _ => Kind::T,
        }
    }

    #[verifier::when_used_as_spec(spawn_x_spec)]
    pub fn spawn_x(self) -> (x: isize)
        ensures
            x == self.spawn_x_spec(),
    {
        match self {
            Kind::O => 5,
            _ => 4,
        }
    }
}

/// The horizontal offsets tried, in this order, when a piece is rotated.
pub const KICKS: [isize; 6] = [0, -1, 1, -2, 2, -3];

/// Whether the cell `(dx, dy)` of a rotation state is part of the piece.
pub open spec fn occupied(shape: Seq<Seq<u8>>, dx: int, dy: int) -> bool {
    shape[dy][dx] != 0
}

/// Whether the field has an empty cell at column `x` of row `y`.
pub open spec fn free_at(field: Seq<Seq<u8>>, x: int, y: int) -> bool {
    &&& 0 <= y < field.len()
    &&& 0 <= x < field[y].len()
    &&& field[y][x] == 0
}

/// Whether a rotation state anchored at `(x, y)` lies wholly on empty cells
/// of the field. Cells of the 4x4 grid that are not part of the piece are not
/// looked at, wherever they fall.
pub open spec fn fits(field: Seq<Seq<u8>>, shape: Seq<Seq<u8>>, x: int, y: int) -> bool {
    forall|dx: int, dy: int|
        0 <= dx < 4 && 0 <= dy < 4 && #[trigger] occupied(shape, dx, dy) ==> free_at(
            field,
            x + dx,
            y + dy,
        )
}

/// Whether some cell of the piece, anchored at `(x, y)`, falls outside the
/// field or on a cell that is already taken.
pub open spec fn collides(field: Seq<Seq<u8>>, shape: Seq<Seq<u8>>, x: int, y: int) -> bool {
    exists|dx: int, dy: int|
        0 <= dx < 4 && 0 <= dy < 4 && #[trigger] occupied(shape, dx, dy) && !free_at(
            field,
            x + dx,
            y + dy,
        )
}

/// A rotation state is a grid of four rows of four cells.
pub open spec fn shape_wf(shape: Seq<Seq<u8>>) -> bool {
    &&& shape.len() == 4
    &&& forall|r: int| 0 <= r < 4 ==> (#[trigger] shape[r]).len() == 4
}

/// Every cell of the rotation state is empty or holds `value`.
pub open spec fn shape_uniform(shape: Seq<Seq<u8>>, value: u8) -> bool {
    forall|dx: int, dy: int|
        0 <= dx < 4 && 0 <= dy < 4 && #[trigger] occupied(shape, dx, dy) ==> shape[dy][dx] == value
}

/// The rotation state has at least one cell that is part of the piece.
pub open spec fn shape_inhabited(shape: Seq<Seq<u8>>) -> bool {
    exists|dx: int, dy: int| 0 <= dx < 4 && 0 <= dy < 4 && #[trigger] occupied(shape, dx, dy)
}

/// The row on which a piece comes to rest when it falls from `(x, y)`: rows
/// are tried one by one, and the first one below which the piece does not fit
/// is the result.
pub open spec fn landing_row(field: Seq<Seq<u8>>, shape: Seq<Seq<u8>>, x: int, y: int) -> int
    decreases field.len() - y,
{
    if y + 1 < field.len() && fits(field, shape, x, y + 1) {
        landing_row(field, shape, x, y + 1)
    } else {
        y
    }
}

/// The mathematical value of a [`Tetrimino`].
pub ghost struct TetriminoView {
    pub kind: Kind,
    pub states: Seq<Seq<Seq<u8>>>,
    pub x: int,
    pub y: int,
    pub current_state: int,
}

impl TetriminoView {
    /// Between one and 256 rotation states, each a 4x4 grid with at least one
    /// cell of the piece, every such cell holding the kind's value; the
    /// current state is one of them and the row is not negative.
    pub open spec fn wf(self) -> bool {
        &&& 1 <= self.states.len() <= 256
        &&& 0 <= self.current_state < self.states.len()
        &&& 0 <= self.y
        &&& forall|s: int|
            0 <= s < self.states.len() ==> {
                &&& shape_wf(#[trigger] self.states[s])
                &&& shape_uniform(self.states[s], self.kind.value_spec())
                &&& shape_inhabited(self.states[s])
            }
    }

    /// The rotation state that the piece is in.
    pub open spec fn shape(self) -> Seq<Seq<u8>> {
        self.states[self.current_state]
    }

    /// Whether the piece, where it is, lies wholly on empty cells of the field.
    pub open spec fn fits_in(self, field: Seq<Seq<u8>>) -> bool {
        fits(field, self.shape(), self.x, self.y)
    }

    /// The piece with its anchor at `(x, y)`.
    pub open spec fn at(self, x: int, y: int) -> TetriminoView {
        TetriminoView { x, y, ..self }
    }

    /// The piece after an attempt to put its anchor at `(x, y)`: there if it fits, unchanged if not.
    pub open spec fn moved(self, field: Seq<Seq<u8>>, x: int, y: int) -> TetriminoView {
        if fits(field, self.shape(), x, y) {
            self.at(x, y)
        } else {
            self
        }
    }

    /// The index of the state that follows the current one, the first state
    /// following the last.
    pub open spec fn next_state(self) -> int {
        if self.current_state + 1 >= self.states.len() {
            0
        } else {
            self.current_state + 1
        }
    }

    /// Whether the piece, in its next state and shifted by the kick of index
    /// `i`, fits. A column beyond the largest `isize` is no position at all.
    pub open spec fn kick_fits(self, field: Seq<Seq<u8>>, i: int) -> bool {
        let x = self.x + KICKS[i];
        x <= isize::MAX && fits(field, self.states[self.next_state()], x, self.y)
    }

    /// The index of the first kick, from `from` on, with which the rotated piece fits; 6 if there is none.
    pub open spec fn first_kick(self, field: Seq<Seq<u8>>, from: int) -> int
        decreases 6 - from,
    {
        if from < 0 || from >= 6 {
            6
        } else if self.kick_fits(field, from) {
            from
        } else {
            self.first_kick(field, from + 1)
        }
    }

    /// The piece after a rotation: in its next state and shifted by the first
    /// kick that fits, or unchanged where none does.
    pub open spec fn rotated(self, field: Seq<Seq<u8>>) -> TetriminoView {
        let i = self.first_kick(field, 0);
        if i < 6 {
            TetriminoView { current_state: self.next_state(), x: self.x + KICKS[i], ..self }
        } else {
            self
        }
    }

    /// The piece after it has fallen as far as it can.
    pub open spec fn dropped(self, field: Seq<Seq<u8>>) -> TetriminoView {
        self.at(self.x, landing_row(field, self.shape(), self.x, self.y))
    }

    /// The piece as it enters the field: in its first state, at the top, in its kind's column.
    pub open spec fn respawned(self) -> TetriminoView {
        TetriminoView { current_state: 0, x: self.kind.spawn_x_spec() as int, y: 0, ..self }
    }
}

/// A piece: its kind, its rotation states, the state it is in and its anchor.
#[derive(Debug, PartialEq, Eq)]
pub struct Tetrimino {
    pub kind: Kind,
    pub states: Vec<Vec<Vec<u8>>>,
    pub x: isize,
    pub y: usize,
    pub current_state: u8,
}

impl View for Tetrimino {
    type V = TetriminoView;

    open spec fn view(&self) -> TetriminoView {
        TetriminoView {
            kind: self.kind,
            states: self.states.deep_view(),
            x: self.x as int,
            y: self.y as int,
            current_state: self.current_state as int,
        }
    }
}

/// A piece that fits has a cell of its own in the field: its anchor is at
/// most three columns left of the field, and its row is one of the field's.
pub proof fn lemma_fits_bounds(field: Seq<Seq<u8>>, shape: Seq<Seq<u8>>, x: int, y: int)
    requires
        shape_inhabited(shape),
        fits(field, shape, x, y),
    ensures
        -3 <= x,
        y < field.len(),
{
    let (dx, dy) = choose|dx: int, dy: int|
        0 <= dx < 4 && 0 <= dy < 4 && #[trigger] occupied(shape, dx, dy);
    assert(free_at(field, x + dx, y + dy));
}

/// A placement fits if and only if it does not collide.
pub proof fn lemma_fits_iff_no_collision(
    field: Seq<Seq<u8>>,
    shape: Seq<Seq<u8>>,
    x: int,
    y: int,
)
    ensures
        fits(field, shape, x, y) <==> !collides(field, shape, x, y),
{
}

/// The landing row is at or below the start, every row passed on the way
/// fits, and the row below the landing row does not.
pub proof fn lemma_landing_row(field: Seq<Seq<u8>>, shape: Seq<Seq<u8>>, x: int, y: int)
    requires
        shape_inhabited(shape),
    ensures
        y <= landing_row(field, shape, x, y),
        forall|r: int| y < r <= landing_row(field, shape, x, y) ==> fits(field, shape, x, r),
        !fits(field, shape, x, landing_row(field, shape, x, y) + 1),
    decreases field.len() - y,
{
    if y + 1 < field.len() && fits(field, shape, x, y + 1) {
        lemma_landing_row(field, shape, x, y + 1);
    } else if fits(field, shape, x, y + 1) {
        lemma_fits_bounds(field, shape, x, y + 1);
    }
}

/// A rotation leaves a well-formed piece well formed, with its kind, its
/// states and its row. The piece either fits the field afterwards or is what
/// it was before.
pub proof fn lemma_rotation(piece: TetriminoView, field: Seq<Seq<u8>>)
    requires
        piece.wf(),
    ensures
        piece.rotated(field).wf(),
        piece.rotated(field).kind == piece.kind,
        piece.rotated(field).states == piece.states,
        piece.rotated(field).y == piece.y,
        piece.rotated(field) == piece || piece.rotated(field).fits_in(field),
{
    lemma_first_kick(piece, field, 0);
}

/// The first kick found from `from` on is a kick that fits, and none before it does.
pub proof fn lemma_first_kick(piece: TetriminoView, field: Seq<Seq<u8>>, from: int)
    requires
        0 <= from <= 6,
    ensures
        from <= piece.first_kick(field, from) <= 6,
        piece.first_kick(field, from) < 6 ==> piece.kick_fits(field, piece.first_kick(field, from)),
        forall|i: int| from <= i < piece.first_kick(field, from) ==> !piece.kick_fits(field, i),
    decreases 6 - from,
{
    if from < 6 && !piece.kick_fits(field, from) {
        lemma_first_kick(piece, field, from + 1);
    }
}

impl Clone for Tetrimino {
    fn clone(&self) -> (r: Self)
        ensures
            r@ == self@,
    {
        let mut states: Vec<Vec<Vec<u8>>> = Vec::new();
        let mut s: usize = 0;
        while s < self.states.len()
            invariant
                0 <= s <= self.states.len(),
                states.len() == s,
                forall|i: int| 0 <= i < s ==> (#[trigger] states[i]).deep_view() == self.states[i].deep_view(),
            decreases self.states.len() - s,
        {
            let state = &self.states[s];
            let mut rows: Vec<Vec<u8>> = Vec::new();
            let mut r: usize = 0;
            while r < state.len()
                invariant
                    0 <= r <= state.len(),
                    rows.len() == r,
                    forall|i: int| 0 <= i < r ==> (#[trigger] rows[i])@ == state[i]@,
                decreases state.len() - r,
            {
                let row = state[r].clone();
                assert(row@ =~= state[r as int]@);
                rows.push(row);
                r += 1;
            }
            assert(rows.deep_view() =~~= state.deep_view());
            states.push(rows);
            s += 1;
        }
        assert(states.deep_view() =~~= self.states.deep_view());
        Tetrimino {
            kind: self.kind,
            states,
            x: self.x,
            y: self.y,
            current_state: self.current_state,
        }
    }
}

/// The collision oracle: whether `shape`, anchored at column `x` of row `y`,
/// lies wholly on empty cells of `game_map`.
pub fn shape_fits(game_map: &[Vec<u8>], shape: &Vec<Vec<u8>>, x: isize, y: usize) -> (r: bool)
    requires
        shape_wf(shape.deep_view()),
    ensures
        r == fits(game_map.deep_view(), shape.deep_view(), x as int, y as int),
        !r <==> collides(game_map.deep_view(), shape.deep_view(), x as int, y as int),
{
    let ghost field = game_map.deep_view();
    let ghost sh = shape.deep_view();
    let rows = game_map.len();
    let mut dy: usize = 0;
    while dy < 4
        invariant
            0 <= dy <= 4,
            rows == game_map.len(),
            field == game_map.deep_view(),
            sh == shape.deep_view(),
            shape_wf(sh),
            forall|cx: int, cy: int|
                0 <= cx < 4 && 0 <= cy < dy && #[trigger] occupied(sh, cx, cy) ==> free_at(
                    field,
                    x + cx,
                    y + cy,
                ),
        decreases 4 - dy,
    {
        let mut dx: usize = 0;
        while dx < 4
            invariant
                0 <= dx <= 4,
                0 <= dy < 4,
                rows == game_map.len(),
                field == game_map.deep_view(),
                sh == shape.deep_view(),
                shape_wf(sh),
                forall|cx: int, cy: int|
                    0 <= cx < 4 && 0 <= cy < dy && #[trigger] occupied(sh, cx, cy) ==> free_at(
                        field,
                        x + cx,
                        y + cy,
                    ),
                forall|cx: int|
                    0 <= cx < dx && #[trigger] occupied(sh, cx, dy as int) ==> free_at(
                        field,
                        x + cx,
                        y + dy,
                    ),
            decreases 4 - dx,
        {
            assert(sh[dy as int] == shape@[dy as int]@);
            if shape[dy][dx] != 0 {
                assert(occupied(sh, dx as int, dy as int));
                if y >= rows || dy >= rows - y || x < 0 - (dx as isize) {
                    assert(!free_at(field, x + dx, y + dy));
                    return false;
                }
                let row = &game_map[y + dy];
                assert(field[y + dy] == row@);
                let col: usize = if x >= 0 {
                    x as usize + dx
                } else {
                    dx - ((0 - x) as usize)
                };
                if col >= row.len() || row[col] != 0 {
                    assert(!free_at(field, x + dx, y + dy));
                    return false;
                }
            }
            dx += 1;
        }
        dy += 1;
    }
    true
}

impl Tetrimino {
    /// Whether the piece, where it is and in the state it is in, fits the field.
    pub fn test_current_position(&self, game_map: &[Vec<u8>]) -> (r: bool)
        requires
            self@.current_state < self@.states.len(),
            shape_wf(self@.shape()),
        ensures
            r == self@.fits_in(game_map.deep_view()),
            !r <==> collides(game_map.deep_view(), self@.shape(), self@.x, self@.y),
    {
        self.test_position(game_map, self.current_state as usize, self.x, self.y)
    }

    /// Whether the piece would fit the field in the state of index
    /// `tmp_state` with its anchor at column `x` of row `y`. The answer is no
    /// exactly when a cell of the piece falls outside the field or on a cell
    /// that is taken.
    pub fn test_position(&self, game_map: &[Vec<u8>], tmp_state: usize, x: isize, y: usize) -> (r:
        bool)
        requires
            tmp_state < self@.states.len(),
            shape_wf(self@.states[tmp_state as int]),
        ensures
            r == fits(game_map.deep_view(), self@.states[tmp_state as int], x as int, y as int),
            !r <==> collides(
                game_map.deep_view(),
                self@.states[tmp_state as int],
                x as int,
                y as int,
            ),
    {
        assert(self@.states[tmp_state as int] == self.states[tmp_state as int].deep_view());
        shape_fits(game_map, &self.states[tmp_state], x, y)
    }

    /// Turns the piece into its next state, trying the kicks in order and
    /// taking the first with which it fits. Where none fits, the piece stays
    /// as it is.
    pub fn rotate(&mut self, game_map: &[Vec<u8>])
        requires
            old(self)@.wf(),
        ensures
            final(self)@ == old(self)@.rotated(game_map.deep_view()),
            final(self)@.wf(),
            old(self)@.first_kick(game_map.deep_view(), 0) < 6 ==> final(self)@.fits_in(
                game_map.deep_view(),
            ),
            old(self)@.first_kick(game_map.deep_view(), 0) >= 6 ==> *final(self) == *old(self),
    {
        let ghost field = game_map.deep_view();
        let ghost before = self@;
        let mut tmp_state: u8 = 0;
        if (self.current_state as usize) + 1 < self.states.len() {
            tmp_state = self.current_state + 1;
        }
        let mut i: usize = 0;
        while i < 6
            invariant
                0 <= i <= 6,
                *self == *old(self),
                before == self@,
                before.wf(),
                field == game_map.deep_view(),
                tmp_state == before.next_state(),
                before.first_kick(field, 0) == before.first_kick(field, i as int),
            decreases 6 - i,
        {
            let kick = KICKS[i];
            if self.x <= isize::MAX - 2 || kick <= isize::MAX - self.x {
                if self.x >= isize::MIN + 3 || kick >= isize::MIN - self.x {
                    if self.test_position(game_map, tmp_state as usize, self.x + kick, self.y) {
                        assert(before.kick_fits(field, i as int));
                        self.current_state = tmp_state;
                        self.x = self.x + kick;
                        return ;
                    }
                } else {
                    proof {
                        if fits(field, before.states[before.next_state()], self.x + kick, self.y as int) {
                            lemma_fits_bounds(
                                field,
                                before.states[before.next_state()],
                                self.x + kick,
                                self.y as int,
                            );
                        }
                    }
                }
            }
            assert(!before.kick_fits(field, i as int));
            i += 1;
        }
    }

    /// Puts the anchor at column `new_x` of row `new_y` if the piece fits
    /// there, and says whether it did. A piece that does not fit there is
    /// left where it was.
    pub fn change_position(&mut self, game_map: &[Vec<u8>], new_x: isize, new_y: usize) -> (r: bool)
        requires
            old(self)@.current_state < old(self)@.states.len(),
            shape_wf(old(self)@.shape()),
        ensures
            r == fits(game_map.deep_view(), old(self)@.shape(), new_x as int, new_y as int),
            final(self)@ == old(self)@.moved(game_map.deep_view(), new_x as int, new_y as int),
            old(self)@.wf() ==> final(self)@.wf(),
            !r ==> *final(self) == *old(self),
    {
        if self.test_position(game_map, self.current_state as usize, new_x, new_y) {
            self.x = new_x;
            self.y = new_y;
            true
        } else {
            false
        }
    }

    /// Lets the piece fall, row by row, until it does not fit one row further down.
    pub fn drop_down(&mut self, game_map: &[Vec<u8>])
        requires
            old(self)@.wf(),
        ensures
            final(self)@ == old(self)@.dropped(game_map.deep_view()),
            final(self)@.wf(),
            old(self)@.y <= final(self)@.y,
            forall|r: int|
                old(self)@.y < r <= final(self)@.y ==> fits(
                    game_map.deep_view(),
                    old(self)@.shape(),
                    old(self)@.x,
                    r,
                ),
            !fits(game_map.deep_view(), old(self)@.shape(), old(self)@.x, final(self)@.y + 1),
    {
        let ghost field = game_map.deep_view();
        let ghost before = self@;
        let rows = game_map.len();
        proof {
            lemma_landing_row(field, before.shape(), before.x, before.y);
        }
        loop
            invariant
                field == game_map.deep_view(),
                field.len() == rows,
                before == old(self)@,
                before.wf(),
                self@ == before.at(before.x, self@.y),
                before.y <= self@.y,
                landing_row(field, before.shape(), before.x, before.y) == landing_row(
                    field,
                    before.shape(),
                    before.x,
                    self@.y,
                ),
            ensures
                self@ == before.dropped(field),
            decreases field.len() - self@.y,
        {
            if self.y == usize::MAX {
                assert(landing_row(field, before.shape(), before.x, self@.y) == self@.y);
                break ;
            }
            let x = self.x;
            let y = self.y + 1;
            if !self.change_position(game_map, x, y) {
                assert(landing_row(field, before.shape(), before.x, self@.y) == self@.y);
                break ;
            }
            proof {
                lemma_fits_bounds(field, before.shape(), before.x, y as int);
            }
        }
    }

    /// Puts the piece back into the pose in which it enters the field.
    pub fn respawn(&mut self)
        requires
            old(self)@.wf(),
        ensures
            final(self)@ == old(self)@.respawned(),
            final(self)@.wf(),
    {
        self.current_state = 0;
        self.x = self.kind.spawn_x();
        self.y = 0;
    }
}

/// Whether a rotation state is a 4x4 grid that has a cell of the piece and
/// holds `value` in every such cell.
pub fn is_shape_well_formed(shape: &Vec<Vec<u8>>, value: u8) -> (ok: bool)
    ensures
        ok == {
            &&& shape_wf(shape.deep_view())
            &&& shape_uniform(shape.deep_view(), value)
            &&& shape_inhabited(shape.deep_view())
        },
{
    let ghost sh = shape.deep_view();
    if shape.len() != 4 {
        return false;
    }
    let mut r: usize = 0;
    while r < 4
        invariant
            0 <= r <= 4,
            shape.len() == 4,
            sh == shape.deep_view(),
            forall|i: int| 0 <= i < r ==> (#[trigger] sh[i]).len() == 4,
        decreases 4 - r,
    {
        assert(sh[r as int] == shape@[r as int]@);
        if shape[r].len() != 4 {
            return false;
        }
        r += 1;
    }
    let mut inhabited = false;
    let mut dy: usize = 0;
    while dy < 4
        invariant
            0 <= dy <= 4,
            sh == shape.deep_view(),
            shape_wf(sh),
            forall|cx: int, cy: int|
                0 <= cx < 4 && 0 <= cy < dy && #[trigger] occupied(sh, cx, cy) ==> sh[cy][cx]
                    == value,
            inhabited <==> exists|cx: int, cy: int|
                0 <= cx < 4 && 0 <= cy < dy && #[trigger] occupied(sh, cx, cy),
        decreases 4 - dy,
    {
        let mut dx: usize = 0;
        while dx < 4
            invariant
                0 <= dx <= 4,
                0 <= dy < 4,
                sh == shape.deep_view(),
                shape_wf(sh),
                forall|cx: int, cy: int|
                    0 <= cx < 4 && 0 <= cy < dy && #[trigger] occupied(sh, cx, cy) ==> sh[cy][cx]
                        == value,
                forall|cx: int|
                    0 <= cx < dx && #[trigger] occupied(sh, cx, dy as int) ==> sh[dy as int][cx]
                        == value,
                inhabited <==> exists|cx: int, cy: int|
                    0 <= cx < 4 && (0 <= cy < dy || (cy == dy && cx < dx)) && #[trigger] occupied(
                        sh,
                        cx,
                        cy,
                    ),
            decreases 4 - dx,
        {
            assert(sh[dy as int] == shape@[dy as int]@);
            let cell = shape[dy][dx];
            if cell != 0 {
                assert(occupied(sh, dx as int, dy as int));
                if cell != value {
                    return false;
                }
                inhabited = true;
            }
            dx += 1;
        }
        dy += 1;
    }
    inhabited
}

impl Tetrimino {
    /// Whether the piece is well formed.
    pub fn is_well_formed(&self) -> (ok: bool)
        ensures
            ok == self@.wf(),
    {
        let count = self.states.len();
        if count < 1 || count > 256 || self.current_state as usize >= count {
            return false;
        }
        let value = self.kind.value();
        let mut s: usize = 0;
        while s < count
            invariant
                0 <= s <= count,
                count == self.states.len(),
                value == self.kind.value_spec(),
                forall|i: int|
                    0 <= i < s ==> {
                        &&& shape_wf(#[trigger] self@.states[i])
                        &&& shape_uniform(self@.states[i], value)
                        &&& shape_inhabited(self@.states[i])
                    },
            decreases count - s,
        {
            assert(self@.states[s as int] == self.states[s as int].deep_view());
            if !is_shape_well_formed(&self.states[s], value) {
                return false;
            }
            s += 1;
        }
        true
    }
}

} // verus!
