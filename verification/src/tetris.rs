//! The game: the field, the falling piece, the piece that comes next, the
//! piece held aside, and the score.
//!
//! A piece is promoted from next to falling, is moved and rotated while it
//! falls, and is locked into the field when it cannot go further down. A lock
//! clears the full rows and counts them. The game is over when the next piece
//! does not fit the field in the pose in which it would enter.

use crate::field::{
    clear_full_rows, cleared, copy_field, field_wf, full_row_count, is_field_well_formed, lemma_cleared_has_no_full_row, new_field,
    row_full, same_size, stamp, stamped, empty_rows,
};
use crate::generator::{drawn_kind, next_kind};
use crate::occupancy::{lemma_cleared_taken, lemma_stamped_taken, shape_cells, taken};
use crate::shapes::{spawn, spawn_pose};
use crate::tetrimino::{
    fits, lemma_fits_bounds, lemma_landing_row, Kind, Tetrimino, TetriminoView,
};
use vstd::prelude::*;

verus! {

/// The number of columns of the field of a new game.
pub const FIELD_WIDTH: usize = 10;

/// The number of rows of the field of a new game.
pub const FIELD_HEIGHT: usize = 16;

/// The number of cleared lines that raises the level by one.
pub const LINES_PER_LEVEL: u32 = 20;

/// The highest level.
pub const MAX_LEVEL: u32 = 10;

/// The points for clearing no, one, two, three and four rows with one lock.
pub const REWARDS: [u32; 5] = [0, 100, 300, 500, 800];

/// The points for each row beyond four that one lock clears.
pub const EXTRA_ROW_REWARD: u32 = 400;

/// For each level, from the first, the time in milliseconds after which a
/// piece falls by one row on its own.
pub const LEVEL_TIMES: [u64; 10] = [1000, 850, 700, 600, 500, 400, 300, 250, 221, 190];

/// The points that a lock earns by clearing `rows` rows.
pub open spec fn reward(rows: nat) -> nat {
    if rows <= 4 {
        REWARDS[rows as int] as nat
    } else {
        (800 + (rows - 4) * 400) as nat
    }
}

/// The level at which a game stands once `lines` lines are cleared: one
/// level for every twenty lines, from 1 up to 10.
pub open spec fn level_for(lines: nat) -> nat {
    if lines / 20 >= 9 {
        10
    } else {
        lines / 20 + 1
    }
}

/// The time in milliseconds after which, at the given level, a piece falls on its own.
pub open spec fn gravity_interval(level: nat) -> nat {
    if level < 1 {
        LEVEL_TIMES[0] as nat
    } else if level > 10 {
        LEVEL_TIMES[9] as nat
    } else {
        LEVEL_TIMES[level - 1] as nat
    }
}

/// A count that stops at the largest `u32`.
pub open spec fn capped(n: nat) -> nat {
    if n > u32::MAX {
        u32::MAX as nat
    } else {
        n
    }
}

/// The mathematical value of a [`Tetris`].
pub ghost struct TetrisView {
    pub field: Seq<Seq<u8>>,
    pub current: Option<TetriminoView>,
    pub next: TetriminoView,
    pub held: Option<TetriminoView>,
    pub score: nat,
    pub lines: nat,
    pub level: nat,
}

impl TetrisView {
    /// The field and the pieces are well formed, the counters are within a
    /// `u32`, and the level is the one that the cleared lines give.
    pub open spec fn wf(self) -> bool {
        &&& field_wf(self.field)
        &&& self.score <= u32::MAX
        &&& self.lines <= u32::MAX
        &&& self.next.wf()
        &&& self.current matches Some(piece) ==> piece.wf()
        &&& self.held matches Some(piece) ==> piece.wf()
        &&& self.level == level_for(self.lines)
    }

    /// A game at its start: an empty field of 16 rows of 10 cells, no piece
    /// falling or held, and a piece of the given kind waiting.
    pub open spec fn initial(kind: Kind) -> TetrisView {
        TetrisView {
            field: empty_rows(16, 10),
            current: None,
            next: spawn_pose(kind),
            held: None,
            score: 0,
            lines: 0,
            level: 1,
        }
    }

    /// No piece is falling and the next one does not fit where it would enter.
    pub open spec fn game_over(self) -> bool {
        self.current.is_none() && !self.next.fits_in(self.field)
    }

    /// The number of rows that locking the falling piece clears.
    pub open spec fn rows_cleared_by_lock(self) -> nat {
        match self.current {
            None => 0,
            Some(piece) => full_row_count(
                stamped(self.field, piece.shape(), piece.x, piece.y, piece.kind.value_spec()),
            ),
        }
    }

    /// The game after the falling piece is locked: its cells are written
    /// into the field with the value of its kind, the full rows are cleared
    /// and counted, the score and the level follow, and no piece is falling.
    /// Without a falling piece nothing changes.
    pub open spec fn locked(self) -> TetrisView {
        match self.current {
            None => self,
            Some(piece) => {
                let written = stamped(
                    self.field,
                    piece.shape(),
                    piece.x,
                    piece.y,
                    piece.kind.value_spec(),
                );
                let rows = full_row_count(written);
                let lines = capped(self.lines + rows);
                TetrisView {
                    field: cleared(written),
                    current: None,
                    score: capped(self.score + reward(rows)),
                    lines,
                    level: level_for(lines),
                    ..self
                }
            },
        }
    }

    /// The game after an attempt to move the falling piece to `(x, y)`: the
    /// piece is there if it fits; if it does not and the row differs from
    /// the piece's own, the piece is locked where it was; else nothing changes.
    pub open spec fn shifted(self, x: int, y: int) -> TetrisView {
        match self.current {
            None => self,
            Some(piece) => {
                if fits(self.field, piece.shape(), x, y) {
                    TetrisView { current: Some(piece.at(x, y)), ..self }
                } else if y != piece.y {
                    self.locked()
                } else {
                    self
                }
            },
        }
    }

    /// What an attempt to move the falling piece to `(x, y)` comes to.
    pub open spec fn shift_outcome(self, x: int, y: int) -> MoveOutcome {
        match self.current {
            None => MoveOutcome::Blocked,
            Some(piece) => {
                if fits(self.field, piece.shape(), x, y) {
                    MoveOutcome::Moved
                } else if y != piece.y {
                    MoveOutcome::Locked
                } else {
                    MoveOutcome::Blocked
                }
            },
        }
    }

    /// The game after the falling piece is rotated.
    pub open spec fn rotated(self) -> TetrisView {
        match self.current {
            None => self,
            Some(piece) => TetrisView { current: Some(piece.rotated(self.field)), ..self },
        }
    }

    /// The game after a hard drop: the piece falls as far as it can and is locked there.
    pub open spec fn hard_dropped(self) -> TetrisView {
        match self.current {
            None => self,
            Some(piece) => TetrisView {
                current: Some(piece.dropped(self.field)),
                ..self
            }.locked(),
        }
    }

    /// The game after `elapsed` milliseconds without a fall: once the
    /// level's interval is exceeded the piece goes one row down, or is locked
    /// if it cannot.
    pub open spec fn ticked(self, elapsed: nat) -> TetrisView {
        match self.current {
            Some(piece) if elapsed > gravity_interval(self.level) => self.shifted(
                piece.x,
                piece.y + 1,
            ),
            _ => self,
        }
    }

    /// The game after the next piece is asked to enter, with a piece of
    /// `kind` to take its place in the queue. While a piece is falling, and
    /// when the next piece does not fit, nothing changes.
    pub open spec fn promoted(self, kind: Kind) -> TetrisView {
        if self.current.is_none() && self.next.fits_in(self.field) {
            TetrisView { current: Some(self.next), next: spawn_pose(kind), ..self }
        } else {
            self
        }
    }

    /// The game after a hold. With a piece held, it and the falling piece
    /// change places, both in the pose in which a piece enters. With none
    /// held, the falling piece is put aside in that pose and the next piece is
    /// asked to enter, `kind` following it in the queue.
    pub open spec fn held_swapped(self, kind: Kind) -> TetrisView {
        match self.current {
            None => self,
            Some(piece) => match self.held {
                Some(held) => TetrisView {
                    current: Some(held.respawned()),
                    held: Some(piece.respawned()),
                    ..self
                },
                None => TetrisView {
                    current: None,
                    held: Some(piece.respawned()),
                    ..self
                }.promoted(kind),
            },
        }
    }
}

/// What became of an attempt to move the falling piece.
#[derive(Clone, Copy, Debug, PartialEq, Eq, Structural)]
pub enum MoveOutcome {
    /// The piece is at the place asked for.
    Moved,
    /// The piece did not fit there and stays where it was, still falling; or no piece was falling.
    Blocked,
    /// The piece did not fit there and was locked where it was.
    Locked,
}

/// The state of a game.
#[derive(Debug, PartialEq, Eq)]
pub struct Tetris {
    pub game_map: Vec<Vec<u8>>,
    pub current_piece: Option<Tetrimino>,
    pub next_piece: Tetrimino,
    pub holding_piece: Option<Tetrimino>,
    pub score: u32,
    pub nb_lines: u32,
    pub current_level: u32,
}

/// The mathematical value of a piece that may be absent.
pub open spec fn piece_view(piece: Option<Tetrimino>) -> Option<TetriminoView> {
    match piece {
        Some(p) => Some(p@),
        None => None,
    }
}

impl View for Tetris {
    type V = TetrisView;

    open spec fn view(&self) -> TetrisView {
        TetrisView {
            field: self.game_map.deep_view(),
            current: piece_view(self.current_piece),
            next: self.next_piece@,
            held: piece_view(self.holding_piece),
            score: self.score as nat,
            lines: self.nb_lines as nat,
            level: self.current_level as nat,
        }
    }
}

/// The points that a lock earns by clearing `rows` rows, as far as a `u32` holds them.
pub fn reward_for(rows: usize) -> (points: u32)
    ensures
        points == capped(reward(rows as nat)),
{
    if rows <= 4 {
        REWARDS[rows]
    } else if rows - 4 > 11_000_000 {
        u32::MAX
    } else {
        let extra: u64 = (rows - 4) as u64 * 400 + 800;
        if extra > u32::MAX as u64 {
            u32::MAX
        } else {
            extra as u32
        }
    }
}

/// The level at which a game stands once `lines` lines are cleared.
pub fn level_of(lines: u32) -> (level: u32)
    ensures
        level == level_for(lines as nat),
        1 <= level <= 10,
{
    let steps = lines / LINES_PER_LEVEL;
    if steps >= MAX_LEVEL - 1 {
        MAX_LEVEL
    } else {
        steps + 1
    }
}

/// Whether `elapsed_ms` milliseconds without a fall are more than the level allows.
pub fn is_time_over(elapsed_ms: u64, level: u32) -> (over: bool)
    ensures
        over == (elapsed_ms > gravity_interval(level as nat)),
{
    let index: usize = if level < 1 {
        0
    } else if level > 10 {
        9
    } else {
        (level - 1) as usize
    };
    elapsed_ms > LEVEL_TIMES[index]
}

/// Writing a piece's kind into a well-formed field leaves it well formed.
pub proof fn lemma_stamped_wf(field: Seq<Seq<u8>>, shape: Seq<Seq<u8>>, x: int, y: int, value: u8)
    requires
        field_wf(field),
        value <= 7,
    ensures
        field_wf(stamped(field, shape, x, y, value)),
        stamped(field, shape, x, y, value).len() == field.len(),
        same_size(stamped(field, shape, x, y, value), field),
{
    let after = stamped(field, shape, x, y, value);
    assert forall|r: int| 0 <= r < after.len() implies {
        &&& (#[trigger] after[r]).len() == after[0].len()
        &&& after[r].len() >= 1
        &&& forall|c: int| 0 <= c < after[r].len() ==> #[trigger] after[r][c] <= 7
    } by {
        assert(after[r].len() == field[r].len());
        assert(after[0].len() == field[0].len());
        assert forall|c: int| 0 <= c < after[r].len() implies #[trigger] after[r][c] <= 7 by {
            assert(field[r][c] <= 7);
        }
    }
}

/// A lock leaves no full row in the field, adds to the lines exactly the
/// rows that it cleared, as far as a `u32` counts, and lowers neither the
/// score nor the level.
pub proof fn lemma_lock(game: TetrisView)
    requires
        game.wf(),
        game.current.is_some(),
    ensures
        game.locked().wf(),
        game.locked().current.is_none(),
        game.locked().field.len() == game.field.len(),
        same_size(game.locked().field, game.field),
        forall|r: int|
            0 <= r < game.locked().field.len() ==> !row_full(#[trigger] game.locked().field[r]),
        game.locked().lines == capped(game.lines + game.rows_cleared_by_lock()),
        game.lines + game.rows_cleared_by_lock() <= u32::MAX ==> game.locked().lines == game.lines
            + game.rows_cleared_by_lock(),
        game.locked().score == capped(game.score + reward(game.rows_cleared_by_lock())),
        game.locked().score >= game.score,
        game.locked().level >= game.level,
{
    let piece = game.current.unwrap();
    let written = stamped(game.field, piece.shape(), piece.x, piece.y, piece.kind.value_spec());
    lemma_stamped_wf(game.field, piece.shape(), piece.x, piece.y, piece.kind.value_spec());
    lemma_cleared_has_no_full_row(written);
}

/// A lock of a piece that fits adds the cells of the piece to the taken
/// cells of the field and takes away those of the rows that it clears, as
/// many as the field is wide for each row.
pub proof fn lemma_lock_cell_count(game: TetrisView)
    requires
        game.wf(),
        game.current.is_some(),
        game.current.unwrap().fits_in(game.field),
    ensures
        game.field.len() > 0,
        taken(game.locked().field) + game.field[0].len() * game.rows_cleared_by_lock() == taken(
            game.field,
        ) + shape_cells(game.current.unwrap().shape()),
{
    let piece = game.current.unwrap();
    let value = piece.kind.value_spec();
    lemma_fits_bounds(game.field, piece.shape(), piece.x, piece.y);
    let written = stamped(game.field, piece.shape(), piece.x, piece.y, value);
    lemma_stamped_taken(game.field, piece.shape(), piece.x, piece.y, value);
    lemma_stamped_wf(game.field, piece.shape(), piece.x, piece.y, value);
    assert(written[0].len() == game.field[0].len());
    lemma_cleared_taken(written);
}

/// A move along the falling piece's own row never locks it: the field, the
/// score and the lines stay as they are and the piece goes on falling.
pub proof fn lemma_sideways_move_never_locks(game: TetrisView, x: int)
    requires
        game.current.is_some(),
    ensures
        game.shift_outcome(x, game.current.unwrap().y) != MoveOutcome::Locked,
        game.shifted(x, game.current.unwrap().y).current.is_some(),
        game.shifted(x, game.current.unwrap().y).field == game.field,
        game.shifted(x, game.current.unwrap().y).score == game.score,
        game.shifted(x, game.current.unwrap().y).lines == game.lines,
{
}

/// A move that locks the piece, and a hard drop, leave no full row in the
/// field; more lines never lower the level, and more rows cleared with one
/// lock never earn less.
pub proof fn lemma_locking_commands(game: TetrisView, x: int, y: int)
    requires
        game.wf(),
        game.current.is_some(),
    ensures
        game.shift_outcome(x, y) == MoveOutcome::Locked ==> forall|r: int|
            0 <= r < game.shifted(x, y).field.len() ==> !row_full(
                #[trigger] game.shifted(x, y).field[r],
            ),
        forall|r: int|
            0 <= r < game.hard_dropped().field.len() ==> !row_full(
                #[trigger] game.hard_dropped().field[r],
            ),
        forall|a: nat, b: nat| a <= b ==> #[trigger] level_for(a) <= #[trigger] level_for(b),
        forall|a: nat, b: nat| a < b ==> #[trigger] reward(a) < #[trigger] reward(b),
{
    lemma_lock(game);
    let piece = game.current.unwrap();
    let fallen = TetrisView { current: Some(piece.dropped(game.field)), ..game };
    lemma_landing_row(game.field, piece.shape(), piece.x, piece.y);
    lemma_lock(fallen);
}

impl Clone for Tetris {
    fn clone(&self) -> (r: Self)
        ensures
            r@ == self@,
    {
        Tetris {
            game_map: copy_field(&self.game_map),
            current_piece: match &self.current_piece {
                Some(piece) => Some(piece.clone()),
                None => None,
            },
            next_piece: self.next_piece.clone(),
            holding_piece: match &self.holding_piece {
                Some(piece) => Some(piece.clone()),
                None => None,
            },
            score: self.score,
            nb_lines: self.nb_lines,
            current_level: self.current_level,
        }
    }
}

impl Tetris {
    /// Whether the game is well formed.
    pub fn is_well_formed(&self) -> (ok: bool)
        ensures
            ok == self@.wf(),
    {
        if !is_field_well_formed(&self.game_map) || !self.next_piece.is_well_formed() {
            return false;
        }
        match &self.current_piece {
            Some(piece) => {
                if !piece.is_well_formed() {
                    return false;
                }
            },
            None => {},
        }
        match &self.holding_piece {
            Some(piece) => {
                if !piece.is_well_formed() {
                    return false;
                }
            },
            None => {},
        }
        self.current_level == level_of(self.nb_lines)
    }

    /// A game at its start, with a piece of the given kind waiting to enter.
    pub fn with_next(kind: Kind) -> (game: Tetris)
        ensures
            game@ == TetrisView::initial(kind),
            game@.wf(),
    {
        Tetris {
            game_map: new_field(FIELD_HEIGHT, FIELD_WIDTH),
            current_piece: None,
            next_piece: spawn(kind),
            holding_piece: None,
            score: 0,
            nb_lines: 0,
            current_level: 1,
        }
    }

    /// A game at its start, with a piece of a kind drawn at random waiting to enter.
    pub fn new() -> (game: Tetris)
        ensures
            game@.wf(),
            exists|first: u8, second: u8|
                game@ == TetrisView::initial(drawn_kind(None, first, second)),
    {
        let kind = next_kind(None);
        let game = Tetris::with_next(kind);
        proof {
            let (first, second) = choose|first: u8, second: u8|
                kind == drawn_kind(None, first, second);
            assert(game@ == TetrisView::initial(drawn_kind(None, first, second)));
        }
        game
    }

    /// Whether the game is over: no piece is falling and the next one does
    /// not fit where it would enter.
    pub fn is_game_over(&self) -> (over: bool)
        requires
            self@.wf(),
        ensures
            over == self@.game_over(),
    {
        self.current_piece.is_none() && !self.next_piece.test_current_position(&self.game_map)
    }

    /// Locks the falling piece: writes its cells into the field, clears the
    /// full rows, counts them, and leaves no piece falling.
    pub fn make_permanent(&mut self)
        requires
            old(self)@.wf(),
        ensures
            final(self)@ == old(self)@.locked(),
            final(self)@.wf(),
            same_size(final(self)@.field, old(self)@.field),
            final(self)@.current.is_none(),
            old(self)@.current.is_some() ==> forall|r: int|
                0 <= r < final(self)@.field.len() ==> !row_full(#[trigger] final(self)@.field[r]),
            old(self)@.current.is_some() ==> final(self)@.lines == capped(
                old(self)@.lines + old(self)@.rows_cleared_by_lock(),
            ),
            old(self)@.lines + old(self)@.rows_cleared_by_lock() <= u32::MAX ==> final(self)@.lines
                == old(self)@.lines + old(self)@.rows_cleared_by_lock(),
            old(self)@.current.is_some() && old(self)@.current.unwrap().fits_in(old(self)@.field)
                ==> taken(final(self)@.field) + old(self)@.field[0].len()
                * old(self)@.rows_cleared_by_lock() == taken(old(self)@.field) + shape_cells(
                old(self)@.current.unwrap().shape(),
            ),
            final(self)@.score >= old(self)@.score,
            final(self)@.lines >= old(self)@.lines,
            final(self)@.level >= old(self)@.level,
    {
        if let Some(piece) = &self.current_piece {
            proof {
                lemma_lock(self@);
                if piece@.fits_in(self@.field) {
                    lemma_lock_cell_count(self@);
                }
            }
            assert(piece@.shape() == piece.states[piece.current_state as int].deep_view());
            stamp(
                &mut self.game_map,
                &piece.states[piece.current_state as usize],
                piece.x,
                piece.y,
                piece.kind.value(),
            );
            let rows = clear_full_rows(&mut self.game_map);
            let points = reward_for(rows);
            self.score = if points > u32::MAX - self.score {
                u32::MAX
            } else {
                self.score + points
            };
            self.nb_lines = if rows > (u32::MAX - self.nb_lines) as usize {
                u32::MAX
            } else {
                self.nb_lines + rows as u32
            };
            self.current_level = level_of(self.nb_lines);
            self.current_piece = None;
        }
    }

    /// Tries to move the falling piece so that its anchor is at column
    /// `new_x` of row `new_y`. A piece that does not fit there is locked
    /// where it is if `new_y` is not its own row, and stays as it is if it is.
    /// A move along the piece's own row therefore never locks it.
    pub fn move_piece(&mut self, new_x: isize, new_y: usize) -> (outcome: MoveOutcome)
        requires
            old(self)@.wf(),
        ensures
            final(self)@ == old(self)@.shifted(new_x as int, new_y as int),
            final(self)@.wf(),
            same_size(final(self)@.field, old(self)@.field),
            outcome == old(self)@.shift_outcome(new_x as int, new_y as int),
            outcome == MoveOutcome::Locked ==> forall|r: int|
                0 <= r < final(self)@.field.len() ==> !row_full(#[trigger] final(self)@.field[r]),
            final(self)@.score >= old(self)@.score,
            final(self)@.lines >= old(self)@.lines,
            final(self)@.level >= old(self)@.level,
            old(self)@.current matches Some(piece) && new_y == piece.y ==> {
                &&& outcome != MoveOutcome::Locked
                &&& final(self)@.current.is_some()
                &&& final(self)@.field == old(self)@.field
                &&& final(self)@.score == old(self)@.score
                &&& final(self)@.lines == old(self)@.lines
            },
    {
        let mut outcome = MoveOutcome::Blocked;
        match &mut self.current_piece {
            Some(piece) => {
                if piece.change_position(&self.game_map, new_x, new_y) {
                    outcome = MoveOutcome::Moved;
                } else if new_y != piece.y {
                    outcome = MoveOutcome::Locked;
                }
            },
            None => {},
        }
        if outcome == MoveOutcome::Locked {
            self.make_permanent();
        }
        outcome
    }

    /// Rotates the falling piece, if there is one and it fits in its next
    /// state with one of the kicks.
    pub fn rotate(&mut self)
        requires
            old(self)@.wf(),
        ensures
            final(self)@ == old(self)@.rotated(),
            final(self)@.wf(),
            final(self)@.field == old(self)@.field,
    {
        match &mut self.current_piece {
            Some(piece) => {
                piece.rotate(&self.game_map);
            },
            None => {},
        }
    }

    /// Lets the falling piece fall as far as it can and locks it there.
    /// Says whether there was a piece to drop.
    pub fn hard_drop(&mut self) -> (dropped: bool)
        requires
            old(self)@.wf(),
        ensures
            final(self)@ == old(self)@.hard_dropped(),
            final(self)@.wf(),
            same_size(final(self)@.field, old(self)@.field),
            final(self)@.current.is_none(),
            dropped == old(self)@.current.is_some(),
            dropped ==> forall|r: int|
                0 <= r < final(self)@.field.len() ==> !row_full(#[trigger] final(self)@.field[r]),
            final(self)@.score >= old(self)@.score,
            final(self)@.lines >= old(self)@.lines,
            final(self)@.level >= old(self)@.level,
    {
        let mut dropped = false;
        match &mut self.current_piece {
            Some(piece) => {
                piece.drop_down(&self.game_map);
                dropped = true;
            },
            None => {},
        }
        self.make_permanent();
        dropped
    }

    /// The gravity tick. Once `elapsed_ms` milliseconds without a fall are
    /// more than the level allows, the time is over: the falling piece goes
    /// one row down, or is locked if it cannot. Says whether the time was
    /// over, after which the caller counts the time anew.
    pub fn tick(&mut self, elapsed_ms: u64) -> (over: bool)
        requires
            old(self)@.wf(),
        ensures
            final(self)@ == old(self)@.ticked(elapsed_ms as nat),
            final(self)@.wf(),
            same_size(final(self)@.field, old(self)@.field),
            over == (elapsed_ms > gravity_interval(old(self)@.level)),
            final(self)@.score >= old(self)@.score,
            final(self)@.lines >= old(self)@.lines,
            final(self)@.level >= old(self)@.level,
    {
        let ghost before = self@;
        if is_time_over(elapsed_ms, self.current_level) {
            let mut lock = false;
            let rows = self.game_map.len();
            match &mut self.current_piece {
                Some(piece) => {
                    if piece.y == usize::MAX {
                        proof {
                            if fits(self.game_map.deep_view(), piece@.shape(), piece@.x, piece@.y + 1) {
                                lemma_fits_bounds(
                                    self.game_map.deep_view(),
                                    piece@.shape(),
                                    piece@.x,
                                    piece@.y + 1,
                                );
                            }
                        }
                        lock = true;
                    } else {
                        let x = piece.x;
                        let y = piece.y + 1;
                        lock = !piece.change_position(&self.game_map, x, y);
                    }
                },
                None => {},
            }
            if lock {
                self.make_permanent();
            }
            true
        } else {
            false
        }
    }

    /// Asks the next piece to enter the field, with a fresh piece of `kind`
    /// to follow it in the queue. Nothing happens while a piece is falling.
    /// With none falling, the next piece becomes the falling piece if it fits
    /// where it stands; if it does not, the game is over and the piece is
    /// never made the falling one. Says whether a piece is falling after the
    /// call.
    pub fn spawn_next_with(&mut self, kind: Kind) -> (falling: bool)
        requires
            old(self)@.wf(),
        ensures
            final(self)@ == old(self)@.promoted(kind),
            final(self)@.wf(),
            final(self)@.field == old(self)@.field,
            falling == final(self)@.current.is_some(),
            !falling <==> old(self)@.game_over(),
            !falling ==> final(self)@ == old(self)@,
    {
        if self.current_piece.is_some() {
            return true;
        }
        if !self.next_piece.test_current_position(&self.game_map) {
            return false;
        }
        let mut entering = spawn(kind);
        std::mem::swap(&mut self.next_piece, &mut entering);
        self.current_piece = Some(entering);
        true
    }

    /// Asks the next piece to enter the field and draws the kind of the piece
    /// that follows it, after the kind of the piece that enters. The draw is
    /// made only when a piece does enter.
    pub fn spawn_next(&mut self) -> (falling: bool)
        requires
            old(self)@.wf(),
        ensures
            exists|first: u8, second: u8|
                final(self)@ == old(self)@.promoted(
                    drawn_kind(Some(old(self)@.next.kind), first, second),
                ),
            final(self)@.wf(),
            final(self)@.field == old(self)@.field,
            falling == final(self)@.current.is_some(),
            !falling <==> old(self)@.game_over(),
            !falling ==> final(self)@ == old(self)@,
    {
        let ghost before = self@;
        if self.current_piece.is_some() {
            assert(self@ == before.promoted(drawn_kind(Some(before.next.kind), 0, 0)));
            return true;
        }
        if !self.next_piece.test_current_position(&self.game_map) {
            assert(self@ == before.promoted(drawn_kind(Some(before.next.kind), 0, 0)));
            return false;
        }
        let kind = next_kind(Some(self.next_piece.kind));
        let falling = self.spawn_next_with(kind);
        proof {
            let (first, second) = choose|first: u8, second: u8|
                kind == drawn_kind(Some(before.next.kind), first, second);
            assert(self@ == before.promoted(drawn_kind(Some(before.next.kind), first, second)));
        }
        falling
    }

    /// The hold, with a fresh piece of `kind` for the queue should the next
    /// piece enter. With a piece held, it and the falling piece change places,
    /// both put into the pose in which a piece enters. With none held, the
    /// falling piece is put aside in that pose and the next piece is asked to
    /// enter. Nothing happens when no piece is falling.
    pub fn hold_piece_with(&mut self, kind: Kind)
        requires
            old(self)@.wf(),
        ensures
            final(self)@ == old(self)@.held_swapped(kind),
            final(self)@.wf(),
            final(self)@.field == old(self)@.field,
            old(self)@.current.is_some() ==> final(self)@.held == Some(
                old(self)@.current.unwrap().respawned(),
            ),
    {
        let falling = self.current_piece.take();
        match falling {
            Some(mut piece) => {
                piece.respawn();
                let held = self.holding_piece.take();
                self.holding_piece = Some(piece);
                match held {
                    Some(mut back) => {
                        back.respawn();
                        self.current_piece = Some(back);
                    },
                    None => {
                        self.spawn_next_with(kind);
                    },
                }
            },
            None => {},
        }
    }

    /// The hold. The kind of the piece that would follow in the queue is
    /// drawn only when the next piece does enter.
    pub fn hold_piece(&mut self)
        requires
            old(self)@.wf(),
        ensures
            exists|first: u8, second: u8|
                final(self)@ == old(self)@.held_swapped(
                    drawn_kind(Some(old(self)@.next.kind), first, second),
                ),
            final(self)@.wf(),
            final(self)@.field == old(self)@.field,
    {
        let ghost before = self@;
        let entering = self.current_piece.is_some() && self.holding_piece.is_none()
            && self.next_piece.test_current_position(&self.game_map);
        if entering {
            let kind = next_kind(Some(self.next_piece.kind));
            self.hold_piece_with(kind);
            proof {
                let (first, second) = choose|first: u8, second: u8|
                    kind == drawn_kind(Some(before.next.kind), first, second);
                assert(self@ == before.held_swapped(
                    drawn_kind(Some(before.next.kind), first, second),
                ));
            }
        } else {
            self.hold_piece_with(Kind::I);
            assert(self@ == before.held_swapped(drawn_kind(Some(before.next.kind), 0, 0)));
        }
    }

    /// Where the falling piece would come to rest if it were dropped now:
    /// a copy of it at its landing row. The game itself is not touched.
    pub fn drop_preview(&self) -> (preview: Option<Tetrimino>)
        requires
            self@.wf(),
        ensures
            piece_view(preview) == match self@.current {
                Some(piece) => Some(piece.dropped(self@.field)),
                None => None,
            },
    {
        match &self.current_piece {
            Some(piece) => {
                let mut copy = piece.clone();
                copy.drop_down(&self.game_map);
                Some(copy)
            },
            None => None,
        }
    }
}

} // verus!
