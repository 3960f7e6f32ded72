//! The intents of one frame and what they do to the game.
//!
//! The caller decodes its input into intents, in the order in which they
//! came, and hands them over once per frame. Moves to the side and soft drops
//! add up to one target, which the piece is moved to after the last intent;
//! rotations and hard drops act at once.

use crate::field::same_size;
use crate::generator::drawn_kind;
use crate::occupancy::{shape_cells, taken};
use crate::tetrimino::{lemma_landing_row, lemma_rotation, Kind, TetriminoView};
use crate::tetris::{lemma_lock_cell_count, MoveOutcome, Tetris, TetrisView};
use vstd::prelude::*;

verus! {

/// What the player asks for.
#[derive(Clone, Copy, Debug, PartialEq, Eq, Structural)]
pub enum Intent {
    /// Leave the game. The intents that follow in the frame are dropped.
    Quit,
    /// One row down.
    Down,
    /// One column to the right.
    Right,
    /// One column to the left.
    Left,
    /// Rotate the piece.
    Rotate,
    /// Put the piece aside, or take the held one back.
    Hold,
    /// Drop the piece as far as it falls and lock it.
    HardDrop,
}

/// What a frame's intents have come to so far.
pub ghost struct Frame {
    /// The falling piece.
    pub piece: TetriminoView,
    /// The column that the moves to the side add up to.
    pub target_x: int,
    /// The row that the soft drops add up to.
    pub target_y: int,
    /// The player asked to leave.
    pub quit: bool,
    /// The player asked for a hold.
    pub hold: bool,
    /// The piece was dropped.
    pub dropped: bool,
    /// A soft drop was asked for.
    pub soft_drop: bool,
}

impl Frame {
    /// A frame before its first intent: the target is the piece's own place.
    pub open spec fn start(piece: TetriminoView) -> Frame {
        Frame {
            piece,
            target_x: piece.x,
            target_y: piece.y,
            quit: false,
            hold: false,
            dropped: false,
            soft_drop: false,
        }
    }

    /// The frame after one more intent. The target stops at the ends of the
    /// machine's range; after a quit nothing changes any more.
    pub open spec fn step(self, field: Seq<Seq<u8>>, intent: Intent) -> Frame {
        if self.quit {
            self
        } else {
            match intent {
                Intent::Quit => Frame { quit: true, ..self },
                Intent::Down => Frame {
                    target_y: if self.target_y < usize::MAX {
                        self.target_y + 1
                    } else {
                        self.target_y
                    },
                    soft_drop: true,
                    ..self
                },
                Intent::Right => Frame {
                    target_x: if self.target_x < isize::MAX {
                        self.target_x + 1
                    } else {
                        self.target_x
                    },
                    ..self
                },
                Intent::Left => Frame {
                    target_x: if self.target_x > isize::MIN {
                        self.target_x - 1
                    } else {
                        self.target_x
                    },
                    ..self
                },
                Intent::Rotate => Frame { piece: self.piece.rotated(field), ..self },
                Intent::Hold => Frame { hold: true, ..self },
                Intent::HardDrop => Frame {
                    piece: self.piece.dropped(field),
                    dropped: true,
                    ..self
                },
            }
        }
    }

    /// The frame after the given intents, taken in order.
    pub open spec fn after(piece: TetriminoView, field: Seq<Seq<u8>>, intents: Seq<Intent>) -> Frame
        decreases intents.len(),
    {
        if intents.len() == 0 {
            Frame::start(piece)
        } else {
            Frame::after(piece, field, intents.drop_last()).step(field, intents.last())
        }
    }
}

/// The game after a frame's intents, the hold left aside. Without a falling
/// piece the intents do nothing. Else the piece is rotated and dropped as the
/// intents say; a dropped piece is locked, one that was not is moved to the
/// target, which locks it if it does not fit there and the target is not in
/// its row.
pub open spec fn played(game: TetrisView, intents: Seq<Intent>) -> TetrisView {
    match game.current {
        None => game,
        Some(piece) => {
            let frame = Frame::after(piece, game.field, intents);
            let turned = TetrisView { current: Some(frame.piece), ..game };
            if frame.dropped {
                turned.locked()
            } else {
                turned.shifted(frame.target_x, frame.target_y)
            }
        },
    }
}

/// Whether the frame's intents ask for a hold.
pub open spec fn hold_asked(game: TetrisView, intents: Seq<Intent>) -> bool {
    match game.current {
        None => false,
        Some(piece) => Frame::after(piece, game.field, intents).hold,
    }
}

/// The game after a frame's intents: the hold, if one was asked for, comes
/// last, `kind` being the kind of the fresh piece should the hold let the
/// next piece enter.
pub open spec fn handled(game: TetrisView, intents: Seq<Intent>, kind: Kind) -> TetrisView {
    if hold_asked(game, intents) {
        played(game, intents).held_swapped(kind)
    } else {
        played(game, intents)
    }
}

/// Whether the frame's intents lock the falling piece.
pub open spec fn locks(game: TetrisView, intents: Seq<Intent>) -> bool {
    match game.current {
        None => false,
        Some(piece) => {
            let frame = Frame::after(piece, game.field, intents);
            let turned = TetrisView { current: Some(frame.piece), ..game };
            frame.dropped || turned.shift_outcome(frame.target_x, frame.target_y)
                == MoveOutcome::Locked
        },
    }
}

/// What a frame's intents led to.
#[derive(Clone, Copy, Debug, PartialEq, Eq, Structural)]
pub struct EventOutcome {
    /// The falling piece was locked.
    pub locked: bool,
    /// The player asked to leave.
    pub quit: bool,
    /// The time until the next fall counts anew: a soft drop was asked for or the piece was locked.
    pub timer_reset: bool,
}

/// What the frame's intents lead to.
pub open spec fn outcome_of(game: TetrisView, intents: Seq<Intent>) -> EventOutcome {
    match game.current {
        None => EventOutcome { locked: false, quit: false, timer_reset: false },
        Some(piece) => {
            let frame = Frame::after(piece, game.field, intents);
            EventOutcome {
                locked: locks(game, intents),
                quit: frame.quit,
                timer_reset: frame.soft_drop || locks(game, intents),
            }
        },
    }
}

/// Applies a frame's intents to the game, but for the hold, and says with
/// the outcome whether a hold was asked for.
fn play_intents(tetris: &mut Tetris, intents: &[Intent]) -> (r: (EventOutcome, bool))
    requires
        old(tetris)@.wf(),
    ensures
        final(tetris)@ == played(old(tetris)@, intents@),
        final(tetris)@.wf(),
        same_size(final(tetris)@.field, old(tetris)@.field),
        final(tetris)@.next == old(tetris)@.next,
        r.0 == outcome_of(old(tetris)@, intents@),
        r.1 == hold_asked(old(tetris)@, intents@),
{
    let ghost before = tetris@;
    let ghost field = before.field;
    let taken = tetris.current_piece.take();
    match taken {
        None => { (EventOutcome { locked: false, quit: false, timer_reset: false }, false) },
        Some(mut piece) => {
            let ghost start = piece@;
            let mut tmp_x = piece.x;
            let mut tmp_y = piece.y;
            let mut quit = false;
            let mut hold = false;
            let mut make_permanent = false;
            let mut timer_reset = false;
            let mut i: usize = 0;
            while i < intents.len() && !quit
                invariant
                    0 <= i <= intents.len(),
                    field == tetris.game_map.deep_view(),
                    start.wf(),
                    piece@.wf(),
                    Frame::after(start, field, intents@.subrange(0, i as int)) == (Frame {
                        piece: piece@,
                        target_x: tmp_x as int,
                        target_y: tmp_y as int,
                        quit,
                        hold,
                        dropped: make_permanent,
                        soft_drop: timer_reset,
                    }),
                decreases intents.len() - i,
            {
                proof {
                    assert(intents@.subrange(0, i + 1).drop_last() == intents@.subrange(
                        0,
                        i as int,
                    ));
                    assert(intents@.subrange(0, i + 1).last() == intents@[i as int]);
                }
                match intents[i] {
                    Intent::Quit => {
                        quit = true;
                    },
                    Intent::Down => {
                        timer_reset = true;
                        if tmp_y < usize::MAX {
                            tmp_y = tmp_y + 1;
                        }
                    },
                    Intent::Right => {
                        if tmp_x < isize::MAX {
                            tmp_x = tmp_x + 1;
                        }
                    },
                    Intent::Left => {
                        if tmp_x > isize::MIN {
                            tmp_x = tmp_x - 1;
                        }
                    },
                    Intent::Rotate => {
                        piece.rotate(&tetris.game_map);
                    },
                    Intent::Hold => {
                        hold = true;
                    },
                    Intent::HardDrop => {
                        piece.drop_down(&tetris.game_map);
                        make_permanent = true;
                    },
                }
                i += 1;
            }
            proof {
                lemma_quit_ends_frame(start, field, intents@, i as int);
            }
            tetris.current_piece = Some(piece);
            if make_permanent {
                tetris.make_permanent();
            } else {
                make_permanent = tetris.move_piece(tmp_x, tmp_y) == MoveOutcome::Locked;
            }
            (
                EventOutcome {
                    locked: make_permanent,
                    quit,
                    timer_reset: timer_reset || make_permanent,
                },
                hold,
            )
        },
    }
}

/// Applies a frame's intents to the game, with a fresh piece of `kind` for
/// the queue should a hold let the next piece enter.
pub fn handle_events_with(tetris: &mut Tetris, intents: &[Intent], kind: Kind) -> (outcome:
    EventOutcome)
    requires
        old(tetris)@.wf(),
    ensures
        final(tetris)@ == handled(old(tetris)@, intents@, kind),
        final(tetris)@.wf(),
        same_size(final(tetris)@.field, old(tetris)@.field),
        outcome == outcome_of(old(tetris)@, intents@),
{
    let (outcome, hold) = play_intents(tetris, intents);
    if hold {
        tetris.hold_piece_with(kind);
    }
    outcome
}

/// A piece that is well formed and fits the field is so after any intents:
/// a rotation and a drop leave it where it fits.
pub proof fn lemma_frame_piece_fits(piece: TetriminoView, field: Seq<Seq<u8>>, intents: Seq<Intent>)
    requires
        piece.wf(),
        piece.fits_in(field),
    ensures
        Frame::after(piece, field, intents).piece.wf(),
        Frame::after(piece, field, intents).piece.fits_in(field),
        Frame::after(piece, field, intents).piece.kind == piece.kind,
        Frame::after(piece, field, intents).piece.states == piece.states,
    decreases intents.len(),
{
    if intents.len() > 0 {
        lemma_frame_piece_fits(piece, field, intents.drop_last());
        let before = Frame::after(piece, field, intents.drop_last()).piece;
        lemma_rotation(before, field);
        lemma_landing_row(field, before.shape(), before.x, before.y);
    }
}

/// What a frame does to the taken cells of the field, for a falling piece
/// that fits. A frame that does not lock the piece leaves the field as it
/// is. One that locks it adds the cells of the piece and takes away those of
/// the rows cleared, as many as the field is wide for each row.
pub proof fn lemma_frame_cell_count(game: TetrisView, intents: Seq<Intent>, kind: Kind)
    requires
        game.wf(),
        game.current.is_some(),
        game.current.unwrap().fits_in(game.field),
    ensures
        !locks(game, intents) ==> handled(game, intents, kind).field == game.field,
        locks(game, intents) ==> {
            let piece = Frame::after(game.current.unwrap(), game.field, intents).piece;
            let turned = TetrisView { current: Some(piece), ..game };
            taken(handled(game, intents, kind).field) + game.field[0].len()
                * turned.rows_cleared_by_lock() == taken(game.field) + shape_cells(piece.shape())
        },
{
    let piece = Frame::after(game.current.unwrap(), game.field, intents).piece;
    let turned = TetrisView { current: Some(piece), ..game };
    lemma_frame_piece_fits(game.current.unwrap(), game.field, intents);
    lemma_lock_cell_count(turned);
}

/// Whether every intent is a move to the left or to the right.
pub open spec fn sideways_only(intents: Seq<Intent>) -> bool {
    forall|i: int|
        0 <= i < intents.len() ==> #[trigger] intents[i] == Intent::Left || intents[i]
            == Intent::Right
}

/// Moves to the side leave the piece as it is and the target in its row.
pub proof fn lemma_sideways_frame(piece: TetriminoView, field: Seq<Seq<u8>>, intents: Seq<Intent>)
    requires
        sideways_only(intents),
    ensures
        Frame::after(piece, field, intents).piece == piece,
        Frame::after(piece, field, intents).target_y == piece.y,
        !Frame::after(piece, field, intents).dropped,
        !Frame::after(piece, field, intents).quit,
        !Frame::after(piece, field, intents).hold,
        !Frame::after(piece, field, intents).soft_drop,
    decreases intents.len(),
{
    if intents.len() > 0 {
        assert(sideways_only(intents.drop_last())) by {
            assert forall|i: int| 0 <= i < intents.drop_last().len() implies #[trigger] intents.drop_last()[i]
                == Intent::Left || intents.drop_last()[i] == Intent::Right by {
                assert(intents.drop_last()[i] == intents[i]);
            }
        }
        lemma_sideways_frame(piece, field, intents.drop_last());
        assert(intents.last() == intents[intents.len() - 1]);
    }
}

/// A frame of moves to the side never locks the falling piece: the field,
/// the score and the lines stay as they are and the piece goes on falling.
pub proof fn lemma_sideways_frame_never_locks(game: TetrisView, intents: Seq<Intent>, kind: Kind)
    requires
        game.current.is_some(),
        sideways_only(intents),
    ensures
        !locks(game, intents),
        !outcome_of(game, intents).locked,
        handled(game, intents, kind).current.is_some(),
        handled(game, intents, kind).field == game.field,
        handled(game, intents, kind).score == game.score,
        handled(game, intents, kind).lines == game.lines,
{
    lemma_sideways_frame(game.current.unwrap(), game.field, intents);
}

/// Once a frame holds a quit, the intents that follow change nothing.
pub proof fn lemma_quit_ends_frame(
    piece: TetriminoView,
    field: Seq<Seq<u8>>,
    intents: Seq<Intent>,
    i: int,
)
    requires
        0 <= i <= intents.len(),
        i == intents.len() || Frame::after(piece, field, intents.subrange(0, i)).quit,
    ensures
        Frame::after(piece, field, intents) == Frame::after(piece, field, intents.subrange(0, i)),
    decreases intents.len() - i,
{
    if i == intents.len() {
        assert(intents.subrange(0, i) == intents);
    } else {
        assert(intents.subrange(0, i + 1).drop_last() == intents.subrange(0, i));
        lemma_quit_ends_frame(piece, field, intents, i + 1);
    }
}

/// Applies a frame's intents to the game. Where a hold lets the next piece
/// enter, the kind of the piece that follows it is drawn at random.
pub fn handle_events(tetris: &mut Tetris, intents: &[Intent]) -> (outcome: EventOutcome)
    requires
        old(tetris)@.wf(),
    ensures
        exists|first: u8, second: u8|
            final(tetris)@ == handled(
                old(tetris)@,
                intents@,
                drawn_kind(Some(old(tetris)@.next.kind), first, second),
            ),
        final(tetris)@.wf(),
        same_size(final(tetris)@.field, old(tetris)@.field),
        outcome == outcome_of(old(tetris)@, intents@),
{
    let ghost before = tetris@;
    let (outcome, hold) = play_intents(tetris, intents);
    if hold {
        tetris.hold_piece();
    } else {
        assert(tetris@ == handled(before, intents@, drawn_kind(Some(before.next.kind), 0, 0)));
    }
    outcome
}

} // verus!
