//! The choice of the next piece: a kind drawn at random, drawn once more if
//! the first draw repeats the kind that came before.

use crate::shapes::{spawn, spawn_pose};
use crate::tetrimino::{Kind, Tetrimino};
use vstd::prelude::*;

verus! {

/// Whether a first draw repeats the previous kind, so that a second draw is made.
pub open spec fn redraw_needed(previous: Option<Kind>, first: u8) -> bool {
    previous == Some(Kind::from_draw_spec(first))
}

/// The kind that two draws give after `previous`: the kind of the first
/// draw, unless that repeats `previous`; then the kind of the second draw,
/// whatever it is.
pub open spec fn drawn_kind(previous: Option<Kind>, first: u8, second: u8) -> Kind {
    if redraw_needed(previous, first) {
        Kind::from_draw_spec(second)
    } else {
        Kind::from_draw_spec(first)
    }
}

/// A kind never follows itself when the two draws select different kinds.
pub proof fn lemma_no_repeat_when_draws_differ(previous: Option<Kind>, first: u8, second: u8)
    requires
        Kind::from_draw_spec(first) != Kind::from_draw_spec(second),
    ensures
        Some(drawn_kind(previous, first, second)) != previous,
{
}

/// One byte from `rand::random`, which takes it from the thread's generator.
/// Nothing is claimed of its value.
#[verifier::external_body]
fn random_byte() -> (draw: u8) {
    rand::random::<u8>()
}

/// Says whether the first draw repeats the previous kind.
pub fn is_redraw_needed(previous: Option<Kind>, first: u8) -> (r: bool)
    ensures
        r == redraw_needed(previous, first),
{
    match previous {
        Some(kind) => kind.value() == Kind::from_draw(first).value(),
        None => false,
    }
}

/// The kind that follows `previous` when the random source gives `first`
/// and, if that is needed, `second`.
pub fn kind_from_draws(previous: Option<Kind>, first: u8, second: u8) -> (kind: Kind)
    ensures
        kind == drawn_kind(previous, first, second),
        Kind::from_draw_spec(first) != Kind::from_draw_spec(second) ==> Some(kind) != previous,
{
    if is_redraw_needed(previous, first) {
        Kind::from_draw(second)
    } else {
        Kind::from_draw(first)
    }
}

/// Draws the kind of the next piece. A second draw is made only when the
/// first repeats `previous`, and is then taken as it comes.
pub fn next_kind(previous: Option<Kind>) -> (kind: Kind)
    ensures
        exists|first: u8, second: u8| kind == drawn_kind(previous, first, second),
{
    let first = random_byte();
    if is_redraw_needed(previous, first) {
        let second = random_byte();
        let kind = kind_from_draws(previous, first, second);
        assert(kind == drawn_kind(previous, first, second));
        kind
    } else {
        let kind = kind_from_draws(previous, first, first);
        assert(kind == drawn_kind(previous, first, first));
        kind
    }
}

/// A fresh piece of a kind drawn after `previous`, in the pose in which it enters the field.
pub fn create_new_tetrimino(previous: Option<Kind>) -> (piece: Tetrimino)
    ensures
        piece@.wf(),
        exists|first: u8, second: u8| piece@ == spawn_pose(drawn_kind(previous, first, second)),
{
    let kind = next_kind(previous);
    let piece = spawn(kind);
    proof {
        let (first, second) = choose|first: u8, second: u8|
            kind == drawn_kind(previous, first, second);
        assert(piece@ == spawn_pose(drawn_kind(previous, first, second)));
    }
    piece
}

} // verus!
