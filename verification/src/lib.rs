//! A falling-block puzzle engine: pieces, the play field, collision testing,
//! movement, rotation, locking, line clearing and scoring.

pub mod event;
pub mod field;
pub mod generator;
pub mod occupancy;
pub mod scores;
pub mod shapes;
pub mod tetrimino;
pub mod tetris;
