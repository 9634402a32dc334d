//! The engine of a 2048-style sliding-tile game: a rectangular board of tile
//! values, the collapse and merge passes that resolve a move in one of four
//! directions, and the random spawn of a new tile after a move that changed
//! the board.
use vstd::prelude::*;

pub mod board;
pub mod game;
pub mod grid;
pub mod line;
mod random;

verus! {

} // verus!
