//! Verified logic core of a grid-based mine-clearing puzzle.
//!
//! The library decides where hazards are placed on a rectangular board,
//! which cells become visible in response to a player action (including
//! the zero-cascade reveal), how flags block reveals, and when
//! the game reaches its terminal state.

pub mod board;
pub mod game;
pub mod laws;

use vstd::prelude::*;

verus! {

/// A discrete (column, row) position on the grid.
#[derive(Clone, Copy, PartialEq, Eq, Structural, Debug, Hash)]
pub struct Cell {
    pub x: i32,
    pub y: i32,
}

/// The discrete half of the coordinate mapper: the front end turns a
/// continuous pointer position into a candidate column and row (offset by
/// the board's half extent and divided by the tile size); this accepts
/// the candidate only when it lies on the board.
pub fn map_candidate(x: i32, y: i32, width: i32, height: i32) -> (r: Option<Cell>)
    ensures
        match r {
            Some(c) => c.x == x && c.y == y && 0 <= x < width && 0 <= y < height,
            None => !(0 <= x < width && 0 <= y < height),
        },
{
    if x >= 0 && y >= 0 && x < width && y < height {
        Some(Cell { x, y })
    } else {
        None
    }
}

} // verus!
