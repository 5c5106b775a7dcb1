//! A solver for multi-token sliding puzzles.
//!
//! Tokens occupy cells of a rectangular grid.  A move slides one token in a
//! cardinal direction until it is stopped by a wall segment, the board edge,
//! or another token.  The solver finds a minimal-length sequence of moves
//! that brings a designated token onto a target cell.

use vstd::prelude::*;

pub mod board;
pub mod move_sequence;
pub mod robot_positions;
pub mod solver;
pub mod wall_configuration;

verus! {

/// A cell of the grid, addressed by row and column.
#[derive(Clone, Copy, Debug, Hash, PartialEq, Eq, Structural)]
pub struct Position {
    pub row: usize,
    pub col: usize,
}

impl Position {
    pub fn new(row: usize, col: usize) -> (p: Position)
        ensures
            p.row == row,
            p.col == col,
    {
        Position { row, col }
    }
}

/// One of the four cardinal sliding directions.
#[derive(Clone, Copy, Debug, Eq, PartialEq, Structural)]
pub enum Direction {
    Up,
    Down,
    Right,
    Left,
}

} // verus!
