//! Where the board stands on a screen of character cells: a panel with a
//! border, and inside it one box for each cell of the board.

use vstd::prelude::*;

verus! {

/// Columns that the box of one cell takes.
pub const CELL_WIDTH: u16 = 9;

/// Rows that the box of one cell takes.
pub const CELL_HEIGHT: u16 = 5;

/// Columns of the panel: four boxes, the border and one column of
/// padding on each side.
pub const PANEL_WIDTH: u16 = 40;

/// Rows of the panel: four boxes and the border.
pub const PANEL_HEIGHT: u16 = 22;

/// The first screen column of the boxes in board column `x`, counted from
/// the left edge of the panel. The boxes of a row stand side by side
/// within the border and its padding.
pub fn cell_left(x: usize) -> (left: u16)
    requires
        x < 4,
    ensures
        left == 2 + CELL_WIDTH * x,
        left + CELL_WIDTH <= PANEL_WIDTH - 2,
{
    2 + CELL_WIDTH * (x as u16)
}

/// The first screen row of the boxes in board row `y`, counted from the
/// top edge of the panel. The boxes of a column stand one below the
/// other within the border.
pub fn cell_top(y: usize) -> (top: u16)
    requires
        y < 4,
    ensures
        top == 1 + CELL_HEIGHT * y,
        top + CELL_HEIGHT <= PANEL_HEIGHT - 1,
{
    1 + CELL_HEIGHT * (y as u16)
}

} // verus!
