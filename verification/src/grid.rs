//! Addressing of the grid and the moves between adjacent cells.
//!
//! A grid has `rows` rows and `cols` columns. The cell at `(row, col)` has the
//! index `row + col * rows`, so the cells of one column follow each other.

use vstd::prelude::*;
use vstd::arithmetic::div_mod::{lemma_fundamental_div_mod, lemma_fundamental_div_mod_converse};
use crate::params::{MOVE_EAST, MOVE_NORTH, MOVE_SOUTH, MOVE_WEST};

verus! {

/// The index of the cell at `(row, col)`.
pub open spec fn cell_index(rows: int, row: int, col: int) -> int {
    row + col * rows
}

/// Where a migration draw sends an individual of the cell at `(row, col)`:
/// the adjacent cell in the drawn direction, or nowhere when the draw names
/// no direction or the direction leads off the grid.
pub open spec fn target(rows: int, cols: int, row: int, col: int, draw: u32) -> Option<(int, int)> {
    if draw == MOVE_WEST && col > 0 {
        Some((row, col - 1))
    } else if draw == MOVE_NORTH && row > 0 {
        Some((row - 1, col))
    } else if draw == MOVE_EAST && col < cols - 1 {
        Some((row, col + 1))
    } else if draw == MOVE_SOUTH && row < rows - 1 {
        Some((row + 1, col))
    } else {
        None
    }
}

/// The index of the cell to which a migration draw sends an individual of
/// the cell with index `cell`, if any.
pub open spec fn heads_to(rows: int, cols: int, cell: int, draw: u32) -> Option<int> {
    match target(rows, cols, cell % rows, cell / rows, draw) {
        Some((row, col)) => Some(cell_index(rows, row, col)),
        None => None,
    }
}

/// The index of a cell inside the grid is below the number of cells, and
/// gives back the cell's row and column.
pub proof fn lemma_cell_index(rows: int, cols: int, row: int, col: int)
    requires
        0 <= row < rows,
        0 <= col < cols,
    ensures
        0 <= cell_index(rows, row, col) < rows * cols,
        cell_index(rows, row, col) % rows == row,
        cell_index(rows, row, col) / rows == col,
{
    assert(col * rows + rows <= cols * rows) by (nonlinear_arith)
        requires
            0 <= col < cols,
            0 < rows,
    ;
    assert(0 <= col * rows) by (nonlinear_arith)
        requires
            0 <= col,
            0 < rows,
    ;
    assert(rows * cols == cols * rows) by (nonlinear_arith);
    lemma_fundamental_div_mod_converse(cell_index(rows, row, col), rows, col, row);
}

/// An index below the number of cells names a cell inside the grid.
pub proof fn lemma_cell_coords(rows: int, cols: int, cell: int)
    requires
        0 < rows,
        0 <= cell < rows * cols,
    ensures
        0 <= cell % rows < rows,
        0 <= cell / rows < cols,
        cell_index(rows, cell % rows, cell / rows) == cell,
{
    lemma_fundamental_div_mod(cell, rows);
    let q = cell / rows;
    assert(rows * q == q * rows) by (nonlinear_arith);
    if q >= cols {
        assert(q * rows >= cols * rows) by (nonlinear_arith)
            requires
                q >= cols,
                0 < rows,
        ;
        assert(rows * cols == cols * rows) by (nonlinear_arith);
    }
    if q < 0 {
        assert(q * rows <= -rows) by (nonlinear_arith)
            requires
                q <= -1,
                0 < rows,
        ;
    }
}

/// No draw moves an individual off the grid: west of column 0, north of row
/// 0, east of the last column and south of the last row it stays.
pub proof fn lemma_edges_hold(rows: int, cols: int, row: int, col: int)
    ensures
        target(rows, cols, row, 0, MOVE_WEST) is None,
        target(rows, cols, 0, col, MOVE_NORTH) is None,
        target(rows, cols, row, cols - 1, MOVE_EAST) is None,
        target(rows, cols, rows - 1, col, MOVE_SOUTH) is None,
{
}

/// A move leads to an adjacent cell inside the grid.
pub proof fn lemma_target_adjacent(rows: int, cols: int, row: int, col: int, draw: u32)
    requires
        0 <= row < rows,
        0 <= col < cols,
    ensures
        match target(rows, cols, row, col, draw) {
            Some((r, c)) => {
                &&& 0 <= r < rows
                &&& 0 <= c < cols
                &&& (r == row && (c == col - 1 || c == col + 1)) || (c == col && (r == row - 1 || r
                    == row + 1))
            },
            None => true,
        },
{
}

/// Where a migration draw sends an individual of the cell at `(row, col)`.
pub fn neighbor(rows: u16, cols: u16, row: u16, col: u16, draw: u32) -> (dest: Option<(u16, u16)>)
    ensures
        match dest {
            Some((r, c)) => target(rows as int, cols as int, row as int, col as int, draw) == Some(
                (r as int, c as int),
            ),
            None => target(rows as int, cols as int, row as int, col as int, draw) is None,
        },
{
    if draw == MOVE_WEST && col > 0 {
        Some((row, col - 1))
    } else if draw == MOVE_NORTH && row > 0 {
        Some((row - 1, col))
    } else if draw == MOVE_EAST && cols > 0 && col < cols - 1 {
        Some((row, col + 1))
    } else if draw == MOVE_SOUTH && rows > 0 && row < rows - 1 {
        Some((row + 1, col))
    } else {
        None
    }
}

/// The index of the cell to which a migration draw sends an individual of
/// the cell with index `cell`.
pub fn destination(rows: u16, cols: u16, cell: usize, draw: u32) -> (dest: Option<usize>)
    requires
        cell < rows * cols,
    ensures
        dest.is_some() == heads_to(rows as int, cols as int, cell as int, draw).is_some(),
        dest.is_some() ==> dest.unwrap() == heads_to(
            rows as int,
            cols as int,
            cell as int,
            draw,
        ).unwrap(),
        dest.is_some() ==> dest.unwrap() < rows * cols && dest.unwrap() != cell,
{
    proof {
        assert(rows > 0) by (nonlinear_arith)
            requires
                cell < rows * cols,
                cell >= 0,
                rows >= 0,
        ;
        lemma_cell_coords(rows as int, cols as int, cell as int);
    }
    let row: u16 = (cell % rows as usize) as u16;
    let col: u16 = (cell / rows as usize) as u16;
    match neighbor(rows, cols, row, col, draw) {
        Some((r, c)) => {
            proof {
                lemma_target_adjacent(rows as int, cols as int, row as int, col as int, draw);
                lemma_cell_index(rows as int, cols as int, r as int, c as int);
                assert(rows * cols <= 0xffff * 0xffff) by (nonlinear_arith)
                    requires
                        0 <= rows <= 0xffff,
                        0 <= cols <= 0xffff,
                ;
                assert(0 <= c * rows) by (nonlinear_arith)
                    requires
                        0 <= c,
                        0 <= rows,
                ;
            }
            Some(r as usize + c as usize * rows as usize)
        },
        None => None,
    }
}

} // verus!
