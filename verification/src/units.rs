//! The twenty-seven units of the board and the cells they hold.
//!
//! Cells are numbered row by row: cell `9 * row + column`. Units 0 to 8 are
//! the rows from top to bottom, units 9 to 17 the columns from left to right,
//! and units 18 to 26 the boxes, numbered down the left band of boxes first,
//! then down the middle band, then down the right one.

use vstd::prelude::*;

verus! {

/// The cell at position `k` (0 to 8) of unit `u` (0 to 26).
pub open spec fn unit_cell(u: int, k: int) -> int {
    if u < 9 {
        9 * u + k
    } else if u < 18 {
        9 * k + (u - 9)
    } else {
        27 * ((u - 18) % 3) + 3 * ((u - 18) / 3) + 9 * (k % 3) + k / 3
    }
}

/// The row that holds cell `c`.
pub open spec fn row_unit(c: int) -> int {
    c / 9
}

/// The column that holds cell `c`.
pub open spec fn column_unit(c: int) -> int {
    9 + c % 9
}

/// The box that holds cell `c`.
pub open spec fn box_unit(c: int) -> int {
    18 + 3 * ((c % 9) / 3) + (c / 9) / 3
}

/// Whether unit `u` holds cell `c`.
pub open spec fn in_unit(u: int, c: int) -> bool {
    u == row_unit(c) || u == column_unit(c) || u == box_unit(c)
}

/// The position of cell `c` within unit `u`, for a unit that holds it.
pub open spec fn position_in(u: int, c: int) -> int {
    if u < 9 {
        c % 9
    } else if u < 18 {
        c / 9
    } else {
        3 * ((c % 9) % 3) + (c / 9) % 3
    }
}

/// A unit's positions name cells of the board, and only cells of that unit.
pub proof fn lemma_unit_cell(u: int, k: int)
    requires
        0 <= u < 27,
        0 <= k < 9,
    ensures
        0 <= unit_cell(u, k) < 81,
        in_unit(u, unit_cell(u, k)),
        position_in(u, unit_cell(u, k)) == k,
{
}

/// Every cell sits in its row, its column and its box, at a position that
/// leads back to it.
pub proof fn lemma_cell_units(u: int, c: int)
    requires
        0 <= c < 81,
        in_unit(u, c),
    ensures
        0 <= u < 27,
        0 <= position_in(u, c) < 9,
        unit_cell(u, position_in(u, c)) == c,
{
}

/// The index of the cell at position `k` of unit `u`.
pub(crate) fn unit_cell_index(u: usize, k: usize) -> (c: usize)
    requires
        u < 27,
        k < 9,
    ensures
        c == unit_cell(u as int, k as int),
        c < 81,
{
    if u < 9 {
        9 * u + k
    } else if u < 18 {
        9 * k + (u - 9)
    } else {
        27 * ((u - 18) % 3) + 3 * ((u - 18) / 3) + 9 * (k % 3) + k / 3
    }
}

} // verus!
