//! Sums over the cells of a grid.

use crate::grid::Cell;
use vstd::prelude::*;

verus! {

/// The cell at a row and a column that fit an `i32`.
pub open spec fn at(row: int, column: int) -> Cell {
    Cell { row: row as i32, column: column as i32 }
}

/// The sum of `f` over the first `columns` cells of a row.
pub open spec fn row_total(f: spec_fn(Cell) -> int, row: int, columns: nat) -> int
    decreases columns,
{
    if columns == 0 {
        0
    } else {
        row_total(f, row, (columns - 1) as nat) + f(at(row, columns - 1))
    }
}

/// The sum of `f` over the first `columns` cells of the first `rows` rows.
pub open spec fn grid_total(f: spec_fn(Cell) -> int, rows: nat, columns: nat) -> int
    decreases rows,
{
    if rows == 0 {
        0
    } else {
        grid_total(f, (rows - 1) as nat, columns) + row_total(f, rows - 1, columns)
    }
}

/// The cell lies in the first `columns` columns of the first `rows` rows.
pub open spec fn within(cell: Cell, rows: nat, columns: nat) -> bool {
    0 <= cell.row < rows && 0 <= cell.column < columns
}

/// Two functions that differ at one cell only have row sums that differ by
/// as much, where the row holds that cell, and equal row sums elsewhere.
pub proof fn lemma_row_change(
    f: spec_fn(Cell) -> int,
    g: spec_fn(Cell) -> int,
    row: int,
    columns: nat,
    cell: Cell,
)
    requires
        0 <= row <= i32::MAX,
        columns <= i32::MAX,
        forall|c: Cell| c != cell ==> #[trigger] f(c) == g(c),
    ensures
        row_total(g, row, columns) == row_total(f, row, columns) + (if cell.row == row && 0
            <= cell.column < columns {
            g(cell) - f(cell)
        } else {
            0
        }),
    decreases columns,
{
    if columns > 0 {
        lemma_row_change(f, g, row, (columns - 1) as nat, cell);
        let last = at(row, columns - 1);
        if last != cell {
            assert(f(last) == g(last));
        }
    }
}

/// Two functions that differ at one cell only have sums that differ by as
/// much, where the cell is among those summed over, and equal sums otherwise.
pub proof fn lemma_grid_change(
    f: spec_fn(Cell) -> int,
    g: spec_fn(Cell) -> int,
    rows: nat,
    columns: nat,
    cell: Cell,
)
    requires
        rows <= i32::MAX,
        columns <= i32::MAX,
        forall|c: Cell| c != cell ==> #[trigger] f(c) == g(c),
    ensures
        grid_total(g, rows, columns) == grid_total(f, rows, columns) + (if within(
            cell,
            rows,
            columns,
        ) {
            g(cell) - f(cell)
        } else {
            0
        }),
    decreases rows,
{
    if rows > 0 {
        lemma_grid_change(f, g, (rows - 1) as nat, columns, cell);
        lemma_row_change(f, g, rows - 1, columns, cell);
    }
}

/// A row sum lies between the least and the greatest that its terms allow.
pub proof fn lemma_row_bounds(f: spec_fn(Cell) -> int, row: int, columns: nat, low: int, high: int)
    requires
        forall|c: Cell| low <= #[trigger] f(c) <= high,
    ensures
        columns * low <= row_total(f, row, columns) <= columns * high,
    decreases columns,
{
    if columns > 0 {
        lemma_row_bounds(f, row, (columns - 1) as nat, low, high);
        let last = at(row, columns - 1);
        assert(low <= f(last) <= high);
        assert(columns * low == (columns - 1) * low + low) by (nonlinear_arith);
        assert(columns * high == (columns - 1) * high + high) by (nonlinear_arith);
    } else {
        assert(columns * low == 0 && columns * high == 0) by (nonlinear_arith)
            requires
                columns == 0,
        ;
    }
}

/// A sum lies between the least and the greatest that its terms allow.
pub proof fn lemma_grid_bounds(
    f: spec_fn(Cell) -> int,
    rows: nat,
    columns: nat,
    low: int,
    high: int,
)
    requires
        forall|c: Cell| low <= #[trigger] f(c) <= high,
    ensures
        rows * (columns * low) <= grid_total(f, rows, columns) <= rows * (columns * high),
    decreases rows,
{
    if rows > 0 {
        lemma_grid_bounds(f, (rows - 1) as nat, columns, low, high);
        lemma_row_bounds(f, rows - 1, columns, low, high);
        let a = columns * low;
        let b = columns * high;
        assert(rows * a == (rows - 1) * a + a) by (nonlinear_arith);
        assert(rows * b == (rows - 1) * b + b) by (nonlinear_arith);
    } else {
        assert(rows * (columns * low) == 0 && rows * (columns * high) == 0) by (nonlinear_arith)
            requires
                rows == 0,
        ;
    }
}

} // verus!
