//! What a route on the grid is, and which routes are shortest.

use crate::grid::{Cell, CellType, GridView};
use vstd::prelude::*;

verus! {

/// The two cells share a side.
pub open spec fn adjacent(a: Cell, b: Cell) -> bool {
    ||| a.row == b.row && (a.column - b.column == 1 || b.column - a.column == 1)
    ||| a.column == b.column && (a.row - b.row == 1 || b.row - a.row == 1)
}

/// The cell lies on the grid and is no wall, so a route may enter it.
pub open spec fn passable(grid: GridView, cell: Cell) -> bool {
    grid.in_bounds(cell) && grid.state(cell) != CellType::WALL
}

/// The `i`-th cell of `cells` can be entered from the one before it.
pub open spec fn step_ok(grid: GridView, cells: Seq<Cell>, i: int) -> bool {
    adjacent(cells[i - 1], cells[i]) && passable(grid, cells[i])
}

/// `cells` leads from `start` to `end`: it begins with the one and ends with
/// the other, each cell shares a side with the one before it, and each but
/// the first lies on the grid and is no wall. Nothing is asked of `start`
/// itself.
pub open spec fn is_route(grid: GridView, start: Cell, end: Cell, cells: Seq<Cell>) -> bool {
    &&& cells.len() >= 1
    &&& cells[0] == start
    &&& cells[cells.len() - 1] == end
    &&& forall|i: int| 1 <= i < cells.len() ==> #[trigger] step_ok(grid, cells, i)
}

/// Some route leads from `start` to `end`.
pub open spec fn connected(grid: GridView, start: Cell, end: Cell) -> bool {
    exists|cells: Seq<Cell>| is_route(grid, start, end, cells)
}

/// `cells` is a route from `start` to `end`, and no route between them has
/// fewer cells.
pub open spec fn is_shortest_route(grid: GridView, start: Cell, end: Cell, cells: Seq<Cell>) -> bool {
    &&& is_route(grid, start, end, cells)
    &&& forall|other: Seq<Cell>| #[trigger]
        is_route(grid, start, end, other) ==> cells.len() <= other.len()
}

/// A route without its first and last cell.
pub open spec fn interior(cells: Seq<Cell>) -> Seq<Cell> {
    if cells.len() >= 2 {
        cells.subrange(1, cells.len() - 1)
    } else {
        Seq::empty()
    }
}

/// The number of steps between two cells when nothing stands in the way.
pub open spec fn manhattan(a: Cell, b: Cell) -> int {
    (if a.row >= b.row {
        a.row - b.row
    } else {
        b.row - a.row
    }) + (if a.column >= b.column {
        a.column - b.column
    } else {
        b.column - a.column
    })
}

/// No cell of the grid is a wall.
pub open spec fn open_grid(grid: GridView) -> bool {
    forall|c: Cell| grid.in_bounds(c) ==> #[trigger] grid.state(c) != CellType::WALL
}

/// What is left of a route after its `j`-th cell has at least as many steps
/// as the `j`-th cell is away from the end.
pub proof fn lemma_route_tail(grid: GridView, start: Cell, end: Cell, cells: Seq<Cell>, j: int)
    requires
        is_route(grid, start, end, cells),
        0 <= j < cells.len(),
    ensures
        manhattan(cells[j], end) <= cells.len() - 1 - j,
    decreases cells.len() - j,
{
    if j < cells.len() - 1 {
        assert(step_ok(grid, cells, j + 1));
        lemma_route_tail(grid, start, end, cells, j + 1);
    }
}

/// A route has at least as many steps as its ends are apart.
pub proof fn lemma_route_length(grid: GridView, start: Cell, end: Cell, cells: Seq<Cell>)
    requires
        is_route(grid, start, end, cells),
    ensures
        cells.len() >= manhattan(start, end) + 1,
{
    lemma_route_tail(grid, start, end, cells, 0);
}

/// The cell next to `end` on the way back to `start`: first along the row,
/// then along the column.
pub open spec fn toward(start: Cell, end: Cell) -> Cell {
    if end.row > start.row {
        Cell { row: (end.row - 1) as i32, column: end.column }
    } else if end.row < start.row {
        Cell { row: (end.row + 1) as i32, column: end.column }
    } else if end.column > start.column {
        Cell { row: end.row, column: (end.column - 1) as i32 }
    } else {
        Cell { row: end.row, column: (end.column + 1) as i32 }
    }
}

/// A route that first changes the row and then the column.
pub open spec fn staircase(start: Cell, end: Cell) -> Seq<Cell>
    decreases manhattan(start, end),
{
    if start == end {
        seq![start]
    } else {
        staircase(start, toward(start, end)).push(end)
    }
}

/// On a grid without walls the staircase between two of its cells is a
/// route with as many steps as the cells are apart.
pub proof fn lemma_staircase(grid: GridView, start: Cell, end: Cell)
    requires
        grid.valid(),
        open_grid(grid),
        grid.in_bounds(start),
        grid.in_bounds(end),
    ensures
        is_route(grid, start, end, staircase(start, end)),
        staircase(start, end).len() == manhattan(start, end) + 1,
    decreases manhattan(start, end),
{
    if start != end {
        let before = toward(start, end);
        lemma_staircase(grid, start, before);
        let shorter = staircase(start, before);
        let cells = staircase(start, end);
        assert(cells == shorter.push(end));
        assert forall|i: int| 1 <= i < cells.len() implies #[trigger] step_ok(grid, cells, i) by {
            if i < shorter.len() {
                assert(step_ok(grid, shorter, i));
            }
        }
    }
}

/// On a grid without walls a shortest route between two of its cells has
/// exactly as many steps as the cells are apart.
pub proof fn lemma_open_grid_shortest(grid: GridView, start: Cell, end: Cell, cells: Seq<Cell>)
    requires
        grid.valid(),
        open_grid(grid),
        grid.in_bounds(start),
        grid.in_bounds(end),
        is_shortest_route(grid, start, end, cells),
    ensures
        cells.len() == manhattan(start, end) + 1,
{
    lemma_staircase(grid, start, end);
    lemma_route_length(grid, start, end, cells);
}

/// Between two cells that share a side, the second no wall, the shortest
/// route is the two cells alone: nothing lies between them.
pub proof fn lemma_adjacent_shortest(grid: GridView, start: Cell, end: Cell, cells: Seq<Cell>)
    requires
        adjacent(start, end),
        passable(grid, end),
        is_shortest_route(grid, start, end, cells),
    ensures
        cells == seq![start, end],
        interior(cells) == Seq::<Cell>::empty(),
{
    let direct = seq![start, end];
    assert forall|i: int| 1 <= i < direct.len() implies #[trigger] step_ok(grid, direct, i) by {}
    assert(is_route(grid, start, end, direct));
    assert(cells.len() <= 2);
    assert(cells =~= direct);
    assert(interior(cells) =~= Seq::<Cell>::empty());
}

/// The cells of a route with at least one cell between its ends: each cell
/// between them lies on the grid, is no wall, and shares a side with the
/// cell before it; the last of them shares a side with `end`.
pub proof fn lemma_interior_valid(grid: GridView, start: Cell, end: Cell, cells: Seq<Cell>)
    requires
        is_route(grid, start, end, cells),
    ensures
        cells.len() >= 2 ==> cells =~= seq![start] + interior(cells) + seq![end],
        forall|i: int|
            0 <= i < interior(cells).len() ==> passable(grid, #[trigger] interior(cells)[i]),
        forall|i: int|
            1 <= i < interior(cells).len() ==> adjacent(
                interior(cells)[i - 1],
                #[trigger] interior(cells)[i],
            ),
        interior(cells).len() > 0 ==> adjacent(start, interior(cells)[0]) && adjacent(
            interior(cells)[interior(cells).len() - 1],
            end,
        ),
{
    let inner = interior(cells);
    assert forall|i: int| 0 <= i < inner.len() implies passable(grid, #[trigger] inner[i]) by {
        assert(step_ok(grid, cells, i + 1));
    }
    assert forall|i: int| 1 <= i < inner.len() implies adjacent(inner[i - 1], #[trigger] inner[i]) by {
        assert(step_ok(grid, cells, i + 1));
    }
    if inner.len() > 0 {
        assert(step_ok(grid, cells, 1));
        assert(step_ok(grid, cells, cells.len() - 1));
    }
}

/// The cell `rows` below and `columns` to the right of `cell`, where that
/// lies on the grid.
pub open spec fn shifted(grid: GridView, cell: Cell, rows: int, columns: int) -> Seq<Cell> {
    if 0 <= cell.row + rows < grid.size && 0 <= cell.column + columns < grid.size {
        seq![Cell { row: (cell.row + rows) as i32, column: (cell.column + columns) as i32 }]
    } else {
        Seq::empty()
    }
}

/// The cells of the grid that share a side with `cell`: the one to the
/// right, the one to the left, the one below and the one above, as far as
/// they lie on the grid.
pub open spec fn neighbours_of(grid: GridView, cell: Cell) -> Seq<Cell> {
    shifted(grid, cell, 0, 1) + shifted(grid, cell, 0, -1) + shifted(grid, cell, 1, 0) + shifted(
        grid,
        cell,
        -1,
        0,
    )
}

/// The neighbours of a cell are the cells of the grid that share a side
/// with it, all of them.
pub proof fn lemma_neighbours(grid: GridView, cell: Cell)
    requires
        grid.valid(),
    ensures
        forall|i: int|
            0 <= i < neighbours_of(grid, cell).len() ==> adjacent(
                cell,
                #[trigger] neighbours_of(grid, cell)[i],
            ) && grid.in_bounds(neighbours_of(grid, cell)[i]),
        forall|next: Cell| #[trigger]
            adjacent(cell, next) && grid.in_bounds(next) ==> neighbours_of(grid, cell).contains(
                next,
            ),
{
    let a = shifted(grid, cell, 0, 1);
    let b = shifted(grid, cell, 0, -1);
    let c = shifted(grid, cell, 1, 0);
    let d = shifted(grid, cell, -1, 0);
    let all = neighbours_of(grid, cell);
    assert forall|next: Cell| #[trigger] adjacent(cell, next) && grid.in_bounds(next) implies all.contains(
        next,
    ) by {
        if next.row == cell.row && next.column == cell.column + 1 {
            assert(all[0] == next);
        } else if next.row == cell.row && next.column == cell.column - 1 {
            assert(all[a.len() as int] == next);
        } else if next.row == cell.row + 1 {
            assert(all[(a.len() + b.len()) as int] == next);
        } else {
            assert(all[(a.len() + b.len() + c.len()) as int] == next);
        }
    }
}

/// `path` leads from `start` to `end`: it holds the cells between the two
/// on some route, in the route's order, or nothing where no route leads
/// from the one to the other.
pub open spec fn is_way(grid: GridView, start: Cell, end: Cell, path: Seq<Cell>) -> bool {
    if connected(grid, start, end) {
        exists|cells: Seq<Cell>| is_route(grid, start, end, cells) && path == interior(cells)
    } else {
        path == Seq::<Cell>::empty()
    }
}

/// A way that is not empty is a route once `start` is put before it and
/// `end` behind it: each of its cells lies on the grid and is no wall, and
/// each cell from `start` to `end` shares a side with the next.
pub proof fn lemma_way_is_route(grid: GridView, start: Cell, end: Cell, path: Seq<Cell>)
    requires
        is_way(grid, start, end, path),
        path.len() > 0,
    ensures
        is_route(grid, start, end, seq![start] + path + seq![end]),
        forall|i: int| 0 <= i < path.len() ==> passable(grid, #[trigger] path[i]),
        forall|i: int| 1 <= i < path.len() ==> adjacent(path[i - 1], #[trigger] path[i]),
        adjacent(start, path[0]),
        adjacent(path[path.len() - 1], end),
        passable(grid, end),
{
    let cells = choose|cells: Seq<Cell>| is_route(grid, start, end, cells) && path == interior(cells);
    lemma_interior_valid(grid, start, end, cells);
    assert(step_ok(grid, cells, cells.len() - 1));
}

/// `path` answers the search from `start` to `end`: it holds the cells
/// between the two on a shortest route, in the route's order, or nothing
/// where no route leads from the one to the other.
pub open spec fn is_answer(grid: GridView, start: Cell, end: Cell, path: Seq<Cell>) -> bool {
    if connected(grid, start, end) {
        exists|cells: Seq<Cell>|
            is_shortest_route(grid, start, end, cells) && path == interior(cells)
    } else {
        path == Seq::<Cell>::empty()
    }
}

/// Where no route leads from `start` to `end`, because walls block each,
/// the way is empty.
pub proof fn lemma_blocked_is_empty(grid: GridView, start: Cell, end: Cell, path: Seq<Cell>)
    requires
        is_way(grid, start, end, path),
        !connected(grid, start, end),
    ensures
        path.len() == 0,
{
}

/// Where `start` and `end` share a side and `end` is no wall, the answer is
/// empty: as empty as where no route exists, so that only a look at the
/// two cells tells the one case from the other.
pub proof fn lemma_adjacent_is_empty(grid: GridView, start: Cell, end: Cell, path: Seq<Cell>)
    requires
        is_answer(grid, start, end, path),
        adjacent(start, end),
        passable(grid, end),
    ensures
        path.len() == 0,
        connected(grid, start, end),
{
    let direct = seq![start, end];
    assert forall|i: int| 1 <= i < direct.len() implies #[trigger] step_ok(grid, direct, i) by {}
    assert(is_route(grid, start, end, direct));
    let cells = choose|cells: Seq<Cell>|
        is_shortest_route(grid, start, end, cells) && path == interior(cells);
    lemma_adjacent_shortest(grid, start, end, cells);
}

/// An answer is a way.
pub proof fn lemma_answer_is_way(grid: GridView, start: Cell, end: Cell, path: Seq<Cell>)
    requires
        is_answer(grid, start, end, path),
    ensures
        is_way(grid, start, end, path),
{
    if connected(grid, start, end) {
        let cells = choose|cells: Seq<Cell>|
            is_shortest_route(grid, start, end, cells) && path == interior(cells);
        assert(is_route(grid, start, end, cells) && path == interior(cells));
    }
}

/// An answer that is not empty is a shortest route once `start` is put
/// before it and `end` behind it.
pub proof fn lemma_answer_is_route(grid: GridView, start: Cell, end: Cell, path: Seq<Cell>)
    requires
        is_answer(grid, start, end, path),
        path.len() > 0,
    ensures
        is_shortest_route(grid, start, end, seq![start] + path + seq![end]),
{
    let cells = choose|cells: Seq<Cell>|
        is_shortest_route(grid, start, end, cells) && path == interior(cells);
    lemma_interior_valid(grid, start, end, cells);
}

/// On a grid without walls the answer between two different cells of the
/// grid has one cell less than the two are steps apart.
pub proof fn lemma_open_grid_answer(grid: GridView, start: Cell, end: Cell, path: Seq<Cell>)
    requires
        grid.valid(),
        open_grid(grid),
        grid.in_bounds(start),
        grid.in_bounds(end),
        start != end,
        is_answer(grid, start, end, path),
    ensures
        path.len() == manhattan(start, end) - 1,
{
    lemma_staircase(grid, start, end);
    let cells = choose|cells: Seq<Cell>|
        is_shortest_route(grid, start, end, cells) && path == interior(cells);
    lemma_open_grid_shortest(grid, start, end, cells);
}

/// What holds of every answer, in one place.
pub proof fn lemma_answer_laws(grid: GridView, start: Cell, end: Cell, path: Seq<Cell>)
    requires
        grid.valid(),
        is_answer(grid, start, end, path),
    ensures
        is_way(grid, start, end, path),
        adjacent(start, end) && passable(grid, end) ==> path.len() == 0,
        path.len() > 0 ==> is_shortest_route(grid, start, end, seq![start] + path + seq![end]),
        open_grid(grid) && grid.in_bounds(start) && grid.in_bounds(end) && start != end
            ==> path.len() == manhattan(start, end) - 1,
{
    lemma_answer_is_way(grid, start, end, path);
    if adjacent(start, end) && passable(grid, end) {
        lemma_adjacent_is_empty(grid, start, end, path);
    }
    if path.len() > 0 {
        lemma_answer_is_route(grid, start, end, path);
    }
    if open_grid(grid) && grid.in_bounds(start) && grid.in_bounds(end) && start != end {
        lemma_open_grid_answer(grid, start, end, path);
    }
}

} // verus!
