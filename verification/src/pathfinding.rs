//! The search for a shortest route: best first, by the steps taken so far
//! plus the straight-line distance that is left.

use crate::estimate::{distance_squared, estimate, isqrt, lemma_distance_squared_bound, SCALE};
use crate::frontier::{CellCost, Frontier};
use crate::grid::{Cell, CellType, Grid, GridView};
use crate::route::{
    adjacent, connected, interior, is_answer, is_route, is_shortest_route, is_way,
    lemma_answer_laws, lemma_neighbours, lemma_way_is_route, manhattan, neighbours_of, open_grid,
    passable, shifted,
};
use crate::search::{grounded, lemma_total_fits, rooted, trail, trail_of, Progress, Task};
use std::collections::HashMap;
use vstd::prelude::*;

verus! {

/// The straight-line distance from `cell` to `goal`, in fixed point,
/// rounded down.
pub fn h(cell: Cell, goal: Cell) -> (left: u64)
    ensures
        left == estimate(cell, goal),
{
    let dr: i64 = goal.row as i64 - cell.row as i64;
    let dc: i64 = goal.column as i64 - cell.column as i64;
    let ar: u128 = if dr >= 0 {
        dr as u128
    } else {
        (-dr) as u128
    };
    let ac: u128 = if dc >= 0 {
        dc as u128
    } else {
        (-dc) as u128
    };
    proof {
        lemma_distance_squared_bound(cell, goal);
        assert(ar * ar + ac * ac == distance_squared(cell, goal)) by (nonlinear_arith)
            requires
                ar == if dr >= 0 {
                    dr as int
                } else {
                    -dr
                },
                ac == if dc >= 0 {
                    dc as int
                } else {
                    -dc
                },
                dr == goal.row - cell.row,
                dc == goal.column - cell.column,
                distance_squared(cell, goal) == (cell.row - goal.row) * (cell.row - goal.row) + (
                cell.column - goal.column) * (cell.column - goal.column),
        ;
        assert(ar * ar <= 0x1_0000_0000_0000_0000) by (nonlinear_arith)
            requires
                ar <= 0x1_0000_0000,
        ;
        assert(ac * ac <= 0x1_0000_0000_0000_0000) by (nonlinear_arith)
            requires
                ac <= 0x1_0000_0000,
        ;
    }
    let squared: u128 = ar * ar + ac * ac;
    let unit: u128 = SCALE as u128;
    assert(unit * unit == 0x100_0000_0000) by (nonlinear_arith)
        requires
            unit == 1_048_576,
    ;
    assert(unit * unit * squared <= 0x200_0000_0000_0000_0000_0000_0000) by (nonlinear_arith)
        requires
            unit * unit == 0x100_0000_0000,
            squared <= 0x2_0000_0000_0000_0000,
    ;
    isqrt(unit * unit * squared)
}

/// What entering `cell` adds to the steps counted so far: one step; one
/// step less for a `GOAL` cell, which makes the search take to it as soon
/// as it is in reach; and `None` for a wall, which stands for a cost above
/// every other: a wall cannot be entered.
pub open spec fn step_cost(grid: GridView, cell: Cell) -> Option<int> {
    match grid.state(cell) {
        CellType::WALL => None,
        CellType::GOAL => Some(-1),
        _ => Some(1),
    }
}

/// What the step from `current` into its neighbour `other` adds to the
/// steps counted so far, or `None` where `other` is a wall.
#[allow(unused_variables)]
pub fn d(current: Cell, other: Cell, grid: &Grid) -> (cost: Option<i64>)
    requires
        grid.wf(),
        grid@.in_bounds(other),
    ensures
        match cost {
            Some(c) => step_cost(grid@, other) == Some(c as int),
            None => step_cost(grid@, other).is_none(),
        },
{
    match grid.get_cell(other.row as usize, other.column as usize) {
        CellType::WALL => None,
        CellType::GOAL => Some(-1),
        _ => Some(1),
    }
}

/// Adds to `neighbours` the cell `rows` below and `columns` to the right of
/// `cell`, where that lies on the grid.
fn push_shifted(neighbours: &mut Vec<Cell>, cell: Cell, rows: i64, columns: i64, grid: &Grid)
    requires
        grid.wf(),
        -1 <= rows <= 1,
        -1 <= columns <= 1,
    ensures
        final(neighbours)@ == old(neighbours)@ + shifted(grid@, cell, rows as int, columns as int),
{
    let size: i64 = grid.get_grid_size() as i64;
    let row: i64 = cell.row as i64 + rows;
    let column: i64 = cell.column as i64 + columns;
    if row >= 0 && row < size && column >= 0 && column < size {
        neighbours.push(Cell { row: row as i32, column: column as i32 });
        assert(neighbours@ =~= old(neighbours)@ + shifted(
            grid@,
            cell,
            rows as int,
            columns as int,
        ));
    } else {
        assert(neighbours@ =~= old(neighbours)@ + shifted(
            grid@,
            cell,
            rows as int,
            columns as int,
        ));
    }
}

/// The cells of the grid that share a side with `cell`.
pub fn get_neighbours(cell: Cell, grid: &Grid) -> (neighbours: Vec<Cell>)
    requires
        grid.wf(),
    ensures
        neighbours@ == neighbours_of(grid@, cell),
{
    let mut neighbours: Vec<Cell> = Vec::new();
    push_shifted(&mut neighbours, cell, 0, 1, grid);
    push_shifted(&mut neighbours, cell, 0, -1, grid);
    push_shifted(&mut neighbours, cell, 1, 0, grid);
    push_shifted(&mut neighbours, cell, -1, 0, grid);
    assert(neighbours@ =~= neighbours_of(grid@, cell));
    neighbours
}

/// The cells between the cell without a parent that following `came_from`
/// from `current` comes to, and `current`, in that order and without the
/// two.
pub fn reconstruct_path(came_from: &HashMap<u64, Cell>, current: Cell) -> (path: Vec<Cell>)
    requires
        rooted(came_from@, current),
    ensures
        path@ == interior(trail_of(came_from@, current)),
{
    let ghost depth = choose|depth: nat| grounded(came_from@, current, depth);
    let ghost left = depth;
    let mut total_path: Vec<Cell> = Vec::new();
    total_path.push(current);
    let mut m_current = current;
    let mut key = m_current.key();
    proof {
        assert(total_path@.drop_last().reverse() =~= Seq::<Cell>::empty());
        assert(trail(came_from@, m_current, left) + total_path@.drop_last().reverse() =~= trail(
            came_from@,
            current,
            depth,
        ));
    }
    while came_from.contains_key(&key)
        invariant
            key == m_current.code(),
            grounded(came_from@, m_current, left),
            total_path@.len() >= 1,
            total_path@[total_path@.len() - 1] == m_current,
            trail(came_from@, current, depth) == trail(came_from@, m_current, left)
                + total_path@.drop_last().reverse(),
        decreases left,
    {
        let ghost before = total_path@;
        let ghost child = m_current;
        m_current = *came_from.get(&key).unwrap();
        key = m_current.key();
        total_path.push(m_current);
        proof {
            left = (left - 1) as nat;
            assert(total_path@.drop_last() =~= before);
            assert(before =~= before.drop_last().push(child));
            assert(before.reverse() =~= seq![child] + before.drop_last().reverse());
            assert(trail(came_from@, child, left + 1) == trail(came_from@, m_current, left).push(
                child,
            ));
            assert(trail(came_from@, m_current, left).push(child) + before.drop_last().reverse()
                =~= trail(came_from@, m_current, left) + before.reverse());
        }
    }
    proof {
        assert(trail(came_from@, m_current, left) == seq![m_current]);
        assert(total_path@ =~= total_path@.drop_last().push(m_current));
        assert(total_path@.reverse() =~= seq![m_current] + total_path@.drop_last().reverse());
        assert(trail_of(came_from@, current) == total_path@.reverse());
    }
    let mut path: Vec<Cell> = Vec::new();
    let n: usize = total_path.len();
    let mut i: usize = n - 1;
    while i > 1
        invariant
            n == total_path@.len(),
            1 <= n,
            i <= n - 1,
            n >= 2 ==> i >= 1,
            n >= 2 ==> path@.len() == n - 1 - i,
            n < 2 ==> path@.len() == 0,
            forall|j: int|
                0 <= j < path@.len() ==> path@[j] == #[trigger] total_path@.reverse()[j + 1],
        decreases i,
    {
        i -= 1;
        path.push(total_path[i]);
    }
    assert(path@ =~= interior(total_path@.reverse()));
    path
}

/// What a route found says of the cells between its ends.
proof fn lemma_found_laws(grid: GridView, start: Cell, end: Cell, cells: Seq<Cell>, path: Seq<Cell>)
    requires
        grid.valid(),
        is_route(grid, start, end, cells),
        grid.goal_only_at(end) ==> is_shortest_route(grid, start, end, cells),
        path == interior(cells),
    ensures
        is_way(grid, start, end, path),
        grid.goal_only_at(end) ==> is_answer(grid, start, end, path),
        path.len() > 0 ==> is_route(grid, start, end, seq![start] + path + seq![end]),
        grid.goal_only_at(end) && adjacent(start, end) && passable(grid, end) ==> path.len() == 0,
        grid.goal_only_at(end) && path.len() > 0 ==> is_shortest_route(
            grid,
            start,
            end,
            seq![start] + path + seq![end],
        ),
        grid.goal_only_at(end) && open_grid(grid) && grid.in_bounds(start) && grid.in_bounds(end)
            && start != end ==> path.len() == manhattan(start, end) - 1,
{
    assert(is_way(grid, start, end, path));
    if path.len() > 0 {
        lemma_way_is_route(grid, start, end, path);
    }
    if grid.goal_only_at(end) {
        assert(is_answer(grid, start, end, path));
        lemma_answer_laws(grid, start, end, path);
    }
}

/// The cells between `start` and `end` on a shortest route from the one to
/// the other, in the order in which the route passes them; no cell where no
/// route leads from `start` to `end`, where the two are one cell, or where
/// they share a side. Which of several shortest routes is taken is not
/// fixed. The grid is left as it is.
///
/// The search looks first at the waiting cell for which the steps taken so
/// far and the straight-line distance to `end` add up to the least. A step
/// into a wall has no cost, so no score is ever filed for a wall and no
/// entry for one ever waits. A cell may wait more than once, with scores
/// that have been bettered since; such an entry betters nothing when its
/// turn comes.
///
/// Neither `start` nor `end` need lie on the grid, and nothing is asked of
/// what `start` holds. The route is a shortest one where the grid holds
/// `GOAL` at `end` only: so it does when `end` is the goal that the grid has
/// recorded, and when it has recorded none (see
/// [`GridView::lemma_goal_only_at_recorded`]). Where another cell holds
/// `GOAL`, the step that is counted less for entering it may draw the route
/// through that cell: the cells returned still lie on a route from `start`
/// to `end`, which need not be a shortest one.
pub fn a_star(start: Cell, end: Cell, grid: &Grid) -> (path: Vec<Cell>)
    requires
        grid.wf(),
        grid@.size >= 1,
    ensures
        is_way(grid@, start, end, path@),
        grid@.goal_only_at(end) ==> is_answer(grid@, start, end, path@),
        !connected(grid@, start, end) ==> path@.len() == 0,
        path@.len() > 0 ==> is_route(grid@, start, end, seq![start] + path@ + seq![end]),
        grid@.goal_only_at(end) && adjacent(start, end) && passable(grid@, end) ==> path@.len()
            == 0,
        grid@.goal_only_at(end) && path@.len() > 0 ==> is_shortest_route(
            grid@,
            start,
            end,
            seq![start] + path@ + seq![end],
        ),
        grid@.goal_only_at(end) && open_grid(grid@) && grid@.in_bounds(start) && grid@.in_bounds(
            end,
        ) && start != end ==> path@.len() == manhattan(start, end) - 1,
{
    let ghost task = Task { grid: grid@, start, end };
    let mut open_set = Frontier::new();
    let mut came_from: HashMap<u64, Cell> = HashMap::new();
    let mut g_score: HashMap<u64, i64> = HashMap::new();

    open_set.push(CellCost { cell: start, cost: h(start, end) as i128 });
    g_score.insert(start.key(), 0);
    proof {
        task.lemma_begin();
        lemma_total_fits(0i64, start, end);
        assert(Progress { scores: g_score@, parents: came_from@, open: open_set@ } == task.first());
    }

    while !open_set.is_empty()
        invariant
            grid.wf(),
            open_set.wf(),
            task == (Task { grid: grid@, start, end }),
            task.inv(Progress { scores: g_score@, parents: came_from@, open: open_set@ }, None),
        decreases
                (Progress { scores: g_score@, parents: came_from@, open: open_set@ }).potential(
                    task.grid.size,
                ),
                open_set@.len(),
    {
        let ghost waiting = Progress { scores: g_score@, parents: came_from@, open: open_set@ };
        let current = open_set.pop().unwrap();
        let ghost taken = Progress { scores: g_score@, parents: came_from@, open: open_set@ };
        proof {
            task.lemma_take(waiting, current);
            task.lemma_potential(waiting, None);
            assert(taken == waiting.taken(current));
        }

        if current.cell == end {
            proof {
                task.lemma_found(taken, Some(current.cell));
            }
            let path = reconstruct_path(&came_from, current.cell);
            proof {
                lemma_found_laws(grid@, start, end, trail_of(came_from@, end), path@);
            }
            return path;
        }
        let score: i64 = *g_score.get(&current.cell.key()).unwrap();
        let neighbours = get_neighbours(current.cell, grid);
        proof {
            lemma_neighbours(grid@, current.cell);
        }

        for i in 0..neighbours.len()
            invariant
                grid.wf(),
                open_set.wf(),
                task == (Task { grid: grid@, start, end }),
                start != end,
                current.cell != end,
                neighbours@ == neighbours_of(grid@, current.cell),
                forall|j: int|
                    0 <= j < neighbours@.len() ==> adjacent(current.cell, #[trigger] neighbours@[j])
                        && grid@.in_bounds(neighbours@[j]),
                task.inv(
                    Progress { scores: g_score@, parents: came_from@, open: open_set@ },
                    Some(current.cell),
                ),
                task.plain() ==> task.bounded(
                    Progress { scores: g_score@, parents: came_from@, open: open_set@ },
                    current.cell,
                ),
                g_score@.contains_key(current.cell.code()),
                g_score@[current.cell.code()] == score,
                forall|j: int|
                    0 <= j < i ==> task.handled(
                        Progress { scores: g_score@, parents: came_from@, open: open_set@ },
                        current.cell,
                        #[trigger] neighbours@[j],
                    ),
                ({
                    let now = Progress { scores: g_score@, parents: came_from@, open: open_set@ };
                    ||| 0 <= now.potential(task.grid.size) < waiting.potential(task.grid.size)
                    ||| now.potential(task.grid.size) == waiting.potential(task.grid.size)
                        && open_set@.len() == waiting.open.len() - 1
                }),
        {
            let neighbour = neighbours[i];
            let ghost before = Progress { scores: g_score@, parents: came_from@, open: open_set@ };
            proof {
                assert(before.known(current.cell));
                assert(task.cell_ok(before, current.cell, Some(current.cell)));
                before.lemma_unseen_bounds(task.grid.size);
                assert(task.grid.size * task.grid.size <= 0x4000_0000_0000_0000) by (nonlinear_arith)
                    requires
                        task.grid.size <= 0x7fff_ffff,
                ;
            }
            match d(current.cell, neighbour, grid) {
                Some(step) => {
                    let tentative_g_score: i64 = score + step;
                    let key = neighbour.key();
                    let better = match g_score.get(&key) {
                        Some(known) => tentative_g_score < *known,
                        None => true,
                    };
                    if better {
                        came_from.insert(key, current.cell);
                        g_score.insert(key, tentative_g_score);
                        proof {
                            lemma_total_fits(tentative_g_score, neighbour, end);
                        }
                        open_set.push(
                            CellCost {
                                cell: neighbour,
                                cost: SCALE as i128 * tentative_g_score as i128 + h(
                                    neighbour,
                                    end,
                                ) as i128,
                            },
                        );
                        proof {
                            task.lemma_improve(before, current.cell, neighbour, tentative_g_score);
                            assert(Progress {
                                scores: g_score@,
                                parents: came_from@,
                                open: open_set@,
                            } == before.improved(current.cell, neighbour, tentative_g_score, end));
                        }
                    }
                },
                None => {},
            }
        }
        proof {
            let now = Progress { scores: g_score@, parents: came_from@, open: open_set@ };
            assert forall|next: Cell| #[trigger] adjacent(current.cell, next) implies task.handled(
                now,
                current.cell,
                next,
            ) by {
                if grid@.in_bounds(next) {
                    let j = choose|j: int| 0 <= j < neighbours@.len() && neighbours@[j] == next;
                    assert(task.handled(now, current.cell, neighbours@[j]));
                }
            }
            task.lemma_close(now, current.cell);
        }
    }

    let path: Vec<Cell> = Vec::new();
    proof {
        task.lemma_exhausted(Progress { scores: g_score@, parents: came_from@, open: open_set@ });
        assert(is_answer(grid@, start, end, path@));
        lemma_answer_laws(grid@, start, end, path@);
    }
    path
}

} // verus!
