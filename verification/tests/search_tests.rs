use pathfinder::estimate::{isqrt, SCALE};
use pathfinder::grid::{Cell, CellType, Grid};
use pathfinder::pathfinding::{a_star, d, get_neighbours, h, reconstruct_path};
use std::collections::HashMap;
use std::collections::VecDeque;

fn cell(row: i32, column: i32) -> Cell {
    Cell { row, column }
}

fn grid_from(rows: &[&str]) -> (Grid, Cell, Cell) {
    let n = rows.len();
    let mut grid = Grid::new(n * 10, n, 10, 0, 0);
    let mut start = cell(0, 0);
    let mut goal = cell(0, 0);
    for (r, line) in rows.iter().enumerate() {
        assert_eq!(line.len(), n);
        for (c, mark) in line.chars().enumerate() {
            match mark {
                '#' => grid.set_cell(CellType::WALL, r as i32, c as i32),
                'S' => {
                    grid.set_cell(CellType::START, r as i32, c as i32);
                    start = cell(r as i32, c as i32);
                }
                'G' => {
                    grid.set_cell(CellType::GOAL, r as i32, c as i32);
                    goal = cell(r as i32, c as i32);
                }
                _ => {}
            }
        }
    }
    (grid, start, goal)
}

fn adjacent(a: Cell, b: Cell) -> bool {
    (a.row - b.row).abs() + (a.column - b.column).abs() == 1
}

fn manhattan(a: Cell, b: Cell) -> usize {
    ((a.row - b.row).abs() + (a.column - b.column).abs()) as usize
}

fn assert_valid(grid: &Grid, start: Cell, goal: Cell, path: &[Cell]) {
    let n = grid.get_grid_size() as i32;
    let mut before = start;
    for step in path {
        assert!(0 <= step.row && step.row < n && 0 <= step.column && step.column < n);
        assert_ne!(grid.get_cell(step.row as usize, step.column as usize), CellType::WALL);
        assert!(adjacent(before, *step));
        before = *step;
    }
    assert!(adjacent(before, goal));
}

fn steps_by_flooding(grid: &Grid, start: Cell, goal: Cell) -> Option<usize> {
    let n = grid.get_grid_size() as i32;
    let mut steps: HashMap<(i32, i32), usize> = HashMap::new();
    let mut queue = VecDeque::new();
    steps.insert((start.row, start.column), 0);
    queue.push_back(start);
    while let Some(at) = queue.pop_front() {
        if at == goal {
            return Some(steps[&(at.row, at.column)]);
        }
        for (dr, dc) in [(0, 1), (0, -1), (1, 0), (-1, 0)] {
            let next = cell(at.row + dr, at.column + dc);
            if next.row < 0 || next.row >= n || next.column < 0 || next.column >= n {
                continue;
            }
            if grid.get_cell(next.row as usize, next.column as usize) == CellType::WALL {
                continue;
            }
            if !steps.contains_key(&(next.row, next.column)) {
                steps.insert((next.row, next.column), steps[&(at.row, at.column)] + 1);
                queue.push_back(next);
            }
        }
    }
    None
}

#[test]
fn three_by_three_without_walls() {
    let (grid, start, goal) = grid_from(&["S..", "...", "..G"]);
    let path = a_star(start, goal, &grid);
    assert_eq!(path.len(), 3);
    assert_valid(&grid, start, goal, &path);
    assert!(path[0] == cell(1, 0) || path[0] == cell(0, 1));
    assert!(path[2] == cell(2, 1) || path[2] == cell(1, 2));
    for pair in path.windows(2) {
        assert!(pair[0].row <= pair[1].row && pair[0].column <= pair[1].column);
    }
}

#[test]
fn three_by_three_with_a_wall_in_the_way() {
    let (grid, start, goal) = grid_from(&["S..", "#..", "G.."]);
    let path = a_star(start, goal, &grid);
    assert_eq!(path, vec![cell(0, 1), cell(1, 1), cell(2, 1)]);
}

#[test]
fn the_path_runs_from_start_to_goal() {
    let (grid, start, goal) = grid_from(&["G...", "###.", "S...", "...."]);
    let path = a_star(start, goal, &grid);
    assert_eq!(
        path,
        vec![cell(2, 1), cell(2, 2), cell(2, 3), cell(1, 3), cell(0, 3), cell(0, 2), cell(0, 1)]
    );
}

#[test]
fn no_path_where_walls_cut_the_grid() {
    let (grid, start, goal) = grid_from(&["S.#.", "..#.", "..#.", "..#G"]);
    let path = a_star(start, goal, &grid);
    assert!(path.is_empty());
    assert!(!adjacent(start, goal));
    assert_eq!(steps_by_flooding(&grid, start, goal), None);
}

#[test]
fn no_path_where_the_goal_is_walled_in() {
    let (grid, start, goal) = grid_from(&["S....", ".....", "..###", "..#G#", "..###"]);
    assert!(a_star(start, goal, &grid).is_empty());
}

#[test]
fn no_path_where_the_start_is_walled_in() {
    let (grid, start, goal) = grid_from(&["S#...", "#....", ".....", ".....", "....G"]);
    assert!(a_star(start, goal, &grid).is_empty());
}

#[test]
fn no_path_into_a_wall() {
    let mut grid = Grid::new(30, 3, 10, 0, 0);
    grid.set_cell(CellType::WALL, 2, 2);
    assert!(a_star(cell(0, 0), cell(2, 2), &grid).is_empty());
    assert!(a_star(cell(2, 1), cell(2, 2), &grid).is_empty());
}

#[test]
fn adjacent_start_and_goal_have_nothing_between_them() {
    let (grid, start, goal) = grid_from(&["SG.", "...", "..."]);
    let path = a_star(start, goal, &grid);
    assert!(path.is_empty());
    assert!(adjacent(start, goal));
    assert_eq!(steps_by_flooding(&grid, start, goal), Some(1));

    let (grid, start, goal) = grid_from(&["...", ".G.", ".S."]);
    assert!(a_star(start, goal, &grid).is_empty());
    assert!(adjacent(start, goal));
}

#[test]
fn an_empty_answer_alone_does_not_tell_adjacent_from_blocked() {
    let (near, near_start, near_goal) = grid_from(&["SG.", "...", "..."]);
    let (cut, cut_start, cut_goal) = grid_from(&["S#G", ".#.", ".#."]);
    assert_eq!(a_star(near_start, near_goal, &near), a_star(cut_start, cut_goal, &cut));
    assert!(adjacent(near_start, near_goal));
    assert!(!adjacent(cut_start, cut_goal));
}

#[test]
fn start_equal_to_goal_has_nothing_between() {
    let mut grid = Grid::new(30, 3, 10, 0, 0);
    grid.set_cell(CellType::START, 1, 1);
    grid.set_cell(CellType::GOAL, 1, 1);
    assert!(a_star(cell(1, 1), cell(1, 1), &grid).is_empty());
}

#[test]
fn open_grid_paths_have_manhattan_length() {
    for n in 1..7usize {
        let limit = n as i32;
        for sr in 0..limit {
            for sc in 0..limit {
                for gr in 0..limit {
                    for gc in 0..limit {
                        let start = cell(sr, sc);
                        let goal = cell(gr, gc);
                        if start == goal {
                            continue;
                        }
                        let mut grid = Grid::new(n * 10, n, 10, 0, 0);
                        grid.set_cell(CellType::START, sr, sc);
                        grid.set_cell(CellType::GOAL, gr, gc);
                        let path = a_star(start, goal, &grid);
                        assert_eq!(path.len(), manhattan(start, goal) - 1);
                        assert_valid(&grid, start, goal, &path);
                    }
                }
            }
        }
    }
}

#[test]
fn open_grid_of_the_usual_size() {
    let mut grid = Grid::new(1000, 25, 40, 0, 0);
    grid.set_cell(CellType::START, 0, 0);
    grid.set_cell(CellType::GOAL, 24, 24);
    let path = a_star(cell(0, 0), cell(24, 24), &grid);
    assert_eq!(path.len(), 47);
    assert_valid(&grid, cell(0, 0), cell(24, 24), &path);
}

#[test]
fn paths_through_a_maze_are_shortest() {
    let rows = [
        "S.#.....",
        ".##.###.",
        "....#...",
        ".####.#.",
        "......#.",
        "#####.#.",
        "....#.#.",
        "..#...#G",
    ];
    let (grid, start, goal) = grid_from(&rows);
    let path = a_star(start, goal, &grid);
    assert_valid(&grid, start, goal, &path);
    assert_eq!(Some(path.len() + 1), steps_by_flooding(&grid, start, goal));
    assert_eq!(path.len() + 1, 18);
}

#[test]
fn paths_on_scattered_walls_are_shortest() {
    let mut state: u64 = 7;
    for round in 0..60 {
        let n = 4 + round % 9;
        let mut grid = Grid::new(n * 10, n, 10, 0, 0);
        for r in 0..n {
            for c in 0..n {
                state = state.wrapping_mul(6364136223846793005).wrapping_add(1442695040888963407);
                if (state >> 33) % 10 < 3 {
                    grid.set_cell(CellType::WALL, r as i32, c as i32);
                }
            }
        }
        let start = cell(0, 0);
        let goal = cell(n as i32 - 1, n as i32 - 1);
        grid.set_cell(CellType::START, 0, 0);
        grid.set_cell(CellType::GOAL, goal.row, goal.column);
        let path = a_star(start, goal, &grid);
        match steps_by_flooding(&grid, start, goal) {
            Some(steps) => {
                assert_eq!(path.len() + 1, steps);
                assert_valid(&grid, start, goal, &path);
            }
            None => assert!(path.is_empty()),
        }
    }
}

#[test]
fn a_goal_elsewhere_still_gives_a_route() {
    let mut state: u64 = 99;
    for round in 0..2000 {
        let n = 2 + round % 6;
        let mut grid = Grid::new(n * 10, n, 10, 0, 0);
        let mut next = || {
            state = state.wrapping_mul(6364136223846793005).wrapping_add(1442695040888963407);
            (state >> 33) as usize
        };
        for r in 0..n {
            for c in 0..n {
                if next() % 10 < 3 {
                    grid.set_cell(CellType::WALL, r as i32, c as i32);
                }
            }
        }
        grid.set_cell(CellType::GOAL, (next() % n) as i32, (next() % n) as i32);
        let start = cell((next() % n) as i32, (next() % n) as i32);
        let end = cell((next() % n) as i32, (next() % n) as i32);
        let path = a_star(start, end, &grid);
        match steps_by_flooding(&grid, start, end) {
            None => assert!(path.is_empty()),
            Some(0) | Some(1) => assert!(path.is_empty() || adjacent(*path.last().unwrap(), end)),
            Some(steps) => {
                assert!(path.len() + 1 >= steps);
                assert_valid(&grid, start, end, &path);
            }
        }
        if !path.is_empty() {
            assert_valid(&grid, start, end, &path);
        }
    }
}

#[test]
fn a_goal_off_the_way_does_not_lengthen_a_straight_path() {
    let mut grid = Grid::new(50, 5, 10, 0, 0);
    grid.set_cell(CellType::GOAL, 4, 4);
    let path = a_star(cell(0, 0), cell(0, 3), &grid);
    assert_eq!(path, vec![cell(0, 1), cell(0, 2)]);
}

#[test]
fn the_search_leaves_the_grid_as_it_was() {
    let (grid, start, goal) = grid_from(&["S..", "#..", "G.."]);
    let first = a_star(start, goal, &grid);
    let second = a_star(start, goal, &grid);
    assert_eq!(first, second);
    assert_eq!(grid.get_cell(0, 1), CellType::EMPTY);
    assert_eq!(grid.get_cell(1, 0), CellType::WALL);
    assert_eq!(grid.get_start(), Some(start));
    assert_eq!(grid.get_goal(), Some(goal));
}

#[test]
fn a_start_that_is_a_wall_is_left_like_any_other() {
    let mut grid = Grid::new(30, 3, 10, 0, 0);
    grid.set_cell(CellType::WALL, 0, 0);
    let path = a_star(cell(0, 0), cell(0, 2), &grid);
    assert_eq!(path, vec![cell(0, 1)]);
}

#[test]
fn a_start_off_the_grid_enters_by_the_edge() {
    let grid = Grid::new(30, 3, 10, 0, 0);
    let path = a_star(cell(-1, 1), cell(1, 1), &grid);
    assert_eq!(path, vec![cell(0, 1)]);
    assert!(a_star(cell(-2, 1), cell(1, 1), &grid).is_empty());
    assert!(a_star(cell(1, 1), cell(3, 1), &grid).is_empty());
    assert!(a_star(cell(i32::MAX, i32::MIN), cell(1, 1), &grid).is_empty());
}

#[test]
fn a_search_without_a_recorded_goal_goes_to_the_cell_given() {
    let mut grid = Grid::new(40, 4, 10, 0, 0);
    grid.set_cell(CellType::WALL, 1, 0);
    grid.set_cell(CellType::WALL, 1, 1);
    grid.set_cell(CellType::WALL, 1, 2);
    let path = a_star(cell(3, 0), Cell::default(), &grid);
    assert_eq!(path.len(), 8);
    assert_valid(&grid, cell(3, 0), cell(0, 0), &path);
}

#[test]
fn a_path_written_back_does_not_block_the_next_search() {
    let (mut grid, start, goal) = grid_from(&["S..", "#..", "G.."]);
    let path = a_star(start, goal, &grid);
    for step in &path {
        grid.set_cell(CellType::PATH, step.row, step.column);
    }
    assert_eq!(grid.get_cell(1, 1), CellType::PATH);
    assert_eq!(a_star(start, goal, &grid), path);
}

#[test]
fn neighbours_come_right_left_down_up() {
    let grid = Grid::new(30, 3, 10, 0, 0);
    assert_eq!(
        get_neighbours(cell(1, 1), &grid),
        vec![cell(1, 2), cell(1, 0), cell(2, 1), cell(0, 1)]
    );
}

#[test]
fn neighbours_stay_on_the_grid() {
    let grid = Grid::new(30, 3, 10, 0, 0);
    assert_eq!(get_neighbours(cell(0, 0), &grid), vec![cell(0, 1), cell(1, 0)]);
    assert_eq!(get_neighbours(cell(2, 2), &grid), vec![cell(2, 1), cell(1, 2)]);
    assert_eq!(get_neighbours(cell(0, 1), &grid), vec![cell(0, 2), cell(0, 0), cell(1, 1)]);
    assert_eq!(get_neighbours(cell(-1, 0), &grid), vec![cell(0, 0)]);
    assert_eq!(get_neighbours(cell(1, 3), &grid), vec![cell(1, 2)]);
    assert_eq!(get_neighbours(cell(5, 5), &grid), vec![]);
    assert_eq!(get_neighbours(cell(i32::MAX, i32::MAX), &grid), vec![]);
    assert_eq!(get_neighbours(cell(i32::MIN, i32::MIN), &grid), vec![]);
    let single = Grid::new(10, 1, 10, 0, 0);
    assert_eq!(get_neighbours(cell(0, 0), &single), vec![]);
}

#[test]
fn walls_ignore_the_neighbour_list() {
    let mut grid = Grid::new(30, 3, 10, 0, 0);
    grid.set_cell(CellType::WALL, 1, 2);
    assert_eq!(get_neighbours(cell(1, 1), &grid).len(), 4);
}

#[test]
fn step_costs() {
    let mut grid = Grid::new(30, 3, 10, 0, 0);
    grid.set_cell(CellType::WALL, 0, 1);
    grid.set_cell(CellType::GOAL, 1, 1);
    grid.set_cell(CellType::START, 2, 2);
    grid.set_cell(CellType::PATH, 2, 1);
    assert_eq!(d(cell(0, 0), cell(0, 1), &grid), None);
    assert_eq!(d(cell(0, 1), cell(1, 1), &grid), Some(-1));
    assert_eq!(d(cell(0, 1), cell(0, 0), &grid), Some(1));
    assert_eq!(d(cell(2, 1), cell(2, 2), &grid), Some(1));
    assert_eq!(d(cell(2, 2), cell(2, 1), &grid), Some(1));
}

#[test]
fn estimate_is_the_straight_line_in_fixed_point() {
    assert_eq!(SCALE, 1_048_576);
    assert_eq!(h(cell(2, 2), cell(2, 2)), 0);
    assert_eq!(h(cell(0, 0), cell(0, 1)), SCALE);
    assert_eq!(h(cell(3, 3), cell(2, 3)), SCALE);
    assert_eq!(h(cell(0, 0), cell(3, 4)), 5 * SCALE);
    assert_eq!(h(cell(3, 4), cell(0, 0)), 5 * SCALE);
    assert_eq!(h(cell(0, 0), cell(1, 1)), 1_482_910);
    assert_eq!(h(cell(0, 0), cell(1, 2)), 2_344_687);
    assert_eq!(h(cell(-3, 7), cell(2, -5)), 13 * SCALE);
}

#[test]
fn estimate_of_the_farthest_cells() {
    let far = h(cell(i32::MIN, i32::MIN), cell(i32::MAX, i32::MAX));
    let side: u128 = (u32::MAX as u128) * (SCALE as u128);
    let squared = 2 * side * side;
    assert!((far as u128) * (far as u128) <= squared);
    assert!((far as u128 + 1) * (far as u128 + 1) > squared);
}

#[test]
fn integer_square_roots() {
    assert_eq!(isqrt(0), 0);
    assert_eq!(isqrt(1), 1);
    assert_eq!(isqrt(2), 1);
    assert_eq!(isqrt(3), 1);
    assert_eq!(isqrt(4), 2);
    assert_eq!(isqrt(15), 3);
    assert_eq!(isqrt(16), 4);
    assert_eq!(isqrt(17), 4);
    assert_eq!(isqrt(1_000_000), 1000);
    assert_eq!(isqrt(999_999), 999);
    assert_eq!(isqrt(u64::MAX as u128), u32::MAX as u64);
    assert_eq!(isqrt(1u128 << 64), 1u64 << 32);
    assert_eq!(isqrt(u128::MAX), u64::MAX);
}

#[test]
fn cell_keys_differ() {
    assert_eq!(cell(0, 0).key(), 0x8000_0000_8000_0000);
    assert_eq!(cell(i32::MIN, i32::MIN).key(), 0);
    assert_eq!(cell(i32::MAX, i32::MAX).key(), u64::MAX);
    assert_eq!(cell(0, 1).key(), 0x8000_0000_8000_0001);
    assert_eq!(cell(1, 0).key(), 0x8000_0001_8000_0000);
    assert_eq!(cell(-1, -1).key(), 0x7fff_ffff_7fff_ffff);
    assert_ne!(cell(1, 2).key(), cell(2, 1).key());
}

#[test]
fn reconstruct_path_follows_the_parents() {
    let mut came_from: HashMap<u64, Cell> = HashMap::new();
    came_from.insert(cell(2, 2).key(), cell(2, 1));
    came_from.insert(cell(2, 1).key(), cell(1, 1));
    came_from.insert(cell(1, 1).key(), cell(1, 0));
    came_from.insert(cell(1, 0).key(), cell(0, 0));
    came_from.insert(cell(5, 5).key(), cell(5, 4));
    assert_eq!(
        reconstruct_path(&came_from, cell(2, 2)),
        vec![cell(1, 0), cell(1, 1), cell(2, 1)]
    );
    assert_eq!(reconstruct_path(&came_from, cell(1, 0)), vec![]);
    assert_eq!(reconstruct_path(&came_from, cell(0, 0)), vec![]);
    assert_eq!(reconstruct_path(&came_from, cell(1, 1)), vec![cell(1, 0)]);
    assert_eq!(reconstruct_path(&came_from, cell(5, 5)), vec![]);
}
