use pathfinder::grid::{Cell, CellType, Grid};

fn count(grid: &Grid, state: CellType) -> usize {
    let n = grid.get_grid_size();
    let mut found = 0;
    for row in 0..n {
        for column in 0..n {
            if grid.get_cell(row, column) == state {
                found += 1;
            }
        }
    }
    found
}

#[test]
fn default_cell_is_the_corner() {
    assert_eq!(Cell::default(), Cell { row: 0, column: 0 });
}

#[test]
fn new_grid_is_empty() {
    let grid = Grid::new(1000, 25, 40, 0, 0);
    assert_eq!(grid.get_grid_size(), 25);
    assert_eq!(grid.get_square_size(), 40);
    assert_eq!(count(&grid, CellType::EMPTY), 625);
    assert_eq!(grid.get_start(), None);
    assert_eq!(grid.get_goal(), None);
    assert_eq!(grid.get_highlight(), None);
}

#[test]
fn new_grid_of_size_zero_has_no_cells() {
    let grid = Grid::new(0, 0, 0, 0, 0);
    assert_eq!(grid.get_grid_size(), 0);
    assert_eq!(count(&grid, CellType::EMPTY), 0);
}

#[test]
fn set_cell_writes_one_cell() {
    let mut grid = Grid::new(100, 4, 25, 0, 0);
    grid.set_cell(CellType::WALL, 1, 2);
    assert_eq!(grid.get_cell(1, 2), CellType::WALL);
    assert_eq!(count(&grid, CellType::WALL), 1);
    assert_eq!(count(&grid, CellType::EMPTY), 15);
    grid.set_cell(CellType::PATH, 3, 3);
    assert_eq!(grid.get_cell(3, 3), CellType::PATH);
    grid.set_cell(CellType::EMPTY, 1, 2);
    assert_eq!(grid.get_cell(1, 2), CellType::EMPTY);
    assert_eq!(grid.get_start(), None);
    assert_eq!(grid.get_goal(), None);
}

#[test]
fn walls_and_path_cells_may_be_many() {
    let mut grid = Grid::new(100, 4, 25, 0, 0);
    grid.set_cell(CellType::WALL, 0, 0);
    grid.set_cell(CellType::WALL, 0, 1);
    grid.set_cell(CellType::WALL, 3, 3);
    grid.set_cell(CellType::PATH, 1, 1);
    grid.set_cell(CellType::PATH, 2, 2);
    assert_eq!(count(&grid, CellType::WALL), 3);
    assert_eq!(count(&grid, CellType::PATH), 2);
}

#[test]
fn setting_the_start_again_moves_it() {
    let mut grid = Grid::new(100, 5, 20, 0, 0);
    grid.set_cell(CellType::START, 1, 1);
    assert_eq!(grid.get_start(), Some(Cell { row: 1, column: 1 }));
    assert_eq!(grid.get_cell(1, 1), CellType::START);
    grid.set_cell(CellType::START, 3, 4);
    assert_eq!(grid.get_cell(1, 1), CellType::EMPTY);
    assert_eq!(grid.get_cell(3, 4), CellType::START);
    assert_eq!(grid.get_start(), Some(Cell { row: 3, column: 4 }));
    assert_eq!(count(&grid, CellType::START), 1);
}

#[test]
fn setting_the_goal_again_moves_it() {
    let mut grid = Grid::new(100, 5, 20, 0, 0);
    grid.set_cell(CellType::GOAL, 0, 4);
    grid.set_cell(CellType::GOAL, 4, 0);
    assert_eq!(grid.get_cell(0, 4), CellType::EMPTY);
    assert_eq!(grid.get_cell(4, 0), CellType::GOAL);
    assert_eq!(grid.get_goal(), Some(Cell { row: 4, column: 0 }));
    assert_eq!(count(&grid, CellType::GOAL), 1);
}

#[test]
fn setting_the_start_where_it_is_keeps_it() {
    let mut grid = Grid::new(100, 5, 20, 0, 0);
    grid.set_cell(CellType::START, 2, 2);
    grid.set_cell(CellType::START, 2, 2);
    assert_eq!(grid.get_cell(2, 2), CellType::START);
    assert_eq!(grid.get_start(), Some(Cell { row: 2, column: 2 }));
    assert_eq!(count(&grid, CellType::START), 1);
}

#[test]
fn start_and_goal_do_not_disturb_each_other() {
    let mut grid = Grid::new(100, 5, 20, 0, 0);
    grid.set_cell(CellType::START, 0, 0);
    grid.set_cell(CellType::GOAL, 4, 4);
    grid.set_cell(CellType::START, 1, 0);
    assert_eq!(grid.get_cell(4, 4), CellType::GOAL);
    assert_eq!(grid.get_goal(), Some(Cell { row: 4, column: 4 }));
    assert_eq!(grid.get_start(), Some(Cell { row: 1, column: 0 }));
}

#[test]
fn a_new_start_empties_the_recorded_one_whatever_it_holds() {
    let mut grid = Grid::new(100, 5, 20, 0, 0);
    grid.set_cell(CellType::START, 1, 1);
    grid.set_cell(CellType::WALL, 1, 1);
    assert_eq!(grid.get_cell(1, 1), CellType::WALL);
    assert_eq!(grid.get_start(), Some(Cell { row: 1, column: 1 }));
    assert_eq!(count(&grid, CellType::START), 0);
    grid.set_cell(CellType::START, 2, 2);
    assert_eq!(grid.get_cell(1, 1), CellType::EMPTY);
    assert_eq!(grid.get_cell(2, 2), CellType::START);
}

#[test]
fn clear_empties_the_grid_and_forgets_start_and_goal() {
    let mut grid = Grid::new(100, 5, 20, 0, 0);
    grid.set_cell(CellType::START, 0, 0);
    grid.set_cell(CellType::GOAL, 4, 4);
    grid.set_cell(CellType::WALL, 2, 2);
    grid.set_cell(CellType::PATH, 3, 3);
    grid.highlight_cell(1, 1);
    grid.clear();
    assert_eq!(grid.get_start(), None);
    assert_eq!(grid.get_goal(), None);
    assert_eq!(count(&grid, CellType::EMPTY), 25);
    assert_eq!(grid.get_grid_size(), 5);
    assert_eq!(grid.get_highlight(), Some(Cell { row: 1, column: 1 }));
}

#[test]
fn a_start_set_after_clear_is_the_only_one() {
    let mut grid = Grid::new(100, 3, 33, 0, 0);
    grid.set_cell(CellType::START, 0, 0);
    grid.clear();
    grid.set_cell(CellType::START, 2, 2);
    assert_eq!(grid.get_cell(0, 0), CellType::EMPTY);
    assert_eq!(count(&grid, CellType::START), 1);
    assert_eq!(grid.get_start(), Some(Cell { row: 2, column: 2 }));
}

#[test]
fn highlight_takes_any_cell() {
    let mut grid = Grid::new(100, 5, 20, 0, 0);
    grid.highlight_cell(2, 3);
    assert_eq!(grid.get_highlight(), Some(Cell { row: 2, column: 3 }));
    grid.highlight_cell(-1, 70);
    assert_eq!(grid.get_highlight(), Some(Cell { row: -1, column: 70 }));
    assert_eq!(count(&grid, CellType::EMPTY), 25);
}

#[test]
fn mouse_in_grid_goes_by_the_window_size() {
    let grid = Grid::new(1000, 25, 40, 0, 0);
    assert!(grid.mouse_in_grid(0, 0));
    assert!(grid.mouse_in_grid(999, 999));
    assert!(!grid.mouse_in_grid(1000, 5));
    assert!(!grid.mouse_in_grid(5, 1000));
    assert!(!grid.mouse_in_grid(1100, 1100));
}
