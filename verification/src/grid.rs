//! The grid: a square matrix of cell states that holds at most one start cell
//! and one goal cell.

use vstd::prelude::*;

verus! {

/// A coordinate on the grid.
#[derive(Clone, Copy, PartialEq, Eq, Structural, Hash, Debug)]
pub struct Cell {
    pub row: i32,
    pub column: i32,
}

impl Default for Cell {
    fn default() -> (cell: Cell)
        ensures
            cell == (Cell { row: 0, column: 0 }),
    {
        Cell { row: 0, column: 0 }
    }
}

impl Cell {
    /// The number under which the search files what it knows of a cell:
    /// another for every cell.
    pub open spec fn code(self) -> u64 {
        ((self.row + 0x8000_0000) * 0x1_0000_0000 + (self.column + 0x8000_0000)) as u64
    }

    /// The number under which the search files what it knows of this cell.
    pub fn key(&self) -> (k: u64)
        ensures
            k == self.code(),
    {
        let high: u64 = (self.row as i64 + 0x8000_0000) as u64;
        let low: u64 = (self.column as i64 + 0x8000_0000) as u64;
        high * 0x1_0000_0000 + low
    }
}

/// Two cells with one code are one cell.
pub proof fn lemma_code_injective(a: Cell, b: Cell)
    requires
        a.code() == b.code(),
    ensures
        a == b,
{
}

/// What a cell of the grid holds.
#[allow(non_camel_case_types)]
#[derive(Clone, Copy, PartialEq, Eq, Structural, Debug)]
pub enum CellType {
    EMPTY,
    WALL,
    START,
    GOAL,
    PATH,
}

/// The mathematical content of a [`Grid`].
pub struct GridView {
    /// The number of rows, which is also the number of columns.
    pub size: nat,
    /// The cell states, row by row.
    pub cells: Seq<Seq<CellType>>,
    pub start: Option<Cell>,
    pub goal: Option<Cell>,
    pub highlight: Option<Cell>,
    pub window_size: nat,
    pub square_size: nat,
    pub offset_x: nat,
    pub offset_y: nat,
}

impl GridView {
    /// The cell lies on the grid.
    pub open spec fn in_bounds(self, cell: Cell) -> bool {
        0 <= cell.row < self.size && 0 <= cell.column < self.size
    }

    /// The state of a cell that lies on the grid.
    pub open spec fn state(self, cell: Cell) -> CellType
        recommends
            self.in_bounds(cell),
    {
        self.cells[cell.row as int][cell.column as int]
    }

    /// The matrix is square, every coordinate fits a `Cell`, and a cell in
    /// state `START` or `GOAL` is the one recorded as such.
    pub open spec fn valid(self) -> bool {
        &&& self.size <= i32::MAX
        &&& self.cells.len() == self.size
        &&& forall|r: int| 0 <= r < self.size ==> (#[trigger] self.cells[r]).len() == self.size
        &&& self.start matches Some(s) ==> self.in_bounds(s)
        &&& self.goal matches Some(g) ==> self.in_bounds(g)
        &&& forall|c: Cell|
            self.in_bounds(c) && #[trigger] self.state(c) == CellType::START ==> self.start
                == Some(c)
        &&& forall|c: Cell|
            self.in_bounds(c) && #[trigger] self.state(c) == CellType::GOAL ==> self.goal == Some(
                c,
            )
    }

    /// The matrix with the state of one cell replaced.
    pub open spec fn put(self, cell: Cell, state: CellType) -> Seq<Seq<CellType>> {
        self.cells.update(
            cell.row as int,
            self.cells[cell.row as int].update(cell.column as int, state),
        )
    }

    /// The grid after `state` has been written at `cell`. Writing `START` or
    /// `GOAL` first empties the cell recorded as such and records `cell`.
    pub open spec fn with_cell(self, state: CellType, cell: Cell) -> GridView {
        let emptied = match state {
            CellType::START => match self.start {
                Some(s) => GridView { cells: self.put(s, CellType::EMPTY), ..self },
                None => self,
            },
            CellType::GOAL => match self.goal {
                Some(g) => GridView { cells: self.put(g, CellType::EMPTY), ..self },
                None => self,
            },
            _ => self,
        };
        GridView {
            cells: emptied.put(cell, state),
            start: if state == CellType::START {
                Some(cell)
            } else {
                self.start
            },
            goal: if state == CellType::GOAL {
                Some(cell)
            } else {
                self.goal
            },
            ..self
        }
    }

    /// Writing a cell on the grid keeps the grid valid.
    pub proof fn lemma_with_cell_valid(self, state: CellType, cell: Cell)
        requires
            self.valid(),
            self.in_bounds(cell),
        ensures
            self.with_cell(state, cell).valid(),
            self.with_cell(state, cell).size == self.size,
    {
        let after = self.with_cell(state, cell);
        assert forall|c: Cell|
            after.in_bounds(c) && #[trigger] after.state(c) == CellType::START implies after.start
            == Some(c) by {
            if c != cell {
                assert(self.state(c) == CellType::START);
            }
        }
        assert forall|c: Cell|
            after.in_bounds(c) && #[trigger] after.state(c) == CellType::GOAL implies after.goal
            == Some(c) by {
            if c != cell {
                assert(self.state(c) == CellType::GOAL);
            }
        }
    }

    /// A valid grid holds `START` in at most one cell, and `GOAL` in at most
    /// one.
    pub proof fn lemma_single_start_and_goal(self, a: Cell, b: Cell)
        requires
            self.valid(),
            self.in_bounds(a),
            self.in_bounds(b),
        ensures
            self.state(a) == CellType::START && self.state(b) == CellType::START ==> a == b,
            self.state(a) == CellType::GOAL && self.state(b) == CellType::GOAL ==> a == b,
    {
    }

    /// Setting the start at `a` and then at another cell `b` leaves `a`
    /// `EMPTY` and `b` the only `START` cell.
    pub proof fn lemma_start_moves(self, a: Cell, b: Cell)
        requires
            self.valid(),
            self.in_bounds(a),
            self.in_bounds(b),
            a != b,
        ensures
            ({
                let after = self.with_cell(CellType::START, a).with_cell(CellType::START, b);
                &&& after.valid()
                &&& after.start == Some(b)
                &&& after.state(a) == CellType::EMPTY
                &&& after.state(b) == CellType::START
                &&& forall|c: Cell|
                    after.in_bounds(c) && #[trigger] after.state(c) == CellType::START ==> c == b
            }),
    {
        let first = self.with_cell(CellType::START, a);
        self.lemma_with_cell_valid(CellType::START, a);
        first.lemma_with_cell_valid(CellType::START, b);
    }

    /// Setting the goal at `a` and then at another cell `b` leaves `a`
    /// `EMPTY` and `b` the only `GOAL` cell.
    pub proof fn lemma_goal_moves(self, a: Cell, b: Cell)
        requires
            self.valid(),
            self.in_bounds(a),
            self.in_bounds(b),
            a != b,
        ensures
            ({
                let after = self.with_cell(CellType::GOAL, a).with_cell(CellType::GOAL, b);
                &&& after.valid()
                &&& after.goal == Some(b)
                &&& after.state(a) == CellType::EMPTY
                &&& after.state(b) == CellType::GOAL
                &&& forall|c: Cell|
                    after.in_bounds(c) && #[trigger] after.state(c) == CellType::GOAL ==> c == b
            }),
    {
        let first = self.with_cell(CellType::GOAL, a);
        self.lemma_with_cell_valid(CellType::GOAL, a);
        first.lemma_with_cell_valid(CellType::GOAL, b);
    }

    /// No cell but `end` is in state `GOAL`.
    pub open spec fn goal_only_at(self, end: Cell) -> bool {
        forall|c: Cell| self.in_bounds(c) && #[trigger] self.state(c) == CellType::GOAL ==> c == end
    }

    /// A valid grid holds `GOAL` at its recorded goal only, and nowhere
    /// when it has recorded none.
    pub proof fn lemma_goal_only_at_recorded(self, end: Cell)
        requires
            self.valid(),
            self.goal.is_none() || self.goal == Some(end),
        ensures
            self.goal_only_at(end),
    {
    }

    /// Every cell is `EMPTY`.
    pub open spec fn blank(self) -> bool {
        forall|c: Cell| self.in_bounds(c) ==> #[trigger] self.state(c) == CellType::EMPTY
    }
}

pub struct Grid {
    window_size: usize,
    grid_size: usize,
    square_size: usize,
    offset_x: usize,
    offset_y: usize,
    grid: Vec<Vec<CellType>>,
    highlight: Option<Cell>,
    goal: Option<Cell>,
    start: Option<Cell>,
}

impl View for Grid {
    type V = GridView;

    closed spec fn view(&self) -> GridView {
        GridView {
            size: self.grid_size as nat,
            cells: Seq::new(self.grid@.len(), |r: int| self.grid@[r]@),
            start: self.start,
            goal: self.goal,
            highlight: self.highlight,
            window_size: self.window_size as nat,
            square_size: self.square_size as nat,
            offset_x: self.offset_x as nat,
            offset_y: self.offset_y as nat,
        }
    }
}

/// A row of `n` cells, all `EMPTY`.
fn empty_row(n: usize) -> (row: Vec<CellType>)
    ensures
        row@.len() == n,
        forall|i: int| 0 <= i < n ==> row@[i] == CellType::EMPTY,
{
    let mut row: Vec<CellType> = Vec::new();
    let mut i: usize = 0;
    while i < n
        invariant
            i <= n,
            row@.len() == i,
            forall|j: int| 0 <= j < i ==> row@[j] == CellType::EMPTY,
        decreases n - i,
    {
        row.push(CellType::EMPTY);
        i += 1;
    }
    row
}

/// A matrix of `n` rows of `n` cells, all `EMPTY`.
fn empty_matrix(n: usize) -> (rows: Vec<Vec<CellType>>)
    ensures
        rows@.len() == n,
        forall|r: int| 0 <= r < n ==> (#[trigger] rows@[r])@.len() == n,
        forall|r: int, c: int|
            0 <= r < n && 0 <= c < n ==> #[trigger] rows@[r]@[c] == CellType::EMPTY,
{
    let mut rows: Vec<Vec<CellType>> = Vec::new();
    let mut r: usize = 0;
    while r < n
        invariant
            r <= n,
            rows@.len() == r,
            forall|k: int| 0 <= k < r ==> (#[trigger] rows@[k])@.len() == n,
            forall|k: int, c: int|
                0 <= k < r && 0 <= c < n ==> #[trigger] rows@[k]@[c] == CellType::EMPTY,
        decreases n - r,
    {
        rows.push(empty_row(n));
        r += 1;
    }
    rows
}

impl Grid {
    /// The grid is well formed: its view is [`GridView::valid`].
    pub open spec fn wf(&self) -> bool {
        self@.valid()
    }

    /// What `wf` says of the rows as they are stored.
    proof fn lemma_rows(&self)
        requires
            self.wf(),
        ensures
            self.grid@.len() == self.grid_size,
            self.grid_size <= i32::MAX,
            forall|r: int| 0 <= r < self.grid_size ==> (#[trigger] self.grid@[r])@.len() == self.grid_size,
    {
        assert forall|r: int| 0 <= r < self.grid_size implies (#[trigger] self.grid@[r])@.len()
            == self.grid_size by {
            assert(self@.cells[r].len() == self.grid_size);
        }
    }

    /// A grid of `grid_size` rows and columns, every cell `EMPTY`, with no
    /// start, goal or highlight.
    pub fn new(
        window_size: usize,
        grid_size: usize,
        square_size: usize,
        offset_x: usize,
        offset_y: usize,
    ) -> (grid: Grid)
        requires
            grid_size <= i32::MAX,
        ensures
            grid.wf(),
            grid@.size == grid_size,
            grid@.blank(),
            grid@.start.is_none(),
            grid@.goal.is_none(),
            grid@.highlight.is_none(),
            grid@.window_size == window_size,
            grid@.square_size == square_size,
            grid@.offset_x == offset_x,
            grid@.offset_y == offset_y,
    {
        Grid {
            window_size,
            grid_size,
            square_size,
            offset_x,
            offset_y,
            grid: empty_matrix(grid_size),
            highlight: None,
            goal: None,
            start: None,
        }
    }

    /// The state of the cell at `row`, `column`.
    pub fn get_cell(&self, row: usize, column: usize) -> (state: CellType)
        requires
            self.wf(),
            row < self@.size,
            column < self@.size,
        ensures
            state == self@.cells[row as int][column as int],
    {
        proof {
            self.lemma_rows();
        }
        self.grid[row][column]
    }

    /// Whether a pointer at `x`, `y`, in whole pixels from the window's
    /// corner, lies over the grid.
    pub fn mouse_in_grid(&self, x: usize, y: usize) -> (inside: bool)
        ensures
            inside == (x < self@.window_size && y < self@.window_size),
    {
        x < self.window_size && y < self.window_size
    }

    /// Marks the cell that the display is to bring out. Any coordinate is
    /// taken; one off the grid brings out nothing.
    pub fn highlight_cell(&mut self, row: i32, column: i32)
        ensures
            final(self)@ == (GridView { highlight: Some(Cell { row, column }), ..old(self)@ }),
    {
        self.highlight = Some(Cell { row, column });
    }

    /// Empties every cell and forgets the start and the goal.
    pub fn clear(&mut self)
        requires
            old(self).wf(),
        ensures
            final(self).wf(),
            final(self)@.blank(),
            final(self)@.start.is_none(),
            final(self)@.goal.is_none(),
            final(self)@.size == old(self)@.size,
            final(self)@.highlight == old(self)@.highlight,
            final(self)@.window_size == old(self)@.window_size,
            final(self)@.square_size == old(self)@.square_size,
            final(self)@.offset_x == old(self)@.offset_x,
            final(self)@.offset_y == old(self)@.offset_y,
    {
        self.grid = empty_matrix(self.grid_size);
        self.start = None;
        self.goal = None;
    }

    /// The cell recorded as the start, if any.
    pub fn get_start(&self) -> (start: Option<Cell>)
        ensures
            start == self@.start,
    {
        self.start
    }

    /// The cell recorded as the goal, if any.
    pub fn get_goal(&self) -> (goal: Option<Cell>)
        ensures
            goal == self@.goal,
    {
        self.goal
    }

    /// The number of rows, which is also the number of columns.
    pub fn get_grid_size(&self) -> (size: usize)
        ensures
            size == self@.size,
    {
        self.grid_size
    }

    /// The cell that the display is to bring out, if any.
    pub fn get_highlight(&self) -> (highlight: Option<Cell>)
        ensures
            highlight == self@.highlight,
    {
        self.highlight
    }

    /// The side of one cell on the display, in pixels.
    pub fn get_square_size(&self) -> (size: usize)
        ensures
            size == self@.square_size,
    {
        self.square_size
    }

    /// Writes `state` at `row`, `column`. Setting `START` or `GOAL` first
    /// empties the cell recorded as the start or goal so far, whatever it
    /// holds by now, and records the new one.
    pub fn set_cell(&mut self, state: CellType, row: i32, column: i32)
        requires
            old(self).wf(),
            0 <= row < old(self)@.size,
            0 <= column < old(self)@.size,
        ensures
            final(self).wf(),
            final(self)@ == old(self)@.with_cell(state, Cell { row, column }),
    {
        proof {
            self.lemma_rows();
        }
        let ghost before = self@;
        let ghost target = Cell { row, column };
        if state == CellType::GOAL {
            if self.goal.is_some() {
                let previous = self.goal.unwrap();
                self.grid[previous.row as usize][previous.column as usize] = CellType::EMPTY;
            }
            self.goal = Some(Cell { row, column });
        }
        if state == CellType::START {
            if self.start.is_some() {
                let previous = self.start.unwrap();
                self.grid[previous.row as usize][previous.column as usize] = CellType::EMPTY;
            }
            self.start = Some(Cell { row, column });
        }
        self.grid[row as usize][column as usize] = state;
        proof {
            let after = before.with_cell(state, target);
            assert(self@.cells.len() == after.cells.len());
            assert forall|r: int| 0 <= r < after.cells.len() implies #[trigger] self@.cells[r]
                =~= after.cells[r] by {}
            assert(self@.cells =~= after.cells);
            before.lemma_with_cell_valid(state, target);
        }
    }
}

} // verus!
