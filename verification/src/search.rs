//! The state of a search under way, and what holds of it from the first
//! step to the last.

use crate::estimate::{
    estimate, lemma_estimate_adjacent, lemma_estimate_admissible, lemma_estimate_exists, total,
    SCALE,
};
use crate::frontier::CellCost;
use crate::grid::{lemma_code_injective, Cell, CellType, GridView};
use crate::route::{
    adjacent, connected, is_route, is_shortest_route, lemma_route_tail, manhattan, passable,
    step_ok,
};
use crate::tally::{grid_total, lemma_grid_bounds, lemma_grid_change, within};
use vstd::multiset::Multiset;
use vstd::prelude::*;

verus! {

/// Following `parents` from `cell` comes to a cell without a parent within
/// `depth` steps.
pub open spec fn grounded(parents: Map<u64, Cell>, cell: Cell, depth: nat) -> bool
    decreases depth,
{
    !parents.contains_key(cell.code()) || (depth > 0 && grounded(
        parents,
        parents[cell.code()],
        (depth - 1) as nat,
    ))
}

/// The cells that following `parents` from `cell` passes, for `depth` steps
/// at most, the last one reached first and `cell` last.
pub open spec fn trail(parents: Map<u64, Cell>, cell: Cell, depth: nat) -> Seq<Cell>
    decreases depth,
{
    if depth == 0 || !parents.contains_key(cell.code()) {
        seq![cell]
    } else {
        trail(parents, parents[cell.code()], (depth - 1) as nat).push(cell)
    }
}

/// Following `parents` from `cell` comes to a cell without a parent.
pub open spec fn rooted(parents: Map<u64, Cell>, cell: Cell) -> bool {
    exists|depth: nat| grounded(parents, cell, depth)
}

/// The cells from the one without a parent that following `parents` from
/// `cell` comes to, down to `cell`.
pub open spec fn trail_of(parents: Map<u64, Cell>, cell: Cell) -> Seq<Cell> {
    trail(parents, cell, choose|depth: nat| grounded(parents, cell, depth))
}

/// Once the cell without a parent is reached, more steps add nothing.
pub proof fn lemma_trail_depth(parents: Map<u64, Cell>, cell: Cell, a: nat, b: nat)
    requires
        grounded(parents, cell, a),
        a <= b,
    ensures
        grounded(parents, cell, b),
        trail(parents, cell, b) == trail(parents, cell, a),
    decreases a,
{
    if parents.contains_key(cell.code()) {
        lemma_trail_depth(parents, parents[cell.code()], (a - 1) as nat, (b - 1) as nat);
    }
}

/// The trail of a rooted cell is the trail at any depth that reaches the
/// cell without a parent.
pub proof fn lemma_trail_of(parents: Map<u64, Cell>, cell: Cell, depth: nat)
    requires
        grounded(parents, cell, depth),
    ensures
        rooted(parents, cell),
        trail_of(parents, cell) == trail(parents, cell, depth),
{
    let chosen = choose|d: nat| grounded(parents, cell, d);
    if chosen <= depth {
        lemma_trail_depth(parents, cell, chosen, depth);
    } else {
        lemma_trail_depth(parents, cell, depth, chosen);
    }
}

/// What a search is to find: a route on `grid` from `start` to `end`.
pub struct Task {
    pub grid: GridView,
    pub start: Cell,
    pub end: Cell,
}

/// What a search has found out so far.
pub struct Progress {
    /// The least number of steps found so far to each cell reached, by the
    /// cell's code; one step less is counted for entering a `GOAL` cell.
    pub scores: Map<u64, i64>,
    /// For each cell reached but the start, the cell from which the least
    /// number of steps was found, by the cell's code.
    pub parents: Map<u64, Cell>,
    /// The cells waiting to be looked at, with their estimated costs.
    pub open: Multiset<CellCost>,
}

impl Progress {
    /// The search has reached the cell.
    pub open spec fn known(self, cell: Cell) -> bool {
        self.scores.contains_key(cell.code())
    }

    /// The score of a cell that the search has reached.
    pub open spec fn score(self, cell: Cell) -> int {
        self.scores[cell.code()] as int
    }

    /// The entry under which the cell waits when its present score was found.
    pub open spec fn entry(self, cell: Cell, end: Cell) -> CellCost {
        CellCost { cell, cost: total(self.score(cell), estimate(cell, end)) as i128 }
    }

    /// The cell waits with its present score.
    pub open spec fn queued(self, cell: Cell, end: Cell) -> bool {
        self.open.count(self.entry(cell, end)) > 0
    }

    /// The progress after a better score for `cell` was found from `from`.
    pub open spec fn improved(self, from: Cell, cell: Cell, score: i64, end: Cell) -> Progress {
        Progress {
            scores: self.scores.insert(cell.code(), score),
            parents: self.parents.insert(cell.code(), from),
            open: self.open.insert(
                CellCost { cell, cost: total(score as int, estimate(cell, end)) as i128 },
            ),
        }
    }

    /// The progress after `entry` was taken from the waiting cells.
    pub open spec fn taken(self, entry: CellCost) -> Progress {
        Progress { open: self.open.remove(entry), ..self }
    }

    /// Counts a cell that the search has not reached.
    pub open spec fn missing(self) -> spec_fn(Cell) -> int {
        |cell: Cell|
            if self.known(cell) {
                0int
            } else {
                1int
            }
    }

    /// The weight of a cell: more than any score while the search has not
    /// reached it, and its score, made positive, afterwards.
    pub open spec fn weight(self, size: nat) -> spec_fn(Cell) -> int {
        |cell: Cell|
            if self.known(cell) {
                self.score(cell) + 2
            } else {
                (size * size + 3) as int
            }
    }

    /// The number of cells of the grid that the search has not reached.
    pub open spec fn unseen(self, size: nat) -> int {
        grid_total(self.missing(), size, size)
    }

    /// The sum of the weights of the grid's cells, which every better score
    /// makes less.
    pub open spec fn potential(self, size: nat) -> int {
        grid_total(self.weight(size), size, size)
    }
}

impl Task {
    /// The grid holds `GOAL` nowhere but at `end`: the case in which the
    /// search finds a shortest route.
    pub open spec fn plain(self) -> bool {
        self.grid.goal_only_at(self.end)
    }

    /// The cell is the grid's `GOAL` cell.
    pub open spec fn is_goal(self, cell: Cell) -> bool {
        self.grid.in_bounds(cell) && self.grid.state(cell) == CellType::GOAL
    }

    /// What entering the cell adds to a score.
    pub open spec fn step(self, cell: Cell) -> int {
        if self.grid.state(cell) == CellType::GOAL {
            -1
        } else {
            1
        }
    }

    /// The least that the score of a cell can be.
    pub open spec fn least(self, cell: Cell) -> int {
        if cell == self.start {
            0
        } else if self.is_goal(self.start) {
            1
        } else if self.is_goal(cell) {
            -1
        } else {
            0
        }
    }

    /// The cell can be entered from its parent, which the search has
    /// reached with a score that accounts for the cell's own.
    pub open spec fn linked(self, p: Progress, cell: Cell) -> bool {
        let from = p.parents[cell.code()];
        &&& p.parents.contains_key(cell.code())
        &&& passable(self.grid, cell)
        &&& adjacent(from, cell)
        &&& from != self.end
        &&& p.known(from)
        &&& p.score(from) + self.step(cell) <= p.score(cell)
    }

    /// The parent of the cell is not in turn the cell's child.
    pub open spec fn untangled(self, p: Progress, cell: Cell) -> bool {
        let from = p.parents[cell.code()];
        from == self.start || p.parents[from.code()] != cell
    }

    /// A number that is less for the parent of a cell than for the cell.
    pub open spec fn rank(self, p: Progress, cell: Cell) -> int {
        4 * p.score(cell) + 4 + (if self.is_goal(cell) {
            6int
        } else if cell != self.start && self.is_goal(p.parents[cell.code()]) {
            3int
        } else {
            0int
        })
    }

    /// The score of `next` is no worse than a step from `cell` would make
    /// it.
    pub open spec fn handled(self, p: Progress, cell: Cell, next: Cell) -> bool {
        passable(self.grid, next) ==> p.known(next) && p.score(next) <= p.score(cell) + self.step(
            next,
        )
    }

    /// No step from `cell` would better a score.
    pub open spec fn relaxed(self, p: Progress, cell: Cell) -> bool {
        forall|next: Cell| #[trigger] adjacent(cell, next) ==> self.handled(p, cell, next)
    }

    /// The cell waits with its present score, or it is not the end and no
    /// step from it would better a score.
    pub open spec fn settled(self, p: Progress, cell: Cell) -> bool {
        p.queued(cell, self.end) || (cell != self.end && self.relaxed(p, cell))
    }

    /// What holds of a cell that the search has reached; of the cell
    /// `busy`, whose neighbours are being looked at, it need not be settled.
    pub open spec fn cell_ok(self, p: Progress, cell: Cell, busy: Option<Cell>) -> bool {
        &&& cell != self.start ==> self.linked(p, cell)
        &&& cell != self.start && self.is_goal(cell) ==> self.untangled(p, cell)
        &&& p.score(cell) >= self.least(cell)
        &&& p.score(cell) + p.unseen(self.grid.size) <= self.grid.size * self.grid.size
        &&& busy != Some(cell) ==> self.settled(p, cell)
        &&& self.start == self.end ==> cell == self.start
    }

    /// What holds of an entry that waits: the search has reached its cell,
    /// with a score that costs no more than the entry says.
    pub open spec fn entry_ok(self, p: Progress, entry: CellCost) -> bool {
        p.known(entry.cell) && total(p.score(entry.cell), estimate(entry.cell, self.end))
            <= entry.cost
    }

    /// Once the end is reached, no route to it has fewer steps than its
    /// score tells.
    pub open spec fn best_at_end(self, p: Progress) -> bool {
        p.known(self.end) && self.end != self.start ==> forall|q: Seq<Cell>| #[trigger]
            is_route(self.grid, self.start, self.end, q) ==> p.score(self.end) - self.step(
                self.end,
            ) + 2 <= q.len()
    }

    /// The estimated cost through `cell` is no more than the steps of any
    /// route to the end, unless the end is reached already by a route that
    /// is no longer.
    pub open spec fn bounded(self, p: Progress, cell: Cell) -> bool {
        forall|q: Seq<Cell>| #[trigger]
            is_route(self.grid, self.start, self.end, q) ==> total(
                p.score(cell),
                estimate(cell, self.end),
            ) <= SCALE * (q.len() - 1) || (p.known(self.end) && p.score(self.end) - self.step(
                self.end,
            ) + 2 <= q.len())
    }

    /// What holds of the search from its first step to its last.
    pub open spec fn inv(self, p: Progress, busy: Option<Cell>) -> bool {
        &&& p.known(self.start)
        &&& p.score(self.start) == 0
        &&& !p.parents.contains_key(self.start.code())
        &&& forall|c: Cell| #[trigger] p.known(c) ==> self.cell_ok(p, c, busy)
        &&& forall|e: CellCost| #[trigger] p.open.count(e) > 0 ==> self.entry_ok(p, e)
        &&& self.plain() ==> self.best_at_end(p)
    }
}

/// An estimated cost fits the entries' cost field.
pub proof fn lemma_total_fits(score: i64, cell: Cell, end: Cell)
    ensures
        total(score as int, estimate(cell, end)) as i128 == total(score as int, estimate(cell, end)),
        -0x1000_0000_0000_0000_0000_0000 <= total(score as int, estimate(cell, end))
            <= 0x1000_0000_0000_0000_0000_0000,
{
    lemma_estimate_exists(cell, end);
}

impl Progress {
    /// What a better score for one cell changes, cell by cell.
    pub proof fn lemma_improved(self, from: Cell, cell: Cell, score: i64, end: Cell)
        ensures
            ({
                let after = self.improved(from, cell, score, end);
                &&& after.known(cell)
                &&& after.score(cell) == score
                &&& after.parents.contains_key(cell.code())
                &&& after.parents[cell.code()] == from
                &&& after.queued(cell, end)
                &&& forall|c: Cell|
                    c != cell ==> (#[trigger] after.known(c) == self.known(c)) && after.score(c)
                        == self.score(c)
                &&& forall|c: Cell|
                    c != cell ==> (#[trigger] after.parents.contains_key(c.code())
                        == self.parents.contains_key(c.code())) && after.parents[c.code()]
                        == self.parents[c.code()]
                &&& forall|e: CellCost| self.open.count(e) <= #[trigger] after.open.count(e)
                &&& forall|e: CellCost| #[trigger]
                    after.open.count(e) > 0 ==> self.open.count(e) > 0 || e == after.entry(
                        cell,
                        end,
                    )
            }),
    {
        let after = self.improved(from, cell, score, end);
        assert forall|c: Cell| c != cell implies (#[trigger] after.known(c) == self.known(c))
            && after.score(c) == self.score(c) by {
            if c.code() == cell.code() {
                lemma_code_injective(c, cell);
            }
        }
        assert forall|c: Cell| c != cell implies (#[trigger] after.parents.contains_key(c.code())
            == self.parents.contains_key(c.code())) && after.parents[c.code()]
            == self.parents[c.code()] by {
            if c.code() == cell.code() {
                lemma_code_injective(c, cell);
            }
        }
    }

    /// A better score for a cell leaves one unseen cell less where the cell
    /// was unseen, and the sum of weights less by what the cell's weight
    /// lost.
    pub proof fn lemma_improved_totals(self, from: Cell, cell: Cell, score: i64, end: Cell, size: nat)
        requires
            size <= i32::MAX,
            within(cell, size, size),
        ensures
            ({
                let after = self.improved(from, cell, score, end);
                &&& after.unseen(size) == self.unseen(size) - (if self.known(cell) {
                    0int
                } else {
                    1int
                })
                &&& after.potential(size) == self.potential(size) + (score + 2) - (if self.known(
                    cell,
                ) {
                    self.score(cell) + 2
                } else {
                    (size * size + 3) as int
                })
            }),
    {
        let after = self.improved(from, cell, score, end);
        self.lemma_improved(from, cell, score, end);
        assert forall|c: Cell| c != cell implies #[trigger] self.missing()(c) == after.missing()(
            c,
        ) by {
            assert(after.known(c) == self.known(c));
        }
        lemma_grid_change(self.missing(), after.missing(), size, size, cell);
        assert forall|c: Cell| c != cell implies #[trigger] self.weight(size)(c) == after.weight(
            size,
        )(c) by {
            assert(after.known(c) == self.known(c));
        }
        lemma_grid_change(self.weight(size), after.weight(size), size, size, cell);
    }

    /// The totals go by the scores alone.
    pub proof fn lemma_same_scores(self, other: Progress, size: nat)
        requires
            size <= i32::MAX,
            self.scores == other.scores,
        ensures
            self.unseen(size) == other.unseen(size),
            self.potential(size) == other.potential(size),
    {
        let any = Cell { row: 0, column: 0 };
        assert(self.known(any) == other.known(any));
        assert forall|c: Cell| c != any implies #[trigger] self.missing()(c) == other.missing()(
            c,
        ) by {
            assert(self.known(c) == other.known(c));
        }
        lemma_grid_change(self.missing(), other.missing(), size, size, any);
        assert forall|c: Cell| c != any implies #[trigger] self.weight(size)(c) == other.weight(
            size,
        )(c) by {
            assert(self.known(c) == other.known(c));
        }
        lemma_grid_change(self.weight(size), other.weight(size), size, size, any);
    }

    /// Between none and all of the grid's cells are unseen.
    pub proof fn lemma_unseen_bounds(self, size: nat)
        ensures
            0 <= self.unseen(size) <= size * size,
    {
        lemma_grid_bounds(self.missing(), size, size, 0, 1);
        assert(size * (size * 0) == 0) by (nonlinear_arith);
        assert(size * (size * 1) == size * size) by (nonlinear_arith);
    }
}

impl Task {
    /// The progress before the first step: the start is reached with no
    /// step, and waits.
    pub open spec fn first(self) -> Progress {
        Progress {
            scores: Map::<u64, i64>::empty().insert(self.start.code(), 0i64),
            parents: Map::<u64, Cell>::empty(),
            open: Multiset::<CellCost>::empty().insert(
                CellCost { cell: self.start, cost: total(0, estimate(self.start, self.end)) as i128 },
            ),
        }
    }

    /// The search begins in a state of which the invariant holds.
    pub proof fn lemma_begin(self)
        requires
            self.grid.valid(),
        ensures
            self.inv(self.first(), None),
    {
        let p = self.first();
        p.lemma_unseen_bounds(self.grid.size);
        assert(p.queued(self.start, self.end));
        assert forall|c: Cell| #[trigger] p.known(c) implies self.cell_ok(p, c, None) by {
            lemma_code_injective(c, self.start);
        }
        assert forall|e: CellCost| #[trigger] p.open.count(e) > 0 implies self.entry_ok(p, e) by {
            lemma_total_fits(0i64, self.start, self.end);
        }
        if p.known(self.end) {
            lemma_code_injective(self.end, self.start);
        }
    }

    /// Along a route, from a cell that the search has reached, there is a
    /// cell that waits.
    pub proof fn lemma_scan(self, p: Progress, q: Seq<Cell>, j: int) -> (w: int)
        requires
            self.inv(p, None),
            is_route(self.grid, self.start, self.end, q),
            0 <= j < q.len(),
            p.known(q[j]),
        ensures
            j <= w < q.len(),
            p.known(q[w]),
            p.queued(q[w], self.end),
        decreases q.len() - j,
    {
        let cell = q[j];
        assert(self.cell_ok(p, cell, None));
        if p.queued(cell, self.end) {
            j
        } else {
            let next = q[j + 1];
            assert(step_ok(self.grid, q, j + 1));
            assert(adjacent(cell, next));
            assert(self.handled(p, cell, next));
            self.lemma_scan(p, q, j + 1)
        }
    }

    /// Where the grid holds `GOAL` at the end only: along a route, from a
    /// cell reached in no more steps than the route took to it, there is a
    /// cell that waits with such a score, or the end is reached in no more
    /// steps than the route has.
    pub proof fn lemma_scan_scored(self, p: Progress, q: Seq<Cell>, j: int) -> (w: int)
        requires
            self.grid.valid(),
            self.plain(),
            self.inv(p, None),
            is_route(self.grid, self.start, self.end, q),
            0 <= j < q.len(),
            q[j] != self.end,
            p.known(q[j]),
            p.score(q[j]) <= j,
        ensures
            j <= w < q.len(),
            p.known(q[w]),
            q[w] != self.end ==> p.score(q[w]) <= w && p.queued(q[w], self.end),
            q[w] == self.end ==> p.score(self.end) - self.step(self.end) + 1 <= w,
        decreases q.len() - j,
    {
        let cell = q[j];
        assert(self.cell_ok(p, cell, None));
        if p.queued(cell, self.end) {
            j
        } else {
            let next = q[j + 1];
            assert(step_ok(self.grid, q, j + 1));
            assert(adjacent(cell, next));
            assert(self.handled(p, cell, next));
            if next == self.end {
                j + 1
            } else {
                assert(self.grid.state(next) != CellType::GOAL);
                self.lemma_scan_scored(p, q, j + 1)
            }
        }
    }

    /// Taking a waiting cell of least cost leaves the invariant standing,
    /// with that cell busy; and where the cell is not the end and the grid
    /// holds `GOAL` at the end only, its estimated cost bounds what any
    /// route may take.
    pub proof fn lemma_take(self, p: Progress, entry: CellCost)
        requires
            self.grid.valid(),
            self.inv(p, None),
            p.open.count(entry) > 0,
            forall|other: CellCost| p.open.count(other) > 0 ==> entry.cost <= other.cost,
        ensures
            p.known(entry.cell),
            self.inv(p.taken(entry), Some(entry.cell)),
            p.taken(entry).potential(self.grid.size) == p.potential(self.grid.size),
            entry.cell != self.end ==> self.start != self.end,
            entry.cell != self.end && self.plain() ==> self.bounded(p.taken(entry), entry.cell),
    {
        let after = p.taken(entry);
        let cell = entry.cell;
        assert(self.entry_ok(p, entry));
        assert(self.cell_ok(p, cell, None));
        p.lemma_same_scores(after, self.grid.size);
        assert forall|c: Cell| #[trigger] after.known(c) implies self.cell_ok(
            after,
            c,
            Some(cell),
        ) by {
            assert(p.known(c));
            assert(self.cell_ok(p, c, None));
            if c != cell {
                if p.queued(c, self.end) {
                    assert(after.entry(c, self.end) == p.entry(c, self.end));
                    assert(p.entry(c, self.end) != entry);
                } else {
                    assert(self.relaxed(p, c));
                    assert forall|next: Cell| #[trigger] adjacent(c, next) implies self.handled(
                        after,
                        c,
                        next,
                    ) by {
                        assert(self.handled(p, c, next));
                    }
                }
            }
        }
        assert forall|e: CellCost| #[trigger] after.open.count(e) > 0 implies self.entry_ok(
            after,
            e,
        ) by {
            assert(p.open.count(e) > 0);
            assert(self.entry_ok(p, e));
        }
        if cell != self.end && self.plain() {
            assert forall|q: Seq<Cell>| #[trigger]
                is_route(self.grid, self.start, self.end, q) implies total(
                after.score(cell),
                estimate(cell, self.end),
            ) <= SCALE * (q.len() - 1) || (after.known(self.end) && after.score(self.end)
                - self.step(self.end) + 2 <= q.len()) by {
                let w = self.lemma_scan_scored(p, q, 0);
                if q[w] != self.end {
                    let found = p.entry(q[w], self.end);
                    assert(p.open.count(found) > 0);
                    assert(self.cell_ok(p, q[w], None));
                    lemma_total_fits(p.scores[q[w].code()], q[w], self.end);
                    lemma_estimate_admissible(q[w], self.end);
                    lemma_route_tail(self.grid, self.start, self.end, q, w);
                    assert(entry.cost <= found.cost);
                    assert(SCALE * p.score(q[w]) + SCALE * (q.len() - 1 - w) <= SCALE * (q.len()
                        - 1)) by (nonlinear_arith)
                        requires
                            p.score(q[w]) <= w,
                    ;
                    assert(SCALE * manhattan(q[w], self.end) <= SCALE * (q.len() - 1 - w))
                        by (nonlinear_arith)
                        requires
                            manhattan(q[w], self.end) <= q.len() - 1 - w,
                    ;
                }
            }
        }
    }
}

impl Task {
    /// A valid grid has one `GOAL` cell at most.
    pub proof fn lemma_one_goal(self, a: Cell, b: Cell)
        requires
            self.grid.valid(),
        ensures
            self.is_goal(a) && self.is_goal(b) ==> a == b,
    {
    }

    /// The sum of weights is never negative.
    pub proof fn lemma_potential(self, p: Progress, busy: Option<Cell>)
        requires
            self.inv(p, busy),
        ensures
            0 <= p.potential(self.grid.size),
    {
        let size = self.grid.size;
        p.lemma_unseen_bounds(size);
        assert forall|c: Cell| 1 <= #[trigger] p.weight(size)(c) <= size * size + 3 by {
            if p.known(c) {
                assert(self.cell_ok(p, c, busy));
            }
        }
        lemma_grid_bounds(p.weight(size), size, size, 1, (size * size + 3) as int);
        assert(size * (size * 1) >= 0) by (nonlinear_arith);
    }

    /// A better score for a neighbour of the busy cell leaves the invariant
    /// standing and makes the sum of weights less.
    pub proof fn lemma_improve(self, p: Progress, cell: Cell, next: Cell, score: i64)
        requires
            self.grid.valid(),
            self.inv(p, Some(cell)),
            self.plain() ==> self.bounded(p, cell),
            self.start != self.end,
            p.known(cell),
            cell != self.end,
            adjacent(cell, next),
            passable(self.grid, next),
            score == p.score(cell) + self.step(next),
            p.known(next) ==> score < p.score(next),
        ensures
            ({
                let after = p.improved(cell, next, score, self.end);
                &&& self.inv(after, Some(cell))
                &&& self.plain() ==> self.bounded(after, cell)
                &&& after.score(cell) == p.score(cell)
                &&& 0 <= after.potential(self.grid.size) < p.potential(self.grid.size)
                &&& forall|other: Cell|
                    self.handled(p, cell, other) ==> #[trigger] self.handled(after, cell, other)
                &&& self.handled(after, cell, next)
            }),
    {
        let after = p.improved(cell, next, score, self.end);
        let size = self.grid.size;
        p.lemma_improved(cell, next, score, self.end);
        p.lemma_improved_totals(cell, next, score, self.end, size);
        p.lemma_unseen_bounds(size);
        after.lemma_unseen_bounds(size);
        assert(self.cell_ok(p, cell, Some(cell)));
        assert(next != cell);
        self.lemma_one_goal(next, cell);
        self.lemma_one_goal(next, self.start);
        self.lemma_one_goal(cell, self.start);
        assert(next != self.start);
        if p.known(next) {
            assert(self.cell_ok(p, next, Some(cell)));
        }
        assert forall|c: Cell| p.known(c) implies after.known(c) && after.score(c) <= p.score(c) by {
            if c != next {
                assert(after.known(c) == p.known(c));
            }
        }
        assert(self.cell_ok(after, next, Some(cell))) by {
            assert(self.linked(after, next));
            if self.is_goal(next) && cell != self.start {
                let above = p.parents[cell.code()];
                assert(self.linked(p, cell));
                if above == next {
                    assert(p.known(next));
                }
                assert(after.parents.contains_key(cell.code()) == p.parents.contains_key(
                    cell.code(),
                ));
                assert(self.untangled(after, next));
            }
        }
        assert forall|c: Cell| #[trigger] after.known(c) implies self.cell_ok(
            after,
            c,
            Some(cell),
        ) by {
            if c != next {
                assert(p.known(c));
                assert(self.cell_ok(p, c, Some(cell)));
                if c != self.start {
                    let from = p.parents[c.code()];
                    assert(after.parents.contains_key(c.code()) == p.parents.contains_key(
                        c.code(),
                    ));
                    assert(p.known(from));
                    assert(self.linked(after, c));
                    if self.is_goal(c) {
                        if from != self.start {
                            if from == next {
                                assert(self.linked(p, c));
                                if cell == c {
                                    assert(p.known(next));
                                }
                            } else {
                                assert(after.parents.contains_key(from.code())
                                    == p.parents.contains_key(from.code()));
                            }
                        }
                        assert(self.untangled(after, c));
                    }
                }
                if c != cell {
                    if p.queued(c, self.end) {
                        assert(after.entry(c, self.end) == p.entry(c, self.end));
                    } else {
                        assert(self.relaxed(p, c));
                        assert forall|other: Cell| #[trigger] adjacent(c, other) implies self.handled(
                            after,
                            c,
                            other,
                        ) by {
                            assert(self.handled(p, c, other));
                            if passable(self.grid, other) {
                                assert(p.known(other));
                            }
                        }
                    }
                }
            }
        }
        assert forall|e: CellCost| #[trigger] after.open.count(e) > 0 implies self.entry_ok(
            after,
            e,
        ) by {
            if p.open.count(e) > 0 {
                assert(self.entry_ok(p, e));
                assert(p.known(e.cell));
                assert(SCALE * after.score(e.cell) <= SCALE * p.score(e.cell)) by (nonlinear_arith)
                    requires
                        after.score(e.cell) <= p.score(e.cell),
                ;
            } else {
                lemma_total_fits(score, next, self.end);
            }
        }
        if self.plain() {
            assert(self.best_at_end(after)) by {
                if next == self.end {
                    lemma_estimate_adjacent(cell, self.end);
                    assert forall|q: Seq<Cell>| #[trigger]
                        is_route(self.grid, self.start, self.end, q) implies after.score(self.end)
                        - self.step(self.end) + 2 <= q.len() by {
                        if !(p.known(self.end) && p.score(self.end) - self.step(self.end) + 2
                            <= q.len()) {
                            assert(total(p.score(cell), estimate(cell, self.end)) <= SCALE * (
                            q.len() - 1));
                            assert(p.score(cell) + 1 <= q.len() - 1) by (nonlinear_arith)
                                requires
                                    SCALE * p.score(cell) + SCALE <= SCALE * (q.len() - 1),
                            ;
                        }
                    }
                } else {
                    if after.known(self.end) {
                        assert(p.known(self.end));
                    }
                }
            }
            assert(self.bounded(after, cell)) by {
                assert forall|q: Seq<Cell>| #[trigger]
                    is_route(self.grid, self.start, self.end, q) implies total(
                    after.score(cell),
                    estimate(cell, self.end),
                ) <= SCALE * (q.len() - 1) || (after.known(self.end) && after.score(self.end)
                    - self.step(self.end) + 2 <= q.len()) by {
                    if p.known(self.end) {
                        assert(after.known(self.end));
                    }
                }
            }
        }
        self.lemma_potential(after, Some(cell));
        assert forall|other: Cell| self.handled(p, cell, other) implies #[trigger] self.handled(
            after,
            cell,
            other,
        ) by {
            if passable(self.grid, other) {
                assert(p.known(other));
            }
        }
    }

    /// Once no step from the busy cell would better a score, no cell is
    /// busy.
    pub proof fn lemma_close(self, p: Progress, cell: Cell)
        requires
            self.inv(p, Some(cell)),
            cell != self.end,
            self.relaxed(p, cell),
        ensures
            self.inv(p, None),
    {
        assert forall|c: Cell| #[trigger] p.known(c) implies self.cell_ok(p, c, None) by {
            assert(self.cell_ok(p, c, Some(cell)));
        }
    }
}

impl Task {
    /// Following the parents from a cell that the search has reached comes
    /// to the start, along a route.
    pub proof fn lemma_trail_route(self, p: Progress, busy: Option<Cell>, cell: Cell)
        requires
            self.grid.valid(),
            self.inv(p, busy),
            p.known(cell),
        ensures
            self.rank(p, cell) >= 0,
            grounded(p.parents, cell, self.rank(p, cell) as nat),
            is_route(self.grid, self.start, cell, trail(p.parents, cell, self.rank(p, cell) as nat)),
        decreases self.rank(p, cell),
    {
        assert(self.cell_ok(p, cell, busy));
        let depth = self.rank(p, cell) as nat;
        if cell == self.start {
            let cells = trail(p.parents, cell, depth);
            assert(cells == seq![cell]);
        } else {
            let from = p.parents[cell.code()];
            assert(self.linked(p, cell));
            assert(self.cell_ok(p, from, busy));
            self.lemma_one_goal(cell, from);
            if from != self.start {
                let above = p.parents[from.code()];
                assert(self.linked(p, from));
                self.lemma_one_goal(cell, above);
                self.lemma_one_goal(from, above);
            }
            assert(self.rank(p, from) < self.rank(p, cell));
            self.lemma_trail_route(p, busy, from);
            lemma_trail_depth(p.parents, from, self.rank(p, from) as nat, (depth - 1) as nat);
            let shorter = trail(p.parents, from, (depth - 1) as nat);
            let cells = trail(p.parents, cell, depth);
            assert(cells == shorter.push(cell));
            assert forall|i: int| 1 <= i < cells.len() implies #[trigger] step_ok(
                self.grid,
                cells,
                i,
            ) by {
                if i < shorter.len() {
                    assert(step_ok(self.grid, shorter, i));
                }
            }
        }
    }

    /// Where the grid holds `GOAL` at the end only, following the parents
    /// from a cell other than the end passes no more cells than the cell's
    /// score tells.
    pub proof fn lemma_trail_length(self, p: Progress, busy: Option<Cell>, cell: Cell)
        requires
            self.grid.valid(),
            self.plain(),
            self.inv(p, busy),
            self.start != self.end,
            p.known(cell),
            cell != self.end,
        ensures
            p.score(cell) >= 0,
            grounded(p.parents, cell, p.score(cell) as nat),
            trail(p.parents, cell, p.score(cell) as nat).len() <= p.score(cell) + 1,
        decreases p.score(cell),
    {
        assert(self.cell_ok(p, cell, busy));
        let depth = p.score(cell) as nat;
        if cell != self.start {
            let from = p.parents[cell.code()];
            assert(self.linked(p, cell));
            assert(self.grid.state(cell) != CellType::GOAL);
            assert(self.cell_ok(p, from, busy));
            self.lemma_trail_length(p, busy, from);
            lemma_trail_depth(p.parents, from, p.score(from) as nat, (depth - 1) as nat);
        }
    }

    /// Once the search has reached the end, following the parents from it
    /// gives a route; a shortest one where the grid holds `GOAL` at the end
    /// only.
    pub proof fn lemma_found(self, p: Progress, busy: Option<Cell>)
        requires
            self.grid.valid(),
            self.inv(p, busy),
            p.known(self.end),
        ensures
            rooted(p.parents, self.end),
            is_route(self.grid, self.start, self.end, trail_of(p.parents, self.end)),
            self.plain() ==> is_shortest_route(
                self.grid,
                self.start,
                self.end,
                trail_of(p.parents, self.end),
            ),
    {
        self.lemma_trail_route(p, busy, self.end);
        lemma_trail_of(p.parents, self.end, self.rank(p, self.end) as nat);
        if self.plain() {
            if self.start == self.end {
                assert(trail(p.parents, self.end, 0) == seq![self.end]);
                lemma_trail_of(p.parents, self.end, 0);
            } else {
                assert(self.cell_ok(p, self.end, busy));
                assert(self.linked(p, self.end));
                let from = p.parents[self.end.code()];
                self.lemma_trail_length(p, busy, from);
                let depth = (p.score(from) + 1) as nat;
                let shorter = trail(p.parents, from, p.score(from) as nat);
                let cells = trail(p.parents, self.end, depth);
                assert(cells == shorter.push(self.end));
                lemma_trail_of(p.parents, self.end, depth);
            }
        }
    }

    /// Once no cell waits, no route leads to the end.
    pub proof fn lemma_exhausted(self, p: Progress)
        requires
            self.inv(p, None),
            p.open.len() == 0,
        ensures
            !connected(self.grid, self.start, self.end),
    {
        assert forall|e: CellCost| p.open.count(e) == 0 by {
            vstd::multiset::axiom_count_le_len(p.open, e);
        }
        if connected(self.grid, self.start, self.end) {
            let q = choose|q: Seq<Cell>| is_route(self.grid, self.start, self.end, q);
            let w = self.lemma_scan(p, q, 0);
        }
    }
}

} // verus!
