//! Costs in fixed point, and the straight-line estimate of what is left of a
//! route.

use crate::grid::Cell;
use crate::route::{adjacent, manhattan};
use vstd::prelude::*;

verus! {

/// One step, in the fixed-point unit in which estimated costs are held: a
/// cost is a whole number of `1 / SCALE` steps.
pub const SCALE: u64 = 1_048_576;

/// The square of the straight-line distance between two cells.
pub open spec fn distance_squared(a: Cell, b: Cell) -> int {
    (a.row - b.row) * (a.row - b.row) + (a.column - b.column) * (a.column - b.column)
}

/// `root` is the square root of `x`, rounded down.
pub open spec fn is_floor_sqrt(x: int, root: int) -> bool {
    0 <= root && root * root <= x < (root + 1) * (root + 1)
}

/// The square root of `x`, rounded down.
pub open spec fn floor_sqrt(x: int) -> int {
    choose|root: int| is_floor_sqrt(x, root)
}

/// The straight-line distance from `cell` to `goal`, in fixed point, rounded
/// down.
pub open spec fn estimate(cell: Cell, goal: Cell) -> int {
    floor_sqrt(SCALE * SCALE * distance_squared(cell, goal))
}

/// The estimated cost of a route through a cell that `score` steps lead to
/// and whose straight-line distance to the goal is `left`.
pub open spec fn total(score: int, left: int) -> int {
    SCALE * score + left
}

/// A number has one rounded-down square root only.
pub proof fn lemma_floor_sqrt_unique(x: int, root: int)
    requires
        is_floor_sqrt(x, root),
    ensures
        floor_sqrt(x) == root,
{
    let other = floor_sqrt(x);
    assert(is_floor_sqrt(x, other));
    if other < root {
        assert((other + 1) * (other + 1) <= root * root) by (nonlinear_arith)
            requires
                0 <= other + 1 <= root,
        ;
    }
    if root < other {
        assert((root + 1) * (root + 1) <= other * other) by (nonlinear_arith)
            requires
                0 <= root + 1 <= other,
        ;
    }
}

/// Squaring keeps the order of two numbers.
proof fn lemma_square_le(a: int, b: int)
    requires
        0 <= a <= b,
    ensures
        a * a <= b * b,
{
    assert(a * a <= b * b) by (nonlinear_arith)
        requires
            0 <= a <= b,
    ;
}

/// The square root of `x`, rounded down.
pub fn isqrt(x: u128) -> (root: u64)
    ensures
        root == floor_sqrt(x as int),
        is_floor_sqrt(x as int, root as int),
{
    let mut low: u128 = 0;
    let mut high: u128 = 0x1_0000_0000_0000_0000;
    assert(high * high > x) by (nonlinear_arith)
        requires
            high == 0x1_0000_0000_0000_0000,
            x <= u128::MAX,
    ;
    while high - low > 1
        invariant
            low < high <= 0x1_0000_0000_0000_0000,
            low * low <= x,
            x < high * high,
        decreases high - low,
    {
        let middle: u128 = low + (high - low) / 2;
        assert(middle * middle < 0x1_0000_0000_0000_0000_0000_0000_0000_0000) by (nonlinear_arith)
            requires
                middle < 0x1_0000_0000_0000_0000,
        ;
        if middle * middle <= x {
            low = middle;
        } else {
            high = middle;
        }
    }
    proof {
        assert(is_floor_sqrt(x as int, low as int));
        lemma_floor_sqrt_unique(x as int, low as int);
    }
    low as u64
}

/// The estimate never exceeds the number of steps to the goal.
pub proof fn lemma_estimate_admissible(cell: Cell, goal: Cell)
    ensures
        estimate(cell, goal) <= SCALE * manhattan(cell, goal),
{
    let s = SCALE as int;
    let m = manhattan(cell, goal);
    let x = s * s * distance_squared(cell, goal);
    lemma_estimate_exists(cell, goal);
    let root = estimate(cell, goal);
    assert(distance_squared(cell, goal) <= m * m) by (nonlinear_arith)
        requires
            m == manhattan(cell, goal),
            manhattan(cell, goal) == (if cell.row >= goal.row {
                cell.row - goal.row
            } else {
                goal.row - cell.row
            }) + (if cell.column >= goal.column {
                cell.column - goal.column
            } else {
                goal.column - cell.column
            }),
    ;
    assert(x <= (s * m) * (s * m)) by (nonlinear_arith)
        requires
            x == s * s * distance_squared(cell, goal),
            distance_squared(cell, goal) <= m * m,
            s >= 0,
    ;
    assert(s * m >= 0) by (nonlinear_arith)
        requires
            s >= 0,
            m >= 0,
    ;
    if root > s * m {
        lemma_square_le(s * m + 1, root);
        assert((s * m + 1) * (s * m + 1) > (s * m) * (s * m)) by (nonlinear_arith)
            requires
                s * m >= 0,
        ;
    }
}

/// Every number has a rounded-down square root, so the estimate is one.
pub proof fn lemma_estimate_exists(cell: Cell, goal: Cell)
    ensures
        is_floor_sqrt(SCALE * SCALE * distance_squared(cell, goal), estimate(cell, goal)),
        0 <= estimate(cell, goal) < 0x40_0000_0000_0000,
{
    let x = SCALE * SCALE * distance_squared(cell, goal);
    lemma_distance_squared_bound(cell, goal);
    assert(x >= 0) by (nonlinear_arith)
        requires
            x == SCALE * SCALE * distance_squared(cell, goal),
            distance_squared(cell, goal) >= 0,
    ;
    let root = lemma_floor_sqrt_exists(x);
    let limit: int = 0x40_0000_0000_0000;
    if root >= limit {
        lemma_square_le(limit, root);
        assert(limit * limit > x) by (nonlinear_arith)
            requires
                limit == 0x40_0000_0000_0000,
                x == 1_048_576 * 1_048_576 * distance_squared(cell, goal),
                distance_squared(cell, goal) <= 0x2_0000_0000_0000_0000,
        ;
    }
}

/// The squared distance of two cells fits well within 128 bits.
pub proof fn lemma_distance_squared_bound(a: Cell, b: Cell)
    ensures
        0 <= distance_squared(a, b) <= 0x2_0000_0000_0000_0000,
{
    let dr = a.row - b.row;
    let dc = a.column - b.column;
    assert(0 <= dr * dr <= 0x1_0000_0000_0000_0000) by (nonlinear_arith)
        requires
            -0x1_0000_0000 <= dr <= 0x1_0000_0000,
    ;
    assert(0 <= dc * dc <= 0x1_0000_0000_0000_0000) by (nonlinear_arith)
        requires
            -0x1_0000_0000 <= dc <= 0x1_0000_0000,
    ;
}

/// The rounded-down square root of nothing is nothing.
proof fn lemma_floor_sqrt_zero()
    ensures
        is_floor_sqrt(0, 0),
        floor_sqrt(0) == 0,
{
    assert(is_floor_sqrt(0, 0)) by (nonlinear_arith);
    lemma_floor_sqrt_unique(0, 0);
}

/// Every number has a rounded-down square root.
pub proof fn lemma_floor_sqrt_exists(x: int) -> (root: int)
    requires
        0 <= x,
    ensures
        is_floor_sqrt(x, root),
        floor_sqrt(x) == root,
    decreases x,
{
    if x == 0 {
        lemma_floor_sqrt_zero();
        0
    } else {
        let below = lemma_floor_sqrt_exists(x - 1);
        let root = if (below + 1) * (below + 1) <= x {
            below + 1
        } else {
            below
        };
        assert(is_floor_sqrt(x, root)) by (nonlinear_arith)
            requires
                0 <= below,
                below * below <= x - 1 < (below + 1) * (below + 1),
                root == if (below + 1) * (below + 1) <= x {
                    below + 1
                } else {
                    below
                },
        ;
        lemma_floor_sqrt_unique(x, root);
        root
    }
}

/// Next to the goal the estimate is exactly one step.
pub proof fn lemma_estimate_adjacent(cell: Cell, goal: Cell)
    requires
        adjacent(cell, goal),
    ensures
        estimate(cell, goal) == SCALE,
{
    assert(distance_squared(cell, goal) == 1) by (nonlinear_arith)
        requires
            adjacent(cell, goal),
            distance_squared(cell, goal) == (cell.row - goal.row) * (cell.row - goal.row) + (
            cell.column - goal.column) * (cell.column - goal.column),
    ;
    let s = SCALE as int;
    assert(is_floor_sqrt(s * s * 1, s)) by (nonlinear_arith)
        requires
            s == 1_048_576,
    ;
    lemma_floor_sqrt_unique(s * s * 1, s);
}

} // verus!
