//! A square grid of cells with a start, a goal and walls, and a best-first
//! search for a shortest route between two of its cells.
//!
//! [`grid`] holds the grid and its cells. [`pathfinding`] holds the search,
//! [`frontier`] the queue of cells that wait to be looked at, and
//! [`estimate`] the straight-line estimate by which they are ordered.
//! [`route`] says what a route is and what an answer of the search is, and
//! states what holds of every answer. [`search`] and [`tally`] hold what
//! the proof of the search rests on.

pub mod estimate;
pub mod frontier;
pub mod grid;
pub mod pathfinding;
pub mod route;
pub mod search;
pub mod tally;
