//! Sliding-tile puzzle on a 3x3 grid: boards, distance estimates, a
//! priority frontier, and a best-first search for a plan to the goal.

pub mod board;
pub mod min_heap;
pub mod heuristics;
pub mod search;
