//! Estimates of the number of steps that separate a board from the goal.

use crate::board::{
    blank_of, goal_grid, is_permutation, lemma_moved_permutation, moved, run_plan, slide_target,
    Board, Direction,
};
use vstd::prelude::*;

verus! {

/// A way to estimate the remaining distance. None of them counts the blank.
#[derive(Debug, Clone, Copy, PartialEq, Eq)]
pub enum Heuristic {
    /// Always 0.
    Blind,
    /// The number of tiles that are not on their goal cell.
    Hamming,
    /// The sum, over the tiles, of the rows and columns that separate a tile
    /// from its goal cell.
    Manhattan,
}

/// The distance between two numbers.
pub open spec fn gap(a: int, b: int) -> int {
    if a >= b {
        a - b
    } else {
        b - a
    }
}

/// 1 if cell `i` holds a tile whose goal cell is another, else 0.
pub open spec fn misplaced_at(s: Seq<u8>, i: int) -> int {
    if s[i] != 0 && s[i] != i + 1 {
        1
    } else {
        0
    }
}

/// The rows plus the columns between cell `i` and the goal cell of the tile
/// on it; 0 for the blank.
pub open spec fn distance_at(s: Seq<u8>, i: int) -> int {
    if s[i] == 0 {
        0
    } else {
        gap(i / 3, (s[i] - 1) / 3) + gap(i % 3, (s[i] - 1) % 3)
    }
}

/// The misplaced tiles among the first `n` cells.
pub open spec fn hamming(s: Seq<u8>, n: int) -> int
    decreases n,
{
    if n <= 0 {
        0
    } else {
        hamming(s, n - 1) + misplaced_at(s, n - 1)
    }
}

/// The summed distances of the tiles on the first `n` cells.
pub open spec fn manhattan(s: Seq<u8>, n: int) -> int
    decreases n,
{
    if n <= 0 {
        0
    } else {
        manhattan(s, n - 1) + distance_at(s, n - 1)
    }
}

/// What a heuristic gives for a grid.
pub open spec fn estimate_of(h: Heuristic, s: Seq<u8>) -> int {
    match h {
        Heuristic::Blind => 0,
        Heuristic::Hamming => hamming(s, 9),
        Heuristic::Manhattan => manhattan(s, 9),
    }
}

/// Every heuristic gives 0 for the solved board.
pub proof fn lemma_goal_estimate(h: Heuristic)
    ensures
        estimate_of(h, goal_grid()) == 0,
{
    let g = goal_grid();
    reveal_with_fuel(hamming, 10);
    reveal_with_fuel(manhattan, 10);
    assert(misplaced_at(g, 0) == 0 && misplaced_at(g, 1) == 0 && misplaced_at(g, 2) == 0);
    assert(misplaced_at(g, 3) == 0 && misplaced_at(g, 4) == 0 && misplaced_at(g, 5) == 0);
    assert(misplaced_at(g, 6) == 0 && misplaced_at(g, 7) == 0 && misplaced_at(g, 8) == 0);
    assert(distance_at(g, 0) == 0 && distance_at(g, 1) == 0 && distance_at(g, 2) == 0);
    assert(distance_at(g, 3) == 0 && distance_at(g, 4) == 0 && distance_at(g, 5) == 0);
    assert(distance_at(g, 6) == 0 && distance_at(g, 7) == 0 && distance_at(g, 8) == 0);
}

/// Where two grids differ on two cells only, their sums differ by what
/// those two cells give.
proof fn lemma_two_cells(s: Seq<u8>, t: Seq<u8>, a: int, b: int, n: int)
    requires
        s.len() == 9,
        t.len() == 9,
        0 <= n <= 9,
        0 <= a < 9,
        0 <= b < 9,
        a != b,
        forall|i: int| 0 <= i < 9 && i != a && i != b ==> s[i] == t[i],
    ensures
        manhattan(t, n) - manhattan(s, n) == (if a < n {
            distance_at(t, a) - distance_at(s, a)
        } else {
            0
        }) + (if b < n {
            distance_at(t, b) - distance_at(s, b)
        } else {
            0
        }),
        hamming(t, n) - hamming(s, n) == (if a < n {
            misplaced_at(t, a) - misplaced_at(s, a)
        } else {
            0
        }) + (if b < n {
            misplaced_at(t, b) - misplaced_at(s, b)
        } else {
            0
        }),
    decreases n,
{
    if n > 0 {
        lemma_two_cells(s, t, a, b, n - 1);
    }
}

/// One step lowers no estimate by more than 1.
pub proof fn lemma_step_estimate(h: Heuristic, s: Seq<u8>, d: Direction)
    requires
        is_permutation(s),
        moved(s, d) is Some,
    ensures
        estimate_of(h, s) <= estimate_of(h, moved(s, d).unwrap()) + 1,
{
    let b = blank_of(s);
    let c = slide_target(b, d).unwrap();
    let t = moved(s, d).unwrap();
    assert(s.contains(0u8));
    assert(0 <= b < 9 && s[b] == 0u8);
    assert(0 <= c < 9 && c != b);
    assert(s[c] < 9);
    lemma_two_cells(s, t, b, c, 9);
    assert(t[c] == 0u8 && t[b] == s[c]);
    assert(distance_at(s, b) == 0 && distance_at(t, c) == 0);
    assert(misplaced_at(s, b) == 0 && misplaced_at(t, c) == 0);
    assert(distance_at(s, c) <= distance_at(t, b) + 1);
}

/// The estimate of a grid is at most the estimate of a grid that a plan
/// leads to, plus the length of the plan. So no estimate is larger than
/// the number of steps to the goal.
pub proof fn lemma_estimate_within(h: Heuristic, s: Seq<u8>, plan: Seq<Direction>)
    requires
        is_permutation(s),
        run_plan(s, plan) is Some,
    ensures
        estimate_of(h, s) <= plan.len() + estimate_of(h, run_plan(s, plan).unwrap()),
    decreases plan.len(),
{
    if plan.len() > 0 {
        let t = moved(s, plan[0]).unwrap();
        lemma_step_estimate(h, s, plan[0]);
        lemma_moved_permutation(s, plan[0]);
        lemma_estimate_within(h, t, plan.subrange(1, plan.len() as int));
    }
}

/// No estimate overestimates: it is at most the length of any plan that
/// leads the grid to the goal.
pub proof fn lemma_admissible(h: Heuristic, s: Seq<u8>, plan: Seq<Direction>)
    requires
        is_permutation(s),
        run_plan(s, plan) == Some(goal_grid()),
    ensures
        estimate_of(h, s) <= plan.len(),
{
    lemma_estimate_within(h, s, plan);
    lemma_goal_estimate(h);
}

impl Heuristic {
    /// The estimate for a board.
    pub fn estimate(&self, board: &Board) -> (r: u32)
        requires
            board.wf(),
        ensures
            r == estimate_of(*self, board@),
            r <= 36,
    {
        match self {
            Heuristic::Blind => 0,
            Heuristic::Hamming => {
                let mut sum: u32 = 0;
                let mut i: usize = 0;
                while i < 9
                    invariant
                        i <= 9,
                        sum == hamming(board@, i as int),
                        sum <= i,
                    decreases 9 - i,
                {
                    let v: u8 = board.value_at(i / 3, i % 3);
                    if v != 0 && v as usize != i + 1 {
                        sum += 1;
                    }
                    i += 1;
                }
                sum
            },
            Heuristic::Manhattan => {
                let mut sum: u32 = 0;
                let mut i: usize = 0;
                while i < 9
                    invariant
                        i <= 9,
                        board.wf(),
                        sum == manhattan(board@, i as int),
                        sum <= 4 * i,
                    decreases 9 - i,
                {
                    let row: usize = i / 3;
                    let col: usize = i % 3;
                    let v: u8 = board.value_at(row, col);
                    assert(v == board@[i as int] && v < 9);
                    if v != 0 {
                        let home: usize = (v - 1) as usize;
                        let rows: usize = if row >= home / 3 {
                            row - home / 3
                        } else {
                            home / 3 - row
                        };
                        let cols: usize = if col >= home % 3 {
                            col - home % 3
                        } else {
                            home % 3 - col
                        };
                        sum += (rows + cols) as u32;
                    }
                    i += 1;
                }
                sum
            },
        }
    }
}

} // verus!
