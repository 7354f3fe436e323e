//! Boards of the 3x3 sliding puzzle and the moves of the blank.

use vstd::prelude::*;

verus! {

/// The way the blank moves in one step.
#[derive(Clone, Copy, Debug, PartialEq, Eq, Hash)]
pub enum Direction {
    Up,
    Down,
    Left,
    Right,
}

/// Why a grid was refused.
#[derive(Clone, Copy, Debug, PartialEq, Eq)]
pub enum BoardError {
    /// The grid does not hold each of 0..=8 exactly once.
    InvalidBoard,
}

/// One arrangement of the eight tiles and the blank (0), row by row.
#[derive(Clone, Copy, Debug, PartialEq, Eq, Hash)]
pub struct Board {
    cells: [u8; 9],
}

/// The number of distinct keys: 9 to the power 9.
pub const KEY_SPACE: u64 = 387420489;

/// A row-major grid holds each of 0..=8 exactly once.
pub open spec fn is_permutation(s: Seq<u8>) -> bool {
    &&& s.len() == 9
    &&& forall|i: int| 0 <= i < 9 ==> #[trigger] s[i] < 9
    &&& forall|i: int, j: int| 0 <= i < j < 9 ==> #[trigger] s[i] != #[trigger] s[j]
    &&& forall|v: u8| 0 <= v < 9 ==> #[trigger] s.contains(v)
}

/// The rows of a 3x3 array, one after the other.
pub open spec fn flatten(grid: [[u8; 3]; 3]) -> Seq<u8> {
    Seq::new(9, |i: int| grid@[i / 3]@[i % 3])
}

/// The solved arrangement: tiles in increasing order, the blank last.
pub open spec fn goal_grid() -> Seq<u8> {
    seq![1u8, 2u8, 3u8, 4u8, 5u8, 6u8, 7u8, 8u8, 0u8]
}

/// The index of the blank.
pub open spec fn blank_of(s: Seq<u8>) -> int {
    choose|i: int| 0 <= i < s.len() && s[i] == 0u8
}

/// The index the blank reaches from `blank` by one step, if that stays on the grid.
pub open spec fn slide_target(blank: int, d: Direction) -> Option<int> {
    match d {
        Direction::Up => if blank >= 3 { Some(blank - 3) } else { None },
        Direction::Down => if blank < 6 { Some(blank + 3) } else { None },
        Direction::Left => if blank % 3 != 0 { Some(blank - 1) } else { None },
        Direction::Right => if blank % 3 != 2 { Some(blank + 1) } else { None },
    }
}

/// The grid after the blank has moved one step: the blank and the tile it
/// displaces change places, every other cell stays.
pub open spec fn moved(s: Seq<u8>, d: Direction) -> Option<Seq<u8>> {
    let b = blank_of(s);
    match slide_target(b, d) {
        None => None,
        Some(t) => Some(s.update(b, s[t]).update(t, 0u8)),
    }
}

/// The grid that a sequence of steps leads to, or `None` if one of them
/// leaves the grid.
pub open spec fn run_plan(s: Seq<u8>, plan: Seq<Direction>) -> Option<Seq<u8>>
    decreases plan.len(),
{
    if plan.len() == 0 {
        Some(s)
    } else {
        match moved(s, plan[0]) {
            None => None,
            Some(t) => run_plan(t, plan.subrange(1, plan.len() as int)),
        }
    }
}

/// A plan leads from the grid to the goal.
pub open spec fn solvable(s: Seq<u8>) -> bool {
    exists|plan: Seq<Direction>| run_plan(s, plan) == Some(goal_grid())
}

/// The plan leads from the grid to the goal, and no plan that does is
/// shorter.
pub open spec fn is_shortest(s: Seq<u8>, path: Seq<Direction>) -> bool {
    &&& run_plan(s, path) == Some(goal_grid())
    &&& forall|plan: Seq<Direction>| #[trigger]
        run_plan(s, plan) == Some(goal_grid()) ==> path.len() <= plan.len()
}

/// One more step at the end of a plan leads one step further.
pub proof fn lemma_run_push(s: Seq<u8>, plan: Seq<Direction>, d: Direction)
    requires
        run_plan(s, plan) is Some,
    ensures
        run_plan(s, plan.push(d)) == moved(run_plan(s, plan).unwrap(), d),
    decreases plan.len(),
{
    let longer = plan.push(d);
    if plan.len() == 0 {
        assert(longer[0] == d);
        assert(longer.subrange(1, 1) =~= Seq::<Direction>::empty());
        match moved(s, d) {
            None => {},
            Some(t) => {
                assert(run_plan(t, longer.subrange(1, 1)) == Some(t));
            },
        }
    } else {
        let t = moved(s, plan[0]).unwrap();
        let rest = plan.subrange(1, plan.len() as int);
        lemma_run_push(t, rest, d);
        assert(longer[0] == plan[0]);
        assert(longer.subrange(1, longer.len() as int) =~= rest.push(d));
    }
}

/// The grid written as a number in base 9, first cell lowest.
#[verifier::opaque]
pub open spec fn grid_key(s: Seq<u8>) -> u64 {
    (s[0] + 9 * (s[1] + 9 * (s[2] + 9 * (s[3] + 9 * (s[4] + 9 * (s[5] + 9 * (s[6] + 9 * (s[7] + 9
        * s[8])))))))) as u64
}

/// The nine base-9 digits of a key, lowest first.
#[verifier::opaque]
pub open spec fn grid_of_key(k: u64) -> Seq<u8> {
    let q1 = k / 9;
    let q2 = q1 / 9;
    let q3 = q2 / 9;
    let q4 = q3 / 9;
    let q5 = q4 / 9;
    let q6 = q5 / 9;
    let q7 = q6 / 9;
    let q8 = q7 / 9;
    seq![
        (k % 9) as u8,
        (q1 % 9) as u8,
        (q2 % 9) as u8,
        (q3 % 9) as u8,
        (q4 % 9) as u8,
        (q5 % 9) as u8,
        (q6 % 9) as u8,
        (q7 % 9) as u8,
        (q8 % 9) as u8,
    ]
}

/// A key determines its grid: no two grids with cells below 9 share a key.
pub proof fn lemma_key_round_trip(s: Seq<u8>)
    requires
        s.len() == 9,
        forall|i: int| 0 <= i < 9 ==> #[trigger] s[i] < 9,
    ensures
        grid_key(s) < KEY_SPACE,
        grid_of_key(grid_key(s)) == s,
{
    reveal(grid_key);
    reveal(grid_of_key);
    assert(s[0] < 9 && s[1] < 9 && s[2] < 9 && s[3] < 9 && s[4] < 9 && s[5] < 9 && s[6] < 9 && s[7]
        < 9 && s[8] < 9);
    let k8: int = s[8] as int;
    let k7: int = s[7] + 9 * k8;
    let k6: int = s[6] + 9 * k7;
    let k5: int = s[5] + 9 * k6;
    let k4: int = s[4] + 9 * k5;
    let k3: int = s[3] + 9 * k4;
    let k2: int = s[2] + 9 * k3;
    let k1: int = s[1] + 9 * k2;
    let k0: int = s[0] + 9 * k1;
    assert(k0 < 387420489);
    let k = grid_key(s);
    assert(k == k0);
    let q1 = k / 9;
    let q2 = q1 / 9;
    let q3 = q2 / 9;
    let q4 = q3 / 9;
    let q5 = q4 / 9;
    let q6 = q5 / 9;
    let q7 = q6 / 9;
    let q8 = q7 / 9;
    assert(q1 == k1 && k % 9 == s[0]);
    assert(q2 == k2 && q1 % 9 == s[1]);
    assert(q3 == k3 && q2 % 9 == s[2]);
    assert(q4 == k4 && q3 % 9 == s[3]);
    assert(q5 == k5 && q4 % 9 == s[4]);
    assert(q6 == k6 && q5 % 9 == s[5]);
    assert(q7 == k7 && q6 % 9 == s[6]);
    assert(q8 == k8 && q7 % 9 == s[7]);
    assert(q8 % 9 == s[8]);
    assert(grid_of_key(k) =~= s);
}

/// A step keeps every value on the grid exactly once.
pub proof fn lemma_moved_permutation(s: Seq<u8>, d: Direction)
    requires
        is_permutation(s),
        moved(s, d) is Some,
    ensures
        is_permutation(moved(s, d).unwrap()),
        moved(s, d).unwrap() != s,
{
    let b = blank_of(s);
    let t = slide_target(b, d).unwrap();
    let n = moved(s, d).unwrap();
    assert(s.contains(0u8));
    assert(0 <= b < 9 && s[b] == 0u8);
    assert(0 <= t < 9 && t != b);
    assert(n[b] == s[t] && n[t] == 0u8);
    assert(n[t] != s[t]);
    assert forall|v: u8| 0 <= v < 9 implies #[trigger] n.contains(v) by {
        assert(s.contains(v));
        let i = choose|i: int| 0 <= i < 9 && s[i] == v;
        if i == b {
            assert(n[t] == v);
        } else if i == t {
            assert(n[b] == v);
        } else {
            assert(n[i] == v);
        }
    }
}

impl Board {
    /// The cells, row by row.
    pub closed spec fn view(&self) -> Seq<u8> {
        self.cells@
    }

    /// The board holds each of 0..=8 exactly once.
    pub open spec fn wf(&self) -> bool {
        is_permutation(self@)
    }
}

impl Board {
    /// The solved board.
    pub fn goal() -> (b: Board)
        ensures
            b@ == goal_grid(),
            b.wf(),
    {
        let b = Board { cells: [1, 2, 3, 4, 5, 6, 7, 8, 0] };
        proof {
            assert(b@ =~= goal_grid());
            lemma_goal_permutation();
        }
        b
    }

    /// Builds a board from its three rows; refuses a grid that does not hold
    /// each of 0..=8 exactly once.
    pub fn new(grid: [[u8; 3]; 3]) -> (r: Result<Board, BoardError>)
        ensures
            match r {
                Ok(b) => is_permutation(flatten(grid)) && b@ == flatten(grid),
                Err(e) => !is_permutation(flatten(grid)) && e == BoardError::InvalidBoard,
            },
    {
        let cells: [u8; 9] = [
            grid[0][0],
            grid[0][1],
            grid[0][2],
            grid[1][0],
            grid[1][1],
            grid[1][2],
            grid[2][0],
            grid[2][1],
            grid[2][2],
        ];
        assert(cells@ =~= flatten(grid));
        if holds_permutation(&cells) {
            Ok(Board { cells })
        } else {
            Err(BoardError::InvalidBoard)
        }
    }

    /// The tile at a row and column, both in 0..=2.
    pub fn value_at(&self, row: usize, col: usize) -> (v: u8)
        requires
            row < 3,
            col < 3,
        ensures
            v == self@[3 * row + col],
    {
        self.cells[3 * row + col]
    }

    /// The row and column at which a value stands.
    pub fn position(&self, value: u8) -> (p: (usize, usize))
        requires
            self.wf(),
            value < 9,
        ensures
            p.0 < 3,
            p.1 < 3,
            self@[3 * p.0 + p.1] == value,
            forall|i: int| 0 <= i < 9 && self@[i] == value ==> i == 3 * p.0 + p.1,
    {
        let mut i: usize = 0;
        while i < 9 && self.cells[i] != value
            invariant
                i <= 9,
                forall|j: int| 0 <= j < i ==> self@[j] != value,
            decreases 9 - i,
        {
            i += 1;
        }
        proof {
            assert(self@.contains(value));
            let w = choose|w: int| 0 <= w < 9 && self@[w] == value;
            assert(self@[w] == value);
            assert(i < 9);
            assert forall|j: int| 0 <= j < 9 && self@[j] == value implies j == i by {
                if j < i {
                    assert(self@[j] != self@[i as int]);
                } else if i < j {
                    assert(self@[i as int] != self@[j]);
                }
            }
        }
        (i / 3, i % 3)
    }

    /// The board after the blank has moved one step, or `None` if the step
    /// would leave the grid.
    pub fn apply(&self, direction: Direction) -> (r: Option<Board>)
        requires
            self.wf(),
        ensures
            match r {
                Some(b) => moved(self@, direction) == Some(b@) && b.wf(),
                None => moved(self@, direction) is None,
            },
    {
        let (row, col) = self.position(0);
        let blank: usize = 3 * row + col;
        assert(blank == blank_of(self@)) by {
            assert(self@.contains(0u8));
            let c = blank_of(self@);
            assert(0 <= c < 9 && self@[c] == 0u8);
        }
        let target: usize = match direction {
            Direction::Up => {
                if row == 0 {
                    return None;
                }
                blank - 3
            },
            Direction::Down => {
                if row == 2 {
                    return None;
                }
                blank + 3
            },
            Direction::Left => {
                if col == 0 {
                    return None;
                }
                blank - 1
            },
            Direction::Right => {
                if col == 2 {
                    return None;
                }
                blank + 1
            },
        };
        assert(slide_target(blank as int, direction) == Some(target as int));
        let mut cells = self.cells;
        let tile: u8 = cells[target];
        cells[blank] = tile;
        cells[target] = 0;
        let b = Board { cells };
        proof {
            assert(b@ =~= moved(self@, direction).unwrap());
            lemma_moved_permutation(self@, direction);
        }
        Some(b)
    }

    /// The key of the board: its cells as the digits of a number in base 9.
    /// Two boards have the same key only if they are the same board.
    pub fn key(&self) -> (k: u64)
        requires
            self.wf(),
        ensures
            k == grid_key(self@),
            k < KEY_SPACE,
            grid_of_key(k) == self@,
    {
        proof {
            reveal(grid_key);
            lemma_key_round_trip(self@);
            assert(self@[0] < 9 && self@[1] < 9 && self@[2] < 9 && self@[3] < 9 && self@[4] < 9
                && self@[5] < 9 && self@[6] < 9 && self@[7] < 9 && self@[8] < 9);
        }
        let c = &self.cells;
        let k8: u64 = c[8] as u64;
        let k7: u64 = c[7] as u64 + 9 * k8;
        let k6: u64 = c[6] as u64 + 9 * k7;
        let k5: u64 = c[5] as u64 + 9 * k6;
        let k4: u64 = c[4] as u64 + 9 * k5;
        let k3: u64 = c[3] as u64 + 9 * k4;
        let k2: u64 = c[2] as u64 + 9 * k3;
        let k1: u64 = c[1] as u64 + 9 * k2;
        c[0] as u64 + 9 * k1
    }

    /// Whether the board is the solved one.
    pub fn is_goal(&self) -> (r: bool)
        ensures
            r == (self@ == goal_grid()),
    {
        let c = &self.cells;
        let r = c[0] == 1 && c[1] == 2 && c[2] == 3 && c[3] == 4 && c[4] == 5 && c[5] == 6 && c[6]
            == 7 && c[7] == 8 && c[8] == 0;
        proof {
            if r {
                assert(self@ =~= goal_grid());
            }
        }
        r
    }

    /// Whether the steps, taken in order from this board, all stay on the
    /// grid and end on the solved board.
    pub fn is_valid_plan(&self, plan: &[Direction]) -> (r: bool)
        requires
            self.wf(),
        ensures
            r == (run_plan(self@, plan@) == Some(goal_grid())),
    {
        let mut cur: Board = *self;
        let mut i: usize = 0;
        assert(plan@.subrange(0, plan.len() as int) =~= plan@);
        while i < plan.len()
            invariant
                i <= plan.len(),
                cur.wf(),
                run_plan(self@, plan@) == run_plan(cur@, plan@.subrange(i as int, plan.len() as int)),
            decreases plan.len() - i,
        {
            let ghost rest = plan@.subrange(i as int, plan.len() as int);
            assert(rest.len() > 0 && rest[0] == plan@[i as int]);
            assert(rest.subrange(1, rest.len() as int) =~= plan@.subrange(
                i as int + 1,
                plan.len() as int,
            ));
            match cur.apply(plan[i]) {
                None => {
                    return false;
                },
                Some(next) => {
                    cur = next;
                },
            }
            i += 1;
        }
        assert(plan@.subrange(i as int, plan.len() as int).len() == 0);
        cur.is_goal()
    }
}

/// Whether nine cells hold each of 0..=8 exactly once.
fn holds_permutation(cells: &[u8; 9]) -> (ok: bool)
    ensures
        ok == is_permutation(cells@),
{
    let mut i: usize = 0;
    while i < 9
        invariant
            i <= 9,
            forall|a: int| 0 <= a < i ==> #[trigger] cells@[a] < 9,
            forall|a: int, b: int| 0 <= a < i && a < b < 9 ==> #[trigger] cells@[a] != #[trigger] cells@[b],
        decreases 9 - i,
    {
        if cells[i] >= 9 {
            return false;
        }
        let mut j: usize = i + 1;
        while j < 9
            invariant
                i < j <= 9,
                forall|b: int| i < b < j ==> cells@[i as int] != #[trigger] cells@[b],
            decreases 9 - j,
        {
            if cells[i] == cells[j] {
                return false;
            }
            j += 1;
        }
        i += 1;
    }
    let mut v: u8 = 0;
    while v < 9
        invariant
            v <= 9,
            forall|w: u8| 0 <= w < v ==> #[trigger] cells@.contains(w),
        decreases 9 - v,
    {
        let mut a: usize = 0;
        while a < 9 && cells[a] != v
            invariant
                a <= 9,
                forall|b: int| 0 <= b < a ==> #[trigger] cells@[b] != v,
            decreases 9 - a,
        {
            a += 1;
        }
        if a == 9 {
            assert(!cells@.contains(v));
            return false;
        }
        assert(cells@[a as int] == v);
        v += 1;
    }
    true
}

/// The solved grid holds each value once.
pub proof fn lemma_goal_permutation()
    ensures
        is_permutation(goal_grid()),
{
    let g = goal_grid();
    assert forall|v: u8| 0 <= v < 9 implies #[trigger] g.contains(v) by {
        if v == 0 {
            assert(g[8] == v);
        } else {
            assert(g[v - 1] == v);
        }
    }
}

} // verus!
