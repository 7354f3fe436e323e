use eight_puzzle::board::{Board, Direction};
use eight_puzzle::heuristics::Heuristic;
use eight_puzzle::search::{search, search_with, Stats};
use std::time::Duration;

/// Boards with the least number of steps that solve them.
const INSTANCES: [(u32, [[u8; 3]; 3]); 21] = [
    (0, [[1, 2, 3], [4, 5, 6], [7, 8, 0]]),
    (1, [[1, 2, 3], [4, 5, 0], [7, 8, 6]]),
    (2, [[1, 2, 3], [4, 5, 6], [0, 7, 8]]),
    (3, [[1, 0, 2], [4, 5, 3], [7, 8, 6]]),
    (5, [[1, 2, 3], [0, 8, 5], [4, 7, 6]]),
    (8, [[4, 1, 3], [7, 0, 5], [8, 2, 6]]),
    (10, [[5, 4, 2], [1, 8, 3], [0, 7, 6]]),
    (12, [[0, 4, 2], [5, 1, 8], [7, 6, 3]]),
    (14, [[1, 7, 2], [4, 0, 3], [5, 6, 8]]),
    (16, [[0, 4, 1], [5, 7, 3], [2, 8, 6]]),
    (18, [[7, 1, 4], [3, 2, 6], [5, 8, 0]]),
    (20, [[2, 7, 0], [6, 5, 3], [1, 4, 8]]),
    (21, [[1, 4, 7], [8, 6, 2], [5, 0, 3]]),
    (22, [[0, 5, 6], [7, 3, 2], [4, 1, 8]]),
    (23, [[6, 7, 2], [3, 8, 4], [1, 0, 5]]),
    (24, [[5, 3, 0], [2, 6, 4], [8, 1, 7]]),
    (25, [[2, 0, 1], [8, 6, 4], [7, 3, 5]]),
    (26, [[2, 3, 7], [6, 5, 1], [0, 8, 4]]),
    (28, [[0, 5, 8], [6, 7, 3], [4, 1, 2]]),
    (30, [[6, 2, 1], [5, 8, 4], [0, 3, 7]]),
    (31, [[8, 6, 7], [2, 5, 4], [3, 0, 1]]),
];

fn board(grid: [[u8; 3]; 3]) -> Board {
    Board::new(grid).expect("a permutation of 0..=8")
}

#[test]
fn test_search() {
    // search returns a shortest plan on the first 20 instances
    for (expected_cost, grid) in &INSTANCES[0..20] {
        let init = board(*grid);
        let (path, _stats) = search(init);
        let path = path.expect("no plan");
        assert!(init.is_valid_plan(&path));
        assert_eq!(path.len(), *expected_cost as usize);
    }
}

#[test]
fn search_solves_the_hardest_board() {
    let (expected_cost, grid) = INSTANCES[20];
    let init = board(grid);
    let (path, stats) = search(init);
    let path = path.expect("no plan");
    assert!(init.is_valid_plan(&path));
    assert_eq!(path.len(), expected_cost as usize);
    assert!(stats.expanded >= 32);
}

#[test]
fn search_finds_the_four_step_plan() {
    let init = board([[1, 2, 3], [4, 8, 5], [0, 7, 6]]);
    let (path, stats) = search(init);
    let path = path.expect("no plan");
    assert_eq!(
        path,
        vec![
            Direction::Right,
            Direction::Up,
            Direction::Right,
            Direction::Down
        ]
    );
    assert!(init.is_valid_plan(&path));
    // the start, three boards on the way, and the goal
    assert!(stats.expanded >= 5);
}

#[test]
fn search_on_the_goal_returns_the_empty_plan() {
    let (path, stats) = search(Board::goal());
    assert_eq!(path, Some(Vec::new()));
    assert_eq!(stats.expanded, 1);
    for h in [Heuristic::Blind, Heuristic::Hamming, Heuristic::Manhattan] {
        assert_eq!(search_with(Board::goal(), h), (Some(Vec::new()), 1));
    }
}

#[test]
fn every_heuristic_finds_a_shortest_plan() {
    for h in [Heuristic::Blind, Heuristic::Hamming, Heuristic::Manhattan] {
        for (expected_cost, grid) in &INSTANCES[0..12] {
            let init = board(*grid);
            let (path, expanded) = search_with(init, h);
            let path = path.expect("no plan");
            assert!(init.is_valid_plan(&path));
            assert_eq!(path.len(), *expected_cost as usize);
            assert!(expanded > *expected_cost as usize);
        }
    }
}

#[test]
fn a_better_estimate_expands_no_more_boards_here() {
    let init = board([[2, 7, 0], [6, 5, 3], [1, 4, 8]]);
    let (_, blind) = search_with(init, Heuristic::Blind);
    let (_, manhattan) = search_with(init, Heuristic::Manhattan);
    assert!(manhattan < blind);
}

#[test]
fn search_is_repeatable() {
    for (_, grid) in &INSTANCES[0..16] {
        let init = board(*grid);
        for h in [Heuristic::Blind, Heuristic::Hamming, Heuristic::Manhattan] {
            let once = search_with(init, h);
            let again = search_with(init, h);
            assert_eq!(once, again);
        }
        assert_eq!(search(init).0, search(init).0);
    }
}

#[test]
fn an_unsolvable_board_has_no_plan() {
    // the goal with tiles 1 and 2 exchanged: half of all boards can be
    // reached from it, the goal is not among them
    let init = board([[2, 1, 3], [4, 5, 6], [7, 8, 0]]);
    let (path, stats) = search(init);
    assert_eq!(path, None);
    assert_eq!(stats.expanded, 181440);
    let (path, expanded) = search_with(init, Heuristic::Blind);
    assert_eq!(path, None);
    assert_eq!(expanded, 181440);
}

#[test]
fn stats_keep_what_they_are_given() {
    let s = Stats::new(42, Duration::from_millis(1500));
    assert_eq!(s.expanded, 42);
    assert_eq!(s.runtime, Duration::from_millis(1500));
    let z = Stats::new(0, Duration::ZERO);
    assert_eq!(z.expanded, 0);
    assert_eq!(z.runtime, Duration::ZERO);
}
