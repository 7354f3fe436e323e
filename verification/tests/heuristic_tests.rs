use eight_puzzle::board::{Board, Direction};
use eight_puzzle::heuristics::Heuristic;

#[test]
fn test_heuristic() {
    let board = Board::new([[8, 7, 3], [2, 0, 5], [1, 4, 6]]).unwrap();
    assert_eq!(Heuristic::Blind.estimate(&board), 0);
    // tile 3 is on its goal cell and the blank is not counted
    assert_eq!(Heuristic::Hamming.estimate(&board), 2 + 2 + 3);
    assert_eq!(Heuristic::Manhattan.estimate(&board), 14);
}

#[test]
fn every_estimate_is_zero_on_the_goal() {
    let goal = Board::goal();
    assert_eq!(Heuristic::Blind.estimate(&goal), 0);
    assert_eq!(Heuristic::Hamming.estimate(&goal), 0);
    assert_eq!(Heuristic::Manhattan.estimate(&goal), 0);
}

#[test]
fn blind_is_zero_everywhere() {
    let grids = [
        [[8, 6, 7], [2, 5, 4], [3, 0, 1]],
        [[0, 1, 2], [3, 4, 5], [6, 7, 8]],
        [[1, 2, 3], [4, 5, 6], [7, 0, 8]],
    ];
    for grid in grids {
        assert_eq!(Heuristic::Blind.estimate(&Board::new(grid).unwrap()), 0);
    }
}

#[test]
fn the_blank_is_not_counted() {
    // one step from the goal: only tile 8 is off its cell, by one column
    let b = Board::new([[1, 2, 3], [4, 5, 6], [7, 0, 8]]).unwrap();
    assert_eq!(Heuristic::Hamming.estimate(&b), 1);
    assert_eq!(Heuristic::Manhattan.estimate(&b), 1);
    let c = Board::new([[1, 2, 3], [4, 5, 0], [7, 8, 6]]).unwrap();
    assert_eq!(Heuristic::Hamming.estimate(&c), 1);
    assert_eq!(Heuristic::Manhattan.estimate(&c), 1);
}

#[test]
fn estimates_of_a_far_board() {
    // only tile 5 is on its cell; 7, 3 and 1 are four cells from home
    let b = Board::new([[8, 6, 7], [2, 5, 4], [3, 0, 1]]).unwrap();
    assert_eq!(Heuristic::Hamming.estimate(&b), 7);
    assert_eq!(Heuristic::Manhattan.estimate(&b), 3 + 2 + 4 + 2 + 0 + 2 + 4 + 4);
    let blank_first = Board::new([[0, 1, 2], [3, 4, 5], [6, 7, 8]]).unwrap();
    assert_eq!(Heuristic::Hamming.estimate(&blank_first), 8);
    assert_eq!(Heuristic::Manhattan.estimate(&blank_first), 1 + 1 + 3 + 1 + 1 + 3 + 1 + 1);
}

#[test]
fn estimates_change_by_at_most_one_per_step() {
    let b = Board::new([[8, 7, 3], [2, 0, 5], [1, 4, 6]]).unwrap();
    let steps = [
        Direction::Up,
        Direction::Down,
        Direction::Left,
        Direction::Right,
    ];
    for h in [Heuristic::Blind, Heuristic::Hamming, Heuristic::Manhattan] {
        let here = h.estimate(&b);
        for d in steps {
            let there = h.estimate(&b.apply(d).unwrap());
            assert!(here <= there + 1 && there <= here + 1);
        }
    }
}
