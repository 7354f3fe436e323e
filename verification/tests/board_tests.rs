use eight_puzzle::board::{Board, BoardError, Direction};

fn board(grid: [[u8; 3]; 3]) -> Board {
    Board::new(grid).expect("a permutation of 0..=8")
}

#[test]
fn new_accepts_a_permutation() {
    let b = board([[8, 7, 3], [2, 0, 5], [1, 4, 6]]);
    assert_eq!(b.value_at(0, 0), 8);
    assert_eq!(b.value_at(1, 1), 0);
    assert_eq!(b.value_at(2, 2), 6);
    assert_eq!(b.value_at(2, 0), 1);
}

#[test]
fn new_refuses_a_repeated_tile() {
    assert_eq!(
        Board::new([[1, 2, 3], [4, 5, 6], [7, 8, 8]]),
        Err(BoardError::InvalidBoard)
    );
}

#[test]
fn new_refuses_a_tile_out_of_range() {
    assert_eq!(
        Board::new([[1, 2, 3], [4, 5, 6], [7, 8, 9]]),
        Err(BoardError::InvalidBoard)
    );
    assert_eq!(
        Board::new([[0, 1, 2], [3, 4, 5], [6, 7, 255]]),
        Err(BoardError::InvalidBoard)
    );
}

#[test]
fn goal_is_row_major_with_the_blank_last() {
    assert_eq!(Board::goal(), board([[1, 2, 3], [4, 5, 6], [7, 8, 0]]));
    assert!(Board::goal().is_goal());
    assert!(!board([[1, 2, 3], [4, 5, 6], [7, 0, 8]]).is_goal());
}

#[test]
fn position_finds_each_value() {
    let b = board([[8, 7, 3], [2, 0, 5], [1, 4, 6]]);
    assert_eq!(b.position(0), (1, 1));
    assert_eq!(b.position(8), (0, 0));
    assert_eq!(b.position(6), (2, 2));
    assert_eq!(b.position(4), (2, 1));
    for v in 0..9u8 {
        let (r, c) = b.position(v);
        assert_eq!(b.value_at(r, c), v);
    }
}

#[test]
fn apply_swaps_the_blank_with_its_neighbour() {
    let b = board([[8, 7, 3], [2, 0, 5], [1, 4, 6]]);
    assert_eq!(
        b.apply(Direction::Up),
        Some(board([[8, 0, 3], [2, 7, 5], [1, 4, 6]]))
    );
    assert_eq!(
        b.apply(Direction::Down),
        Some(board([[8, 7, 3], [2, 4, 5], [1, 0, 6]]))
    );
    assert_eq!(
        b.apply(Direction::Left),
        Some(board([[8, 7, 3], [0, 2, 5], [1, 4, 6]]))
    );
    assert_eq!(
        b.apply(Direction::Right),
        Some(board([[8, 7, 3], [2, 5, 0], [1, 4, 6]]))
    );
    // the board itself is left as it was
    assert_eq!(b, board([[8, 7, 3], [2, 0, 5], [1, 4, 6]]));
}

#[test]
fn apply_refuses_to_leave_the_grid() {
    let top_left = board([[0, 1, 2], [3, 4, 5], [6, 7, 8]]);
    assert_eq!(top_left.apply(Direction::Up), None);
    assert_eq!(top_left.apply(Direction::Left), None);
    assert!(top_left.apply(Direction::Down).is_some());
    assert!(top_left.apply(Direction::Right).is_some());
    let bottom_right = Board::goal();
    assert_eq!(bottom_right.apply(Direction::Down), None);
    assert_eq!(bottom_right.apply(Direction::Right), None);
    assert!(bottom_right.apply(Direction::Up).is_some());
    assert!(bottom_right.apply(Direction::Left).is_some());
}

#[test]
fn a_step_and_its_opposite_cancel() {
    let b = board([[8, 7, 3], [2, 0, 5], [1, 4, 6]]);
    let pairs = [
        (Direction::Up, Direction::Down),
        (Direction::Down, Direction::Up),
        (Direction::Left, Direction::Right),
        (Direction::Right, Direction::Left),
    ];
    for (there, back) in pairs {
        let moved = b.apply(there).expect("the blank is in the middle");
        assert_ne!(moved, b);
        assert_eq!(moved.apply(back), Some(b));
    }
}

#[test]
fn keys_tell_boards_apart() {
    let a = board([[1, 2, 3], [4, 5, 6], [7, 8, 0]]);
    let b = board([[1, 2, 3], [4, 5, 6], [7, 0, 8]]);
    let c = board([[0, 1, 2], [3, 4, 5], [6, 7, 8]]);
    assert_ne!(a.key(), b.key());
    assert_ne!(a.key(), c.key());
    assert_ne!(b.key(), c.key());
    assert_eq!(a.key(), Board::goal().key());
    // 1 + 2*9 + 3*81 + 4*729 + 5*6561 + 6*59049 + 7*531441 + 8*4782969
    assert_eq!(a.key(), 42374116);
    assert_eq!(
        board([[1, 0, 2], [3, 4, 5], [6, 7, 8]]).key(),
        1 + 2 * 81 + 3 * 729 + 4 * 6561 + 5 * 59049 + 6 * 531441 + 7 * 4782969 + 8 * 43046721
    );
}

#[test]
fn is_valid_plan_follows_the_steps() {
    let b = board([[1, 2, 3], [4, 8, 5], [0, 7, 6]]);
    let plan = [
        Direction::Right,
        Direction::Up,
        Direction::Right,
        Direction::Down,
    ];
    assert!(b.is_valid_plan(&plan));
    // stops short of the goal
    assert!(!b.is_valid_plan(&plan[0..3]));
    // leaves the grid at the first step
    assert!(!b.is_valid_plan(&[Direction::Left]));
    assert!(!b.is_valid_plan(&[Direction::Down, Direction::Up]));
    // the empty plan is valid on the goal only
    assert!(Board::goal().is_valid_plan(&[]));
    assert!(!b.is_valid_plan(&[]));
}
