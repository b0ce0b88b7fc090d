use fifteen::board::get_xy_pos;
use fifteen::board::BoardState;

fn solved_board() -> Vec<u8> {
    vec![1, 2, 3, 4, 5, 6, 7, 8, 9, 10, 11, 12, 13, 14, 15, 0]
}

#[test]
fn test_xy_pos() {
    assert_eq!((0, 0), get_xy_pos(0));
    assert_eq!((3, 2), get_xy_pos(11));
}

#[test]
fn test_movement() {
    let mut board_state = BoardState::new_from_board(solved_board());

    let mut new_board = board_state.move_left().unwrap();
    assert_eq!(new_board.board[14], 0);
    assert_eq!(new_board.board[15], 15);

    let new_board = new_board.move_right().unwrap();
    assert_eq!(new_board.board[14], 15);
    assert_eq!(new_board.board[15], 0);

    let mut new_board = board_state.move_up().unwrap();
    assert_eq!(new_board.board[11], 0);
    assert_eq!(new_board.board[15], 12);

    let new_board = new_board.move_down().unwrap();
    assert_eq!(new_board.board[11], 12);
    assert_eq!(new_board.board[15], 0);
}

#[test]
fn xy_recombination_is_identity() {
    for i in 0..16usize {
        let (x, y) = get_xy_pos(i);
        assert_eq!(y * 4 + x, i);
    }
}

#[test]
fn move_round_trips_restore_board() {
    // Blank at cell 5: every direction is legal, and each move followed by
    // its inverse restores the original board.
    let board = vec![1, 2, 3, 4, 5, 0, 6, 7, 8, 9, 10, 11, 12, 13, 14, 15];
    let state = BoardState::new_from_board(board.clone());

    let mut left = state.duplicate().move_left().unwrap();
    let back = left.move_right().unwrap();
    assert_eq!(back.board, board);

    let mut right = state.duplicate().move_right().unwrap();
    let back = right.move_left().unwrap();
    assert_eq!(back.board, board);

    let mut up = state.duplicate().move_up().unwrap();
    let back = up.move_down().unwrap();
    assert_eq!(back.board, board);

    let mut down = state.duplicate().move_down().unwrap();
    let back = down.move_up().unwrap();
    assert_eq!(back.board, board);
}

#[test]
fn moves_absent_exactly_on_boundaries() {
    // Blank in the top-left corner: column 0 and row 0.
    let board = vec![0, 1, 2, 3, 4, 5, 6, 7, 8, 9, 10, 11, 12, 13, 14, 15];
    let mut corner = BoardState::new_from_board(board);
    assert!(corner.move_left().is_none());
    assert!(corner.move_up().is_none());
    assert!(corner.move_right().is_some());
    assert!(corner.move_down().is_some());

    // Blank in the bottom-right corner: column 3 and row 3.
    let mut corner = BoardState::new_from_board(solved_board());
    assert!(corner.move_right().is_none());
    assert!(corner.move_down().is_none());
    assert!(corner.move_left().is_some());
    assert!(corner.move_up().is_some());

    // Blank in the middle: every direction is legal.
    let board = vec![1, 2, 3, 4, 5, 0, 6, 7, 8, 9, 10, 11, 12, 13, 14, 15];
    let mut middle = BoardState::new_from_board(board);
    assert!(middle.move_left().is_some());
    assert!(middle.move_right().is_some());
    assert!(middle.move_up().is_some());
    assert!(middle.move_down().is_some());
}

#[test]
fn do_move_returns_exactly_the_legal_successors() {
    // Bottom-right corner: only left and up are legal.
    let mut corner = BoardState::new_from_board(solved_board());
    let succs = corner.do_move();
    assert_eq!(succs.len(), 2);
    assert_eq!(succs[0].zero_pos, 14); // left
    assert_eq!(succs[1].zero_pos, 11); // up
    assert!(!corner.can_move());

    // Middle cell 5: all four, in the order left, right, up, down.
    let board = vec![1, 2, 3, 4, 5, 0, 6, 7, 8, 9, 10, 11, 12, 13, 14, 15];
    let mut middle = BoardState::new_from_board(board);
    let succs = middle.do_move();
    assert_eq!(succs.len(), 4);
    assert_eq!(succs[0].zero_pos, 4); // left
    assert_eq!(succs[1].zero_pos, 6); // right
    assert_eq!(succs[2].zero_pos, 1); // up
    assert_eq!(succs[3].zero_pos, 9); // down
    for s in &succs {
        assert_eq!(s.range, 1);
    }
}

#[test]
fn distance_to_self_is_zero() {
    let a = BoardState::new_from_board(solved_board());
    assert_eq!(a.diff(&a), 0);

    let b = BoardState::new_from_board(vec![
        1, 3, 10, 4, 5, 2, 0, 7, 9, 11, 6, 8, 13, 14, 15, 12,
    ]);
    assert_eq!(b.diff(&b), 0);
}

#[test]
fn distance_of_one_slide_is_two() {
    // One slide displaces the blank and one tile by one cell each, so the
    // sum of squared coordinate distances is exactly 2.
    let a = BoardState::new_from_board(solved_board());
    let mut moved = a.duplicate();
    let b = moved.move_left().unwrap();
    assert_eq!(a.diff(&b), 2);
    assert_eq!(b.diff(&a), 2);
}

#[test]
fn single_step_diff_detects_one_slide() {
    let a = BoardState::new_from_board(solved_board());
    let mut moved = a.duplicate();
    let b = moved.move_left().unwrap();
    assert!(a.is_single_step_diff(&b));
    assert!(b.is_single_step_diff(&a));

    // A board is not one slide from itself.
    assert!(!a.is_single_step_diff(&a));

    // Two slides apart: blanks differ but four cells changed.
    let mut moved2 = b.duplicate();
    let c = moved2.move_up().unwrap();
    assert!(!a.is_single_step_diff(&c));
}

#[test]
fn board_comparison_sees_any_change() {
    let a = BoardState::new_from_board(solved_board());
    let same = BoardState::new_from_board(solved_board());
    assert!(!a.is_diff_board(&same));

    let mut moved = a.duplicate();
    let b = moved.move_left().unwrap();
    assert!(a.is_diff_board(&b));
}

#[test]
fn check_board_accepts_only_permutations() {
    assert!(fifteen::board::check_board(&solved_board()));
    // Too short.
    assert!(!fifteen::board::check_board(&vec![0, 1, 2, 3]));
    // A value out of range.
    assert!(!fifteen::board::check_board(&vec![
        1, 2, 3, 4, 5, 6, 7, 8, 9, 10, 11, 12, 13, 14, 15, 16,
    ]));
    // A duplicate (and a missing value).
    assert!(!fifteen::board::check_board(&vec![
        1, 1, 3, 4, 5, 6, 7, 8, 9, 10, 11, 12, 13, 14, 15, 0,
    ]));
}

#[test]
fn new_from_board_locates_the_blank() {
    let s = BoardState::new_from_board(vec![
        1, 2, 3, 4, 5, 6, 0, 7, 9, 11, 10, 8, 13, 14, 15, 12,
    ]);
    assert_eq!(s.zero_pos, 6);
    assert_eq!(s.range, 0);
    assert!(s.can_move());
}

#[test]
fn reset_state_reopens_a_spent_state() {
    let mut spent = BoardState::new_from_board(solved_board());
    spent.do_move();
    assert!(!spent.can_move());

    let replacement = BoardState::new(solved_board(), 15, 7);
    spent.reset_state(&replacement);
    assert!(spent.can_move());
    assert_eq!(spent.range, 7);
    assert_eq!(spent.board, solved_board());
}
