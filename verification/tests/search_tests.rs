use fifteen::board::BoardState;
use fifteen::search::best_distance;
use fifteen::search::calculate;
use fifteen::search::count_states;
use fifteen::search::get_not_activated_state;
use fifteen::search::update_states_list;

fn solved_board() -> Vec<u8> {
    vec![1, 2, 3, 4, 5, 6, 7, 8, 9, 10, 11, 12, 13, 14, 15, 0]
}

#[test]
fn worse_duplicate_changes_nothing() {
    // Dominance: a duplicate board at a strictly greater depth neither
    // grows the bucket nor touches the stored entry.
    let mut bucket: Vec<BoardState> = Vec::new();
    let stored = BoardState::new(solved_board(), 15, 3);
    let amount = update_states_list(&mut bucket, stored, 0);
    assert_eq!(amount, 1);
    assert_eq!(bucket.len(), 1);

    let worse = BoardState::new(solved_board(), 15, 5);
    let amount = update_states_list(&mut bucket, worse, amount);
    assert_eq!(amount, 1);
    assert_eq!(bucket.len(), 1);
    assert_eq!(bucket[0].range, 3);
}

#[test]
fn better_duplicate_reopens_in_place() {
    let mut bucket: Vec<BoardState> = Vec::new();
    let mut stored = BoardState::new(solved_board(), 15, 3);
    stored.do_move();
    let amount = update_states_list(&mut bucket, stored, 0);
    assert_eq!(amount, 1);
    assert!(!bucket[0].can_move());

    let better = BoardState::new(solved_board(), 15, 1);
    let amount = update_states_list(&mut bucket, better, amount);
    assert_eq!(amount, 1);
    assert_eq!(bucket.len(), 1);
    assert_eq!(bucket[0].range, 1);
    assert!(bucket[0].can_move());
}

#[test]
fn fresh_board_is_appended() {
    let mut bucket: Vec<BoardState> = Vec::new();
    let amount = update_states_list(&mut bucket, BoardState::new(solved_board(), 15, 0), 0);
    let other = vec![1, 2, 3, 4, 5, 6, 7, 8, 9, 10, 11, 15, 13, 14, 12, 0];
    let amount = update_states_list(&mut bucket, BoardState::new(other, 15, 4), amount);
    assert_eq!(amount, 2);
    assert_eq!(bucket.len(), 2);
}

#[test]
fn expansion_picks_the_most_promising_state() {
    let goal = BoardState::new_from_board(solved_board());

    // Bucket 15 holds two expandable states: the goal itself (distance 0)
    // and a two-slide scramble (distance > 0). The goal must be expanded.
    let near = BoardState::new(solved_board(), 15, 2);
    let far_board = vec![1, 2, 3, 4, 5, 6, 7, 8, 9, 10, 12, 11, 13, 14, 15, 0];
    let far = BoardState::new(far_board, 15, 1);

    let mut arrays: Vec<Vec<BoardState>> = (0..16).map(|_| Vec::new()).collect();
    arrays[15].push(far);
    arrays[15].push(near);

    let succs = get_not_activated_state(&mut arrays, 15, &goal);
    // The blank of the expanded state was at 15: successors left and up.
    assert_eq!(succs.len(), 2);
    // The near state (stored second) was chosen and is now spent.
    assert!(!arrays[15][1].can_move());
    assert!(arrays[15][0].can_move());

    // An index whose bucket is empty yields nothing.
    let succs = get_not_activated_state(&mut arrays, 3, &goal);
    assert!(succs.is_empty());
}

#[test]
fn progress_queries_report_count_and_best_distance() {
    let goal = BoardState::new_from_board(solved_board());
    let mut arrays: Vec<Vec<BoardState>> = (0..16).map(|_| Vec::new()).collect();
    assert_eq!(count_states(&arrays), 0);
    assert_eq!(best_distance(&arrays, &goal), None);

    // One expandable state at distance 0 and one two cells off (the tiles
    // 11 and 12 swapped: each is one column away from home, distance 2).
    let near = BoardState::new(solved_board(), 15, 2);
    let far_board = vec![1, 2, 3, 4, 5, 6, 7, 8, 9, 10, 12, 11, 13, 14, 15, 0];
    let far = BoardState::new(far_board, 15, 1);
    arrays[15].push(far);
    arrays[15].push(near);
    assert_eq!(count_states(&arrays), 2);
    assert_eq!(best_distance(&arrays, &goal), Some(0));

    // Spend the best state: the other one's distance takes over.
    arrays[15][1].do_move();
    assert_eq!(best_distance(&arrays, &goal), Some(2));

    // Spend it too: nothing expandable is left.
    arrays[15][0].do_move();
    assert_eq!(best_distance(&arrays, &goal), None);
    assert_eq!(count_states(&arrays), 2);
}

#[test]
fn one_slide_scenario_gives_a_two_board_path() {
    // Goal = start with one legal slide applied (blank moved left).
    let start = BoardState::new_from_board(solved_board());
    let goal_board = vec![1, 2, 3, 4, 5, 6, 7, 8, 9, 10, 11, 12, 13, 14, 0, 15];
    let goal = BoardState::new_from_board(goal_board.clone());

    let path = calculate(start, goal, 100_000).expect("the goal is one slide away");
    assert_eq!(path.len(), 2);
    assert_eq!(path[0].board, goal_board);
    assert_eq!(path[1].board, solved_board());
    assert!(path[0].is_single_step_diff(&path[1]));
}

#[test]
fn equal_start_and_goal_give_a_one_board_path() {
    let start = BoardState::new_from_board(solved_board());
    let goal = BoardState::new_from_board(solved_board());
    let path = calculate(start, goal, 100_000).expect("start equals goal");
    assert_eq!(path.len(), 1);
    assert_eq!(path[0].board, solved_board());
}

#[test]
fn solvable_scramble_yields_a_chain_of_single_slides() {
    let start = BoardState::new_from_board(solved_board());
    let goal_board = vec![1, 3, 10, 4, 5, 2, 0, 7, 9, 11, 6, 8, 13, 14, 15, 12];
    let goal = BoardState::new_from_board(goal_board.clone());

    let path = calculate(start, goal, 50_000_000).expect("the scramble is solvable");
    assert!(path.len() >= 2);
    assert_eq!(path[0].board, goal_board);
    assert_eq!(path[path.len() - 1].board, solved_board());
    for k in 0..path.len() - 1 {
        assert!(path[k].is_single_step_diff(&path[k + 1]));
        assert!(path[k + 1].range < path[k].range);
    }
}

#[test]
fn equal_boards_need_no_rounds_at_all() {
    let start = BoardState::new_from_board(solved_board());
    let goal = BoardState::new_from_board(solved_board());
    let path = calculate(start, goal, 0).expect("equality is detected before searching");
    assert_eq!(path.len(), 1);
}

#[test]
fn exhausted_budget_reports_no_path() {
    let start = BoardState::new_from_board(solved_board());
    let goal_board = vec![1, 3, 10, 4, 5, 2, 0, 7, 9, 11, 6, 8, 13, 14, 15, 12];
    let goal = BoardState::new_from_board(goal_board);
    // Far too few rounds for a scramble this deep.
    assert!(calculate(start, goal, 5).is_none());
}
