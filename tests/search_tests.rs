use minmax_games::checkers::CheckersBoard;
use minmax_games::four::{FourRow, GameAction};
use minmax_games::game::GameState;
use minmax_games::minmax::{choose_action, minmax, ExploredStates, GameTree};

fn plain_minimax<T: GameState>(state: &T, depth: u8, maximizing: bool) -> i64 {
    if depth == 0 || state.is_terminal() {
        return state.evaluate().unwrap_or(0);
    }
    let mut best = if maximizing { i64::MIN } else { i64::MAX };
    for action in state.get_possible_actions() {
        let value = plain_minimax(&state.apply_action(&action), depth - 1, !maximizing);
        best = if maximizing { best.max(value) } else { best.min(value) };
    }
    best
}

fn search<T: GameState>(state: &T, depth: u8, maximizing: bool) -> (GameTree<T>, ExploredStates<T>) {
    let mut memo = ExploredStates::new();
    let tree = minmax(state.copy_position(), depth, maximizing, &mut memo, i64::MIN, i64::MAX);
    (tree, memo)
}

#[test]
fn depth_one_takes_best_child_score() {
    let start = play_four(&[3, 3, 2]);
    for maximizing in [true, false] {
        let (tree, _) = search(&start, 1, maximizing);
        let scores: Vec<i64> = start
            .get_possible_actions()
            .iter()
            .map(|a| start.apply_action(a).evaluate().unwrap())
            .collect();
        let expected = if maximizing { *scores.iter().max().unwrap() } else { *scores.iter().min().unwrap() };
        assert_eq!(tree.evaluation, expected);
        assert_eq!(tree.children.len(), scores.len());
    }
}

#[test]
fn depth_one_on_checkers_start() {
    let start = CheckersBoard::new();
    let (tree, memo) = search(&start, 1, true);
    assert_eq!(tree.evaluation, 1);
    assert_eq!(tree.children.len(), 7);
    assert_eq!(memo.len(), 7);
}

#[test]
fn pruning_keeps_the_root_value() {
    let positions = [play_four(&[]), play_four(&[3, 3, 2]), play_four(&[3, 2, 4, 4, 2])];
    for position in positions.iter() {
        for depth in 1..4u8 {
            for maximizing in [true, false] {
                let (tree, _) = search(position, depth, maximizing);
                assert_eq!(tree.evaluation, plain_minimax(position, depth, maximizing));
            }
        }
    }
    let checkers = CheckersBoard::new();
    for depth in 1..4u8 {
        let (tree, _) = search(&checkers, depth, true);
        assert_eq!(tree.evaluation, plain_minimax(&checkers, depth, true));
    }
}

#[test]
fn children_are_tried_best_first() {
    let start = play_four(&[]);
    let (tree, _) = search(&start, 1, true);
    let scores: Vec<i64> = tree.children.iter().map(|c| c.evaluate().unwrap()).collect();
    assert_eq!(scores, vec![50, 40, 40, 20, 20, 5, 5]);
    assert_eq!(tree.children[1], start.apply_action(&GameAction { column: 2 }));
    assert_eq!(tree.children[2], start.apply_action(&GameAction { column: 4 }));
}

#[test]
fn terminal_root_has_no_children() {
    let won = play_four(&[0, 0, 1, 1, 2, 2, 3]);
    let (tree, memo) = search(&won, 3, false);
    assert!(tree.children.is_empty());
    assert_eq!(tree.evaluation, 1000000);
    assert!(tree.best_child(false, &memo).is_none());
    let (tree, memo) = search(&won, 0, true);
    assert!(tree.best_child(true, &memo).is_none());
    let line = tree.get_main_line(&memo);
    assert!(line.is_empty());
}

#[test]
fn best_child_and_main_line() {
    let start = play_four(&[3, 3, 3, 3]);
    let (tree, memo) = search(&start, 2, true);
    let best = tree.best_child(true, &memo).unwrap().clone();
    assert_eq!(memo.get(&best).unwrap().evaluation, tree.evaluation);
    let line = tree.get_main_line(&memo);
    assert!(line.len() >= 2);
    assert!(line[0].state == start);
    assert_eq!(line[0].evaluation, tree.evaluation);
    assert!(line[1].state == best);
    assert_eq!(line[1].evaluation, tree.evaluation);
}

#[test]
fn takes_the_winning_column() {
    let start = play_four(&[0, 6, 1, 6, 2, 6, 5]);
    let (tree, memo) = search(&start, 1, false);
    let best = tree.best_child(false, &memo).unwrap();
    assert_eq!(best.evaluate(), Some(-1000000));
    assert_eq!(tree.evaluation, -1000000);
    let (tree, memo) = search(&play_four(&[0, 6, 1, 6, 2, 5]), 1, true);
    let best = tree.best_child(true, &memo).unwrap();
    assert_eq!(best.evaluate(), Some(1000000));
    assert_eq!(tree.evaluation, 1000000);
}

#[test]
fn depth_three_from_start_is_repeatable() {
    let four = FourRow::new();
    let (tree, memo) = search(&four, 3, true);
    assert!(!tree.children.is_empty());
    assert!(tree.evaluation != i64::MIN && tree.evaluation != i64::MAX);
    let first = tree.best_child(true, &memo).unwrap().clone();
    let (again, memo_again) = search(&four, 3, true);
    assert!(*again.best_child(true, &memo_again).unwrap() == first);
    assert_eq!(again.evaluation, tree.evaluation);

    let checkers = CheckersBoard::new();
    let (tree, memo) = search(&checkers, 3, true);
    assert!(!tree.children.is_empty());
    assert!(tree.evaluation != i64::MIN && tree.evaluation != i64::MAX);
    let first = tree.best_child(true, &memo).unwrap().clone();
    let (again, memo_again) = search(&checkers, 3, true);
    assert!(*again.best_child(true, &memo_again).unwrap() == first);
    assert_eq!(again.evaluation, tree.evaluation);
}

fn play_four(columns: &[u8]) -> FourRow {
    let mut game = FourRow::new();
    for &column in columns {
        game = game.apply_action(&GameAction { column });
    }
    game
}

#[test]
fn stored_position_is_reused_whatever_its_depth() {
    let start = FourRow::new();
    let child = start.apply_action(&GameAction { column: 3 });
    let mut memo = ExploredStates::new();
    let mut planted = GameTree::new(child);
    planted.evaluation = 12345;
    memo.insert(planted);
    let tree = minmax(start, 1, true, &mut memo, i64::MIN, i64::MAX);
    assert_eq!(tree.evaluation, 12345);
    assert_eq!(tree.children.len(), 7);
    assert_eq!(memo.len(), 7);
}

#[test]
fn equal_scores_keep_action_order() {
    let start = CheckersBoard::new();
    let (tree, _) = search(&start, 1, true);
    let expected: Vec<CheckersBoard> = start.get_possible_actions().iter().map(|a| start.apply_action(a)).collect();
    assert!(tree.children == expected);
}

#[test]
fn first_stored_child_is_chosen_even_at_the_extreme() {
    let start = FourRow::new();
    let child = start.apply_action(&GameAction { column: 0 });
    let mut memo = ExploredStates::new();
    let mut stored = GameTree::new(child);
    stored.evaluation = i64::MIN;
    memo.insert(stored);
    let mut tree = GameTree::new(start);
    tree.children.push(start.apply_action(&GameAction { column: 6 }));
    tree.children.push(child);
    assert!(*tree.best_child(true, &memo).unwrap() == child);
    let empty: ExploredStates<FourRow> = ExploredStates::new();
    assert!(tree.best_child(true, &empty).is_none());
}

#[test]
fn choose_action_picks_the_winning_column() {
    let start = play_four(&[0, 6, 1, 6, 2, 5]);
    let (choice, evaluation) = choose_action(&start, 1, true);
    let actions = start.get_possible_actions();
    assert_eq!(actions[choice.unwrap()].column, 3);
    assert_eq!(evaluation, 1000000);

    let won = play_four(&[0, 0, 1, 1, 2, 2, 3]);
    assert_eq!(choose_action(&won, 3, false), (None, 1000000));

    let checkers = CheckersBoard::new();
    let (choice, _) = choose_action(&checkers, 2, true);
    let (tree, memo) = search(&checkers, 2, true);
    let best = tree.best_child(true, &memo).unwrap();
    let actions = checkers.get_possible_actions();
    assert!(checkers.apply_action(&actions[choice.unwrap()]) == *best);
}
