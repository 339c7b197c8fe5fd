use minmax_games::checkers::{CheckersBoard, CheckersTile};
use minmax_games::game::{GameState, Player};

#[test]
fn test_checkers_initialization() {
    let board = CheckersBoard::new();
    assert_eq!(board.current_player, Player::Player1);
    assert_eq!(board.moves_without_capture, 0);

    let mut player1_count = 0;
    let mut player2_count = 0;
    for row in 0..8 {
        for col in 0..8 {
            match board.board[row][col] {
                CheckersTile::Checker(Player::Player1) => player1_count += 1,
                CheckersTile::Checker(Player::Player2) => player2_count += 1,
                _ => {}
            }
        }
    }
    assert_eq!(player1_count, 12);
    assert_eq!(player2_count, 12);
}

#[test]
fn test_get_possible_actions() {
    let board = CheckersBoard::new();
    let actions = board.get_possible_actions();
    assert_eq!(actions.len(), 7);
    for action in actions {
        assert_eq!(action.len(), 1);
        let (from_row, from_col, to_row, to_col) = action[0];
        assert!(to_row == from_row + 1);
        assert!((to_col as i32 - from_col as i32).abs() == 1);
    }
}

#[test]
fn test_terminal_conditions() {
    let board = CheckersBoard::new();
    assert!(!board.is_terminal());
    let mut long_game = board.clone();
    long_game.moves_without_capture = 50;
    assert!(long_game.is_terminal());
}

#[test]
fn test_game_flow() {
    let mut board = CheckersBoard::new();
    let actions = board.get_possible_actions();
    assert!(!actions.is_empty());
    let first_action = &actions[0];
    board = board.apply_action(first_action);
    assert_eq!(board.current_player, Player::Player2);
    let player2_actions = board.get_possible_actions();
    assert!(!player2_actions.is_empty());
    let evaluation = board.evaluate();
    assert!(evaluation.is_some());
    let eval_value = evaluation.unwrap();
    assert!(eval_value.abs() < 50);
}

#[test]
fn test_piece_promotion() {
    let mut board = CheckersBoard::new();
    board.board[6][1] = CheckersTile::Checker(Player::Player1);
    board.board[7][2] = CheckersTile::Empty;
    let action = vec![(6, 1, 7, 2)];
    let promoted_board = board.apply_action(&action);
    assert_eq!(promoted_board.board[7][2], CheckersTile::Queen(Player::Player1));
}

#[test]
fn test_multiple_captures() {
    let mut board = CheckersBoard::new();
    board.board[2][1] = CheckersTile::Checker(Player::Player1);
    board.board[3][2] = CheckersTile::Checker(Player::Player2);
    board.board[5][4] = CheckersTile::Checker(Player::Player2);
    board.board[4][3] = CheckersTile::Empty;
    board.board[6][5] = CheckersTile::Empty;

    let actions = board.get_possible_actions();
    let multi_capture = actions.iter().find(|action| action.len() > 1);
    assert!(multi_capture.is_some(), "Should find a multi-capture sequence");

    if let Some(sequence) = multi_capture {
        let new_board = board.apply_action(sequence);
        assert_eq!(new_board.board[3][2], CheckersTile::Empty);
        assert_eq!(new_board.board[5][4], CheckersTile::Empty);
        let final_move = sequence.last().unwrap();
        let (_, _, final_row, final_col) = *final_move;
        assert_eq!(new_board.board[final_row][final_col], CheckersTile::Checker(Player::Player1));
    }
}

#[test]
fn test_single_capture() {
    let mut board = CheckersBoard::new();
    board.board[2][1] = CheckersTile::Checker(Player::Player1);
    board.board[3][2] = CheckersTile::Checker(Player::Player2);
    board.board[4][3] = CheckersTile::Empty;
    for row in 0..8 {
        for col in 0..8 {
            if (row, col) != (2, 1) && (row, col) != (3, 2) {
                board.board[row][col] = CheckersTile::Empty;
            }
        }
    }

    let actions = board.get_possible_actions();
    assert_eq!(actions.len(), 1);
    let capture_action = &actions[0];
    assert_eq!(capture_action.len(), 1);
    let (from_row, from_col, to_row, to_col) = capture_action[0];
    assert_eq!(from_row, 2);
    assert_eq!(from_col, 1);
    assert_eq!(to_row, 4);
    assert_eq!(to_col, 3);

    let new_board = board.apply_action(capture_action);
    assert_eq!(new_board.board[3][2], CheckersTile::Empty);
    assert_eq!(new_board.board[4][3], CheckersTile::Checker(Player::Player1));
    assert_eq!(new_board.board[2][1], CheckersTile::Empty);
}

fn empty_board(player: Player) -> CheckersBoard {
    let mut board = CheckersBoard::new();
    for row in 0..8 {
        for col in 0..8 {
            board.board[row][col] = CheckersTile::Empty;
        }
    }
    board.current_player = player;
    board
}

#[test]
fn capture_is_mandatory_over_quiet_moves() {
    let mut board = empty_board(Player::Player1);
    board.board[2][1] = CheckersTile::Checker(Player::Player1);
    board.board[3][2] = CheckersTile::Checker(Player::Player2);
    board.board[0][5] = CheckersTile::Checker(Player::Player1);
    board.board[7][0] = CheckersTile::Checker(Player::Player2);
    let actions = board.get_possible_actions();
    assert_eq!(actions, vec![vec![(2, 1, 4, 3)]]);
}

#[test]
fn quiet_moves_when_no_capture() {
    let mut board = empty_board(Player::Player1);
    board.board[0][1] = CheckersTile::Checker(Player::Player1);
    board.board[7][0] = CheckersTile::Checker(Player::Player2);
    let actions = board.get_possible_actions();
    assert_eq!(actions, vec![vec![(0, 1, 1, 0)], vec![(0, 1, 1, 2)]]);
}

#[test]
fn two_captures_in_a_row_are_one_action() {
    let mut board = empty_board(Player::Player1);
    board.board[0][1] = CheckersTile::Checker(Player::Player1);
    board.board[1][2] = CheckersTile::Checker(Player::Player2);
    board.board[3][4] = CheckersTile::Checker(Player::Player2);
    let actions = board.get_possible_actions();
    assert_eq!(actions, vec![vec![(0, 1, 2, 3), (2, 3, 4, 5)]]);
}

#[test]
fn three_captures_in_a_row_are_one_action() {
    let mut board = empty_board(Player::Player1);
    board.board[0][1] = CheckersTile::Checker(Player::Player1);
    board.board[1][2] = CheckersTile::Checker(Player::Player2);
    board.board[3][4] = CheckersTile::Checker(Player::Player2);
    board.board[5][4] = CheckersTile::Checker(Player::Player2);
    let actions = board.get_possible_actions();
    assert_eq!(actions, vec![vec![(0, 1, 2, 3), (2, 3, 4, 5), (4, 5, 6, 3)]]);
    let after = board.apply_action(&actions[0]);
    assert_eq!(after.count_pieces(Player::Player2), 0);
    assert_eq!(after.board[6][3], CheckersTile::Checker(Player::Player1));
    assert_eq!(after.current_player, Player::Player2);
    assert_eq!(after.moves_without_capture, 0);
}

#[test]
fn promotion_mid_chain_allows_backward_capture() {
    let mut board = empty_board(Player::Player1);
    board.board[5][2] = CheckersTile::Checker(Player::Player1);
    board.board[6][3] = CheckersTile::Checker(Player::Player2);
    board.board[6][5] = CheckersTile::Checker(Player::Player2);
    board.board[0][7] = CheckersTile::Checker(Player::Player2);
    let actions = board.get_possible_actions();
    assert_eq!(actions, vec![vec![(5, 2, 7, 4), (7, 4, 5, 6)]]);
    let after = board.apply_action(&actions[0]);
    assert_eq!(after.board[5][6], CheckersTile::Queen(Player::Player1));
}

#[test]
fn branching_chains_are_listed_separately() {
    let mut board = empty_board(Player::Player1);
    board.board[2][3] = CheckersTile::Checker(Player::Player1);
    board.board[3][2] = CheckersTile::Checker(Player::Player2);
    board.board[3][4] = CheckersTile::Checker(Player::Player2);
    let actions = board.get_possible_actions();
    assert_eq!(actions, vec![vec![(2, 3, 4, 1)], vec![(2, 3, 4, 5)]]);
}

#[test]
fn every_action_passes_the_turn_once() {
    let mut board = empty_board(Player::Player2);
    board.board[7][0] = CheckersTile::Queen(Player::Player2);
    board.board[6][1] = CheckersTile::Checker(Player::Player1);
    board.board[4][3] = CheckersTile::Checker(Player::Player1);
    board.board[0][1] = CheckersTile::Checker(Player::Player1);
    for action in board.get_possible_actions() {
        let after = board.apply_action(&action);
        assert_eq!(after.current_player, Player::Player1);
    }
    let start = CheckersBoard::new();
    for action in start.get_possible_actions() {
        assert_eq!(start.apply_action(&action).current_player, Player::Player2);
    }
}

#[test]
fn apply_is_deterministic() {
    let board = CheckersBoard::new();
    let actions = board.get_possible_actions();
    for action in &actions {
        assert!(board.apply_action(action) == board.apply_action(action));
    }
}

#[test]
fn quiet_move_counts_toward_stalemate() {
    let board = CheckersBoard::new();
    let after = board.apply_action(&vec![(2, 0, 3, 1)]);
    assert_eq!(after.moves_without_capture, 1);
    assert_eq!(after.board[3][1], CheckersTile::Checker(Player::Player1));
    assert_eq!(after.board[2][0], CheckersTile::Empty);
}

#[test]
fn evaluation_of_start_and_finished_games() {
    let board = CheckersBoard::new();
    assert_eq!(board.evaluate(), Some(0));
    let after = board.apply_action(&vec![(2, 0, 3, 1)]);
    assert_eq!(after.evaluate(), Some(1));

    let mut won = empty_board(Player::Player2);
    won.board[0][1] = CheckersTile::Checker(Player::Player1);
    assert!(won.is_terminal());
    assert_eq!(won.evaluate(), Some(2000));

    let mut lost = empty_board(Player::Player1);
    lost.board[7][0] = CheckersTile::Queen(Player::Player2);
    assert_eq!(lost.evaluate(), Some(-2000));

    let mut stalled = CheckersBoard::new();
    stalled.moves_without_capture = 50;
    assert_eq!(stalled.evaluate(), Some(0));
}

#[test]
fn blocked_side_is_terminal() {
    let mut board = empty_board(Player::Player1);
    board.board[6][1] = CheckersTile::Checker(Player::Player1);
    board.board[7][0] = CheckersTile::Checker(Player::Player2);
    board.board[7][2] = CheckersTile::Checker(Player::Player2);
    assert!(board.get_possible_actions().is_empty());
    assert!(board.is_terminal());
    assert_eq!(board.evaluate(), Some(0));
}

#[test]
fn count_pieces_counts_queens() {
    let mut board = CheckersBoard::new();
    board.board[3][0] = CheckersTile::Queen(Player::Player1);
    assert_eq!(board.count_pieces(Player::Player1), 13);
    assert_eq!(board.count_pieces(Player::Player2), 12);
}
