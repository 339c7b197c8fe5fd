use minmax_games::four::{FourRow, GameAction, BOARD_HEIGHT, BOARD_WIDTH};
use minmax_games::game::{GameResult, GameState, Player, Tile};

fn play(columns: &[u8]) -> FourRow {
    let mut game = FourRow::new();
    for &column in columns {
        game = game.apply_action(&GameAction { column });
    }
    game
}

#[test]
fn new_board_is_empty_and_running() {
    let game = FourRow::new();
    assert_eq!(game.current_player, Player::Player1);
    for row in 0..BOARD_HEIGHT {
        for col in 0..BOARD_WIDTH {
            assert_eq!(game.board[row][col], Tile::Empty);
        }
    }
    assert_eq!(game.get_terminal(), GameResult::Ongoing);
    assert!(!game.is_terminal());
    assert_eq!(game.evaluate(), Some(0));
}

#[test]
fn every_open_column_is_an_action() {
    let game = FourRow::new();
    let columns: Vec<u8> = game.get_possible_actions().iter().map(|a| a.column).collect();
    assert_eq!(columns, vec![0, 1, 2, 3, 4, 5, 6]);
    let full_column = play(&[2, 2, 2, 2, 2, 2]);
    let columns: Vec<u8> = full_column.get_possible_actions().iter().map(|a| a.column).collect();
    assert_eq!(columns, vec![0, 1, 3, 4, 5, 6]);
}

#[test]
fn discs_stack_and_turn_passes() {
    let game = play(&[3, 3]);
    assert_eq!(game.board[0][3], Tile::Player1);
    assert_eq!(game.board[1][3], Tile::Player2);
    assert_eq!(game.current_player, Player::Player1);
    let game = game.apply_action(&GameAction { column: 3 });
    assert_eq!(game.board[2][3], Tile::Player1);
    assert_eq!(game.current_player, Player::Player2);
}

#[test]
fn horizontal_line_wins_for_player1() {
    let game = play(&[0, 0, 1, 1, 2, 2, 3]);
    assert_eq!(game.get_terminal(), GameResult::Win(Player::Player1));
    assert!(game.is_terminal());
    assert_eq!(game.evaluate(), Some(1000000));
}

#[test]
fn vertical_line_wins_for_player2() {
    let game = play(&[0, 1, 0, 1, 0, 1, 2, 1]);
    assert_eq!(game.get_terminal(), GameResult::Win(Player::Player2));
    assert_eq!(game.evaluate(), Some(-1000000));
}

#[test]
fn diagonal_lines_win() {
    let rising = play(&[0, 1, 1, 2, 2, 3, 2, 3, 3, 6, 3]);
    assert_eq!(rising.get_terminal(), GameResult::Win(Player::Player1));
    let falling = play(&[3, 2, 2, 1, 1, 0, 1, 0, 0, 6, 0]);
    assert_eq!(falling.get_terminal(), GameResult::Win(Player::Player1));
}

#[test]
fn full_board_without_line_is_a_draw() {
    let rows = ["XXOOXXO", "XXOOXXO", "XXOOXXO", "OOXXOOX", "XXOOXXO", "XXOOXXO"];
    let mut game = FourRow::new();
    for (row, text) in rows.iter().enumerate() {
        for (col, ch) in text.chars().enumerate() {
            game.board[row][col] = if ch == 'X' { Tile::Player1 } else { Tile::Player2 };
        }
    }
    assert_eq!(game.get_terminal(), GameResult::Draw);
    assert!(game.get_possible_actions().is_empty());
    assert_eq!(game.evaluate(), Some(0));
}

#[test]
fn heuristic_weighs_columns() {
    assert_eq!(play(&[3]).evaluate(), Some(50));
    assert_eq!(play(&[0]).evaluate(), Some(5));
    assert_eq!(play(&[3, 2]).evaluate(), Some(10));
}

#[test]
fn heuristic_scores_open_threes() {
    let mut game = FourRow::new();
    game.board[0][1] = Tile::Player1;
    game.board[0][2] = Tile::Player1;
    game.board[0][3] = Tile::Player1;
    assert_eq!(game.evaluate(), Some(910));

    let mut edge = FourRow::new();
    edge.board[0][0] = Tile::Player1;
    edge.board[0][1] = Tile::Player1;
    edge.board[0][2] = Tile::Player1;
    assert_eq!(edge.evaluate(), Some(565));

    let mut other = FourRow::new();
    other.board[0][4] = Tile::Player2;
    other.board[0][5] = Tile::Player2;
    other.board[0][6] = Tile::Player2;
    assert_eq!(other.evaluate(), Some(-565));

    let mut blocked = FourRow::new();
    blocked.board[0][0] = Tile::Player1;
    blocked.board[0][1] = Tile::Player1;
    blocked.board[0][2] = Tile::Player1;
    blocked.board[0][3] = Tile::Player2;
    assert_eq!(blocked.evaluate(), Some(65 - 50));
}

#[test]
fn terminal_scores_exceed_heuristic_scores() {
    let mut crowded = FourRow::new();
    let rows = ["XXOOXXO", "XXOOXXO", "XXOOXXO", "OOXXOOX", "XXOOXXO", "......."];
    for (row, text) in rows.iter().enumerate() {
        for (col, ch) in text.chars().enumerate() {
            crowded.board[row][col] = match ch {
                'X' => Tile::Player1,
                'O' => Tile::Player2,
                _ => Tile::Empty,
            };
        }
    }
    assert_eq!(crowded.get_terminal(), GameResult::Ongoing);
    let score = crowded.evaluate().unwrap();
    assert!(score.abs() < 1000000);
    assert!(play(&[0, 0, 1, 1, 2, 2, 3]).evaluate().unwrap() > score.abs());
}
