use mcts_connect_four::connect_four::{
    is_terminal_position, Board, Cell, Player, TerminalPosition,
};

#[test]
fn test_empty_board_is_not_terminal() {
    let board = Board::new(7, 6);
    assert_eq!(is_terminal_position(&board), TerminalPosition::IsNotTerminal);
}

#[test]
fn test_is_terminal_horizontal_win() {
    let mut board = Board::new(7, 6);
    board.insert(0, Player::Player1).expect("insert failed");
    board.insert(1, Player::Player1).expect("insert failed");
    board.insert(2, Player::Player1).expect("insert failed");
    board.insert(3, Player::Player1).expect("insert failed");
    assert_eq!(
        is_terminal_position(&board),
        TerminalPosition::IsTerminalWin(Player::Player1)
    );
}

#[test]
fn test_is_terminal_vertical_win() {
    let mut board = Board::new(7, 6);
    board.insert(0, Player::Player1).expect("insert failed");
    board.insert(0, Player::Player1).expect("insert failed");
    board.insert(0, Player::Player1).expect("insert failed");
    board.insert(0, Player::Player1).expect("insert failed");
    assert_eq!(
        is_terminal_position(&board),
        TerminalPosition::IsTerminalWin(Player::Player1)
    );
}

#[test]
fn test_is_terminal_diag_win() {
    let mut board = Board::new(7, 6);
    board.insert(0, Player::Player1).expect("insert failed");
    board.insert(1, Player::Player2).expect("insert failed");
    board.insert(1, Player::Player1).expect("insert failed");
    board.insert(2, Player::Player2).expect("insert failed");
    board.insert(2, Player::Player2).expect("insert failed");
    board.insert(2, Player::Player1).expect("insert failed");
    board.insert(3, Player::Player2).expect("insert failed");
    board.insert(3, Player::Player2).expect("insert failed");
    board.insert(3, Player::Player2).expect("insert failed");
    board.insert(3, Player::Player1).expect("insert failed");
    // the ascending diagonal (0,5), (1,4), (2,3), (3,2) is all Player1
    assert_eq!(board.get(0, 5), Cell::Player(Player::Player1));
    assert_eq!(board.get(1, 4), Cell::Player(Player::Player1));
    assert_eq!(board.get(2, 3), Cell::Player(Player::Player1));
    assert_eq!(board.get(3, 2), Cell::Player(Player::Player1));
    assert_eq!(
        is_terminal_position(&board),
        TerminalPosition::IsTerminalWin(Player::Player1)
    );
}

#[test]
fn test_four_in_any_column_wins() {
    for player in [Player::Player1, Player::Player2] {
        for col in 0..7 {
            let mut board = Board::new(7, 6);
            for _ in 0..4 {
                board.insert(col, player).expect("insert failed");
            }
            assert_eq!(
                is_terminal_position(&board),
                TerminalPosition::IsTerminalWin(player),
                "col: {}",
                col
            );
        }
    }
}

#[test]
fn test_three_in_a_column_is_not_terminal() {
    let mut board = Board::new(7, 6);
    for _ in 0..3 {
        board.insert(4, Player::Player2).expect("insert failed");
    }
    assert_eq!(is_terminal_position(&board), TerminalPosition::IsNotTerminal);
}
