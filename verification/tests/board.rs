use mcts_connect_four::connect_four::{
    get_legal_moves, Board, Cell, ConnectFourError, Move, MoveType, Player,
};

fn all_cells_empty(board: &Board) -> bool {
    for row in 0..board.height {
        for col in 0..board.width {
            if board.get(col, row) != Cell::Empty {
                return false;
            }
        }
    }
    true
}

#[test]
fn test_board_starts_empty() {
    let board = Board::new(7, 6);
    for row in 0..6 {
        for col in 0..7 {
            let get = board.get(col, row);
            assert_eq!(get, Cell::Empty, "col: {}, row: {}", col, row);
        }
    }
}

#[test]
fn test_at_start_all_inserts_no_pops_legal() {
    let board = Board::new(7, 6);
    for col in 0..7 {
        assert!(board.can_insert(col).is_ok());
        assert!(board.can_pop(col, Player::Player1).is_err());
        assert!(board.can_pop(col, Player::Player2).is_err());
    }

    for player in &[Player::Player1, Player::Player2] {
        let legal_moves = get_legal_moves(&board, *player);
        assert_eq!(legal_moves.len(), 7);
        for col in 0..7 {
            assert!(legal_moves.contains(&Move {
                move_type: MoveType::Insert,
                column: col,
            }));
            assert!(!legal_moves.contains(&Move {
                move_type: MoveType::Pop,
                column: col,
            }));
        }
    }
}

#[test]
fn test_insert_then_invalid_pop_returns_error() {
    let mut board = Board::new(7, 6);
    board.insert(0, Player::Player1).expect("insert failed");
    assert_eq!(
        board.can_pop(0, Player::Player2),
        Err(ConnectFourError::ColumnNotYours(0)),
        "should not be able to pop"
    );
}

#[test]
fn test_empty_board_all_pops_illegal_due_to_column_empty() {
    let board = Board::new(7, 6);
    for col in 0..7 {
        assert!(board.can_pop(col, Player::Player1) == Err(ConnectFourError::ColumnEmpty(col)));
        assert!(board.can_pop(col, Player::Player2) == Err(ConnectFourError::ColumnEmpty(col)));
    }
}

#[test]
fn test_board_one_insert() {
    let mut board = Board::new(7, 6);
    board.insert(0, Player::Player1).expect("insert failed");

    for row in 0..6 {
        for col in 0..7 {
            let get = board.get(col, row);
            if col == 0 && row == 5 {
                assert_eq!(get, Cell::Player(Player::Player1), "col: {}, row: {}", col, row);
            } else {
                assert_eq!(get, Cell::Empty, "col: {}, row: {}", col, row);
            }
        }
    }
}

#[test]
fn test_board_one_insert_then_pop() {
    let mut board = Board::new(7, 6);
    board.insert(0, Player::Player1).expect("insert failed");
    board.pop(0, Player::Player1).expect("pop failed");

    assert!(all_cells_empty(&board));
}

#[test]
fn test_board_two_inserts_then_pop() {
    let mut board = Board::new(7, 6);
    board.insert(0, Player::Player2).expect("insert failed");
    let col0 = board.get_col(0);
    assert_eq!(
        col0,
        [
            Cell::Empty,
            Cell::Empty,
            Cell::Empty,
            Cell::Empty,
            Cell::Empty,
            Cell::Player(Player::Player2)
        ]
    );

    board.insert(0, Player::Player1).expect("insert failed");
    let col0 = board.get_col(0);
    assert_eq!(
        col0,
        [
            Cell::Empty,
            Cell::Empty,
            Cell::Empty,
            Cell::Empty,
            Cell::Player(Player::Player1),
            Cell::Player(Player::Player2),
        ]
    );

    board.pop(0, Player::Player2).expect("pop failed");
    let col0 = board.get_col(0);
    assert_eq!(
        col0,
        [
            Cell::Empty,
            Cell::Empty,
            Cell::Empty,
            Cell::Empty,
            Cell::Empty,
            Cell::Player(Player::Player1),
        ]
    );
}

#[test]
fn test_column_full_then_pop_means_not_full() {
    let mut board = Board::new(7, 6);
    for _ in 0..6 {
        board.insert(0, Player::Player1).expect("insert failed");
    }
    let col0_before = board.get_col(0);
    assert!(col0_before
        .iter()
        .all(|&cell| cell == Cell::Player(Player::Player1)));
    assert_eq!(Err(ConnectFourError::ColumnFull(0)), board.can_insert(0));

    board.pop(0, Player::Player1).expect("pop failed");

    let col0_after = board.get_col(0);
    assert_eq!(Cell::Empty, col0_after[0]);
    assert_eq!(Ok(0), board.can_insert(0));
}

#[test]
fn test_board_insert_then_pop_means_empty_every_column() {
    for player in [Player::Player1, Player::Player2] {
        for col in 0..7 {
            let mut board = Board::new(7, 6);
            board.insert(col, player).expect("insert failed");
            board.pop(col, player).expect("pop failed");
            assert!(all_cells_empty(&board), "col: {}", col);
        }
    }
}

#[test]
fn test_column_full_then_insert_means_error_every_column() {
    for player in [Player::Player1, Player::Player2] {
        for col in 0..7 {
            let mut board = Board::new(7, 6);
            for _ in 0..6 {
                board.insert(col, player).expect("insert failed");
            }
            assert_eq!(
                board.can_insert(col),
                Err(ConnectFourError::ColumnFull(col)),
                "should not be able to insert"
            );
        }
    }
}

#[test]
fn test_board_many_inserts_then_one_pop() {
    let players = [Player::Player2, Player::Player1, Player::Player1];
    for col in 0..7 {
        let mut board = Board::new(7, 6);
        for p in &players {
            board.insert(col, *p).expect("insert failed");
        }

        let initial_col = board.get_col(col);

        board.pop(col, players[0]).expect("pop failed");
        let final_col = board.get_col(col);

        let initial_non_empty: Vec<_> =
            initial_col.iter().filter(|c| **c != Cell::Empty).collect();
        let final_non_empty: Vec<_> = final_col.iter().filter(|c| **c != Cell::Empty).collect();

        // one fewer piece, and the surviving pieces keep their order
        assert_eq!(initial_non_empty.len(), final_non_empty.len() + 1);
        assert_eq!(
            initial_non_empty[..initial_non_empty.len() - 1],
            final_non_empty[..]
        );
    }
}

#[test]
fn test_legal_moves_order_inserts_before_pops() {
    let mut board = Board::new(7, 6);
    board.insert(2, Player::Player1).expect("insert failed");
    let moves = get_legal_moves(&board, Player::Player1);
    // all seven inserts stay legal, plus the pop in column 2, in
    // column-ascending order with Insert before Pop
    assert_eq!(moves.len(), 8);
    assert_eq!(moves[2], Move { move_type: MoveType::Insert, column: 2 });
    assert_eq!(moves[3], Move { move_type: MoveType::Pop, column: 2 });
    let pops: Vec<_> = moves
        .iter()
        .filter(|m| m.move_type == MoveType::Pop)
        .collect();
    assert_eq!(pops.len(), 1);
}

#[test]
fn test_render_small_board() {
    let mut board = Board::new(3, 2);
    board.insert(0, Player::Player1).expect("insert failed");
    board.insert(2, Player::Player2).expect("insert failed");
    assert_eq!(board.render(), "  0 1 2\n0 . . .\n1 1 . 2");
}

#[test]
fn test_render_standard_board_header_and_rows() {
    let board = Board::new(7, 6);
    let text = board.render();
    let lines: Vec<&str> = text.split('\n').collect();
    assert_eq!(lines.len(), 7);
    assert_eq!(lines[0], "  0 1 2 3 4 5 6");
    for (row, line) in lines[1..].iter().enumerate() {
        assert_eq!(*line, format!("{} . . . . . . .", row));
    }
}
