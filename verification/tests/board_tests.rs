use game_of_life::board::{add_random_alive_cells, count_alive_cells, create_empty_board, ConfigError};

#[test]
fn test_create_empty_board() {
    let board = vec![
        vec![0, 0, 0, 0],
        vec![0, 0, 0, 0],
        vec![0, 0, 0, 0],
        vec![0, 0, 0, 0],
    ];
    assert_eq!(board, create_empty_board(4, 4));
}

#[test]
fn test_add_random_alive_cells() {
    let expected_num_alive_cells: u64 = 5;
    let mut board = create_empty_board(10, 10);
    add_random_alive_cells(&mut board, expected_num_alive_cells, 42).unwrap();

    let mut num_alive_cells: u64 = 0;

    for row in board {
        for element in row {
            num_alive_cells += element as u64;
        }
    }

    assert_eq!(expected_num_alive_cells, num_alive_cells);
}

#[test]
fn test_create_empty_board_rectangular() {
    let board = create_empty_board(3, 5);
    assert_eq!(board.len(), 3);
    for row in &board {
        assert_eq!(row.len(), 5);
        for &cell in row {
            assert_eq!(cell, 0);
        }
    }
}

#[test]
fn test_add_random_alive_cells_deterministic() {
    let mut first = create_empty_board(12, 12);
    let mut second = create_empty_board(12, 12);
    add_random_alive_cells(&mut first, 30, 7).unwrap();
    add_random_alive_cells(&mut second, 30, 7).unwrap();
    assert_eq!(first, second);
}

#[test]
fn test_add_random_alive_cells_other_cells_stay_dead() {
    let mut board = create_empty_board(8, 8);
    add_random_alive_cells(&mut board, 10, 3).unwrap();
    let mut alive: u64 = 0;
    let mut dead: u64 = 0;
    for row in &board {
        for &cell in row {
            assert!(cell == 0 || cell == 1);
            if cell == 1 {
                alive += 1;
            } else {
                dead += 1;
            }
        }
    }
    assert_eq!(alive, 10);
    assert_eq!(dead, 54);
}

#[test]
fn test_add_random_alive_cells_keeps_existing_alive() {
    let mut board = create_empty_board(6, 6);
    add_random_alive_cells(&mut board, 4, 1).unwrap();
    let first_generation = board.clone();
    add_random_alive_cells(&mut board, 5, 2).unwrap();
    for i in 0..6 {
        for j in 0..6 {
            if first_generation[i][j] == 1 {
                assert_eq!(board[i][j], 1);
            }
        }
    }
    assert_eq!(count_alive_cells(&board), 9);
}

#[test]
fn test_add_random_alive_cells_rejects_excess() {
    let mut board = create_empty_board(3, 3);
    let result = add_random_alive_cells(&mut board, 10, 42);
    assert_eq!(result, Err(ConfigError::AliveCellsExceedCapacity));
    for row in &board {
        for &cell in row {
            assert_eq!(cell, 0);
        }
    }
}

#[test]
fn test_add_random_alive_cells_fills_board_exactly() {
    let mut board = create_empty_board(4, 4);
    add_random_alive_cells(&mut board, 16, 9).unwrap();
    assert_eq!(count_alive_cells(&board), 16);
    let result = add_random_alive_cells(&mut board, 1, 9);
    assert_eq!(result, Err(ConfigError::AliveCellsExceedCapacity));
}

#[test]
fn test_config_error_message() {
    let mut board = create_empty_board(2, 2);
    let error = add_random_alive_cells(&mut board, 5, 0).unwrap_err();
    assert_eq!(
        error.message(),
        "the requested number of alive cells exceeds the number of dead cells on the board"
    );
}
