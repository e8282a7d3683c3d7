use game_of_life::rules::{count_alive_neighbours, evolve_board, evolve_cell};

#[test]
fn test_count_alive_neighbours() {
    let board = vec![
        vec![0, 0, 1, 0],
        vec![0, 1, 1, 0],
        vec![0, 0, 1, 1],
        vec![0, 0, 0, 0],
    ];
    assert_eq!(4, count_alive_neighbours(1, 2, &board));
}

#[test]
fn test_count_alive_neighbours_edge_1() {
    let board = vec![
        vec![0, 0, 1, 0],
        vec![0, 1, 1, 0],
        vec![0, 0, 1, 1],
        vec![0, 0, 0, 0],
    ];
    assert_eq!(2, count_alive_neighbours(3, 2, &board));
}

#[test]
fn test_count_alive_neighbours_edge_2() {
    let board = vec![
        vec![0, 0, 1, 0],
        vec![0, 1, 1, 0],
        vec![0, 0, 1, 1],
        vec![0, 0, 0, 0],
    ];
    assert_eq!(2, count_alive_neighbours(3, 2, &board));
}

#[test]
fn test_evolve_cell_underpopulation() {
    let board = vec![vec![0, 1, 0], vec![0, 1, 0], vec![0, 0, 0]];
    assert_eq!(0, evolve_cell(1, 1, &board));
}

#[test]
fn test_evolve_cell_overpopulation() {
    let board = vec![vec![0, 1, 0], vec![1, 1, 1], vec![0, 1, 0]];
    assert_eq!(0, evolve_cell(1, 1, &board));
}

#[test]
fn test_evolve_cell_survival() {
    let board = vec![vec![0, 1, 0], vec![0, 1, 1], vec![0, 1, 0]];
    assert_eq!(1, evolve_cell(1, 1, &board));
}

#[test]
fn test_evolve_cell_reproduction() {
    let board = vec![vec![0, 1, 0], vec![0, 0, 1], vec![0, 1, 0]];
    assert_eq!(1, evolve_cell(1, 1, &board));
}

#[test]
fn test_evolve_board() {
    let initial_state = vec![
        vec![1, 0, 0, 0, 1],
        vec![0, 1, 1, 0, 1],
        vec![0, 1, 1, 0, 0],
        vec![0, 1, 1, 0, 1],
        vec![1, 1, 0, 1, 1],
    ];
    let board_2_ground_truth = vec![
        vec![0, 1, 0, 1, 0],
        vec![1, 0, 1, 0, 0],
        vec![1, 0, 0, 0, 0],
        vec![0, 0, 0, 0, 1],
        vec![1, 1, 0, 1, 1],
    ];

    let board_3_ground_truth = vec![
        vec![0, 1, 1, 0, 0],
        vec![1, 0, 1, 0, 0],
        vec![0, 1, 0, 0, 0],
        vec![1, 1, 0, 1, 1],
        vec![0, 0, 0, 1, 1],
    ];
    let board_4_ground_truth = vec![
        vec![0, 1, 1, 0, 0],
        vec![1, 0, 1, 0, 0],
        vec![0, 0, 0, 1, 0],
        vec![1, 1, 0, 1, 1],
        vec![0, 0, 1, 1, 1],
    ];

    let board_2 = evolve_board(initial_state);
    assert_eq!(board_2_ground_truth, board_2);
    let board_3 = evolve_board(board_2);
    assert_eq!(board_3_ground_truth, board_3);
    let board_4 = evolve_board(board_3);
    assert_eq!(board_4_ground_truth, board_4);
}

#[test]
fn test_count_alive_neighbours_corner() {
    let board = vec![vec![1, 1, 0], vec![1, 1, 0], vec![0, 0, 0]];
    assert_eq!(3, count_alive_neighbours(0, 0, &board));
}

#[test]
fn test_count_alive_neighbours_full_neighbourhood() {
    let board = vec![vec![1, 1, 1], vec![1, 0, 1], vec![1, 1, 1]];
    assert_eq!(8, count_alive_neighbours(1, 1, &board));
}

#[test]
fn test_evolve_board_keeps_dimensions() {
    let board = vec![vec![0, 1], vec![1, 0], vec![1, 1]];
    let next = evolve_board(board);
    assert_eq!(next.len(), 3);
    for row in &next {
        assert_eq!(row.len(), 2);
    }
}
