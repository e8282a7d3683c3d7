use game_of_life::display::{create_frame, frame_pixels, render_board, render_row};

#[test]
fn test_render_row_glyphs() {
    let row = vec![0, 1, 1, 0];
    assert_eq!(render_row(&row), " OO ");
}

#[test]
fn test_render_board_lines() {
    let board = vec![vec![0, 1], vec![1, 0]];
    let lines = render_board(&board);
    assert_eq!(lines, vec![" O".to_string(), "O ".to_string()]);
}

#[test]
fn test_render_board_idempotent() {
    let board = vec![vec![1, 0, 1], vec![0, 1, 0], vec![1, 1, 0]];
    let first = render_board(&board);
    let second = render_board(&board);
    assert_eq!(first, second);
}

#[test]
fn test_frame_pixels_colours_and_layout() {
    let board = vec![vec![1, 0], vec![0, 1]];
    let pixels = frame_pixels(&board);
    assert_eq!(
        pixels,
        vec![255, 255, 255, 0, 0, 0, 0, 0, 0, 255, 255, 255]
    );
}

#[test]
fn test_frame_pixels_swaps_axes() {
    let board = vec![vec![0, 1], vec![0, 0]];
    let pixels = frame_pixels(&board);
    // cell (row 0, column 1) must appear at pixel (x = 1, y = 0)
    assert_eq!(pixels, vec![0, 0, 0, 255, 255, 255, 0, 0, 0, 0, 0, 0]);
}

#[test]
fn test_create_frame_dimensions() {
    let board = vec![vec![1, 0], vec![0, 1]];
    let frame = create_frame(&board);
    assert_eq!(frame.width, 2);
    assert_eq!(frame.height, 2);
}

#[test]
fn test_create_frame_idempotent() {
    let board = vec![vec![1, 0, 0], vec![0, 1, 0], vec![0, 0, 1]];
    let first = create_frame(&board);
    let second = create_frame(&board);
    assert_eq!(first.width, second.width);
    assert_eq!(first.height, second.height);
    assert_eq!(first.buffer, second.buffer);
    assert_eq!(first.palette, second.palette);
}

#[test]
fn test_create_frame_reflects_board() {
    let left = create_frame(&vec![vec![1, 0], vec![0, 0]]);
    let right = create_frame(&vec![vec![0, 1], vec![0, 0]]);
    assert_eq!(left.palette, right.palette);
    assert_ne!(left.buffer, right.buffer);
}
