use puzzlefighter::board::Board;
use puzzlefighter::values::Dimension;
use puzzlefighter::values::GridPosition;
use puzzlefighter::values::Sides;

fn make_board(rows: &[&str]) -> Board {
    let mut board = Board::new(Dimension::new(10, rows.len() as u32));
    board.add_blocks(rows.iter().map(|r| r.to_string()).collect());
    board.fuse_blocks();
    board
}

fn assert_fused(board: &Board, x: i8, y: i8, sides: Sides) {
    let block = board
        .grid()
        .at(GridPosition::new(x, y))
        .unwrap_or_else(|| panic!("No block at ({}, {})", x, y));

    assert!(block.is_fused(), "Block not fused: ({}, {})", x, y);
    assert!(
        block.borders().contains(sides),
        "Block at ({}, {}), has wrong borders: {:?}",
        x,
        y,
        block.borders()
    );
}

fn assert_not_fused(board: &Board, x: i8, y: i8) {
    let block = board
        .grid()
        .at(GridPosition::new(x, y))
        .unwrap_or_else(|| panic!("No block at ({}, {})", x, y));

    assert!(!block.is_fused(), "Block is fused: ({}, {})", x, y);
}

#[test]
fn fuse_2x2() {
    let board = make_board(&["RR", "RR"]);

    assert_fused(&board, 0, 0, Sides::bottom_left());
    assert_fused(&board, 1, 0, Sides::bottom_right());
    assert_fused(&board, 0, 1, Sides::top_left());
    assert_fused(&board, 1, 1, Sides::top_right());
}

#[test]
fn fuse_2x3() {
    let board = make_board(&["YY", "YY", "YY"]);

    assert_fused(&board, 0, 0, Sides::bottom_left());
    assert_fused(&board, 1, 0, Sides::bottom_right());
    assert_fused(&board, 0, 1, Sides::left());
    assert_fused(&board, 1, 1, Sides::right());
    assert_fused(&board, 0, 2, Sides::top_left());
    assert_fused(&board, 1, 2, Sides::top_right());
}

#[test]
fn fuse_3x2() {
    let board = make_board(&["YYY", "YYY"]);

    assert_fused(&board, 0, 0, Sides::bottom_left());
    assert_fused(&board, 1, 0, Sides::bottom());
    assert_fused(&board, 2, 0, Sides::bottom_right());
    assert_fused(&board, 0, 1, Sides::top_left());
    assert_fused(&board, 1, 1, Sides::top());
    assert_fused(&board, 2, 1, Sides::top_right());
}

#[test]
fn fuse_above_existing_2x2() {
    // We know this case will fuse from other test cases
    let mut board = make_board(&["YY", "YY"]);

    board.add_blocks(vec!["YY".to_string(), "".to_string(), "".to_string()]);
    board.fuse_blocks();

    assert_fused(&board, 0, 0, Sides::bottom_left());
    assert_fused(&board, 1, 0, Sides::bottom_right());
    assert_fused(&board, 0, 1, Sides::left());
    assert_fused(&board, 1, 1, Sides::right());
    assert_fused(&board, 0, 2, Sides::top_left());
    assert_fused(&board, 1, 2, Sides::top_right());
}

#[test]
fn fuse_below_existing_2x2() {
    // We know this case will fuse from other test cases
    let mut board = make_board(&["YY", "YY", "  "]);

    board.add_blocks(vec!["  ".to_string(), "  ".to_string(), "YY".to_string()]);
    board.fuse_blocks();

    assert_fused(&board, 0, 0, Sides::bottom_left());
    assert_fused(&board, 1, 0, Sides::bottom_right());
    assert_fused(&board, 0, 1, Sides::left());
    assert_fused(&board, 1, 1, Sides::right());
    assert_fused(&board, 0, 2, Sides::top_left());
    assert_fused(&board, 1, 2, Sides::top_right());
}

#[test]
fn fuse_to_right_of_2x2() {
    let mut board = make_board(&["YY", "YY"]);

    board.add_blocks(vec!["  Y".to_string(), "  Y".to_string()]);
    board.fuse_blocks();

    assert_fused(&board, 0, 0, Sides::bottom_left());
    assert_fused(&board, 1, 0, Sides::bottom());
    assert_fused(&board, 2, 0, Sides::bottom_right());
    assert_fused(&board, 0, 1, Sides::top_left());
    assert_fused(&board, 1, 1, Sides::top());
    assert_fused(&board, 2, 1, Sides::top_right());
}

#[test]
fn fuse_to_left_of_2x2() {
    let mut board = make_board(&[" YY", " YY"]);

    board.add_blocks(vec!["Y  ".to_string(), "Y  ".to_string()]);
    board.fuse_blocks();

    assert_fused(&board, 0, 0, Sides::bottom_left());
    assert_fused(&board, 1, 0, Sides::bottom());
    assert_fused(&board, 2, 0, Sides::bottom_right());
    assert_fused(&board, 0, 1, Sides::top_left());
    assert_fused(&board, 1, 1, Sides::top());
    assert_fused(&board, 2, 1, Sides::top_right());
}

#[test]
fn fuse_offset_2x2() {
    let board = make_board(&[" YY", " YY", "YY ", "YY "]);

    assert_fused(&board, 0, 0, Sides::bottom_left());
    assert_fused(&board, 1, 0, Sides::bottom_right());
    assert_fused(&board, 0, 1, Sides::top_left());
    assert_fused(&board, 1, 1, Sides::top_right());

    assert_fused(&board, 1, 2, Sides::bottom_left());
    assert_fused(&board, 2, 2, Sides::bottom_right());
    assert_fused(&board, 1, 3, Sides::top_left());
    assert_fused(&board, 2, 3, Sides::top_right());
}

#[test]
fn fuse_does_not_go_across_corners() {
    let mut board = make_board(&["YY  ", "YY  ", "YY  ", " YY", " YY"]);

    board.add_blocks(vec![
        "    ".to_string(),
        "  YY".to_string(),
        "  YY".to_string(),
        "    ".to_string(),
        "    ".to_string(),
    ]);
    board.fuse_blocks();

    assert_fused(&board, 1, 0, Sides::bottom_left());
    assert_fused(&board, 2, 0, Sides::bottom_right());
    assert_fused(&board, 1, 1, Sides::top_left());
    assert_fused(&board, 2, 1, Sides::top_right());

    assert_fused(&board, 0, 2, Sides::bottom_left());
    assert_fused(&board, 0, 3, Sides::left());
    assert_fused(&board, 0, 4, Sides::top_left());
    assert_fused(&board, 1, 2, Sides::bottom_right());
    assert_fused(&board, 1, 3, Sides::right());
    assert_fused(&board, 1, 4, Sides::top_right());

    assert_fused(&board, 2, 2, Sides::bottom_left());
    assert_fused(&board, 3, 2, Sides::bottom_right());
    assert_fused(&board, 2, 3, Sides::top_left());
    assert_fused(&board, 3, 3, Sides::top_right());
}

#[test]
fn fuse_l_shape_favours_horizontal() {
    let board = make_board(&["YY ", "YYY", "YYY"]);

    assert_fused(&board, 0, 0, Sides::bottom_left());
    assert_fused(&board, 1, 0, Sides::bottom());
    assert_fused(&board, 2, 0, Sides::bottom_right());
    assert_fused(&board, 0, 1, Sides::top_left());
    assert_fused(&board, 1, 1, Sides::top());
    assert_fused(&board, 2, 1, Sides::top_right());
}

#[test]
fn fuse_on_top_of_existing_3x2() {
    // We know this case will fuse from other test cases
    let mut board = make_board(&["YYY", "YYY"]);

    board.add_blocks(vec!["YYY".to_string(), "".to_string(), "".to_string()]);
    board.fuse_blocks();

    assert_fused(&board, 0, 0, Sides::bottom_left());
    assert_fused(&board, 1, 0, Sides::bottom());
    assert_fused(&board, 2, 0, Sides::bottom_right());
    assert_fused(&board, 0, 1, Sides::left());
    assert_fused(&board, 1, 1, Sides::none());
    assert_fused(&board, 2, 1, Sides::right());
    assert_fused(&board, 0, 2, Sides::top_left());
    assert_fused(&board, 1, 2, Sides::top());
    assert_fused(&board, 2, 2, Sides::top_right());
}

#[test]
fn different_colors_do_not_fuse() {
    let board = make_board(&["GR", "RR"]);

    assert_not_fused(&board, 0, 0);
    assert_not_fused(&board, 1, 0);
    assert_not_fused(&board, 0, 1);
    assert_not_fused(&board, 1, 1);
}

#[test]
fn non_blocks_do_not_fuse() {
    let board = make_board(&[" G", "GG"]);

    assert_not_fused(&board, 0, 0);
    assert_not_fused(&board, 1, 0);
    assert_not_fused(&board, 1, 1);
}

#[test]
fn breakers_do_not_fuse() {
    let board = make_board(&["Gg", "GG"]);

    assert_not_fused(&board, 0, 0);
    assert_not_fused(&board, 1, 0);
    assert_not_fused(&board, 0, 1);
    assert_not_fused(&board, 1, 1);
}
