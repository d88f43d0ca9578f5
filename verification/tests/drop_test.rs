use puzzlefighter::board::Board;
use puzzlefighter::values::Dimension;
use puzzlefighter::values::GridPosition;

fn make_board(rows: &[&str]) -> Board {
    let mut board = Board::new(Dimension::new(10, rows.len() as u32));
    board.add_blocks(rows.iter().map(|r| r.to_string()).collect());
    board.fuse_blocks();
    board
}

fn assert_block(board: &Board, x: i8, y: i8) {
    let block = board.grid().at(GridPosition::new(x, y));

    assert!(block.is_some(), "No block at ({}, {})", x, y);
}

fn assert_no_block(board: &Board, x: i8, y: i8) {
    let block = board.grid().at(GridPosition::new(x, y));

    assert!(block.is_none(), "Block at ({}, {})", x, y);
}

#[test]
fn drop_test_drop_to_bottom() {
    let mut board = make_board(&["R", " "]);

    board.drop_blocks();

    assert_block(&board, 0, 0);
    assert_no_block(&board, 0, 1);
}

#[test]
fn drop_test_drop_on_other_block() {
    let mut board = make_board(&["R", " ", "R"]);

    board.drop_blocks();

    assert_block(&board, 0, 0);
    assert_block(&board, 0, 1);
    assert_no_block(&board, 0, 2);
}

#[test]
fn drop_test_fused_does_not_drop_unless_all_below_spaces_are_open() {
    let mut board = make_board(&["RR", "RR", "G "]);

    board.drop_blocks();
    assert_no_block(&board, 1, 0);

    let mut board = make_board(&["RR", "RR", " G"]);

    board.drop_blocks();
    assert_no_block(&board, 0, 0);
}
