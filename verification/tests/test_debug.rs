use puzzlefighter::board::Board;
use puzzlefighter::values::Dimension;

fn make_board(rows: &[&str]) -> Board {
    let mut board = Board::new(Dimension::new(10, rows.len() as u32));
    board.add_blocks(rows.iter().map(|r| r.to_string()).collect());
    board.fuse_blocks();
    board
}

#[test]
fn test_debug() {
    let board = make_board(&[" ", "RRYYBBGG", "RRYYBBGG", "RGBYrgby"]);

    let lines = board.debug();
    // one line per storage row (twice the visible height), full width
    assert_eq!(lines.len(), 8);
    for line in &lines {
        assert_eq!(line.chars().count(), 10);
    }
    // empty headroom, fused corner glyphs, standalone blocks
    assert_eq!(lines[0].as_str(), "          ");
    assert_eq!(lines[5].as_str(), "F7F7F7F7  ");
    assert_eq!(lines[6].as_str(), "LJLJLJLJ  ");
    assert_eq!(lines[7].as_str(), "XXXXXXXX  ");
}
