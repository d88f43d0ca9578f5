use puzzlefighter::block_grid::BlockGrid;
use puzzlefighter::board::Board;
use puzzlefighter::values::Block;
use puzzlefighter::values::Color;
use puzzlefighter::values::Dimension;
use puzzlefighter::values::Direction;
use puzzlefighter::values::GridPosition;
use puzzlefighter::values::Piece;
use puzzlefighter::values::PositionedBlock;
use puzzlefighter::values::Rotation;
use puzzlefighter::values::Sides;

fn make_board(rows: &[&str]) -> Board {
    let mut board = Board::new(Dimension::new(10, rows.len() as u32));
    board.add_blocks(rows.iter().map(|r| r.to_string()).collect());
    board.fuse_blocks();
    board
}

fn color_at(board: &Board, x: i8, y: i8) -> Color {
    board
        .grid()
        .at(GridPosition::new(x, y))
        .unwrap_or_else(|| panic!("No block at ({}, {})", x, y))
        .color()
}

fn age_at(board: &Board, x: i8, y: i8) -> u8 {
    board
        .grid()
        .at(GridPosition::new(x, y))
        .unwrap_or_else(|| panic!("No block at ({}, {})", x, y))
        .age()
}

// A freshly fused 2x2 carries exactly the four corner border values.
#[test]
fn fuse_2x2_exact_corners() {
    let board = make_board(&["RR", "RR"]);

    let at = |x: i8, y: i8| {
        board
            .grid()
            .at(GridPosition::new(x, y))
            .unwrap()
            .borders()
    };
    assert_eq!(at(0, 0), Sides::bottom_left());
    assert_eq!(at(1, 0), Sides::bottom_right());
    assert_eq!(at(0, 1), Sides::top_left());
    assert_eq!(at(1, 1), Sides::top_right());
}

// Breaking a 2x2 compound through an adjacent breaker is worth
// floor(w*h*min(w,h) / 2) * (combo_depth + 1) strength.
#[test]
fn break_scores_compound() {
    let mut board = make_board(&["GG ", "GGg"]);

    let depth = board.break_blocks(0);

    // contribution 2*2*2 = 8; halved, times (0 + 1)
    assert_eq!(board.strength(), 4);
    assert_eq!(depth, 1);
    for (x, y) in [(0, 0), (1, 0), (0, 1), (1, 1), (2, 0)] {
        assert!(board.grid().at(GridPosition::new(x, y)).is_none());
    }
}

// The same break one combo level deeper scores double.
#[test]
fn break_scores_scale_with_combo_depth() {
    let mut board = make_board(&["GG ", "GGg"]);

    board.break_blocks(1);

    assert_eq!(board.strength(), 8);
}

// Standalone blocks contribute one each; the breaker itself nothing.
#[test]
fn break_scores_singles() {
    let mut board = make_board(&["   ", "RRr"]);

    // three cells in a row cannot fuse; the two solid reds chain
    board.break_blocks(0);

    // contribution 1 + 1 = 2; halved = 1
    assert_eq!(board.strength(), 1);
}

// A breaker with no matching neighbor breaks nothing.
#[test]
fn lone_breaker_is_noop() {
    let mut board = make_board(&["Rg", "BY"]);

    let depth = board.break_blocks(0);

    assert_eq!(depth, 0);
    assert_eq!(board.strength(), 0);
    assert!(board.grid().at(GridPosition::new(1, 0)).is_some());
}

// Drive one full piece cycle: spawn a known red/green piece, let it
// fall `falls` rows and lock, settle, pass through AgeAndAttack (which
// applies one queued attack), and settle again back to NewPiece.
fn run_piece_cycle(board: &mut Board, enemy: &mut Board, falls: usize) {
    board.set_next_piece(Piece::new(
        Block::new(Color::Red, false),
        Block::new(Color::Green, false),
    ));
    board.update(0, enemy, true); // NewPiece -> PieceFalling
    board.turbo(true);
    for _ in 0..falls {
        board.update(100, enemy, true); // one gravity step each
    }
    board.update(100, enemy, true); // blocked, inside the grace window
    board.update(100, enemy, true); // grace passed: the piece locks
    board.update(0, enemy, true); // settle -> AgeAndAttack
    board.update(0, enemy, true); // age, apply one attack -> settling
    board.update(0, enemy, true); // settle -> NewPiece
}

// Issuing attack(6) and advancing through AgeAndAttack places exactly
// six garbage blocks following the four-color repeating template.
#[test]
fn attack_places_six_garbage_blocks() {
    let mut board = Board::new(Dimension::new(6, 4));
    let mut enemy = Board::new(Dimension::new(6, 4));

    board.attack(6);
    run_piece_cycle(&mut board, &mut enemy, 4);

    // the locked piece occupies column 3
    assert_eq!(color_at(&board, 3, 0), Color::Red);
    assert_eq!(color_at(&board, 3, 1), Color::Green);
    assert_eq!(age_at(&board, 3, 0), 0);

    // six garbage blocks, first template row, all red, aged three
    for x in [0, 1, 2, 4, 5] {
        assert_eq!(color_at(&board, x, 0), Color::Red);
        assert_eq!(age_at(&board, x, 0), 3);
    }
    assert_eq!(color_at(&board, 3, 2), Color::Red);
    assert_eq!(age_at(&board, 3, 2), 3);
}

// Successive attacks fall in from alternating sides.
#[test]
fn attacks_alternate_sides() {
    let mut board = Board::new(Dimension::new(6, 4));
    let mut enemy = Board::new(Dimension::new(6, 4));

    board.attack(2);
    run_piece_cycle(&mut board, &mut enemy, 4);

    // first attack comes in mirrored: rightmost columns first
    assert_eq!(age_at(&board, 5, 0), 3);
    assert_eq!(age_at(&board, 4, 0), 3);
    assert!(board.grid().at(GridPosition::new(0, 0)).is_none());

    // queue another; the piece now rests two rows higher
    board.attack(2);
    run_piece_cycle(&mut board, &mut enemy, 2);

    // second attack fills from the left; the first batch aged a tick
    assert_eq!(age_at(&board, 0, 0), 3);
    assert_eq!(age_at(&board, 1, 0), 3);
    assert!(age_at(&board, 5, 0) < 3);
    assert!(age_at(&board, 4, 0) < 3);
}

// A resting block drops to its own position.
#[test]
fn bottom_of_resting_block_is_itself() {
    let mut grid = BlockGrid::new(Dimension::new(5, 3));
    let pb = PositionedBlock::new(Block::new(Color::Red, false), GridPosition::new(2, 0));
    grid.set(pb);

    let r = grid.bottom(pb);
    assert_eq!(r.position(), GridPosition::new(2, 0));

    let above = PositionedBlock::new(Block::new(Color::Blue, false), GridPosition::new(2, 5));
    let rest = grid.bottom(above);
    assert_eq!(rest.position(), GridPosition::new(2, 1));
}

#[test]
fn texture_names() {
    let plain = Block::new(Color::Blue, false);
    assert_eq!(plain.to_texture_name().as_str(), "blue.png");

    let breaker = Block::new(Color::Red, true);
    assert_eq!(breaker.to_texture_name().as_str(), "red_breaker.png");

    let aged = Block::new_with_age(Color::Green, 2);
    assert_eq!(aged.to_texture_name().as_str(), "green_2.png");

    let old = Block::new_with_age(Color::Green, 9);
    assert_eq!(old.to_texture_name().as_str(), "grey.png");

    let fused = PositionedBlock::new(Block::new(Color::Yellow, false), GridPosition::new(0, 0))
        .fuse(Sides::bottom_left());
    assert_eq!(fused.to_texture_name().as_str(), "yellow_bl.png");
}

#[test]
fn garbage_ages_down_to_zero() {
    let pb = PositionedBlock::new(Block::new_with_age(Color::Red, 2), GridPosition::new(0, 0));
    let pb = pb.do_age();
    assert_eq!(pb.age(), 1);
    assert!(!pb.is_breakable());
    let pb = pb.do_age();
    assert_eq!(pb.age(), 0);
    assert!(pb.is_breakable());
    let pb = pb.do_age();
    assert_eq!(pb.age(), 0);
}

#[test]
fn fuse_eligibility_rules() {
    let red = PositionedBlock::new(Block::new(Color::Red, false), GridPosition::new(0, 0));
    let red2 = PositionedBlock::new(Block::new(Color::Red, false), GridPosition::new(1, 0));
    let green = PositionedBlock::new(Block::new(Color::Green, false), GridPosition::new(1, 0));
    let breaker = PositionedBlock::new(Block::new(Color::Red, true), GridPosition::new(1, 0));
    let aged = PositionedBlock::new(Block::new_with_age(Color::Red, 3), GridPosition::new(1, 0));

    assert!(red.can_fuse_with(red2));
    assert!(!red.can_fuse_with(green));
    assert!(!red.can_fuse_with(breaker));
    assert!(!red.can_fuse_with(aged));
}

// A piece facing down yields its blocks bottom first.
#[test]
fn piece_blocks_ordered_bottom_up() {
    let b1 = Block::new(Color::Red, false);
    let b2 = Block::new(Color::Green, false);
    let piece = Piece::new(b1, b2).dup_to(GridPosition::new(2, 2), Direction::Down);

    let blocks = piece.blocks();
    assert_eq!(blocks[0].position(), GridPosition::new(2, 1));
    assert_eq!(blocks[1].position(), GridPosition::new(2, 2));

    let up = piece.dup_to(GridPosition::new(2, 2), Direction::Up);
    let blocks = up.blocks();
    assert_eq!(blocks[0].position(), GridPosition::new(2, 2));
    assert_eq!(blocks[1].position(), GridPosition::new(2, 3));
}

// A blocked move is rejected and leaves the piece alone.
#[test]
fn blocked_moves_are_rejected() {
    let mut board = make_board(&["  ", "R "]);
    board.set_current_piece(Piece::rand(1, 0));

    assert!(!board.move_piece(|p| p.offset(Direction::Left)));
    assert!(!board.move_piece(|p| p.offset(Direction::Down)));
    assert!(board.move_piece(|p| p.offset(Direction::Up)));
    assert_eq!(board.current_piece().unwrap().position, GridPosition::new(1, 1));
}

// Drop events carry the start and rest cell; the queue drains once.
#[test]
fn drop_emits_consumable_events() {
    let mut board = make_board(&["R", " "]);

    board.drop_blocks();

    let events = board.consume_events();
    assert_eq!(events.len(), 1);
    match events[0] {
        puzzlefighter::values::BlockEvent::Drop(from, to) => {
            assert_eq!(from.position(), GridPosition::new(0, 1));
            assert_eq!(to.position(), GridPosition::new(0, 0));
        },
        _ => panic!("expected a drop event"),
    }
    assert_eq!(board.consume_events().len(), 0);
}

// Text loading maps uppercase to solid blocks, lowercase to breakers.
#[test]
fn add_blocks_parses_colors_and_breakers() {
    let board = make_board(&["        ", "RGBYrgby"]);

    let expect = [
        (0, Color::Red, false),
        (1, Color::Green, false),
        (2, Color::Blue, false),
        (3, Color::Yellow, false),
        (4, Color::Red, true),
        (5, Color::Green, true),
        (6, Color::Blue, true),
        (7, Color::Yellow, true),
    ];
    for (x, color, breaker) in expect {
        let pb = board.grid().at(GridPosition::new(x, 0)).unwrap();
        assert_eq!(pb.color(), color);
        assert_eq!(pb.breaker(), breaker);
        assert_eq!(pb.age(), 0);
    }
}

// A full rotation cycle returns to the original facing.
#[test]
fn rotation_cycles() {
    assert_eq!(
        Direction::Up.rotate(Rotation::Clockwise).rotate(Rotation::Clockwise)
            .rotate(Rotation::Clockwise).rotate(Rotation::Clockwise),
        Direction::Up
    );
    assert_eq!(Rotation::Clockwise.reverse(), Rotation::AntiClockwise);
    assert_eq!(Direction::Left.to_side(), Sides::left());
}
