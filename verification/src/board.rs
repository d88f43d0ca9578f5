//! The top-level game state machine: one player's board.
//!
//! A board owns its grid, the current and next falling piece, the
//! queue of pending garbage attacks, the strength accumulated by
//! breaking blocks, and the queue of events that the rendering
//! collaborator drains. One call to `update` advances at most one
//! phase transition: NewPiece, PieceFalling, Settling, AgeAndAttack.

use vstd::prelude::*;
use vstd::string::StrSliceExecFns;

use crate::block_grid::BlockGrid;
use crate::block_grid::GridModel;
use crate::block_grid::lemma_set_block;
use crate::values::Block;
use crate::values::BlockEvent;
use crate::values::Color;
use crate::values::Dimension;
use crate::values::Direction;
use crate::values::GridPosition;
use crate::values::Piece;
use crate::values::PositionedBlock;
use crate::values::Rotation;
use crate::values::Sides;

verus! {

/// How many floor kicks one piece may use over its lifetime.
pub const MAX_FLOOR_KICKS: u8 = 1;

/// Milliseconds between gravity steps at normal speed.
pub const SLOW_SPEED_MS: u64 = 800;

/// Grace period before a blocked piece locks into the grid.
pub const DROP_WAIT_MS: u64 = 150;

/// Milliseconds between gravity steps with turbo engaged.
pub const TURBO_SPEED_MS: u64 = 50;

/// The update phase a board is in.
#[derive(Copy, Clone, Debug)]
pub enum Phase {
    /// Promote the queued piece to current and draw a new one.
    NewPiece,
    /// The current piece is falling under player control.
    PieceFalling,
    /// Age garbage counters and apply one queued attack.
    AgeAndAttack,
    /// Resolve gravity, fusing and breaking; the payload is the combo
    /// depth so far and whether an AgeAndAttack phase is still owed.
    Settling(u32, bool),
}

/// The mathematical model of a queued attack.
pub struct AttackModel {
    pub pattern: GridModel,
    pub sprinkles: u32,
}

/// A pending garbage drop: a color template and how many garbage
/// blocks to materialize from it.
pub struct Attack {
    strike_pattern: BlockGrid,
    sprinkles: u32,
}

impl View for Attack {
    type V = AttackModel;

    closed spec fn view(&self) -> AttackModel {
        AttackModel { pattern: self.strike_pattern@, sprinkles: self.sprinkles }
    }
}

/// The color of the garbage template's row `y`, bottom row first.
pub open spec fn ken_color(y: int) -> Color {
    if y == 0 {
        Color::Red
    } else if y == 1 {
        Color::Green
    } else if y == 2 {
        Color::Blue
    } else {
        Color::Yellow
    }
}

fn ken_color_of(y: u32) -> (c: Color)
    ensures
        c == ken_color(y as int),
{
    if y == 0 {
        Color::Red
    } else if y == 1 {
        Color::Green
    } else if y == 2 {
        Color::Blue
    } else {
        Color::Yellow
    }
}

/// A well-formed strike pattern for a board `w` wide: a four-row
/// template whose row colors follow the classic garbage pattern.
pub open spec fn pattern_wf(p: GridModel, w: int) -> bool {
    &&& p.wf()
    &&& p.width == w
    &&& p.height == 8
    &&& forall|x: int, y: int|
        0 <= x < w && 0 <= y < 4 ==> match #[trigger] p.at(x, y) {
            Some(pb) => pb.block.color == ken_color(y) && pb.block.age == 0
                && !pb.block.breaker,
            None => false,
        }
}

/// A queued attack fits its board: its template spans the board's
/// width and its sprinkle count fits the headroom above the field.
pub open spec fn attack_wf(a: AttackModel, dims: Dimension) -> bool {
    &&& pattern_wf(a.pattern, dims.w as int)
    &&& a.sprinkles <= dims.w * dims.h
}

/// Build the garbage color template for a board `w` columns wide.
fn build_strike_pattern(w: u32) -> (r: BlockGrid)
    requires
        4 <= w <= 127,
    ensures
        pattern_wf(r@, w as int),
{
    let mut grid = BlockGrid::new(Dimension::new(w, 4));
    let mut y: u32 = 0;
    while y < 4
        invariant
            y <= 4,
            grid.wf(),
            grid@.width == w as int,
            grid@.height == 8,
            4 <= w <= 127,
            forall|xx: int, yy: int|
                0 <= xx < w as int && 0 <= yy < y as int ==> match #[trigger] grid@.at(xx, yy) {
                    Some(pb) => pb.block.color == ken_color(yy) && pb.block.age == 0
                        && !pb.block.breaker,
                    None => false,
                },
        decreases 4 - y,
    {
        let color = ken_color_of(y);
        let mut x: u32 = 0;
        while x < w
            invariant
                x <= w,
                y < 4,
                grid.wf(),
                grid@.width == w as int,
                grid@.height == 8,
                4 <= w <= 127,
                color == ken_color(y as int),
                forall|xx: int, yy: int|
                    0 <= xx < w as int && 0 <= yy < y as int ==> match #[trigger] grid@.at(
                        xx,
                        yy,
                    ) {
                        Some(pb) => pb.block.color == ken_color(yy) && pb.block.age == 0
                            && !pb.block.breaker,
                        None => false,
                    },
                forall|xx: int|
                    0 <= xx < x as int ==> match #[trigger] grid@.at(xx, y as int) {
                        Some(pb) => pb.block.color == ken_color(y as int) && pb.block.age == 0
                            && !pb.block.breaker,
                        None => false,
                    },
            decreases w - x,
        {
            let ghost g_before = grid@;
            let block = Block::new(color, false);
            let pb = PositionedBlock::new(block, GridPosition::new(x as i8, y as i8));
            proof {
                lemma_set_block(g_before, pb);
            }
            grid.set(pb);
            x = x + 1;
        }
        y = y + 1;
    }
    grid
}

/// What one materialized attack looks like: one garbage block per
/// sprinkle, in the column and headroom row the drop pattern assigns
/// it, colored from the template, aged three ticks, standalone.
pub open spec fn attack_blocks_ok(
    bs: Seq<PositionedBlock>,
    a: AttackModel,
    dims: Dimension,
    attack_from_left: bool,
) -> bool {
    &&& bs.len() == a.sprinkles
    &&& forall|i: int|
        0 <= i < bs.len() ==> {
            let pb = #[trigger] bs[i];
            &&& pb.position.x as int == Attack::attack_x(dims, attack_from_left, i)
            &&& pb.position.y as int == Attack::attack_y(dims, i)
            &&& pb.block.age == 3
            &&& !pb.block.breaker
            &&& pb.block.borders == Sides::spec_all()
            &&& match a.pattern.at(
                Attack::attack_x(dims, attack_from_left, i),
                (i / (dims.w as int)) % 4,
            ) {
                Some(t) => pb.block.color == t.block.color,
                None => false,
            }
        }
}

impl Attack {
    /// A pending attack of `size` garbage blocks drawn from the given
    /// color template.
    pub fn sprinkles(strike_pattern: BlockGrid, size: u32) -> (r: Self)
        ensures
            r@.pattern == strike_pattern@,
            r@.sprinkles == size,
    {
        Attack { strike_pattern, sprinkles: size }
    }

    /// The column a sprinkle lands in: sprinkles fill columns left to
    /// right, mirrored when the attack comes from the right.
    pub open spec fn attack_x(dims: Dimension, attack_from_left: bool, i: int) -> int {
        let xr = i % (dims.w as int);
        if attack_from_left {
            xr
        } else {
            dims.w - xr - 1
        }
    }

    /// The row a sprinkle materializes in: just above the visible
    /// field, one row per full board width of sprinkles.
    pub open spec fn attack_y(dims: Dimension, i: int) -> int {
        i / (dims.w as int) + dims.h
    }

    /// Materialize the attack: one fresh garbage block per sprinkle,
    /// colored from the template row by row, aged three ticks so it
    /// cannot be destroyed at once, placed above the visible field.
    pub fn apply(&self, dimensions: Dimension, attack_from_left: bool) -> (r: Vec<
        PositionedBlock,
    >)
        requires
            attack_wf(self@, dimensions),
            4 <= dimensions.w <= 127,
            2 <= dimensions.h <= 63,
        ensures
            attack_blocks_ok(r@, self@, dimensions, attack_from_left),
    {
        let mut attack: Vec<PositionedBlock> = Vec::new();
        let w = dimensions.w();
        let h = dimensions.h();
        let mut i: u32 = 0;
        while i < self.sprinkles
            invariant
                i <= self@.sprinkles,
                attack_wf(self@, dimensions),
                4 <= w <= 127,
                2 <= h <= 63,
                w == dimensions.w,
                h == dimensions.h,
                attack@.len() == i as int,
                forall|j: int|
                    0 <= j < i as int ==> {
                        let pb = #[trigger] attack@[j];
                        &&& pb.position.x as int == Self::attack_x(
                            dimensions,
                            attack_from_left,
                            j,
                        )
                        &&& pb.position.y as int == Self::attack_y(dimensions, j)
                        &&& pb.block.age == 3
                        &&& !pb.block.breaker
                        &&& pb.block.borders == Sides::spec_all()
                        &&& match self@.pattern.at(
                            Self::attack_x(dimensions, attack_from_left, j),
                            (j / (dimensions.w as int)) % 4,
                        ) {
                            Some(t) => pb.block.color == t.block.color,
                            None => false,
                        }
                    },
            decreases self@.sprinkles - i,
        {
            let xr = i % w;
            let x = if attack_from_left {
                xr
            } else {
                w - xr - 1
            };
            let cy = (i / w) % 4;
            proof {
                assert(i as int % w as int == xr as int);
                assert(i as int / w as int == (i / w) as int);
                assert(i as int / w as int <= h as int - 1) by (nonlinear_arith)
                    requires
                        w as int >= 1,
                        0 <= i as int,
                        (i as int) < (w as int) * (h as int),
                ;
                assert(i as int / w as int >= 0) by (nonlinear_arith)
                    requires
                        w as int >= 1,
                        0 <= i as int,
                ;
            }
            let cell = self.strike_pattern.at(GridPosition::new(x as i8, cy as i8));
            let color = match cell {
                Some(t) => t.color(),
                None => {
                    proof {
                        assert(false);
                    }
                    Color::Red
                },
            };
            let block = Block::new_with_age(color, 3);
            let position = GridPosition::new(x as i8, (i / w + h) as i8);
            let pb = PositionedBlock::new(block, position);
            attack.push(pb);
            i = i + 1;
        }
        attack
    }
}


/// What queueing an attack of the given strength leaves behind: for
/// zero strength nothing, otherwise one new pending attack whose
/// template spans the board and whose sprinkle count is the strength,
/// capped to what the headroom above the field can hold.
pub open spec fn attack_queued(pre: BoardModel, post: BoardModel, strength: u32) -> bool {
    if strength == 0 {
        post == pre
    } else {
        &&& post == (BoardModel { attacks: post.attacks, ..pre })
        &&& post.attacks.len() == pre.attacks.len() + 1
        &&& forall|k: int| 0 <= k < pre.attacks.len() ==> post.attacks[k] == pre.attacks[k]
        &&& pattern_wf(post.attacks.last().pattern, pre.dimensions.w as int)
        &&& post.attacks.last().sprinkles == if strength < pre.dimensions.w * pre.dimensions.h {
            strength
        } else {
            (pre.dimensions.w * pre.dimensions.h) as u32
        }
    }
}

/// The mathematical model of a whole board.
pub struct BoardModel {
    pub dimensions: Dimension,
    pub grid: GridModel,
    pub attacks: Seq<AttackModel>,
    pub strength: u32,
    pub attack_from_left: bool,
    pub step_accumulator: u64,
    pub speed: u64,
    pub current_piece: Option<Piece>,
    pub next_piece: Option<Piece>,
    pub phase: Phase,
    pub events: Seq<BlockEvent>,
}

impl BoardModel {
    /// A piece the board can hold: both of its cells lie inside the
    /// grid and its floor-kick budget is not overdrawn.
    pub open spec fn piece_ok(g: GridModel, p: Piece) -> bool {
        &&& p.position.can_offset(p.direction)
        &&& g.in_bounds(p.position.x as int, p.position.y as int)
        &&& g.in_bounds(
            p.position.spec_offset(p.direction).x as int,
            p.position.spec_offset(p.direction).y as int,
        )
        &&& p.floor_kicks <= MAX_FLOOR_KICKS
    }

    /// Everything a well-formed board asks, except that a next piece
    /// need not be queued yet (it is, from construction on).
    pub open spec fn wf_core(self) -> bool {
        &&& 4 <= self.dimensions.w <= 127
        &&& 2 <= self.dimensions.h <= 63
        &&& self.grid.wf()
        &&& self.grid.width == self.dimensions.w as int
        &&& self.grid.height == 2 * self.dimensions.h as int
        &&& match self.current_piece {
            Some(p) => Self::piece_ok(self.grid, p),
            None => true,
        }
        &&& match self.next_piece {
            Some(p) => Self::piece_ok(self.grid, p),
            None => true,
        }
        &&& forall|k: int|
            0 <= k < self.attacks.len() ==> attack_wf(#[trigger] self.attacks[k], self.dimensions)
    }

    pub open spec fn wf(self) -> bool {
        self.wf_core() && self.next_piece is Some
    }
}

/// One player's board: the grid, the falling pieces, pending attacks,
/// accumulated strength and the queue of emitted events.
pub struct Board {
    dimensions: Dimension,
    grid: BlockGrid,
    attacks: Vec<Attack>,
    strength: u32,
    attack_from_left: bool,
    step_accumulator: u64,
    speed: u64,
    current_piece: Option<Piece>,
    next_piece: Option<Piece>,
    phase: Phase,
    pub events: Vec<BlockEvent>,
}

impl View for Board {
    type V = BoardModel;

    closed spec fn view(&self) -> BoardModel {
        BoardModel {
            dimensions: self.dimensions,
            grid: self.grid@,
            attacks: self.attacks@.map_values(|a: Attack| a@),
            strength: self.strength,
            attack_from_left: self.attack_from_left,
            step_accumulator: self.step_accumulator,
            speed: self.speed,
            current_piece: self.current_piece,
            next_piece: self.next_piece,
            phase: self.phase,
            events: self.events@,
        }
    }
}

/// The block a board-loading character stands for: an uppercase color
/// letter is a solid block, lowercase a breaker, anything else empty.
pub open spec fn char_block(c: char) -> Option<(Color, bool)> {
    if c == 'R' {
        Some((Color::Red, false))
    } else if c == 'G' {
        Some((Color::Green, false))
    } else if c == 'B' {
        Some((Color::Blue, false))
    } else if c == 'Y' {
        Some((Color::Yellow, false))
    } else if c == 'r' {
        Some((Color::Red, true))
    } else if c == 'g' {
        Some((Color::Green, true))
    } else if c == 'b' {
        Some((Color::Blue, true))
    } else if c == 'y' {
        Some((Color::Yellow, true))
    } else {
        None
    }
}

/// Whether a cell of the loaded grid matches what loading `lines`
/// over `gold` should leave there: a fresh block where a block
/// character addressed the cell, the old occupant everywhere else.
pub open spec fn loaded_cell_ok(
    gnew: GridModel,
    gold: GridModel,
    lines: Seq<String>,
    x: int,
    y: int,
) -> bool {
    let n = lines.len() as int;
    let r = n - 1 - y;
    if 0 <= y < n && 0 <= x < lines[r]@.len() && char_block(lines[r]@[x]) is Some {
        match gnew.at(x, y) {
            Some(pb) => {
                let cb = char_block(lines[r]@[x]).unwrap();
                pb.block.color == cb.0 && pb.block.breaker == cb.1 && pb.block.age == 0
                    && pb.block.borders == Sides::spec_all()
            },
            None => false,
        }
    } else {
        gnew.at(x, y) == gold.at(x, y)
    }
}

impl Board {
    pub open spec fn wf(&self) -> bool {
        self@.wf()
    }

    /// A fresh board with an empty field and a queued first piece.
    /// The width must cover the piece spawn column and the height
    /// leave headroom for a vertical piece above the field.
    pub fn new(dimensions: Dimension) -> (r: Board)
        requires
            4 <= dimensions.w <= 127,
            2 <= dimensions.h <= 63,
        ensures
            r.wf(),
            r@.dimensions == dimensions,
            forall|x: int, y: int| #[trigger] r@.grid.at(x, y) is None,
            r@.attacks.len() == 0,
            r@.strength == 0,
            r@.attack_from_left == false,
            r@.step_accumulator == 0,
            r@.speed == SLOW_SPEED_MS,
            r@.current_piece is None,
            r@.next_piece matches Some(p) && p.position == (GridPosition { x: 0, y: 0 })
                && p.direction == Direction::Up && p.floor_kicks == 0,
            r@.phase is NewPiece,
            r@.events.len() == 0,
    {
        let mut board = Board {
            dimensions,
            step_accumulator: 0,
            speed: SLOW_SPEED_MS,
            current_piece: None,
            next_piece: None,
            attacks: Vec::new(),
            strength: 0,
            attack_from_left: false,
            phase: Phase::NewPiece,
            grid: BlockGrid::new(dimensions),
            events: Vec::new(),
        };
        board.generate_next_piece();
        board
    }

    pub fn next_piece(&self) -> (r: Option<Piece>)
        ensures
            r == self@.next_piece,
    {
        self.next_piece
    }

    pub fn current_piece(&self) -> (r: Option<Piece>)
        ensures
            r == self@.current_piece,
    {
        self.current_piece
    }

    /// The grid, for tests and machine players to inspect.
    pub fn grid(&self) -> (r: &BlockGrid)
        ensures
            r@ == self@.grid,
    {
        &self.grid
    }

    /// The strength accumulated by breaking and not yet dispatched.
    pub fn strength(&self) -> (r: u32)
        ensures
            r == self@.strength,
    {
        self.strength
    }

    /// Queue a garbage attack of the given strength against this
    /// board. Nothing is queued for zero strength; a strength beyond
    /// the headroom above the field is capped to what fits there.
    pub fn attack(&mut self, strength: u32)
        requires
            old(self).wf(),
        ensures
            final(self).wf(),
            strength == 0 ==> final(self)@ == old(self)@,
            attack_queued(old(self)@, final(self)@, strength),
    {
        if strength > 0 {
            let w = self.dimensions.w();
            let h = self.dimensions.h();
            proof {
                assert((w as int) * (h as int) <= 8001) by (nonlinear_arith)
                    requires
                        0 <= w as int <= 127,
                        0 <= h as int <= 63,
                ;
            }
            let capacity: u32 = w * h;
            let sprinkles = if strength < capacity {
                strength
            } else {
                capacity
            };
            let pattern = build_strike_pattern(w);
            let ghost attacks0 = self@.attacks;
            self.attacks.push(Attack::sprinkles(pattern, sprinkles));
            proof {
                assert(self@.attacks =~= attacks0.push(
                    AttackModel { pattern: pattern@, sprinkles },
                ));
            }
        }
    }

    /// Replace the queued next piece.
    pub fn set_next_piece(&mut self, piece: Piece)
        requires
            old(self).wf(),
            BoardModel::piece_ok(old(self)@.grid, piece),
        ensures
            final(self).wf(),
            final(self)@ == (BoardModel { next_piece: Some(piece), ..old(self)@ }),
    {
        self.next_piece = Some(piece);
    }

    /// Replace the currently falling piece.
    pub fn set_current_piece(&mut self, piece: Piece)
        requires
            old(self).wf(),
            BoardModel::piece_ok(old(self)@.grid, piece),
        ensures
            final(self).wf(),
            final(self)@ == (BoardModel { current_piece: Some(piece), ..old(self)@ }),
    {
        self.current_piece = Some(piece);
    }

    /// Queue a fresh random piece as the next to fall.
    pub fn generate_next_piece(&mut self)
        requires
            old(self)@.wf_core(),
        ensures
            final(self).wf(),
            final(self)@ == (BoardModel { next_piece: final(self)@.next_piece, ..old(self)@ }),
            final(self)@.next_piece matches Some(p) && p.position == (GridPosition { x: 0, y: 0 })
                && p.direction == Direction::Up && p.floor_kicks == 0,
    {
        self.next_piece = Some(Piece::rand(0, 0));
    }

    fn emit(&mut self, event: BlockEvent)
        requires
            old(self).wf(),
        ensures
            final(self).wf(),
            final(self)@ == (BoardModel {
                events: old(self)@.events.push(event),
                ..old(self)@
            }),
    {
        self.events.push(event);
    }

    /// Hand the whole pending event queue to the caller, leaving it
    /// empty; the renderer drains this once per tick.
    pub fn consume_events(&mut self) -> (r: Vec<BlockEvent>)
        requires
            old(self).wf(),
        ensures
            final(self).wf(),
            r@ == old(self)@.events,
            final(self)@ == (BoardModel { events: Seq::empty(), ..old(self)@ }),
    {
        let mut list: Vec<BlockEvent> = Vec::new();
        list.append(&mut self.events);
        proof {
            assert(final(self)@.events =~= Seq::<BlockEvent>::empty());
        }
        list
    }

    /// Switch between turbo and normal gravity speed.
    pub fn turbo(&mut self, enable: bool)
        requires
            old(self).wf(),
        ensures
            final(self).wf(),
            final(self)@ == (BoardModel {
                speed: if enable {
                    TURBO_SPEED_MS
                } else {
                    SLOW_SPEED_MS
                },
                ..old(self)@
            }),
    {
        if enable {
            self.speed = TURBO_SPEED_MS;
        } else {
            self.speed = SLOW_SPEED_MS;
        }
    }
}


impl Board {
    /// Load blocks from a compact textual notation, for tests and
    /// machine players: one character per cell, uppercase letters for
    /// solid blocks of a color, lowercase for breakers, anything else
    /// leaving the cell as it was. Rows are given top to bottom and
    /// map onto grid rows bottom-up, the last line landing on row zero.
    pub fn add_blocks(&mut self, lines: Vec<String>)
        requires
            old(self).wf(),
            lines@.len() <= old(self)@.grid.height,
            forall|r: int|
                0 <= r < lines@.len() ==> (#[trigger] lines@[r])@.len() <= old(self)@.grid.width,
        ensures
            final(self).wf(),
            final(self)@ == (BoardModel { grid: final(self)@.grid, ..old(self)@ }),
            final(self)@.grid.width == old(self)@.grid.width,
            final(self)@.grid.height == old(self)@.grid.height,
            forall|x: int, y: int|
                #[trigger] loaded_cell_ok(final(self)@.grid, old(self)@.grid, lines@, x, y),
    {
        let ghost g0 = self@.grid;
        let ghost cls = lines@.map_values(|l: String| l@);
        let ghost n = lines@.len() as int;
        let height = lines.len();
        let mut r: usize = 0;
        while r < height
            invariant
                old(self).wf(),
                self@ == (BoardModel { grid: self@.grid, ..old(self)@ }),
                self@.grid.wf(),
                self@.grid.width == g0.width,
                self@.grid.height == g0.height,
                g0 == old(self)@.grid,
                r <= height,
                height == n,
                n == cls.len(),
                n <= g0.height,
                cls == lines@.map_values(|l: String| l@),
                forall|rr: int| 0 <= rr < n ==> (#[trigger] cls[rr]).len() <= g0.width,
                // rows before r are fully loaded; everything else untouched
                forall|x: int, y: int|
                    #![trigger self@.grid.at(x, y)]
                    {
                        let rr = n - 1 - y;
                        if 0 <= y < n && rr < r as int && 0 <= x < cls[rr].len() && char_block(
                            cls[rr][x],
                        ) is Some {
                            match self@.grid.at(x, y) {
                                Some(pb) => {
                                    let cb = char_block(cls[rr][x]).unwrap();
                                    pb.block.color == cb.0 && pb.block.breaker == cb.1
                                        && pb.block.age == 0 && pb.block.borders
                                        == Sides::spec_all()
                                },
                                None => false,
                            }
                        } else if !(0 <= y < n && rr < r as int && 0 <= x < cls[rr].len()) {
                            self@.grid.at(x, y) == g0.at(x, y)
                        } else {
                            self@.grid.at(x, y) == g0.at(x, y)
                        }
                    },
            decreases height - r,
        {
            let ghost g_row_start = self@.grid;
            let line_len = lines[r].as_str().unicode_len();
            let y = (height - r - 1) as i8;
            let ghost yy = n - 1 - r as int;
            let mut x: usize = 0;
            while x < line_len
                invariant
                    old(self).wf(),
                    self@ == (BoardModel { grid: self@.grid, ..old(self)@ }),
                    self@.grid.wf(),
                    self@.grid.width == g0.width,
                    self@.grid.height == g0.height,
                    g0 == old(self)@.grid,
                    r < height,
                    height == n,
                    n == cls.len(),
                    n <= g0.height,
                    cls == lines@.map_values(|l: String| l@),
                    forall|rr: int| 0 <= rr < n ==> (#[trigger] cls[rr]).len() <= g0.width,
                    line_len == cls[r as int].len(),
                    x <= line_len,
                    y as int == n - 1 - r as int,
                    yy == n - 1 - r as int,
                    // rows before r fully loaded, current row loaded up to x,
                    // everything else untouched
                    forall|xx: int, yi: int|
                        #![trigger self@.grid.at(xx, yi)]
                        {
                            let rr = n - 1 - yi;
                            let processed = 0 <= yi < n && 0 <= xx < cls[rr].len() && (rr
                                < r as int || (rr == r as int && xx < x as int));
                            if processed && char_block(cls[rr][xx]) is Some {
                                match self@.grid.at(xx, yi) {
                                    Some(pb) => {
                                        let cb = char_block(cls[rr][xx]).unwrap();
                                        pb.block.color == cb.0 && pb.block.breaker == cb.1
                                            && pb.block.age == 0 && pb.block.borders
                                            == Sides::spec_all()
                                    },
                                    None => false,
                                }
                            } else if !processed {
                                self@.grid.at(xx, yi) == g0.at(xx, yi)
                            } else {
                                self@.grid.at(xx, yi) == g0.at(xx, yi)
                            }
                        },
                decreases line_len - x,
            {
                let c = lines[r].as_str().get_char(x);
                let block = match c {
                    'R' => Some(Block::new(Color::Red, false)),
                    'G' => Some(Block::new(Color::Green, false)),
                    'B' => Some(Block::new(Color::Blue, false)),
                    'Y' => Some(Block::new(Color::Yellow, false)),
                    'r' => Some(Block::new(Color::Red, true)),
                    'g' => Some(Block::new(Color::Green, true)),
                    'b' => Some(Block::new(Color::Blue, true)),
                    'y' => Some(Block::new(Color::Yellow, true)),
                    _ => None,
                };

                if let Some(block) = block {
                    let ghost g_before = self@.grid;
                    let position = GridPosition::new(x as i8, y);
                    proof {
                        lemma_set_block(g_before, PositionedBlock { block, position });
                    }
                    self.grid.set(PositionedBlock::new(block, position));
                }
                x = x + 1;
            }
            r = r + 1;
        }
        proof {
            assert forall|x: int, y: int| #![trigger loaded_cell_ok(self@.grid, old(self)@.grid, lines@, x, y)] true
                implies loaded_cell_ok(self@.grid, old(self)@.grid, lines@, x, y) by {
                let rr = n - 1 - y;
                if 0 <= y < n {
                    assert(0 <= rr < n);
                    assert(cls[rr] == lines@[rr]@);
                }
            }
        }
    }
}


impl BoardModel {
    /// A candidate piece the grid will accept: its two cells are
    /// empty (hence inside the grid) and it has floor kicks left.
    pub open spec fn piece_placeable(g: GridModel, q: Piece) -> bool {
        &&& q.position.can_offset(q.direction)
        &&& g.empty_pos(q.spec_blocks()[0].position)
        &&& g.empty_pos(q.spec_blocks()[1].position)
        &&& q.floor_kicks <= MAX_FLOOR_KICKS
    }
}

impl Board {
    /// Make `q` the current piece if the grid accepts it: both of its
    /// cells empty, and no more floor kicks used than allowed.
    /// Returns whether the piece was replaced.
    fn try_set_piece(&mut self, q: Piece) -> (r: bool)
        requires
            old(self).wf(),
        ensures
            final(self).wf(),
            r == BoardModel::piece_placeable(old(self)@.grid, q),
            r ==> final(self)@ == (BoardModel { current_piece: Some(q), ..old(self)@ }),
            !r ==> final(self)@ == old(self)@,
    {
        let range_ok = match q.direction {
            Direction::Up => q.position.y() < 127,
            Direction::Down => q.position.y() > -128,
            Direction::Left => q.position.x() > -128,
            Direction::Right => q.position.x() < 127,
        };
        if !range_ok {
            return false;
        }
        let blocks = q.blocks();
        let occupied = !self.grid.empty(blocks[0]) || !self.grid.empty(blocks[1]);
        if !occupied && q.floor_kicks() <= MAX_FLOOR_KICKS {
            self.current_piece = Some(q);
            true
        } else {
            false
        }
    }

    /// Attempt to replace the current piece, if one is falling, with
    /// `modifier` applied to it. The move succeeds only when no block
    /// or wall is in the way and the floor-kick budget is respected;
    /// on failure the board is unchanged and `false` comes back.
    pub fn move_piece<F: Fn(Piece) -> Piece>(&mut self, modifier: F) -> (r: bool)
        requires
            old(self).wf(),
            forall|p: Piece| #[trigger] modifier.requires((p,)),
        ensures
            final(self).wf(),
            old(self)@.current_piece is None ==> !r && final(self)@ == old(self)@,
            r ==> (exists|q: Piece|
                {
                    &&& modifier.ensures((old(self)@.current_piece.unwrap(),), q)
                    &&& BoardModel::piece_placeable(old(self)@.grid, q)
                    &&& final(self)@ == (BoardModel { current_piece: Some(q), ..old(self)@ })
                }),
            !r ==> final(self)@ == old(self)@,
            old(self)@.current_piece matches Some(p) && (forall|q: Piece|
                modifier.ensures((p,), q) ==> BoardModel::piece_placeable(old(self)@.grid, q))
                ==> r,
    {
        if let Some(piece) = self.current_piece {
            let new_piece = modifier(piece);
            self.try_set_piece(new_piece)
        } else {
            false
        }
    }

    /// The piece a rotation leaves as current, by three-tier kick
    /// resolution, first fit winning: the plain rotation; the rotation
    /// shifted opposite its new facing (a wall or floor kick); the
    /// half-turn shifted along the old facing. When no tier fits, the
    /// piece stays exactly as it was.
    pub open spec fn rotate_outcome(g: GridModel, p: Piece, r: Rotation) -> Piece {
        let c1 = p.spec_rotate(r);
        let c2 = p.spec_rotate(r).spec_piece_offset(
            p.direction.spec_rotate(r.spec_reverse()),
        ).spec_kick();
        let c3 = p.spec_rotate(r).spec_rotate(r).spec_piece_offset(p.direction);
        if BoardModel::piece_placeable(g, c1) {
            c1
        } else if BoardModel::piece_placeable(g, c2) {
            c2
        } else if BoardModel::piece_placeable(g, c3) {
            c3
        } else {
            p
        }
    }

    /// Rotate the current piece using three-tier kick resolution,
    /// first fit wins:
    /// 1. the plain rotation in place;
    /// 2. a kick: the rotation shifted opposite to its new facing,
    ///    counted against the floor-kick budget when it lands the
    ///    piece facing down;
    /// 3. a half-turn shifted along the old facing, for a piece
    ///    upside-down against a wall.
    /// When none fits, the piece does not move. The current piece
    /// reference (possibly unchanged) is returned either way.
    pub fn rotate(&mut self, r: Rotation) -> (ret: Option<Piece>)
        requires
            old(self).wf(),
        ensures
            final(self).wf(),
            ret == final(self)@.current_piece,
            old(self)@.current_piece is None ==> final(self)@ == old(self)@,
            old(self)@.current_piece matches Some(p) ==> final(self)@ == (BoardModel {
                current_piece: Some(Self::rotate_outcome(old(self)@.grid, p, r)),
                ..old(self)@
            }),
    {
        if let Some(piece) = self.current_piece {
            let c1 = piece.rotate(r);
            if !self.try_set_piece(c1) {
                let shunt = piece.direction.rotate(r.reverse());
                let c2 = piece.rotate(r).offset(shunt).kick();
                if !self.try_set_piece(c2) {
                    let c3 = piece.rotate(r).rotate(r).offset(piece.direction);
                    let _ = self.try_set_piece(c3);
                }
            }
        }
        self.current_piece
    }
}


/// The running state of one gravity-resolution pass: the evolving
/// grid and event queue, whether anything moved yet, and the bottom
/// cells of the fused compound currently being accumulated together
/// with the least fall distance seen among them.
pub struct DropState {
    pub grid: GridModel,
    pub events: Seq<BlockEvent>,
    pub dropped: bool,
    pub fused_depth: i8,
    pub pending: Seq<PositionedBlock>,
}

/// Move one block to `target`: vacate its cell, store it at the
/// target, and record a drop event. A block already at its target is
/// left alone.
pub open spec fn spec_drop_block(
    st: DropState,
    block: PositionedBlock,
    target: PositionedBlock,
) -> DropState {
    if target.position != block.position {
        DropState {
            grid: st.grid.clear_at(block.position.x as int, block.position.y as int).set_block(
                target,
            ),
            events: st.events.push(BlockEvent::Drop(block, target)),
            dropped: true,
            ..st
        }
    } else {
        st
    }
}

/// Drop every accumulated cell of a compound by the same distance.
pub open spec fn spec_flush(
    st: DropState,
    pending: Seq<PositionedBlock>,
    depth: i8,
    i: int,
) -> DropState
    decreases pending.len() - i,
{
    if i < 0 || i >= pending.len() {
        st
    } else {
        let q = pending[i];
        spec_flush(spec_drop_block(st, q, q.spec_drop(depth)), pending, depth, i + 1)
    }
}

/// Process one block of the gravity scan. A standalone block (or a
/// fused cell off its compound's bottom edge) falls by itself. A
/// bottom-edge cell of a compound is accumulated instead, and when the
/// compound's bottom-right corner arrives - the last of its bottom
/// cells in scan order - the whole group falls by the least distance
/// any of its cells could fall, so the compound rests on its
/// shallowest column.
pub open spec fn drop_step(h: i8, st: DropState, pb: PositionedBlock) -> DropState {
    if pb.block.spec_is_fused() && pb.block.borders.spec_intersects(Sides::spec_bottom()) {
        let bottom = st.grid.bottom(pb);
        let dist = (pb.position.y - bottom.position.y) as i8;
        let depth2: i8 = if dist < st.fused_depth {
            dist
        } else {
            st.fused_depth
        };
        let pending2 = st.pending.push(pb);
        if pb.block.borders == Sides::spec_bottom_right() {
            let st2 = spec_flush(
                DropState { fused_depth: depth2, pending: pending2, ..st },
                pending2,
                depth2,
                0,
            );
            DropState { fused_depth: h, pending: Seq::empty(), ..st2 }
        } else {
            DropState { fused_depth: depth2, pending: pending2, ..st }
        }
    } else {
        spec_drop_block(st, pb, st.grid.bottom(pb))
    }
}

/// The gravity pass over a snapshot of the grid's blocks, bottom to
/// top, left to right.
pub open spec fn drop_fold(
    h: i8,
    blocks: Seq<PositionedBlock>,
    i: int,
    st: DropState,
) -> DropState
    decreases blocks.len() - i,
{
    if i < 0 || i >= blocks.len() {
        st
    } else {
        drop_fold(h, blocks, i + 1, drop_step(h, st, blocks[i]))
    }
}

impl Board {
    /// Move `block` to `bottom`, emitting a drop event; reports
    /// whether the block actually moved.
    fn drop_block(&mut self, block: PositionedBlock, bottom: PositionedBlock) -> (r: bool)
        requires
            old(self).wf(),
            old(self)@.grid.in_bounds(block.position.x as int, block.position.y as int),
            old(self)@.grid.in_bounds(bottom.position.x as int, bottom.position.y as int),
        ensures
            final(self).wf(),
            r == (bottom.position != block.position),
            final(self)@ == (BoardModel {
                grid: final(self)@.grid,
                events: final(self)@.events,
                ..old(self)@
            }),
            ({
                let st0 = DropState {
                    grid: old(self)@.grid,
                    events: old(self)@.events,
                    dropped: false,
                    fused_depth: 0,
                    pending: Seq::empty(),
                };
                let st1 = spec_drop_block(st0, block, bottom);
                final(self)@.grid == st1.grid && final(self)@.events == st1.events
            }),
    {
        if bottom.position() != block.position() {
            proof {
                crate::block_grid::lemma_clear_at(
                    self@.grid,
                    block.position.x as int,
                    block.position.y as int,
                );
                lemma_set_block(
                    self@.grid.clear_at(block.position.x as int, block.position.y as int),
                    bottom,
                );
            }
            self.grid.clear(block.position());
            self.grid.set(bottom);
            self.emit(BlockEvent::Drop(block, bottom));
            true
        } else {
            false
        }
    }

    /// One gravity pass: scan the grid bottom to top, left to right,
    /// dropping standalone blocks to rest and whole fused compounds by
    /// the least distance any of their bottom cells could fall.
    /// Reports whether anything moved, so the settle phase knows
    /// whether another pass is needed before fusing.
    pub fn drop_blocks(&mut self) -> (r: bool)
        requires
            old(self).wf(),
        ensures
            final(self).wf(),
            final(self)@ == (BoardModel {
                grid: final(self)@.grid,
                events: final(self)@.events,
                ..old(self)@
            }),
            ({
                let h = old(self)@.dimensions.h as i8;
                let st0 = DropState {
                    grid: old(self)@.grid,
                    events: old(self)@.events,
                    dropped: false,
                    fused_depth: h,
                    pending: Seq::empty(),
                };
                let stf = drop_fold(h, old(self)@.grid.blocks(), 0, st0);
                final(self)@.grid == stf.grid && final(self)@.events == stf.events && r
                    == stf.dropped
            }),
    {
        let ghost g0 = self@.grid;
        let ghost bs = g0.blocks();
        let ghost h_spec = self@.dimensions.h as i8;
        let ghost st0 = DropState {
            grid: g0,
            events: self@.events,
            dropped: false,
            fused_depth: h_spec,
            pending: Seq::empty(),
        };
        let ghost st_target = drop_fold(h_spec, bs, 0, st0);

        let blocks = self.grid.blocks();
        let h = self.dimensions.h() as i8;
        let mut fused_list: Vec<PositionedBlock> = Vec::new();
        let mut fused_depth: i8 = h;
        let mut dropped = false;
        let mut i: usize = 0;

        proof {
            crate::block_grid::lemma_blocks_prefix_elems(g0, g0.cells.len() as int);
            assert(fused_list@ =~= Seq::<PositionedBlock>::empty());
        }

        while i < blocks.len()
            invariant
                self.wf(),
                self@ == (BoardModel {
                    grid: self@.grid,
                    events: self@.events,
                    ..old(self)@
                }),
                self@.grid.width == g0.width,
                self@.grid.height == g0.height,
                h == h_spec,
                2 <= old(self)@.dimensions.h <= 63,
                h as int == old(self)@.dimensions.h as int,
                blocks@ == bs,
                i <= bs.len(),
                0 <= fused_depth <= h,
                forall|k: int|
                    0 <= k < bs.len() ==> g0.in_bounds(
                        (#[trigger] bs[k]).position.x as int,
                        bs[k].position.y as int,
                    ),
                forall|k: int|
                    0 <= k < fused_list@.len() ==> {
                        let q = #[trigger] fused_list@[k];
                        g0.in_bounds(q.position.x as int, q.position.y as int) && q.position.y
                            >= fused_depth
                    },
                drop_fold(
                    h_spec,
                    bs,
                    i as int,
                    DropState {
                        grid: self@.grid,
                        events: self@.events,
                        dropped,
                        fused_depth,
                        pending: fused_list@,
                    },
                ) == st_target,
            decreases bs.len() - i,
        {
            let ghost st_entry = DropState {
                grid: self@.grid,
                events: self@.events,
                dropped,
                fused_depth,
                pending: fused_list@,
            };
            let block = blocks[i];
            if block.is_fused() && block.borders().intersects(Sides::bottom()) {
                let bottom = self.grid.bottom(block);
                let dist = block.y() - bottom.y();
                if dist < fused_depth {
                    fused_depth = dist;
                }
                fused_list.push(block);

                if block.borders() == Sides::bottom_right() {
                    let ghost pending2 = fused_list@;
                    let ghost depth2 = fused_depth;
                    let ghost st_f0 = DropState {
                        grid: self@.grid,
                        events: self@.events,
                        dropped,
                        fused_depth: depth2,
                        pending: pending2,
                    };
                    let ghost st_f_target = spec_flush(st_f0, pending2, depth2, 0);
                    let mut j: usize = 0;
                    while j < fused_list.len()
                        invariant
                            self.wf(),
                            self@ == (BoardModel {
                                grid: self@.grid,
                                events: self@.events,
                                ..old(self)@
                            }),
                            self@.grid.width == g0.width,
                            self@.grid.height == g0.height,
                            j <= fused_list@.len(),
                            fused_list@ == pending2,
                            fused_depth == depth2,
                            0 <= depth2,
                            forall|k: int|
                                0 <= k < pending2.len() ==> {
                                    let q = #[trigger] pending2[k];
                                    g0.in_bounds(q.position.x as int, q.position.y as int)
                                        && q.position.y >= depth2
                                },
                            spec_flush(
                                DropState {
                                    grid: self@.grid,
                                    events: self@.events,
                                    dropped,
                                    fused_depth: depth2,
                                    pending: pending2,
                                },
                                pending2,
                                depth2,
                                j as int,
                            ) == st_f_target,
                        decreases fused_list@.len() - j,
                    {
                        let q = fused_list[j];
                        let target = q.drop(fused_depth);
                        let moved = self.drop_block(q, target);
                        dropped = dropped || moved;
                        j = j + 1;
                    }
                    fused_depth = h;
                    fused_list = Vec::new();
                    proof {
                        assert(fused_list@ =~= Seq::<PositionedBlock>::empty());
                    }
                }
            } else {
                let bottom = self.grid.bottom(block);
                let moved = self.drop_block(block, bottom);
                dropped = dropped || moved;
            }
            proof {
                assert(drop_fold(h_spec, bs, i as int, st_entry) == drop_fold(
                    h_spec,
                    bs,
                    i as int + 1,
                    drop_step(h_spec, st_entry, bs[i as int]),
                ));
            }
            i = i + 1;
        }
        dropped
    }
}


/// The two sides perpendicular to an extrusion direction: the sides
/// along which an absorbed cell stays fused to its neighbors.
pub open spec fn fused_sides_of(ed: Direction) -> Sides {
    ed.spec_rotate(Rotation::Clockwise).spec_to_side().spec_union(
        ed.spec_rotate(Rotation::AntiClockwise).spec_to_side(),
    )
}

/// The border value marking the far end of the edge being traversed.
pub open spec fn opposite_corner_of(ed: Direction, td: Direction) -> Sides {
    ed.spec_to_side().spec_union(td.spec_to_side())
}

/// First pass of an extrusion: walk the compound's edge from the
/// anchor in `td` and check that every edge cell has a neighbor in
/// `ed` it may fuse with. A neighbor that is itself fused must agree
/// with the edge cell on the sides perpendicular to `ed` - the
/// corner-avoidance rule that keeps differently-shaped compounds from
/// merging across a shared corner. True exactly when the walk reaches
/// the far corner of the edge with every pair eligible.
pub open spec fn extrude_scan(
    g: GridModel,
    block: PositionedBlock,
    ed: Direction,
    td: Direction,
) -> bool
    decreases g.walk_measure(block.position, td)
        when g.wf()
{
    let fs = fused_sides_of(ed);
    match g.at_pos(block.position.spec_offset(ed)) {
        None => false,
        Some(alt) => {
            let can = block.spec_can_fuse_with(alt) && (!alt.spec_is_fused()
                || block.block.borders.spec_intersect(fs) == alt.block.borders.spec_intersect(
                fs,
            ));
            if !can {
                false
            } else if block.block.borders.spec_contains(opposite_corner_of(ed, td)) {
                true
            } else {
                match g.at_pos(block.position.spec_offset(td)) {
                    Some(b2) => {
                        if g.walk_measure(b2.position, td) < g.walk_measure(block.position, td) {
                            extrude_scan(g, b2, ed, td)
                        } else {
                            false
                        }
                    },
                    None => false,
                }
            }
        },
    }
}

/// Second pass of an extrusion: walk the same edge again, rewriting
/// border flags. An absorbed cell inherits the edge cell's sides
/// perpendicular to the extrusion axis; a previously standalone cell
/// additionally keeps the side facing away from the compound. The
/// edge cell itself loses the side it was extruded through.
pub open spec fn extrude_write(
    g: GridModel,
    block: PositionedBlock,
    ed: Direction,
    td: Direction,
) -> GridModel
    decreases g.walk_measure(block.position, td)
        when g.wf() && g.in_bounds(block.position.x as int, block.position.y as int)
{
    let fs = fused_sides_of(ed);
    match g.at_pos(block.position.spec_offset(ed)) {
        None => g,
        Some(alt) => if !block.spec_can_fuse_with(alt) {
            g
        } else {
            let sides = block.block.borders.spec_intersect(fs);
            let alt_sides = if alt.spec_is_fused() {
                Sides::spec_none().spec_union(sides)
            } else {
                ed.spec_to_side().spec_union(sides)
            };
            let g2 = g.set_block(alt.spec_fuse(alt_sides)).set_block(block.spec_fuse(sides));
            if block.block.borders.spec_contains(opposite_corner_of(ed, td)) {
                g2
            } else {
                match g2.at_pos(block.position.spec_offset(td)) {
                    Some(b2) => {
                        if g2.walk_measure(b2.position, td) < g.walk_measure(block.position, td) {
                            proof {
                                crate::block_grid::lemma_set_block(g, alt.spec_fuse(alt_sides));
                                crate::block_grid::lemma_set_block(
                                    g.set_block(alt.spec_fuse(alt_sides)),
                                    block.spec_fuse(sides),
                                );
                            }
                            extrude_write(g2, b2, ed, td)
                        } else {
                            g2
                        }
                    },
                    None => g2,
                }
            }
        },
    }
}

/// One whole extrusion attempt: rewrite the edge exactly when the
/// scan pass accepts it, otherwise leave the grid untouched.
pub open spec fn spec_extrude(
    g: GridModel,
    anchor: PositionedBlock,
    ed: Direction,
    td: Direction,
) -> GridModel {
    if extrude_scan(g, anchor, ed, td) {
        extrude_write(g, anchor, ed, td)
    } else {
        g
    }
}

/// One fuse-scan step at a cell. An unfused anchor fuses the 2x2
/// square above-right of it when all four cells exist, share its
/// color, and none is a breaker, aged or already fused. A fused
/// anchor instead tries to grow its compound from the corner its
/// borders name; a bottom-left corner tries two directions because
/// the freshly created square is not re-visited within one pass.
pub open spec fn fuse_step(g: GridModel, pos: GridPosition) -> GridModel {
    match g.at_pos(pos) {
        None => g,
        Some(block) => {
            let up_o = g.at_pos(block.position.spec_offset(Direction::Up));
            let right_o = g.at_pos(block.position.spec_offset(Direction::Right));
            let upright_o = g.at_pos(
                block.position.spec_offset(Direction::Up).spec_offset(Direction::Right),
            );
            if up_o is Some && right_o is Some && upright_o is Some {
                let up = up_o.unwrap();
                let right = right_o.unwrap();
                let upright = upright_o.unwrap();
                if !block.spec_is_fused() {
                    let fuse = block.spec_can_fuse_with(block) && !block.spec_is_fused()
                        && up.spec_can_fuse_with(block) && !up.spec_is_fused()
                        && right.spec_can_fuse_with(block) && !right.spec_is_fused()
                        && upright.spec_can_fuse_with(block) && !upright.spec_is_fused();
                    if fuse {
                        g.set_block(
                            block.spec_fuse(Sides::spec_bottom().spec_union(Sides::spec_left())),
                        ).set_block(
                            up.spec_fuse(Sides::spec_top().spec_union(Sides::spec_left())),
                        ).set_block(
                            right.spec_fuse(Sides::spec_bottom().spec_union(Sides::spec_right())),
                        ).set_block(
                            upright.spec_fuse(Sides::spec_top().spec_union(Sides::spec_right())),
                        )
                    } else {
                        g
                    }
                } else {
                    if block.block.borders == Sides::spec_top_left() {
                        spec_extrude(g, block, Direction::Up, Direction::Right)
                    } else if block.block.borders == Sides::spec_bottom_right() {
                        spec_extrude(g, block, Direction::Right, Direction::Up)
                    } else if block.block.borders == Sides::spec_bottom_left() {
                        spec_extrude(
                            spec_extrude(g, block, Direction::Left, Direction::Up),
                            block,
                            Direction::Down,
                            Direction::Right,
                        )
                    } else {
                        g
                    }
                }
            } else {
                g
            }
        },
    }
}

/// The fuse pass over a snapshot of the grid's blocks, in grid order.
pub open spec fn fuse_fold(blocks: Seq<PositionedBlock>, i: int, g: GridModel) -> GridModel
    decreases blocks.len() - i,
{
    if i < 0 || i >= blocks.len() {
        g
    } else {
        fuse_fold(blocks, i + 1, fuse_step(g, blocks[i].position))
    }
}

/// The scan pass of `extrude_grid`, checking eligibility only.
fn extrude_scan_grid(grid: &BlockGrid, anchor: PositionedBlock, ed: Direction, td: Direction) -> (
    good: bool)
    requires
        grid.wf(),
        grid@.in_bounds(anchor.position.x as int, anchor.position.y as int),
    ensures
        good == extrude_scan(grid@, anchor, ed, td),
{
    let ghost g = grid@;
    let fs = ed.rotate(Rotation::Clockwise).to_side().union(
        ed.rotate(Rotation::AntiClockwise).to_side(),
    );
    let oc = ed.to_side().union(td.to_side());
    let mut block = anchor;
    loop
        invariant
            grid.wf(),
            grid@ == g,
            g.in_bounds(block.position.x as int, block.position.y as int),
            fs == fused_sides_of(ed),
            oc == opposite_corner_of(ed, td),
            extrude_scan(g, block, ed, td) == extrude_scan(g, anchor, ed, td),
        decreases g.walk_measure(block.position, td),
    {
        match grid.at(block.position().offset(ed)) {
            None => {
                return false;
            },
            Some(alt) => {
                let can = block.can_fuse_with(alt) && (!alt.is_fused() || block.borders().intersect(
                    fs,
                ) == alt.borders().intersect(fs));
                if !can {
                    return false;
                }
                if block.borders().contains(oc) {
                    return true;
                }
                match grid.at(block.position().offset(td)) {
                    Some(b2) => {
                        proof {
                            assert(g.walk_measure(b2.position, td) < g.walk_measure(
                                block.position,
                                td,
                            ));
                        }
                        block = b2;
                    },
                    None => {
                        return false;
                    },
                }
            },
        }
    }
}

/// Try extruding a fused compound, identified by the given anchor
/// corner, one row or column outward in `ed`; `td` walks the
/// compound's edge toward its opposite corner. The grid changes only
/// when every cell along the edge can fuse with its outward neighbor;
/// a walk that runs into a vacant cell - a malformed compound, which
/// a well-formed board never holds - changes nothing.
#[verifier::rlimit(100)]
fn extrude_grid(grid: &mut BlockGrid, anchor: PositionedBlock, ed: Direction, td: Direction)
    requires
        old(grid).wf(),
        old(grid)@.in_bounds(anchor.position.x as int, anchor.position.y as int),
    ensures
        final(grid).wf(),
        final(grid)@ == spec_extrude(old(grid)@, anchor, ed, td),
        final(grid)@.width == old(grid)@.width,
        final(grid)@.height == old(grid)@.height,
{
    let ghost g0 = grid@;
    let good = extrude_scan_grid(grid, anchor, ed, td);
    if !good {
        return ;
    }
    let fs = ed.rotate(Rotation::Clockwise).to_side().union(
        ed.rotate(Rotation::AntiClockwise).to_side(),
    );
    let extrude_side = ed.to_side();
    let oc = extrude_side.union(td.to_side());
    let mut block = anchor;
    loop
        invariant_except_break
            grid@.in_bounds(block.position.x as int, block.position.y as int),
            extrude_write(grid@, block, ed, td) == extrude_write(g0, anchor, ed, td),
        invariant
            grid.wf(),
            grid@.width == g0.width,
            grid@.height == g0.height,
            g0.wf(),
            g0.in_bounds(anchor.position.x as int, anchor.position.y as int),
            fs == fused_sides_of(ed),
            oc == opposite_corner_of(ed, td),
            extrude_side == ed.spec_to_side(),
        ensures
            grid.wf(),
            grid@.width == g0.width,
            grid@.height == g0.height,
            grid@ == extrude_write(g0, anchor, ed, td),
        decreases grid@.walk_measure(block.position, td),
    {
        let ghost g_entry = grid@;
        match grid.at(block.position().offset(ed)) {
            None => {
                break ;
            },
            Some(alt) => {
                if !block.can_fuse_with(alt) {
                    // unreachable after a successful scan: border rewrites
                    // never change a block's color, age or breaker flag
                    break ;
                }
                let sides = block.borders().intersect(fs);
                let alt_sides = if alt.is_fused() {
                    Sides::none().union(sides)
                } else {
                    extrude_side.union(sides)
                };
                proof {
                    lemma_set_block(g_entry, alt.spec_fuse(alt_sides));
                    lemma_set_block(
                        g_entry.set_block(alt.spec_fuse(alt_sides)),
                        block.spec_fuse(sides),
                    );
                }
                grid.set(alt.fuse(alt_sides));
                grid.set(block.fuse(sides));

                if block.borders().contains(oc) {
                    break ;
                }
                match grid.at(block.position().offset(td)) {
                    Some(b2) => {
                        proof {
                            assert(grid@.walk_measure(b2.position, td) < g_entry.walk_measure(
                                block.position,
                                td,
                            ));
                        }
                        block = b2;
                    },
                    None => {
                        break ;
                    },
                }
            },
        }
    }
}

impl Board {
    /// Scan the grid in order and fuse what can be fused: fresh 2x2
    /// squares of same-colored standalone blocks, and existing
    /// compounds grown outward from their corners. Internally blocks
    /// stay individual cells; fusing only rewrites their border flags.
    pub fn fuse_blocks(&mut self)
        requires
            old(self).wf(),
        ensures
            final(self).wf(),
            final(self)@ == (BoardModel {
                grid: fuse_fold(old(self)@.grid.blocks(), 0, old(self)@.grid),
                ..old(self)@
            }),
    {
        let ghost g0 = self@.grid;
        let ghost bs = g0.blocks();
        let ghost g_target = fuse_fold(bs, 0, g0);
        let blocks = self.grid.blocks();
        let mut i: usize = 0;
        proof {
            crate::block_grid::lemma_blocks_prefix_elems(g0, g0.cells.len() as int);
        }
        while i < blocks.len()
            invariant
                old(self).wf(),
                self.wf(),
                self@ == (BoardModel { grid: self@.grid, ..old(self)@ }),
                self@.grid.width == g0.width,
                self@.grid.height == g0.height,
                g0 == old(self)@.grid,
                blocks@ == bs,
                i <= bs.len(),
                forall|k: int|
                    0 <= k < bs.len() ==> g0.in_bounds(
                        (#[trigger] bs[k]).position.x as int,
                        bs[k].position.y as int,
                    ),
                fuse_fold(bs, i as int, self@.grid) == g_target,
            decreases bs.len() - i,
        {
            let ghost g_entry = self@.grid;
            let snapshot = blocks[i];
            match self.grid.at(snapshot.position()) {
                Some(block) => {
                    let up_o = self.grid.at(block.position().offset(Direction::Up));
                    let right_o = self.grid.at(block.position().offset(Direction::Right));
                    let upright_o = self.grid.at(
                        block.position().offset(Direction::Up).offset(Direction::Right),
                    );

                    if up_o.is_some() && right_o.is_some() && upright_o.is_some() {
                        let up = up_o.unwrap();
                        let right = right_o.unwrap();
                        let upright = upright_o.unwrap();

                        if !block.is_fused() {
                            let fuse = block.can_fuse_with(block) && !block.is_fused()
                                && up.can_fuse_with(block) && !up.is_fused()
                                && right.can_fuse_with(block) && !right.is_fused()
                                && upright.can_fuse_with(block) && !upright.is_fused();

                            if fuse {
                                let s1 = block.fuse(Sides::bottom().union(Sides::left()));
                                let s2 = up.fuse(Sides::top().union(Sides::left()));
                                let s3 = right.fuse(Sides::bottom().union(Sides::right()));
                                let s4 = upright.fuse(Sides::top().union(Sides::right()));
                                proof {
                                    lemma_set_block(g_entry, s1);
                                    lemma_set_block(g_entry.set_block(s1), s2);
                                    lemma_set_block(g_entry.set_block(s1).set_block(s2), s3);
                                    lemma_set_block(
                                        g_entry.set_block(s1).set_block(s2).set_block(s3),
                                        s4,
                                    );
                                }
                                self.grid.set(s1);
                                self.grid.set(s2);
                                self.grid.set(s3);
                                self.grid.set(s4);
                            }
                        } else {
                            if block.borders() == Sides::top_left() {
                                extrude_grid(&mut self.grid, block, Direction::Up, Direction::Right);
                            } else if block.borders() == Sides::bottom_right() {
                                extrude_grid(&mut self.grid, block, Direction::Right, Direction::Up);
                            } else if block.borders() == Sides::bottom_left() {
                                extrude_grid(&mut self.grid, block, Direction::Left, Direction::Up);
                                extrude_grid(&mut self.grid, block, Direction::Down, Direction::Right);
                            }
                        }
                    }
                },
                None => {},
            }
            proof {
                assert(fuse_fold(bs, i as int, g_entry) == fuse_fold(
                    bs,
                    i as int + 1,
                    fuse_step(g_entry, bs[i as int].position),
                ));
            }
            i = i + 1;
        }
    }
}


/// What one kill-list entry adds to the attack total. A standalone
/// non-breaker block is worth one. The bottom-left corner cell of a
/// fused compound is worth width times height times the smaller of
/// the two - large square compounds pay off superlinearly - measured
/// by walking to the compound's far corners. Breakers themselves, and
/// the other cells of a compound, add nothing.
pub open spec fn break_contribution(g: GridModel, pb: PositionedBlock) -> int {
    if !g.in_bounds(pb.position.x as int, pb.position.y as int) {
        0
    } else if pb.block.spec_is_fused() {
        if pb.block.borders.spec_contains(Sides::spec_bottom_left()) {
            match g.walk_corner(pb, Direction::Up) {
                Some(tl) => match g.walk_corner(pb, Direction::Right) {
                    Some(br) => {
                        let w = br.position.x - pb.position.x + 1;
                        let h = tl.position.y - pb.position.y + 1;
                        let m = if w < h {
                            w
                        } else {
                            h
                        };
                        if w > 0 && h > 0 {
                            w * h * m
                        } else {
                            0
                        }
                    },
                    None => 0,
                },
                None => 0,
            }
        } else {
            0
        }
    } else if !pb.block.breaker {
        1
    } else {
        0
    }
}

/// The attack total over a kill list, accumulated entry by entry and
/// held below the strength counter's ceiling.
pub open spec fn break_attack_fold(
    g: GridModel,
    list: Seq<(PositionedBlock, u8)>,
    i: int,
    acc: int,
) -> int
    decreases list.len() - i,
{
    if i < 0 || i >= list.len() {
        acc
    } else {
        let acc2 = if acc <= 0xFFFF_FFFF {
            acc + break_contribution(g, list[i].0)
        } else {
            acc
        };
        break_attack_fold(g, list, i + 1, acc2)
    }
}

/// The result of clearing a kill list: the grid with every listed
/// cell vacated, an explode event per block, and the largest chain
/// depth seen (zero means the chain is resolved).
pub struct BreakOutcome {
    pub grid: GridModel,
    pub events: Seq<BlockEvent>,
    pub highest: u8,
}

pub open spec fn break_destroy_fold(
    st: BreakOutcome,
    list: Seq<(PositionedBlock, u8)>,
    i: int,
) -> BreakOutcome
    decreases list.len() - i,
{
    if i < 0 || i >= list.len() {
        st
    } else {
        let pb = list[i].0;
        let depth = list[i].1;
        let g2 = if st.grid.in_bounds(pb.position.x as int, pb.position.y as int) {
            st.grid.clear_at(pb.position.x as int, pb.position.y as int)
        } else {
            st.grid
        };
        let st2 = BreakOutcome {
            grid: g2,
            events: st.events.push(BlockEvent::Explode(pb, depth as u32)),
            highest: if depth > st.highest {
                depth
            } else {
                st.highest
            },
        };
        break_destroy_fold(st2, list, i + 1)
    }
}

/// The strength a break is worth: half the attack total, scaled by
/// the combo depth, saturating at the counter's ceiling.
pub open spec fn break_strength(old_strength: u32, acc: int, combo_depth: u32) -> u32 {
    let x = (acc / 2) * (combo_depth as int + 1);
    if old_strength + x > 0xFFFF_FFFF {
        0xFFFF_FFFFu32
    } else {
        (old_strength + x) as u32
    }
}

impl Board {
    /// Detonate everything a breaker chain reaches. Scores the kill
    /// list into accumulated strength - half the contribution total,
    /// multiplied by one more than the combo depth - then clears every
    /// listed cell and emits an explode event per block, tagged with
    /// its chain depth for visual stagger. Returns the largest chain
    /// depth: zero means the chain resolved, anything more sends the
    /// settle phase around again at a deeper combo.
    pub fn break_blocks(&mut self, combo_depth: u32) -> (r: u8)
        requires
            old(self).wf(),
        ensures
            final(self).wf(),
            ({
                let list = old(self)@.grid.breakers();
                if list.len() == 0 {
                    final(self)@ == old(self)@ && r == 0
                } else {
                    let acc = break_attack_fold(old(self)@.grid, list, 0, 0);
                    let outcome = break_destroy_fold(
                        BreakOutcome {
                            grid: old(self)@.grid,
                            events: old(self)@.events,
                            highest: 0,
                        },
                        list,
                        0,
                    );
                    final(self)@ == (BoardModel {
                        grid: outcome.grid,
                        events: outcome.events,
                        strength: break_strength(old(self)@.strength, acc, combo_depth),
                        ..old(self)@
                    }) && r == outcome.highest
                }
            }),
    {
        let ghost g0 = self@.grid;
        let break_list = self.grid.find_breakers();

        if break_list.len() == 0 {
            return 0;
        }
        let ghost list = break_list@;

        let mut attack: u64 = 0;
        let mut i: usize = 0;
        while i < break_list.len()
            invariant
                self.wf(),
                self@.grid == g0,
                break_list@ == list,
                i <= list.len(),
                attack <= 0xFFFF_FFFF + 0x20_0000,
                attack as int == break_attack_fold(g0, list, 0, 0) - break_attack_fold(
                    g0,
                    list,
                    i as int,
                    attack as int,
                ) + attack as int,
                break_attack_fold(g0, list, i as int, attack as int) == break_attack_fold(
                    g0,
                    list,
                    0,
                    0,
                ),
            decreases list.len() - i,
        {
            let ghost attack_entry = attack;
            let entry = break_list[i];
            let block = entry.0;
            let in_grid = block.x() >= 0 && block.y() >= 0 && (block.x() as u32)
                < self.dimensions.w() && (block.y() as u32) < 2 * self.dimensions.h();
            let mut inc: u64 = 0;
            if in_grid {
                if block.is_fused() {
                    if block.borders().contains(Sides::bottom_left()) {
                        let top_left = self.grid.find_opposite_corner(&block, Direction::Up);
                        let bottom_right = self.grid.find_opposite_corner(
                            &block,
                            Direction::Right,
                        );
                        match top_left {
                            Some(tl) => {
                                match bottom_right {
                                    Some(br) => {
                                        let w = br.x() - block.x() + 1;
                                        let h = tl.y() - block.y() + 1;
                                        if w > 0 && h > 0 {
                                            let m = if w < h {
                                                w
                                            } else {
                                                h
                                            };
                                            proof {
                                                assert((w as int) * (h as int) <= 0x4000 && (
                                                w as int) * (h as int) * (m as int)
                                                    <= 0x20_0000) by (nonlinear_arith)
                                                    requires
                                                        0 < w as int <= 127,
                                                        0 < h as int <= 127,
                                                        0 < m as int <= 127,
                                                ;
                                            }
                                            inc = (w as u64) * (h as u64) * (m as u64);
                                        }
                                    },
                                    None => {},
                                }
                            },
                            None => {},
                        }
                    }
                } else if !block.breaker() {
                    inc = 1;
                }
            }
            if attack <= 0xFFFF_FFFF {
                attack = attack + inc;
            }
            proof {
                assert(inc as int == break_contribution(g0, block));
                assert(break_attack_fold(g0, list, i as int, attack_entry as int)
                    == break_attack_fold(g0, list, i as int + 1, attack as int));
            }
            i = i + 1;
        }

        proof {
            assert((attack as int / 2) * (combo_depth as int + 1) <= 0x8010_0000_0000_0000)
                by (nonlinear_arith)
                requires
                    0 <= attack as int <= 0xFFFF_FFFF + 0x20_0000,
                    0 <= combo_depth as int <= 0xFFFF_FFFF,
            ;
        }
        let x: u64 = (attack / 2) * ((combo_depth as u64) + 1);
        let sum: u64 = (self.strength as u64) + x;
        if sum > 0xFFFF_FFFF {
            self.strength = 0xFFFF_FFFF;
        } else {
            self.strength = sum as u32;
        }

        let mut highest: u8 = 0;
        let ghost st0 = BreakOutcome { grid: g0, events: old(self)@.events, highest: 0 };
        let ghost st_target = break_destroy_fold(st0, list, 0);
        let mut j: usize = 0;
        while j < break_list.len()
            invariant
                self.wf(),
                self@ == (BoardModel {
                    grid: self@.grid,
                    events: self@.events,
                    strength: self@.strength,
                    ..old(self)@
                }),
                self@.strength == break_strength(
                    old(self)@.strength,
                    break_attack_fold(g0, list, 0, 0),
                    combo_depth,
                ),
                self@.grid.width == g0.width,
                self@.grid.height == g0.height,
                old(self).wf(),
                break_list@ == list,
                j <= list.len(),
                break_destroy_fold(
                    BreakOutcome { grid: self@.grid, events: self@.events, highest },
                    list,
                    j as int,
                ) == st_target,
            decreases list.len() - j,
        {
            let ghost st_entry = BreakOutcome {
                grid: self@.grid,
                events: self@.events,
                highest,
            };
            let entry = break_list[j];
            let block = entry.0;
            let depth = entry.1;
            let in_grid = block.x() >= 0 && block.y() >= 0 && (block.x() as u32)
                < self.dimensions.w() && (block.y() as u32) < 2 * self.dimensions.h();
            if in_grid {
                proof {
                    crate::block_grid::lemma_clear_at(
                        self@.grid,
                        block.position.x as int,
                        block.position.y as int,
                    );
                }
                self.grid.clear(block.position());
            }
            self.emit(BlockEvent::Explode(block, depth as u32));
            if depth > highest {
                highest = depth;
            }
            proof {
                assert(break_destroy_fold(st_entry, list, j as int) == break_destroy_fold(
                    BreakOutcome { grid: self@.grid, events: self@.events, highest },
                    list,
                    j as int + 1,
                ));
            }
            j = j + 1;
        }

        highest
    }
}


/// Saturating add on the step accumulator.
pub open spec fn sat_add_u64(a: u64, b: u64) -> u64 {
    if a + b > u64::MAX {
        u64::MAX
    } else {
        (a + b) as u64
    }
}

/// The accumulator after one gravity step: one slow-speed interval is
/// paid off, clamping at zero.
pub open spec fn sat_sub_u64(a: u64, b: u64) -> u64 {
    if a >= b {
        (a - b) as u64
    } else {
        0
    }
}

/// The next combo depth, held below its counter's ceiling.
pub open spec fn sat_inc_u32(a: u32) -> u32 {
    if a < 0xFFFF_FFFF {
        (a + 1) as u32
    } else {
        a
    }
}

/// The grid and event queue while a list of blocks is being dropped
/// in, one after the other, each falling from its spawn cell to rest.
pub struct PlaceState {
    pub grid: GridModel,
    pub events: Seq<BlockEvent>,
}

pub open spec fn place_fold(st: PlaceState, blocks: Seq<PositionedBlock>, i: int) -> PlaceState
    decreases blocks.len() - i,
{
    if i < 0 || i >= blocks.len() {
        st
    } else {
        let pb = blocks[i];
        let resting = st.grid.bottom(pb);
        place_fold(
            PlaceState {
                grid: st.grid.set_block(resting),
                events: st.events.push(BlockEvent::Drop(pb, resting)),
            },
            blocks,
            i + 1,
        )
    }
}

/// What one update tick does to a board in phase `Settling`, once the
/// renderer reports everything settled: run one gravity pass; if
/// nothing moved, fuse, then break; a break that found anything sends
/// the board around the settle loop one combo deeper, otherwise the
/// accumulated strength goes to the enemy and the board moves on to
/// AgeAndAttack or NewPiece as the phase's flag says.
pub open spec fn settle_outcome(
    pre: BoardModel,
    post: BoardModel,
    enemy_pre: BoardModel,
    enemy_post: BoardModel,
    combo_depth: u32,
    age_and_attack: bool,
) -> bool {
    let h = pre.dimensions.h as i8;
    let dst = drop_fold(
        h,
        pre.grid.blocks(),
        0,
        DropState {
            grid: pre.grid,
            events: pre.events,
            dropped: false,
            fused_depth: h,
            pending: Seq::empty(),
        },
    );
    if dst.dropped {
        post == (BoardModel { grid: dst.grid, events: dst.events, ..pre }) && enemy_post
            == enemy_pre
    } else {
        let g2 = fuse_fold(dst.grid.blocks(), 0, dst.grid);
        let list = g2.breakers();
        if list.len() == 0 {
            // nothing broke: dispatch the strength accumulated so far
            post == (BoardModel {
                grid: g2,
                events: dst.events,
                strength: 0,
                phase: if age_and_attack {
                    Phase::AgeAndAttack
                } else {
                    Phase::NewPiece
                },
                ..pre
            }) && attack_queued(enemy_pre, enemy_post, pre.strength)
        } else {
            let acc = break_attack_fold(g2, list, 0, 0);
            let outcome = break_destroy_fold(
                BreakOutcome { grid: g2, events: dst.events, highest: 0 },
                list,
                0,
            );
            let strength2 = break_strength(pre.strength, acc, combo_depth);
            if outcome.highest > 0 {
                post == (BoardModel {
                    grid: outcome.grid,
                    events: outcome.events,
                    strength: strength2,
                    phase: Phase::Settling(sat_inc_u32(combo_depth), age_and_attack),
                    ..pre
                }) && enemy_post == enemy_pre
            } else {
                post == (BoardModel {
                    grid: outcome.grid,
                    events: outcome.events,
                    strength: 0,
                    phase: if age_and_attack {
                        Phase::AgeAndAttack
                    } else {
                        Phase::NewPiece
                    },
                    ..pre
                }) && attack_queued(enemy_pre, enemy_post, strength2)
            }
        }
    }
}

impl Board {
    /// The AgeAndAttack phase: age every garbage counter one tick,
    /// then materialize and drop in the oldest queued attack, if any,
    /// flipping the side the next attack falls from.
    fn phase_age_and_attack(&mut self)
        requires
            old(self).wf(),
        ensures
            final(self).wf(),
            ({
                let aged = old(self)@.grid.aged();
                if old(self)@.attacks.len() == 0 {
                    final(self)@ == (BoardModel {
                        grid: aged,
                        phase: Phase::Settling(0, false),
                        ..old(self)@
                    })
                } else {
                    exists|bs: Seq<PositionedBlock>|
                        {
                            &&& attack_blocks_ok(
                                bs,
                                old(self)@.attacks[0],
                                old(self)@.dimensions,
                                old(self)@.attack_from_left,
                            )
                            &&& {
                                let pst = place_fold(
                                    PlaceState { grid: aged, events: old(self)@.events },
                                    bs,
                                    0,
                                );
                                final(self)@ == (BoardModel {
                                    grid: pst.grid,
                                    events: pst.events,
                                    attacks: old(self)@.attacks.drop_first(),
                                    attack_from_left: !old(self)@.attack_from_left,
                                    phase: Phase::Settling(0, false),
                                    ..old(self)@
                                })
                            }
                        }
                }
            }),
    {
        let ghost pre = self@;
        let ghost mut bs_w: Seq<PositionedBlock> = Seq::empty();
        proof {
            crate::block_grid::lemma_aged_wf(self@.grid);
        }
        self.grid.age();

        if self.attacks.len() > 0 {
            let attack = self.attacks.remove(0);
            proof {
                assert(self@.attacks =~= pre.attacks.drop_first());
                assert(attack@ == pre.attacks[0]);
            }
            let blocks = attack.apply(self.dimensions, self.attack_from_left);
            let ghost bs = blocks@;
            proof {
                bs_w = bs;
            }
            let ghost st0 = PlaceState { grid: self@.grid, events: self@.events };
            let ghost st_target = place_fold(st0, bs, 0);

            let w = self.dimensions.w();
            let h = self.dimensions.h();
            proof {
                assert forall|k: int| 0 <= k < bs.len() implies {
                    let pb = #[trigger] bs[k];
                    &&& 0 <= pb.position.x < w as int
                    &&& h as int <= pb.position.y < 2 * h as int
                } by {
                    vstd::arithmetic::div_mod::lemma_mod_pos_bound(k, w as int);
                    assert(k / (w as int) <= h as int - 1) by (nonlinear_arith)
                        requires
                            w as int >= 1,
                            0 <= k,
                            k < (w as int) * (h as int),
                    ;
                    assert(k / (w as int) >= 0) by (nonlinear_arith)
                        requires
                            w as int >= 1,
                            0 <= k,
                    ;
                }
            }
            let mut i: usize = 0;
            while i < blocks.len()
                invariant
                    old(self).wf(),
                    self.wf(),
                    self@ == (BoardModel {
                        grid: self@.grid,
                        events: self@.events,
                        attacks: self@.attacks,
                        ..old(self)@
                    }),
                    self@.attacks == old(self)@.attacks.drop_first(),
                    self@.grid.width == old(self)@.grid.width,
                    self@.grid.height == old(self)@.grid.height,
                    self@.grid.width == w as int,
                    self@.grid.height == 2 * h as int,
                    w == old(self)@.dimensions.w,
                    h == old(self)@.dimensions.h,
                    4 <= w <= 127,
                    2 <= h <= 63,
                    blocks@ == bs,
                    i <= bs.len(),
                    forall|k: int|
                        0 <= k < bs.len() ==> {
                            let pb = #[trigger] bs[k];
                            &&& 0 <= pb.position.x < w as int
                            &&& h as int <= pb.position.y < 2 * h as int
                        },
                    place_fold(
                        PlaceState { grid: self@.grid, events: self@.events },
                        bs,
                        i as int,
                    ) == st_target,
                decreases bs.len() - i,
            {
                let ghost st_entry = PlaceState { grid: self@.grid, events: self@.events };
                let pb = blocks[i];
                let resting = self.grid.bottom(pb);
                proof {
                    lemma_set_block(self@.grid, resting);
                }
                self.grid.set(resting);
                self.emit(BlockEvent::Drop(pb, resting));
                proof {
                    assert(place_fold(st_entry, bs, i as int) == place_fold(
                        PlaceState { grid: self@.grid, events: self@.events },
                        bs,
                        i as int + 1,
                    ));
                }
                i = i + 1;
            }

            self.attack_from_left = !self.attack_from_left;
        }

        self.phase = Phase::Settling(0, false);
        proof {
            if pre.attacks.len() > 0 {
                let pst = place_fold(
                    PlaceState { grid: pre.grid.aged(), events: pre.events },
                    bs_w,
                    0,
                );
                assert(attack_blocks_ok(bs_w, pre.attacks[0], pre.dimensions, pre.attack_from_left));
                assert(self@ == (BoardModel {
                    grid: pst.grid,
                    events: pst.events,
                    attacks: pre.attacks.drop_first(),
                    attack_from_left: !pre.attack_from_left,
                    phase: Phase::Settling(0, false),
                    ..pre
                }));
            }
        }
    }

    /// The NewPiece phase: spawn the queued piece at the top of the
    /// field and queue a fresh random one.
    fn phase_new_piece(&mut self)
        requires
            old(self).wf(),
        ensures
            final(self).wf(),
            final(self)@ == (BoardModel {
                current_piece: Some(
                    old(self)@.next_piece.unwrap().spec_dup_to(
                        GridPosition { x: 3, y: old(self)@.dimensions.h as i8 },
                        Direction::Up,
                    ),
                ),
                next_piece: final(self)@.next_piece,
                phase: Phase::PieceFalling,
                ..old(self)@
            }),
            final(self)@.next_piece matches Some(p) && p.position == (GridPosition {
                x: 0,
                y: 0,
            }) && p.direction == Direction::Up && p.floor_kicks == 0,
    {
        let next = match self.next_piece {
            Some(p) => p,
            None => {
                proof {
                    assert(false);
                }
                Piece::new(Block::new(Color::Red, false), Block::new(Color::Red, false))
            },
        };
        let piece = next.dup_to(GridPosition::new(3, self.dimensions.h() as i8), Direction::Up);

        self.set_current_piece(piece);
        self.generate_next_piece();

        self.phase = Phase::PieceFalling;
    }

    /// The PieceFalling phase: accumulate the gravity timer; past one
    /// speed interval, step the piece down, or - once the grace period
    /// has passed - lock it into the grid cell by cell and settle.
    fn phase_piece_falling(&mut self, dt_ms: u64)
        requires
            old(self).wf(),
        ensures
            final(self).wf(),
            ({
                let acc1 = sat_add_u64(old(self)@.step_accumulator, dt_ms);
                if acc1 <= old(self)@.speed {
                    final(self)@ == (BoardModel { step_accumulator: acc1, ..old(self)@ })
                } else {
                    match old(self)@.current_piece {
                        Some(p) => {
                            let down = p.spec_piece_offset(Direction::Down);
                            if BoardModel::piece_placeable(old(self)@.grid, down) {
                                final(self)@ == (BoardModel {
                                    current_piece: Some(down),
                                    step_accumulator: sat_sub_u64(acc1, SLOW_SPEED_MS),
                                    ..old(self)@
                                })
                            } else if acc1 > DROP_WAIT_MS {
                                let pst = place_fold(
                                    PlaceState { grid: old(self)@.grid, events: old(self)@.events },
                                    p.spec_blocks_seq(),
                                    0,
                                );
                                final(self)@ == (BoardModel {
                                    grid: pst.grid,
                                    events: pst.events,
                                    current_piece: None,
                                    phase: Phase::Settling(0, true),
                                    step_accumulator: sat_sub_u64(acc1, SLOW_SPEED_MS),
                                    ..old(self)@
                                })
                            } else {
                                final(self)@ == (BoardModel {
                                    step_accumulator: acc1,
                                    ..old(self)@
                                })
                            }
                        },
                        None => final(self)@ == (BoardModel {
                            step_accumulator: acc1,
                            ..old(self)@
                        }),
                    }
                }
            }),
    {
        if dt_ms > u64::MAX - self.step_accumulator {
            self.step_accumulator = u64::MAX;
        } else {
            self.step_accumulator = self.step_accumulator + dt_ms;
        }

        if self.step_accumulator > self.speed {
            let mut step = false;

            let moved_down = match self.current_piece {
                Some(p) => self.try_set_piece(p.offset(Direction::Down)),
                None => false,
            };

            if moved_down {
                step = true;
            } else {
                if self.step_accumulator > DROP_WAIT_MS {
                    if let Some(piece) = self.current_piece {
                        let ghost st0 = PlaceState { grid: self@.grid, events: self@.events };
                        let ghost bs = piece.spec_blocks_seq();
                        let pbs = piece.blocks();
                        proof {
                            assert(bs.len() == 2);
                            assert(piece.spec_blocks()[0] == bs[0]);
                            assert(piece.spec_blocks()[1] == bs[1]);
                        }

                        let pb0 = pbs[0];
                        let bottom0 = self.grid.bottom(pb0);
                        let resting0 = pb0.drop(pb0.y() - bottom0.y());
                        proof {
                            assert(resting0 == bottom0);
                            lemma_set_block(self@.grid, resting0);
                        }
                        self.grid.set(resting0);
                        self.emit(BlockEvent::Drop(pb0, resting0));
                        let ghost st1 = PlaceState { grid: self@.grid, events: self@.events };

                        let pb1 = pbs[1];
                        let bottom1 = self.grid.bottom(pb1);
                        let resting1 = pb1.drop(pb1.y() - bottom1.y());
                        proof {
                            assert(resting1 == bottom1);
                            lemma_set_block(self@.grid, resting1);
                        }
                        self.grid.set(resting1);
                        self.emit(BlockEvent::Drop(pb1, resting1));
                        let ghost st2 = PlaceState { grid: self@.grid, events: self@.events };

                        proof {
                            assert(place_fold(st0, bs, 0) == place_fold(st1, bs, 1));
                            assert(place_fold(st1, bs, 1) == place_fold(st2, bs, 2));
                            assert(place_fold(st2, bs, 2) == st2);
                        }

                        self.current_piece = None;
                        self.phase = Phase::Settling(0, true);
                        step = true;
                    }
                }
            }

            if step {
                if self.step_accumulator >= SLOW_SPEED_MS {
                    self.step_accumulator = self.step_accumulator - SLOW_SPEED_MS;
                } else {
                    self.step_accumulator = 0;
                }
            }
        }
    }

    /// The Settling phase; see `settle_outcome` for what one settled
    /// tick does.
    fn phase_settling(&mut self, enemy: &mut Board, combo_depth: u32, age_and_attack: bool)
        requires
            old(self).wf(),
            old(enemy).wf(),
        ensures
            final(self).wf(),
            final(enemy).wf(),
            settle_outcome(
                old(self)@,
                final(self)@,
                old(enemy)@,
                final(enemy)@,
                combo_depth,
                age_and_attack,
            ),
    {
        let dropped = self.drop_blocks();
        if !dropped {
            self.fuse_blocks();

            let break_depth = self.break_blocks(combo_depth);

            if break_depth > 0 {
                let next_combo = if combo_depth < 0xFFFF_FFFF {
                    combo_depth + 1
                } else {
                    combo_depth
                };
                self.phase = Phase::Settling(next_combo, age_and_attack);
            } else {
                enemy.attack(self.strength);
                self.strength = 0;
                self.phase = if age_and_attack {
                    Phase::AgeAndAttack
                } else {
                    Phase::NewPiece
                };
            }
        }
    }

    /// Advance one tick of game time. `dt_ms` is the elapsed time in
    /// milliseconds; `enemy` receives any attack this board dispatches
    /// on settling; `settled` is the rendering collaborator's signal
    /// that no block sprite is still mid-animation, which gates the
    /// settle phase. Each call performs at most one phase transition:
    ///
    /// - NewPiece: the queued piece spawns at the top of the field and
    ///   a fresh random piece is queued; on to PieceFalling.
    /// - PieceFalling: the gravity timer accumulates; past one speed
    ///   interval the piece steps down, and when it cannot, after a
    ///   grace window, it locks into the grid cell by cell; on to
    ///   Settling.
    /// - Settling: see `settle_outcome`.
    /// - AgeAndAttack: every garbage counter ages one tick, then the
    ///   oldest queued attack (if any) materializes above the field
    ///   and drops in, alternating sides per attack; on to Settling.
    pub fn update(&mut self, dt_ms: u64, enemy: &mut Board, settled: bool)
        requires
            old(self).wf(),
            old(enemy).wf(),
        ensures
            final(self).wf(),
            final(enemy).wf(),
            old(self)@.phase is NewPiece ==> {
                &&& final(enemy)@ == old(enemy)@
                &&& final(self)@ == (BoardModel {
                    current_piece: Some(
                        old(self)@.next_piece.unwrap().spec_dup_to(
                            GridPosition { x: 3, y: old(self)@.dimensions.h as i8 },
                            Direction::Up,
                        ),
                    ),
                    next_piece: final(self)@.next_piece,
                    phase: Phase::PieceFalling,
                    ..old(self)@
                })
                &&& final(self)@.next_piece matches Some(p) && p.position == (GridPosition {
                    x: 0,
                    y: 0,
                }) && p.direction == Direction::Up && p.floor_kicks == 0
            },
            old(self)@.phase is PieceFalling ==> {
                let acc1 = sat_add_u64(old(self)@.step_accumulator, dt_ms);
                &&& final(enemy)@ == old(enemy)@
                &&& if acc1 <= old(self)@.speed {
                    final(self)@ == (BoardModel { step_accumulator: acc1, ..old(self)@ })
                } else {
                    match old(self)@.current_piece {
                        Some(p) => {
                            let down = p.spec_piece_offset(Direction::Down);
                            if BoardModel::piece_placeable(old(self)@.grid, down) {
                                final(self)@ == (BoardModel {
                                    current_piece: Some(down),
                                    step_accumulator: sat_sub_u64(acc1, SLOW_SPEED_MS),
                                    ..old(self)@
                                })
                            } else if acc1 > DROP_WAIT_MS {
                                let pst = place_fold(
                                    PlaceState { grid: old(self)@.grid, events: old(self)@.events },
                                    p.spec_blocks_seq(),
                                    0,
                                );
                                final(self)@ == (BoardModel {
                                    grid: pst.grid,
                                    events: pst.events,
                                    current_piece: None,
                                    phase: Phase::Settling(0, true),
                                    step_accumulator: sat_sub_u64(acc1, SLOW_SPEED_MS),
                                    ..old(self)@
                                })
                            } else {
                                final(self)@ == (BoardModel {
                                    step_accumulator: acc1,
                                    ..old(self)@
                                })
                            }
                        },
                        None => final(self)@ == (BoardModel {
                            step_accumulator: acc1,
                            ..old(self)@
                        }),
                    }
                }
            },
            old(self)@.phase matches Phase::Settling(combo_depth, age_and_attack) ==> {
                if settled {
                    settle_outcome(
                        old(self)@,
                        final(self)@,
                        old(enemy)@,
                        final(enemy)@,
                        combo_depth,
                        age_and_attack,
                    )
                } else {
                    final(self)@ == old(self)@ && final(enemy)@ == old(enemy)@
                }
            },
            old(self)@.phase is AgeAndAttack ==> {
                let aged = old(self)@.grid.aged();
                &&& final(enemy)@ == old(enemy)@
                &&& if old(self)@.attacks.len() == 0 {
                    final(self)@ == (BoardModel {
                        grid: aged,
                        phase: Phase::Settling(0, false),
                        ..old(self)@
                    })
                } else {
                    exists|bs: Seq<PositionedBlock>|
                        {
                            &&& attack_blocks_ok(
                                bs,
                                old(self)@.attacks[0],
                                old(self)@.dimensions,
                                old(self)@.attack_from_left,
                            )
                            &&& {
                                let pst = place_fold(
                                    PlaceState { grid: aged, events: old(self)@.events },
                                    bs,
                                    0,
                                );
                                final(self)@ == (BoardModel {
                                    grid: pst.grid,
                                    events: pst.events,
                                    attacks: old(self)@.attacks.drop_first(),
                                    attack_from_left: !old(self)@.attack_from_left,
                                    phase: Phase::Settling(0, false),
                                    ..old(self)@
                                })
                            }
                        }
                }
            },
    {
        match self.phase {
            Phase::AgeAndAttack => {
                self.phase_age_and_attack();
            },
            Phase::NewPiece => {
                self.phase_new_piece();
            },
            Phase::PieceFalling => {
                self.phase_piece_falling(dt_ms);
            },
            Phase::Settling(combo_depth, age_and_attack) => {
                if settled {
                    self.phase_settling(enemy, combo_depth, age_and_attack);
                }
            },
        }
    }
}


impl Board {
    /// A printable dump of the board's grid, top row first.
    pub fn debug(&self) -> (r: Vec<String>)
        requires
            self.wf(),
        ensures
            r@.len() == self@.grid.height,
            forall|k: int|
                0 <= k < r@.len() ==> (#[trigger] r@[k])@ == crate::block_grid::row_chars_spec(
                    self@.grid,
                    self@.grid.height - 1 - k,
                    self@.grid.width,
                ),
    {
        self.grid.debug()
    }
}

} // verus!
