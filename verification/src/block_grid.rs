//! The board's spatial storage: a fixed-size 2D array of cells, with
//! bounds-checked lookups, emptiness tests and gravity-drop queries.
//!
//! The grid knows no game rules. It stores blocks at cells and keeps
//! one invariant: a stored block's own position always names the cell
//! that holds it.

use vstd::prelude::*;
use vstd::pervasive::VecAdditionalExecFns;

use crate::values::Dimension;
use crate::values::Direction;
use crate::values::GridPosition;
use crate::values::PositionedBlock;
use crate::values::sides_char_spec;

verus! {

/// The mathematical model of a grid: a width, a row count (twice the
/// visible height, for headroom above the play field), and one cell
/// per coordinate, row by row from the bottom.
pub struct GridModel {
    pub width: int,
    pub height: int,
    pub cells: Seq<Option<PositionedBlock>>,
}

impl GridModel {
    /// Cells are listed bottom row first, left to right within a row.
    pub open spec fn idx(self, x: int, y: int) -> int {
        y * self.width + x
    }

    pub open spec fn in_bounds(self, x: int, y: int) -> bool {
        0 <= x < self.width && 0 <= y < self.height
    }

    /// A grid is well formed when its cell list matches its size and
    /// every stored block's position names its own cell.
    pub open spec fn wf(self) -> bool {
        &&& 1 <= self.width <= 127
        &&& 1 <= self.height <= 126
        &&& self.cells.len() == self.width * self.height
        &&& forall|x: int, y: int|
            self.in_bounds(x, y) ==> match #[trigger] self.cells[self.idx(x, y)] {
                Some(pb) => pb.position.x == x && pb.position.y == y,
                None => true,
            }
    }

    /// The occupant of a cell; out-of-bounds coordinates hold nothing.
    pub open spec fn at(self, x: int, y: int) -> Option<PositionedBlock> {
        if self.in_bounds(x, y) {
            self.cells[self.idx(x, y)]
        } else {
            None
        }
    }

    pub open spec fn at_pos(self, pos: GridPosition) -> Option<PositionedBlock> {
        self.at(pos.x as int, pos.y as int)
    }

    /// "Empty" means "safe to occupy": inside the grid and vacant.
    pub open spec fn empty(self, x: int, y: int) -> bool {
        self.in_bounds(x, y) && self.at(x, y) is None
    }

    pub open spec fn empty_pos(self, pos: GridPosition) -> bool {
        self.empty(pos.x as int, pos.y as int)
    }

    /// The grid with `pb` stored at its own position.
    pub open spec fn set_block(self, pb: PositionedBlock) -> GridModel {
        GridModel {
            cells: self.cells.update(
                self.idx(pb.position.x as int, pb.position.y as int),
                Some(pb),
            ),
            ..self
        }
    }

    /// The grid with the given cell vacated.
    pub open spec fn clear_at(self, x: int, y: int) -> GridModel {
        GridModel { cells: self.cells.update(self.idx(x, y), None), ..self }
    }

    /// Where a block comes to rest if dropped straight down from its
    /// position: the lowest cell reachable through empty cells.
    pub open spec fn bottom(self, pb: PositionedBlock) -> PositionedBlock
        decreases pb.position.y + 128,
    {
        if pb.position.y + 128 > 0 && self.empty(pb.position.x as int, pb.position.y - 1) {
            self.bottom(
                PositionedBlock {
                    position: GridPosition { x: pb.position.x, y: (pb.position.y - 1) as i8 },
                    ..pb
                },
            )
        } else {
            pb
        }
    }

    /// The occupants of the first `n` cells, in cell order.
    pub open spec fn blocks_prefix(self, n: int) -> Seq<PositionedBlock>
        decreases n,
    {
        if n <= 0 {
            Seq::empty()
        } else {
            let rest = self.blocks_prefix(n - 1);
            match self.cells[n - 1] {
                Some(pb) => rest.push(pb),
                None => rest,
            }
        }
    }

    /// Every stored block, ordered left to right, bottom to top. Later
    /// engines depend on this order.
    pub open spec fn blocks(self) -> Seq<PositionedBlock> {
        self.blocks_prefix(self.cells.len() as int)
    }

    /// The grid with every block's age counted one tick down.
    pub open spec fn aged(self) -> GridModel {
        GridModel {
            cells: self.cells.map_values(
                |c: Option<PositionedBlock>|
                    match c {
                        Some(pb) => Some(pb.spec_do_age()),
                        None => None,
                    },
            ),
            ..self
        }
    }
}

/// Distinct in-bounds coordinates map to distinct cell indices.
pub proof fn lemma_idx_injective(g: GridModel, x1: int, y1: int, x2: int, y2: int)
    requires
        g.in_bounds(x1, y1),
        g.in_bounds(x2, y2),
        g.idx(x1, y1) == g.idx(x2, y2),
    ensures
        x1 == x2 && y1 == y2,
{
    assert(x1 == x2 && y1 == y2) by (nonlinear_arith)
        requires
            0 <= x1 < g.width,
            0 <= x2 < g.width,
            y1 * g.width + x1 == y2 * g.width + x2,
    ;
}

/// An in-bounds coordinate's cell index lies inside the cell list.
pub proof fn lemma_idx_bounds(g: GridModel, x: int, y: int)
    requires
        g.wf(),
        g.in_bounds(x, y),
    ensures
        0 <= g.idx(x, y) < g.cells.len(),
        g.idx(x, y) < 16002,
{
    assert(0 <= y * g.width + x < g.width * g.height && y * g.width + x < 16002)
        by (nonlinear_arith)
        requires
            0 <= x < g.width <= 127,
            0 <= y < g.height <= 126,
    ;
}

/// Storing a block at its own cell preserves well-formedness and
/// changes exactly that cell.
pub proof fn lemma_set_block(g: GridModel, pb: PositionedBlock)
    requires
        g.wf(),
        g.in_bounds(pb.position.x as int, pb.position.y as int),
    ensures
        g.set_block(pb).wf(),
        g.set_block(pb).width == g.width,
        g.set_block(pb).height == g.height,
        forall|x: int, y: int|
            #[trigger] g.set_block(pb).at(x, y) == if x == pb.position.x as int && y
                == pb.position.y as int {
                Some(pb)
            } else {
                g.at(x, y)
            },
{
    let g2 = g.set_block(pb);
    lemma_idx_bounds(g, pb.position.x as int, pb.position.y as int);
    assert forall|x: int, y: int| g.in_bounds(x, y) implies match #[trigger] g2.cells[g2.idx(
        x,
        y,
    )] {
        Some(q) => q.position.x == x && q.position.y == y,
        None => true,
    } by {
        lemma_idx_bounds(g, x, y);
        if g2.idx(x, y) == g.idx(pb.position.x as int, pb.position.y as int) {
            lemma_idx_injective(g, x, y, pb.position.x as int, pb.position.y as int);
        }
    }
    assert forall|x: int, y: int| true implies #[trigger] g2.at(x, y) == if x
        == pb.position.x as int && y == pb.position.y as int {
        Some(pb)
    } else {
        g.at(x, y)
    } by {
        if g.in_bounds(x, y) {
            lemma_idx_bounds(g, x, y);
            if g.idx(x, y) == g.idx(pb.position.x as int, pb.position.y as int) {
                lemma_idx_injective(g, x, y, pb.position.x as int, pb.position.y as int);
            }
        }
    }
}

/// Vacating a cell preserves well-formedness and changes exactly it.
pub proof fn lemma_clear_at(g: GridModel, cx: int, cy: int)
    requires
        g.wf(),
        g.in_bounds(cx, cy),
    ensures
        g.clear_at(cx, cy).wf(),
        g.clear_at(cx, cy).width == g.width,
        g.clear_at(cx, cy).height == g.height,
        forall|x: int, y: int|
            #[trigger] g.clear_at(cx, cy).at(x, y) == if x == cx && y == cy {
                None::<PositionedBlock>
            } else {
                g.at(x, y)
            },
{
    let g2 = g.clear_at(cx, cy);
    lemma_idx_bounds(g, cx, cy);
    assert forall|x: int, y: int| g.in_bounds(x, y) implies match #[trigger] g2.cells[g2.idx(
        x,
        y,
    )] {
        Some(q) => q.position.x == x && q.position.y == y,
        None => true,
    } by {
        lemma_idx_bounds(g, x, y);
        if g2.idx(x, y) == g.idx(cx, cy) {
            lemma_idx_injective(g, x, y, cx, cy);
        }
    }
    assert forall|x: int, y: int| true implies #[trigger] g2.at(x, y) == if x == cx && y == cy {
        None::<PositionedBlock>
    } else {
        g.at(x, y)
    } by {
        if g.in_bounds(x, y) {
            lemma_idx_bounds(g, x, y);
            if g.idx(x, y) == g.idx(cx, cy) {
                lemma_idx_injective(g, x, y, cx, cy);
            }
        }
    }
}

/// The play-field storage: `width` columns by `height` rows of cells,
/// where `height` is twice the visible field height so that attacks
/// can materialize above the field before dropping in.
pub struct BlockGrid {
    cells: Vec<Option<PositionedBlock>>,
    width: usize,
    height: usize,
}

impl View for BlockGrid {
    type V = GridModel;

    closed spec fn view(&self) -> GridModel {
        GridModel { width: self.width as int, height: self.height as int, cells: self.cells@ }
    }
}

impl BlockGrid {
    pub open spec fn wf(&self) -> bool {
        self@.wf()
    }

    /// An empty grid for a `dimensions.w` by `dimensions.h` play field
    /// (with headroom, cells span twice that height).
    pub fn new(dimensions: Dimension) -> (r: BlockGrid)
        requires
            1 <= dimensions.w <= 127,
            1 <= dimensions.h <= 63,
        ensures
            r.wf(),
            r@.width == dimensions.w as int,
            r@.height == 2 * dimensions.h as int,
            forall|x: int, y: int| #[trigger] r@.at(x, y) is None,
    {
        let width = dimensions.w() as usize;
        let height = (dimensions.h() * 2) as usize;
        proof {
            assert(width * height <= 16002) by (nonlinear_arith)
                requires
                    0 <= width <= 127,
                    0 <= height <= 126,
            ;
        }
        let total = width * height;

        let mut cells: Vec<Option<PositionedBlock>> = Vec::new();
        let mut i: usize = 0;
        while i < total
            invariant
                i <= total,
                cells@.len() == i as int,
                forall|j: int| 0 <= j < i ==> #[trigger] cells@[j] is None,
            decreases total - i,
        {
            cells.push(None);
            i = i + 1;
        }

        let r = BlockGrid { cells, width, height };
        proof {
            assert forall|x: int, y: int| r@.in_bounds(x, y) implies match #[trigger] r@.cells[r@.idx(x, y)] {
                Some(pb) => pb.position.x == x && pb.position.y == y,
                None => true,
            } by {
                lemma_idx_bounds_raw(r@.width, r@.height, x, y);
            }
            assert forall|x: int, y: int| true implies #[trigger] r@.at(x, y) is None by {
                if r@.in_bounds(x, y) {
                    lemma_idx_bounds_raw(r@.width, r@.height, x, y);
                }
            }
        }
        r
    }

    /// The visible play-field height (the cell storage spans twice it).
    pub fn h(&self) -> (r: u32)
        requires
            self.wf(),
        ensures
            r as int == self@.height / 2,
    {
        (self.height / 2) as u32
    }

    /// Store a block at its own position, overwriting any occupant.
    pub fn set(&mut self, block: PositionedBlock) -> (r: PositionedBlock)
        requires
            old(self).wf(),
            old(self)@.in_bounds(block.position.x as int, block.position.y as int),
        ensures
            final(self).wf(),
            final(self)@ == old(self)@.set_block(block),
            r == block,
    {
        proof {
            lemma_idx_bounds(self@, block.position.x as int, block.position.y as int);
            lemma_set_block(self@, block);
        }
        let x = block.x() as usize;
        let y = block.y() as usize;
        let i: usize = y * self.width + x;
        self.cells.set(i, Some(block));
        block
    }

    /// Remove and return the occupant of a cell.
    pub fn clear(&mut self, position: GridPosition) -> (r: Option<PositionedBlock>)
        requires
            old(self).wf(),
            old(self)@.in_bounds(position.x as int, position.y as int),
        ensures
            final(self).wf(),
            final(self)@ == old(self)@.clear_at(position.x as int, position.y as int),
            r == old(self)@.at_pos(position),
    {
        proof {
            lemma_idx_bounds(self@, position.x as int, position.y as int);
            lemma_clear_at(self@, position.x as int, position.y as int);
        }
        let existing = self.at(position);
        let x = position.x() as usize;
        let y = position.y() as usize;
        let i: usize = y * self.width + x;
        self.cells.set(i, None);
        existing
    }

    /// Whether a block could occupy this cell: inside the grid and
    /// currently vacant. Out-of-bounds cells are never "empty".
    pub fn empty(&self, position: PositionedBlock) -> (r: bool)
        requires
            self.wf(),
        ensures
            r == self@.empty_pos(position.position),
    {
        proof {
            if self@.in_bounds(position.position.x as int, position.position.y as int) {
                lemma_idx_bounds(self@, position.position.x as int, position.position.y as int);
            }
        }
        if position.x() >= 0 && position.y() >= 0 {
            let x = position.x() as usize;
            let y = position.y() as usize;
            if x < self.width && y < self.height {
                let i: usize = y * self.width + x;
                return self.cells[i].is_none();
            }
        }
        false
    }

    /// The occupant of a cell; `None` outside the grid, never a panic.
    pub fn at(&self, position: GridPosition) -> (r: Option<PositionedBlock>)
        requires
            self.wf(),
        ensures
            r == self@.at_pos(position),
    {
        proof {
            if self@.in_bounds(position.x as int, position.y as int) {
                lemma_idx_bounds(self@, position.x as int, position.y as int);
            }
        }
        if position.x() >= 0 && position.y() >= 0 {
            let x = position.x() as usize;
            let y = position.y() as usize;
            if x < self.width && y < self.height {
                let i: usize = y * self.width + x;
                return self.cells[i];
            }
        }
        None
    }

    /// Drop a block as far as it can fall: repeatedly step down while
    /// the next cell is empty. A block that cannot fall comes back at
    /// its own position; the grid itself is never changed.
    pub fn bottom(&self, pb: PositionedBlock) -> (r: PositionedBlock)
        requires
            self.wf(),
            pb.position.y > i8::MIN,
        ensures
            r == self@.bottom(pb),
            r.block == pb.block,
            r.position.x == pb.position.x,
            r.position.y <= pb.position.y,
            self@.in_bounds(pb.position.x as int, pb.position.y as int) ==> self@.in_bounds(
                r.position.x as int,
                r.position.y as int,
            ),
            forall|j: int|
                r.position.y <= j < pb.position.y ==> self@.empty(pb.position.x as int, j),
            !self@.empty(r.position.x as int, r.position.y - 1),
            !self@.empty_pos(pb.position.spec_offset(Direction::Down)) ==> r == pb,
    {
        let ghost g = self@;
        let mut cell = pb;
        loop
            invariant
                self.wf(),
                self@ == g,
                cell.block == pb.block,
                cell.position.x == pb.position.x,
                cell.position.y <= pb.position.y,
                cell.position.y > i8::MIN,
                g.bottom(cell) == g.bottom(pb),
                forall|j: int| cell.position.y <= j < pb.position.y ==> g.empty(pb.position.x as int, j),
                cell.position.y < pb.position.y ==> g.in_bounds(cell.position.x as int, cell.position.y as int),
            ensures
                cell == g.bottom(pb),
            decreases cell.position.y + 128,
        {
            let new_cell = cell.offset(Direction::Down);

            if self.empty(new_cell) {
                cell = new_cell;
            } else {
                break ;
            }
        }
        proof {
            lemma_bottom_props(g, pb);
        }
        cell
    }

    /// Every stored block, left to right, bottom to top. This order is
    /// load-bearing: drop and fuse resolution visit lower rows first
    /// and, within a row, left cells first.
    pub fn blocks(&self) -> (r: Vec<PositionedBlock>)
        requires
            self.wf(),
        ensures
            r@ == self@.blocks(),
    {
        let mut list: Vec<PositionedBlock> = Vec::new();
        let n = self.cells.len();
        let mut i: usize = 0;
        while i < n
            invariant
                i <= n,
                n == self@.cells.len(),
                self.wf(),
                list@ == self@.blocks_prefix(i as int),
            decreases n - i,
        {
            if let Some(pb) = self.cells[i] {
                list.push(pb);
            }
            i = i + 1;
        }
        list
    }

    /// Count every stored block's age one tick down.
    pub fn age(&mut self)
        requires
            old(self).wf(),
        ensures
            final(self).wf(),
            final(self)@ == old(self)@.aged(),
    {
        let ghost g0 = self@;
        let n = self.cells.len();
        let mut i: usize = 0;
        while i < n
            invariant
                i <= n,
                n == g0.cells.len(),
                self@.width == g0.width,
                self@.height == g0.height,
                self@.cells.len() == g0.cells.len(),
                forall|j: int|
                    0 <= j < i ==> #[trigger] self@.cells[j] == match g0.cells[j] {
                        Some(pb) => Some(pb.spec_do_age()),
                        None => None::<PositionedBlock>,
                    },
                forall|j: int| i <= j < n ==> #[trigger] self@.cells[j] == g0.cells[j],
            decreases n - i,
        {
            match self.cells[i] {
                Some(x) => {
                    self.cells.set(i, Some(x.do_age()));
                },
                None => {},
            }
            i = i + 1;
        }
        proof {
            assert(self@.cells =~= g0.aged().cells);
            assert(self@ =~= g0.aged());
            lemma_aged_wf(g0);
        }
    }
}

/// Aging preserves well-formedness: positions are untouched.
pub proof fn lemma_aged_wf(g: GridModel)
    requires
        g.wf(),
    ensures
        g.aged().wf(),
        g.aged().width == g.width,
        g.aged().height == g.height,
{
    let g2 = g.aged();
    assert forall|x: int, y: int| g2.in_bounds(x, y) implies match #[trigger] g2.cells[g2.idx(
        x,
        y,
    )] {
        Some(pb) => pb.position.x == x && pb.position.y == y,
        None => true,
    } by {
        lemma_idx_bounds(g, x, y);
        assert(g2.cells[g.idx(x, y)] == match g.cells[g.idx(x, y)] {
            Some(pb) => Some(pb.spec_do_age()),
            None => None::<PositionedBlock>,
        });
    }
}

/// As `lemma_idx_bounds`, without requiring full well-formedness.
proof fn lemma_idx_bounds_raw(width: int, height: int, x: int, y: int)
    requires
        0 <= x < width,
        0 <= y < height,
    ensures
        0 <= y * width + x < width * height,
{
    assert(0 <= y * width + x < width * height) by (nonlinear_arith)
        requires
            0 <= x < width,
            0 <= y < height,
    ;
}

impl GridModel {
    /// How far a walk in `d` can still go before leaving the grid.
    pub open spec fn walk_measure(self, pos: GridPosition, d: Direction) -> int {
        match d {
            Direction::Up => self.height - pos.y,
            Direction::Down => pos.y + 129,
            Direction::Left => pos.x + 129,
            Direction::Right => self.width - pos.x,
        }
    }

    /// Follow the grid from `cur` in direction `d` until a cell whose
    /// borders include the side facing `d` is found: the far corner of
    /// a well-formed compound. `None` when the walk runs into a vacant
    /// or out-of-bounds cell, which a well-formed compound never has.
    pub open spec fn walk_corner(self, cur: PositionedBlock, d: Direction) -> Option<
        PositionedBlock,
    >
        decreases self.walk_measure(cur.position, d)
            when self.wf()
    {
        if cur.block.borders.spec_intersects(d.spec_to_side()) {
            Some(cur)
        } else {
            match self.at_pos(cur.position.spec_offset(d)) {
                Some(b) => {
                    if self.walk_measure(b.position, d) < self.walk_measure(cur.position, d) {
                        self.walk_corner(b, d)
                    } else {
                        None
                    }
                },
                None => None,
            }
        }
    }
}

/// What `GridModel::bottom` returns: the same block, in the same
/// column, no higher than it started, with only empty cells passed on
/// the way down, resting on the first non-empty cell below.
pub proof fn lemma_bottom_props(g: GridModel, pb: PositionedBlock)
    requires
        g.wf(),
        pb.position.y > i8::MIN,
    ensures
        g.bottom(pb).block == pb.block,
        g.bottom(pb).position.x == pb.position.x,
        g.bottom(pb).position.y <= pb.position.y,
        g.in_bounds(pb.position.x as int, pb.position.y as int) ==> g.in_bounds(
            g.bottom(pb).position.x as int,
            g.bottom(pb).position.y as int,
        ),
        forall|j: int|
            g.bottom(pb).position.y <= j < pb.position.y ==> g.empty(pb.position.x as int, j),
        !g.empty(g.bottom(pb).position.x as int, g.bottom(pb).position.y - 1),
        !g.empty_pos(pb.position.spec_offset(Direction::Down)) ==> g.bottom(pb) == pb,
    decreases pb.position.y + 128,
{
    if pb.position.y + 128 > 0 && g.empty(pb.position.x as int, pb.position.y - 1) {
        let down = PositionedBlock {
            position: GridPosition { x: pb.position.x, y: (pb.position.y - 1) as i8 },
            ..pb
        };
        lemma_bottom_props(g, down);
    }
}


/// A record of one block marked for destruction, with its chain depth.
/// The kill list is keyed by cell position: while a search runs, the
/// grid does not change, so a position names exactly one block.
pub open spec fn kill_index(s: Seq<(PositionedBlock, u8)>, pos: GridPosition) -> int
    decreases s.len(),
{
    if s.len() == 0 {
        0
    } else if s[0].0.position == pos {
        0
    } else {
        1 + kill_index(s.drop_first(), pos)
    }
}

/// The recorded chain depth of the block at `pos`, if any.
pub open spec fn kill_lookup(s: Seq<(PositionedBlock, u8)>, pos: GridPosition) -> Option<u8> {
    if kill_index(s, pos) < s.len() {
        Some(s[kill_index(s, pos)].1)
    } else {
        None
    }
}

/// Record depth `d` for the block at `pb`'s position: update the
/// existing entry (keeping its stored block) or append a new one.
pub open spec fn kill_insert(
    s: Seq<(PositionedBlock, u8)>,
    pb: PositionedBlock,
    d: u8,
) -> Seq<(PositionedBlock, u8)> {
    let i = kill_index(s, pb.position);
    if i < s.len() {
        s.update(i, (s[i].0, d))
    } else {
        s.push((pb, d))
    }
}

pub proof fn lemma_kill_index(s: Seq<(PositionedBlock, u8)>, pos: GridPosition)
    ensures
        0 <= kill_index(s, pos) <= s.len(),
        kill_index(s, pos) < s.len() ==> s[kill_index(s, pos)].0.position == pos,
        forall|j: int| 0 <= j < kill_index(s, pos) ==> (#[trigger] s[j]).0.position != pos,
    decreases s.len(),
{
    if s.len() > 0 && s[0].0.position != pos {
        lemma_kill_index(s.drop_first(), pos);
        assert forall|j: int| 0 <= j < kill_index(s, pos) implies (#[trigger] s[j]).0.position
            != pos by {
            if j > 0 {
                assert(s.drop_first()[j - 1] == s[j]);
            }
        }
    }
}

/// Two lists whose entries sit at the same positions index alike.
pub proof fn lemma_kill_index_congruent(
    s1: Seq<(PositionedBlock, u8)>,
    s2: Seq<(PositionedBlock, u8)>,
    pos: GridPosition,
)
    requires
        s1.len() == s2.len(),
        forall|j: int| 0 <= j < s1.len() ==> (#[trigger] s1[j]).0.position == s2[j].0.position,
    ensures
        kill_index(s1, pos) == kill_index(s2, pos),
    decreases s1.len(),
{
    if s1.len() > 0 {
        assert(s1[0].0.position == s2[0].0.position);
        if s1[0].0.position != pos {
            assert forall|j: int| 0 <= j < s1.drop_first().len() implies (#[trigger] s1.drop_first()[j]).0.position
                == s2.drop_first()[j].0.position by {
                assert(s1.drop_first()[j] == s1[j + 1]);
                assert(s2.drop_first()[j] == s2[j + 1]);
            }
            lemma_kill_index_congruent(s1.drop_first(), s2.drop_first(), pos);
        }
    }
}

/// After an insert, lookup finds the new depth at the inserted
/// position and is unchanged everywhere else.
pub proof fn lemma_kill_insert_lookup(
    s: Seq<(PositionedBlock, u8)>,
    pb: PositionedBlock,
    d: u8,
    q: GridPosition,
)
    ensures
        kill_lookup(kill_insert(s, pb, d), q) == if q == pb.position {
            Some(d)
        } else {
            kill_lookup(s, q)
        },
{
    let i = kill_index(s, pb.position);
    let s2 = kill_insert(s, pb, d);
    lemma_kill_index(s, pb.position);
    lemma_kill_index(s, q);
    lemma_kill_index(s2, q);
    if i < s.len() {
        lemma_kill_index_congruent(s, s2, q);
    } else {
        if kill_index(s2, q) < s2.len() && kill_index(s2, q) < s.len() {
            lemma_kill_index_congruent_prefix(s, s2, q);
        } else {
        }
        lemma_kill_index_push(s, (pb, d), q);
    }
}

/// Indexing a pushed list: the old entries are searched first.
proof fn lemma_kill_index_push(
    s: Seq<(PositionedBlock, u8)>,
    e: (PositionedBlock, u8),
    q: GridPosition,
)
    ensures
        kill_index(s.push(e), q) == if kill_index(s, q) < s.len() {
            kill_index(s, q)
        } else if e.0.position == q {
            s.len() as int
        } else {
            s.len() as int + 1
        },
    decreases s.len(),
{
    lemma_kill_index(s, q);
    if s.len() == 0 {
        assert(s.push(e)[0] == e);
        assert(s.push(e).len() == 1);
        if e.0.position != q {
            assert(s.push(e).drop_first() =~= Seq::<(PositionedBlock, u8)>::empty());
            assert(kill_index(Seq::<(PositionedBlock, u8)>::empty(), q) == 0);
            assert(kill_index(s.push(e), q) == 1);
        } else {
            assert(kill_index(s.push(e), q) == 0);
        }
    } else {
        assert(s.push(e)[0] == s[0]);
        if s[0].0.position == q {
            assert(kill_index(s.push(e), q) == 0);
            assert(kill_index(s, q) == 0);
        } else {
            assert(s.push(e).drop_first() =~= s.drop_first().push(e));
            lemma_kill_index_push(s.drop_first(), e, q);
            assert(kill_index(s.push(e), q) == 1 + kill_index(s.drop_first().push(e), q));
            assert(kill_index(s, q) == 1 + kill_index(s.drop_first(), q));
            lemma_kill_index(s.drop_first(), q);
        }
    }
}

proof fn lemma_kill_index_congruent_prefix(
    s: Seq<(PositionedBlock, u8)>,
    s2: Seq<(PositionedBlock, u8)>,
    q: GridPosition,
)
    requires
        s2.len() == s.len() + 1,
        forall|j: int| 0 <= j < s.len() ==> (#[trigger] s2[j]).0.position == s[j].0.position,
    ensures
        kill_index(s2, q) < s.len() ==> kill_index(s2, q) == kill_index(s, q),
{
    lemma_kill_index(s, q);
    lemma_kill_index(s2, q);
    let i2 = kill_index(s2, q);
    let i1 = kill_index(s, q);
    if i2 < s.len() {
        if i1 < i2 {
            assert(s2[i1].0.position == s[i1].0.position);
        } else if i2 < i1 {
        }
    }
}


/// The position of flat cell index `i`.
pub open spec fn pos_at(g: GridModel, i: int) -> GridPosition {
    GridPosition { x: (i % g.width) as i8, y: (i / g.width) as i8 }
}

/// The termination potential a kill list assigns one cell: its
/// recorded depth, or 256 when unrecorded. Every successful depth
/// record strictly lowers a cell's potential.
pub open spec fn cell_pot(s: Seq<(PositionedBlock, u8)>, pos: GridPosition) -> nat {
    match kill_lookup(s, pos) {
        Some(d) => d as nat,
        None => 256,
    }
}

pub open spec fn pot_prefix(g: GridModel, s: Seq<(PositionedBlock, u8)>, n: int) -> nat
    decreases n,
{
    if n <= 0 {
        0
    } else {
        pot_prefix(g, s, n - 1) + cell_pot(s, pos_at(g, n - 1))
    }
}

/// The total termination potential of a kill list over a grid.
pub open spec fn pot(g: GridModel, s: Seq<(PositionedBlock, u8)>) -> nat {
    pot_prefix(g, s, g.width * g.height)
}

/// Cell indices and positions are inverse to one another.
pub proof fn lemma_pos_at_vs_idx(g: GridModel, i: int, pos: GridPosition)
    requires
        g.wf(),
        0 <= i < g.width * g.height,
        g.in_bounds(pos.x as int, pos.y as int),
    ensures
        (pos_at(g, i) == pos) <==> (i == g.idx(pos.x as int, pos.y as int)),
{
    let w = g.width;
    let mx = i % w;
    let dy = i / w;
    vstd::arithmetic::div_mod::lemma_fundamental_div_mod(i, w);
    vstd::arithmetic::div_mod::lemma_mod_pos_bound(i, w);
    assert(0 <= dy) by (nonlinear_arith)
        requires
            w >= 1,
            0 <= i,
            i == w * dy + mx,
            0 <= mx < w,
    ;
    assert(dy < g.height) by (nonlinear_arith)
        requires
            w >= 1,
            0 <= i < w * g.height,
            i == w * dy + mx,
            0 <= mx < w,
    ;
    let px = pos.x as int;
    let py = pos.y as int;
    assert((i == py * w + px) <==> (mx == px && dy == py)) by (nonlinear_arith)
        requires
            i == w * dy + mx,
            0 <= mx < w,
            0 <= px < w,
            0 <= dy,
            0 <= py,
    ;
    assert((pos_at(g, i) == pos) <==> (mx == px && dy == py));
}

/// Recording a strictly smaller depth for an in-bounds cell strictly
/// lowers the potential over any prefix that covers the cell, and
/// leaves every other prefix unchanged.
pub proof fn lemma_pot_insert(
    g: GridModel,
    s: Seq<(PositionedBlock, u8)>,
    pb: PositionedBlock,
    d: u8,
    n: int,
)
    requires
        g.wf(),
        g.in_bounds(pb.position.x as int, pb.position.y as int),
        (d as nat) < cell_pot(s, pb.position),
        n <= g.width * g.height,
    ensures
        g.idx(pb.position.x as int, pb.position.y as int) < n ==> pot_prefix(
            g,
            kill_insert(s, pb, d),
            n,
        ) < pot_prefix(g, s, n),
        g.idx(pb.position.x as int, pb.position.y as int) >= n ==> pot_prefix(
            g,
            kill_insert(s, pb, d),
            n,
        ) == pot_prefix(g, s, n),
    decreases n,
{
    let s2 = kill_insert(s, pb, d);
    if n > 0 {
        lemma_pot_insert(g, s, pb, d, n - 1);
        lemma_kill_insert_lookup(s, pb, d, pos_at(g, n - 1));
        lemma_pos_at_vs_idx(g, n - 1, pb.position);
        lemma_idx_bounds_pos(g, pb.position);
    }
}

/// An in-bounds position's index lies under the grid's cell count.
pub proof fn lemma_idx_bounds_pos(g: GridModel, pos: GridPosition)
    requires
        1 <= g.width,
        g.in_bounds(pos.x as int, pos.y as int),
    ensures
        0 <= g.idx(pos.x as int, pos.y as int) < g.width * g.height,
{
    lemma_idx_bounds_raw(g.width, g.height, pos.x as int, pos.y as int);
}

/// One suspended neighbor scan of the chain search: a block under
/// examination, the depth its chain entered it with, and how many of
/// its four neighbor directions are already done.
#[derive(Copy, Clone, Debug)]
pub struct BreakFrame {
    pub block: PositionedBlock,
    pub depth: u8,
    pub dir_ix: u8,
}

pub open spec fn frame_term(fr: BreakFrame) -> nat {
    if fr.dir_ix < 4 {
        (5 - fr.dir_ix) as nat
    } else {
        1
    }
}

pub open spec fn stack_measure(stack: Seq<BreakFrame>) -> nat
    decreases stack.len(),
{
    if stack.len() == 0 {
        0
    } else {
        stack_measure(stack.drop_last()) + frame_term(stack.last())
    }
}

pub proof fn lemma_stack_measure_pop(stack: Seq<BreakFrame>)
    requires
        stack.len() > 0,
    ensures
        stack_measure(stack.drop_last()) < stack_measure(stack),
{
}

pub proof fn lemma_stack_measure_set_last(stack: Seq<BreakFrame>, fr: BreakFrame)
    requires
        stack.len() > 0,
    ensures
        stack_measure(stack.update(stack.len() - 1, fr)) == stack_measure(stack.drop_last())
            + frame_term(fr),
{
    let s2 = stack.update(stack.len() - 1, fr);
    assert(s2.drop_last() =~= stack.drop_last());
    assert(s2.last() == fr);
}

pub proof fn lemma_stack_measure_push(stack: Seq<BreakFrame>, fr: BreakFrame)
    ensures
        stack_measure(stack.push(fr)) == stack_measure(stack) + frame_term(fr),
{
    let s2 = stack.push(fr);
    assert(s2.drop_last() =~= stack);
    assert(s2.last() == fr);
}

/// The directions a neighbor scan visits, in order.
pub open spec fn spec_direction_of(i: u8) -> Direction {
    if i == 0 {
        Direction::Up
    } else if i == 1 {
        Direction::Right
    } else if i == 2 {
        Direction::Down
    } else {
        Direction::Left
    }
}

#[verifier::when_used_as_spec(spec_direction_of)]
fn direction_of(i: u8) -> (d: Direction)
    ensures
        d == spec_direction_of(i),
{
    if i == 0 {
        Direction::Up
    } else if i == 1 {
        Direction::Right
    } else if i == 2 {
        Direction::Down
    } else {
        Direction::Left
    }
}

/// The whole state of one chain search: the scan stack, the kill list
/// accumulated so far, and whether the starting breaker found any
/// direct neighbor to chain.
pub struct BreakState {
    pub stack: Seq<BreakFrame>,
    pub acc: Seq<(PositionedBlock, u8)>,
    pub found: bool,
}

/// Run a depth-first chain search to completion. The search pops the
/// top frame, examines its next neighbor direction, and on finding a
/// same-colored breakable block whose recorded depth is not already as
/// small, records it one hop deeper (a fused cell costs no hop) and
/// descends into it. `found` is set when the bottom frame, the breaker
/// itself, records any neighbor.
pub open spec fn break_search(g: GridModel, st: BreakState) -> BreakState
    decreases pot(g, st.acc), stack_measure(st.stack)
        when g.wf()
{
    if st.stack.len() == 0 {
        st
    } else {
        let fr = st.stack.last();
        if fr.dir_ix >= 4 {
            proof {
                lemma_stack_measure_pop(st.stack);
            }
            break_search(g, BreakState { stack: st.stack.drop_last(), ..st })
        } else {
            let d = spec_direction_of(fr.dir_ix);
            let stack1 = st.stack.update(
                st.stack.len() - 1,
                BreakFrame { dir_ix: (fr.dir_ix + 1) as u8, ..fr },
            );
            proof {
                lemma_stack_measure_set_last(
                    st.stack,
                    BreakFrame { dir_ix: (fr.dir_ix + 1) as u8, ..fr },
                );
                lemma_stack_measure_pop(st.stack);
            }
            let cand = g.at_pos(fr.block.position.spec_offset(d));
            match cand {
                Some(c) => {
                    let existing = match kill_lookup(st.acc, c.position) {
                        Some(e) => e,
                        None => 255u8,
                    };
                    if c.block.color == fr.block.block.color && c.block.age == 0 && fr.depth
                        < existing {
                        let acc2 = kill_insert(st.acc, c, fr.depth);
                        let modifier: u8 = if c.block.spec_is_fused() {
                            0
                        } else {
                            1
                        };
                        let stack2 = stack1.push(
                            BreakFrame {
                                block: c,
                                depth: (fr.depth + modifier) as u8,
                                dir_ix: 0,
                            },
                        );
                        let found2 = st.found || st.stack.len() == 1;
                        proof {
                            lemma_pot_insert(g, st.acc, c, fr.depth, g.width * g.height);
                            lemma_idx_bounds_pos(g, c.position);
                        }
                        break_search(g, BreakState { stack: stack2, acc: acc2, found: found2 })
                    } else {
                        break_search(g, BreakState { stack: stack1, ..st })
                    }
                },
                None => break_search(g, BreakState { stack: stack1, ..st }),
            }
        }
    }
}

/// Fold the chain search over every block in grid order: for each
/// breaker whose search chains at least one neighbor, record the
/// breaker itself at depth zero.
pub open spec fn breakers_fold(
    g: GridModel,
    bs: Seq<PositionedBlock>,
    i: int,
    acc: Seq<(PositionedBlock, u8)>,
) -> Seq<(PositionedBlock, u8)>
    decreases bs.len() - i,
{
    if i < 0 || i >= bs.len() {
        acc
    } else {
        let b = bs[i];
        let acc2 = if b.block.breaker {
            let st = break_search(
                g,
                BreakState {
                    stack: seq![BreakFrame { block: b, depth: 1, dir_ix: 0 }],
                    acc,
                    found: false,
                },
            );
            if st.found {
                kill_insert(st.acc, b, 0)
            } else {
                st.acc
            }
        } else {
            acc
        };
        breakers_fold(g, bs, i + 1, acc2)
    }
}

impl GridModel {
    /// The kill list the break engine starts from: every block that a
    /// breaker chain reaches, each with its chain depth.
    pub open spec fn breakers(self) -> Seq<(PositionedBlock, u8)> {
        breakers_fold(self, self.blocks(), 0, Seq::empty())
    }
}

/// Every block listed by a well-formed grid sits in bounds, at its own
/// cell.
pub proof fn lemma_blocks_prefix_elems(g: GridModel, n: int)
    requires
        g.wf(),
        n <= g.cells.len(),
    ensures
        forall|k: int|
            0 <= k < g.blocks_prefix(n).len() ==> {
                let pb = #[trigger] g.blocks_prefix(n)[k];
                g.in_bounds(pb.position.x as int, pb.position.y as int) && g.at_pos(pb.position)
                    == Some(pb)
            },
    decreases n,
{
    if n > 0 {
        lemma_blocks_prefix_elems(g, n - 1);
        match g.cells[n - 1] {
            Some(pb) => {
                lemma_cell_block(g, n - 1);
                assert forall|k: int| 0 <= k < g.blocks_prefix(n).len() implies {
                    let q = #[trigger] g.blocks_prefix(n)[k];
                    g.in_bounds(q.position.x as int, q.position.y as int) && g.at_pos(q.position)
                        == Some(q)
                } by {
                    if k < g.blocks_prefix(n - 1).len() {
                        assert(g.blocks_prefix(n)[k] == g.blocks_prefix(n - 1)[k]);
                    } else {
                        assert(g.blocks_prefix(n)[k] == pb);
                    }
                }
            },
            None => {},
        }
    }
}

/// A well-formed grid's occupied cell holds a block positioned at it.
pub proof fn lemma_cell_block(g: GridModel, j: int)
    requires
        g.wf(),
        0 <= j < g.cells.len(),
    ensures
        g.cells[j] matches Some(pb) ==> g.in_bounds(pb.position.x as int, pb.position.y as int)
            && g.at_pos(pb.position) == Some(pb) && pb.position == pos_at(g, j),
{
    let w = g.width;
    vstd::arithmetic::div_mod::lemma_fundamental_div_mod(j, w);
    vstd::arithmetic::div_mod::lemma_mod_pos_bound(j, w);
    assert(0 <= j / w) by (nonlinear_arith)
        requires
            w >= 1,
            0 <= j,
            j == w * (j / w) + j % w,
            0 <= j % w < w,
    ;
    assert(j / w < g.height) by (nonlinear_arith)
        requires
            w >= 1,
            0 <= j < w * g.height,
            j == w * (j / w) + j % w,
            0 <= j % w < w,
    ;
    let x = j % w;
    let y = j / w;
    assert(g.in_bounds(x, y));
    assert(g.idx(x, y) == j);
    assert(g.cells[g.idx(x, y)] == g.cells[j]);
}

impl BlockGrid {
    /// Walk from `anchor` in `direction` along a fused compound to the
    /// corner cell whose borders face that direction. On a well-formed
    /// board the walk always ends at such a corner; `None` reports a
    /// malformed compound (a vacant cell before any corner was found).
    pub fn find_opposite_corner(&self, anchor: &PositionedBlock, direction: Direction) -> (r:
        Option<PositionedBlock>)
        requires
            self.wf(),
            self@.in_bounds(anchor.position.x as int, anchor.position.y as int),
        ensures
            r == self@.walk_corner(*anchor, direction),
            r matches Some(c) ==> self@.in_bounds(c.position.x as int, c.position.y as int),
    {
        let ghost g = self@;
        let mut corner = *anchor;

        loop
            invariant
                self.wf(),
                self@ == g,
                g.in_bounds(corner.position.x as int, corner.position.y as int),
                g.walk_corner(corner, direction) == g.walk_corner(*anchor, direction),
            decreases g.walk_measure(corner.position, direction),
        {
            if corner.borders().intersects(direction.to_side()) {
                return Some(corner);
            }
            match self.at(corner.position().offset(direction)) {
                Some(b) => {
                    corner = b;
                },
                None => {
                    return None;
                },
            }
        }
    }
}


/// The recorded depth for the block at `pos`, if any.
fn kill_get(v: &Vec<(PositionedBlock, u8)>, pos: GridPosition) -> (r: Option<u8>)
    ensures
        r == kill_lookup(v@, pos),
{
    proof {
        lemma_kill_index(v@, pos);
    }
    let mut i: usize = 0;
    while i < v.len()
        invariant
            i <= v@.len(),
            forall|j: int| 0 <= j < i ==> (#[trigger] v@[j]).0.position != pos,
        decreases v@.len() - i,
    {
        let entry = v[i];
        if entry.0.position() == pos {
            proof {
                lemma_kill_index(v@, pos);
            }
            return Some(entry.1);
        }
        i = i + 1;
    }
    proof {
        lemma_kill_index(v@, pos);
    }
    None
}

/// Record depth `d` for the block at `pb`'s position, updating the
/// existing entry (its stored block is kept) or appending a new one.
fn kill_put(v: &mut Vec<(PositionedBlock, u8)>, pb: PositionedBlock, d: u8)
    ensures
        final(v)@ == kill_insert(old(v)@, pb, d),
{
    let ghost s0 = v@;
    let mut i: usize = 0;
    while i < v.len()
        invariant
            i <= v@.len(),
            v@ == s0,
            s0 == old(v)@,
            forall|j: int| 0 <= j < i ==> (#[trigger] v@[j]).0.position != pb.position,
        decreases v@.len() - i,
    {
        let entry = v[i];
        if entry.0.position() == pb.position() {
            proof {
                lemma_kill_index(s0, pb.position);
                let ki = kill_index(s0, pb.position);
                assert(s0[i as int].0.position == pb.position);
                if ki < i as int {
                    assert(s0[ki].0.position == pb.position);
                    assert(false);
                }
                if ki > i as int {
                    assert(s0[i as int].0.position != pb.position);
                    assert(false);
                }
            }
            v.set(i, (entry.0, d));
            proof {
                assert(entry == s0[i as int]);
                assert(v@ =~= kill_insert(s0, pb, d));
            }
            return ;
        }
        i = i + 1;
    }
    proof {
        lemma_kill_index(s0, pb.position);
        let ki = kill_index(s0, pb.position);
        if ki < s0.len() {
            assert(s0[ki].0.position == pb.position);
            assert(false);
        }
    }
    v.push((pb, d));
}

impl BlockGrid {
    /// Build the kill list: for every breaker block, in grid order, run
    /// the chain search through same-colored breakable neighbors; a
    /// breaker that chains at least one block is itself recorded at
    /// depth zero. Each recorded block carries the chain depth used for
    /// visual stagger; depth grows by one per hop through standalone
    /// blocks and not at all through cells of a fused compound.
    pub fn find_breakers(&self) -> (r: Vec<(PositionedBlock, u8)>)
        requires
            self.wf(),
        ensures
            r@ == self@.breakers(),
    {
        let ghost g = self@;
        let blocks = self.blocks();
        let mut result: Vec<(PositionedBlock, u8)> = Vec::new();
        let mut i: usize = 0;
        proof {
            lemma_blocks_prefix_elems(g, g.cells.len() as int);
        }
        while i < blocks.len()
            invariant
                self.wf(),
                self@ == g,
                blocks@ == g.blocks(),
                i <= blocks@.len(),
                breakers_fold(g, blocks@, i as int, result@) == g.breakers(),
                forall|k: int|
                    0 <= k < g.blocks().len() ==> {
                        let pb = #[trigger] g.blocks()[k];
                        g.in_bounds(pb.position.x as int, pb.position.y as int) && g.at_pos(
                            pb.position,
                        ) == Some(pb)
                    },
            decreases blocks@.len() - i,
        {
            let ghost acc_entry = result@;
            let b = blocks[i];
            if b.breaker() {
                let ghost st0 = BreakState {
                    stack: seq![BreakFrame { block: b, depth: 1, dir_ix: 0 }],
                    acc: result@,
                    found: false,
                };
                let ghost st_target = break_search(g, st0);
                let mut stack: Vec<BreakFrame> = Vec::new();
                stack.push(BreakFrame { block: b, depth: 1, dir_ix: 0 });
                let mut found = false;
                proof {
                    assert(stack@ =~= st0.stack);
                }
                loop
                    invariant
                        self.wf(),
                        self@ == g,
                        forall|k: int|
                            0 <= k < stack@.len() ==> g.in_bounds(
                                (#[trigger] stack@[k]).block.position.x as int,
                                stack@[k].block.position.y as int,
                            ),
                        break_search(
                            g,
                            BreakState { stack: stack@, acc: result@, found },
                        ) == st_target,
                    ensures
                        stack@.len() == 0,
                        result@ == st_target.acc,
                        found == st_target.found,
                    decreases pot(g, result@), stack_measure(stack@),
                {
                    let ghost st_now = BreakState { stack: stack@, acc: result@, found };
                    if stack.len() == 0 {
                        break ;
                    }
                    let fr = stack[stack.len() - 1];
                    proof {
                        assert(stack@.last() == fr);
                    }
                    if fr.dir_ix >= 4 {
                        stack.pop();
                        proof {
                            assert(stack@ =~= st_now.stack.drop_last());
                            lemma_stack_measure_pop(st_now.stack);
                        }
                    } else {
                        let fr2 = BreakFrame { block: fr.block, depth: fr.depth, dir_ix: fr.dir_ix
                            + 1 };
                        let last_ix = stack.len() - 1;
                        stack.set(last_ix, fr2);
                        proof {
                            lemma_stack_measure_set_last(st_now.stack, fr2);
                            lemma_stack_measure_pop(st_now.stack);
                        }
                        let d = direction_of(fr.dir_ix);
                        let cand_pos = fr.block.position().offset(d);
                        match self.at(cand_pos) {
                            Some(c) => {
                                let existing: u8 = match kill_get(&result, c.position()) {
                                    Some(e) => e,
                                    None => 255,
                                };
                                if c.color() == fr.block.color() && c.is_breakable() && fr.depth
                                    < existing {
                                    proof {
                                        lemma_pot_insert(
                                            g,
                                            result@,
                                            c,
                                            fr.depth,
                                            g.width * g.height,
                                        );
                                        lemma_idx_bounds_pos(g, c.position);
                                    }
                                    kill_put(&mut result, c, fr.depth);
                                    let modifier: u8 = if c.is_fused() {
                                        0
                                    } else {
                                        1
                                    };
                                    if stack.len() == 1 {
                                        found = true;
                                    }
                                    stack.push(
                                        BreakFrame {
                                            block: c,
                                            depth: fr.depth + modifier,
                                            dir_ix: 0,
                                        },
                                    );
                                    proof {
                                        lemma_stack_measure_push(
                                            st_now.stack.update(
                                                st_now.stack.len() - 1,
                                                fr2,
                                            ),
                                            BreakFrame {
                                                block: c,
                                                depth: (fr.depth + modifier) as u8,
                                                dir_ix: 0,
                                            },
                                        );
                                    }
                                } else {
                                }
                            },
                            None => {},
                        }
                    }
                }
                if found {
                    kill_put(&mut result, b, 0);
                }
            }
            proof {
                assert(breakers_fold(g, blocks@, i as int, acc_entry) == breakers_fold(
                    g,
                    blocks@,
                    i as int + 1,
                    result@,
                ));
            }
            i = i + 1;
        }
        result
    }
}


/// The printable character of one cell: its border glyph, or a space
/// for a vacant cell.
pub open spec fn cell_char_spec(g: GridModel, x: int, y: int) -> Seq<char> {
    match g.at(x, y) {
        Some(pb) => sides_char_spec(pb.block.borders),
        None => " "@,
    }
}

/// The first `n` characters of the printable form of row `y`.
pub open spec fn row_chars_spec(g: GridModel, y: int, n: int) -> Seq<char>
    decreases n,
{
    if n <= 0 {
        Seq::empty()
    } else {
        row_chars_spec(g, y, n - 1) + cell_char_spec(g, n - 1, y)
    }
}

impl BlockGrid {
    /// A printable dump of the grid, one row per line, top row first,
    /// each cell as its border glyph or a space.
    pub fn debug(&self) -> (r: Vec<String>)
        requires
            self.wf(),
        ensures
            r@.len() == self@.height,
            forall|k: int|
                0 <= k < r@.len() ==> (#[trigger] r@[k])@ == row_chars_spec(
                    self@,
                    self@.height - 1 - k,
                    self@.width,
                ),
    {
        let ghost g = self@;
        let mut lines: Vec<String> = Vec::new();
        let mut k: usize = 0;
        while k < self.height
            invariant
                self.wf(),
                self@ == g,
                k <= g.height,
                lines@.len() == k as int,
                forall|j: int|
                    0 <= j < k as int ==> (#[trigger] lines@[j])@ == row_chars_spec(
                        g,
                        g.height - 1 - j,
                        g.width,
                    ),
            decreases self@.height - k,
        {
            let y = self.height - k - 1;
            let mut row = String::new();
            let mut x: usize = 0;
            while x < self.width
                invariant
                    self.wf(),
                    self@ == g,
                    k < g.height,
                    y as int == g.height - 1 - k as int,
                    x <= g.width,
                    row@ == row_chars_spec(g, y as int, x as int),
                decreases self@.width - x,
            {
                let cell = self.at(GridPosition::new(x as i8, y as i8));
                match cell {
                    Some(pb) => {
                        let ch = pb.debug_char();
                        row.append(ch.as_str());
                    },
                    None => {
                        row.append(" ");
                    },
                }
                x = x + 1;
            }
            lines.push(row);
            k = k + 1;
        }
        lines
    }
}

} // verus!
