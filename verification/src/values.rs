//! Value types of the simulation: positions, block attributes, pieces.

use vstd::prelude::*;
use vstd::string::StringExecFns;

verus! {

/// A cell coordinate on a board. `y == 0` is the bottom row; `x` grows
/// to the right. Coordinates may leave the board (for bounds tests).
#[derive(Copy, Clone, Debug, PartialEq, Eq, Hash, Structural)]
pub struct GridPosition {
    pub x: i8,
    pub y: i8,
}

/// A width and height in cells.
#[derive(Copy, Clone, Debug, PartialEq, Eq, Hash, Structural)]
pub struct Dimension {
    pub w: u32,
    pub h: u32,
}

impl Dimension {
    pub fn new(w: u32, h: u32) -> (r: Self)
        ensures
            r.w == w,
            r.h == h,
    {
        Dimension { w, h }
    }

    pub fn from_tuple(tuple: (u32, u32)) -> (r: Self)
        ensures
            r.w == tuple.0,
            r.h == tuple.1,
    {
        Dimension::new(tuple.0, tuple.1)
    }

    pub fn w(&self) -> (r: u32)
        ensures
            r == self.w,
    {
        self.w
    }

    pub fn h(&self) -> (r: u32)
        ensures
            r == self.h,
    {
        self.h
    }
}

/// A sense of rotation for piece moves.
#[derive(Copy, Clone, Debug, PartialEq, Eq, Hash, Structural)]
pub enum Rotation {
    AntiClockwise,
    Clockwise,
}

impl Rotation {
    pub open spec fn spec_reverse(self) -> Rotation {
        match self {
            Rotation::AntiClockwise => Rotation::Clockwise,
            Rotation::Clockwise => Rotation::AntiClockwise,
        }
    }

    #[verifier::when_used_as_spec(spec_reverse)]
    pub fn reverse(self) -> (r: Self)
        ensures
            r == self.spec_reverse(),
    {
        match self {
            Rotation::AntiClockwise => Rotation::Clockwise,
            Rotation::Clockwise => Rotation::AntiClockwise,
        }
    }
}

/// One of the four cardinal directions on the grid.
#[derive(Copy, Clone, Debug, PartialEq, Eq, Hash, Structural)]
pub enum Direction {
    Up,
    Right,
    Down,
    Left,
}

impl Direction {
    /// Every direction, in the order neighbor scans visit them.
    pub fn all() -> (r: Vec<Direction>)
        ensures
            r@ == seq![Direction::Up, Direction::Right, Direction::Down, Direction::Left],
    {
        let mut v: Vec<Direction> = Vec::new();
        v.push(Direction::Up);
        v.push(Direction::Right);
        v.push(Direction::Down);
        v.push(Direction::Left);
        proof {
            assert(v@ =~= seq![Direction::Up, Direction::Right, Direction::Down, Direction::Left]);
        }
        v
    }

    pub open spec fn spec_clockwise(self) -> Direction {
        match self {
            Direction::Up => Direction::Right,
            Direction::Right => Direction::Down,
            Direction::Down => Direction::Left,
            Direction::Left => Direction::Up,
        }
    }

    #[verifier::when_used_as_spec(spec_clockwise)]
    pub fn clockwise(self) -> (r: Self)
        ensures
            r == self.spec_clockwise(),
    {
        match self {
            Direction::Up => Direction::Right,
            Direction::Right => Direction::Down,
            Direction::Down => Direction::Left,
            Direction::Left => Direction::Up,
        }
    }

    pub open spec fn spec_anti_clockwise(self) -> Direction {
        match self {
            Direction::Up => Direction::Left,
            Direction::Right => Direction::Up,
            Direction::Down => Direction::Right,
            Direction::Left => Direction::Down,
        }
    }

    #[verifier::when_used_as_spec(spec_anti_clockwise)]
    pub fn anti_clockwise(self) -> (r: Self)
        ensures
            r == self.spec_anti_clockwise(),
    {
        match self {
            Direction::Up => Direction::Left,
            Direction::Right => Direction::Up,
            Direction::Down => Direction::Right,
            Direction::Left => Direction::Down,
        }
    }

    pub open spec fn spec_rotate(self, r: Rotation) -> Direction {
        match r {
            Rotation::AntiClockwise => self.spec_anti_clockwise(),
            Rotation::Clockwise => self.spec_clockwise(),
        }
    }

    #[verifier::when_used_as_spec(spec_rotate)]
    pub fn rotate(self, r: Rotation) -> (d: Self)
        ensures
            d == self.spec_rotate(r),
    {
        match r {
            Rotation::AntiClockwise => self.anti_clockwise(),
            Rotation::Clockwise => self.clockwise(),
        }
    }

    /// The side of a cell that faces this direction.
    pub open spec fn spec_to_side(self) -> Sides {
        match self {
            Direction::Up => Sides::spec_top(),
            Direction::Right => Sides::spec_right(),
            Direction::Down => Sides::spec_bottom(),
            Direction::Left => Sides::spec_left(),
        }
    }

    #[verifier::when_used_as_spec(spec_to_side)]
    pub fn to_side(self) -> (s: Sides)
        ensures
            s == self.spec_to_side(),
    {
        match self {
            Direction::Up => Sides::top(),
            Direction::Right => Sides::right(),
            Direction::Down => Sides::bottom(),
            Direction::Left => Sides::left(),
        }
    }
}

impl GridPosition {
    pub fn new(x: i8, y: i8) -> (r: Self)
        ensures
            r.x == x,
            r.y == y,
    {
        GridPosition { x, y }
    }

    /// Whether stepping one cell in `direction` stays within `i8` range.
    pub open spec fn can_offset(self, direction: Direction) -> bool {
        match direction {
            Direction::Up => self.y < 127,
            Direction::Down => self.y > -128,
            Direction::Left => self.x > -128,
            Direction::Right => self.x < 127,
        }
    }

    pub open spec fn spec_offset(self, direction: Direction) -> GridPosition {
        match direction {
            Direction::Up => GridPosition { x: self.x, y: (self.y + 1) as i8 },
            Direction::Down => GridPosition { x: self.x, y: (self.y - 1) as i8 },
            Direction::Left => GridPosition { x: (self.x - 1) as i8, y: self.y },
            Direction::Right => GridPosition { x: (self.x + 1) as i8, y: self.y },
        }
    }

    #[verifier::when_used_as_spec(spec_offset)]
    pub fn offset(self, direction: Direction) -> (r: Self)
        requires
            self.can_offset(direction),
        ensures
            r == self.spec_offset(direction),
    {
        match direction {
            Direction::Up => GridPosition { x: self.x, y: self.y + 1 },
            Direction::Down => GridPosition { x: self.x, y: self.y - 1 },
            Direction::Left => GridPosition { x: self.x - 1, y: self.y },
            Direction::Right => GridPosition { x: self.x + 1, y: self.y },
        }
    }

    pub fn x(&self) -> (r: i8)
        ensures
            r == self.x,
    {
        self.x
    }

    pub fn y(&self) -> (r: i8)
        ensures
            r == self.y,
    {
        self.y
    }
}

/// Which edges of a fused compound a cell sits on. A standalone block
/// carries every side; any strict subset marks a cell of a compound,
/// naming exactly the exposed perimeter sides of that cell.
#[derive(Copy, Clone, Debug, PartialEq, Eq, Hash, Structural)]
pub struct Sides {
    pub left: bool,
    pub right: bool,
    pub top: bool,
    pub bottom: bool,
}

impl Sides {
    pub open spec fn spec_new(left: bool, right: bool, top: bool, bottom: bool) -> Sides {
        Sides { left, right, top, bottom }
    }

    #[verifier::when_used_as_spec(spec_new)]
    pub fn new(left: bool, right: bool, top: bool, bottom: bool) -> (r: Sides)
        ensures
            r == Sides::spec_new(left, right, top, bottom),
    {
        Sides { left, right, top, bottom }
    }

    pub open spec fn spec_all() -> Sides {
        Sides::spec_new(true, true, true, true)
    }

    #[verifier::when_used_as_spec(spec_all)]
    pub fn all() -> (r: Sides)
        ensures
            r == Sides::spec_all(),
    {
        Sides::new(true, true, true, true)
    }

    pub open spec fn spec_none() -> Sides {
        Sides::spec_new(false, false, false, false)
    }

    #[verifier::when_used_as_spec(spec_none)]
    pub fn none() -> (r: Sides)
        ensures
            r == Sides::spec_none(),
    {
        Sides::new(false, false, false, false)
    }

    pub open spec fn spec_left() -> Sides {
        Sides::spec_new(true, false, false, false)
    }

    #[verifier::when_used_as_spec(spec_left)]
    pub fn left() -> (r: Sides)
        ensures
            r == Sides::spec_left(),
    {
        Sides::new(true, false, false, false)
    }

    pub open spec fn spec_right() -> Sides {
        Sides::spec_new(false, true, false, false)
    }

    #[verifier::when_used_as_spec(spec_right)]
    pub fn right() -> (r: Sides)
        ensures
            r == Sides::spec_right(),
    {
        Sides::new(false, true, false, false)
    }

    pub open spec fn spec_top() -> Sides {
        Sides::spec_new(false, false, true, false)
    }

    #[verifier::when_used_as_spec(spec_top)]
    pub fn top() -> (r: Sides)
        ensures
            r == Sides::spec_top(),
    {
        Sides::new(false, false, true, false)
    }

    pub open spec fn spec_bottom() -> Sides {
        Sides::spec_new(false, false, false, true)
    }

    #[verifier::when_used_as_spec(spec_bottom)]
    pub fn bottom() -> (r: Sides)
        ensures
            r == Sides::spec_bottom(),
    {
        Sides::new(false, false, false, true)
    }

    pub open spec fn spec_bottom_left() -> Sides {
        Sides::spec_new(true, false, false, true)
    }

    #[verifier::when_used_as_spec(spec_bottom_left)]
    pub fn bottom_left() -> (r: Sides)
        ensures
            r == Sides::spec_bottom_left(),
    {
        Sides::new(true, false, false, true)
    }

    pub open spec fn spec_bottom_right() -> Sides {
        Sides::spec_new(false, true, false, true)
    }

    #[verifier::when_used_as_spec(spec_bottom_right)]
    pub fn bottom_right() -> (r: Sides)
        ensures
            r == Sides::spec_bottom_right(),
    {
        Sides::new(false, true, false, true)
    }

    pub open spec fn spec_top_left() -> Sides {
        Sides::spec_new(true, false, true, false)
    }

    #[verifier::when_used_as_spec(spec_top_left)]
    pub fn top_left() -> (r: Sides)
        ensures
            r == Sides::spec_top_left(),
    {
        Sides::new(true, false, true, false)
    }

    pub open spec fn spec_top_right() -> Sides {
        Sides::spec_new(false, true, true, false)
    }

    #[verifier::when_used_as_spec(spec_top_right)]
    pub fn top_right() -> (r: Sides)
        ensures
            r == Sides::spec_top_right(),
    {
        Sides::new(false, true, true, false)
    }

    /// Set union of the two edge sets.
    pub open spec fn spec_union(self, other: Sides) -> Sides {
        Sides::spec_new(
            self.left || other.left,
            self.right || other.right,
            self.top || other.top,
            self.bottom || other.bottom,
        )
    }

    #[verifier::when_used_as_spec(spec_union)]
    pub fn union(self, other: Sides) -> (r: Sides)
        ensures
            r == self.spec_union(other),
    {
        Sides::new(
            self.left || other.left,
            self.right || other.right,
            self.top || other.top,
            self.bottom || other.bottom,
        )
    }

    /// Set intersection of the two edge sets.
    pub open spec fn spec_intersect(self, other: Sides) -> Sides {
        Sides::spec_new(
            self.left && other.left,
            self.right && other.right,
            self.top && other.top,
            self.bottom && other.bottom,
        )
    }

    #[verifier::when_used_as_spec(spec_intersect)]
    pub fn intersect(self, other: Sides) -> (r: Sides)
        ensures
            r == self.spec_intersect(other),
    {
        Sides::new(
            self.left && other.left,
            self.right && other.right,
            self.top && other.top,
            self.bottom && other.bottom,
        )
    }

    /// Whether every edge of `other` is also an edge of `self`.
    pub open spec fn spec_contains(self, other: Sides) -> bool {
        &&& other.left ==> self.left
        &&& other.right ==> self.right
        &&& other.top ==> self.top
        &&& other.bottom ==> self.bottom
    }

    #[verifier::when_used_as_spec(spec_contains)]
    pub fn contains(self, other: Sides) -> (r: bool)
        ensures
            r == self.spec_contains(other),
    {
        (!other.left || self.left) && (!other.right || self.right) && (!other.top || self.top)
            && (!other.bottom || self.bottom)
    }

    /// Whether the two edge sets share at least one edge.
    pub open spec fn spec_intersects(self, other: Sides) -> bool {
        ||| self.left && other.left
        ||| self.right && other.right
        ||| self.top && other.top
        ||| self.bottom && other.bottom
    }

    #[verifier::when_used_as_spec(spec_intersects)]
    pub fn intersects(self, other: Sides) -> (r: bool)
        ensures
            r == self.spec_intersects(other),
    {
        (self.left && other.left) || (self.right && other.right) || (self.top && other.top)
            || (self.bottom && other.bottom)
    }
}

/// One of the four block colors.
#[derive(Copy, Clone, Debug, PartialEq, Eq, Hash, Structural)]
pub enum Color {
    Blue,
    Red,
    Green,
    Yellow,
}

impl Color {
    /// A color drawn uniformly at random.
    pub fn rand() -> Color {
        let roll: u64 = random_u64() % 4;
        if roll == 0 {
            Color::Blue
        } else if roll == 1 {
            Color::Red
        } else if roll == 2 {
            Color::Green
        } else {
            Color::Yellow
        }
    }
}

/// Relies on rand::random: an unconstrained random value. Nothing is
/// assumed of the result; every caller handles every possible draw.
#[verifier::external_body]
pub(crate) fn random_u64() -> u64 {
    rand::random::<u64>()
}

pub open spec fn color_name_spec(c: Color) -> Seq<char> {
    match c {
        Color::Blue => "blue"@,
        Color::Red => "red"@,
        Color::Green => "green"@,
        Color::Yellow => "yellow"@,
    }
}

fn color_name(c: Color) -> (r: &'static str)
    ensures
        r@ == color_name_spec(c),
{
    match c {
        Color::Blue => "blue",
        Color::Red => "red",
        Color::Green => "green",
        Color::Yellow => "yellow",
    }
}

pub open spec fn age_suffix_spec(age: u8) -> Seq<char> {
    if age == 1 {
        "_1"@
    } else if age == 2 {
        "_2"@
    } else {
        "_3"@
    }
}

fn age_suffix(age: u8) -> (r: &'static str)
    requires
        1 <= age <= 3,
    ensures
        r@ == age_suffix_spec(age),
{
    if age == 1 {
        "_1"
    } else if age == 2 {
        "_2"
    } else {
        "_3"
    }
}

/// The texture base name of a block: its color, with a marker for
/// breakers and an age counter for aged garbage (grey past three).
pub open spec fn base_texture_spec(b: Block) -> Seq<char> {
    if b.breaker {
        color_name_spec(b.color) + "_breaker"@
    } else if b.age > 3 {
        "grey"@
    } else if b.age > 0 {
        color_name_spec(b.color) + age_suffix_spec(b.age)
    } else {
        color_name_spec(b.color)
    }
}

/// The full texture file name of a block.
pub open spec fn texture_name_spec(b: Block) -> Seq<char> {
    base_texture_spec(b) + suffix_spec(b.borders) + ".png"@
}

/// The texture suffix that picks the art for a cell's exposed sides.
pub open spec fn suffix_spec(s: Sides) -> Seq<char> {
    if s == Sides::spec_all() {
        ""@
    } else if s == Sides::spec_bottom_left() {
        "_bl"@
    } else if s == Sides::spec_bottom_right() {
        "_br"@
    } else if s == Sides::spec_top_left() {
        "_tl"@
    } else if s == Sides::spec_top_right() {
        "_tr"@
    } else if s == Sides::spec_bottom() {
        "_b"@
    } else if s == Sides::spec_top() {
        "_t"@
    } else if s == Sides::spec_left() {
        "_l"@
    } else if s == Sides::spec_right() {
        "_r"@
    } else if s == Sides::spec_none() {
        "_m"@
    } else {
        ""@
    }
}

/// The character a cell's border state prints as in a board dump.
pub open spec fn sides_char_spec(s: Sides) -> Seq<char> {
    if s == Sides::spec_all() {
        "X"@
    } else if s == Sides::spec_bottom_left() {
        "L"@
    } else if s == Sides::spec_bottom_right() {
        "J"@
    } else if s == Sides::spec_top_left() {
        "F"@
    } else if s == Sides::spec_top_right() {
        "7"@
    } else if s == Sides::spec_bottom() {
        "-"@
    } else if s == Sides::spec_top() {
        "-"@
    } else if s == Sides::spec_left() {
        "|"@
    } else if s == Sides::spec_right() {
        "|"@
    } else if s == Sides::spec_none() {
        " "@
    } else {
        ""@
    }
}

impl Sides {
    pub fn to_texture_suffix(&self) -> (r: &'static str)
        ensures
            r@ == suffix_spec(*self),
    {
        if *self == Sides::all() {
            ""
        } else if *self == Sides::bottom_left() {
            "_bl"
        } else if *self == Sides::bottom_right() {
            "_br"
        } else if *self == Sides::top_left() {
            "_tl"
        } else if *self == Sides::top_right() {
            "_tr"
        } else if *self == Sides::bottom() {
            "_b"
        } else if *self == Sides::top() {
            "_t"
        } else if *self == Sides::left() {
            "_l"
        } else if *self == Sides::right() {
            "_r"
        } else if *self == Sides::none() {
            "_m"
        } else {
            ""
        }
    }

    pub fn debug_char(&self) -> (r: &'static str)
        ensures
            r@ == sides_char_spec(*self),
    {
        if *self == Sides::all() {
            "X"
        } else if *self == Sides::bottom_left() {
            "L"
        } else if *self == Sides::bottom_right() {
            "J"
        } else if *self == Sides::top_left() {
            "F"
        } else if *self == Sides::top_right() {
            "7"
        } else if *self == Sides::bottom() {
            "-"
        } else if *self == Sides::top() {
            "-"
        } else if *self == Sides::left() {
            "|"
        } else if *self == Sides::right() {
            "|"
        } else if *self == Sides::none() {
            " "
        } else {
            ""
        }
    }
}

/// A colored unit block. Blocks carry an opaque identity: two blocks of
/// equal color and age are still different blocks, and equality goes by
/// identity alone. Fusing rewrites `borders` on the same identity;
/// aging counts `age` down on the same identity.
#[derive(Copy, Clone, Debug)]
pub struct Block {
    pub id: u64,
    pub color: Color,
    pub breaker: bool,
    pub borders: Sides,
    pub age: u8,
}

impl PartialEq for Block {
    fn eq(&self, other: &Self) -> (r: bool) {
        self.id == other.id
    }
}

impl Eq for Block {

}

impl vstd::std_specs::cmp::PartialEqSpecImpl for Block {
    open spec fn obeys_eq_spec() -> bool {
        true
    }

    open spec fn eq_spec(&self, other: &Self) -> bool {
        self.id == other.id
    }
}

impl Block {
    /// A fresh standalone block of the given color.
    pub fn new(color: Color, breaker: bool) -> (r: Self)
        ensures
            r.color == color,
            r.breaker == breaker,
            r.borders == Sides::spec_all(),
            r.age == 0,
    {
        Block { id: random_u64(), color, breaker, borders: Sides::all(), age: 0 }
    }

    /// A fresh garbage block that must age before it can be destroyed.
    pub fn new_with_age(color: Color, age: u8) -> (r: Self)
        ensures
            r.color == color,
            r.breaker == false,
            r.borders == Sides::spec_all(),
            r.age == age,
    {
        Block { id: random_u64(), color, breaker: false, borders: Sides::all(), age }
    }

    pub fn breaker(&self) -> (r: bool)
        ensures
            r == self.breaker,
    {
        self.breaker
    }

    /// A block is fused exactly when some side is interior to a compound.
    pub open spec fn spec_is_fused(self) -> bool {
        self.borders != Sides::spec_all()
    }

    #[verifier::when_used_as_spec(spec_is_fused)]
    pub fn is_fused(self) -> (r: bool)
        ensures
            r == self.spec_is_fused(),
    {
        self.borders != Sides::all()
    }

    pub fn debug_char(&self) -> (r: String)
        ensures
            r@ == sides_char_spec(self.borders),
    {
        String::from_str(self.borders.debug_char())
    }

    pub fn to_texture_name(&self) -> (r: String)
        ensures
            r@ == texture_name_spec(*self),
    {
        let base: String = if self.breaker {
            String::from_str(color_name(self.color)).concat("_breaker")
        } else if self.age > 3 {
            String::from_str("grey")
        } else if self.age > 0 {
            String::from_str(color_name(self.color)).concat(age_suffix(self.age))
        } else {
            String::from_str(color_name(self.color))
        };

        base.concat(self.borders.to_texture_suffix()).concat(".png")
    }
}

/// A discrete simulation event, drained by the rendering collaborator.
#[derive(Copy, Clone, Debug)]
pub enum BlockEvent {
    /// A block fell from its first position to its second.
    Drop(PositionedBlock, PositionedBlock),
    /// A block was destroyed at the given chain depth.
    Explode(PositionedBlock, u32),
}

/// A block together with the cell it occupies. Equality goes by the
/// contained block's identity alone: the same logical block keeps its
/// identity as it falls, fuses and ages.
#[derive(Copy, Clone, Debug)]
pub struct PositionedBlock {
    pub block: Block,
    pub position: GridPosition,
}

impl PartialEq for PositionedBlock {
    fn eq(&self, other: &Self) -> (r: bool) {
        self.block.id == other.block.id
    }
}

impl Eq for PositionedBlock {

}

impl vstd::std_specs::cmp::PartialEqSpecImpl for PositionedBlock {
    open spec fn obeys_eq_spec() -> bool {
        true
    }

    open spec fn eq_spec(&self, other: &Self) -> bool {
        self.block.id == other.block.id
    }
}

impl PositionedBlock {
    pub fn new(block: Block, position: GridPosition) -> (r: Self)
        ensures
            r.block == block,
            r.position == position,
    {
        PositionedBlock { block, position }
    }

    pub open spec fn spec_do_age(self) -> Self {
        if self.block.age > 0 {
            PositionedBlock {
                block: Block { age: (self.block.age - 1) as u8, ..self.block },
                ..self
            }
        } else {
            self
        }
    }

    /// Count one aging tick down, stopping at zero.
    #[verifier::when_used_as_spec(spec_do_age)]
    pub fn do_age(self) -> (r: Self)
        ensures
            r == self.spec_do_age(),
    {
        if self.block.age > 0 {
            PositionedBlock {
                block: Block { age: self.block.age - 1, ..self.block },
                ..self
            }
        } else {
            self
        }
    }

    pub fn x(&self) -> (r: i8)
        ensures
            r == self.position.x,
    {
        self.position.x
    }

    pub fn y(&self) -> (r: i8)
        ensures
            r == self.position.y,
    {
        self.position.y
    }

    pub fn block(&self) -> (r: Block)
        ensures
            r == self.block,
    {
        self.block
    }

    pub fn position(&self) -> (r: GridPosition)
        ensures
            r == self.position,
    {
        self.position
    }

    pub fn color(&self) -> (r: Color)
        ensures
            r == self.block.color,
    {
        self.block.color
    }

    pub fn age(&self) -> (r: u8)
        ensures
            r == self.block.age,
    {
        self.block.age
    }

    pub fn borders(&self) -> (r: Sides)
        ensures
            r == self.block.borders,
    {
        self.block.borders
    }

    pub fn breaker(&self) -> (r: bool)
        ensures
            r == self.block.breaker,
    {
        self.block.breaker
    }

    /// Aged garbage cannot be destroyed until its counter reaches zero.
    pub open spec fn spec_is_breakable(self) -> bool {
        self.block.age == 0
    }

    #[verifier::when_used_as_spec(spec_is_breakable)]
    pub fn is_breakable(self) -> (r: bool)
        ensures
            r == self.spec_is_breakable(),
    {
        self.block.age == 0
    }

    pub open spec fn spec_is_fused(self) -> bool {
        self.block.spec_is_fused()
    }

    #[verifier::when_used_as_spec(spec_is_fused)]
    pub fn is_fused(self) -> (r: bool)
        ensures
            r == self.spec_is_fused(),
    {
        self.block.is_fused()
    }

    pub fn to_texture_name(&self) -> (r: String)
        ensures
            r@ == texture_name_spec(self.block),
    {
        self.block.to_texture_name()
    }

    pub open spec fn spec_fuse(self, borders: Sides) -> Self {
        PositionedBlock { block: Block { borders, ..self.block }, ..self }
    }

    /// The same block with its border flags rewritten.
    #[verifier::when_used_as_spec(spec_fuse)]
    pub fn fuse(self, borders: Sides) -> (r: Self)
        ensures
            r == self.spec_fuse(borders),
    {
        PositionedBlock { block: Block { borders, ..self.block }, ..self }
    }

    /// Whether two blocks are eligible to fuse into one compound:
    /// same color, neither a breaker, neither still aging.
    pub open spec fn spec_can_fuse_with(self, other: PositionedBlock) -> bool {
        &&& self.block.color == other.block.color
        &&& !self.block.breaker
        &&& !other.block.breaker
        &&& self.block.age == 0
        &&& other.block.age == 0
    }

    #[verifier::when_used_as_spec(spec_can_fuse_with)]
    pub fn can_fuse_with(self, other: PositionedBlock) -> (r: bool)
        ensures
            r == self.spec_can_fuse_with(other),
    {
        self.color() == other.color() && !self.breaker() && !other.breaker() && self.age() == 0
            && other.age() == 0
    }

    pub open spec fn spec_offset(self, direction: Direction) -> Self {
        PositionedBlock { position: self.position.spec_offset(direction), ..self }
    }

    #[verifier::when_used_as_spec(spec_offset)]
    pub fn offset(self, direction: Direction) -> (r: Self)
        requires
            self.position.can_offset(direction),
        ensures
            r == self.spec_offset(direction),
    {
        PositionedBlock { position: self.position.offset(direction), ..self }
    }

    pub open spec fn spec_drop(self, height: i8) -> Self {
        if height > 0 {
            PositionedBlock {
                position: GridPosition { x: self.position.x, y: (self.position.y - height) as i8 },
                ..self
            }
        } else {
            self
        }
    }

    /// The same block `height` cells lower (unchanged for zero or less).
    #[verifier::when_used_as_spec(spec_drop)]
    pub fn drop(self, height: i8) -> (r: Self)
        requires
            height > 0 ==> self.position.y - height >= -128,
        ensures
            r == self.spec_drop(height),
    {
        if height > 0 {
            PositionedBlock {
                position: GridPosition { x: self.position.x, y: self.position.y - height },
                ..self
            }
        } else {
            self
        }
    }

    pub fn debug_char(&self) -> (r: String)
        ensures
            r@ == sides_char_spec(self.block.borders),
    {
        self.block.debug_char()
    }
}

/// A two-block falling unit: a pivot block at `position` and a second
/// block one cell away in `direction`.
#[derive(Copy, Clone, Debug)]
pub struct Piece {
    pub blocks: [Block; 2],
    pub direction: Direction,
    pub position: GridPosition,
    pub floor_kicks: u8,
}

impl Piece {
    pub fn new(b1: Block, b2: Block) -> (r: Self)
        ensures
            r.blocks[0] == b1,
            r.blocks[1] == b2,
            r.position == (GridPosition { x: 0, y: 0 }),
            r.direction == Direction::Up,
            r.floor_kicks == 0,
    {
        Piece {
            blocks: [b1, b2],
            position: GridPosition::new(0, 0),
            direction: Direction::Up,
            floor_kicks: 0,
        }
    }

    /// A fresh piece of two random blocks, each a breaker one time in four.
    pub fn rand(x: i8, y: i8) -> (r: Self)
        ensures
            r.position == (GridPosition { x: x, y: y }),
            r.direction == Direction::Up,
            r.floor_kicks == 0,
            r.blocks[0].age == 0 && r.blocks[0].borders == Sides::spec_all(),
            r.blocks[1].age == 0 && r.blocks[1].borders == Sides::spec_all(),
    {
        let pos = GridPosition::new(x, y);
        let block1 = Block::new(Color::rand(), random_u64() % 4 == 0);
        let block2 = Block::new(Color::rand(), random_u64() % 4 == 0);

        Piece { blocks: [block1, block2], position: pos, direction: Direction::Up, floor_kicks: 0 }
    }

    pub open spec fn spec_dup_to(self, position: GridPosition, direction: Direction) -> Self {
        Piece { blocks: self.blocks, position, direction, floor_kicks: self.floor_kicks }
    }

    /// The same two blocks moved to a new pivot and facing.
    #[verifier::when_used_as_spec(spec_dup_to)]
    pub fn dup_to(self, position: GridPosition, direction: Direction) -> (r: Self)
        ensures
            r == self.spec_dup_to(position, direction),
    {
        Piece { blocks: self.blocks, position, direction, floor_kicks: self.floor_kicks }
    }

    /// The cells a piece occupies, bottom block first, as a sequence.
    pub open spec fn spec_blocks_seq(self) -> Seq<PositionedBlock> {
        let first = PositionedBlock { block: self.blocks[0], position: self.position };
        let second = PositionedBlock {
            block: self.blocks[1],
            position: self.position.spec_offset(self.direction),
        };
        match self.direction {
            Direction::Down => seq![second, first],
            _ => seq![first, second],
        }
    }

    /// The cells a piece occupies, bottom block first.
    pub open spec fn spec_blocks(self) -> [PositionedBlock; 2] {
        let first = PositionedBlock { block: self.blocks[0], position: self.position };
        let second = PositionedBlock {
            block: self.blocks[1],
            position: self.position.spec_offset(self.direction),
        };
        match self.direction {
            Direction::Down => [second, first],
            _ => [first, second],
        }
    }

    /// The two positioned blocks of the piece, ordered bottom to top so
    /// gravity resolution settles the lower block first.
    #[verifier::when_used_as_spec(spec_blocks)]
    pub fn blocks(self) -> (r: [PositionedBlock; 2])
        requires
            self.position.can_offset(self.direction),
        ensures
            r == self.spec_blocks(),
    {
        let first = PositionedBlock::new(self.blocks[0], self.position);
        let second = PositionedBlock::new(self.blocks[1], self.position.offset(self.direction));

        match self.direction {
            Direction::Down => [second, first],
            _ => [first, second],
        }
    }

    pub open spec fn spec_piece_offset(self, direction: Direction) -> Self {
        Piece { position: self.position.spec_offset(direction), ..self }
    }

    #[verifier::when_used_as_spec(spec_piece_offset)]
    pub fn offset(self, direction: Direction) -> (r: Self)
        requires
            self.position.can_offset(direction),
        ensures
            r == self.spec_piece_offset(direction),
    {
        Piece { position: self.position.offset(direction), ..self }
    }

    pub open spec fn spec_kick(self) -> Self {
        if self.direction == Direction::Down {
            Piece { floor_kicks: (self.floor_kicks + 1) as u8, ..self }
        } else {
            self
        }
    }

    /// Record that the piece was just kicked off a wall or floor. Only
    /// kicks that land the piece facing down count as floor kicks.
    #[verifier::when_used_as_spec(spec_kick)]
    pub fn kick(self) -> (r: Self)
        requires
            self.floor_kicks < 255,
        ensures
            r == self.spec_kick(),
    {
        if self.direction == Direction::Down {
            Piece { floor_kicks: self.floor_kicks + 1, ..self }
        } else {
            self
        }
    }

    /// How many times this piece has been kicked off the floor.
    pub fn floor_kicks(&self) -> (r: u8)
        ensures
            r == self.floor_kicks,
    {
        self.floor_kicks
    }

    pub open spec fn spec_rotate(self, r: Rotation) -> Self {
        Piece { direction: self.direction.spec_rotate(r), ..self }
    }

    #[verifier::when_used_as_spec(spec_rotate)]
    pub fn rotate(self, r: Rotation) -> (p: Self)
        ensures
            p == self.spec_rotate(r),
    {
        Piece { direction: self.direction.rotate(r), ..self }
    }
}

} // verus!
