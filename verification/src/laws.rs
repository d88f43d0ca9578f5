//! The laws of the simulation: properties that hold of the engines on
//! every board, stated and proved over the same models the engines'
//! own contracts use.

use vstd::prelude::*;

use crate::block_grid::GridModel;
use crate::board::Board;
use crate::board::BoardModel;
use crate::board::DropState;
use crate::board::drop_fold;
use crate::board::extrude_scan;
use crate::board::extrude_write;
use crate::board::spec_extrude;
use crate::board::fuse_fold;
use crate::board::fuse_step;
use crate::block_grid::BreakFrame;
use crate::block_grid::BreakState;
use crate::block_grid::break_search;
use crate::block_grid::breakers_fold;
use crate::block_grid::spec_direction_of;
use crate::block_grid::stack_measure;
use crate::block_grid::pot;
use crate::board::fused_sides_of;
use crate::board::spec_drop_block;
use crate::board::spec_flush;
use crate::values::BlockEvent;
use crate::values::Direction;
use crate::values::GridPosition;
use crate::values::Piece;
use crate::values::PositionedBlock;
use crate::values::Rotation;
use crate::values::Sides;

verus! {

/// Law: gravity is idempotent. A block that is already resting drops
/// to its own position, so dropping the result of a drop is the drop
/// itself, on every board.
pub proof fn lemma_bottom_idempotent(g: GridModel, pb: PositionedBlock)
    requires
        g.wf(),
        pb.position.y > i8::MIN,
    ensures
        g.bottom(g.bottom(pb)) == g.bottom(pb),
        !g.empty_pos(pb.position.spec_offset(Direction::Down)) ==> g.bottom(pb) == pb,
{
    crate::block_grid::lemma_bottom_props(g, pb);
}

/// Law: an unobstructed center rotation applies no wall or floor
/// shift. When the plain rotation fits, the rotated piece keeps its
/// pivot position and its floor-kick count; only the facing turns.
pub proof fn lemma_rotate_unobstructed(g: GridModel, p: Piece, r: Rotation)
    requires
        BoardModel::piece_placeable(g, p.spec_rotate(r)),
    ensures
        Board::rotate_outcome(g, p, r) == p.spec_rotate(r),
        Board::rotate_outcome(g, p, r).position == p.position,
        Board::rotate_outcome(g, p, r).floor_kicks == p.floor_kicks,
{
}

/// Law: obstructed rotations follow the three kick tiers in order.
/// With the plain rotation blocked, the wall/floor kick applies if it
/// fits - and only a kick that lands the piece facing down costs a
/// floor kick; with both blocked, the shifted half-turn applies if it
/// fits; with all three blocked, the piece does not move at all.
pub proof fn lemma_rotate_kick_order(g: GridModel, p: Piece, r: Rotation)
    requires
        !BoardModel::piece_placeable(g, p.spec_rotate(r)),
    ensures
        ({
            let c2 = p.spec_rotate(r).spec_piece_offset(
                p.direction.spec_rotate(r.spec_reverse()),
            ).spec_kick();
            let c3 = p.spec_rotate(r).spec_rotate(r).spec_piece_offset(p.direction);
            if BoardModel::piece_placeable(g, c2) {
                Board::rotate_outcome(g, p, r) == c2
            } else if BoardModel::piece_placeable(g, c3) {
                Board::rotate_outcome(g, p, r) == c3
            } else {
                Board::rotate_outcome(g, p, r) == p
            }
        }),
{
}

/// Law: a fused compound never partially drops. When the gravity
/// pass flushes an accumulated compound, every accumulated cell moves
/// down by one and the same distance - the least fall distance seen
/// among them - and lands exactly that far below its old cell;
/// columns the compound does not touch are left alone. The
/// accumulated cells of one compound sit in distinct columns, as the
/// bottom edge of a well-formed compound always does.
pub proof fn lemma_flush_uniform(st: DropState, pending: Seq<PositionedBlock>, depth: i8, i: int)
    requires
        0 <= i,
        0 <= depth,
        st.grid.wf(),
        forall|k: int, l: int|
            0 <= k < l < pending.len() ==> (#[trigger] pending[k]).position.x != (
            #[trigger] pending[l]).position.x,
        forall|k: int| 0 <= k < pending.len() ==> (#[trigger] pending[k]).position.y >= depth,
        forall|k: int|
            i <= k < pending.len() ==> st.grid.at_pos((#[trigger] pending[k]).position) == Some(
                pending[k],
            ),
    ensures
        spec_flush(st, pending, depth, i).grid.wf(),
        spec_flush(st, pending, depth, i).grid.width == st.grid.width,
        spec_flush(st, pending, depth, i).grid.height == st.grid.height,
        forall|k: int|
            i <= k < pending.len() ==> spec_flush(st, pending, depth, i).grid.at_pos(
                (#[trigger] pending[k]).spec_drop(depth).position,
            ) == Some(pending[k].spec_drop(depth)),
        forall|x: int, y: int|
            #![trigger spec_flush(st, pending, depth, i).grid.at(x, y)]
            (forall|j: int| i <= j < pending.len() ==> (#[trigger] pending[j]).position.x != x)
                ==> spec_flush(st, pending, depth, i).grid.at(x, y) == st.grid.at(x, y),
    decreases pending.len() - i,
{
    if 0 <= i < pending.len() {
        let q = pending[i];
        let target = q.spec_drop(depth);
        let qx = q.position.x as int;
        let qy = q.position.y as int;
        assert(st.grid.at_pos(q.position) == Some(q));
        assert(st.grid.in_bounds(qx, qy));
        let st2 = spec_drop_block(st, q, target);
        if target.position != q.position {
            assert(depth > 0);
            assert(target.position.x == q.position.x);
            assert(target.position.y == q.position.y - depth);
            crate::block_grid::lemma_clear_at(st.grid, qx, qy);
            crate::block_grid::lemma_set_block(st.grid.clear_at(qx, qy), target);
        }
        assert forall|k: int| i + 1 <= k < pending.len() implies st2.grid.at_pos(
            (#[trigger] pending[k]).position,
        ) == Some(pending[k]) by {
            assert(pending[k].position.x != q.position.x);
        }
        lemma_flush_uniform(st2, pending, depth, i + 1);
        assert(spec_flush(st, pending, depth, i) == spec_flush(st2, pending, depth, i + 1));
        // the later steps touch only columns of pending[i+1..], never q's
        assert forall|j: int|
            i + 1 <= j < pending.len() implies (#[trigger] pending[j]).position.x
            != target.position.x by {
            assert(pending[j].position.x != q.position.x);
        }
        assert(spec_flush(st2, pending, depth, i + 1).grid.at(
            target.position.x as int,
            target.position.y as int,
        ) == st2.grid.at(target.position.x as int, target.position.y as int));
        assert(st2.grid.at_pos(target.position) == Some(target));
        assert(spec_flush(st, pending, depth, i).grid.at_pos(target.position) == Some(target));
    }
}

/// Law: the corner-avoidance gate. An extrusion's scan accepts an
/// edge only if its outward neighbor, when that neighbor is itself
/// part of a compound, agrees with the edge cell on the two sides
/// perpendicular to the extrusion - so two compounds whose adjoining
/// edges are not aligned never merge across the shared corner.
pub proof fn lemma_extrude_corner_gate(
    g: GridModel,
    block: PositionedBlock,
    ed: Direction,
    td: Direction,
)
    requires
        g.wf(),
        extrude_scan(g, block, ed, td),
    ensures
        ({
            match g.at_pos(block.position.spec_offset(ed)) {
                Some(alt) => block.spec_can_fuse_with(alt) && (!alt.spec_is_fused()
                    || block.block.borders.spec_intersect(fused_sides_of(ed))
                    == alt.block.borders.spec_intersect(fused_sides_of(ed))),
                None => false,
            }
        }),
{
}


/// A cell at which one fuse-scan step finds nothing left to do: no
/// fresh 2x2 square can form with it as the lower-left anchor, and if
/// it is the corner of a compound, no extrusion from that corner is
/// accepted.
pub open spec fn fuse_saturated_at(g: GridModel, pos: GridPosition) -> bool {
    match g.at_pos(pos) {
        None => true,
        Some(block) => {
            let up_o = g.at_pos(block.position.spec_offset(Direction::Up));
            let right_o = g.at_pos(block.position.spec_offset(Direction::Right));
            let upright_o = g.at_pos(
                block.position.spec_offset(Direction::Up).spec_offset(Direction::Right),
            );
            if up_o is Some && right_o is Some && upright_o is Some {
                let up = up_o.unwrap();
                let right = right_o.unwrap();
                let upright = upright_o.unwrap();
                if !block.spec_is_fused() {
                    !(block.spec_can_fuse_with(block) && up.spec_can_fuse_with(block)
                        && !up.spec_is_fused() && right.spec_can_fuse_with(block)
                        && !right.spec_is_fused() && upright.spec_can_fuse_with(block)
                        && !upright.spec_is_fused())
                } else {
                    if block.block.borders == crate::values::Sides::spec_top_left() {
                        !extrude_scan(g, block, Direction::Up, Direction::Right)
                    } else if block.block.borders == crate::values::Sides::spec_bottom_right() {
                        !extrude_scan(g, block, Direction::Right, Direction::Up)
                    } else if block.block.borders == crate::values::Sides::spec_bottom_left() {
                        !extrude_scan(g, block, Direction::Left, Direction::Up) && !extrude_scan(
                            g,
                            block,
                            Direction::Down,
                            Direction::Right,
                        )
                    } else {
                        true
                    }
                }
            } else {
                true
            }
        },
    }
}

/// One fuse-scan step at a saturated cell changes nothing.
pub proof fn lemma_saturated_step(g: GridModel, pos: GridPosition)
    requires
        g.wf(),
        fuse_saturated_at(g, pos),
    ensures
        fuse_step(g, pos) == g,
{
}

proof fn lemma_fuse_fixpoint_rec(g: GridModel, bs: Seq<PositionedBlock>, i: int)
    requires
        g.wf(),
        forall|pos: GridPosition| #[trigger] fuse_saturated_at(g, pos),
    ensures
        fuse_fold(bs, i, g) == g,
    decreases bs.len() - i,
{
    if 0 <= i < bs.len() {
        lemma_saturated_step(g, bs[i].position);
        lemma_fuse_fixpoint_rec(g, bs, i + 1);
    }
}

/// Law: fusing is reflexive under re-running. On a fully fused board
/// - one where no cell can anchor a new 2x2 square and no compound
/// corner admits an extrusion - one more fuse pass changes nothing.
pub proof fn lemma_fuse_fixpoint(g: GridModel)
    requires
        g.wf(),
        forall|pos: GridPosition| #[trigger] fuse_saturated_at(g, pos),
    ensures
        fuse_fold(g.blocks(), 0, g) == g,
{
    lemma_fuse_fixpoint_rec(g, g.blocks(), 0);
}

/// No breaker on the board has a same-colored breakable neighbor.
pub open spec fn no_breaker_neighbors(g: GridModel) -> bool {
    forall|pos: GridPosition, d: Direction|
        #![trigger g.at_pos(pos), g.at_pos(pos.spec_offset(d))]
        match g.at_pos(pos) {
            Some(pb) => pb.block.breaker ==> match g.at_pos(pos.spec_offset(d)) {
                Some(c) => !(c.block.color == pb.block.color && c.block.age == 0),
                None => true,
            },
            None => true,
        }
}

proof fn lemma_lone_search(g: GridModel, st: BreakState)
    requires
        g.wf(),
        no_breaker_neighbors(g),
        forall|k: int|
            0 <= k < st.stack.len() ==> {
                let fr = #[trigger] st.stack[k];
                g.at_pos(fr.block.position) == Some(fr.block) && fr.block.block.breaker
            },
    ensures
        break_search(g, st).acc == st.acc,
        break_search(g, st).found == st.found,
    decreases pot(g, st.acc), stack_measure(st.stack),
{
    if st.stack.len() == 0 {
    } else {
        let fr = st.stack.last();
        assert(g.at_pos(fr.block.position) == Some(fr.block));
        if fr.dir_ix >= 4 {
            crate::block_grid::lemma_stack_measure_pop(st.stack);
            let st2 = BreakState { stack: st.stack.drop_last(), ..st };
            assert forall|k: int| 0 <= k < st2.stack.len() implies {
                let f2 = #[trigger] st2.stack[k];
                g.at_pos(f2.block.position) == Some(f2.block) && f2.block.block.breaker
            } by {
                assert(st2.stack[k] == st.stack[k]);
            }
            lemma_lone_search(g, st2);
        } else {
            let d = spec_direction_of(fr.dir_ix);
            let fr2 = BreakFrame { dir_ix: (fr.dir_ix + 1) as u8, ..fr };
            let stack1 = st.stack.update(st.stack.len() - 1, fr2);
            crate::block_grid::lemma_stack_measure_set_last(st.stack, fr2);
            crate::block_grid::lemma_stack_measure_pop(st.stack);
            let st2 = BreakState { stack: stack1, ..st };
            assert forall|k: int| 0 <= k < st2.stack.len() implies {
                let f2 = #[trigger] st2.stack[k];
                g.at_pos(f2.block.position) == Some(f2.block) && f2.block.block.breaker
            } by {
                if k < st.stack.len() - 1 {
                    assert(st2.stack[k] == st.stack[k]);
                } else {
                    assert(st2.stack[k] == fr2);
                }
            }
            match g.at_pos(fr.block.position.spec_offset(d)) {
                Some(c) => {
                    assert(!(c.block.color == fr.block.block.color && c.block.age == 0));
                    lemma_lone_search(g, st2);
                },
                None => {
                    lemma_lone_search(g, st2);
                },
            }
        }
    }
}

proof fn lemma_lone_breakers_rec(
    g: GridModel,
    bs: Seq<PositionedBlock>,
    i: int,
    acc: Seq<(PositionedBlock, u8)>,
)
    requires
        g.wf(),
        no_breaker_neighbors(g),
        forall|k: int|
            0 <= k < bs.len() ==> g.at_pos((#[trigger] bs[k]).position) == Some(bs[k]),
    ensures
        breakers_fold(g, bs, i, acc) == acc,
    decreases bs.len() - i,
{
    if 0 <= i < bs.len() {
        let b = bs[i];
        if b.block.breaker {
            let st0 = BreakState {
                stack: seq![BreakFrame { block: b, depth: 1, dir_ix: 0 }],
                acc,
                found: false,
            };
            assert(st0.stack[0] == (BreakFrame { block: b, depth: 1, dir_ix: 0 }));
            lemma_lone_search(g, st0);
        }
        lemma_lone_breakers_rec(g, bs, i + 1, acc);
    }
}

/// Law: breaking a breaker with no matching neighbor is a no-op. On a
/// board where no breaker has a same-colored breakable block next to
/// it, the break engine's kill list is empty.
pub proof fn lemma_lone_breakers_break_nothing(g: GridModel)
    requires
        g.wf(),
        no_breaker_neighbors(g),
    ensures
        g.breakers() == Seq::<(PositionedBlock, u8)>::empty(),
{
    crate::block_grid::lemma_blocks_prefix_elems(g, g.cells.len() as int);
    lemma_lone_breakers_rec(g, g.blocks(), 0, Seq::empty());
}


/// Two grids with the same cell skeleton: equal occupancy, every
/// block equal up to its border flags. Fusing only rewrites border
/// flags, so it relates a grid to its fused form.
pub open spec fn same_skeleton(a: GridModel, b: GridModel) -> bool {
    &&& a.width == b.width
    &&& a.height == b.height
    &&& forall|x: int, y: int|
        #![trigger b.at(x, y)]
        match (a.at(x, y), b.at(x, y)) {
            (Some(p), Some(q)) => p.position == q.position && p.block.id == q.block.id
                && p.block.color == q.block.color && p.block.breaker == q.block.breaker
                && p.block.age == q.block.age,
            (None, None) => true,
            _ => false,
        }
}

/// A cell that fusing may touch: it holds a breakable, unaged block
/// with at least one same-colored breakable unaged neighbor.
pub open spec fn fuse_eligible(g: GridModel, x: int, y: int) -> bool {
    match g.at(x, y) {
        Some(pb) => pb.block.age == 0 && !pb.block.breaker && (exists|d: Direction|
            match g.at_pos(#[trigger] pb.position.spec_offset(d)) {
                Some(q) => q.block.color == pb.block.color && q.block.age == 0
                    && !q.block.breaker,
                None => false,
            }),
        None => false,
    }
}

/// The cell at `b`'s position holds a block equal to `b` up to its
/// border flags.
pub open spec fn holds_like(g: GridModel, b: PositionedBlock) -> bool {
    match g.at_pos(b.position) {
        Some(q) => q.position == b.position && q.block.id == b.block.id && q.block.color
            == b.block.color && q.block.breaker == b.block.breaker && q.block.age == b.block.age,
        None => false,
    }
}

pub proof fn lemma_skeleton_trans(a: GridModel, b: GridModel, c: GridModel)
    requires
        same_skeleton(a, b),
        same_skeleton(b, c),
    ensures
        same_skeleton(a, c),
{
    assert forall|x: int, y: int| true implies match (a.at(x, y), #[trigger] c.at(x, y)) {
        (Some(p), Some(q)) => p.position == q.position && p.block.id == q.block.id
            && p.block.color == q.block.color && p.block.breaker == q.block.breaker
            && p.block.age == q.block.age,
        (None, None) => true,
        _ => false,
    } by {
        assert(match (a.at(x, y), b.at(x, y)) {
            (Some(p), Some(q)) => p.position == q.position && p.block.id == q.block.id
                && p.block.color == q.block.color && p.block.breaker == q.block.breaker
                && p.block.age == q.block.age,
            (None, None) => true,
            _ => false,
        });
    }
}

/// Eligibility is a property of the skeleton alone.
pub proof fn lemma_skeleton_eligible(a: GridModel, b: GridModel, x: int, y: int)
    requires
        same_skeleton(a, b),
        fuse_eligible(b, x, y),
    ensures
        fuse_eligible(a, x, y),
{
    let pb = b.at(x, y).unwrap();
    let pa = a.at(x, y).unwrap();
    let d = choose|d: Direction|
        match b.at_pos(#[trigger] pb.position.spec_offset(d)) {
            Some(q) => q.block.color == pb.block.color && q.block.age == 0 && !q.block.breaker,
            None => false,
        };
    let npos = pb.position.spec_offset(d);
    assert(b.at_pos(npos) == b.at(npos.x as int, npos.y as int));
    assert(pa.position == pb.position);
    assert(match a.at_pos(pa.position.spec_offset(d)) {
        Some(q) => q.block.color == pa.block.color && q.block.age == 0 && !q.block.breaker,
        None => false,
    });
}

/// `holds_like` transfers along the skeleton.
pub proof fn lemma_skeleton_holds_like(a: GridModel, b: GridModel, blk: PositionedBlock)
    requires
        same_skeleton(a, b),
        holds_like(a, blk),
    ensures
        holds_like(b, blk),
{
}

/// The write pass of an extrusion rewrites border flags only, and
/// only at cells eligible to fuse.
#[verifier::rlimit(100)]
proof fn lemma_write_protects(g: GridModel, block: PositionedBlock, ed: Direction, td: Direction)
    requires
        g.wf(),
        g.in_bounds(block.position.x as int, block.position.y as int),
        holds_like(g, block),
    ensures
        extrude_write(g, block, ed, td).wf(),
        same_skeleton(g, extrude_write(g, block, ed, td)),
        forall|x: int, y: int|
            #![trigger extrude_write(g, block, ed, td).at(x, y)]
            extrude_write(g, block, ed, td).at(x, y) != g.at(x, y) ==> fuse_eligible(g, x, y),
    decreases g.walk_measure(block.position, td),
{
    let w = extrude_write(g, block, ed, td);
    let fs = fused_sides_of(ed);
    match g.at_pos(block.position.spec_offset(ed)) {
        None => {
        },
        Some(alt) => {
            if !block.spec_can_fuse_with(alt) {
            } else {
                let sides = block.block.borders.spec_intersect(fs);
                let alt_sides = if alt.spec_is_fused() {
                    Sides::spec_none().spec_union(sides)
                } else {
                    ed.spec_to_side().spec_union(sides)
                };
                let ga = g.set_block(alt.spec_fuse(alt_sides));
                let g2 = ga.set_block(block.spec_fuse(sides));
                crate::block_grid::lemma_set_block(g, alt.spec_fuse(alt_sides));
                crate::block_grid::lemma_set_block(ga, block.spec_fuse(sides));
                let q = g.at_pos(block.position).unwrap();
                // the two rewritten cells keep their blocks' identity and
                // are mutually eligible
                let opp = ed.spec_rotate(Rotation::Clockwise).spec_rotate(Rotation::Clockwise);
                assert(alt.position == block.position.spec_offset(ed));
                assert(alt.position.spec_offset(opp) == block.position);
                assert(same_skeleton(g, g2));
                assert(fuse_eligible(g, block.position.x as int, block.position.y as int)) by {
                    assert(match g.at_pos(q.position.spec_offset(ed)) {
                        Some(n) => n.block.color == q.block.color && n.block.age == 0
                            && !n.block.breaker,
                        None => false,
                    });
                }
                assert(fuse_eligible(g, alt.position.x as int, alt.position.y as int)) by {
                    assert(match g.at_pos(alt.position.spec_offset(opp)) {
                        Some(n) => n.block.color == alt.block.color && n.block.age == 0
                            && !n.block.breaker,
                        None => false,
                    });
                }
                if block.block.borders.spec_contains(crate::board::opposite_corner_of(ed, td)) {
                } else {
                    match g2.at_pos(block.position.spec_offset(td)) {
                        Some(b2) => {
                            if g2.walk_measure(b2.position, td) < g.walk_measure(
                                block.position,
                                td,
                            ) {
                                lemma_write_protects(g2, b2, ed, td);
                                lemma_skeleton_trans(g, g2, w);
                                assert forall|x: int, y: int|
                                    #[trigger] w.at(x, y) != g.at(x, y) implies fuse_eligible(
                                    g,
                                    x,
                                    y,
                                ) by {
                                    if w.at(x, y) != g2.at(x, y) {
                                        lemma_skeleton_eligible(g, g2, x, y);
                                    }
                                }
                            }
                        },
                        None => {
                        },
                    }
                }
            }
        },
    }
}

/// One fuse-scan step rewrites border flags only, and only at cells
/// eligible to fuse.
proof fn lemma_fuse_step_protects(g: GridModel, pos: GridPosition)
    requires
        g.wf(),
    ensures
        fuse_step(g, pos).wf(),
        same_skeleton(g, fuse_step(g, pos)),
        forall|x: int, y: int|
            #![trigger fuse_step(g, pos).at(x, y)]
            fuse_step(g, pos).at(x, y) != g.at(x, y) ==> fuse_eligible(g, x, y),
{
    let w = fuse_step(g, pos);
    match g.at_pos(pos) {
        None => {
        },
        Some(block) => {
            let up_o = g.at_pos(block.position.spec_offset(Direction::Up));
            let right_o = g.at_pos(block.position.spec_offset(Direction::Right));
            let upright_o = g.at_pos(
                block.position.spec_offset(Direction::Up).spec_offset(Direction::Right),
            );
            if up_o is Some && right_o is Some && upright_o is Some {
                let up = up_o.unwrap();
                let right = right_o.unwrap();
                let upright = upright_o.unwrap();
                if !block.spec_is_fused() {
                    let fuse = block.spec_can_fuse_with(block) && !block.spec_is_fused()
                        && up.spec_can_fuse_with(block) && !up.spec_is_fused()
                        && right.spec_can_fuse_with(block) && !right.spec_is_fused()
                        && upright.spec_can_fuse_with(block) && !upright.spec_is_fused();
                    if fuse {
                        let s1 = block.spec_fuse(
                            Sides::spec_bottom().spec_union(Sides::spec_left()),
                        );
                        let s2 = up.spec_fuse(Sides::spec_top().spec_union(Sides::spec_left()));
                        let s3 = right.spec_fuse(
                            Sides::spec_bottom().spec_union(Sides::spec_right()),
                        );
                        let s4 = upright.spec_fuse(
                            Sides::spec_top().spec_union(Sides::spec_right()),
                        );
                        let ga = g.set_block(s1);
                        let gb = ga.set_block(s2);
                        let gc = gb.set_block(s3);
                        crate::block_grid::lemma_set_block(g, s1);
                        crate::block_grid::lemma_set_block(ga, s2);
                        crate::block_grid::lemma_set_block(gb, s3);
                        crate::block_grid::lemma_set_block(gc, s4);
                        assert(up.position == block.position.spec_offset(Direction::Up));
                        assert(right.position == block.position.spec_offset(Direction::Right));
                        assert(up.position.spec_offset(Direction::Down) == block.position);
                        assert(right.position.spec_offset(Direction::Left) == block.position);
                        assert(upright.position.spec_offset(Direction::Left) == up.position);
                        assert(fuse_eligible(g, block.position.x as int, block.position.y as int))
                            by {
                            assert(match g.at_pos(block.position.spec_offset(Direction::Up)) {
                                Some(n) => n.block.color == block.block.color && n.block.age == 0
                                    && !n.block.breaker,
                                None => false,
                            });
                        }
                        assert(fuse_eligible(g, up.position.x as int, up.position.y as int)) by {
                            assert(match g.at_pos(up.position.spec_offset(Direction::Down)) {
                                Some(n) => n.block.color == up.block.color && n.block.age == 0
                                    && !n.block.breaker,
                                None => false,
                            });
                        }
                        assert(fuse_eligible(g, right.position.x as int, right.position.y as int))
                            by {
                            assert(match g.at_pos(right.position.spec_offset(Direction::Left)) {
                                Some(n) => n.block.color == right.block.color && n.block.age == 0
                                    && !n.block.breaker,
                                None => false,
                            });
                        }
                        assert(fuse_eligible(
                            g,
                            upright.position.x as int,
                            upright.position.y as int,
                        )) by {
                            assert(match g.at_pos(upright.position.spec_offset(Direction::Left)) {
                                Some(n) => n.block.color == upright.block.color && n.block.age == 0
                                    && !n.block.breaker,
                                None => false,
                            });
                        }
                    }
                } else {
                    if block.block.borders == Sides::spec_top_left() {
                        lemma_write_or_skip(g, block, Direction::Up, Direction::Right);
                    } else if block.block.borders == Sides::spec_bottom_right() {
                        lemma_write_or_skip(g, block, Direction::Right, Direction::Up);
                    } else if block.block.borders == Sides::spec_bottom_left() {
                        let g1 = spec_extrude(g, block, Direction::Left, Direction::Up);
                        lemma_write_or_skip(g, block, Direction::Left, Direction::Up);
                        lemma_skeleton_holds_like(g, g1, block);
                        lemma_write_or_skip(g1, block, Direction::Down, Direction::Right);
                        lemma_skeleton_trans(g, g1, w);
                        assert forall|x: int, y: int|
                            #[trigger] w.at(x, y) != g.at(x, y) implies fuse_eligible(g, x, y) by {
                            if w.at(x, y) != g1.at(x, y) {
                                lemma_skeleton_eligible(g, g1, x, y);
                            }
                        }
                    }
                }
            }
        },
    }
}

/// One whole extrusion attempt rewrites border flags only, and only
/// at cells eligible to fuse.
proof fn lemma_write_or_skip(g: GridModel, block: PositionedBlock, ed: Direction, td: Direction)
    requires
        g.wf(),
        g.in_bounds(block.position.x as int, block.position.y as int),
        holds_like(g, block),
    ensures
        spec_extrude(g, block, ed, td).wf(),
        same_skeleton(g, spec_extrude(g, block, ed, td)),
        forall|x: int, y: int|
            #![trigger spec_extrude(g, block, ed, td).at(x, y)]
            spec_extrude(g, block, ed, td).at(x, y) != g.at(x, y) ==> fuse_eligible(g, x, y),
{
    if extrude_scan(g, block, ed, td) {
        lemma_write_protects(g, block, ed, td);
    }
}

proof fn lemma_fuse_fold_protects(g: GridModel, bs: Seq<PositionedBlock>, i: int)
    requires
        g.wf(),
    ensures
        fuse_fold(bs, i, g).wf(),
        same_skeleton(g, fuse_fold(bs, i, g)),
        forall|x: int, y: int|
            #![trigger fuse_fold(bs, i, g).at(x, y)]
            fuse_fold(bs, i, g).at(x, y) != g.at(x, y) ==> fuse_eligible(g, x, y),
    decreases bs.len() - i,
{
    let w = fuse_fold(bs, i, g);
    if 0 <= i < bs.len() {
        let g1 = fuse_step(g, bs[i].position);
        lemma_fuse_step_protects(g, bs[i].position);
        lemma_fuse_fold_protects(g1, bs, i + 1);
        lemma_skeleton_trans(g, g1, w);
        assert forall|x: int, y: int| #[trigger] w.at(x, y) != g.at(x, y) implies fuse_eligible(
            g,
            x,
            y,
        ) by {
            if w.at(x, y) != g1.at(x, y) {
                lemma_skeleton_eligible(g, g1, x, y);
            }
        }
    }
}

/// Law: differently colored, breaker, or aged adjacent blocks never
/// fuse, under any arrangement. One whole fuse pass rewrites border
/// flags only - every cell keeps its occupancy and its block's
/// identity, color, breaker flag and age - and it changes a cell only
/// when that cell holds a breakable, unaged block with a
/// same-colored, breakable, unaged neighbor.
pub proof fn lemma_fuse_pass_protects(g: GridModel)
    requires
        g.wf(),
    ensures
        fuse_fold(g.blocks(), 0, g).wf(),
        same_skeleton(g, fuse_fold(g.blocks(), 0, g)),
        forall|x: int, y: int|
            #![trigger fuse_fold(g.blocks(), 0, g).at(x, y)]
            fuse_fold(g.blocks(), 0, g).at(x, y) != g.at(x, y) ==> fuse_eligible(g, x, y),
{
    lemma_fuse_fold_protects(g, g.blocks(), 0);
}


/// Every block a grid lists sits strictly later in cell order than
/// the one before it: the listing is bottom-to-top, left-to-right.
pub proof fn lemma_blocks_prefix_ordered(g: GridModel, n: int)
    requires
        g.wf(),
        0 <= n <= g.cells.len(),
    ensures
        forall|k: int|
            0 <= k < g.blocks_prefix(n).len() ==> g.idx(
                (#[trigger] g.blocks_prefix(n)[k]).position.x as int,
                g.blocks_prefix(n)[k].position.y as int,
            ) < n,
        forall|k1: int, k2: int|
            0 <= k1 < k2 < g.blocks_prefix(n).len() ==> g.idx(
                (#[trigger] g.blocks_prefix(n)[k1]).position.x as int,
                g.blocks_prefix(n)[k1].position.y as int,
            ) < g.idx(
                (#[trigger] g.blocks_prefix(n)[k2]).position.x as int,
                g.blocks_prefix(n)[k2].position.y as int,
            ),
    decreases n,
{
    if n > 0 {
        lemma_blocks_prefix_ordered(g, n - 1);
        match g.cells[n - 1] {
            Some(pb) => {
                crate::block_grid::lemma_cell_block(g, n - 1);
                let w = g.width;
                vstd::arithmetic::div_mod::lemma_fundamental_div_mod(n - 1, w);
                vstd::arithmetic::div_mod::lemma_mod_pos_bound(n - 1, w);
                assert(((n - 1) / w) * w + (n - 1) % w == n - 1 && (n - 1) / w < g.height)
                    by (nonlinear_arith)
                    requires
                        w >= 1,
                        n - 1 == w * ((n - 1) / w) + (n - 1) % w,
                        0 <= (n - 1) % w < w,
                        n - 1 < w * g.height,
                ;
                assert(pb.position.x as int == (n - 1) % w);
                assert(pb.position.y as int == (n - 1) / w);
                assert(g.idx(pb.position.x as int, pb.position.y as int) == n - 1);
                assert forall|k: int| 0 <= k < g.blocks_prefix(n).len() implies g.idx(
                    (#[trigger] g.blocks_prefix(n)[k]).position.x as int,
                    g.blocks_prefix(n)[k].position.y as int,
                ) < n by {
                    if k < g.blocks_prefix(n - 1).len() {
                        assert(g.blocks_prefix(n)[k] == g.blocks_prefix(n - 1)[k]);
                    } else {
                        assert(g.blocks_prefix(n)[k] == pb);
                    }
                }
            },
            None => {},
        }
    }
}

/// Every occupied cell of a grid appears in its block listing.
pub proof fn lemma_blocks_prefix_complete(g: GridModel, n: int)
    requires
        0 <= n <= g.cells.len(),
    ensures
        forall|m: int|
            0 <= m < n ==> match #[trigger] g.cells[m] {
                Some(pb) => exists|k: int|
                    0 <= k < g.blocks_prefix(n).len() && #[trigger] g.blocks_prefix(n)[k] == pb,
                None => true,
            },
    decreases n,
{
    if n > 0 {
        lemma_blocks_prefix_complete(g, n - 1);
        assert forall|m: int| 0 <= m < n implies match #[trigger] g.cells[m] {
            Some(pb) => exists|k: int|
                0 <= k < g.blocks_prefix(n).len() && #[trigger] g.blocks_prefix(n)[k] == pb,
            None => true,
        } by {
            match g.cells[m] {
                Some(pb) => {
                    if m == n - 1 {
                        let k = g.blocks_prefix(n).len() - 1;
                        assert(g.blocks_prefix(n)[k] == pb);
                    } else {
                        let k0 = choose|k: int|
                            0 <= k < g.blocks_prefix(n - 1).len() && #[trigger] g.blocks_prefix(
                                n - 1,
                            )[k] == pb;
                        assert(g.blocks_prefix(n)[k0] == pb);
                    }
                },
                None => {},
            }
        }
    }
}

/// A strictly y-sorted listing climbs at least one row per entry.
proof fn lemma_sorted_rows_climb(bs: Seq<PositionedBlock>, k: int)
    requires
        0 <= k < bs.len(),
        forall|k1: int, k2: int|
            0 <= k1 < k2 < bs.len() ==> (#[trigger] bs[k1]).position.y < (
            #[trigger] bs[k2]).position.y,
        forall|j: int| 0 <= j < bs.len() ==> (#[trigger] bs[j]).position.y >= 0,
    ensures
        bs[k].position.y >= k,
    decreases k,
{
    if k > 0 {
        lemma_sorted_rows_climb(bs, k - 1);
        assert(bs[k - 1].position.y < bs[k].position.y);
    }
}

/// A grid whose every block is a standalone (unfused) block sitting
/// in the single column `c`.
pub open spec fn single_unfused_column(g: GridModel, c: int) -> bool {
    forall|x: int, y: int|
        match #[trigger] g.at(x, y) {
            Some(pb) => x == c && !pb.block.spec_is_fused(),
            None => true,
        }
}

/// The gravity-pass induction for one column of standalone blocks:
/// once the first `j` listed blocks are packed on rows `0..j` and the
/// rest still sit at their starting cells, finishing the pass packs
/// every block, in listing order, onto the bottom rows.
proof fn lemma_drop_column_rec(
    bs: Seq<PositionedBlock>,
    h: i8,
    c: int,
    j: int,
    st: DropState,
)
    requires
        st.grid.wf(),
        0 <= c < st.grid.width,
        0 <= j <= bs.len(),
        bs.len() <= st.grid.height,
        forall|k: int|
            0 <= k < bs.len() ==> !(#[trigger] bs[k]).block.spec_is_fused() && bs[k].position.x
                == c && st.grid.in_bounds(bs[k].position.x as int, bs[k].position.y as int),
        forall|k: int| 0 <= k < bs.len() ==> (#[trigger] bs[k]).position.y >= k,
        forall|k1: int, k2: int|
            0 <= k1 < k2 < bs.len() ==> (#[trigger] bs[k1]).position.y < (
            #[trigger] bs[k2]).position.y,
        forall|k: int|
            0 <= k < j ==> st.grid.at(c, k) == Some(
                PositionedBlock {
                    block: (#[trigger] bs[k]).block,
                    position: GridPosition { x: c as i8, y: k as i8 },
                },
            ),
        forall|k: int|
            j <= k < bs.len() ==> st.grid.at_pos((#[trigger] bs[k]).position) == Some(bs[k]),
        forall|y: int|
            #![trigger st.grid.at(c, y)]
            j <= y < st.grid.height && !(exists|k: int|
                j <= k < bs.len() && (#[trigger] bs[k]).position.y == y) ==> st.grid.at(c, y)
                is None,
        forall|x: int, y: int| x != c ==> #[trigger] st.grid.at(x, y) is None,
    ensures
        ({
            let fin = drop_fold(h, bs, j, st).grid;
            &&& fin.wf()
            &&& forall|k: int|
                0 <= k < bs.len() ==> fin.at(c, k) == Some(
                    PositionedBlock {
                        block: (#[trigger] bs[k]).block,
                        position: GridPosition { x: c as i8, y: k as i8 },
                    },
                )
            &&& forall|y: int| bs.len() <= y ==> #[trigger] fin.at(c, y) is None
            &&& forall|x: int, y: int| x != c ==> #[trigger] fin.at(x, y) is None
        }),
    decreases bs.len() - j,
{
    if j == bs.len() {
        assert forall|y: int| bs.len() <= y implies #[trigger] st.grid.at(c, y) is None by {
            if y < st.grid.height {
                assert(!(exists|k: int|
                    j <= k < bs.len() && (#[trigger] bs[k]).position.y == y));
            }
        }
    } else {
        let pb = bs[j];
        let py = pb.position.y as int;
        assert(py >= j);
        // every cell of the column from row j up to the block is clear
        assert forall|y: int| j <= y < py implies st.grid.at(c, y) is None by {
            if exists|k: int| j <= k < bs.len() && (#[trigger] bs[k]).position.y == y {
                let k = choose|k: int|
                    j <= k < bs.len() && (#[trigger] bs[k]).position.y == y;
                if k > j {
                    assert(bs[j].position.y < bs[k].position.y);
                }
            }
        }
        // so the block's resting place is exactly row j
        let bottom = st.grid.bottom(pb);
        crate::block_grid::lemma_bottom_props(st.grid, pb);
        assert(bottom.position.x == pb.position.x);
        let by_ = bottom.position.y as int;
        if by_ > j {
            assert(st.grid.empty(c, by_ - 1));
            assert(!st.grid.empty(bottom.position.x as int, bottom.position.y - 1));
            assert(false);
        }
        if by_ < j {
            assert(st.grid.empty(pb.position.x as int, j - 1));
            let prev = bs[j - 1];
            assert(st.grid.at(c, j - 1) == Some(
                PositionedBlock {
                    block: prev.block,
                    position: GridPosition { x: c as i8, y: (j - 1) as i8 },
                },
            ));
            assert(false);
        }
        assert(by_ == j);
        let target = PositionedBlock {
            block: pb.block,
            position: GridPosition { x: c as i8, y: j as i8 },
        };
        assert(bottom == target);
        let st2 = spec_drop_block(st, pb, bottom);
        if bottom.position != pb.position {
            crate::block_grid::lemma_clear_at(st.grid, c, py);
            crate::block_grid::lemma_set_block(st.grid.clear_at(c, py), bottom);
        }
        assert(st2.grid.at(c, j) == Some(target));
        assert forall|k: int|
            j + 1 <= k < bs.len() implies st2.grid.at_pos((#[trigger] bs[k]).position) == Some(
            bs[k],
        ) by {
            assert(bs[j].position.y < bs[k].position.y);
        }
        assert forall|y: int|
            #![trigger st2.grid.at(c, y)]
            j + 1 <= y < st2.grid.height && !(exists|k: int|
                j + 1 <= k < bs.len() && (#[trigger] bs[k]).position.y == y) implies st2.grid.at(
            c,
            y,
        ) is None by {
            if y == py && py > j {
            } else {
                if st.grid.at(c, y) is Some {
                    assert(exists|k: int|
                        j <= k < bs.len() && (#[trigger] bs[k]).position.y == y);
                    let k = choose|k: int|
                        j <= k < bs.len() && (#[trigger] bs[k]).position.y == y;
                    if k == j {
                        assert(py == y);
                        assert(py >= j + 1);
                    } else {
                        assert(exists|k2: int|
                            j + 1 <= k2 < bs.len() && (#[trigger] bs[k2]).position.y == y);
                    }
                }
            }
        }
        assert(drop_fold(h, bs, j, st) == drop_fold(h, bs, j + 1, st2));
        lemma_drop_column_rec(bs, h, c, j + 1, st2);
    }
}

/// Law: dropping a column of standalone blocks always compacts it.
/// On a board whose blocks all stand unfused in one column - a column
/// with gaps, one or many - a gravity pass packs them onto the bottom
/// rows with no interior gaps, preserving their bottom-to-top order:
/// the block listed k-th from the bottom comes to rest on row k, rows
/// above the packed stack are empty, and other columns stay empty.
pub proof fn lemma_drop_compacts_column(
    g: GridModel,
    events: Seq<BlockEvent>,
    h: i8,
    c: int,
)
    requires
        g.wf(),
        0 <= c < g.width,
        single_unfused_column(g, c),
    ensures
        ({
            let bs = g.blocks();
            let st0 = DropState {
                grid: g,
                events,
                dropped: false,
                fused_depth: h,
                pending: Seq::empty(),
            };
            let fin = drop_fold(h, bs, 0, st0).grid;
            &&& forall|k: int|
                0 <= k < bs.len() ==> fin.at(c, k) == Some(
                    PositionedBlock {
                        block: (#[trigger] bs[k]).block,
                        position: GridPosition { x: c as i8, y: k as i8 },
                    },
                )
            &&& forall|y: int| bs.len() <= y ==> #[trigger] fin.at(c, y) is None
            &&& forall|x: int, y: int| x != c ==> #[trigger] fin.at(x, y) is None
        }),
{
    let bs = g.blocks();
    let st0 = DropState { grid: g, events, dropped: false, fused_depth: h, pending: Seq::empty() };
    crate::block_grid::lemma_blocks_prefix_elems(g, g.cells.len() as int);
    lemma_blocks_prefix_ordered(g, g.cells.len() as int);
    lemma_blocks_prefix_complete(g, g.cells.len() as int);

    assert forall|k: int| 0 <= k < bs.len() implies !(#[trigger] bs[k]).block.spec_is_fused()
        && bs[k].position.x == c && g.in_bounds(
        bs[k].position.x as int,
        bs[k].position.y as int,
    ) by {
        assert(g.at_pos(bs[k].position) == Some(bs[k]));
    }
    assert forall|k1: int, k2: int|
        0 <= k1 < k2 < bs.len() implies (#[trigger] bs[k1]).position.y < (
    #[trigger] bs[k2]).position.y by {
        let p1 = bs[k1].position;
        let p2 = bs[k2].position;
        assert(g.idx(p1.x as int, p1.y as int) < g.idx(p2.x as int, p2.y as int));
        assert(p1.x as int == c && p2.x as int == c);
        assert((p1.y as int) < p2.y as int) by (nonlinear_arith)
            requires
                (p1.y as int) * g.width + c < (p2.y as int) * g.width + c,
                g.width >= 1,
                p1.y as int >= 0,
                p2.y as int >= 0,
        ;
    }
    assert forall|k: int| 0 <= k < bs.len() implies (#[trigger] bs[k]).position.y >= k by {
        lemma_sorted_rows_climb(bs, k);
    }
    if bs.len() > 0 {
        let last = bs.len() - 1;
        assert(bs[last].position.y >= last);
        assert(bs[last].position.y < g.height);
    }
    assert forall|y: int|
        #![trigger g.at(c, y)]
        0 <= y < g.height && !(exists|k: int|
            0 <= k < bs.len() && (#[trigger] bs[k]).position.y == y) implies g.at(c, y)
        is None by {
        match g.at(c, y) {
            Some(pb) => {
                crate::block_grid::lemma_idx_bounds(g, c, y);
                assert(g.cells[g.idx(c, y)] == Some(pb));
                assert(exists|k: int|
                    0 <= k < g.blocks_prefix(g.cells.len() as int).len()
                        && #[trigger] g.blocks_prefix(g.cells.len() as int)[k] == pb);
                let k = choose|k: int|
                    0 <= k < g.blocks_prefix(g.cells.len() as int).len()
                        && #[trigger] g.blocks_prefix(g.cells.len() as int)[k] == pb;
                assert(bs[k].position.y == y);
            },
            None => {},
        }
    }
    assert forall|x: int, y: int| x != c implies #[trigger] g.at(x, y) is None by {
        match g.at(x, y) {
            Some(pb) => {
                assert(false);
            },
            None => {},
        }
    }
    lemma_drop_column_rec(bs, h, c, 0, st0);
}


/// How many of the first `k` listed blocks sit in column `c`: the row
/// the `k`-th listed block of that column comes to rest on.
pub open spec fn count_in_column(bs: Seq<PositionedBlock>, c: int, k: int) -> int
    decreases k,
{
    if k <= 0 {
        0
    } else {
        count_in_column(bs, c, k - 1) + if bs[k - 1].position.x as int == c {
            1int
        } else {
            0int
        }
    }
}

/// The latest listed block of column `c` before index `k`, or -1.
pub open spec fn prev_in_column(bs: Seq<PositionedBlock>, c: int, k: int) -> int
    decreases k,
{
    if k <= 0 {
        -1
    } else if bs[k - 1].position.x as int == c {
        k - 1
    } else {
        prev_in_column(bs, c, k - 1)
    }
}

proof fn lemma_count_in_column_bounds(bs: Seq<PositionedBlock>, c: int, k1: int, k2: int)
    requires
        k1 <= k2,
    ensures
        0 <= count_in_column(bs, c, 0),
        count_in_column(bs, c, k1) <= count_in_column(bs, c, k2),
        0 <= k1 && bs[k1].position.x as int == c && k1 < k2 ==> count_in_column(bs, c, k1)
            < count_in_column(bs, c, k2),
    decreases k2 - k1,
{
    if k1 < k2 {
        lemma_count_in_column_bounds(bs, c, k1 + 1, k2);
    }
}

proof fn lemma_count_nonneg(bs: Seq<PositionedBlock>, c: int, k: int)
    ensures
        count_in_column(bs, c, k) >= 0,
    decreases k,
{
    if k > 0 {
        lemma_count_nonneg(bs, c, k - 1);
    }
}

/// The count below `k` is zero with no earlier block in the column,
/// and one more than the count below the latest earlier one otherwise.
proof fn lemma_prev_in_column(bs: Seq<PositionedBlock>, c: int, k: int)
    requires
        0 <= k,
    ensures
        ({
            let p = prev_in_column(bs, c, k);
            &&& -1 <= p < k
            &&& p == -1 ==> count_in_column(bs, c, k) == 0
            &&& p >= 0 ==> bs[p].position.x as int == c && count_in_column(bs, c, k)
                == count_in_column(bs, c, p) + 1
        }),
    decreases k,
{
    if k > 0 {
        if bs[k - 1].position.x as int == c {
        } else {
            lemma_prev_in_column(bs, c, k - 1);
        }
    }
}

/// In a listing whose blocks of one column climb strictly in row
/// order, the `k`-th listed block of a column sits no lower than the
/// row it will be packed onto.
proof fn lemma_rank_at_most_row(bs: Seq<PositionedBlock>, k: int)
    requires
        0 <= k < bs.len(),
        forall|a: int, b: int|
            0 <= a < b < bs.len() && (#[trigger] bs[a]).position.x == (
            #[trigger] bs[b]).position.x ==> bs[a].position.y < bs[b].position.y,
        forall|a: int| 0 <= a < bs.len() ==> (#[trigger] bs[a]).position.y >= 0,
    ensures
        count_in_column(bs, bs[k].position.x as int, k) <= bs[k].position.y,
    decreases k,
{
    let c = bs[k].position.x as int;
    lemma_prev_in_column(bs, c, k);
    let p = prev_in_column(bs, c, k);
    if p >= 0 {
        lemma_rank_at_most_row(bs, p);
        assert(bs[p].position.y < bs[k].position.y);
    }
}

/// A listing fit for the compaction argument: standalone in-bounds
/// blocks, ordered bottom-to-top then left-to-right, each no lower
/// than the row its column rank will pack it onto.
pub open spec fn unfused_listing(bs: Seq<PositionedBlock>, w: int, rows: int) -> bool {
    &&& forall|k: int|
        0 <= k < bs.len() ==> !(#[trigger] bs[k]).block.spec_is_fused() && 0 <= bs[k].position.x
            < w && 0 <= bs[k].position.y < rows
    &&& forall|a: int, b: int|
        0 <= a < b < bs.len() ==> ((#[trigger] bs[a]).position.y < (
        #[trigger] bs[b]).position.y || (bs[a].position.y == bs[b].position.y && bs[a].position.x
            < bs[b].position.x))
    &&& forall|k: int|
        0 <= k < bs.len() ==> count_in_column(bs, (#[trigger] bs[k]).position.x as int, k)
            <= bs[k].position.y
}

/// The cell and block the `k`-th listed block is packed onto.
pub open spec fn packed_block(bs: Seq<PositionedBlock>, k: int) -> PositionedBlock {
    PositionedBlock {
        block: bs[k].block,
        position: GridPosition {
            x: bs[k].position.x,
            y: count_in_column(bs, bs[k].position.x as int, k) as i8,
        },
    }
}

/// The first `j` listed blocks sit packed on their rank rows.
pub open spec fn packed_upto(bs: Seq<PositionedBlock>, j: int, g: GridModel) -> bool {
    forall|k: int|
        0 <= k < j ==> g.at(
            (#[trigger] bs[k]).position.x as int,
            count_in_column(bs, bs[k].position.x as int, k),
        ) == Some(packed_block(bs, k))
}

/// The blocks from `j` on still sit at their starting cells.
pub open spec fn resting_from(bs: Seq<PositionedBlock>, j: int, g: GridModel) -> bool {
    forall|k: int| j <= k < bs.len() ==> g.at_pos((#[trigger] bs[k]).position) == Some(bs[k])
}

/// Every cell claimed neither by a packed nor by a waiting block is
/// vacant.
pub open spec fn vacant_elsewhere(bs: Seq<PositionedBlock>, j: int, g: GridModel) -> bool {
    forall|x: int, y: int|
        #![trigger g.at(x, y)]
        (forall|k: int|
            0 <= k < j ==> !((#[trigger] bs[k]).position.x as int == x && count_in_column(
                bs,
                x,
                k,
            ) == y)) && (forall|k: int|
            j <= k < bs.len() ==> !((#[trigger] bs[k]).position.x as int == x
                && bs[k].position.y as int == y)) ==> g.at(x, y) is None
}

/// With the first `j` blocks packed and the rest waiting, block `j`
/// falls exactly onto its rank row.
proof fn lemma_step_bottom(bs: Seq<PositionedBlock>, j: int, g: GridModel)
    requires
        g.wf(),
        0 <= j < bs.len(),
        unfused_listing(bs, g.width, g.height),
        packed_upto(bs, j, g),
        resting_from(bs, j, g),
        vacant_elsewhere(bs, j, g),
    ensures
        g.bottom(bs[j]) == packed_block(bs, j),
{
    let pb = bs[j];
    let c = pb.position.x as int;
    let py = pb.position.y as int;
    let t = count_in_column(bs, c, j);
    lemma_count_nonneg(bs, c, j);

    assert forall|y: int| t <= y < py implies g.at(c, y) is None by {
        assert forall|k: int|
            0 <= k < j implies !((#[trigger] bs[k]).position.x as int == c && count_in_column(
            bs,
            c,
            k,
        ) == y) by {
            if bs[k].position.x as int == c {
                lemma_count_in_column_bounds(bs, c, k, j);
            }
        }
        assert forall|k: int|
            j <= k < bs.len() implies !((#[trigger] bs[k]).position.x as int == c
            && bs[k].position.y as int == y) by {
            if k > j && bs[k].position.x as int == c {
                assert(bs[j].position.y < bs[k].position.y || (bs[j].position.y
                    == bs[k].position.y && bs[j].position.x < bs[k].position.x));
            }
        }
    }
    let bottom = g.bottom(pb);
    crate::block_grid::lemma_bottom_props(g, pb);
    let by_ = bottom.position.y as int;
    if by_ > t {
        assert(g.empty(c, by_ - 1));
        assert(!g.empty(bottom.position.x as int, bottom.position.y - 1));
        assert(false);
    }
    if by_ < t {
        lemma_prev_in_column(bs, c, j);
        let p = prev_in_column(bs, c, j);
        assert(p >= 0);
        assert(g.at(c, t - 1) == Some(packed_block(bs, p)));
        assert(g.empty(pb.position.x as int, t - 1));
        assert(false);
    }
    assert(bottom == packed_block(bs, j));
}

/// The grid one drop step leaves: the block's starting cell vacated
/// and the block stored on its rank row (the same grid when it was
/// already there).
pub open spec fn step_grid(bs: Seq<PositionedBlock>, j: int, g: GridModel) -> GridModel {
    let target = packed_block(bs, j);
    if target.position != bs[j].position {
        g.clear_at(bs[j].position.x as int, bs[j].position.y as int).set_block(target)
    } else {
        g
    }
}

/// One drop step establishes the grid-level facts the next step
/// needs; the work is split across the three lemmas below.
proof fn lemma_step_state(bs: Seq<PositionedBlock>, j: int, g: GridModel)
    requires
        g.wf(),
        0 <= j < bs.len(),
        unfused_listing(bs, g.width, g.height),
        packed_upto(bs, j, g),
        resting_from(bs, j, g),
        vacant_elsewhere(bs, j, g),
    ensures
        step_grid(bs, j, g).wf(),
        step_grid(bs, j, g).width == g.width,
        step_grid(bs, j, g).height == g.height,
        packed_upto(bs, j + 1, step_grid(bs, j, g)),
        resting_from(bs, j + 1, step_grid(bs, j, g)),
        vacant_elsewhere(bs, j + 1, step_grid(bs, j, g)),
{
    lemma_step_grid_cells(bs, j, g);
    lemma_step_packed(bs, j, g);
    lemma_step_resting(bs, j, g);
    lemma_step_vacant(bs, j, g);
}

/// The pointwise shape of one drop step's grid: block `j`'s rank cell
/// holds it packed, its starting cell is vacated if it moved, and
/// every other cell keeps its occupant.
proof fn lemma_step_grid_cells(bs: Seq<PositionedBlock>, j: int, g: GridModel)
    requires
        g.wf(),
        0 <= j < bs.len(),
        unfused_listing(bs, g.width, g.height),
        resting_from(bs, j, g),
    ensures
        step_grid(bs, j, g).wf(),
        step_grid(bs, j, g).width == g.width,
        step_grid(bs, j, g).height == g.height,
        step_grid(bs, j, g).at(
            bs[j].position.x as int,
            count_in_column(bs, bs[j].position.x as int, j),
        ) == Some(packed_block(bs, j)),
        forall|x: int, y: int|
            #![trigger step_grid(bs, j, g).at(x, y)]
            !(x == bs[j].position.x as int && (y == count_in_column(bs, x, j) || y
                == bs[j].position.y as int)) ==> step_grid(bs, j, g).at(x, y) == g.at(x, y),
        packed_block(bs, j).position != bs[j].position ==> step_grid(bs, j, g).at(
            bs[j].position.x as int,
            bs[j].position.y as int,
        ) is None,
{
    let pb = bs[j];
    let c = pb.position.x as int;
    let py = pb.position.y as int;
    let t = count_in_column(bs, c, j);
    lemma_count_nonneg(bs, c, j);
    let target = packed_block(bs, j);
    if target.position != pb.position {
        crate::block_grid::lemma_clear_at(g, c, py);
        crate::block_grid::lemma_set_block(g.clear_at(c, py), target);
        assert(t < py);
    } else {
        assert(t == py);
        assert(g.at_pos(pb.position) == Some(pb));
    }
}

/// One drop step keeps the packed prefix packed and packs block `j`.
proof fn lemma_step_packed(bs: Seq<PositionedBlock>, j: int, g: GridModel)
    requires
        g.wf(),
        0 <= j < bs.len(),
        unfused_listing(bs, g.width, g.height),
        packed_upto(bs, j, g),
        resting_from(bs, j, g),
    ensures
        packed_upto(bs, j + 1, step_grid(bs, j, g)),
{
    lemma_step_grid_cells(bs, j, g);
    let pb = bs[j];
    let c = pb.position.x as int;
    let t = count_in_column(bs, c, j);
    let g2 = step_grid(bs, j, g);
    assert forall|k: int| 0 <= k < j + 1 implies g2.at(
        (#[trigger] bs[k]).position.x as int,
        count_in_column(bs, bs[k].position.x as int, k),
    ) == Some(packed_block(bs, k)) by {
        if k < j {
            let ck = bs[k].position.x as int;
            let tk = count_in_column(bs, ck, k);
            lemma_count_nonneg(bs, ck, k);
            if ck == c {
                lemma_count_in_column_bounds(bs, c, k, j);
                assert(tk < t);
                assert(tk <= bs[k].position.y);
                assert(bs[k].position.y < bs[j].position.y || (bs[k].position.y
                    == bs[j].position.y && bs[k].position.x < bs[j].position.x));
                assert(tk != bs[j].position.y as int || g2.at(ck, tk) == g.at(ck, tk));
            }
        }
    }
}

/// One drop step leaves every waiting block at its starting cell.
proof fn lemma_step_resting(bs: Seq<PositionedBlock>, j: int, g: GridModel)
    requires
        g.wf(),
        0 <= j < bs.len(),
        unfused_listing(bs, g.width, g.height),
        resting_from(bs, j, g),
    ensures
        resting_from(bs, j + 1, step_grid(bs, j, g)),
{
    lemma_step_grid_cells(bs, j, g);
    let pb = bs[j];
    let c = pb.position.x as int;
    let t = count_in_column(bs, c, j);
    let g2 = step_grid(bs, j, g);
    assert forall|k: int| j + 1 <= k < bs.len() implies g2.at_pos(
        (#[trigger] bs[k]).position,
    ) == Some(bs[k]) by {
        if bs[k].position.x as int == c {
            assert(bs[j].position.y < bs[k].position.y || (bs[j].position.y == bs[k].position.y
                && bs[j].position.x < bs[k].position.x));
            assert(t <= bs[j].position.y);
        }
    }
}

/// One drop step keeps every unclaimed cell vacant.
proof fn lemma_step_vacant(bs: Seq<PositionedBlock>, j: int, g: GridModel)
    requires
        g.wf(),
        0 <= j < bs.len(),
        unfused_listing(bs, g.width, g.height),
        resting_from(bs, j, g),
        vacant_elsewhere(bs, j, g),
    ensures
        vacant_elsewhere(bs, j + 1, step_grid(bs, j, g)),
{
    lemma_step_grid_cells(bs, j, g);
    let pb = bs[j];
    let c = pb.position.x as int;
    let py = pb.position.y as int;
    let t = count_in_column(bs, c, j);
    let target = packed_block(bs, j);
    let g2 = step_grid(bs, j, g);
    assert forall|x: int, y: int|
        #![trigger g2.at(x, y)]
        (forall|k: int|
            0 <= k < j + 1 ==> !((#[trigger] bs[k]).position.x as int == x && count_in_column(
                bs,
                x,
                k,
            ) == y)) && (forall|k: int|
            j + 1 <= k < bs.len() ==> !((#[trigger] bs[k]).position.x as int == x
                && bs[k].position.y as int == y)) implies g2.at(x, y) is None by {
        assert(!(c == x && t == y));
        if x == c && y == py && target.position != pb.position {
        } else {
            assert(g2.at(x, y) == g.at(x, y));
            assert forall|k: int|
                j <= k < bs.len() implies !((#[trigger] bs[k]).position.x as int == x
                && bs[k].position.y as int == y) by {
                if k == j {
                    if target.position == pb.position {
                        assert(py == t);
                        assert(!(c == x && py == y));
                    } else {
                        assert(!(x == c && y == py));
                    }
                }
            }
        }
    }
}

/// The gravity-pass induction over a board of standalone blocks: with
/// the first `j` listed blocks already packed (each on the row its
/// column rank names) and the rest still at their starting cells,
/// finishing the pass packs every block onto its rank row.
proof fn lemma_drop_all_rec(bs: Seq<PositionedBlock>, h: i8, j: int, st: DropState)
    requires
        st.grid.wf(),
        0 <= j <= bs.len(),
        unfused_listing(bs, st.grid.width, st.grid.height),
        packed_upto(bs, j, st.grid),
        resting_from(bs, j, st.grid),
        vacant_elsewhere(bs, j, st.grid),
    ensures
        ({
            let fin = drop_fold(h, bs, j, st).grid;
            &&& fin.wf()
            &&& fin.width == st.grid.width
            &&& fin.height == st.grid.height
            &&& packed_upto(bs, bs.len() as int, fin)
            &&& vacant_elsewhere(bs, bs.len() as int, fin)
        }),
    decreases bs.len() - j,
{
    if j < bs.len() {
        let pb = bs[j];
        lemma_step_bottom(bs, j, st.grid);
        lemma_step_state(bs, j, st.grid);
        let st2 = spec_drop_block(st, pb, st.grid.bottom(pb));
        assert(st2.grid == step_grid(bs, j, st.grid));
        assert(drop_fold(h, bs, j, st) == drop_fold(h, bs, j + 1, st2));
        lemma_drop_all_rec(bs, h, j + 1, st2);
    }
}

/// Law: a gravity pass over a board of standalone blocks compacts
/// every column, preserving identity and order. The block listed
/// `k`-th of its column (bottom to top) comes to rest on row `k` of
/// that column - no interior gaps, no block passing another, every
/// block the same identity it fell with - and every cell not so
/// claimed ends vacant.
pub proof fn lemma_drop_compacts_unfused(g: GridModel, events: Seq<BlockEvent>, h: i8)
    requires
        g.wf(),
        forall|x: int, y: int|
            #[trigger] g.at(x, y) matches Some(pb) ==> !pb.block.spec_is_fused(),
    ensures
        ({
            let bs = g.blocks();
            let st0 = DropState {
                grid: g,
                events,
                dropped: false,
                fused_depth: h,
                pending: Seq::empty(),
            };
            let fin = drop_fold(h, bs, 0, st0).grid;
            // every block rests on its column-rank row, identity kept
            &&& packed_upto(bs, bs.len() as int, fin)
            // no interior gaps: cells above the packed stacks are vacant
            &&& vacant_elsewhere(bs, bs.len() as int, fin)
            // order preservation: within a column the listing is bottom
            // to top, and rank order follows listing order
            &&& forall|k1: int, k2: int|
                0 <= k1 < k2 < bs.len() && (#[trigger] bs[k1]).position.x == (
                #[trigger] bs[k2]).position.x ==> bs[k1].position.y < bs[k2].position.y
                    && count_in_column(bs, bs[k1].position.x as int, k1) < count_in_column(
                    bs,
                    bs[k2].position.x as int,
                    k2,
                )
        }),
{
    let bs = g.blocks();
    let st0 = DropState { grid: g, events, dropped: false, fused_depth: h, pending: Seq::empty() };
    crate::block_grid::lemma_blocks_prefix_elems(g, g.cells.len() as int);
    lemma_blocks_prefix_ordered(g, g.cells.len() as int);
    lemma_blocks_prefix_complete(g, g.cells.len() as int);

    assert forall|k: int| 0 <= k < bs.len() implies !(#[trigger] bs[k]).block.spec_is_fused() && 0
        <= bs[k].position.x < g.width && 0 <= bs[k].position.y < g.height by {
        assert(g.at_pos(bs[k].position) == Some(bs[k]));
    }
    assert forall|a: int, b: int| 0 <= a < b < bs.len() implies ((#[trigger] bs[a]).position.y < (
    #[trigger] bs[b]).position.y || (bs[a].position.y == bs[b].position.y && bs[a].position.x
        < bs[b].position.x)) by {
        let p1 = bs[a].position;
        let p2 = bs[b].position;
        assert(g.idx(p1.x as int, p1.y as int) < g.idx(p2.x as int, p2.y as int));
        assert((p1.y as int) < p2.y as int || (p1.y as int == p2.y as int && (p1.x as int)
            < p2.x as int)) by (nonlinear_arith)
            requires
                (p1.y as int) * g.width + (p1.x as int) < (p2.y as int) * g.width + (
                p2.x as int),
                g.width >= 1,
                0 <= (p1.x as int) < g.width,
                0 <= (p2.x as int) < g.width,
                p1.y as int >= 0,
                p2.y as int >= 0,
        ;
    }
    assert forall|k: int| 0 <= k < bs.len() implies count_in_column(
        bs,
        (#[trigger] bs[k]).position.x as int,
        k,
    ) <= bs[k].position.y by {
        assert forall|a: int, b: int|
            0 <= a < b < bs.len() && (#[trigger] bs[a]).position.x == (
        #[trigger] bs[b]).position.x implies bs[a].position.y < bs[b].position.y by {
            assert(bs[a].position.y < bs[b].position.y || (bs[a].position.y == bs[b].position.y
                && bs[a].position.x < bs[b].position.x));
        }
        lemma_rank_at_most_row(bs, k);
    }
    assert(unfused_listing(bs, g.width, g.height));
    assert forall|x: int, y: int|
        #![trigger g.at(x, y)]
        (forall|k: int|
            0 <= k < 0 ==> !((#[trigger] bs[k]).position.x as int == x && count_in_column(
                bs,
                x,
                k,
            ) == y)) && (forall|k: int|
            0 <= k < bs.len() ==> !((#[trigger] bs[k]).position.x as int == x
                && bs[k].position.y as int == y)) implies g.at(x, y) is None by {
        match g.at(x, y) {
            Some(pb) => {
                crate::block_grid::lemma_idx_bounds(g, x, y);
                assert(g.cells[g.idx(x, y)] == Some(pb));
                assert(exists|k: int|
                    0 <= k < g.blocks_prefix(g.cells.len() as int).len()
                        && #[trigger] g.blocks_prefix(g.cells.len() as int)[k] == pb);
                let k = choose|k: int|
                    0 <= k < g.blocks_prefix(g.cells.len() as int).len()
                        && #[trigger] g.blocks_prefix(g.cells.len() as int)[k] == pb;
                assert(bs[k].position.x as int == x && bs[k].position.y as int == y);
            },
            None => {},
        }
    }
    assert(vacant_elsewhere(bs, 0, g));
    lemma_drop_all_rec(bs, h, 0, st0);
    assert forall|k1: int, k2: int|
        0 <= k1 < k2 < bs.len() && (#[trigger] bs[k1]).position.x == (
    #[trigger] bs[k2]).position.x implies bs[k1].position.y < bs[k2].position.y
        && count_in_column(bs, bs[k1].position.x as int, k1) < count_in_column(
        bs,
        bs[k2].position.x as int,
        k2,
    ) by {
        lemma_count_in_column_bounds(bs, bs[k1].position.x as int, k1, k2);
    }
}


/// How far along the traversal direction a position sits.
pub open spec fn td_coord(pos: GridPosition, td: Direction) -> int {
    match td {
        Direction::Up => pos.y as int,
        Direction::Right => pos.x as int,
        Direction::Down => -(pos.y as int),
        Direction::Left => -(pos.x as int),
    }
}

/// The extrusion directions the fuse engine pairs: the edge is walked
/// perpendicular to the direction it grows in.
pub open spec fn perpendicular(ed: Direction, td: Direction) -> bool {
    ed == td.spec_rotate(Rotation::Clockwise) || ed == td.spec_rotate(Rotation::AntiClockwise)
}

/// The write pass of an extrusion never reaches back: cells strictly
/// behind the cell it starts from (along the traversal direction) are
/// left untouched.
#[verifier::rlimit(100)]
proof fn lemma_write_only_ahead(g: GridModel, block: PositionedBlock, ed: Direction, td: Direction)
    requires
        g.wf(),
        g.in_bounds(block.position.x as int, block.position.y as int),
        perpendicular(ed, td),
    ensures
        forall|p: GridPosition|
            #![trigger extrude_write(g, block, ed, td).at_pos(p)]
            td_coord(p, td) < td_coord(block.position, td) ==> extrude_write(
                g,
                block,
                ed,
                td,
            ).at_pos(p) == g.at_pos(p),
    decreases g.walk_measure(block.position, td),
{
    let w = extrude_write(g, block, ed, td);
    let fs = fused_sides_of(ed);
    match g.at_pos(block.position.spec_offset(ed)) {
        None => {},
        Some(alt) => {
            if !block.spec_can_fuse_with(alt) {
            } else {
                let sides = block.block.borders.spec_intersect(fs);
                let alt_sides = if alt.spec_is_fused() {
                    Sides::spec_none().spec_union(sides)
                } else {
                    ed.spec_to_side().spec_union(sides)
                };
                let ga = g.set_block(alt.spec_fuse(alt_sides));
                let g2 = ga.set_block(block.spec_fuse(sides));
                crate::block_grid::lemma_set_block(g, alt.spec_fuse(alt_sides));
                crate::block_grid::lemma_set_block(ga, block.spec_fuse(sides));
                assert(td_coord(alt.position, td) == td_coord(block.position, td));
                assert forall|p: GridPosition|
                    td_coord(p, td) < td_coord(block.position, td) implies g2.at_pos(p)
                    == g.at_pos(p) by {
                    assert(p != block.position && p != alt.position);
                }
                if block.block.borders.spec_contains(crate::board::opposite_corner_of(ed, td)) {
                } else {
                    match g2.at_pos(block.position.spec_offset(td)) {
                        Some(b2) => {
                            if g2.walk_measure(b2.position, td) < g.walk_measure(
                                block.position,
                                td,
                            ) {
                                lemma_write_only_ahead(g2, b2, ed, td);
                                assert(td_coord(b2.position, td) > td_coord(block.position, td));
                            }
                        },
                        None => {},
                    }
                }
            }
        },
    }
}

/// Law: an extrusion is all-or-nothing and gated pair by pair. If the
/// scan pass rejects the edge, the grid is completely unchanged. If it
/// accepts, border flags alone are rewritten (no occupancy, identity,
/// color, age or breaker flag changes), only at cells eligible to
/// fuse, and the accepted pair at the anchor is rewritten by the exact
/// rule: the absorbed neighbor inherits the edge cell's sides
/// perpendicular to the extrusion, keeping the outward side only if it
/// was standalone, and the edge cell keeps just those perpendicular
/// sides. The same follows for every cell along the edge, each of
/// which anchors the remaining walk.
pub proof fn lemma_extrude_all_or_nothing(
    g: GridModel,
    anchor: PositionedBlock,
    ed: Direction,
    td: Direction,
)
    requires
        g.wf(),
        g.in_bounds(anchor.position.x as int, anchor.position.y as int),
        holds_like(g, anchor),
        perpendicular(ed, td),
    ensures
        !extrude_scan(g, anchor, ed, td) ==> spec_extrude(g, anchor, ed, td) == g,
        same_skeleton(g, spec_extrude(g, anchor, ed, td)),
        forall|x: int, y: int|
            #![trigger spec_extrude(g, anchor, ed, td).at(x, y)]
            spec_extrude(g, anchor, ed, td).at(x, y) != g.at(x, y) ==> fuse_eligible(g, x, y),
        extrude_scan(g, anchor, ed, td) ==> ({
            let alt = g.at_pos(anchor.position.spec_offset(ed)).unwrap();
            let sides = anchor.block.borders.spec_intersect(fused_sides_of(ed));
            let alt_sides = if alt.spec_is_fused() {
                Sides::spec_none().spec_union(sides)
            } else {
                ed.spec_to_side().spec_union(sides)
            };
            let w = spec_extrude(g, anchor, ed, td);
            &&& anchor.spec_can_fuse_with(alt)
            &&& (!alt.spec_is_fused() || anchor.block.borders.spec_intersect(fused_sides_of(ed))
                == alt.block.borders.spec_intersect(fused_sides_of(ed)))
            &&& w.at_pos(alt.position) == Some(alt.spec_fuse(alt_sides))
            &&& w.at_pos(anchor.position) == Some(anchor.spec_fuse(sides))
        }),
{
    lemma_write_or_skip(g, anchor, ed, td);
    if extrude_scan(g, anchor, ed, td) {
        let alt = g.at_pos(anchor.position.spec_offset(ed)).unwrap();
        let sides = anchor.block.borders.spec_intersect(fused_sides_of(ed));
        let alt_sides = if alt.spec_is_fused() {
            Sides::spec_none().spec_union(sides)
        } else {
            ed.spec_to_side().spec_union(sides)
        };
        let ga = g.set_block(alt.spec_fuse(alt_sides));
        let g2 = ga.set_block(anchor.spec_fuse(sides));
        crate::block_grid::lemma_set_block(g, alt.spec_fuse(alt_sides));
        crate::block_grid::lemma_set_block(ga, anchor.spec_fuse(sides));
        assert(g2.at_pos(alt.position) == Some(alt.spec_fuse(alt_sides)));
        assert(g2.at_pos(anchor.position) == Some(anchor.spec_fuse(sides)));
        if anchor.block.borders.spec_contains(crate::board::opposite_corner_of(ed, td)) {
        } else {
            match g2.at_pos(anchor.position.spec_offset(td)) {
                Some(b2) => {
                    if g2.walk_measure(b2.position, td) < g.walk_measure(anchor.position, td) {
                        lemma_write_only_ahead(g2, b2, ed, td);
                        assert(td_coord(b2.position, td) > td_coord(anchor.position, td));
                        assert(td_coord(alt.position, td) == td_coord(anchor.position, td));
                        assert(extrude_write(g2, b2, ed, td).at_pos(alt.position) == g2.at_pos(
                            alt.position,
                        ));
                        assert(extrude_write(g2, b2, ed, td).at_pos(anchor.position) == g2.at_pos(
                            anchor.position,
                        ));
                    }
                },
                None => {},
            }
        }
    }
}

} // verus!
