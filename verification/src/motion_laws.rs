//! What turning and mirroring a clipboard keep, and what undoes them.
use vstd::prelude::*;

use crate::clipboard::{lemma_source, movable, moved, ClipboardView, Motion};
use crate::grid::{
    inside, lemma_coordinates, lemma_extents, lemma_index_bounds, lemma_place, lemma_same_cells,
    x_at, y_at, z_at, BlockPos,
};
use crate::placement::{
    block_queue, can_place, filled, law_filled_lists_blocks, placeable, placing, tile_queue,
    world_pos, BlockPlacement,
};
use crate::schematic::index_of;

verus! {

/// A clipboard after a motion in which every block keeps its state.
pub open spec fn carried(c: ClipboardView, m: Motion) -> ClipboardView {
    moved(c, m, c.blocks)
}

/// A motion keeps the invariant of a clipboard.
pub proof fn law_motion_keeps_invariant(c: ClipboardView, m: Motion, states: Seq<u16>)
    requires
        c.wf(),
    ensures
        moved(c, m, states).wf(),
{
    lemma_extents(c.size_x as int, c.size_y as int, c.size_z as int);
}

/// A motion puts each block, in its new state, where its column comes to lie, at its height.
pub proof fn law_motion_carries_blocks(
    c: ClipboardView,
    m: Motion,
    states: Seq<u16>,
    x: int,
    y: int,
    z: int,
)
    requires
        c.wf(),
        c.covers(x, y, z),
    ensures
        ({
            let (nx, nz) = m.carry(x, z, c.size_x as int, c.size_z as int);
            &&& moved(c, m, states).covers(nx, y, nz)
            &&& moved(c, m, states).at(nx, y, nz) == states[c.place(x, y, z)]
        }),
{
    let sx = c.size_x as int;
    let sy = c.size_y as int;
    let sz = c.size_z as int;
    let (ex, ez) = m.extents(sx, sz);
    let (nx, nz) = m.carry(x, z, sx, sz);
    lemma_extents(sx, sy, sz);
    lemma_index_bounds(nx, y, nz, ex, sy, ez);
    lemma_coordinates(nx, y, nz, ex, sy, ez);
}

/// A motion followed by its reverse brings every position back.
pub proof fn law_carry_reverses(m: Motion, x: int, z: int, sx: int, sz: int)
    ensures
        ({
            let (nx, nz) = m.carry(x, z, sx, sz);
            let (ex, ez) = m.extents(sx, sz);
            m.reverse().carry(nx, nz, ex, ez) == (x, z)
        }),
{
}

/// A motion followed by its reverse gives the clipboard back: a quarter turn and three quarters,
/// two half turns, two mirrorings along one axis.
pub proof fn law_motion_reverses(c: ClipboardView, m: Motion)
    requires
        c.wf(),
        movable(c, m),
    ensures
        movable(carried(c, m), m.reverse()),
        carried(carried(c, m), m.reverse()) == c,
{
    let d = carried(c, m);
    let e = carried(d, m.reverse());
    let sx = c.size_x as int;
    let sy = c.size_y as int;
    let sz = c.size_z as int;
    law_motion_keeps_invariant(c, m, c.blocks);
    law_motion_keeps_invariant(d, m.reverse(), d.blocks);
    law_carry_reverses(m, c.offset.x as int, c.offset.z as int, sx, sz);
    assert forall|k: int| 0 <= k < c.tile_entities.len() implies m.reverse().carries(
        (#[trigger] d.tile_entities[k]).0,
        d.size_x as int,
        d.size_z as int,
    ) && e.tile_entities[k] == c.tile_entities[k] by {
        let p = c.tile_entities[k].0;
        law_carry_reverses(m, p.x as int, p.z as int, sx, sz);
        assert(m.carries(p, sx, sz));
        assert(d.tile_entities[k].0 == m.carry_pos(p, sx, sz));
    }
    assert forall|k: int| 0 <= k < c.tile_entities.len() implies e.tile_entities[k]
        == c.tile_entities[k] by {
        assert(m.reverse().carries(d.tile_entities[k].0, d.size_x as int, d.size_z as int));
    }
    assert(e.tile_entities =~= c.tile_entities);
    assert forall|x: int, y: int, z: int| inside(x, y, z, sx, sy, sz) implies e.blocks[#[trigger] index_of(
        x,
        y,
        z,
        sx,
        sz,
    )] == c.blocks[index_of(x, y, z, sx, sz)] by {
        let (nx, nz) = m.carry(x, z, sx, sz);
        law_motion_carries_blocks(c, m, c.blocks, x, y, z);
        law_motion_carries_blocks(d, m.reverse(), d.blocks, nx, y, nz);
        law_carry_reverses(m, x, z, sx, sz);
    }
    lemma_same_cells(e.blocks, c.blocks, sx, sy, sz);
}

/// Two quarter turns are a half turn.
pub proof fn law_two_quarters_are_a_half(c: ClipboardView)
    requires
        c.wf(),
        movable(c, Motion::Quarter),
        movable(c, Motion::Half),
    ensures
        movable(carried(c, Motion::Quarter), Motion::Quarter),
        carried(carried(c, Motion::Quarter), Motion::Quarter) == carried(c, Motion::Half),
{
    let q = Motion::Quarter;
    let h = Motion::Half;
    let d = carried(c, q);
    let e = carried(d, q);
    let f = carried(c, h);
    let sx = c.size_x as int;
    let sy = c.size_y as int;
    let sz = c.size_z as int;
    law_motion_keeps_invariant(c, q, c.blocks);
    law_motion_keeps_invariant(d, q, d.blocks);
    law_motion_keeps_invariant(c, h, c.blocks);
    assert forall|k: int| 0 <= k < c.tile_entities.len() implies q.carries(
        (#[trigger] d.tile_entities[k]).0,
        d.size_x as int,
        d.size_z as int,
    ) && e.tile_entities[k] == f.tile_entities[k] by {
        let p = c.tile_entities[k].0;
        assert(q.carries(p, sx, sz) && h.carries(p, sx, sz));
        assert(d.tile_entities[k].0 == q.carry_pos(p, sx, sz));
    }
    assert forall|k: int| 0 <= k < c.tile_entities.len() implies e.tile_entities[k]
        == f.tile_entities[k] by {
        assert(q.carries(d.tile_entities[k].0, d.size_x as int, d.size_z as int));
    }
    assert(e.tile_entities =~= f.tile_entities);
    assert forall|x: int, y: int, z: int| inside(x, y, z, sx, sy, sz) implies e.blocks[#[trigger] index_of(
        x,
        y,
        z,
        sx,
        sz,
    )] == f.blocks[index_of(x, y, z, sx, sz)] by {
        let (ox, oz) = h.carry(x, z, sx, sz);
        let (nx, nz) = q.carry(ox, oz, sx, sz);
        law_motion_carries_blocks(c, q, c.blocks, ox, y, oz);
        law_motion_carries_blocks(d, q, d.blocks, nx, y, nz);
        law_motion_carries_blocks(c, h, c.blocks, ox, y, oz);
    }
    lemma_extents(sx, sy, sz);
    lemma_same_cells(e.blocks, f.blocks, sx, sy, sz);
}

/// Four quarter turns give the clipboard back.
pub proof fn law_four_quarters_are_none(c: ClipboardView)
    requires
        c.wf(),
        movable(c, Motion::Quarter),
        movable(c, Motion::Half),
        movable(carried(c, Motion::Half), Motion::Quarter),
    ensures
        carried(
            carried(carried(carried(c, Motion::Quarter), Motion::Quarter), Motion::Quarter),
            Motion::Quarter,
        ) == c,
{
    let h = carried(c, Motion::Half);
    law_two_quarters_are_a_half(c);
    law_motion_keeps_invariant(c, Motion::Half, c.blocks);
    law_motion_reverses(c, Motion::Half);
    law_two_quarters_are_a_half(h);
}

/// Where a way leads after a motion.
pub open spec fn swung(m: Motion, dx: int, dz: int) -> (int, int) {
    match m {
        Motion::Quarter => (-dz, dx),
        Motion::Half => (-dx, -dz),
        Motion::ThreeQuarters => (dz, -dx),
        Motion::MirrorX => (-dx, dz),
        Motion::MirrorZ => (dx, -dz),
    }
}

/// Where a position in the world comes to lie when it moves around an origin.
pub open spec fn around(origin: BlockPos, m: Motion, p: BlockPos) -> BlockPos {
    let (dx, dz) = swung(m, p.x - origin.x, p.z - origin.z);
    BlockPos { x: (origin.x + dx) as i32, y: p.y, z: (origin.z + dz) as i32 }
}

/// The placing of a block in its new state at its old position in the world, moved around the
/// origin.
pub open spec fn swung_placing(
    c: ClipboardView,
    m: Motion,
    states: Seq<u16>,
    origin: BlockPos,
    i: int,
) -> BlockPlacement {
    BlockPlacement {
        pos: around(origin, m, placing(c, origin, false, i).pos),
        state_id: states[i],
    }
}

/// Whether a placing is that of a block which is not air, moved around the origin.
pub open spec fn moved_around(
    c: ClipboardView,
    m: Motion,
    states: Seq<u16>,
    origin: BlockPos,
    b: BlockPlacement,
) -> bool {
    exists|i: int|
        0 <= i < states.len() && #[trigger] states[i] != 0 && b == swung_placing(
            c,
            m,
            states,
            origin,
            i,
        )
}

/// What lies at a position of a clipboard is placed, after a motion, where its old position in the
/// world comes to lie around the origin.
proof fn lemma_around(
    c: ClipboardView,
    m: Motion,
    states: Seq<u16>,
    origin: BlockPos,
    x: int,
    y: int,
    z: int,
)
    requires
        movable(c, m),
        can_place(c, origin, false, x, y, z),
        ({
            let (nx, nz) = m.carry(x, z, c.size_x as int, c.size_z as int);
            can_place(moved(c, m, states), origin, false, nx, y, nz)
        }),
    ensures
        ({
            let (nx, nz) = m.carry(x, z, c.size_x as int, c.size_z as int);
            world_pos(moved(c, m, states), origin, false, nx, y, nz) == around(
                origin,
                m,
                world_pos(c, origin, false, x, y, z),
            )
        }),
{
    let d = moved(c, m, states);
    let (ox, oz) = m.carry(
        c.offset.x as int,
        c.offset.z as int,
        c.size_x as int,
        c.size_z as int,
    );
    assert(m.carries(c.offset, c.size_x as int, c.size_z as int));
    assert(d.offset.x == ox && d.offset.z == oz && d.offset.y == c.offset.y);
}

/// A clipboard that was turned or mirrored is placed around the same origin: where air stays air,
/// the blocks that are placed are those that were, in their new states, each at its old position
/// moved around the origin, and so it is with the block entities.
pub proof fn law_turn_keeps_anchor(
    c: ClipboardView,
    m: Motion,
    states: Seq<u16>,
    origin: BlockPos,
)
    requires
        c.wf(),
        movable(c, m),
        states.len() == c.blocks.len(),
        forall|i: int| 0 <= i < states.len() && c.blocks[i] == 0 ==> #[trigger] states[i] == 0,
        placeable(c, origin, false),
        placeable(moved(c, m, states), origin, false),
    ensures
        forall|b: BlockPlacement| #[trigger]
            block_queue(moved(c, m, states), origin, false).contains(b) <==> moved_around(
                c,
                m,
                states,
                origin,
                b,
            ),
        tile_queue(moved(c, m, states), origin, false) == tile_queue(
            c,
            origin,
            false,
        ).map_values(|e: (BlockPos, Seq<u8>)| (around(origin, m, e.0), e.1)),
{
    let d = moved(c, m, states);
    let sx = c.size_x as int;
    let sy = c.size_y as int;
    let sz = c.size_z as int;
    let (ex, ez) = m.extents(sx, sz);
    let q = block_queue(d, origin, false);
    let f = filled(d.blocks);
    law_motion_keeps_invariant(c, m, states);
    law_filled_lists_blocks(d.blocks);
    lemma_extents(sx, sy, sz);
    assert forall|b: BlockPlacement| moved_around(c, m, states, origin, b) implies #[trigger] q.contains(
        b,
    ) by {
        let i = choose|i: int|
            0 <= i < states.len() && #[trigger] states[i] != 0 && b == swung_placing(
                c,
                m,
                states,
                origin,
                i,
            );
        lemma_place(i, sx, sy, sz);
        let (x, y, z) = (x_at(i, sx), y_at(i, sx, sz), z_at(i, sx, sz));
        let (nx, nz) = m.carry(x, z, sx, sz);
        law_motion_carries_blocks(c, m, states, x, y, z);
        lemma_index_bounds(nx, y, nz, ex, sy, ez);
        lemma_coordinates(nx, y, nz, ex, sy, ez);
        let p = d.place(nx, y, nz);
        assert(c.blocks[i] != 0 && d.blocks[p] != 0);
        lemma_around(c, m, states, origin, x, y, z);
        assert(f.contains(p));
        assert(q[f.index_of(p)] == placing(d, origin, false, p));
    }
    assert forall|b: BlockPlacement| #[trigger] q.contains(b) implies moved_around(
        c,
        m,
        states,
        origin,
        b,
    ) by {
        let k = q.index_of(b);
        let p = f[k];
        lemma_source(c, m, p);
        lemma_place(p, ex, sy, ez);
        let (px, y, pz) = (x_at(p, ex), y_at(p, ex, ez), z_at(p, ex, ez));
        let (x, z) = m.reverse().carry(px, pz, ex, ez);
        law_carry_reverses(m.reverse(), px, pz, ex, ez);
        let i = c.place(x, y, z);
        lemma_index_bounds(x, y, z, sx, sy, sz);
        lemma_coordinates(x, y, z, sx, sy, sz);
        assert(m.source(p, sx, sz) == i);
        assert(d.blocks[p] != 0 && d.blocks[p] == states[i]);
        assert(c.blocks[i] != 0);
        lemma_around(c, m, states, origin, x, y, z);
        assert(b == placing(d, origin, false, p));
        assert(states[i] != 0 && b == swung_placing(c, m, states, origin, i));
    }
    let turned = tile_queue(c, origin, false).map_values(
        |e: (BlockPos, Seq<u8>)| (around(origin, m, e.0), e.1),
    );
    assert forall|k: int| 0 <= k < c.tile_entities.len() implies tile_queue(d, origin, false)[k]
        == turned[k] by {
        let p = c.tile_entities[k].0;
        assert(m.carries(p, sx, sz));
        assert(d.tile_entities[k].0 == m.carry_pos(p, sx, sz));
        lemma_around(c, m, states, origin, p.x as int, p.y as int, p.z as int);
    }
    assert(tile_queue(d, origin, false) =~= turned);
}

} // verus!
