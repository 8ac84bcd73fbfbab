//! Where the blocks of a region, of a clipboard and of a paste lie, in plain coordinates.
use vstd::prelude::*;

use crate::assemble::{
    assembled, assembles, box_fits, box_min, box_tiles, box_volume, breadth, cell, ends_fit,
    highest, low, lowest, region_cell, region_tiles, tile_fits, tiles_fit,
};
use crate::clipboard::{movable, moved, ClipboardView, Motion};
use crate::grid::{
    earlier, inside, law_places_run_through_positions, lemma_coordinates, lemma_index_bounds,
    lemma_place, x_at, y_at, z_at, BlockPos,
};
use crate::placement::{
    block_queue, can_place, filled, law_filled_lists_blocks, placeable, placing, tile_queue,
    BlockPlacement,
};
use crate::schematic::{index_of, Region};
use crate::text::decimal;

verus! {

/// Blocks are stored row by row: the next block to the east comes next, the next row to the south
/// one row of `sx` blocks later, the next layer up one layer of `sx * sz` blocks later.
pub proof fn law_blocks_are_stored_row_by_row(x: int, y: int, z: int, sx: int, sz: int)
    ensures
        index_of(0, 0, 0, sx, sz) == 0,
        index_of(x + 1, y, z, sx, sz) == index_of(x, y, z, sx, sz) + 1,
        index_of(x, y, z + 1, sx, sz) == index_of(x, y, z, sx, sz) + sx,
        index_of(x, y + 1, z, sx, sz) == index_of(x, y, z, sx, sz) + sx * sz,
{
    assert((y + 1) * sx * sz == y * sx * sz + sx * sz) by (nonlinear_arith);
    assert((z + 1) * sx == z * sx + sx) by (nonlinear_arith);
    assert(0 * sx * sz == 0 && 0 * sx == 0);
}

/// Whether a placing is that of a block which is not air: at the position where the block lies when
/// the lowest corner lies at the origin, or as far before it as the offset says.
pub open spec fn places_a_block(
    c: ClipboardView,
    origin: BlockPos,
    at_feet: bool,
    b: BlockPlacement,
    x: int,
    y: int,
    z: int,
) -> bool {
    &&& 0 <= x < c.size_x
    &&& 0 <= y < c.size_y
    &&& 0 <= z < c.size_z
    &&& b.state_id == c.blocks[(y * c.size_z + z) * c.size_x + x]
    &&& b.state_id != 0
    &&& b.pos.x == origin.x - (if at_feet {
        0
    } else {
        c.offset.x as int
    }) + x
    &&& b.pos.y == origin.y - (if at_feet {
        0
    } else {
        c.offset.y as int
    }) + y
    &&& b.pos.z == origin.z - (if at_feet {
        0
    } else {
        c.offset.z as int
    }) + z
}

/// Whether a placing is that of some block of a clipboard.
pub open spec fn places_some_block(
    c: ClipboardView,
    origin: BlockPos,
    at_feet: bool,
    b: BlockPlacement,
) -> bool {
    exists|x: int, y: int, z: int| places_a_block(c, origin, at_feet, b, x, y, z)
}

/// A paste places every block of the clipboard that is not air at its position, and nothing else;
/// every block entity is stored at its position, in the order in which the clipboard lists them.
pub proof fn law_paste_puts_blocks_in_place(c: ClipboardView, origin: BlockPos, at_feet: bool)
    requires
        c.wf(),
        placeable(c, origin, at_feet),
    ensures
        forall|x: int, y: int, z: int|
            #![trigger c.at(x, y, z)]
            c.covers(x, y, z) && c.at(x, y, z) != 0 ==> exists|k: int|
                #![trigger block_queue(c, origin, at_feet)[k]]
                0 <= k < block_queue(c, origin, at_feet).len() && places_a_block(
                    c,
                    origin,
                    at_feet,
                    block_queue(c, origin, at_feet)[k],
                    x,
                    y,
                    z,
                ),
        forall|k: int|
            #![trigger block_queue(c, origin, at_feet)[k]]
            0 <= k < block_queue(c, origin, at_feet).len() ==> places_some_block(
                c,
                origin,
                at_feet,
                block_queue(c, origin, at_feet)[k],
            ),
        tile_queue(c, origin, at_feet).len() == c.tile_entities.len(),
        forall|k: int|
            #![trigger tile_queue(c, origin, at_feet)[k]]
            0 <= k < c.tile_entities.len() ==> {
                let (p, data) = c.tile_entities[k];
                let (q, stored) = tile_queue(c, origin, at_feet)[k];
                &&& stored == data
                &&& q.x == origin.x - (if at_feet {
                    0
                } else {
                    c.offset.x as int
                }) + p.x
                &&& q.y == origin.y - (if at_feet {
                    0
                } else {
                    c.offset.y as int
                }) + p.y
                &&& q.z == origin.z - (if at_feet {
                    0
                } else {
                    c.offset.z as int
                }) + p.z
            },
{
    let sx = c.size_x as int;
    let sy = c.size_y as int;
    let sz = c.size_z as int;
    let f = filled(c.blocks);
    let q = block_queue(c, origin, at_feet);
    law_filled_lists_blocks(c.blocks);
    assert forall|x: int, y: int, z: int|
        #![trigger c.at(x, y, z)]
        c.covers(x, y, z) && c.at(x, y, z) != 0 implies exists|k: int|
        #![trigger q[k]]
        0 <= k < q.len() && places_a_block(c, origin, at_feet, q[k], x, y, z) by {
        lemma_index_bounds(x, y, z, sx, sy, sz);
        lemma_coordinates(x, y, z, sx, sy, sz);
        let i = c.place(x, y, z);
        assert(c.blocks[i] != 0);
        assert(f.contains(i));
        let k = f.index_of(i);
        assert(q[k] == placing(c, origin, at_feet, i));
        assert(can_place(c, origin, at_feet, x, y, z));
        assert(places_a_block(c, origin, at_feet, q[k], x, y, z));
    }
    assert forall|k: int| #![trigger q[k]] 0 <= k < q.len() implies places_some_block(
        c,
        origin,
        at_feet,
        q[k],
    ) by {
        let i = f[k];
        lemma_place(i, sx, sy, sz);
        let (x, y, z) = (x_at(i, sx), y_at(i, sx, sz), z_at(i, sx, sz));
        lemma_index_bounds(x, y, z, sx, sy, sz);
        assert(c.blocks[i] != 0);
        assert(q[k] == placing(c, origin, at_feet, i));
        assert(can_place(c, origin, at_feet, x, y, z));
        assert(places_a_block(c, origin, at_feet, q[k], x, y, z));
    }
    assert forall|k: int|
        #![trigger tile_queue(c, origin, at_feet)[k]]
        0 <= k < c.tile_entities.len() implies can_place(
        c,
        origin,
        at_feet,
        c.tile_entities[k].0.x as int,
        c.tile_entities[k].0.y as int,
        c.tile_entities[k].0.z as int,
    ) by {
        let p = c.tile_entities[k].0;
    }
}

/// A clipboard can be placed wherever both corners of its box and all its block entities come to
/// lie at coordinates of thirty-two bits.
pub proof fn law_paste_needs_only_room(c: ClipboardView, origin: BlockPos, at_feet: bool)
    requires
        c.wf(),
        ({
            let x = origin.x - (if at_feet {
                0
            } else {
                c.offset.x as int
            });
            let y = origin.y - (if at_feet {
                0
            } else {
                c.offset.y as int
            });
            let z = origin.z - (if at_feet {
                0
            } else {
                c.offset.z as int
            });
            &&& i32::MIN <= x && x + c.size_x - 1 <= i32::MAX
            &&& i32::MIN <= y && y + c.size_y - 1 <= i32::MAX
            &&& i32::MIN <= z && z + c.size_z - 1 <= i32::MAX
            &&& forall|k: int|
                0 <= k < c.tile_entities.len() ==> {
                    let p = (#[trigger] c.tile_entities[k]).0;
                    &&& i32::MIN <= x + p.x <= i32::MAX
                    &&& i32::MIN <= y + p.y <= i32::MAX
                    &&& i32::MIN <= z + p.z <= i32::MAX
                }
        }),
    ensures
        placeable(c, origin, at_feet),
{
    assert forall|i: int| 0 <= i < c.blocks.len() && #[trigger] c.blocks[i] != 0 implies can_place(
        c,
        origin,
        at_feet,
        x_at(i, c.size_x as int),
        y_at(i, c.size_x as int, c.size_z as int),
        z_at(i, c.size_x as int, c.size_z as int),
    ) by {
        lemma_place(i, c.size_x as int, c.size_y as int, c.size_z as int);
    }
}

/// A region runs from its position, upwards or downwards along each axis as its size says, and has
/// as many coordinates as the size without its sign.
pub proof fn law_region_starts_at_its_position(r: Region, axis: int)
    requires
        0 <= axis < 3,
    ensures
        r.extent(axis) == (if r.size@[axis] > 0 {
            r.size@[axis] as int
        } else {
            -r.size@[axis]
        }),
        r.size@[axis] >= 0 ==> low(r, axis) == r.position@[axis],
        r.size@[axis] < 0 ==> low(r, axis) + r.extent(axis) - 1 == r.position@[axis],
{
}

/// The box around some regions holds each of them and is no larger than they need: each of its
/// faces touches one of them.
pub proof fn law_box_fits_tightly(rs: Seq<Region>, axis: int)
    requires
        rs.len() > 0,
        0 <= axis < 3,
        forall|k: int|
            0 <= k < rs.len() ==> ends_fit(#[trigger] rs[k], axis) && low(rs[k], axis) > i32::MIN,
    ensures
        forall|k: int|
            0 <= k < rs.len() ==> lowest(rs, axis) <= low(#[trigger] rs[k], axis) && low(
                rs[k],
                axis,
            ) + rs[k].extent(axis) <= lowest(rs, axis) + breadth(rs, axis),
        exists|k: int| 0 <= k < rs.len() && low(#[trigger] rs[k], axis) == lowest(rs, axis),
        exists|k: int|
            0 <= k < rs.len() && low(#[trigger] rs[k], axis) + rs[k].extent(axis) == lowest(
                rs,
                axis,
            ) + breadth(rs, axis),
    decreases rs.len(),
{
    let q = rs.drop_last();
    let n = rs.len() - 1;
    assert(rs[n] == rs.last());
    if q.len() == 0 {
        assert(lowest(q, axis) == i32::MAX && highest(q, axis) == i32::MIN);
        assert(low(rs[n], axis) == lowest(rs, axis));
        assert(low(rs[n], axis) + rs[n].extent(axis) == lowest(rs, axis) + breadth(rs, axis));
    } else {
        assert forall|k: int| 0 <= k < q.len() implies ends_fit(#[trigger] q[k], axis) && low(
            q[k],
            axis,
        ) > i32::MIN by {
            assert(q[k] == rs[k]);
        }
        law_box_fits_tightly(q, axis);
        assert forall|k: int| 0 <= k < rs.len() implies lowest(rs, axis) <= low(
            #[trigger] rs[k],
            axis,
        ) && low(rs[k], axis) + rs[k].extent(axis) <= lowest(rs, axis) + breadth(rs, axis) by {
            if k < n {
                assert(q[k] == rs[k]);
            }
        }
        let a = choose|k: int| 0 <= k < q.len() && low(#[trigger] q[k], axis) == lowest(q, axis);
        let b = choose|k: int|
            0 <= k < q.len() && low(#[trigger] q[k], axis) + q[k].extent(axis) == lowest(q, axis)
                + breadth(q, axis);
        assert(q[a] == rs[a] && q[b] == rs[b]);
        assert(low(rs[a], axis) == lowest(rs, axis) || low(rs[n], axis) == lowest(rs, axis));
        assert(low(rs[b], axis) + rs[b].extent(axis) == lowest(rs, axis) + breadth(rs, axis)
            || low(rs[n], axis) + rs[n].extent(axis) == lowest(rs, axis) + breadth(rs, axis));
    }
}

/// The state that the palette of a region gives for the block at a position of the region, 0
/// outside the region and where the index has no state. A block without an index has the first.
pub open spec fn state_in_region(
    r: Region,
    states: Seq<Option<u16>>,
    x: int,
    y: int,
    z: int,
) -> u16 {
    let i = (y * r.extent(2) + z) * r.extent(0) + x;
    let index = if i < r.block_indices@.len() {
        r.block_indices@[i] as int
    } else {
        0
    };
    if 0 <= x < r.extent(0) && 0 <= y < r.extent(1) && 0 <= z < r.extent(2) && index < states.len() {
        match states[index] {
            Some(s) => s,
            None => 0,
        }
    } else {
        0
    }
}

/// A schematic's clipboard has, at every position of its box, the block of the last region that has
/// more than air there, and air where none has. Positions are those of the schematic.
pub proof fn law_clipboard_holds_every_region(
    name: Seq<char>,
    rs: Seq<Region>,
    states: Seq<Seq<Option<u16>>>,
    c: ClipboardView,
    px: int,
    py: int,
    pz: int,
    k: int,
)
    requires
        assembles(rs, states),
        assembled(name, rs, states) == Ok::<ClipboardView, Seq<char>>(c),
        c.covers(px - lowest(rs, 0), py - lowest(rs, 1), pz - lowest(rs, 2)),
        forall|j: int|
            0 <= j < rs.len() ==> (#[trigger] rs[j]).extent(0) * rs[j].extent(1) * rs[j].extent(2)
                <= usize::MAX,
        0 <= k < rs.len() ==> forall|j: int|
            k < j < rs.len() ==> state_in_region(
                #[trigger] rs[j],
                states[j],
                px - low(rs[j], 0),
                py - low(rs[j], 1),
                pz - low(rs[j], 2),
            ) == 0,
    ensures
        c.name == name,
        c.size_x == breadth(rs, 0) && c.size_y == breadth(rs, 1) && c.size_z == breadth(rs, 2),
        c.offset.x == -lowest(rs, 0) && c.offset.y == -lowest(rs, 1) && c.offset.z == -lowest(rs, 2),
        0 <= k < rs.len() && (k == 0 || state_in_region(
            rs[k],
            states[k],
            px - low(rs[k], 0),
            py - low(rs[k], 1),
            pz - low(rs[k], 2),
        ) != 0) ==> c.at(px - lowest(rs, 0), py - lowest(rs, 1), pz - lowest(rs, 2))
            == state_in_region(
            rs[k],
            states[k],
            px - low(rs[k], 0),
            py - low(rs[k], 1),
            pz - low(rs[k], 2),
        ),
{
    let min = box_min(rs);
    let (sx, sy, sz) = (breadth(rs, 0), breadth(rs, 1), breadth(rs, 2));
    let (x, y, z) = (px - lowest(rs, 0), py - lowest(rs, 1), pz - lowest(rs, 2));
    lemma_breadths(rs);
    lemma_index_bounds(x, y, z, sx, sy, sz);
    lemma_coordinates(x, y, z, sx, sy, sz);
    assert(c.at(x, y, z) == cell(rs, states, min, x, y, z));
    if 0 <= k < rs.len() {
        lemma_cell(rs, states, min, px, py, pz, k, rs.len() as int);
        assert(rs.take(rs.len() as int) =~= rs);
    }
}

/// The extents of the box around regions that make up a clipboard are positive and fit.
proof fn lemma_breadths(rs: Seq<Region>)
    requires
        rs.len() > 0,
        box_fits(rs),
        box_volume(rs) > 0,
    ensures
        0 <= breadth(rs, 0) <= i32::MAX,
        0 <= breadth(rs, 1) <= i32::MAX,
        0 <= breadth(rs, 2) <= i32::MAX,
        i32::MIN <= lowest(rs, 0) <= i32::MAX,
        i32::MIN <= lowest(rs, 1) <= i32::MAX,
        i32::MIN <= lowest(rs, 2) <= i32::MAX,
{
    lemma_lowest(rs, 0);
    lemma_lowest(rs, 1);
    lemma_lowest(rs, 2);
}

/// The lowest coordinate of regions whose ends fit is one of thirty-two bits, and no further above
/// the highest than by one.
proof fn lemma_lowest(rs: Seq<Region>, axis: int)
    requires
        0 <= axis < 3,
        forall|k: int|
            0 <= k < rs.len() ==> ends_fit(#[trigger] rs[k], 0) && ends_fit(rs[k], 1) && ends_fit(
                rs[k],
                2,
            ),
    ensures
        i32::MIN <= lowest(rs, axis) <= i32::MAX,
        rs.len() > 0 ==> breadth(rs, axis) >= 0,
    decreases rs.len(),
{
    if rs.len() > 0 {
        let q = rs.drop_last();
        assert(rs[rs.len() - 1] == rs.last());
        assert forall|k: int| 0 <= k < q.len() implies ends_fit(#[trigger] q[k], 0) && ends_fit(
            q[k],
            1,
        ) && ends_fit(q[k], 2) by {
            assert(q[k] == rs[k]);
        }
        lemma_lowest(q, axis);
    }
}

/// The state of a region at a position of the box is that of its own block there.
proof fn lemma_region_cell(
    r: Region,
    states: Seq<Option<u16>>,
    min: (int, int, int),
    px: int,
    py: int,
    pz: int,
)
    requires
        r.extent(0) * r.extent(1) * r.extent(2) <= usize::MAX,
    ensures
        region_cell(r, states, min, px - min.0, py - min.1, pz - min.2) == state_in_region(
            r,
            states,
            px - low(r, 0),
            py - low(r, 1),
            pz - low(r, 2),
        ),
{
    let (x, y, z) = (px - low(r, 0), py - low(r, 1), pz - low(r, 2));
    if inside(x, y, z, r.extent(0), r.extent(1), r.extent(2)) {
        lemma_index_bounds(x, y, z, r.extent(0), r.extent(1), r.extent(2));
    }
}

/// Regions with air at a position do not matter there.
proof fn lemma_cell(
    rs: Seq<Region>,
    states: Seq<Seq<Option<u16>>>,
    min: (int, int, int),
    px: int,
    py: int,
    pz: int,
    k: int,
    n: int,
)
    requires
        0 <= k < n <= rs.len(),
        forall|j: int|
            0 <= j < rs.len() ==> (#[trigger] rs[j]).extent(0) * rs[j].extent(1) * rs[j].extent(2)
                <= usize::MAX,
        forall|j: int|
            k < j < n ==> state_in_region(
                #[trigger] rs[j],
                states[j],
                px - low(rs[j], 0),
                py - low(rs[j], 1),
                pz - low(rs[j], 2),
            ) == 0,
    ensures
        ({
            let s = state_in_region(
                rs[k],
                states[k],
                px - low(rs[k], 0),
                py - low(rs[k], 1),
                pz - low(rs[k], 2),
            );
            (k == 0 || s != 0) ==> cell(
                rs.take(n),
                states,
                min,
                px - min.0,
                py - min.1,
                pz - min.2,
            ) == s
        }),
    decreases n,
{
    let t = rs.take(n);
    assert(t.drop_last() =~= rs.take(n - 1));
    assert(t.last() == rs[n - 1]);
    lemma_region_cell(rs[n - 1], states[n - 1], min, px, py, pz);
    if k < n - 1 {
        assert(state_in_region(
            rs[n - 1],
            states[n - 1],
            px - low(rs[n - 1], 0),
            py - low(rs[n - 1], 1),
            pz - low(rs[n - 1], 2),
        ) == 0);
        lemma_cell(rs, states, min, px, py, pz, k, n - 1);
    } else if k == 0 {
        assert(cell(rs.take(0), states, min, px - min.0, py - min.1, pz - min.2) == 0);
    }
}

/// The block entities of all regions are listed, one region behind the other in their order, each
/// as far from the lowest corner as its coordinates in the schematic say.
pub proof fn law_clipboard_lists_every_block_entity(
    name: Seq<char>,
    rs: Seq<Region>,
    states: Seq<Seq<Option<u16>>>,
    c: ClipboardView,
)
    requires
        assembles(rs, states),
        assembled(name, rs, states) == Ok::<ClipboardView, Seq<char>>(c),
    ensures
        c.tile_entities.len() == tiles_before(rs, rs.len() as int),
        forall|k: int, j: int|
            #![trigger rs[k].tile_entities@[j]]
            0 <= k < rs.len() && 0 <= j < rs[k].tile_entities@.len() ==> {
                let t = rs[k].tile_entities@[j];
                let (p, data) = c.tile_entities[tiles_before(rs, k) + j];
                &&& data == t.raw_nbt@
                &&& lowest(rs, 0) + p.x == low(rs[k], 0) + t.x
                &&& lowest(rs, 1) + p.y == low(rs[k], 1) + t.y
                &&& lowest(rs, 2) + p.z == low(rs[k], 2) + t.z
            },
{
    let min = box_min(rs);
    assert(rs.take(rs.len() as int) =~= rs);
    lemma_box_tiles(rs, min, rs.len() as int, 0);
    assert forall|k: int, j: int|
        #![trigger rs[k].tile_entities@[j]]
        0 <= k < rs.len() && 0 <= j < rs[k].tile_entities@.len() implies c.tile_entities[tiles_before(
        rs,
        k,
    ) + j] == region_tiles(rs[k], min)[j] && tile_fits(rs[k], rs[k].tile_entities@[j], min) by {
        lemma_box_tiles(rs, min, rs.len() as int, k);
        assert(tiles_fit(rs[k], min));
    }
}

/// How many block entities the first `n` regions have.
pub open spec fn tiles_before(rs: Seq<Region>, n: int) -> nat
    decreases n,
{
    if n <= 0 {
        0
    } else {
        tiles_before(rs, n - 1) + rs[n - 1].tile_entities@.len()
    }
}

/// Where the block entities of a region stand among those of the first regions.
proof fn lemma_box_tiles(rs: Seq<Region>, min: (int, int, int), n: int, k: int)
    requires
        0 <= n <= rs.len(),
    ensures
        box_tiles(rs.take(n), min).len() == tiles_before(rs, n),
        0 <= k < n ==> tiles_before(rs, k) + rs[k].tile_entities@.len() <= tiles_before(rs, n),
        0 <= k < n ==> forall|j: int|
            0 <= j < rs[k].tile_entities@.len() ==> box_tiles(rs.take(n), min)[tiles_before(rs, k)
                + j] == #[trigger] region_tiles(rs[k], min)[j],
    decreases n,
{
    if n > 0 {
        lemma_box_tiles(rs, min, n - 1, k);
        assert(rs.take(n).drop_last() =~= rs.take(n - 1));
        assert(rs.take(n).last() == rs[n - 1]);
    } else {
        assert(rs.take(0) =~= Seq::empty());
    }
}

/// A paste places the blocks in the order of their positions: x runs fastest, then z, then y.
pub proof fn law_paste_runs_through_positions(
    c: ClipboardView,
    origin: BlockPos,
    at_feet: bool,
    j: int,
    k: int,
)
    requires
        c.wf(),
        placeable(c, origin, at_feet),
        0 <= j < k < block_queue(c, origin, at_feet).len(),
    ensures
        ({
            let p = block_queue(c, origin, at_feet)[j].pos;
            let q = block_queue(c, origin, at_feet)[k].pos;
            earlier(p.x as int, p.y as int, p.z as int, q.x as int, q.y as int, q.z as int)
        }),
{
    let (sx, sz) = (c.size_x as int, c.size_z as int);
    let f = filled(c.blocks);
    law_filled_lists_blocks(c.blocks);
    let (a, b) = (f[j], f[k]);
    assert(a < b);
    law_places_run_through_positions(a, b, sx, sz);
    assert(c.blocks[a] != 0 && c.blocks[b] != 0);
    assert(can_place(c, origin, at_feet, x_at(a, sx), y_at(a, sx, sz), z_at(a, sx, sz)));
    assert(can_place(c, origin, at_feet, x_at(b, sx), y_at(b, sx, sz), z_at(b, sx, sz)));
    assert(block_queue(c, origin, at_feet)[j] == placing(c, origin, at_feet, a));
    assert(block_queue(c, origin, at_feet)[k] == placing(c, origin, at_feet, b));
}

/// Regions make up a clipboard exactly if there are any and the box around them has a block, and no
/// more than sixty-four times two to the twentieth. Otherwise the answer says which it is.
pub proof fn law_regions_make_up_a_clipboard(
    name: Seq<char>,
    rs: Seq<Region>,
    states: Seq<Seq<Option<u16>>>,
)
    ensures
        ({
            let volume = breadth(rs, 0) * breadth(rs, 1) * breadth(rs, 2);
            let r = assembled(name, rs, states);
            &&& r is Ok <==> rs.len() > 0 && 0 < volume <= 67108864
            &&& rs.len() == 0 ==> r == Err::<ClipboardView, Seq<char>>("Schematic has no regions"@)
            &&& rs.len() > 0 && !(0 < volume <= 67108864) ==> r == Err::<ClipboardView, Seq<char>>(
                "Schematic bounding box too large ("@ + decimal(volume) + " blocks)"@,
            )
        }),
{
}

/// Whether a number lies within two to the twenty-eighth of zero.
pub open spec fn small(v: int) -> bool {
    -0x1000_0000 <= v <= 0x1000_0000
}

/// Regions of small coordinates can always be put together, given a palette for each.
pub proof fn law_small_regions_can_be_put_together(rs: Seq<Region>, states: Seq<Seq<Option<u16>>>)
    requires
        states.len() >= rs.len(),
        forall|k: int, axis: int|
            #![trigger rs[k].position@[axis]]
            0 <= k < rs.len() && 0 <= axis < 3 ==> small(rs[k].position@[axis] as int) && small(
                rs[k].size@[axis] as int,
            ),
        forall|k: int, j: int|
            #![trigger rs[k].tile_entities@[j]]
            0 <= k < rs.len() && 0 <= j < rs[k].tile_entities@.len() ==> small(
                rs[k].tile_entities@[j].x as int,
            ) && small(rs[k].tile_entities@[j].y as int) && small(rs[k].tile_entities@[j].z as int),
        breadth(rs, 0) * breadth(rs, 1) * breadth(rs, 2) <= i64::MAX,
    ensures
        assembles(rs, states),
{
    if rs.len() > 0 {
        assert forall|k: int| 0 <= k < rs.len() implies ends_fit(#[trigger] rs[k], 0) && ends_fit(
            rs[k],
            1,
        ) && ends_fit(rs[k], 2) && low(rs[k], 0) > i32::MIN && low(rs[k], 1) > i32::MIN && low(
            rs[k],
            2,
        ) > i32::MIN by {
            let a = (rs[k].position@[0], rs[k].position@[1], rs[k].position@[2]);
        }
        law_box_fits_tightly(rs, 0);
        law_box_fits_tightly(rs, 1);
        law_box_fits_tightly(rs, 2);
        lemma_small_box(rs, 0);
        lemma_small_box(rs, 1);
        lemma_small_box(rs, 2);
        let min = box_min(rs);
        assert forall|k: int| 0 <= k < rs.len() implies tiles_fit(#[trigger] rs[k], min) by {
            let a = (rs[k].position@[0], rs[k].position@[1], rs[k].position@[2]);
            assert forall|j: int| 0 <= j < rs[k].tile_entities@.len() implies tile_fits(
                rs[k],
                #[trigger] rs[k].tile_entities@[j],
                min,
            ) by {}
        }
    }
}

proof fn lemma_small_box(rs: Seq<Region>, axis: int)
    requires
        rs.len() > 0,
        0 <= axis < 3,
        forall|k: int, axis: int|
            #![trigger rs[k].position@[axis]]
            0 <= k < rs.len() && 0 <= axis < 3 ==> small(rs[k].position@[axis] as int) && small(
                rs[k].size@[axis] as int,
            ),
        exists|k: int| 0 <= k < rs.len() && low(#[trigger] rs[k], axis) == lowest(rs, axis),
        exists|k: int|
            0 <= k < rs.len() && low(#[trigger] rs[k], axis) + rs[k].extent(axis) == lowest(
                rs,
                axis,
            ) + breadth(rs, axis),
    ensures
        -0x2000_0000 <= lowest(rs, axis) <= 0x1000_0000,
        breadth(rs, axis) <= 0x4000_0000,
{
    let a = choose|k: int| 0 <= k < rs.len() && low(#[trigger] rs[k], axis) == lowest(rs, axis);
    let b = choose|k: int|
        0 <= k < rs.len() && low(#[trigger] rs[k], axis) + rs[k].extent(axis) == lowest(rs, axis)
            + breadth(rs, axis);
    let p = (rs[a].position@[axis], rs[b].position@[axis]);
}

/// A clipboard is well formed exactly if no extent is zero or less, there is one block for every
/// position, and no more than thirty-two bits can count.
pub proof fn law_well_formed_clipboards_have_a_block_per_position(c: ClipboardView)
    ensures
        c.wf() <==> (c.size_x >= 1 && c.size_y >= 1 && c.size_z >= 1 && c.blocks.len() == c.size_x
            * c.size_y * c.size_z && c.blocks.len() <= 0x7fff_ffff),
{
}

/// A clipboard can be moved exactly if its offset and its block entities come to lie at coordinates
/// of thirty-two bits.
pub proof fn law_motion_needs_only_room(c: ClipboardView, m: Motion, p: BlockPos)
    requires
        c.size_x > 0,
        c.size_z > 0,
    ensures
        ({
            let x = c.size_x - 1 - p.x;
            let z = c.size_z - 1 - p.z;
            let carries = m.carries(p, c.size_x as int, c.size_z as int);
            &&& m is Quarter || m is MirrorZ ==> (carries <==> z <= i32::MAX)
            &&& m is ThreeQuarters || m is MirrorX ==> (carries <==> x <= i32::MAX)
            &&& m is Half ==> (carries <==> x <= i32::MAX && z <= i32::MAX)
        }),
        movable(c, m) <==> m.carries(c.offset, c.size_x as int, c.size_z as int) && forall|k: int|
            0 <= k < c.tile_entities.len() ==> m.carries(
                (#[trigger] c.tile_entities[k]).0,
                c.size_x as int,
                c.size_z as int,
            ),
{
}

/// The palette index of a block is the one at its place, row by row, and 0 where none is stored.
pub proof fn law_palette_index_stands_at_its_place(r: Region, x: int, y: int, z: int)
    requires
        0 <= x < r.extent(0),
        0 <= y < r.extent(1),
        0 <= z < r.extent(2),
        r.extent(0) * r.extent(1) * r.extent(2) <= usize::MAX,
    ensures
        ({
            let i = (y * r.extent(2) + z) * r.extent(0) + x;
            r.palette_index_at(x, y, z) == (if i < r.block_indices@.len() {
                r.block_indices@[i]
            } else {
                0
            })
        }),
{
    lemma_index_bounds(x, y, z, r.extent(0), r.extent(1), r.extent(2));
}

/// Block entities and the offset are carried where a motion carries their columns, at their height,
/// and the data stays.
pub proof fn law_moved_block_entities_keep_their_data(
    c: ClipboardView,
    m: Motion,
    states: Seq<u16>,
    k: int,
)
    requires
        c.wf(),
        movable(c, m),
    ensures
        carried_to(m, c.size_x as int, c.size_z as int, c.offset, moved(c, m, states).offset),
        0 <= k < c.tile_entities.len() ==> carried_to(
            m,
            c.size_x as int,
            c.size_z as int,
            c.tile_entities[k].0,
            moved(c, m, states).tile_entities[k].0,
        ) && moved(c, m, states).tile_entities[k].1 == c.tile_entities[k].1,
{
    if 0 <= k < c.tile_entities.len() {
        let e = c.tile_entities[k];
        assert(m.carries(e.0, c.size_x as int, c.size_z as int));
    }
}

/// Whether a motion of a box carries a position to another.
pub open spec fn carried_to(m: Motion, sx: int, sz: int, p: BlockPos, q: BlockPos) -> bool {
    &&& q.y == p.y
    &&& m is Quarter ==> q.x == sz - 1 - p.z && q.z == p.x
    &&& m is Half ==> q.x == sx - 1 - p.x && q.z == sz - 1 - p.z
    &&& m is ThreeQuarters ==> q.x == p.z && q.z == sx - 1 - p.x
    &&& m is MirrorX ==> q.x == sx - 1 - p.x && q.z == p.z
    &&& m is MirrorZ ==> q.x == p.x && q.z == sz - 1 - p.z
}

/// Whether what lies so far from the lowest corner of a clipboard comes to lie, with that corner, at
/// coordinates of thirty-two bits.
pub open spec fn has_room(
    c: ClipboardView,
    origin: BlockPos,
    at_feet: bool,
    x: int,
    y: int,
    z: int,
) -> bool {
    let cx = origin.x - (if at_feet {
        0
    } else {
        c.offset.x as int
    });
    let cy = origin.y - (if at_feet {
        0
    } else {
        c.offset.y as int
    });
    let cz = origin.z - (if at_feet {
        0
    } else {
        c.offset.z as int
    });
    &&& i32::MIN <= cx <= i32::MAX && i32::MIN <= cx + x <= i32::MAX
    &&& i32::MIN <= cy <= i32::MAX && i32::MIN <= cy + y <= i32::MAX
    &&& i32::MIN <= cz <= i32::MAX && i32::MIN <= cz + z <= i32::MAX
}

/// A clipboard can be placed exactly if every block that is not air and every block entity has room.
pub proof fn law_paste_needs_room_for_every_block(
    c: ClipboardView,
    origin: BlockPos,
    at_feet: bool,
)
    requires
        c.wf(),
    ensures
        placeable(c, origin, at_feet) <==> (forall|x: int, y: int, z: int|
            c.covers(x, y, z) && #[trigger] c.at(x, y, z) != 0 ==> has_room(
                c,
                origin,
                at_feet,
                x,
                y,
                z,
            )) && (forall|k: int|
            0 <= k < c.tile_entities.len() ==> has_room(
                c,
                origin,
                at_feet,
                (#[trigger] c.tile_entities[k]).0.x as int,
                c.tile_entities[k].0.y as int,
                c.tile_entities[k].0.z as int,
            )),
{
    let (sx, sy, sz) = (c.size_x as int, c.size_y as int, c.size_z as int);
    let blocks = forall|x: int, y: int, z: int|
        c.covers(x, y, z) && #[trigger] c.at(x, y, z) != 0 ==> has_room(
            c,
            origin,
            at_feet,
            x,
            y,
            z,
        );
    let tiles = forall|k: int|
        0 <= k < c.tile_entities.len() ==> has_room(
            c,
            origin,
            at_feet,
            (#[trigger] c.tile_entities[k]).0.x as int,
            c.tile_entities[k].0.y as int,
            c.tile_entities[k].0.z as int,
        );
    if placeable(c, origin, at_feet) {
        assert forall|x: int, y: int, z: int|
            c.covers(x, y, z) && #[trigger] c.at(x, y, z) != 0 implies has_room(
            c,
            origin,
            at_feet,
            x,
            y,
            z,
        ) by {
            lemma_index_bounds(x, y, z, sx, sy, sz);
            lemma_coordinates(x, y, z, sx, sy, sz);
            assert(c.blocks[c.place(x, y, z)] != 0);
        }
        assert forall|k: int| 0 <= k < c.tile_entities.len() implies has_room(
            c,
            origin,
            at_feet,
            (#[trigger] c.tile_entities[k]).0.x as int,
            c.tile_entities[k].0.y as int,
            c.tile_entities[k].0.z as int,
        ) by {
            let p = c.tile_entities[k].0;
            assert(can_place(c, origin, at_feet, p.x as int, p.y as int, p.z as int));
        }
    }
    if blocks && tiles {
        assert forall|i: int|
            0 <= i < c.blocks.len() && #[trigger] c.blocks[i] != 0 implies can_place(
            c,
            origin,
            at_feet,
            x_at(i, sx),
            y_at(i, sx, sz),
            z_at(i, sx, sz),
        ) by {
            lemma_place(i, sx, sy, sz);
            assert(c.at(x_at(i, sx), y_at(i, sx, sz), z_at(i, sx, sz)) != 0);
            assert(has_room(c, origin, at_feet, x_at(i, sx), y_at(i, sx, sz), z_at(i, sx, sz)));
        }
        assert forall|k: int| 0 <= k < c.tile_entities.len() implies ({
            let p = (#[trigger] c.tile_entities[k]).0;
            can_place(c, origin, at_feet, p.x as int, p.y as int, p.z as int)
        }) by {
            let p = c.tile_entities[k].0;
            assert(has_room(c, origin, at_feet, p.x as int, p.y as int, p.z as int));
        }
    }
}

/// Whether the ends of a region along an axis, and one coordinate beyond its highest, fit thirty-two
/// bits.
pub open spec fn region_fits(r: Region, axis: int) -> bool {
    let p = r.position@[axis] as int;
    let s = r.size@[axis] as int;
    &&& s > i32::MIN
    &&& s >= 0 ==> p + s <= i32::MAX
    &&& s < 0 ==> i32::MIN <= p + s
    &&& s < 0 ==> p + 1 <= i32::MAX
}

/// Whether a block entity's distance from the lowest corner of the box fits thirty-two bits.
pub open spec fn entity_fits(rs: Seq<Region>, k: int, j: int) -> bool {
    let t = rs[k].tile_entities@[j];
    &&& i32::MIN <= low(rs[k], 0) + t.x - lowest(rs, 0) <= i32::MAX
    &&& i32::MIN <= low(rs[k], 1) + t.y - lowest(rs, 1) <= i32::MAX
    &&& i32::MIN <= low(rs[k], 2) + t.z - lowest(rs, 2) <= i32::MAX
}

/// Regions can be put together exactly if every region fits, the box fits, and, where there is a
/// clipboard, its offset and the block entities do and there is a palette for each region.
pub proof fn law_regions_that_fit_can_be_put_together(
    rs: Seq<Region>,
    states: Seq<Seq<Option<u16>>>,
)
    ensures
        ({
            let volume = breadth(rs, 0) * breadth(rs, 1) * breadth(rs, 2);
            assembles(rs, states) <==> rs.len() == 0 || {
                &&& forall|k: int|
                    0 <= k < rs.len() ==> region_fits(#[trigger] rs[k], 0) && region_fits(
                        rs[k],
                        1,
                    ) && region_fits(rs[k], 2)
                &&& breadth(rs, 0) <= i32::MAX && breadth(rs, 1) <= i32::MAX && breadth(rs, 2)
                    <= i32::MAX
                &&& volume <= i64::MAX
                &&& 0 < volume <= 67108864 ==> {
                    &&& states.len() >= rs.len()
                    &&& lowest(rs, 0) > i32::MIN && lowest(rs, 1) > i32::MIN && lowest(rs, 2)
                        > i32::MIN
                    &&& forall|k: int, j: int|
                        #![trigger rs[k].tile_entities@[j]]
                        0 <= k < rs.len() && 0 <= j < rs[k].tile_entities@.len() ==> entity_fits(
                            rs,
                            k,
                            j,
                        )
                }
            }
        }),
{
    assert forall|k: int, axis: int| 0 <= k < rs.len() && 0 <= axis < 3 implies #[trigger] ends_fit(
        rs[k],
        axis,
    ) == region_fits(rs[k], axis) by {}
    let min = box_min(rs);
    assert forall|k: int, j: int|
        #![trigger rs[k].tile_entities@[j]]
        0 <= k < rs.len() && 0 <= j < rs[k].tile_entities@.len() implies entity_fits(rs, k, j)
        == tile_fits(rs[k], rs[k].tile_entities@[j], min) by {}
    if forall|k: int, j: int|
        #![trigger rs[k].tile_entities@[j]]
        0 <= k < rs.len() && 0 <= j < rs[k].tile_entities@.len() ==> entity_fits(rs, k, j) {
        assert forall|k: int| 0 <= k < rs.len() implies tiles_fit(#[trigger] rs[k], min) by {
            assert forall|j: int| 0 <= j < rs[k].tile_entities@.len() implies tile_fits(
                rs[k],
                #[trigger] rs[k].tile_entities@[j],
                min,
            ) by {
                assert(entity_fits(rs, k, j));
            }
        }
    }
    if forall|k: int| 0 <= k < rs.len() ==> tiles_fit(#[trigger] rs[k], min) {
        assert forall|k: int, j: int|
            #![trigger rs[k].tile_entities@[j]]
            0 <= k < rs.len() && 0 <= j < rs[k].tile_entities@.len() implies entity_fits(
            rs,
            k,
            j,
        ) by {
            assert(tiles_fit(rs[k], min));
        }
    }
    if rs.len() > 0 && assembles(rs, states) {
        assert forall|k: int| 0 <= k < rs.len() implies region_fits(#[trigger] rs[k], 0)
            && region_fits(rs[k], 1) && region_fits(rs[k], 2) by {
            assert(ends_fit(rs[k], 0) && ends_fit(rs[k], 1) && ends_fit(rs[k], 2));
        }
    }
    if forall|k: int|
        0 <= k < rs.len() ==> region_fits(#[trigger] rs[k], 0) && region_fits(rs[k], 1)
            && region_fits(rs[k], 2) {
        assert forall|k: int| 0 <= k < rs.len() implies ends_fit(#[trigger] rs[k], 0) && ends_fit(
            rs[k],
            1,
        ) && ends_fit(rs[k], 2) by {
            assert(region_fits(rs[k], 0));
        }
    }
}

} // verus!
