//! What copying, pasting, filling and replacing keep.
use vstd::prelude::*;

use crate::assemble::{
    assembled, assembles, box_min, box_tiles, breadth, cell, ends_fit, highest, low, lowest,
    region_cell, region_tiles, state_of, tile_fits, tiles_fit,
};
use crate::clipboard::ClipboardView;
use crate::grid::{inside, lemma_coordinates, lemma_extents, lemma_index_bounds, BlockPos};
use crate::litematica::tile_entity;
use crate::nbt::Nbt;
use crate::nbt_laws::{law_file_reads_back, writable};
use crate::nbt_read::file_value;
use crate::nbt_write::{file_bytes, payload};
use crate::paste::apart;
use crate::placement::{
    block_queue, can_place, filled, law_filled_lists_blocks, law_queue_places_every_block,
    placeable, placing, tile_queue, BlockPlacement,
};
use crate::schem::block_entity;
use crate::schematic::{index_of, Region, TileEntity};
use crate::survey::{
    filling, law_copy_holds_what_was_read, law_every_position_is_visited_once,
    law_filling_covers_the_box, matching, named_root, positions, written, Area, Visit,
};

verus! {

/// A paste of a clipboard places no position twice, so that it can be undone.
pub proof fn law_paste_is_apart(c: ClipboardView, origin: BlockPos, at_feet: bool)
    requires
        c.wf(),
        placeable(c, origin, at_feet),
    ensures
        apart(block_queue(c, origin, at_feet)),
{
    law_queue_places_every_block(c, origin, at_feet, 0, 0, 0);
}

/// A filling places no position twice, so that it can be undone.
pub proof fn law_filling_is_apart(a: Area, state_id: u16)
    requires
        a.wf(),
    ensures
        apart(filling(a, state_id)),
{
    law_filling_covers_the_box(a, state_id, a.min);
}

/// Which of the visits a replacement is made of.
proof fn lemma_matching(log: Seq<Visit>, from_id: u16, to_id: u16)
    requires
        forall|i: int, j: int|
            0 <= i < j < log.len() ==> (#[trigger] log[i]).pos != (#[trigger] log[j]).pos,
    ensures
        forall|k: int|
            0 <= k < matching(log, from_id, to_id).len() ==> (#[trigger] matching(
                log,
                from_id,
                to_id,
            )[k]).state_id == to_id && exists|i: int|
                0 <= i < log.len() && (#[trigger] log[i]).pos == matching(log, from_id, to_id)[k].pos
                    && log[i].state_id == from_id,
        forall|i: int|
            0 <= i < log.len() && (#[trigger] log[i]).state_id == from_id ==> matching(
                log,
                from_id,
                to_id,
            ).contains(BlockPlacement { pos: log[i].pos, state_id: to_id }),
        apart(matching(log, from_id, to_id)),
    decreases log.len(),
{
    if log.len() > 0 {
        let t = log.drop_last();
        let v = log.last();
        let before = matching(t, from_id, to_id);
        let now = matching(log, from_id, to_id);
        assert forall|i: int, j: int| 0 <= i < j < t.len() implies (#[trigger] t[i]).pos != (
        #[trigger] t[j]).pos by {
            assert(t[i] == log[i] && t[j] == log[j]);
        }
        lemma_matching(t, from_id, to_id);
        assert(log[log.len() - 1] == v);
        assert forall|k: int| 0 <= k < now.len() implies (#[trigger] now[k]).state_id == to_id
            && exists|i: int|
            0 <= i < log.len() && (#[trigger] log[i]).pos == now[k].pos && log[i].state_id
                == from_id by {
            if k < before.len() {
                assert(now[k] == before[k]);
                let i = choose|i: int|
                    0 <= i < t.len() && (#[trigger] t[i]).pos == before[k].pos && t[i].state_id
                        == from_id;
                assert(log[i].pos == now[k].pos && log[i].state_id == from_id);
            } else {
                assert(log[log.len() - 1].pos == now[k].pos);
            }
        }
        assert forall|i: int|
            0 <= i < log.len() && (#[trigger] log[i]).state_id == from_id implies now.contains(
            BlockPlacement { pos: log[i].pos, state_id: to_id },
        ) by {
            if i < t.len() {
                assert(t[i] == log[i]);
                let p = BlockPlacement { pos: t[i].pos, state_id: to_id };
                assert(before.contains(p));
                assert(now[before.index_of(p)] == p);
            } else {
                assert(now[now.len() - 1] == (BlockPlacement { pos: v.pos, state_id: to_id }));
            }
        }
        assert forall|a: int, b: int| 0 <= a < b < now.len() implies (#[trigger] now[a]).pos != (
        #[trigger] now[b]).pos by {
            assert(now[a] == before[a]);
            if b < before.len() {
                assert(now[b] == before[b]);
            } else {
                let i = choose|i: int|
                    0 <= i < t.len() && (#[trigger] t[i]).pos == before[a].pos && t[i].state_id
                        == from_id;
                assert(log[i].pos == before[a].pos);
                assert(log[i].pos != log[log.len() - 1].pos);
            }
        }
    }
}

/// A replacement places the new state wherever the old one was read, nowhere else, and no position
/// twice, so that it can be undone.
pub proof fn law_replacement_is_exact(a: Area, log: Seq<Visit>, from_id: u16, to_id: u16)
    requires
        a.wf(),
        positions(log) == a.visits(),
    ensures
        forall|k: int|
            0 <= k < matching(log, from_id, to_id).len() ==> (#[trigger] matching(
                log,
                from_id,
                to_id,
            )[k]).state_id == to_id && a.holds(matching(log, from_id, to_id)[k].pos),
        forall|i: int|
            0 <= i < log.len() ==> ((#[trigger] log[i]).state_id == from_id <==> exists|k: int|
                0 <= k < matching(log, from_id, to_id).len() && (#[trigger] matching(
                    log,
                    from_id,
                    to_id,
                )[k]).pos == log[i].pos),
        apart(matching(log, from_id, to_id)),
{
    let q = matching(log, from_id, to_id);
    law_every_position_is_visited_once(a);
    assert forall|i: int, j: int| 0 <= i < j < log.len() implies (#[trigger] log[i]).pos != (
    #[trigger] log[j]).pos by {
        assert(positions(log)[i] == log[i].pos && positions(log)[j] == log[j].pos);
        assert(a.visits()[i] != a.visits()[j]);
    }
    lemma_matching(log, from_id, to_id);
    assert forall|k: int| 0 <= k < q.len() implies (#[trigger] q[k]).state_id == to_id && a.holds(
        q[k].pos,
    ) by {
        let i = choose|i: int|
            0 <= i < log.len() && (#[trigger] log[i]).pos == q[k].pos && log[i].state_id == from_id;
        assert(positions(log)[i] == q[k].pos);
        assert(a.visits().contains(q[k].pos));
    }
    assert forall|i: int| 0 <= i < log.len() implies ((#[trigger] log[i]).state_id == from_id
        <==> exists|k: int| 0 <= k < q.len() && (#[trigger] q[k]).pos == log[i].pos) by {
        if log[i].state_id == from_id {
            let p = BlockPlacement { pos: log[i].pos, state_id: to_id };
            assert(q.contains(p));
            assert(q[q.index_of(p)].pos == log[i].pos);
        }
        if exists|k: int| 0 <= k < q.len() && (#[trigger] q[k]).pos == log[i].pos {
            let k = choose|k: int| 0 <= k < q.len() && (#[trigger] q[k]).pos == log[i].pos;
            let j = choose|j: int|
                0 <= j < log.len() && (#[trigger] log[j]).pos == q[k].pos && log[j].state_id
                    == from_id;
            if i < j {
                assert(log[i].pos != log[j].pos);
            } else if j < i {
                assert(log[j].pos != log[i].pos);
            }
        }
    }
}

/// The clipboard of a selection that was read.
pub open spec fn copied(a: Area, log: Seq<Visit>, tiles: Seq<(BlockPos, Seq<u8>)>) -> ClipboardView {
    ClipboardView {
        name: "clipboard"@,
        blocks: written(a, log),
        tile_entities: tiles,
        size_x: a.size_x() as i32,
        size_y: a.size_y() as i32,
        size_z: a.size_z() as i32,
        offset: BlockPos { x: 0, y: 0, z: 0 },
    }
}

/// A copy that is pasted somewhere places every block that is not air where it was, as seen from
/// the lowest corner: pasted where it was copied, every block comes to lie where it was read.
pub proof fn law_copy_pastes_back(
    a: Area,
    log: Seq<Visit>,
    tiles: Seq<(BlockPos, Seq<u8>)>,
    origin: BlockPos,
    at_feet: bool,
    i: int,
)
    requires
        a.wf(),
        a.volume() <= i32::MAX,
        positions(log) == a.visits(),
        placeable(copied(a, log, tiles), origin, at_feet),
        0 <= i < log.len(),
    ensures
        copied(a, log, tiles).wf(),
        log[i].state_id != 0 ==> block_queue(copied(a, log, tiles), origin, at_feet).contains(
            BlockPlacement {
                pos: BlockPos {
                    x: (origin.x + (log[i].pos.x - a.min.x)) as i32,
                    y: (origin.y + (log[i].pos.y - a.min.y)) as i32,
                    z: (origin.z + (log[i].pos.z - a.min.z)) as i32,
                },
                state_id: log[i].state_id,
            },
        ),
        log[i].state_id != 0 && origin == a.min ==> block_queue(
            copied(a, log, tiles),
            origin,
            at_feet,
        ).contains(BlockPlacement { pos: log[i].pos, state_id: log[i].state_id }),
{
    let c = copied(a, log, tiles);
    let p = log[i].pos;
    lemma_extents(a.size_x(), a.size_y(), a.size_z());
    law_copy_holds_what_was_read(a, log);
    law_every_position_is_visited_once(a);
    assert(positions(log)[i] == p);
    assert(a.visits().contains(p));
    assert(a.holds(p));
    let x = p.x - a.min.x;
    let y = p.y - a.min.y;
    let z = p.z - a.min.z;
    assert(c.covers(x, y, z));
    assert(c.place(x, y, z) == a.place(p));
    assert(c.at(x, y, z) == log[i].state_id);
    law_queue_places_every_block(c, origin, at_feet, x, y, z);
}

/// The data of a block entity that the server hands out with a nameless root becomes a file of NBT
/// that reads back as the entity's compound.
pub proof fn law_named_root_reads_back(c: Seq<(Seq<char>, Nbt)>)
    requires
        writable(Nbt::Compound(c)),
    ensures
        named_root(seq![10u8] + payload(Nbt::Compound(c))) == file_bytes(c),
        file_value(named_root(seq![10u8] + payload(Nbt::Compound(c)))) == Ok::<
            Seq<(Seq<char>, Nbt)>,
            Seq<char>,
        >(c),
{
    let d = seq![10u8] + payload(Nbt::Compound(c));
    assert(d.skip(1) =~= payload(Nbt::Compound(c)));
    assert(named_root(d) =~= file_bytes(c));
    law_file_reads_back(c);
}

/// A block entity keeps its contents: the data that is stored of it reads back as its compound.
pub proof fn law_tile_data_reads_back(c: Seq<(Seq<char>, Nbt)>)
    requires
        writable(Nbt::Compound(c)),
    ensures
        file_value(tile_entity(c).raw_nbt) == Ok::<Seq<(Seq<char>, Nbt)>, Seq<char>>(c),
        file_value(block_entity(c).raw_nbt) == Ok::<Seq<(Seq<char>, Nbt)>, Seq<char>>(c),
{
    law_file_reads_back(c);
}

/// Where a position of a region comes to lie in the world: at the origin plus its coordinates in the
/// schematic.
pub open spec fn at_coordinates(origin: BlockPos, r: Region, x: int, y: int, z: int) -> BlockPos {
    BlockPos {
        x: (origin.x + (low(r, 0) + x)) as i32,
        y: (origin.y + (low(r, 1) + y)) as i32,
        z: (origin.z + (low(r, 2) + z)) as i32,
    }
}

/// A schematic of a single region, placed with its origin at the origin, has every block and every
/// block entity at the origin plus its own coordinates.
pub proof fn law_region_lies_at_its_coordinates(
    name: Seq<char>,
    r: Region,
    states: Seq<Option<u16>>,
    c: ClipboardView,
    origin: BlockPos,
)
    requires
        assembles(seq![r], seq![states]),
        assembled(name, seq![r], seq![states]) == Ok::<ClipboardView, Seq<char>>(c),
        placeable(c, origin, false),
    ensures
        forall|x: int, y: int, z: int|
            #![trigger r.palette_index_at(x, y, z)]
            inside(x, y, z, r.extent(0), r.extent(1), r.extent(2)) && state_of(
                states,
                r.palette_index_at(x, y, z),
            ) != 0 ==> block_queue(c, origin, false).contains(
                BlockPlacement {
                    pos: at_coordinates(origin, r, x, y, z),
                    state_id: state_of(states, r.palette_index_at(x, y, z)),
                },
            ),
        tile_queue(c, origin, false) == r.tile_entities@.map_values(
            |t: TileEntity|
                (at_coordinates(origin, r, t.x as int, t.y as int, t.z as int), t.raw_nbt@),
        ),
{
    let rs = seq![r];
    let ss = seq![states];
    assert(rs.drop_last() =~= Seq::empty());
    assert(ends_fit(rs[0], 0) && ends_fit(rs[0], 1) && ends_fit(rs[0], 2));
    assert forall|axis: int| 0 <= axis < 3 implies lowest(rs, axis) == low(r, axis) && breadth(
        rs,
        axis,
    ) == r.extent(axis) by {
        assert(axis == 0 || axis == 1 || axis == 2);
        assert(lowest(rs.drop_last(), axis) == i32::MAX);
        assert(highest(rs.drop_last(), axis) == i32::MIN);
    }
    let (sx, sy, sz) = (r.extent(0), r.extent(1), r.extent(2));
    assert(breadth(rs, 0) == sx && breadth(rs, 1) == sy && breadth(rs, 2) == sz);
    assert(box_min(rs) == (low(r, 0), low(r, 1), low(r, 2)));
    assert(c.offset.x == -low(r, 0) && c.offset.y == -low(r, 1) && c.offset.z == -low(r, 2));
    assert forall|x: int, y: int, z: int|
        #![trigger r.palette_index_at(x, y, z)]
        inside(x, y, z, sx, sy, sz) && state_of(states, r.palette_index_at(x, y, z)) != 0 implies block_queue(
        c,
        origin,
        false,
    ).contains(
        BlockPlacement {
            pos: at_coordinates(origin, r, x, y, z),
            state_id: state_of(states, r.palette_index_at(x, y, z)),
        },
    ) by {
        lemma_index_bounds(x, y, z, sx, sy, sz);
        lemma_coordinates(x, y, z, sx, sy, sz);
        let i = index_of(x, y, z, sx, sz);
        assert(c.blocks[i] == cell(rs, ss, box_min(rs), x, y, z));
        assert(region_cell(r, states, box_min(rs), x, y, z) == state_of(
            states,
            r.palette_index_at(x, y, z),
        ));
        law_filled_lists_blocks(c.blocks);
        assert(c.blocks[i] != 0);
        let f = filled(c.blocks);
        assert(f.contains(i));
        let q = block_queue(c, origin, false);
        assert(q[f.index_of(i)] == placing(c, origin, false, i));
    }
    assert(box_tiles(rs.drop_last(), box_min(rs)) =~= Seq::empty());
    assert(c.tile_entities =~= region_tiles(r, box_min(rs)));
    let expected = r.tile_entities@.map_values(
        |t: TileEntity|
            (at_coordinates(origin, r, t.x as int, t.y as int, t.z as int), t.raw_nbt@),
    );
    assert forall|k: int| 0 <= k < expected.len() implies tile_queue(c, origin, false)[k]
        == expected[k] by {
        assert(tiles_fit(rs[0], box_min(rs)));
        assert(tile_fits(r, r.tile_entities@[k], box_min(rs)));
        let p = c.tile_entities[k].0;
        assert(can_place(c, origin, false, p.x as int, p.y as int, p.z as int));
    }
    assert(tile_queue(c, origin, false) =~= expected);
}

} // verus!
