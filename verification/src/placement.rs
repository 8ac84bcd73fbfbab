//! What is to be placed in the world, and where.
use vstd::prelude::*;
use vstd::slice::*;

use crate::clipboard::{Clipboard, ClipboardView};
use crate::grid::{lemma_coordinates, lemma_index_bounds, lemma_place, x_at, y_at, z_at, BlockPos};

verus! {

/// A block to be placed.
#[derive(Clone, Copy, Debug, PartialEq, Eq, Structural)]
pub struct BlockPlacement {
    pub pos: BlockPos,
    pub state_id: u16,
}

/// The data of a block entity to be stored.
#[derive(Debug)]
pub struct TileEntityPlacement {
    pub pos: BlockPos,
    pub nbt: Vec<u8>,
}

impl View for TileEntityPlacement {
    type V = (BlockPos, Seq<u8>);

    open spec fn view(&self) -> (BlockPos, Seq<u8>) {
        (self.pos, self.nbt@)
    }
}

/// The positions and data of block entities to be stored.
pub open spec fn queued_tiles(s: Seq<TileEntityPlacement>) -> Seq<(BlockPos, Seq<u8>)> {
    s.map_values(|e: TileEntityPlacement| e@)
}

/// The places of the blocks that are not air, in order.
pub open spec fn filled(blocks: Seq<u16>) -> Seq<int>
    decreases blocks.len(),
{
    if blocks.len() == 0 {
        Seq::empty()
    } else {
        let before = filled(blocks.drop_last());
        if blocks.last() != 0 {
            before.push(blocks.len() - 1)
        } else {
            before
        }
    }
}

/// A place is listed as filled exactly if its block is not air, and the places rise.
pub proof fn law_filled_lists_blocks(blocks: Seq<u16>)
    ensures
        forall|j: int|
            0 <= j < filled(blocks).len() ==> 0 <= #[trigger] filled(blocks)[j] < blocks.len()
                && blocks[filled(blocks)[j]] != 0,
        forall|j: int, k: int|
            0 <= j < k < filled(blocks).len() ==> filled(blocks)[j] < filled(blocks)[k],
        forall|i: int|
            0 <= i < blocks.len() && #[trigger] blocks[i] != 0 ==> filled(blocks).contains(i),
        filled(blocks).len() <= blocks.len(),
    decreases blocks.len(),
{
    if blocks.len() > 0 {
        let b = blocks.drop_last();
        let f = filled(blocks);
        law_filled_lists_blocks(b);
        assert forall|i: int| 0 <= i < blocks.len() && #[trigger] blocks[i] != 0 implies f.contains(
            i,
        ) by {
            if i < b.len() {
                assert(b[i] != 0);
                let j = choose|j: int| 0 <= j < filled(b).len() && filled(b)[j] == i;
                assert(f[j] == i);
            } else {
                assert(f[f.len() - 1] == i);
            }
        }
        assert forall|j: int| 0 <= j < f.len() implies 0 <= #[trigger] f[j] < blocks.len()
            && blocks[f[j]] != 0 by {
            if j < filled(b).len() {
                assert(f[j] == filled(b)[j]);
            }
        }
    }
}

/// The number of blocks that are not air.
pub fn count_filled(blocks: &Vec<u16>) -> (r: usize)
    ensures
        r == filled(blocks@).len(),
{
    let mut n: usize = 0;
    let mut i: usize = 0;
    assert(blocks@.take(0) =~= Seq::empty());
    while i < blocks.len()
        invariant
            i <= blocks@.len(),
            n <= i,
            n == filled(blocks@.take(i as int)).len(),
        decreases blocks@.len() - i,
    {
        assert(blocks@.take(i + 1).drop_last() =~= blocks@.take(i as int));
        if blocks[i] != 0 {
            n += 1;
        }
        i += 1;
    }
    assert(blocks@.take(i as int) =~= blocks@);
    n
}

/// The corner at which the lowest corner of a clipboard comes to lie along an axis: the origin, or
/// as far from it as the origin of the schematic lies from the corner.
pub open spec fn corner(origin: i32, offset: i32, at_feet: bool) -> int {
    if at_feet {
        origin as int
    } else {
        origin - offset
    }
}

/// Whether a number fits thirty-two bits.
pub open spec fn fits(v: int) -> bool {
    i32::MIN <= v <= i32::MAX
}

/// Whether a corner and the coordinate of what lies at some distance from it fit thirty-two bits.
pub open spec fn reaches(origin: i32, offset: i32, at_feet: bool, rel: int) -> bool {
    fits(corner(origin, offset, at_feet)) && fits(corner(origin, offset, at_feet) + rel)
}

/// Whether what lies at some position relative to the lowest corner of a clipboard can be placed.
pub open spec fn can_place(
    c: ClipboardView,
    origin: BlockPos,
    at_feet: bool,
    x: int,
    y: int,
    z: int,
) -> bool {
    &&& reaches(origin.x, c.offset.x, at_feet, x)
    &&& reaches(origin.y, c.offset.y, at_feet, y)
    &&& reaches(origin.z, c.offset.z, at_feet, z)
}

/// Whether every block that is not air and every block entity of a clipboard can be placed.
pub open spec fn placeable(c: ClipboardView, origin: BlockPos, at_feet: bool) -> bool {
    &&& forall|i: int|
        0 <= i < c.blocks.len() && #[trigger] c.blocks[i] != 0 ==> can_place(
            c,
            origin,
            at_feet,
            x_at(i, c.size_x as int),
            y_at(i, c.size_x as int, c.size_z as int),
            z_at(i, c.size_x as int, c.size_z as int),
        )
    &&& forall|k: int|
        0 <= k < c.tile_entities.len() ==> {
            let p = (#[trigger] c.tile_entities[k]).0;
            can_place(c, origin, at_feet, p.x as int, p.y as int, p.z as int)
        }
}

/// Where a position relative to the lowest corner of a clipboard comes to lie in the world.
pub open spec fn world_pos(
    c: ClipboardView,
    origin: BlockPos,
    at_feet: bool,
    x: int,
    y: int,
    z: int,
) -> BlockPos {
    BlockPos {
        x: (corner(origin.x, c.offset.x, at_feet) + x) as i32,
        y: (corner(origin.y, c.offset.y, at_feet) + y) as i32,
        z: (corner(origin.z, c.offset.z, at_feet) + z) as i32,
    }
}

/// The placing of the block at a place of a clipboard.
pub open spec fn placing(c: ClipboardView, origin: BlockPos, at_feet: bool, i: int) -> BlockPlacement {
    BlockPlacement {
        pos: world_pos(
            c,
            origin,
            at_feet,
            x_at(i, c.size_x as int),
            y_at(i, c.size_x as int, c.size_z as int),
            z_at(i, c.size_x as int, c.size_z as int),
        ),
        state_id: c.blocks[i],
    }
}

/// The blocks of a clipboard that are to be placed.
pub open spec fn block_queue(c: ClipboardView, origin: BlockPos, at_feet: bool) -> Seq<
    BlockPlacement,
> {
    filled(c.blocks).map_values(|i: int| placing(c, origin, at_feet, i))
}

/// The block entities of a clipboard that are to be stored.
pub open spec fn tile_queue(c: ClipboardView, origin: BlockPos, at_feet: bool) -> Seq<
    (BlockPos, Seq<u8>),
> {
    c.tile_entities.map_values(
        |e: (BlockPos, Seq<u8>)|
            (
                world_pos(c, origin, at_feet, e.0.x as int, e.0.y as int, e.0.z as int),
                e.1,
            ),
    )
}

/// A copy of some bytes.
pub fn copy_bytes(b: &Vec<u8>) -> (r: Vec<u8>)
    ensures
        r@ == b@,
{
    slice_to_vec(b.as_slice())
}

/// The corner at which the lowest corner of a clipboard comes to lie along an axis, if it and the
/// coordinate of what lies at some distance from it fit thirty-two bits.
fn reach(origin: i32, offset: i32, at_feet: bool, rel: i32) -> (r: Option<i32>)
    ensures
        match r {
            Some(v) => reaches(origin, offset, at_feet, rel as int) && v == corner(
                origin,
                offset,
                at_feet,
            ) + rel,
            None => !reaches(origin, offset, at_feet, rel as int),
        },
{
    let base: i64 = if at_feet {
        origin as i64
    } else {
        origin as i64 - offset as i64
    };
    if base < i32::MIN as i64 || base > i32::MAX as i64 {
        return None;
    }
    let v: i64 = base + rel as i64;
    if v < i32::MIN as i64 || v > i32::MAX as i64 {
        return None;
    }
    Some(v as i32)
}

impl Clipboard {
    /// Where a position relative to the lowest corner comes to lie in the world, if its
    /// coordinates fit thirty-two bits.
    fn place_at(&self, origin: BlockPos, at_feet: bool, x: i32, y: i32, z: i32) -> (r: Option<
        BlockPos,
    >)
        ensures
            match r {
                Some(p) => can_place(self@, origin, at_feet, x as int, y as int, z as int) && p
                    == world_pos(self@, origin, at_feet, x as int, y as int, z as int),
                None => !can_place(self@, origin, at_feet, x as int, y as int, z as int),
            },
    {
        match (
            reach(origin.x, self.offset.x, at_feet, x),
            reach(origin.y, self.offset.y, at_feet, y),
            reach(origin.z, self.offset.z, at_feet, z),
        ) {
            (Some(x), Some(y), Some(z)) => Some(BlockPos { x, y, z }),
            _ => None,
        }
    }

    /// The blocks that are not air and the block entities, at their positions in the world: with
    /// the lowest corner at the origin, or else with the origin of the schematic at the origin.
    /// There is no queue if a coordinate does not fit thirty-two bits.
    pub fn try_work_queue(&self, origin: BlockPos, at_feet: bool) -> (r: Option<
        (Vec<BlockPlacement>, Vec<TileEntityPlacement>),
    >)
        requires
            self@.wf(),
        ensures
            match r {
                Some((queue, tiles)) => {
                    &&& placeable(self@, origin, at_feet)
                    &&& queue@ == block_queue(self@, origin, at_feet)
                    &&& queued_tiles(tiles@) == tile_queue(self@, origin, at_feet)
                },
                None => !placeable(self@, origin, at_feet),
            },
    {
        let ghost c = self@;
        let n: usize = self.blocks.len();
        let mut queue: Vec<BlockPlacement> = Vec::new();
        let mut i: usize = 0;
        assert(c.blocks.take(0) =~= Seq::empty());
        while i < n
            invariant
                i <= n,
                n == c.blocks.len(),
                c == self@,
                c.wf(),
                queue@ == filled(c.blocks.take(i as int)).map_values(
                    |k: int| placing(c, origin, at_feet, k),
                ),
                forall|k: int|
                    0 <= k < i && #[trigger] c.blocks[k] != 0 ==> can_place(
                        c,
                        origin,
                        at_feet,
                        x_at(k, c.size_x as int),
                        y_at(k, c.size_x as int, c.size_z as int),
                        z_at(k, c.size_x as int, c.size_z as int),
                    ),
            decreases n - i,
        {
            assert(c.blocks.take(i + 1).drop_last() =~= c.blocks.take(i as int));
            let state_id: u16 = self.blocks[i];
            if state_id != 0 {
                let p: i32 = i as i32;
                proof {
                    lemma_place(i as int, c.size_x as int, c.size_y as int, c.size_z as int);
                }
                let x: i32 = p % self.size_x;
                let q: i32 = p / self.size_x;
                let z: i32 = q % self.size_z;
                let y: i32 = q / self.size_z;
                match self.place_at(origin, at_feet, x, y, z) {
                    Some(pos) => {
                        queue.push(BlockPlacement { pos, state_id });
                        assert(queue@ =~= filled(c.blocks.take(i + 1)).map_values(
                            |k: int| placing(c, origin, at_feet, k),
                        ));
                    },
                    None => {
                        assert(c.blocks[i as int] != 0);
                        return None;
                    },
                }
            }
            i += 1;
        }
        assert(c.blocks.take(i as int) =~= c.blocks);
        let mut tiles: Vec<TileEntityPlacement> = Vec::new();
        let mut k: usize = 0;
        assert(queued_tiles(tiles@) =~= tile_queue(c, origin, at_feet).take(0));
        while k < self.tile_entities.len()
            invariant
                k <= self.tile_entities@.len(),
                c == self@,
                queued_tiles(tiles@) == tile_queue(c, origin, at_feet).take(k as int),
                forall|j: int|
                    0 <= j < k ==> {
                        let p = (#[trigger] c.tile_entities[j]).0;
                        can_place(c, origin, at_feet, p.x as int, p.y as int, p.z as int)
                    },
            decreases self.tile_entities@.len() - k,
        {
            let p = self.tile_entities[k].0;
            assert(c.tile_entities[k as int].0 == p);
            match self.place_at(origin, at_feet, p.x, p.y, p.z) {
                Some(pos) => {
                    let nbt = copy_bytes(&self.tile_entities[k].1);
                    let ghost before = queued_tiles(tiles@);
                    let ghost e = (pos, nbt@);
                    tiles.push(TileEntityPlacement { pos, nbt });
                    assert(queued_tiles(tiles@) =~= before.push(e));
                    assert(c.tile_entities[k as int].1 == e.1);
                    assert(before.push(e) =~= tile_queue(c, origin, at_feet).take(k + 1));
                },
                None => {
                    return None;
                },
            }
            k += 1;
        }
        assert(queued_tiles(tiles@) =~= tile_queue(c, origin, at_feet));
        Some((queue, tiles))
    }

    /// The blocks that are not air and the block entities, at their positions in the world: with
    /// the lowest corner at the origin, or else with the origin of the schematic at the origin.
    pub fn to_work_queue(&self, origin: BlockPos, at_feet: bool) -> (r: (
        Vec<BlockPlacement>,
        Vec<TileEntityPlacement>,
    ))
        requires
            self@.wf(),
            placeable(self@, origin, at_feet),
        ensures
            r.0@ == block_queue(self@, origin, at_feet),
            queued_tiles(r.1@) == tile_queue(self@, origin, at_feet),
    {
        match self.try_work_queue(origin, at_feet) {
            Some(r) => r,
            None => (Vec::new(), Vec::new()),
        }
    }
}

/// Every block that is not air is queued once, at its own position, and nothing else is.
pub proof fn law_queue_places_every_block(
    c: ClipboardView,
    origin: BlockPos,
    at_feet: bool,
    x: int,
    y: int,
    z: int,
)
    requires
        c.wf(),
        placeable(c, origin, at_feet),
        c.covers(x, y, z),
    ensures
        c.at(x, y, z) != 0 ==> exists|j: int|
            0 <= j < block_queue(c, origin, at_feet).len() && #[trigger] block_queue(
                c,
                origin,
                at_feet,
            )[j] == (BlockPlacement {
                pos: world_pos(c, origin, at_feet, x, y, z),
                state_id: c.at(x, y, z),
            }),
        forall|j: int, k: int|
            0 <= j < k < block_queue(c, origin, at_feet).len() ==> (#[trigger] block_queue(
                c,
                origin,
                at_feet,
            )[j]).pos != (#[trigger] block_queue(c, origin, at_feet)[k]).pos,
        forall|j: int|
            0 <= j < block_queue(c, origin, at_feet).len() ==> (#[trigger] block_queue(
                c,
                origin,
                at_feet,
            )[j]).state_id != 0,
{
    let sx = c.size_x as int;
    let sy = c.size_y as int;
    let sz = c.size_z as int;
    let f = filled(c.blocks);
    let q = block_queue(c, origin, at_feet);
    law_filled_lists_blocks(c.blocks);
    lemma_index_bounds(x, y, z, sx, sy, sz);
    lemma_coordinates(x, y, z, sx, sy, sz);
    if c.at(x, y, z) != 0 {
        let i = c.place(x, y, z);
        assert(f.contains(i));
        let j = choose|j: int| 0 <= j < f.len() && f[j] == i;
        assert(q[j] == placing(c, origin, at_feet, i));
    }
    assert forall|j: int, k: int| 0 <= j < k < q.len() implies (#[trigger] q[j]).pos != (
    #[trigger] q[k]).pos by {
        let a = f[j];
        let b = f[k];
        lemma_place(a, sx, sy, sz);
        lemma_place(b, sx, sy, sz);
        assert(c.blocks[a] != 0 && c.blocks[b] != 0);
        assert(q[j] == placing(c, origin, at_feet, a) && q[k] == placing(c, origin, at_feet, b));
        if q[j].pos == q[k].pos {
            assert(x_at(a, sx) == x_at(b, sx));
            assert(y_at(a, sx, sz) == y_at(b, sx, sz));
            assert(z_at(a, sx, sz) == z_at(b, sx, sz));
            assert(a == b);
        }
    }
}

} // verus!
