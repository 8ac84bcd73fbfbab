//! Reading the blocks of a selection, chunk by chunk.
use vstd::arithmetic::div_mod::{lemma_fundamental_div_mod, lemma_fundamental_div_mod_converse};
use vstd::prelude::*;

use crate::grid::{
    earlier, inside, law_places_run_through_positions, lemma_coordinates, lemma_extents,
    lemma_index_bounds, lemma_place, x_at, y_at, z_at, BlockPos,
};
use crate::clipboard::placed_tiles;
use crate::placement::BlockPlacement;
use crate::schematic::index_of;

verus! {

/// The chunk column in which a coordinate lies.
pub open spec fn chunk_of(v: int) -> int {
    v / 16
}

/// The larger of two numbers.
pub open spec fn upper(a: int, b: int) -> int {
    if a < b {
        b
    } else {
        a
    }
}

/// The smaller of two numbers.
pub open spec fn lower(a: int, b: int) -> int {
    if a < b {
        a
    } else {
        b
    }
}

/// The number of chunk columns between two coordinates.
pub open spec fn chunks_between(a: int, b: int) -> int {
    chunk_of(b) - chunk_of(a) + 1
}

/// A box of the world, both corners included.
#[derive(Clone, Copy, Debug, PartialEq, Eq, Structural)]
pub struct Area {
    pub min: BlockPos,
    pub max: BlockPos,
}

impl Area {
    /// The corners are the lowest and the highest.
    pub open spec fn wf(self) -> bool {
        self.min.x <= self.max.x && self.min.y <= self.max.y && self.min.z <= self.max.z
    }

    /// The extent from west to east.
    pub open spec fn size_x(self) -> int {
        self.max.x - self.min.x + 1
    }

    /// The extent from the lowest to the highest layer.
    pub open spec fn size_y(self) -> int {
        self.max.y - self.min.y + 1
    }

    /// The extent from north to south.
    pub open spec fn size_z(self) -> int {
        self.max.z - self.min.z + 1
    }

    /// The number of blocks.
    pub open spec fn volume(self) -> int {
        self.size_x() * self.size_y() * self.size_z()
    }

    /// Whether a position lies in the box.
    pub open spec fn holds(self, p: BlockPos) -> bool {
        &&& self.min.x <= p.x <= self.max.x
        &&& self.min.y <= p.y <= self.max.y
        &&& self.min.z <= p.z <= self.max.z
    }

    /// The number of chunks from north to south that the box touches.
    pub open spec fn chunks_z(self) -> int {
        chunks_between(self.min.z as int, self.max.z as int)
    }

    /// The number of chunks that the box touches.
    pub open spec fn chunks(self) -> int {
        chunks_between(self.min.x as int, self.max.x as int) * self.chunks_z()
    }

    /// The chunk column from west to east of the box's k-th chunk; from north to south they run
    /// fastest.
    pub open spec fn chunk_x(self, k: int) -> int {
        chunk_of(self.min.x as int) + k / self.chunks_z()
    }

    /// The chunk column from north to south of the box's k-th chunk.
    pub open spec fn chunk_z(self, k: int) -> int {
        chunk_of(self.min.z as int) + k % self.chunks_z()
    }

    /// The lowest x coordinate of the box in its k-th chunk.
    pub open spec fn west(self, k: int) -> int {
        upper(self.min.x as int, 16 * self.chunk_x(k))
    }

    /// The extent of the box in its k-th chunk from west to east.
    pub open spec fn part_x(self, k: int) -> int {
        lower(self.max.x as int, 16 * self.chunk_x(k) + 15) - self.west(k) + 1
    }

    /// The lowest z coordinate of the box in its k-th chunk.
    pub open spec fn north(self, k: int) -> int {
        upper(self.min.z as int, 16 * self.chunk_z(k))
    }

    /// The extent of the box in its k-th chunk from north to south.
    pub open spec fn part_z(self, k: int) -> int {
        lower(self.max.z as int, 16 * self.chunk_z(k) + 15) - self.north(k) + 1
    }

    /// The number of blocks of the box in its k-th chunk.
    pub open spec fn part_len(self, k: int) -> int {
        self.part_x(k) * self.size_y() * self.part_z(k)
    }

    /// The j-th position of the box in its k-th chunk: x runs fastest, then z, then y.
    pub open spec fn part_pos(self, k: int, j: int) -> BlockPos {
        BlockPos {
            x: (self.west(k) + x_at(j, self.part_x(k))) as i32,
            y: (self.min.y + y_at(j, self.part_x(k), self.part_z(k))) as i32,
            z: (self.north(k) + z_at(j, self.part_x(k), self.part_z(k))) as i32,
        }
    }

    /// The positions of the box in its k-th chunk.
    pub open spec fn part(self, k: int) -> Seq<BlockPos> {
        Seq::new(self.part_len(k) as nat, |j: int| self.part_pos(k, j))
    }

    /// The positions of the box in its first n chunks.
    pub open spec fn parts(self, n: int) -> Seq<BlockPos>
        decreases n,
    {
        if n <= 0 {
            Seq::empty()
        } else {
            self.parts(n - 1) + self.part(n - 1)
        }
    }

    /// The positions of the box, in the order in which they are read: chunk by chunk.
    pub open spec fn visits(self) -> Seq<BlockPos> {
        self.parts(self.chunks())
    }

    /// The place of a position among the blocks of the box.
    pub open spec fn place(self, p: BlockPos) -> int {
        index_of(p.x - self.min.x, p.y - self.min.y, p.z - self.min.z, self.size_x(), self.size_z())
    }
}

/// A chunk's part of a box is not empty and lies in the box and in the chunk.
proof fn lemma_part(a: Area, k: int)
    requires
        a.wf(),
        0 <= k < a.chunks(),
    ensures
        0 < a.chunks_z(),
        0 < a.part_x(k) <= 16,
        0 < a.part_z(k) <= 16,
        0 < a.size_y(),
        0 <= k / a.chunks_z() < chunks_between(a.min.x as int, a.max.x as int),
        0 <= k % a.chunks_z() < a.chunks_z(),
        a.min.x <= a.west(k) && a.west(k) + a.part_x(k) - 1 <= a.max.x,
        a.min.z <= a.north(k) && a.north(k) + a.part_z(k) - 1 <= a.max.z,
        0 < a.part_len(k),
{
    let n = a.chunks_z();
    let m = chunks_between(a.min.x as int, a.max.x as int);
    lemma_fundamental_div_mod(k, n);
    let q = k / n;
    assert(0 <= q < m) by (nonlinear_arith)
        requires
            0 < n,
            0 <= k < m * n,
            k == n * q + k % n,
            0 <= k % n < n,
    ;
    assert(0 < a.part_len(k)) by (nonlinear_arith)
        requires
            0 < a.part_x(k),
            0 < a.size_y(),
            0 < a.part_z(k),
            a.part_len(k) == a.part_x(k) * a.size_y() * a.part_z(k),
    ;
}

/// The positions of a chunk's part lie in the box and in the chunk.
proof fn lemma_part_pos(a: Area, k: int, j: int)
    requires
        a.wf(),
        0 <= k < a.chunks(),
        0 <= j < a.part_len(k),
    ensures
        a.holds(a.part_pos(k, j)),
        chunk_of(a.part_pos(k, j).x as int) == a.chunk_x(k),
        chunk_of(a.part_pos(k, j).z as int) == a.chunk_z(k),
        a.part_pos(k, j).x == a.west(k) + x_at(j, a.part_x(k)),
        a.part_pos(k, j).y == a.min.y + y_at(j, a.part_x(k), a.part_z(k)),
        a.part_pos(k, j).z == a.north(k) + z_at(j, a.part_x(k), a.part_z(k)),
        inside(
            x_at(j, a.part_x(k)),
            y_at(j, a.part_x(k), a.part_z(k)),
            z_at(j, a.part_x(k), a.part_z(k)),
            a.part_x(k),
            a.size_y(),
            a.part_z(k),
        ),
{
    lemma_part(a, k);
    lemma_place(j, a.part_x(k), a.size_y(), a.part_z(k));
}

/// The rank among the box's chunks of the chunk in which a position lies.
spec fn rank(a: Area, p: BlockPos) -> int {
    (chunk_of(p.x as int) - chunk_of(a.min.x as int)) * a.chunks_z() + (chunk_of(p.z as int)
        - chunk_of(a.min.z as int))
}

/// The positions of a chunk's part have the chunk's rank.
proof fn lemma_rank(a: Area, k: int, j: int)
    requires
        a.wf(),
        0 <= k < a.chunks(),
        0 <= j < a.part_len(k),
    ensures
        rank(a, a.part_pos(k, j)) == k,
{
    lemma_part(a, k);
    lemma_part_pos(a, k, j);
    lemma_fundamental_div_mod(k, a.chunks_z());
    assert(k / a.chunks_z() * a.chunks_z() == a.chunks_z() * (k / a.chunks_z()))
        by (nonlinear_arith);
}

/// Every position of the box is one of its chunk's part.
proof fn lemma_found(a: Area, p: BlockPos)
    requires
        a.wf(),
        a.holds(p),
    ensures
        0 <= rank(a, p) < a.chunks(),
        exists|j: int|
            0 <= j < a.part_len(rank(a, p)) && #[trigger] a.part_pos(rank(a, p), j) == p,
{
    let n = a.chunks_z();
    let m = chunks_between(a.min.x as int, a.max.x as int);
    let u = chunk_of(p.x as int) - chunk_of(a.min.x as int);
    let v = chunk_of(p.z as int) - chunk_of(a.min.z as int);
    let k = rank(a, p);
    assert(0 <= u < m && 0 <= v < n);
    assert(0 <= u * n + v < m * n) by (nonlinear_arith)
        requires
            0 <= u < m,
            0 <= v < n,
    ;
    lemma_fundamental_div_mod_converse(k, n, u, v);
    lemma_part(a, k);
    let x = p.x - a.west(k);
    let y = p.y - a.min.y;
    let z = p.z - a.north(k);
    lemma_index_bounds(x, y, z, a.part_x(k), a.size_y(), a.part_z(k));
    lemma_coordinates(x, y, z, a.part_x(k), a.size_y(), a.part_z(k));
    let j = index_of(x, y, z, a.part_x(k), a.part_z(k));
    assert(a.part_pos(k, j) == p);
}

/// What is read in the first chunks: positions of the box, no chunk of a higher rank, none twice.
proof fn lemma_parts(a: Area, n: int)
    requires
        a.wf(),
        0 <= n <= a.chunks(),
    ensures
        forall|i: int|
            0 <= i < a.parts(n).len() ==> a.holds(#[trigger] a.parts(n)[i]) && rank(
                a,
                a.parts(n)[i],
            ) < n,
        forall|i: int, j: int|
            0 <= i < j < a.parts(n).len() ==> #[trigger] a.parts(n)[i] != #[trigger] a.parts(n)[j],
        forall|p: BlockPos|
            #![trigger a.holds(p)]
            a.holds(p) && rank(a, p) < n ==> a.parts(n).contains(p),
    decreases n,
{
    if n > 0 {
        let k = n - 1;
        let before = a.parts(k);
        let now = a.parts(n);
        lemma_parts(a, k);
        lemma_part(a, k);
        assert forall|i: int| 0 <= i < now.len() implies a.holds(#[trigger] now[i]) && rank(
            a,
            now[i],
        ) < n by {
            if i >= before.len() {
                lemma_part_pos(a, k, i - before.len());
                lemma_rank(a, k, i - before.len());
            } else {
                assert(now[i] == before[i]);
            }
        }
        assert forall|i: int, j: int| 0 <= i < j < now.len() implies #[trigger] now[i]
            != #[trigger] now[j] by {
            if j < before.len() {
                assert(now[i] == before[i] && now[j] == before[j]);
            } else {
                lemma_rank(a, k, j - before.len());
                if i < before.len() {
                    assert(now[i] == before[i]);
                } else {
                    lemma_part_pos(a, k, i - before.len());
                    lemma_part_pos(a, k, j - before.len());
                    lemma_place(i - before.len(), a.part_x(k), a.size_y(), a.part_z(k));
                    lemma_place(j - before.len(), a.part_x(k), a.size_y(), a.part_z(k));
                }
            }
        }
        assert forall|p: BlockPos|
            #![trigger a.holds(p)]
            a.holds(p) && rank(a, p) < n implies now.contains(p) by {
            if rank(a, p) < k {
                let i = choose|i: int| 0 <= i < before.len() && before[i] == p;
                assert(now[i] == p);
            } else {
                lemma_found(a, p);
                let j = choose|j: int| 0 <= j < a.part_len(k) && #[trigger] a.part_pos(k, j) == p;
                assert(now[before.len() + j] == p);
            }
        }
    } else {
        assert forall|p: BlockPos| #![trigger a.holds(p)] a.holds(p) && rank(a, p) < n implies a.parts(
            n,
        ).contains(p) by {
            lemma_found(a, p);
        }
    }
}

/// Every position of the box is read exactly once, and no other is.
pub proof fn law_every_position_is_visited_once(a: Area)
    requires
        a.wf(),
    ensures
        forall|p: BlockPos| #[trigger] a.holds(p) <==> a.visits().contains(p),
        forall|i: int, j: int|
            0 <= i < j < a.visits().len() ==> #[trigger] a.visits()[i] != #[trigger] a.visits()[j],
{
    assert(0 <= a.chunks()) by (nonlinear_arith)
        requires
            a.chunks() == chunks_between(a.min.x as int, a.max.x as int) * a.chunks_z(),
            0 <= chunks_between(a.min.x as int, a.max.x as int),
            0 <= a.chunks_z(),
    ;
    lemma_parts(a, a.chunks());
    assert forall|p: BlockPos| #[trigger] a.holds(p) <==> a.visits().contains(p) by {
        if a.holds(p) {
            lemma_found(a, p);
        }
    }
}

/// A position seen from its chunk.
pub open spec fn in_chunk(p: BlockPos) -> BlockPos {
    BlockPos { x: (p.x as int % 16) as i32, y: p.y, z: (p.z as int % 16) as i32 }
}

/// What was read at a position: the state of the block, and the data of its block entity if it
/// was asked for and there is one.
pub struct Visit {
    pub pos: BlockPos,
    pub state_id: u16,
    pub nbt: Option<Vec<u8>>,
}

/// Whether a state may be read at a position: from its chunk where that is loaded, or else from
/// the world.
pub open spec fn may_read<
    C,
    O: Fn(i32, i32) -> Option<C>,
    R: Fn(&C, BlockPos) -> u16,
    W: Fn(BlockPos) -> u16,
>(open_chunk: O, chunk_state: R, world_state: W, p: BlockPos, state_id: u16) -> bool {
    exists|c: Option<C>| #[trigger]
        call_ensures(
            open_chunk,
            (chunk_of(p.x as int) as i32, chunk_of(p.z as int) as i32),
            c,
        ) && may_read_in(chunk_state, world_state, c, p, state_id)
}

/// Whether a state may be read at a position, given its chunk.
pub open spec fn may_read_in<C, R: Fn(&C, BlockPos) -> u16, W: Fn(BlockPos) -> u16>(
    chunk_state: R,
    world_state: W,
    chunk: Option<C>,
    p: BlockPos,
    state_id: u16,
) -> bool {
    match chunk {
        Some(c) => call_ensures(chunk_state, (&c, in_chunk(p)), state_id),
        None => call_ensures(world_state, (p,), state_id),
    }
}

/// The positions of some visits.
pub open spec fn positions(log: Seq<Visit>) -> Seq<BlockPos> {
    log.map_values(|v: Visit| v.pos)
}

/// The blocks of a box after some visits.
pub open spec fn written(a: Area, log: Seq<Visit>) -> Seq<u16>
    decreases log.len(),
{
    if log.len() == 0 {
        Seq::new(a.volume() as nat, |i: int| 0u16)
    } else {
        written(a, log.drop_last()).update(a.place(log.last().pos), log.last().state_id)
    }
}

/// The data of a block entity with an empty name put behind the first byte, which marks the type
/// of the root.
pub open spec fn named_root(nbt: Seq<u8>) -> Seq<u8> {
    if nbt.len() == 0 {
        nbt
    } else {
        seq![nbt[0], 0u8, 0u8] + nbt.skip(1)
    }
}

/// The block entity that a visit found, relative to the lowest corner of the box.
pub open spec fn found_tile(a: Area, v: Visit) -> (BlockPos, Seq<u8>)
    recommends
        v.nbt is Some,
{
    (
        BlockPos {
            x: (v.pos.x - a.min.x) as i32,
            y: (v.pos.y - a.min.y) as i32,
            z: (v.pos.z - a.min.z) as i32,
        },
        named_root(v.nbt->0@),
    )
}

/// Whether a block entity is one that some visit found.
pub open spec fn was_found(a: Area, log: Seq<Visit>, e: (BlockPos, Seq<u8>)) -> bool {
    exists|i: int|
        0 <= i < log.len() && (#[trigger] log[i]).nbt is Some && e == found_tile(a, log[i])
}

/// The block entities that some visits found, relative to the lowest corner of the box.
pub open spec fn found_tiles(a: Area, log: Seq<Visit>) -> Seq<(BlockPos, Seq<u8>)>
    decreases log.len(),
{
    if log.len() == 0 {
        Seq::empty()
    } else {
        let before = found_tiles(a, log.drop_last());
        if log.last().nbt is Some {
            before.push(found_tile(a, log.last()))
        } else {
            before
        }
    }
}

/// The placings of a state wherever some visits found another.
pub open spec fn matching(log: Seq<Visit>, from_id: u16, to_id: u16) -> Seq<BlockPlacement>
    decreases log.len(),
{
    if log.len() == 0 {
        Seq::empty()
    } else {
        let before = matching(log.drop_last(), from_id, to_id);
        if log.last().state_id == from_id {
            before.push(BlockPlacement { pos: log.last().pos, state_id: to_id })
        } else {
            before
        }
    }
}

/// The data of a block entity with an empty name put behind the first byte.
pub fn to_named_root(nbt: Vec<u8>) -> (r: Vec<u8>)
    ensures
        r@ == named_root(nbt@),
{
    let n: usize = nbt.len();
    if n == 0 {
        return nbt;
    }
    let mut out: Vec<u8> = Vec::new();
    out.push(nbt[0]);
    out.push(0);
    out.push(0);
    let mut i: usize = 1;
    assert(out@ =~= seq![nbt@[0], 0u8, 0u8] + nbt@.subrange(1, 1));
    while i < n
        invariant
            1 <= i <= n,
            n == nbt@.len(),
            out@ == seq![nbt@[0], 0u8, 0u8] + nbt@.subrange(1, i as int),
        decreases n - i,
    {
        out.push(nbt[i]);
        assert(nbt@.subrange(1, i + 1) =~= nbt@.subrange(1, i as int).push(nbt@[i as int]));
        assert(out@ =~= seq![nbt@[0], 0u8, 0u8] + nbt@.subrange(1, i + 1));
        i += 1;
    }
    assert(nbt@.subrange(1, n as int) =~= nbt@.skip(1));
    out
}

/// The chunk column in which a coordinate lies.
fn chunk_coord(v: i32) -> (r: i64)
    ensures
        r == chunk_of(v as int),
{
    (v as i64 + 0x1_0000_0000) / 16 - 0x1000_0000
}

/// A coordinate seen from its chunk.
fn chunk_rest(v: i32) -> (r: i32)
    ensures
        r == v as int % 16,
{
    (v as i64 - 16 * chunk_coord(v)) as i32
}

/// A position seen from its chunk.
fn local_pos(p: BlockPos) -> (r: BlockPos)
    ensures
        r == in_chunk(p),
{
    BlockPos { x: chunk_rest(p.x), y: p.y, z: chunk_rest(p.z) }
}

/// The box's k-th chunk and the box's part in it: the chunk's columns, the lowest corner, and the
/// extents.
fn chunk_part(a: Area, k: i64) -> (r: (i32, i32, i32, i32, i32, i32))
    requires
        a.wf(),
        0 <= k < a.chunks(),
    ensures
        r.0 == a.chunk_x(k as int),
        r.1 == a.chunk_z(k as int),
        r.2 == a.west(k as int),
        r.3 == a.north(k as int),
        r.4 == a.part_x(k as int),
        r.5 == a.part_z(k as int),
{
    let n: i64 = chunk_coord(a.max.z) - chunk_coord(a.min.z) + 1;
    proof {
        lemma_part(a, k as int);
    }
    let cx: i64 = chunk_coord(a.min.x) + k / n;
    let cz: i64 = chunk_coord(a.min.z) + k % n;
    let x0: i64 = if (a.min.x as i64) < 16 * cx {
        16 * cx
    } else {
        a.min.x as i64
    };
    let x1: i64 = if (a.max.x as i64) < 16 * cx + 15 {
        a.max.x as i64
    } else {
        16 * cx + 15
    };
    let z0: i64 = if (a.min.z as i64) < 16 * cz {
        16 * cz
    } else {
        a.min.z as i64
    };
    let z1: i64 = if (a.max.z as i64) < 16 * cz + 15 {
        a.max.z as i64
    } else {
        16 * cz + 15
    };
    (cx as i32, cz as i32, x0 as i32, z0 as i32, (x1 - x0 + 1) as i32, (z1 - z0 + 1) as i32)
}

/// Whether everything that the visits hold may have been read, block entities only where there is
/// more than air.
pub open spec fn all_read<
    C,
    O: Fn(i32, i32) -> Option<C>,
    R: Fn(&C, BlockPos) -> u16,
    W: Fn(BlockPos) -> u16,
    N: Fn(BlockPos) -> Option<Vec<u8>>,
>(open_chunk: O, chunk_state: R, world_state: W, entity_nbt: N, log: Seq<Visit>) -> bool {
    forall|i: int|
        0 <= i < log.len() ==> {
            let v = #[trigger] log[i];
            &&& may_read(open_chunk, chunk_state, world_state, v.pos, v.state_id)
            &&& if v.state_id != 0 {
                call_ensures(entity_nbt, (v.pos,), v.nbt)
            } else {
                v.nbt is None
            }
        }
}

/// Whether the states that the visits hold may have been read.
pub open spec fn all_states_read<
    C,
    O: Fn(i32, i32) -> Option<C>,
    R: Fn(&C, BlockPos) -> u16,
    W: Fn(BlockPos) -> u16,
>(open_chunk: O, chunk_state: R, world_state: W, log: Seq<Visit>) -> bool {
    forall|i: int|
        0 <= i < log.len() ==> may_read(
            open_chunk,
            chunk_state,
            world_state,
            (#[trigger] log[i]).pos,
            log[i].state_id,
        )
}

/// The number of chunks that a box touches.
fn count_chunks(a: Area) -> (r: i64)
    requires
        a.wf(),
    ensures
        r == a.chunks(),
        r >= 0,
{
    let nx: i64 = chunk_coord(a.max.x) - chunk_coord(a.min.x) + 1;
    let nz: i64 = chunk_coord(a.max.z) - chunk_coord(a.min.z) + 1;
    assert(0 <= nx * nz <= 0x2000_0000 * 0x2000_0000) by (nonlinear_arith)
        requires
            0 <= nx <= 0x2000_0000,
            0 <= nz <= 0x2000_0000,
    ;
    nx * nz
}

/// The number of blocks in a box of at most sixteen by sixteen columns.
fn part_volume(px: i32, height: i64, pz: i32) -> (r: i64)
    requires
        0 < px <= 16,
        0 < pz <= 16,
        0 < height <= 0x1_0000_0000,
    ensures
        r == px * height * pz,
{
    assert(0 < px * height <= 16 * 0x1_0000_0000) by (nonlinear_arith)
        requires
            0 < px <= 16,
            0 < height <= 0x1_0000_0000,
    ;
    assert(0 < px * height * pz <= 16 * 0x1_0000_0000 * 16) by (nonlinear_arith)
        requires
            0 < px * height <= 16 * 0x1_0000_0000,
            0 < pz <= 16,
    ;
    (px as i64) * height * (pz as i64)
}

/// The state of the block at a position, from its chunk where that is loaded, or else from the
/// world.
fn read_state<C, R: Fn(&C, BlockPos) -> u16, W: Fn(BlockPos) -> u16>(
    chunk_state: &R,
    world_state: &W,
    chunk: &Option<C>,
    pos: BlockPos,
) -> (r: u16)
    requires
        forall|c: &C, p: BlockPos| call_requires(*chunk_state, (c, p)),
        forall|p: BlockPos| call_requires(*world_state, (p,)),
    ensures
        may_read_in(*chunk_state, *world_state, *chunk, pos, r),
{
    match chunk {
        Some(c) => chunk_state(c, local_pos(pos)),
        None => world_state(pos),
    }
}

/// The blocks of a box, in YZX order, and the block entities of those that are not air, relative
/// to its lowest corner. Each chunk is opened once.
pub fn read_selection_chunk_batched<
    C,
    O: Fn(i32, i32) -> Option<C>,
    R: Fn(&C, BlockPos) -> u16,
    W: Fn(BlockPos) -> u16,
    N: Fn(BlockPos) -> Option<Vec<u8>>,
>(open_chunk: O, chunk_state: R, world_state: W, entity_nbt: N, area: Area) -> (r: (
    Vec<u16>,
    Vec<(BlockPos, Vec<u8>)>,
))
    requires
        area.wf(),
        area.volume() <= i32::MAX,
        forall|x: i32, z: i32| call_requires(open_chunk, (x, z)),
        forall|c: &C, p: BlockPos| call_requires(chunk_state, (c, p)),
        forall|p: BlockPos| call_requires(world_state, (p,)),
        forall|p: BlockPos| call_requires(entity_nbt, (p,)),
    ensures
        exists|log: Seq<Visit>| #[trigger]
            all_read(open_chunk, chunk_state, world_state, entity_nbt, log) && positions(log)
                == area.visits() && r.0@ == written(area, log) && placed_tiles(r.1@) == found_tiles(
                area,
                log,
            ),
{
    let ghost mut log: Seq<Visit> = Seq::empty();
    let ghost sx = area.size_x();
    let ghost sy = area.size_y();
    let ghost sz = area.size_z();
    proof {
        lemma_extents(sx, sy, sz);
    }
    let wx: i32 = area.max.x - area.min.x + 1;
    let wy: i32 = area.max.y - area.min.y + 1;
    let wz: i32 = area.max.z - area.min.z + 1;
    let total: usize = (wx * wy * wz) as usize;
    let mut blocks: Vec<u16> = vec![0u16; total];
    let mut tiles: Vec<(BlockPos, Vec<u8>)> = Vec::new();
    let n: i64 = count_chunks(area);
    let mut k: i64 = 0;
    assert(positions(log) =~= area.parts(0));
    assert(blocks@ =~= written(area, log));
    assert(placed_tiles(tiles@) =~= found_tiles(area, log));
    while k < n
        invariant
            0 <= k <= n,
            n == area.chunks(),
            area.wf(),
            sx == area.size_x() && sy == area.size_y() && sz == area.size_z(),
            sx == wx && sy == wy && sz == wz,
            sx * sy * sz <= i32::MAX,
            blocks@.len() == sx * sy * sz,
            forall|x: i32, z: i32| call_requires(open_chunk, (x, z)),
            forall|c: &C, p: BlockPos| call_requires(chunk_state, (c, p)),
            forall|p: BlockPos| call_requires(world_state, (p,)),
            forall|p: BlockPos| call_requires(entity_nbt, (p,)),
            all_read(open_chunk, chunk_state, world_state, entity_nbt, log),
            positions(log) == area.parts(k as int),
            blocks@ == written(area, log),
            placed_tiles(tiles@) == found_tiles(area, log),
        decreases n - k,
    {
        let (cx, cz, x0, z0, px, pz) = chunk_part(area, k);
        proof {
            lemma_part(area, k as int);
        }
        let chunk = open_chunk(cx, cz);
        let m: i64 = part_volume(px, wy as i64, pz);
        let mut j: i64 = 0;
        assert(area.parts(k as int) =~= area.parts(k as int) + area.part(k as int).take(0));
        while j < m
            invariant
                0 <= k < n,
                n == area.chunks(),
                area.wf(),
                0 <= j <= m,
                m == area.part_len(k as int),
                px == area.part_x(k as int) && pz == area.part_z(k as int),
                x0 == area.west(k as int) && z0 == area.north(k as int),
                cx == area.chunk_x(k as int) && cz == area.chunk_z(k as int),
                0 < px <= 16 && 0 < pz <= 16,
                call_ensures(open_chunk, (cx, cz), chunk),
                sx == area.size_x() && sy == area.size_y() && sz == area.size_z(),
                sx == wx && sy == wy && sz == wz,
                sx * sy * sz <= i32::MAX,
                blocks@.len() == sx * sy * sz,
                forall|c: &C, p: BlockPos| call_requires(chunk_state, (c, p)),
                forall|p: BlockPos| call_requires(world_state, (p,)),
                forall|p: BlockPos| call_requires(entity_nbt, (p,)),
                all_read(open_chunk, chunk_state, world_state, entity_nbt, log),
                positions(log) == area.parts(k as int) + area.part(k as int).take(j as int),
                blocks@ == written(area, log),
                placed_tiles(tiles@) == found_tiles(area, log),
            decreases m - j,
        {
            proof {
                lemma_part_pos(area, k as int, j as int);
            }
            let x: i64 = j % px as i64;
            let q: i64 = j / px as i64;
            let z: i64 = q % pz as i64;
            let y: i64 = q / pz as i64;
            let pos = BlockPos {
                x: (x0 as i64 + x) as i32,
                y: (area.min.y as i64 + y) as i32,
                z: (z0 as i64 + z) as i32,
            };
            assert(pos == area.part_pos(k as int, j as int));
            let state_id: u16 = read_state(&chunk_state, &world_state, &chunk, pos);
            let rel_x: i32 = pos.x - area.min.x;
            let rel_y: i32 = pos.y - area.min.y;
            let rel_z: i32 = pos.z - area.min.z;
            proof {
                lemma_index_bounds(rel_x as int, rel_y as int, rel_z as int, sx, sy, sz);
            }
            let idx: usize = (rel_y * wx * wz + rel_z * wx + rel_x) as usize;
            blocks.set(idx, state_id);
            let nbt: Option<Vec<u8>> = if state_id != 0 {
                entity_nbt(pos)
            } else {
                None
            };
            let ghost visit = Visit { pos, state_id, nbt };
            let ghost before = log;
            proof {
                log = log.push(visit);
                assert(log.drop_last() =~= before);
                assert(positions(log) =~= positions(before).push(pos));
                assert(area.part(k as int).take(j + 1) =~= area.part(k as int).take(j as int).push(
                    pos,
                ));
                assert(positions(log) =~= area.parts(k as int) + area.part(k as int).take(j + 1));
                assert(cx == chunk_of(pos.x as int) as i32 && cz == chunk_of(pos.z as int) as i32);
                assert(may_read_in(chunk_state, world_state, chunk, pos, state_id));
                assert(may_read(open_chunk, chunk_state, world_state, pos, state_id));
                assert forall|i: int| 0 <= i < log.len() implies {
                    let v = #[trigger] log[i];
                    &&& may_read(open_chunk, chunk_state, world_state, v.pos, v.state_id)
                    &&& if v.state_id != 0 {
                        call_ensures(entity_nbt, (v.pos,), v.nbt)
                    } else {
                        v.nbt is None
                    }
                } by {
                    if i < before.len() {
                        assert(log[i] == before[i]);
                    }
                }
            }
            if let Some(data) = nbt {
                let ghost prior = placed_tiles(tiles@);
                let named = to_named_root(data);
                let rel = BlockPos { x: rel_x, y: rel_y, z: rel_z };
                let ghost e = (rel, named@);
                tiles.push((rel, named));
                assert(placed_tiles(tiles@) =~= prior.push(e));
            }
            j += 1;
        }
        assert(area.part(k as int).take(m as int) =~= area.part(k as int));
        k += 1;
    }
    (blocks, tiles)
}

/// The placings of a state wherever a box has another, chunk by chunk. Each chunk is opened once.
pub fn find_matching<
    C,
    O: Fn(i32, i32) -> Option<C>,
    R: Fn(&C, BlockPos) -> u16,
    W: Fn(BlockPos) -> u16,
>(
    open_chunk: O,
    chunk_state: R,
    world_state: W,
    area: Area,
    from_id: u16,
    to_id: u16,
) -> (r: Vec<BlockPlacement>)
    requires
        area.wf(),
        forall|x: i32, z: i32| call_requires(open_chunk, (x, z)),
        forall|c: &C, p: BlockPos| call_requires(chunk_state, (c, p)),
        forall|p: BlockPos| call_requires(world_state, (p,)),
    ensures
        exists|log: Seq<Visit>| #[trigger]
            all_states_read(open_chunk, chunk_state, world_state, log) && positions(log)
                == area.visits() && r@ == matching(log, from_id, to_id),
{
    let ghost mut log: Seq<Visit> = Seq::empty();
    let mut queue: Vec<BlockPlacement> = Vec::new();
    let height: i64 = area.max.y as i64 - area.min.y as i64 + 1;
    let n: i64 = count_chunks(area);
    let mut k: i64 = 0;
    assert(positions(log) =~= area.parts(0));
    while k < n
        invariant
            0 <= k <= n,
            n == area.chunks(),
            area.wf(),
            height == area.size_y(),
            forall|x: i32, z: i32| call_requires(open_chunk, (x, z)),
            forall|c: &C, p: BlockPos| call_requires(chunk_state, (c, p)),
            forall|p: BlockPos| call_requires(world_state, (p,)),
            all_states_read(open_chunk, chunk_state, world_state, log),
            positions(log) == area.parts(k as int),
            queue@ == matching(log, from_id, to_id),
        decreases n - k,
    {
        let (cx, cz, x0, z0, px, pz) = chunk_part(area, k);
        proof {
            lemma_part(area, k as int);
        }
        let chunk = open_chunk(cx, cz);
        let m: i64 = part_volume(px, height, pz);
        let mut j: i64 = 0;
        assert(area.parts(k as int) =~= area.parts(k as int) + area.part(k as int).take(0));
        while j < m
            invariant
                0 <= k < n,
                n == area.chunks(),
                area.wf(),
                0 <= j <= m,
                m == area.part_len(k as int),
                px == area.part_x(k as int) && pz == area.part_z(k as int),
                x0 == area.west(k as int) && z0 == area.north(k as int),
                cx == area.chunk_x(k as int) && cz == area.chunk_z(k as int),
                0 < px <= 16 && 0 < pz <= 16,
                call_ensures(open_chunk, (cx, cz), chunk),
                forall|c: &C, p: BlockPos| call_requires(chunk_state, (c, p)),
                forall|p: BlockPos| call_requires(world_state, (p,)),
                all_states_read(open_chunk, chunk_state, world_state, log),
                positions(log) == area.parts(k as int) + area.part(k as int).take(j as int),
                queue@ == matching(log, from_id, to_id),
            decreases m - j,
        {
            proof {
                lemma_part_pos(area, k as int, j as int);
            }
            let x: i64 = j % px as i64;
            let q: i64 = j / px as i64;
            let z: i64 = q % pz as i64;
            let y: i64 = q / pz as i64;
            let pos = BlockPos {
                x: (x0 as i64 + x) as i32,
                y: (area.min.y as i64 + y) as i32,
                z: (z0 as i64 + z) as i32,
            };
            assert(pos == area.part_pos(k as int, j as int));
            let state_id: u16 = read_state(&chunk_state, &world_state, &chunk, pos);
            let ghost before = log;
            proof {
                log = log.push(Visit { pos, state_id, nbt: None });
                assert(log.drop_last() =~= before);
                assert(positions(log) =~= positions(before).push(pos));
                assert(area.part(k as int).take(j + 1) =~= area.part(k as int).take(j as int).push(
                    pos,
                ));
                assert(positions(log) =~= area.parts(k as int) + area.part(k as int).take(j + 1));
                assert(cx == chunk_of(pos.x as int) as i32 && cz == chunk_of(pos.z as int) as i32);
                assert(may_read_in(chunk_state, world_state, chunk, pos, state_id));
                assert(may_read(open_chunk, chunk_state, world_state, pos, state_id));
                assert forall|i: int| 0 <= i < log.len() implies may_read(
                    open_chunk,
                    chunk_state,
                    world_state,
                    (#[trigger] log[i]).pos,
                    log[i].state_id,
                ) by {
                    if i < before.len() {
                        assert(log[i] == before[i]);
                    }
                }
            }
            if state_id == from_id {
                queue.push(BlockPlacement { pos, state_id: to_id });
            }
            j += 1;
        }
        assert(area.part(k as int).take(m as int) =~= area.part(k as int));
        k += 1;
    }
    queue
}

/// The placing of a state at a place of a box.
pub open spec fn filling_at(a: Area, state_id: u16, i: int) -> BlockPlacement {
    BlockPlacement {
        pos: BlockPos {
            x: (a.min.x + x_at(i, a.size_x())) as i32,
            y: (a.min.y + y_at(i, a.size_x(), a.size_z())) as i32,
            z: (a.min.z + z_at(i, a.size_x(), a.size_z())) as i32,
        },
        state_id,
    }
}

/// The placings of a state everywhere in a box, in YZX order.
pub open spec fn filling(a: Area, state_id: u16) -> Seq<BlockPlacement> {
    Seq::new(a.volume() as nat, |i: int| filling_at(a, state_id, i))
}

/// The placings of a state everywhere in a box, in YZX order.
pub fn fill_queue(area: Area, state_id: u16) -> (r: Vec<BlockPlacement>)
    requires
        area.wf(),
        area.volume() <= u64::MAX,
    ensures
        r@ == filling(area, state_id),
{
    let sx: u64 = (area.max.x as i64 - area.min.x as i64 + 1) as u64;
    let sy: u64 = (area.max.y as i64 - area.min.y as i64 + 1) as u64;
    let sz: u64 = (area.max.z as i64 - area.min.z as i64 + 1) as u64;
    proof {
        lemma_extents(sx as int, sy as int, sz as int);
    }
    let total: u64 = sx * sy * sz;
    let mut queue: Vec<BlockPlacement> = Vec::new();
    let mut i: u64 = 0;
    while i < total
        invariant
            i <= total,
            area.wf(),
            sx == area.size_x() && sy == area.size_y() && sz == area.size_z(),
            total == area.volume(),
            queue@.len() == i,
            forall|k: int| 0 <= k < i ==> #[trigger] queue@[k] == filling_at(area, state_id, k),
        decreases total - i,
    {
        proof {
            lemma_place(i as int, sx as int, sy as int, sz as int);
        }
        let x: u64 = i % sx;
        let q: u64 = i / sx;
        let z: u64 = q % sz;
        let y: u64 = q / sz;
        let pos = BlockPos {
            x: (area.min.x as i64 + x as i64) as i32,
            y: (area.min.y as i64 + y as i64) as i32,
            z: (area.min.z as i64 + z as i64) as i32,
        };
        queue.push(BlockPlacement { pos, state_id });
        i += 1;
    }
    assert(queue@ =~= filling(area, state_id));
    queue
}

/// A copy holds at every position the state that was read there, and lists every block entity that
/// was read once, at its position, and no other.
pub proof fn law_copy_holds_what_was_read(a: Area, log: Seq<Visit>)
    requires
        a.wf(),
        positions(log) == a.visits(),
    ensures
        written(a, log).len() == a.volume(),
        forall|i: int|
            0 <= i < log.len() ==> written(a, log)[a.place((#[trigger] log[i]).pos)]
                == log[i].state_id,
        forall|i: int|
            0 <= i < log.len() && (#[trigger] log[i]).nbt is Some ==> found_tiles(
                a,
                log,
            ).contains(found_tile(a, log[i])),
        forall|k: int|
            0 <= k < found_tiles(a, log).len() ==> was_found(
                a,
                log,
                #[trigger] found_tiles(a, log)[k],
            ),
        a.volume() <= i32::MAX ==> forall|j: int, k: int|
            0 <= j < k < found_tiles(a, log).len() ==> (#[trigger] found_tiles(a, log)[j]).0 != (
            #[trigger] found_tiles(a, log)[k]).0,
{
    law_every_position_is_visited_once(a);
    assert forall|i: int| 0 <= i < log.len() implies a.holds((#[trigger] log[i]).pos) by {
        assert(positions(log)[i] == log[i].pos);
        assert(a.visits().contains(log[i].pos));
    }
    assert forall|i: int, j: int| 0 <= i < j < log.len() implies (#[trigger] log[i]).pos != (
    #[trigger] log[j]).pos by {
        assert(positions(log)[i] == log[i].pos && positions(log)[j] == log[j].pos);
        assert(a.visits()[i] != a.visits()[j]);
    }
    lemma_written(a, log);
    lemma_found_tiles(a, log);
}

/// The block entities of visits to distinct positions lie at distinct positions.
proof fn lemma_found_tiles(a: Area, log: Seq<Visit>)
    requires
        a.wf(),
        forall|i: int| 0 <= i < log.len() ==> a.holds((#[trigger] log[i]).pos),
        forall|i: int, j: int|
            0 <= i < j < log.len() ==> (#[trigger] log[i]).pos != (#[trigger] log[j]).pos,
    ensures
        forall|i: int|
            0 <= i < log.len() && (#[trigger] log[i]).nbt is Some ==> found_tiles(
                a,
                log,
            ).contains(found_tile(a, log[i])),
        forall|k: int|
            0 <= k < found_tiles(a, log).len() ==> was_found(
                a,
                log,
                #[trigger] found_tiles(a, log)[k],
            ),
        a.volume() <= i32::MAX ==> forall|j: int, k: int|
            0 <= j < k < found_tiles(a, log).len() ==> (#[trigger] found_tiles(a, log)[j]).0 != (
            #[trigger] found_tiles(a, log)[k]).0,
    decreases log.len(),
{
    lemma_extents(a.size_x(), a.size_y(), a.size_z());
    if log.len() > 0 {
        let t = log.drop_last();
        let before = found_tiles(a, t);
        let now = found_tiles(a, log);
        assert forall|i: int| 0 <= i < t.len() implies a.holds((#[trigger] t[i]).pos) by {
            assert(t[i] == log[i]);
        }
        assert forall|i: int, j: int| 0 <= i < j < t.len() implies (#[trigger] t[i]).pos != (
        #[trigger] t[j]).pos by {
            assert(t[i] == log[i] && t[j] == log[j]);
        }
        lemma_found_tiles(a, t);
        assert(log[log.len() - 1] == log.last());
        assert forall|i: int| 0 <= i < log.len() && (#[trigger] log[i]).nbt is Some implies now.contains(
            found_tile(a, log[i]),
        ) by {
            if i < t.len() {
                assert(t[i] == log[i]);
                let k = before.index_of(found_tile(a, log[i]));
                assert(before.contains(found_tile(a, log[i])));
                assert(now[k] == found_tile(a, log[i]));
            } else {
                assert(now[now.len() - 1] == found_tile(a, log[i]));
            }
        }
        assert forall|k: int| 0 <= k < now.len() implies was_found(a, log, #[trigger] now[k]) by {
            if k < before.len() {
                assert(now[k] == before[k]);
                assert(was_found(a, t, before[k]));
                let i = choose|i: int|
                    0 <= i < t.len() && (#[trigger] t[i]).nbt is Some && before[k] == found_tile(
                        a,
                        t[i],
                    );
                assert(log[i] == t[i]);
            } else {
                assert(log[log.len() - 1].nbt is Some);
            }
        }
        if a.volume() <= i32::MAX {
            assert forall|j: int, k: int| 0 <= j < k < now.len() implies (#[trigger] now[j]).0 != (
            #[trigger] now[k]).0 by {
                assert(now[j] == before[j]);
                if k < before.len() {
                    assert(now[k] == before[k]);
                } else {
                    assert(was_found(a, t, before[j]));
                    let i = choose|i: int|
                        0 <= i < t.len() && (#[trigger] t[i]).nbt is Some && before[j]
                            == found_tile(a, t[i]);
                    assert(log[i] == t[i]);
                    assert(log[i].pos != log[log.len() - 1].pos);
                }
            }
        }
    }
}

/// Where positions are distinct, each state stays as it was written.
proof fn lemma_written(a: Area, log: Seq<Visit>)
    requires
        a.wf(),
        forall|i: int| 0 <= i < log.len() ==> a.holds((#[trigger] log[i]).pos),
        forall|i: int, j: int|
            0 <= i < j < log.len() ==> (#[trigger] log[i]).pos != (#[trigger] log[j]).pos,
    ensures
        written(a, log).len() == a.volume(),
        forall|i: int|
            0 <= i < log.len() ==> written(a, log)[a.place((#[trigger] log[i]).pos)]
                == log[i].state_id,
    decreases log.len(),
{
    let sx = a.size_x();
    let sy = a.size_y();
    let sz = a.size_z();
    lemma_extents(sx, sy, sz);
    if log.len() > 0 {
        let t = log.drop_last();
        let last = log.last();
        assert forall|i: int| 0 <= i < t.len() implies a.holds((#[trigger] t[i]).pos) by {
            assert(t[i] == log[i]);
        }
        assert forall|i: int, j: int| 0 <= i < j < t.len() implies (#[trigger] t[i]).pos != (
        #[trigger] t[j]).pos by {
            assert(t[i] == log[i] && t[j] == log[j]);
        }
        lemma_written(a, t);
        assert(log[log.len() - 1] == last);
        lemma_index_bounds(
            last.pos.x - a.min.x,
            last.pos.y - a.min.y,
            last.pos.z - a.min.z,
            sx,
            sy,
            sz,
        );
        assert forall|i: int| 0 <= i < log.len() implies written(a, log)[a.place(
            (#[trigger] log[i]).pos,
        )] == log[i].state_id by {
            if i < t.len() {
                assert(t[i] == log[i]);
                let p = log[i].pos;
                let q = last.pos;
                lemma_coordinates(p.x - a.min.x, p.y - a.min.y, p.z - a.min.z, sx, sy, sz);
                lemma_coordinates(q.x - a.min.x, q.y - a.min.y, q.z - a.min.z, sx, sy, sz);
                lemma_index_bounds(p.x - a.min.x, p.y - a.min.y, p.z - a.min.z, sx, sy, sz);
                assert(log[i].pos != log[log.len() - 1].pos);
            }
        }
    }
}

/// A filling places the state, and no other, at every position of the box once.
pub proof fn law_filling_covers_the_box(a: Area, state_id: u16, p: BlockPos)
    requires
        a.wf(),
    ensures
        a.holds(p) <==> exists|i: int|
            0 <= i < filling(a, state_id).len() && (#[trigger] filling(a, state_id)[i]).pos == p,
        forall|i: int, j: int|
            0 <= i < j < filling(a, state_id).len() ==> (#[trigger] filling(a, state_id)[i]).pos != (
            #[trigger] filling(a, state_id)[j]).pos,
        forall|i: int|
            0 <= i < filling(a, state_id).len() ==> (#[trigger] filling(a, state_id)[i]).state_id
                == state_id,
        filling(a, state_id).len() == (a.max.x - a.min.x + 1) * (a.max.y - a.min.y + 1) * (a.max.z
            - a.min.z + 1),
{
    let sx = a.size_x();
    let sy = a.size_y();
    let sz = a.size_z();
    let f = filling(a, state_id);
    lemma_extents(sx, sy, sz);
    if a.holds(p) {
        lemma_index_bounds(p.x - a.min.x, p.y - a.min.y, p.z - a.min.z, sx, sy, sz);
        lemma_coordinates(p.x - a.min.x, p.y - a.min.y, p.z - a.min.z, sx, sy, sz);
        assert(f[a.place(p)].pos == p);
    }
    assert forall|i: int| 0 <= i < f.len() implies a.holds((#[trigger] f[i]).pos) by {
        lemma_place(i, sx, sy, sz);
    }
    assert forall|i: int, j: int| 0 <= i < j < f.len() implies (#[trigger] f[i]).pos != (
    #[trigger] f[j]).pos by {
        lemma_place(i, sx, sy, sz);
        lemma_place(j, sx, sy, sz);
    }
}

/// The column of its chunk and its place in the chunk give a position back, and the place lies in
/// the chunk.
pub proof fn law_chunk_and_place_give_the_position(p: BlockPos)
    ensures
        0 <= in_chunk(p).x < 16,
        0 <= in_chunk(p).z < 16,
        16 * chunk_of(p.x as int) + in_chunk(p).x == p.x,
        16 * chunk_of(p.z as int) + in_chunk(p).z == p.z,
        in_chunk(p).y == p.y,
{
}

/// Each state is read where its position lies: in the column of chunks that holds it, at its place
/// there if the chunk is loaded, or else in the world. The data of a block entity is asked for at
/// the position itself, of blocks that are not air and of no other.
pub proof fn law_reads_are_made_where_they_belong<
    C,
    O: Fn(i32, i32) -> Option<C>,
    R: Fn(&C, BlockPos) -> u16,
    W: Fn(BlockPos) -> u16,
    N: Fn(BlockPos) -> Option<Vec<u8>>,
>(
    open_chunk: O,
    chunk_state: R,
    world_state: W,
    entity_nbt: N,
    log: Seq<Visit>,
    i: int,
    cx: i32,
    cz: i32,
    lx: i32,
    lz: i32,
)
    requires
        0 <= i < log.len(),
        0 <= lx < 16,
        0 <= lz < 16,
        log[i].pos.x == 16 * cx + lx,
        log[i].pos.z == 16 * cz + lz,
    ensures
        all_states_read(open_chunk, chunk_state, world_state, log) || all_read(
            open_chunk,
            chunk_state,
            world_state,
            entity_nbt,
            log,
        ) ==> exists|c: Option<C>| #[trigger]
            call_ensures(open_chunk, (cx, cz), c) && match c {
                Some(chunk) => call_ensures(
                    chunk_state,
                    (&chunk, BlockPos { x: lx, y: log[i].pos.y, z: lz }),
                    log[i].state_id,
                ),
                None => call_ensures(world_state, (log[i].pos,), log[i].state_id),
            },
        all_read(open_chunk, chunk_state, world_state, entity_nbt, log) ==> if log[i].state_id != 0 {
            call_ensures(entity_nbt, (log[i].pos,), log[i].nbt)
        } else {
            log[i].nbt is None
        },
{
    let p = log[i].pos;
    assert(chunk_of(p.x as int) == cx && chunk_of(p.z as int) == cz);
    assert(in_chunk(p) == BlockPos { x: lx, y: p.y, z: lz });
    if all_states_read(open_chunk, chunk_state, world_state, log) || all_read(
        open_chunk,
        chunk_state,
        world_state,
        entity_nbt,
        log,
    ) {
        assert(may_read(open_chunk, chunk_state, world_state, p, log[i].state_id));
        let c = choose|c: Option<C>| #[trigger]
            call_ensures(
                open_chunk,
                (chunk_of(p.x as int) as i32, chunk_of(p.z as int) as i32),
                c,
            ) && may_read_in(chunk_state, world_state, c, p, log[i].state_id);
        assert(call_ensures(open_chunk, (cx, cz), c));
    }
}

/// A block entity that was read is listed as far from the lowest corner as its position lies from
/// it, and its data is what was read with two zero bytes behind the first byte.
pub proof fn law_found_tile_keeps_place_and_data(a: Area, v: Visit)
    requires
        a.wf(),
        a.volume() <= i32::MAX,
        a.holds(v.pos),
        v.nbt is Some,
    ensures
        a.min.x + found_tile(a, v).0.x == v.pos.x,
        a.min.y + found_tile(a, v).0.y == v.pos.y,
        a.min.z + found_tile(a, v).0.z == v.pos.z,
        ({
            let read = v.nbt->0@;
            let kept = found_tile(a, v).1;
            if read.len() == 0 {
                kept.len() == 0
            } else {
                &&& kept.len() == read.len() + 2
                &&& kept[0] == read[0] && kept[1] == 0 && kept[2] == 0
                &&& forall|k: int| 1 <= k < read.len() ==> kept[k + 2] == #[trigger] read[k]
            }
        }),
{
    lemma_extents(a.size_x(), a.size_y(), a.size_z());
}

/// A filling runs row by row: the position that lies so far from the lowest corner has the place that
/// belongs to it.
pub proof fn law_filling_runs_row_by_row(a: Area, state_id: u16, x: int, y: int, z: int)
    requires
        a.wf(),
        0 <= x <= a.max.x - a.min.x,
        0 <= y <= a.max.y - a.min.y,
        0 <= z <= a.max.z - a.min.z,
    ensures
        ({
            let sx = a.max.x - a.min.x + 1;
            let sz = a.max.z - a.min.z + 1;
            let b = filling(a, state_id)[(y * sz + z) * sx + x];
            &&& (y * sz + z) * sx + x < filling(a, state_id).len()
            &&& b.state_id == state_id
            &&& b.pos.x == a.min.x + x
            &&& b.pos.y == a.min.y + y
            &&& b.pos.z == a.min.z + z
        }),
{
    lemma_index_bounds(x, y, z, a.size_x(), a.size_y(), a.size_z());
    lemma_coordinates(x, y, z, a.size_x(), a.size_y(), a.size_z());
}

/// Whether a position is read before another: by its column of chunks from west to east, then from
/// north to south, and in a chunk layer by layer and row by row.
pub open spec fn read_before(p: BlockPos, q: BlockPos) -> bool {
    let (px, pz) = (p.x as int / 16, p.z as int / 16);
    let (qx, qz) = (q.x as int / 16, q.z as int / 16);
    px < qx || (px == qx && (pz < qz || (pz == qz && earlier(
        p.x as int,
        p.y as int,
        p.z as int,
        q.x as int,
        q.y as int,
        q.z as int,
    ))))
}

/// A chunk of a lower rank lies before one of a higher.
proof fn lemma_rank_order(a: Area, p: BlockPos, q: BlockPos)
    requires
        a.wf(),
        a.holds(p),
        a.holds(q),
        rank(a, p) < rank(a, q),
    ensures
        read_before(p, q),
{
    let n = a.chunks_z();
    let u = chunk_of(p.x as int) - chunk_of(a.min.x as int);
    let v = chunk_of(p.z as int) - chunk_of(a.min.z as int);
    let s = chunk_of(q.x as int) - chunk_of(a.min.x as int);
    let t = chunk_of(q.z as int) - chunk_of(a.min.z as int);
    assert(u < s || (u == s && v < t)) by (nonlinear_arith)
        requires
            0 <= v < n,
            0 <= t < n,
            u * n + v < s * n + t,
    ;
}

proof fn lemma_parts_order(a: Area, n: int)
    requires
        a.wf(),
        0 <= n <= a.chunks(),
    ensures
        forall|i: int, j: int|
            0 <= i < j < a.parts(n).len() ==> read_before(
                #[trigger] a.parts(n)[i],
                #[trigger] a.parts(n)[j],
            ),
    decreases n,
{
    if n > 0 {
        let k = n - 1;
        let before = a.parts(k);
        let now = a.parts(n);
        lemma_parts_order(a, k);
        lemma_parts(a, k);
        lemma_part(a, k);
        assert forall|i: int, j: int| 0 <= i < j < now.len() implies read_before(
            #[trigger] now[i],
            #[trigger] now[j],
        ) by {
            if j < before.len() {
                assert(now[i] == before[i] && now[j] == before[j]);
            } else {
                lemma_part_pos(a, k, j - before.len());
                lemma_rank(a, k, j - before.len());
                if i < before.len() {
                    assert(now[i] == before[i]);
                    lemma_rank_order(a, now[i], now[j]);
                } else {
                    lemma_part_pos(a, k, i - before.len());
                    law_places_run_through_positions(
                        i - before.len(),
                        j - before.len(),
                        a.part_x(k),
                        a.part_z(k),
                    );
                }
            }
        }
    }
}

/// A box is read chunk by chunk.
pub proof fn law_box_is_read_chunk_by_chunk(a: Area, i: int, j: int)
    requires
        a.wf(),
        0 <= i < j < a.visits().len(),
    ensures
        read_before(a.visits()[i], a.visits()[j]),
{
    assert(0 <= a.chunks()) by (nonlinear_arith)
        requires
            a.chunks() == chunks_between(a.min.x as int, a.max.x as int) * a.chunks_z(),
            0 <= chunks_between(a.min.x as int, a.max.x as int),
            0 <= a.chunks_z(),
    ;
    lemma_parts_order(a, a.chunks());
}

/// What is to be replaced is found visit by visit, in the order of the visits.
pub proof fn law_matches_are_found_visit_by_visit(
    log: Seq<Visit>,
    v: Visit,
    from_id: u16,
    to_id: u16,
)
    ensures
        matching(Seq::empty(), from_id, to_id) == Seq::<BlockPlacement>::empty(),
        matching(log.push(v), from_id, to_id) == (if v.state_id == from_id {
            matching(log, from_id, to_id).push(BlockPlacement { pos: v.pos, state_id: to_id })
        } else {
            matching(log, from_id, to_id)
        }),
{
    assert(log.push(v).drop_last() =~= log);
    assert(matching(Seq::empty(), from_id, to_id) =~= Seq::<BlockPlacement>::empty());
}

/// Block entities are found visit by visit, in the order of the visits.
pub proof fn law_block_entities_are_found_visit_by_visit(a: Area, log: Seq<Visit>, v: Visit)
    ensures
        found_tiles(a, Seq::empty()) == Seq::<(BlockPos, Seq<u8>)>::empty(),
        found_tiles(a, log.push(v)) == (if v.nbt is Some {
            found_tiles(a, log).push(found_tile(a, v))
        } else {
            found_tiles(a, log)
        }),
{
    assert(log.push(v).drop_last() =~= log);
    assert(found_tiles(a, Seq::empty()) =~= Seq::<(BlockPos, Seq<u8>)>::empty());
}

/// A copy stores what was read row by row: the state of the position that lies so far from the lowest
/// corner stands at the place that belongs to it.
pub proof fn law_copy_stores_row_by_row(a: Area, log: Seq<Visit>, i: int, x: int, y: int, z: int)
    requires
        a.wf(),
        positions(log) == a.visits(),
        0 <= i < log.len(),
        log[i].pos.x == a.min.x + x,
        log[i].pos.y == a.min.y + y,
        log[i].pos.z == a.min.z + z,
    ensures
        ({
            let sx = a.max.x - a.min.x + 1;
            let sz = a.max.z - a.min.z + 1;
            &&& 0 <= x < sx
            &&& 0 <= z < sz
            &&& written(a, log).len() == sx * (a.max.y - a.min.y + 1) * sz
            &&& written(a, log)[(y * sz + z) * sx + x] == log[i].state_id
        }),
{
    law_copy_holds_what_was_read(a, log);
    law_every_position_is_visited_once(a);
    assert(positions(log)[i] == log[i].pos);
    assert(a.visits().contains(log[i].pos));
    assert(a.holds(log[i].pos));
    lemma_index_bounds(x, y, z, a.size_x(), a.size_y(), a.size_z());
}

} // verus!
