//! Putting the regions of a schematic together into one clipboard.
use vstd::prelude::*;
use vstd::string::*;

use crate::clipboard::{placed_tiles, Clipboard, ClipboardView};
use crate::grid::{
    inside, lemma_coordinates, lemma_extents, lemma_index_bounds, lemma_place, x_at, y_at, z_at,
    BlockPos,
};
use crate::placement::{copy_bytes, fits};
use crate::schematic::{index_of, magnitude, Region, Schematic, TileEntity};
use crate::text::{decimal, decimal_i64};

verus! {

/// The largest number of blocks that a clipboard may have.
pub const MAX_CLIPBOARD_BLOCKS: i64 = 67108864;

/// The lowest coordinate of a region along an axis. A negative size runs down from the position.
pub open spec fn low(r: Region, axis: int) -> int {
    if r.size@[axis] < 0 {
        r.position@[axis] + r.size@[axis] + 1
    } else {
        r.position@[axis] as int
    }
}

/// Whether the ends of a region along an axis can be computed in thirty-two bits.
pub open spec fn ends_fit(r: Region, axis: int) -> bool {
    &&& r.size@[axis] > i32::MIN
    &&& r.size@[axis] < 0 ==> r.position@[axis] + r.size@[axis] >= i32::MIN
    &&& low(r, axis) + r.extent(axis) <= i32::MAX
}

/// The lowest coordinate of some regions along an axis.
pub open spec fn lowest(rs: Seq<Region>, axis: int) -> int
    decreases rs.len(),
{
    if rs.len() == 0 {
        i32::MAX as int
    } else {
        let before = lowest(rs.drop_last(), axis);
        if low(rs.last(), axis) < before {
            low(rs.last(), axis)
        } else {
            before
        }
    }
}

/// The highest coordinate of some regions along an axis.
pub open spec fn highest(rs: Seq<Region>, axis: int) -> int
    decreases rs.len(),
{
    if rs.len() == 0 {
        i32::MIN as int
    } else {
        let before = highest(rs.drop_last(), axis);
        let end = low(rs.last(), axis) + rs.last().extent(axis) - 1;
        if end > before {
            end
        } else {
            before
        }
    }
}

/// The extent of the box around some regions along an axis.
pub open spec fn breadth(rs: Seq<Region>, axis: int) -> int {
    highest(rs, axis) - lowest(rs, axis) + 1
}

/// The number of blocks in the box around some regions.
pub open spec fn box_volume(rs: Seq<Region>) -> int {
    breadth(rs, 0) * breadth(rs, 1) * breadth(rs, 2)
}

/// Whether the box around some regions can be computed in machine integers.
pub open spec fn box_fits(rs: Seq<Region>) -> bool {
    &&& forall|k: int|
        0 <= k < rs.len() ==> ends_fit(#[trigger] rs[k], 0) && ends_fit(rs[k], 1) && ends_fit(
            rs[k],
            2,
        )
    &&& breadth(rs, 0) <= i32::MAX
    &&& breadth(rs, 1) <= i32::MAX
    &&& breadth(rs, 2) <= i32::MAX
    &&& box_volume(rs) <= i64::MAX
}

/// The state that a palette gives for an index, 0 where it has none.
pub open spec fn state_of(states: Seq<Option<u16>>, i: u16) -> u16 {
    if i < states.len() {
        match states[i as int] {
            Some(s) => s,
            None => 0,
        }
    } else {
        0
    }
}

/// The state that a region has at a position of the box around all regions, 0 outside the region.
pub open spec fn region_cell(
    r: Region,
    states: Seq<Option<u16>>,
    min: (int, int, int),
    x: int,
    y: int,
    z: int,
) -> u16 {
    let lx = x - (low(r, 0) - min.0);
    let ly = y - (low(r, 1) - min.1);
    let lz = z - (low(r, 2) - min.2);
    if inside(lx, ly, lz, r.extent(0), r.extent(1), r.extent(2)) {
        state_of(states, r.palette_index_at(lx, ly, lz))
    } else {
        0
    }
}

/// The state at a position of the box: that of the last region that has more than air there.
pub open spec fn cell(
    rs: Seq<Region>,
    states: Seq<Seq<Option<u16>>>,
    min: (int, int, int),
    x: int,
    y: int,
    z: int,
) -> u16
    decreases rs.len(),
{
    if rs.len() == 0 {
        0
    } else {
        let s = region_cell(rs.last(), states[rs.len() - 1], min, x, y, z);
        if s != 0 {
            s
        } else {
            cell(rs.drop_last(), states, min, x, y, z)
        }
    }
}

/// The lowest corner of the box around some regions.
pub open spec fn box_min(rs: Seq<Region>) -> (int, int, int) {
    (lowest(rs, 0), lowest(rs, 1), lowest(rs, 2))
}

/// The position of a block entity in the box.
pub open spec fn tile_pos(r: Region, t: TileEntity, min: (int, int, int)) -> BlockPos {
    BlockPos {
        x: (low(r, 0) - min.0 + t.x) as i32,
        y: (low(r, 1) - min.1 + t.y) as i32,
        z: (low(r, 2) - min.2 + t.z) as i32,
    }
}

/// The block entities of a region, at their positions in the box.
pub open spec fn region_tiles(r: Region, min: (int, int, int)) -> Seq<(BlockPos, Seq<u8>)> {
    r.tile_entities@.map_values(|t: TileEntity| (tile_pos(r, t, min), t.raw_nbt@))
}

/// The block entities of some regions, one region after the other.
pub open spec fn box_tiles(rs: Seq<Region>, min: (int, int, int)) -> Seq<(BlockPos, Seq<u8>)>
    decreases rs.len(),
{
    if rs.len() == 0 {
        Seq::empty()
    } else {
        box_tiles(rs.drop_last(), min) + region_tiles(rs.last(), min)
    }
}

/// Whether the position of a block entity in the box fits thirty-two bits.
pub open spec fn tile_fits(r: Region, t: TileEntity, min: (int, int, int)) -> bool {
    &&& fits(low(r, 0) - min.0 + t.x)
    &&& fits(low(r, 1) - min.1 + t.y)
    &&& fits(low(r, 2) - min.2 + t.z)
}

/// Whether the positions of all block entities of a region fit thirty-two bits.
pub open spec fn tiles_fit(r: Region, min: (int, int, int)) -> bool {
    forall|k: int|
        0 <= k < r.tile_entities@.len() ==> tile_fits(r, #[trigger] r.tile_entities@[k], min)
}

/// Whether some regions can be put together in machine integers, with a palette for each.
pub open spec fn assembles(rs: Seq<Region>, states: Seq<Seq<Option<u16>>>) -> bool {
    rs.len() > 0 ==> {
        &&& box_fits(rs)
        &&& 0 < box_volume(rs) <= MAX_CLIPBOARD_BLOCKS ==> {
            &&& states.len() >= rs.len()
            &&& lowest(rs, 0) > i32::MIN
            &&& lowest(rs, 1) > i32::MIN
            &&& lowest(rs, 2) > i32::MIN
            &&& forall|k: int| 0 <= k < rs.len() ==> tiles_fit(#[trigger] rs[k], box_min(rs))
        }
    }
}

/// The clipboard that some regions make up.
pub open spec fn assembled(
    name: Seq<char>,
    rs: Seq<Region>,
    states: Seq<Seq<Option<u16>>>,
) -> Result<ClipboardView, Seq<char>> {
    if rs.len() == 0 {
        Err("Schematic has no regions"@)
    } else if box_volume(rs) <= 0 || box_volume(rs) > MAX_CLIPBOARD_BLOCKS {
        Err("Schematic bounding box too large ("@ + decimal(box_volume(rs)) + " blocks)"@)
    } else {
        let sx = breadth(rs, 0);
        let sz = breadth(rs, 2);
        Ok(
            ClipboardView {
                name,
                blocks: Seq::new(
                    box_volume(rs) as nat,
                    |i: int|
                        cell(rs, states, box_min(rs), x_at(i, sx), y_at(i, sx, sz), z_at(i, sx, sz)),
                ),
                tile_entities: box_tiles(rs, box_min(rs)),
                size_x: sx as i32,
                size_y: breadth(rs, 1) as i32,
                size_z: sz as i32,
                offset: BlockPos {
                    x: -lowest(rs, 0) as i32,
                    y: -lowest(rs, 1) as i32,
                    z: -lowest(rs, 2) as i32,
                },
            },
        )
    }
}

/// The palettes' states.
pub open spec fn maps_view(s: Seq<Vec<Option<u16>>>) -> Seq<Seq<Option<u16>>> {
    s.map_values(|v: Vec<Option<u16>>| v@)
}

/// Every region lies in the box around all.
proof fn lemma_region_in_box(rs: Seq<Region>, axis: int)
    ensures
        forall|k: int|
            0 <= k < rs.len() ==> lowest(rs, axis) <= low(#[trigger] rs[k], axis) && low(
                rs[k],
                axis,
            ) + rs[k].extent(axis) - 1 <= highest(rs, axis),
        rs.len() > 0 ==> breadth(rs, axis) >= 0,
    decreases rs.len(),
{
    if rs.len() > 0 {
        let q = rs.drop_last();
        lemma_region_in_box(q, axis);
        assert forall|k: int| 0 <= k < rs.len() implies lowest(rs, axis) <= low(
            #[trigger] rs[k],
            axis,
        ) && low(rs[k], axis) + rs[k].extent(axis) - 1 <= highest(rs, axis) by {
            if k < q.len() {
                assert(rs[k] == q[k]);
            }
        }
        let l = rs[rs.len() - 1];
        assert(lowest(rs, axis) <= low(l, axis));
        lemma_lowest_reached(rs, axis);
    }
}

/// The lowest coordinate is that of a region, or none is lower than the largest number.
proof fn lemma_lowest_reached(rs: Seq<Region>, axis: int)
    requires
        rs.len() > 0,
    ensures
        highest(rs, axis) >= lowest(rs, axis) - 1,
        lowest(rs, axis) <= i32::MAX,
    decreases rs.len(),
{
    let q = rs.drop_last();
    if q.len() > 0 {
        lemma_lowest_reached(q, axis);
    }
}

/// The lowest coordinate of a region along an axis.
fn low_end(r: &Region, axis: usize) -> (v: i64)
    requires
        axis < 3,
    ensures
        v == low(*r, axis as int),
{
    let p: i64 = r.position[axis] as i64;
    let s: i64 = r.size[axis] as i64;
    if s < 0 {
        p + s + 1
    } else {
        p
    }
}

/// Whether the ends of a region along an axis can be computed in thirty-two bits.
fn can_end(r: &Region, axis: usize) -> (b: bool)
    requires
        axis < 3,
    ensures
        b == ends_fit(*r, axis as int),
{
    let p: i64 = r.position[axis] as i64;
    let s: i64 = r.size[axis] as i64;
    s > i32::MIN as i64 && (s >= 0 || p + s >= i32::MIN as i64) && low_end(r, axis) + magnitude(
        r.size[axis],
    ) <= i32::MAX as i64
}

/// The lowest and highest coordinates of some regions along an axis, if those of each region can
/// be computed in thirty-two bits.
fn ends_along(rs: &Vec<Region>, axis: usize) -> (r: Option<(i64, i64)>)
    requires
        axis < 3,
    ensures
        match r {
            Some((a, b)) => {
                &&& a == lowest(rs@, axis as int)
                &&& b == highest(rs@, axis as int)
                &&& i32::MIN <= a <= i32::MAX
                &&& i32::MIN <= b <= i32::MAX
                &&& forall|k: int| 0 <= k < rs@.len() ==> ends_fit(#[trigger] rs@[k], axis as int)
            },
            None => exists|k: int|
                0 <= k < rs@.len() && !ends_fit(#[trigger] rs@[k], axis as int),
        },
{
    let mut min: i64 = i32::MAX as i64;
    let mut max: i64 = i32::MIN as i64;
    let mut k: usize = 0;
    assert(rs@.take(0) =~= Seq::empty());
    while k < rs.len()
        invariant
            k <= rs@.len(),
            axis < 3,
            min == lowest(rs@.take(k as int), axis as int),
            max == highest(rs@.take(k as int), axis as int),
            i32::MIN <= min <= i32::MAX,
            i32::MIN <= max <= i32::MAX,
            forall|j: int| 0 <= j < k ==> ends_fit(#[trigger] rs@[j], axis as int),
        decreases rs@.len() - k,
    {
        assert(rs@.take(k + 1).drop_last() =~= rs@.take(k as int));
        if !can_end(&rs[k], axis) {
            assert(!ends_fit(rs@[k as int], axis as int));
            return None;
        }
        let a: i64 = low_end(&rs[k], axis);
        let b: i64 = a + magnitude(rs[k].size[axis]) - 1;
        if a < min {
            min = a;
        }
        if b > max {
            max = b;
        }
        k += 1;
    }
    assert(rs@.take(k as int) =~= rs@);
    Some((min, max))
}

/// A product of numbers that are not negative is positive only if all are.
proof fn lemma_positive(a: int, b: int, c: int)
    requires
        0 <= a,
        0 <= b,
        0 <= c,
        0 < a * b * c,
    ensures
        0 < a,
        0 < b,
        0 < c,
{
    assert(0 < a && 0 < b && 0 < c) by (nonlinear_arith)
        requires
            0 <= a,
            0 <= b,
            0 <= c,
            0 < a * b * c,
    ;
}

/// A box that lies in another has no more blocks.
proof fn lemma_smaller_box(ax: int, ay: int, az: int, sx: int, sy: int, sz: int)
    requires
        0 <= ax <= sx,
        0 <= ay <= sy,
        0 <= az <= sz,
    ensures
        0 <= ax * ay * az <= sx * sy * sz,
        0 <= ax * ay <= sx * sy,
{
    assert(0 <= ax * ay <= sx * sy) by (nonlinear_arith)
        requires
            0 <= ax <= sx,
            0 <= ay <= sy,
    ;
    assert(0 <= ax * ay * az <= sx * sy * sz) by (nonlinear_arith)
        requires
            0 <= ax * ay <= sx * sy,
            0 <= az <= sz,
    ;
}

/// Two positions of a box at the same place are the same.
proof fn lemma_same_place(i: int, j: int, sx: int, sy: int, sz: int)
    requires
        0 < sx,
        0 < sy,
        0 < sz,
        0 <= i < sx * sy * sz,
        0 <= j < sx * sy * sz,
        x_at(i, sx) == x_at(j, sx),
        y_at(i, sx, sz) == y_at(j, sx, sz),
        z_at(i, sx, sz) == z_at(j, sx, sz),
    ensures
        i == j,
{
    lemma_place(i, sx, sy, sz);
    lemma_place(j, sx, sy, sz);
}

/// The state that a region whose lowest corner lies at `base` has at a place of a box of `sx` by
/// `sz` columns.
spec fn cell_at(
    r: Region,
    states: Seq<Option<u16>>,
    base: (int, int, int),
    i: int,
    sx: int,
    sz: int,
) -> u16 {
    region_cell(
        r,
        states,
        (low(r, 0) - base.0, low(r, 1) - base.1, low(r, 2) - base.2),
        x_at(i, sx),
        y_at(i, sx, sz),
        z_at(i, sx, sz),
    )
}

/// The place in a region whose lowest corner lies at `base` of a place of a box.
spec fn local_place(r: Region, base: (int, int, int), i: int, sx: int, sz: int) -> int {
    index_of(
        x_at(i, sx) - base.0,
        y_at(i, sx, sz) - base.1,
        z_at(i, sx, sz) - base.2,
        r.extent(0),
        r.extent(2),
    )
}

/// Writes the blocks of a region that are not air into a box, the region's lowest corner lying at
/// (`bx`, `by`, `bz`).
fn fill_region(
    blocks: &mut Vec<u16>,
    r: &Region,
    states: &Vec<Option<u16>>,
    bx: i32,
    by: i32,
    bz: i32,
    sx: i32,
    sy: i32,
    sz: i32,
)
    requires
        0 < sx,
        0 < sy,
        0 < sz,
        old(blocks)@.len() == sx * sy * sz,
        sx * sy * sz <= MAX_CLIPBOARD_BLOCKS,
        r.sized(),
        0 <= bx,
        bx + r.extent(0) <= sx,
        0 <= by,
        by + r.extent(1) <= sy,
        0 <= bz,
        bz + r.extent(2) <= sz,
    ensures
        final(blocks)@.len() == old(blocks)@.len(),
        forall|i: int|
            0 <= i < old(blocks)@.len() ==> #[trigger] final(blocks)@[i] == ({
                let c = cell_at(
                    *r,
                    states@,
                    (bx as int, by as int, bz as int),
                    i,
                    sx as int,
                    sz as int,
                );
                if c != 0 {
                    c
                } else {
                    old(blocks)@[i]
                }
            }),
{
    let ghost before = blocks@;
    let ghost base = (bx as int, by as int, bz as int);
    let ghost gx = sx as int;
    let ghost gy = sy as int;
    let ghost gz = sz as int;
    let size = r.abs_size();
    let ax: i32 = size[0];
    let ay: i32 = size[1];
    let az: i32 = size[2];
    proof {
        lemma_smaller_box(ax as int, ay as int, az as int, gx, gy, gz);
        lemma_extents(gx, gy, gz);
    }
    let n: i32 = ax * ay * az;
    let mut j: i32 = 0;
    proof {
        assert forall|i: int| 0 <= i < before.len() && cell_at(*r, states@, base, i, gx, gz)
            != 0 implies local_place(*r, base, i, gx, gz) >= 0 by {
            lemma_index_bounds(
                x_at(i, gx) - bx,
                y_at(i, gx, gz) - by,
                z_at(i, gx, gz) - bz,
                ax as int,
                ay as int,
                az as int,
            );
        }
    }
    while j < n
        invariant
            0 <= j <= n,
            n == ax * ay * az,
            n <= before.len(),
            gx == sx && gy == sy && gz == sz,
            0 < sx && 0 < sy && 0 < sz,
            before.len() == gx * gy * gz,
            before.len() <= MAX_CLIPBOARD_BLOCKS,
            r.sized(),
            ax == r.extent(0) && ay == r.extent(1) && az == r.extent(2),
            base == (bx as int, by as int, bz as int),
            0 <= bx && bx + ax <= sx,
            0 <= by && by + ay <= sy,
            0 <= bz && bz + az <= sz,
            blocks@.len() == before.len(),
            forall|i: int|
                0 <= i < before.len() ==> #[trigger] blocks@[i] == ({
                    let c = cell_at(*r, states@, base, i, gx, gz);
                    if c != 0 && local_place(*r, base, i, gx, gz) < j {
                        c
                    } else {
                        before[i]
                    }
                }),
        decreases n - j,
    {
        proof {
            lemma_positive(ax as int, ay as int, az as int);
            lemma_place(j as int, ax as int, ay as int, az as int);
        }
        let x: i32 = j % ax;
        let q: i32 = j / ax;
        let z: i32 = q % az;
        let y: i32 = q / az;
        proof {
            lemma_index_bounds(x as int, y as int, z as int, ax as int, ay as int, az as int);
            lemma_index_bounds(bx + x, by + y, bz + z, gx, gy, gz);
            lemma_coordinates(bx + x, by + y, bz + z, gx, gy, gz);
        }
        let pidx: usize = r.get_palette_index(x, y, z) as usize;
        let state: u16 = if pidx < states.len() {
            match states[pidx] {
                Some(s) => s,
                None => 0,
            }
        } else {
            0
        };
        let ghost g = index_of(bx + x, by + y, bz + z, gx, gz);
        let ghost prior = blocks@;
        assert(cell_at(*r, states@, base, g, gx, gz) == state);
        assert(local_place(*r, base, g, gx, gz) == j);
        if state != 0 {
            let cx: i32 = bx + x;
            let cy: i32 = by + y;
            let cz: i32 = bz + z;
            let idx: usize = (cy * sx * sz + cz * sx + cx) as usize;
            blocks.set(idx, state);
        }
        proof {
            assert forall|i: int| 0 <= i < before.len() implies #[trigger] blocks@[i] == ({
                let c = cell_at(*r, states@, base, i, gx, gz);
                if c != 0 && local_place(*r, base, i, gx, gz) < j + 1 {
                    c
                } else {
                    before[i]
                }
            }) by {
                assert(i != g ==> blocks@[i] == prior[i]);
                if i != g && cell_at(*r, states@, base, i, gx, gz) != 0 && local_place(
                    *r,
                    base,
                    i,
                    gx,
                    gz,
                ) == j {
                    let lx = x_at(i, gx) - bx;
                    let ly = y_at(i, gx, gz) - by;
                    let lz = z_at(i, gx, gz) - bz;
                    lemma_coordinates(lx, ly, lz, ax as int, ay as int, az as int);
                    lemma_same_place(i, g, gx, gy, gz);
                }
            }
        }
        j += 1;
    }
    proof {
        assert forall|i: int| 0 <= i < before.len() && cell_at(*r, states@, base, i, gx, gz)
            != 0 implies local_place(*r, base, i, gx, gz) < n by {
            lemma_index_bounds(
                x_at(i, gx) - bx,
                y_at(i, gx, gz) - by,
                z_at(i, gx, gz) - bz,
                ax as int,
                ay as int,
                az as int,
            );
        }
    }
}

/// Puts the block entities of a region behind others, at their positions in the box, and tells
/// whether all positions fit thirty-two bits.
fn add_tiles(
    tiles: &mut Vec<(BlockPos, Vec<u8>)>,
    r: &Region,
    min: [i64; 3],
) -> (ok: bool)
    requires
        forall|a: int| 0 <= a < 3 ==> i32::MIN <= #[trigger] min@[a] <= i32::MAX,
    ensures
        ok == tiles_fit(*r, (min@[0] as int, min@[1] as int, min@[2] as int)),
        ok ==> placed_tiles(final(tiles)@) == placed_tiles(old(tiles)@) + region_tiles(
            *r,
            (min@[0] as int, min@[1] as int, min@[2] as int),
        ),
{
    let ghost m = (min@[0] as int, min@[1] as int, min@[2] as int);
    let ghost before = placed_tiles(tiles@);
    assert(i32::MIN <= min@[0] <= i32::MAX && i32::MIN <= min@[1] <= i32::MAX && i32::MIN <= min@[2]
        <= i32::MAX);
    let bx: i64 = low_end(r, 0) - min[0];
    let by: i64 = low_end(r, 1) - min[1];
    let bz: i64 = low_end(r, 2) - min[2];
    let mut k: usize = 0;
    assert(before =~= before + region_tiles(*r, m).take(0));
    while k < r.tile_entities.len()
        invariant
            k <= r.tile_entities@.len(),
            m == (min@[0] as int, min@[1] as int, min@[2] as int),
            bx == low(*r, 0) - m.0 && by == low(*r, 1) - m.1 && bz == low(*r, 2) - m.2,
            -0x4_0000_0000 <= bx <= 0x4_0000_0000,
            -0x4_0000_0000 <= by <= 0x4_0000_0000,
            -0x4_0000_0000 <= bz <= 0x4_0000_0000,
            placed_tiles(tiles@) == before + region_tiles(*r, m).take(k as int),
            forall|j: int|
                0 <= j < k ==> tile_fits(*r, #[trigger] r.tile_entities@[j], m),
        decreases r.tile_entities@.len() - k,
    {
        let t = &r.tile_entities[k];
        let x: i64 = bx + t.x as i64;
        let y: i64 = by + t.y as i64;
        let z: i64 = bz + t.z as i64;
        if !(fits_i32(x) && fits_i32(y) && fits_i32(z)) {
            assert(!tile_fits(*r, r.tile_entities@[k as int], m));
            return false;
        }
        let pos = BlockPos { x: x as i32, y: y as i32, z: z as i32 };
        let nbt = copy_bytes(&t.raw_nbt);
        let ghost prior = placed_tiles(tiles@);
        let ghost e = (pos, nbt@);
        tiles.push((pos, nbt));
        assert(placed_tiles(tiles@) =~= prior.push(e));
        assert(region_tiles(*r, m)[k as int] == e);
        assert(region_tiles(*r, m).take(k + 1) =~= region_tiles(*r, m).take(k as int).push(e));
        assert(prior.push(e) =~= before + region_tiles(*r, m).take(k + 1));
        k += 1;
    }
    assert(region_tiles(*r, m).take(k as int) =~= region_tiles(*r, m));
    true
}

/// Whether a number fits thirty-two bits.
pub fn fits_i32(v: i64) -> (r: bool)
    ensures
        r == fits(v as int),
{
    v >= i32::MIN as i64 && v <= i32::MAX as i64
}

/// The product of three numbers that are not negative and fit thirty-two bits, if it fits
/// sixty-four.
fn volume(a: i64, b: i64, c: i64) -> (r: Option<i64>)
    requires
        0 <= a <= i32::MAX,
        0 <= b <= i32::MAX,
        0 <= c <= i32::MAX,
    ensures
        match r {
            Some(v) => v == a * b * c,
            None => a * b * c > i64::MAX,
        },
{
    proof {
        assert(0 <= a * b <= 0x7fff_ffff * 0x7fff_ffff) by (nonlinear_arith)
            requires
                0 <= a <= 0x7fff_ffff,
                0 <= b <= 0x7fff_ffff,
        ;
        assert(0 <= a * b * c) by (nonlinear_arith)
            requires
                0 <= a * b,
                0 <= c,
        ;
    }
    (a * b).checked_mul(c)
}

/// The clipboard that the regions of a schematic make up, given the states of each region's
/// palette. There is none if a step leaves the range of machine integers or a palette is missing.
pub fn try_schematic_to_clipboard(
    name: String,
    schematic: &Schematic,
    palette_map: &Vec<Vec<Option<u16>>>,
) -> (r: Option<Result<Clipboard, String>>)
    ensures
        r is Some == assembles(schematic.regions@, maps_view(palette_map@)),
        r matches Some(v) ==> match (
            v,
            assembled(name@, schematic.regions@, maps_view(palette_map@)),
        ) {
            (Ok(c), Ok(s)) => c@ == s && s.wf(),
            (Err(e), Err(m)) => e@ == m,
            _ => false,
        },
{
    let ghost rs = schematic.regions@;
    let ghost states = maps_view(palette_map@);
    let n: usize = schematic.regions.len();
    if n == 0 {
        return Some(Err("Schematic has no regions".to_string()));
    }
    let ends = (
        ends_along(&schematic.regions, 0),
        ends_along(&schematic.regions, 1),
        ends_along(&schematic.regions, 2),
    );
    let ((x0, x1), (y0, y1), (z0, z1)) = match ends {
        (Some(a), Some(b), Some(c)) => (a, b, c),
        _ => return None,
    };
    proof {
        lemma_region_in_box(rs, 0);
        lemma_region_in_box(rs, 1);
        lemma_region_in_box(rs, 2);
    }
    let wx: i64 = x1 - x0 + 1;
    let wy: i64 = y1 - y0 + 1;
    let wz: i64 = z1 - z0 + 1;
    if wx > i32::MAX as i64 || wy > i32::MAX as i64 || wz > i32::MAX as i64 {
        return None;
    }
    let vol: i64 = match volume(wx, wy, wz) {
        Some(v) => v,
        None => return None,
    };
    assert(vol == box_volume(rs));
    assert(box_fits(rs));
    if vol <= 0 || vol > MAX_CLIPBOARD_BLOCKS {
        let mut e = "Schematic bounding box too large (".to_string();
        e.append(decimal_i64(vol).as_str());
        e.append(" blocks)");
        return Some(Err(e));
    }
    if palette_map.len() < n || x0 <= i32::MIN as i64 || y0 <= i32::MIN as i64 || z0
        <= i32::MIN as i64 {
        return None;
    }
    let sx: i32 = wx as i32;
    let sy: i32 = wy as i32;
    let sz: i32 = wz as i32;
    let ghost min = box_min(rs);
    let ghost gx = sx as int;
    let ghost gz = sz as int;
    proof {
        lemma_positive(sx as int, sy as int, sz as int);
    }
    let mut blocks: Vec<u16> = vec![0u16; vol as usize];
    let mut tile_entities: Vec<(BlockPos, Vec<u8>)> = Vec::new();
    let mut k: usize = 0;
    assert(rs.take(0) =~= Seq::empty());
    assert(placed_tiles(tile_entities@) =~= Seq::empty());
    while k < n
        invariant
            k <= n,
            n == rs.len(),
            rs == schematic.regions@,
            states == maps_view(palette_map@),
            states.len() >= n,
            box_fits(rs),
            min == box_min(rs),
            min == (x0 as int, y0 as int, z0 as int),
            i32::MIN <= x0 <= i32::MAX,
            i32::MIN <= y0 <= i32::MAX,
            i32::MIN <= z0 <= i32::MAX,
            0 < sx && 0 < sy && 0 < sz,
            sx == breadth(rs, 0) && sy == breadth(rs, 1) && sz == breadth(rs, 2),
            gx == sx && gz == sz,
            blocks@.len() == sx * sy * sz,
            blocks@.len() <= MAX_CLIPBOARD_BLOCKS,
            0 < box_volume(rs) <= MAX_CLIPBOARD_BLOCKS,
            forall|i: int|
                0 <= i < blocks@.len() ==> #[trigger] blocks@[i] == cell(
                    rs.take(k as int),
                    states,
                    min,
                    x_at(i, gx),
                    y_at(i, gx, gz),
                    z_at(i, gx, gz),
                ),
            placed_tiles(tile_entities@) == box_tiles(rs.take(k as int), min),
            forall|j: int| 0 <= j < k ==> tiles_fit(#[trigger] rs[j], min),
        decreases n - k,
    {
        let r = &schematic.regions[k];
        proof {
            assert(rs.take(k + 1).drop_last() =~= rs.take(k as int));
            assert(ends_fit(rs[k as int], 0) && ends_fit(rs[k as int], 1) && ends_fit(
                rs[k as int],
                2,
            ));
            lemma_region_in_box(rs, 0);
            lemma_region_in_box(rs, 1);
            lemma_region_in_box(rs, 2);
            assert(low(rs[k as int], 0) - x0 >= 0);
            assert(states[k as int] == palette_map@[k as int]@);
        }
        let bx: i32 = (low_end(r, 0) - x0) as i32;
        let by: i32 = (low_end(r, 1) - y0) as i32;
        let bz: i32 = (low_end(r, 2) - z0) as i32;
        let ghost before = blocks@;
        fill_region(&mut blocks, r, &palette_map[k], bx, by, bz, sx, sy, sz);
        assert forall|i: int| 0 <= i < blocks@.len() implies #[trigger] blocks@[i] == cell(
            rs.take(k + 1),
            states,
            min,
            x_at(i, gx),
            y_at(i, gx, gz),
            z_at(i, gx, gz),
        ) by {
            assert(before[i] == cell(
                rs.take(k as int),
                states,
                min,
                x_at(i, gx),
                y_at(i, gx, gz),
                z_at(i, gx, gz),
            ));
        }
        if !add_tiles(&mut tile_entities, r, [x0, y0, z0]) {
            assert(!tiles_fit(rs[k as int], min));
            return None;
        }
        k += 1;
    }
    assert(rs.take(n as int) =~= rs);
    let offset = BlockPos { x: -x0 as i32, y: -y0 as i32, z: -z0 as i32 };
    let clip = Clipboard {
        name,
        blocks,
        tile_entities,
        size_x: sx,
        size_y: sy,
        size_z: sz,
        offset,
    };
    assert(clip@.blocks =~= assembled(clip.name@, rs, states)->Ok_0.blocks);
    Some(Ok(clip))
}

/// The clipboard that the regions of a schematic make up, given the states of each region's
/// palette.
pub fn schematic_to_clipboard(
    name: String,
    schematic: &Schematic,
    palette_map: &Vec<Vec<Option<u16>>>,
) -> (r: Result<Clipboard, String>)
    requires
        assembles(schematic.regions@, maps_view(palette_map@)),
    ensures
        match (r, assembled(name@, schematic.regions@, maps_view(palette_map@))) {
            (Ok(c), Ok(s)) => c@ == s && s.wf(),
            (Err(e), Err(m)) => e@ == m,
            _ => false,
        },
{
    match try_schematic_to_clipboard(name, schematic, palette_map) {
        Some(r) => r,
        None => Err(String::new()),
    }
}

} // verus!
