//! Places of blocks in a box, where x runs fastest, then z, then y.
use vstd::arithmetic::div_mod::{
    lemma_div_is_ordered, lemma_fundamental_div_mod, lemma_fundamental_div_mod_converse,
};
use vstd::prelude::*;

use crate::schematic::index_of;

verus! {

/// The position of a block in the world, or relative to a corner.
#[derive(Clone, Copy, Debug, PartialEq, Eq, Structural)]
pub struct BlockPos {
    pub x: i32,
    pub y: i32,
    pub z: i32,
}

/// The x coordinate of the block at a place.
pub open spec fn x_at(i: int, sx: int) -> int {
    i % sx
}

/// The y coordinate of the block at a place.
pub open spec fn y_at(i: int, sx: int, sz: int) -> int {
    i / sx / sz
}

/// The z coordinate of the block at a place.
pub open spec fn z_at(i: int, sx: int, sz: int) -> int {
    i / sx % sz
}

/// Whether a position lies in a box.
pub open spec fn inside(x: int, y: int, z: int, sx: int, sy: int, sz: int) -> bool {
    0 <= x < sx && 0 <= y < sy && 0 <= z < sz
}

/// The place of a block and its steps lie between zero and the number of blocks.
pub proof fn lemma_index_bounds(x: int, y: int, z: int, sx: int, sy: int, sz: int)
    requires
        inside(x, y, z, sx, sy, sz),
    ensures
        0 <= y * sx <= y * sx * sz <= y * sx * sz + z * sx <= index_of(x, y, z, sx, sz),
        0 <= z * sx,
        index_of(x, y, z, sx, sz) < sx * sy * sz,
        index_of(x, y, z, sx, sz) == (y * sz + z) * sx + x,
{
    assert(index_of(x, y, z, sx, sz) == (y * sz + z) * sx + x) by (nonlinear_arith)
        requires
            index_of(x, y, z, sx, sz) == y * sx * sz + z * sx + x,
    ;
    assert(0 <= y * sx && 0 <= z * sx) by (nonlinear_arith)
        requires
            0 <= y,
            0 < sx,
            0 <= z,
    ;
    assert(y * sx <= y * sx * sz) by (nonlinear_arith)
        requires
            0 <= y * sx,
            1 <= sz,
    ;
    assert(y * sz + z + 1 <= sy * sz) by (nonlinear_arith)
        requires
            y + 1 <= sy,
            z + 1 <= sz,
            0 < sz,
    ;
    assert((y * sz + z) * sx + sx <= sx * sy * sz) by (nonlinear_arith)
        requires
            y * sz + z + 1 <= sy * sz,
            0 < sx,
    ;
}

/// A place tells the coordinates that make it up.
pub proof fn lemma_coordinates(x: int, y: int, z: int, sx: int, sy: int, sz: int)
    requires
        inside(x, y, z, sx, sy, sz),
    ensures
        x_at(index_of(x, y, z, sx, sz), sx) == x,
        y_at(index_of(x, y, z, sx, sz), sx, sz) == y,
        z_at(index_of(x, y, z, sx, sz), sx, sz) == z,
{
    lemma_index_bounds(x, y, z, sx, sy, sz);
    lemma_fundamental_div_mod_converse(index_of(x, y, z, sx, sz), sx, y * sz + z, x);
    lemma_fundamental_div_mod_converse(y * sz + z, sz, y, z);
}

/// The coordinates of a place lie in the box and make it up.
pub proof fn lemma_place(i: int, sx: int, sy: int, sz: int)
    requires
        0 < sx,
        0 < sy,
        0 < sz,
        0 <= i < sx * sy * sz,
    ensures
        inside(x_at(i, sx), y_at(i, sx, sz), z_at(i, sx, sz), sx, sy, sz),
        index_of(x_at(i, sx), y_at(i, sx, sz), z_at(i, sx, sz), sx, sz) == i,
{
    let q = i / sx;
    let y = y_at(i, sx, sz);
    let z = z_at(i, sx, sz);
    lemma_fundamental_div_mod(i, sx);
    lemma_fundamental_div_mod(q, sz);
    assert(0 <= q < sy * sz) by (nonlinear_arith)
        requires
            0 < sx,
            0 <= i < sx * sy * sz,
            i == sx * q + i % sx,
            0 <= i % sx < sx,
    ;
    assert(0 <= y < sy) by (nonlinear_arith)
        requires
            0 < sz,
            0 <= q < sy * sz,
            q == sz * y + z,
            0 <= z < sz,
    ;
    assert(index_of(x_at(i, sx), y, z, sx, sz) == i) by (nonlinear_arith)
        requires
            index_of(x_at(i, sx), y, z, sx, sz) == y * sx * sz + z * sx + x_at(i, sx),
            i == sx * q + x_at(i, sx),
            q == sz * y + z,
    ;
}

/// The products that make up a number of blocks do not exceed it.
pub proof fn lemma_extents(sx: int, sy: int, sz: int)
    requires
        0 < sx,
        0 < sy,
        0 < sz,
    ensures
        sx <= sx * sy * sz,
        sy <= sx * sy * sz,
        sz <= sx * sy * sz,
        sx * sy <= sx * sy * sz,
        sx * sz <= sx * sy * sz,
        sx * sy * sz == sz * sy * sx,
        sx * sy * sz == sx * sz * sy,
{
    assert(0 < sx * sy && sx <= sx * sy && sy <= sx * sy) by (nonlinear_arith)
        requires
            0 < sx,
            0 < sy,
    ;
    assert(sx * sy <= sx * sy * sz && sz <= sx * sy * sz) by (nonlinear_arith)
        requires
            0 < sx * sy,
            0 < sz,
    ;
    assert(sx * sz <= sx * sz * sy && sx * sz * sy == sx * sy * sz) by (nonlinear_arith)
        requires
            0 < sx,
            0 < sz,
            0 < sy,
    ;
    assert(sx * sy * sz == sz * sy * sx) by (nonlinear_arith);
}

/// Sequences that agree at every position of a box are equal.
pub proof fn lemma_same_cells<T>(a: Seq<T>, b: Seq<T>, sx: int, sy: int, sz: int)
    requires
        0 < sx,
        0 < sy,
        0 < sz,
        a.len() == sx * sy * sz,
        b.len() == sx * sy * sz,
        forall|x: int, y: int, z: int|
            inside(x, y, z, sx, sy, sz) ==> a[#[trigger] index_of(x, y, z, sx, sz)] == b[index_of(
                x,
                y,
                z,
                sx,
                sz,
            )],
    ensures
        a == b,
{
    assert forall|i: int| 0 <= i < a.len() implies a[i] == b[i] by {
        lemma_place(i, sx, sy, sz);
    }
    assert(a =~= b);
}

/// Whether a position comes before another where x runs fastest, then z, then y.
pub open spec fn earlier(x: int, y: int, z: int, ox: int, oy: int, oz: int) -> bool {
    y < oy || (y == oy && (z < oz || (z == oz && x < ox)))
}

/// Places run through the positions in their order.
pub proof fn law_places_run_through_positions(i: int, j: int, sx: int, sz: int)
    requires
        0 < sx,
        0 < sz,
        0 <= i < j,
    ensures
        earlier(
            x_at(i, sx),
            y_at(i, sx, sz),
            z_at(i, sx, sz),
            x_at(j, sx),
            y_at(j, sx, sz),
            z_at(j, sx, sz),
        ),
{
    lemma_div_is_ordered(i, j, sx);
    lemma_div_is_ordered(i / sx, j / sx, sz);
    lemma_fundamental_div_mod(i, sx);
    lemma_fundamental_div_mod(j, sx);
    lemma_fundamental_div_mod(i / sx, sz);
    lemma_fundamental_div_mod(j / sx, sz);
}

} // verus!
