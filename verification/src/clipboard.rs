//! The clipboard: a box of blocks that can be turned, mirrored and queued for placing.
use vstd::prelude::*;
use vstd::string::*;

use crate::block_state::{
    becomes, flip_block_state, mirroring, rotate_block_state, turning, FlipAxis,
};
use crate::grid::{
    inside, lemma_extents, lemma_index_bounds, lemma_place, x_at, y_at, z_at, BlockPos,
};
use crate::schematic::{index_of, PaletteView};

verus! {

/// A box of blocks with its block entities.
#[derive(Debug)]
pub struct Clipboard {
    pub name: String,
    /// One block state per position, in YZX order; 0 is air.
    pub blocks: Vec<u16>,
    /// Positions relative to the lowest corner, and the data as a file of NBT.
    pub tile_entities: Vec<(BlockPos, Vec<u8>)>,
    pub size_x: i32,
    pub size_y: i32,
    pub size_z: i32,
    /// Where the origin of the schematic lies, seen from the lowest corner.
    pub offset: BlockPos,
}

/// What a clipboard holds.
pub struct ClipboardView {
    pub name: Seq<char>,
    pub blocks: Seq<u16>,
    pub tile_entities: Seq<(BlockPos, Seq<u8>)>,
    pub size_x: i32,
    pub size_y: i32,
    pub size_z: i32,
    pub offset: BlockPos,
}

/// The positions and data of block entities.
pub open spec fn placed_tiles(s: Seq<(BlockPos, Vec<u8>)>) -> Seq<(BlockPos, Seq<u8>)> {
    s.map_values(|e: (BlockPos, Vec<u8>)| (e.0, e.1@))
}

impl View for Clipboard {
    type V = ClipboardView;

    open spec fn view(&self) -> ClipboardView {
        ClipboardView {
            name: self.name@,
            blocks: self.blocks@,
            tile_entities: placed_tiles(self.tile_entities@),
            size_x: self.size_x,
            size_y: self.size_y,
            size_z: self.size_z,
            offset: self.offset,
        }
    }
}

impl ClipboardView {
    /// The box is not empty, there is a block for every position, and places fit thirty-two bits.
    pub open spec fn wf(self) -> bool {
        &&& 0 < self.size_x
        &&& 0 < self.size_y
        &&& 0 < self.size_z
        &&& self.blocks.len() == self.size_x * self.size_y * self.size_z
        &&& self.blocks.len() <= i32::MAX
    }

    /// Whether a position lies in the box.
    pub open spec fn covers(self, x: int, y: int, z: int) -> bool {
        inside(x, y, z, self.size_x as int, self.size_y as int, self.size_z as int)
    }

    /// The place of a position among the blocks.
    pub open spec fn place(self, x: int, y: int, z: int) -> int {
        index_of(x, y, z, self.size_x as int, self.size_z as int)
    }

    /// The block at a position.
    pub open spec fn at(self, x: int, y: int, z: int) -> u16 {
        self.blocks[self.place(x, y, z)]
    }
}

/// A turn around the vertical axis, clockwise seen from above, or a mirroring.
#[derive(Clone, Copy, Debug, PartialEq, Eq, Structural)]
pub enum Motion {
    Quarter,
    Half,
    ThreeQuarters,
    MirrorX,
    MirrorZ,
}

impl Motion {
    /// The motion that undoes this one.
    pub open spec fn reverse(self) -> Motion {
        match self {
            Motion::Quarter => Motion::ThreeQuarters,
            Motion::ThreeQuarters => Motion::Quarter,
            m => m,
        }
    }

    /// The horizontal extents of a box after the motion.
    pub open spec fn extents<T>(self, sx: T, sz: T) -> (T, T) {
        match self {
            Motion::Quarter => (sz, sx),
            Motion::ThreeQuarters => (sz, sx),
            _ => (sx, sz),
        }
    }

    /// Where a column of a box comes to lie.
    pub open spec fn carry(self, x: int, z: int, sx: int, sz: int) -> (int, int) {
        match self {
            Motion::Quarter => (sz - 1 - z, x),
            Motion::Half => (sx - 1 - x, sz - 1 - z),
            Motion::ThreeQuarters => (z, sx - 1 - x),
            Motion::MirrorX => (sx - 1 - x, z),
            Motion::MirrorZ => (x, sz - 1 - z),
        }
    }

    /// Whether the place where a position comes to lie has coordinates of thirty-two bits.
    pub open spec fn carries(self, p: BlockPos, sx: int, sz: int) -> bool {
        let (x, z) = self.carry(p.x as int, p.z as int, sx, sz);
        i32::MIN <= x <= i32::MAX && i32::MIN <= z <= i32::MAX
    }

    /// Where a position comes to lie.
    pub open spec fn carry_pos(self, p: BlockPos, sx: int, sz: int) -> BlockPos {
        let (x, z) = self.carry(p.x as int, p.z as int, sx, sz);
        BlockPos { x: x as i32, y: p.y, z: z as i32 }
    }

    /// The place from which the block at a place comes.
    pub open spec fn source(self, i: int, sx: int, sz: int) -> int {
        let (nx, nz) = self.extents(sx, sz);
        let (x, z) = self.reverse().carry(x_at(i, nx), z_at(i, nx, nz), nx, nz);
        index_of(x, y_at(i, nx, nz), z, sx, sz)
    }
}

/// A clipboard after a motion in which the blocks take new states, given by their old places.
pub open spec fn moved(c: ClipboardView, m: Motion, states: Seq<u16>) -> ClipboardView {
    let sx = c.size_x as int;
    let sz = c.size_z as int;
    ClipboardView {
        name: c.name,
        blocks: Seq::new(c.blocks.len(), |i: int| states[m.source(i, sx, sz)]),
        tile_entities: c.tile_entities.map_values(
            |e: (BlockPos, Seq<u8>)| (m.carry_pos(e.0, sx, sz), e.1),
        ),
        size_x: m.extents(c.size_x, c.size_z).0,
        size_y: c.size_y,
        size_z: m.extents(c.size_x, c.size_z).1,
        offset: m.carry_pos(c.offset, sx, sz),
    }
}

/// Whether every position that a motion carries along comes to lie at coordinates of thirty-two
/// bits.
pub open spec fn movable(c: ClipboardView, m: Motion) -> bool {
    &&& m.carries(c.offset, c.size_x as int, c.size_z as int)
    &&& forall|k: int|
        0 <= k < c.tile_entities.len() ==> m.carries(
            (#[trigger] c.tile_entities[k]).0,
            c.size_x as int,
            c.size_z as int,
        )
}

/// A place in the box after a motion has its source in the box before it.
pub proof fn lemma_source(c: ClipboardView, m: Motion, i: int)
    requires
        c.wf(),
        0 <= i < c.blocks.len(),
    ensures
        0 <= m.source(i, c.size_x as int, c.size_z as int) < c.blocks.len(),
        ({
            let (nx, nz) = m.extents(c.size_x as int, c.size_z as int);
            let (x, z) = m.reverse().carry(x_at(i, nx), z_at(i, nx, nz), nx, nz);
            inside(x_at(i, nx), y_at(i, nx, nz), z_at(i, nx, nz), nx, c.size_y as int, nz)
                && c.covers(x, y_at(i, nx, nz), z)
        }),
{
    let sx = c.size_x as int;
    let sy = c.size_y as int;
    let sz = c.size_z as int;
    let (nx, nz) = m.extents(sx, sz);
    lemma_extents(sx, sy, sz);
    lemma_place(i, nx, sy, nz);
    let (x, z) = m.reverse().carry(x_at(i, nx), z_at(i, nx, nz), nx, nz);
    lemma_index_bounds(x, y_at(i, nx, nz), z, sx, sy, sz);
}

/// Where a position comes to lie.
fn carry_pos(m: Motion, p: BlockPos, sx: i32, sz: i32) -> (r: BlockPos)
    requires
        0 < sx,
        0 < sz,
        m.carries(p, sx as int, sz as int),
    ensures
        r == m.carry_pos(p, sx as int, sz as int),
{
    match m {
        Motion::Quarter => BlockPos { x: sz - 1 - p.z, y: p.y, z: p.x },
        Motion::Half => BlockPos { x: sx - 1 - p.x, y: p.y, z: sz - 1 - p.z },
        Motion::ThreeQuarters => BlockPos { x: p.z, y: p.y, z: sx - 1 - p.x },
        Motion::MirrorX => BlockPos { x: sx - 1 - p.x, y: p.y, z: p.z },
        Motion::MirrorZ => BlockPos { x: p.x, y: p.y, z: sz - 1 - p.z },
    }
}

/// Moves a clipboard, its blocks taking new states, given by their old places.
pub fn move_clipboard(clip: &mut Clipboard, m: Motion, states: &Vec<u16>)
    requires
        old(clip)@.wf(),
        movable(old(clip)@, m),
        states@.len() == old(clip)@.blocks.len(),
    ensures
        final(clip)@ == moved(old(clip)@, m, states@),
        final(clip)@.wf(),
{
    let ghost c = clip@;
    let sx: i32 = clip.size_x;
    let sy: i32 = clip.size_y;
    let sz: i32 = clip.size_z;
    let (nx, nz): (i32, i32) = match m {
        Motion::Quarter => (sz, sx),
        Motion::ThreeQuarters => (sz, sx),
        _ => (sx, sz),
    };
    let n: usize = clip.blocks.len();
    proof {
        lemma_extents(sx as int, sy as int, sz as int);
    }
    let mut blocks: Vec<u16> = Vec::with_capacity(n);
    let mut i: usize = 0;
    while i < n
        invariant
            i <= n,
            n == c.blocks.len(),
            n == states@.len(),
            c.wf(),
            sx == c.size_x,
            sy == c.size_y,
            sz == c.size_z,
            (nx as int, nz as int) == m.extents(sx as int, sz as int),
            blocks@.len() == i,
            forall|k: int|
                0 <= k < i ==> #[trigger] blocks@[k] == states@[m.source(k, sx as int, sz as int)],
        decreases n - i,
    {
        let p: i32 = i as i32;
        let x: i32 = p % nx;
        let q: i32 = p / nx;
        let z: i32 = q % nz;
        let y: i32 = q / nz;
        proof {
            lemma_source(c, m, i as int);
        }
        let (fx, fz): (i32, i32) = match m {
            Motion::Quarter => (z, nx - 1 - x),
            Motion::Half => (nx - 1 - x, nz - 1 - z),
            Motion::ThreeQuarters => (nz - 1 - z, x),
            Motion::MirrorX => (nx - 1 - x, z),
            Motion::MirrorZ => (x, nz - 1 - z),
        };
        proof {
            lemma_index_bounds(
                fx as int,
                y as int,
                fz as int,
                sx as int,
                sy as int,
                sz as int,
            );
        }
        let from: usize = (y * sx * sz + fz * sx + fx) as usize;
        blocks.push(states[from]);
        i += 1;
    }
    let t: usize = clip.tile_entities.len();
    let mut k: usize = 0;
    while k < t
        invariant
            k <= t,
            t == c.tile_entities.len(),
            clip.tile_entities@.len() == t,
            0 < sx,
            0 < sz,
            sx == c.size_x,
            sz == c.size_z,
            movable(c, m),
            clip.name@ == c.name,
            clip.size_y == c.size_y,
            clip.offset == c.offset,
            forall|j: int|
                0 <= j < t ==> (#[trigger] clip.tile_entities@[j]).1@ == c.tile_entities[j].1,
            forall|j: int|
                k <= j < t ==> (#[trigger] clip.tile_entities@[j]).0 == c.tile_entities[j].0,
            forall|j: int|
                0 <= j < k ==> (#[trigger] clip.tile_entities@[j]).0 == m.carry_pos(
                    c.tile_entities[j].0,
                    sx as int,
                    sz as int,
                ),
        decreases t - k,
    {
        assert(m.carries(c.tile_entities[k as int].0, sx as int, sz as int));
        let pos = carry_pos(m, clip.tile_entities[k].0, sx, sz);
        clip.tile_entities[k].0 = pos;
        k += 1;
    }
    clip.blocks = blocks;
    clip.size_x = nx;
    clip.size_z = nz;
    clip.offset = carry_pos(m, clip.offset, sx, sz);
    assert(clip@.blocks =~= moved(c, m, states@).blocks);
    assert(clip@.tile_entities =~= moved(c, m, states@).tile_entities);
}

/// Whether every position that a motion carries along comes to lie at coordinates of thirty-two
/// bits.
pub fn can_move(clip: &Clipboard, m: Motion) -> (r: bool)
    requires
        clip@.wf(),
    ensures
        r == movable(clip@, m),
{
    let ghost c = clip@;
    if !can_carry(m, clip.offset, clip.size_x, clip.size_z) {
        return false;
    }
    let mut k: usize = 0;
    while k < clip.tile_entities.len()
        invariant
            k <= clip.tile_entities@.len(),
            c == clip@,
            c.wf(),
            m.carries(c.offset, c.size_x as int, c.size_z as int),
            forall|j: int|
                0 <= j < k ==> m.carries(
                    (#[trigger] c.tile_entities[j]).0,
                    c.size_x as int,
                    c.size_z as int,
                ),
        decreases clip.tile_entities@.len() - k,
    {
        assert(c.tile_entities[k as int].0 == clip.tile_entities@[k as int].0);
        if !can_carry(m, clip.tile_entities[k].0, clip.size_x, clip.size_z) {
            return false;
        }
        k += 1;
    }
    true
}

/// Whether the place where a position comes to lie has coordinates of thirty-two bits.
fn can_carry(m: Motion, p: BlockPos, sx: i32, sz: i32) -> (r: bool)
    requires
        0 < sx,
        0 < sz,
    ensures
        r == m.carries(p, sx as int, sz as int),
{
    let x: i64 = sx as i64 - 1 - p.x as i64;
    let z: i64 = sz as i64 - 1 - p.z as i64;
    let x_fits: bool = x <= i32::MAX as i64;
    let z_fits: bool = z <= i32::MAX as i64;
    match m {
        Motion::Quarter => z_fits,
        Motion::Half => x_fits && z_fits,
        Motion::ThreeQuarters => x_fits,
        Motion::MirrorX => x_fits,
        Motion::MirrorZ => z_fits,
    }
}

/// The turn by an angle, if it is one, two or three quarters.
pub open spec fn turn_by(degrees: int) -> Option<Motion> {
    if degrees == 90 {
        Some(Motion::Quarter)
    } else if degrees == 180 {
        Some(Motion::Half)
    } else if degrees == 270 {
        Some(Motion::ThreeQuarters)
    } else {
        None
    }
}

/// The turn by an angle, if it is one, two or three quarters.
pub fn turn_of(degrees: i32) -> (r: Option<Motion>)
    ensures
        r == turn_by(degrees as int),
{
    if degrees == 90 {
        Some(Motion::Quarter)
    } else if degrees == 180 {
        Some(Motion::Half)
    } else if degrees == 270 {
        Some(Motion::ThreeQuarters)
    } else {
        None
    }
}

/// The mirroring along an axis.
pub open spec fn mirror_by(axis: FlipAxis) -> Motion {
    match axis {
        FlipAxis::X => Motion::MirrorX,
        FlipAxis::Z => Motion::MirrorZ,
    }
}

/// The mirroring along an axis.
pub fn mirror_of(axis: FlipAxis) -> (r: Motion)
    ensures
        r == mirror_by(axis),
{
    match axis {
        FlipAxis::X => Motion::MirrorX,
        FlipAxis::Z => Motion::MirrorZ,
    }
}

/// Whether each block may become the state at its place.
pub open spec fn all_become(
    blocks: Seq<u16>,
    change: spec_fn(PaletteView) -> Option<PaletteView>,
    states: Seq<u16>,
) -> bool {
    states.len() == blocks.len() && forall|i: int|
        0 <= i < blocks.len() ==> becomes(blocks[i], change, #[trigger] states[i])
}

/// Turns a clipboard around the vertical axis, with the states that the registry gives for the
/// turned blocks. An angle other than one, two or three quarters changes nothing.
pub fn rotate_clipboard(clip: &mut Clipboard, degrees: i32)
    requires
        old(clip)@.wf(),
        turn_by(degrees as int) matches Some(m) ==> movable(old(clip)@, m),
    ensures
        final(clip)@.wf(),
        match turn_by(degrees as int) {
            Some(m) => exists|states: Seq<u16>| #[trigger]
                all_become(old(clip)@.blocks, turning(degrees as int), states) && final(clip)@
                    == moved(old(clip)@, m, states),
            None => final(clip)@ == old(clip)@,
        },
{
    let m = match turn_of(degrees) {
        Some(m) => m,
        None => return ,
    };
    let n: usize = clip.blocks.len();
    let mut states: Vec<u16> = Vec::with_capacity(n);
    let mut i: usize = 0;
    while i < n
        invariant
            i <= n,
            n == clip.blocks@.len(),
            states@.len() == i,
            forall|k: int|
                0 <= k < i ==> becomes(
                    clip.blocks@[k],
                    turning(degrees as int),
                    #[trigger] states@[k],
                ),
        decreases n - i,
    {
        let r: u16 = rotate_block_state(clip.blocks[i], degrees);
        states.push(r);
        i += 1;
    }
    assert(all_become(clip@.blocks, turning(degrees as int), states@));
    move_clipboard(clip, m, &states);
}

/// Mirrors a clipboard, with the states that the registry gives for the mirrored blocks.
pub fn flip_clipboard(clip: &mut Clipboard, axis: FlipAxis)
    requires
        old(clip)@.wf(),
        movable(old(clip)@, mirror_by(axis)),
    ensures
        final(clip)@.wf(),
        exists|states: Seq<u16>| #[trigger]
            all_become(old(clip)@.blocks, mirroring(axis), states) && final(clip)@ == moved(
                old(clip)@,
                mirror_by(axis),
                states,
            ),
{
    let n: usize = clip.blocks.len();
    let mut states: Vec<u16> = Vec::with_capacity(n);
    let mut i: usize = 0;
    while i < n
        invariant
            i <= n,
            n == clip.blocks@.len(),
            states@.len() == i,
            forall|k: int|
                0 <= k < i ==> becomes(clip.blocks@[k], mirroring(axis), #[trigger] states@[k]),
        decreases n - i,
    {
        let r: u16 = flip_block_state(clip.blocks[i], axis);
        states.push(r);
        i += 1;
    }
    assert(all_become(clip@.blocks, mirroring(axis), states@));
    move_clipboard(clip, mirror_of(axis), &states);
}

impl Clipboard {
    /// Whether the box is not empty, there is a block for every position, and places fit
    /// thirty-two bits.
    pub fn is_well_formed(&self) -> (r: bool)
        ensures
            r == self@.wf(),
    {
        if self.size_x <= 0 || self.size_y <= 0 || self.size_z <= 0 {
            return false;
        }
        let n: u64 = self.blocks.len() as u64;
        if n > i32::MAX as u64 {
            return false;
        }
        let a: i64 = self.size_x as i64;
        let b: i64 = self.size_y as i64;
        assert(0 < a * b <= 0x7fff_ffff * 0x7fff_ffff) by (nonlinear_arith)
            requires
                0 < a <= 0x7fff_ffff,
                0 < b <= 0x7fff_ffff,
        ;
        match (a * b).checked_mul(self.size_z as i64) {
            Some(v) => v == n as i64,
            None => {
                assert(a * b * self.size_z > 0) by (nonlinear_arith)
                    requires
                        a * b > 0,
                        self.size_z > 0,
                ;
                false
            },
        }
    }
}

} // verus!
