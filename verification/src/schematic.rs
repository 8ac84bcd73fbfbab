//! What a schematic file holds, whichever format it came in.
use vstd::prelude::*;
use vstd::string::*;

use crate::names::NameMap;
use crate::text::{decimal, decimal_i64};

verus! {

/// The largest number of blocks that a region may have.
pub const MAX_SCHEM_BLOCKS: i64 = 67108864;

/// A schematic: a name and its regions.
#[derive(Debug)]
pub struct Schematic {
    pub name: String,
    pub regions: Vec<Region>,
}

/// A box of blocks.
#[derive(Debug)]
pub struct Region {
    pub name: String,
    pub position: [i32; 3],
    pub size: [i32; 3],
    pub palette: Vec<PaletteEntry>,
    /// One palette index per block, in YZX order.
    pub block_indices: Vec<u16>,
    pub tile_entities: Vec<TileEntity>,
}

/// A block type with its properties.
#[derive(Debug)]
pub struct PaletteEntry {
    pub name: String,
    pub properties: NameMap<String>,
}

/// The data of a block entity, as a file of NBT, and where it stands in its region.
#[derive(Debug)]
pub struct TileEntity {
    pub x: i32,
    pub y: i32,
    pub z: i32,
    pub raw_nbt: Vec<u8>,
}

/// A block type with its properties.
pub struct PaletteView {
    pub name: Seq<char>,
    pub properties: Seq<(Seq<char>, Seq<char>)>,
}

/// The data of a block entity and its place.
pub struct TileView {
    pub x: i32,
    pub y: i32,
    pub z: i32,
    pub raw_nbt: Seq<u8>,
}

/// A box of blocks.
pub struct RegionView {
    pub name: Seq<char>,
    pub position: Seq<i32>,
    pub size: Seq<i32>,
    pub palette: Seq<PaletteView>,
    pub block_indices: Seq<u16>,
    pub tile_entities: Seq<TileView>,
}

/// A schematic.
pub struct SchematicView {
    pub name: Seq<char>,
    pub regions: Seq<RegionView>,
}

/// The characters of the names and values of a map.
pub open spec fn text_pairs(m: Seq<(Seq<char>, String)>) -> Seq<(Seq<char>, Seq<char>)> {
    m.map_values(|e: (Seq<char>, String)| (e.0, e.1@))
}

impl View for PaletteEntry {
    type V = PaletteView;

    open spec fn view(&self) -> PaletteView {
        PaletteView { name: self.name@, properties: text_pairs(self.properties@) }
    }
}

impl View for TileEntity {
    type V = TileView;

    open spec fn view(&self) -> TileView {
        TileView { x: self.x, y: self.y, z: self.z, raw_nbt: self.raw_nbt@ }
    }
}

/// The block types of a palette.
pub open spec fn palette_view(s: Seq<PaletteEntry>) -> Seq<PaletteView> {
    s.map_values(|e: PaletteEntry| e@)
}

/// The block entities of a region.
pub open spec fn tiles_view(s: Seq<TileEntity>) -> Seq<TileView> {
    s.map_values(|e: TileEntity| e@)
}

impl View for Region {
    type V = RegionView;

    open spec fn view(&self) -> RegionView {
        RegionView {
            name: self.name@,
            position: self.position@,
            size: self.size@,
            palette: palette_view(self.palette@),
            block_indices: self.block_indices@,
            tile_entities: tiles_view(self.tile_entities@),
        }
    }
}

/// The regions of a schematic.
pub open spec fn regions_view(s: Seq<Region>) -> Seq<RegionView> {
    s.map_values(|e: Region| e@)
}

impl View for Schematic {
    type V = SchematicView;

    open spec fn view(&self) -> SchematicView {
        SchematicView { name: self.name@, regions: regions_view(self.regions@) }
    }
}

/// The distance of a number from zero.
pub open spec fn abs(v: int) -> int {
    if v < 0 {
        -v
    } else {
        v
    }
}

/// Whether a box has one palette index per block.
pub open spec fn indexed(r: RegionView) -> bool {
    r.block_indices.len() == abs(r.size[0] as int) * abs(r.size[1] as int) * abs(r.size[2] as int)
}

/// The number of blocks in a box, if it is not too large.
pub open spec fn volume_of(dims: Seq<i32>) -> Result<int, Seq<char>> {
    let volume = abs(dims[0] as int) * abs(dims[1] as int) * abs(dims[2] as int);
    if volume > i64::MAX {
        Err("Dimension overflow"@)
    } else if volume > MAX_SCHEM_BLOCKS {
        Err("Schematic too large ("@ + decimal(volume) + " blocks, max 67108864)"@)
    } else {
        Ok(volume)
    }
}

/// A number of blocks is not negative.
pub proof fn lemma_volume(dims: Seq<i32>)
    ensures
        0 <= abs(dims[0] as int) * abs(dims[1] as int) * abs(dims[2] as int),
{
    let a = abs(dims[0] as int);
    let b = abs(dims[1] as int);
    let c = abs(dims[2] as int);
    assert(0 <= a * b) by (nonlinear_arith)
        requires
            0 <= a,
            0 <= b,
    ;
    assert(0 <= a * b * c) by (nonlinear_arith)
        requires
            0 <= a * b,
            0 <= c,
    ;
}

/// The number of blocks in a box, if it is not too large.
pub fn checked_volume(dims: [i32; 3]) -> (r: Result<usize, String>)
    ensures
        match (r, volume_of(dims@)) {
            (Ok(v), Ok(n)) => v == n,
            (Err(e), Err(m)) => e@ == m,
            _ => false,
        },
{
    let a: i64 = magnitude(dims[0]);
    let b: i64 = magnitude(dims[1]);
    let c: i64 = magnitude(dims[2]);
    proof {
        assert(0 <= a * b <= 0x8000_0000 * 0x8000_0000) by (nonlinear_arith)
            requires
                0 <= a <= 0x8000_0000,
                0 <= b <= 0x8000_0000,
        ;
        assert(0 <= (a * b) * c) by (nonlinear_arith)
            requires
                0 <= a * b,
                0 <= c,
        ;
    }
    let vol: i64 = match (a * b).checked_mul(c) {
        Some(vol) => vol,
        None => return Err("Dimension overflow".to_string()),
    };
    if vol > MAX_SCHEM_BLOCKS {
        let mut e = "Schematic too large (".to_string();
        e.append(decimal_i64(vol).as_str());
        e.append(" blocks, max 67108864)");
        return Err(e);
    }
    Ok(vol as usize)
}

/// The distance of a number from zero.
pub fn magnitude(v: i32) -> (r: i64)
    ensures
        r == abs(v as int),
{
    if v < 0 {
        -(v as i64)
    } else {
        v as i64
    }
}

/// The place of a block in a box of `sx` by `sz` columns: x runs fastest, then z, then y.
pub open spec fn index_of(x: int, y: int, z: int, sx: int, sz: int) -> int {
    y * sx * sz + z * sx + x
}

impl Region {
    /// The size can be taken without its sign.
    pub open spec fn sized(&self) -> bool {
        forall|k: int| 0 <= k < 3 ==> #[trigger] self.size@[k] > i32::MIN
    }

    /// The box's extent along an axis.
    pub open spec fn extent(&self, axis: int) -> int {
        abs(self.size@[axis] as int)
    }

    /// No step of the computation of a block's place leaves the range of its type.
    pub open spec fn index_fits(&self, x: int, y: int, z: int) -> bool {
        let sx = self.extent(0);
        let sz = self.extent(2);
        &&& i32::MIN <= y * sx <= i32::MAX
        &&& i32::MIN <= y * sx * sz <= i32::MAX
        &&& i32::MIN <= z * sx <= i32::MAX
        &&& i32::MIN <= y * sx * sz + z * sx <= i32::MAX
        &&& i32::MIN <= y * sx * sz + z * sx + x <= i32::MAX
    }

    /// The size without its sign.
    pub fn abs_size(&self) -> (r: [i32; 3])
        requires
            self.sized(),
        ensures
            r@.len() == 3,
            r@[0] == self.extent(0),
            r@[1] == self.extent(1),
            r@[2] == self.extent(2),
    {
        assert(self.size@[0] > i32::MIN && self.size@[1] > i32::MIN && self.size@[2] > i32::MIN);
        [magnitude(self.size[0]) as i32, magnitude(self.size[1]) as i32, magnitude(
            self.size[2],
        ) as i32]
    }

    /// The place of a block among the block indices. A negative place wraps to a large one.
    pub fn get_block_index(&self, x: i32, y: i32, z: i32) -> (r: usize)
        requires
            self.sized(),
            self.index_fits(x as int, y as int, z as int),
        ensures
            r == index_of(x as int, y as int, z as int, self.extent(0), self.extent(2)) as usize,
    {
        let size = self.abs_size();
        let sx: i32 = size[0];
        let sz: i32 = size[2];
        (y * sx * sz + z * sx + x) as usize
    }

    /// The palette index of a block, 0 where none is stored.
    pub fn get_palette_index(&self, x: i32, y: i32, z: i32) -> (r: u16)
        requires
            self.sized(),
            self.index_fits(x as int, y as int, z as int),
        ensures
            r == self.palette_index_at(x as int, y as int, z as int),
    {
        let i: usize = self.get_block_index(x, y, z);
        if i < self.block_indices.len() {
            self.block_indices[i]
        } else {
            0
        }
    }

    /// The palette index of a block, 0 where none is stored.
    pub open spec fn palette_index_at(&self, x: int, y: int, z: int) -> u16 {
        let i = index_of(x, y, z, self.extent(0), self.extent(2)) as usize;
        if i < self.block_indices@.len() {
            self.block_indices@[i as int]
        } else {
            0
        }
    }
}

} // verus!
