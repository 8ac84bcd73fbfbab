//! Sponge `.schem` files.
use vstd::prelude::*;
use vstd::string::*;

use crate::block_string::{
    is_well_bracketed, parse_block_state_string, state_in, well_bracketed,
};
use crate::gzip::{gunzip, gunzipped};
use crate::litematica::{
    int_or_zero, lemma_regions_indexed, litematica_file, parse_litematica,
};
use crate::names::{has_name, NameMap};
use crate::nbt::{
    bytes_in, compound_in, entries_view, get_byte_array, get_compound, get_int, get_list,
    get_short, get_value, ints_in, lemma_slot_view, list_in, list_view, short_in, Nbt, NbtValue,
};
use crate::nbt_read::{file_value, parse_nbt};
use crate::nbt_write::{file_bytes, serialize_nbt_value};
use crate::schematic::{
    checked_volume, indexed, palette_view, regions_view, text_pairs, tiles_view, volume_of, PaletteEntry,
    PaletteView, Region, RegionView, Schematic, SchematicView, TileEntity, TileView,
};
use crate::text::{decimal, decimal_u64, ends_with, has_suffix, trim_all, trim_suffixes};
use crate::varint::{decode_varint_array, varints_at};

verus! {

/// The compound that describes the schematic: the root itself or its entry `Schematic`.
pub open spec fn schem_root(root: Seq<(Seq<char>, Nbt)>) -> Seq<(Seq<char>, Nbt)> {
    match compound_in(root, "Schematic"@) {
        Some(s) => s,
        None => root,
    }
}

/// Width, height and length.
pub open spec fn schem_size(c: Seq<(Seq<char>, Nbt)>) -> Result<Seq<i32>, Seq<char>> {
    match (short_in(c, "Width"@), short_in(c, "Height"@), short_in(c, "Length"@)) {
        (None, _, _) => Err("Missing Width"@),
        (_, None, _) => Err("Missing Height"@),
        (_, _, None) => Err("Missing Length"@),
        (Some(w), Some(h), Some(l)) => Ok(seq![w as i32, h as i32, l as i32]),
    }
}

/// The palette and the block data, in the compound `Blocks` where there is one.
pub open spec fn schem_blocks(c: Seq<(Seq<char>, Nbt)>) -> Result<
    (Seq<(Seq<char>, Nbt)>, Seq<i8>),
    Seq<char>,
> {
    match compound_in(c, "Blocks"@) {
        Some(b) => match (compound_in(b, "Palette"@), bytes_in(b, "Data"@)) {
            (None, _) => Err("Missing Blocks.Palette"@),
            (_, None) => Err("Missing Blocks.Data"@),
            (Some(p), Some(d)) => Ok((p, d)),
        },
        None => match (compound_in(c, "Palette"@), bytes_in(c, "BlockData"@)) {
            (None, _) => Err("Missing Palette"@),
            (_, None) => Err("Missing BlockData"@),
            (Some(p), Some(d)) => Ok((p, d)),
        },
    }
}

/// The palette index that an entry assigns to its block state, if it is one.
pub open spec fn assigned(e: (Seq<char>, Nbt)) -> Option<int> {
    match e.1 {
        Nbt::Int(i) => if i >= 0 {
            Some(i as int)
        } else {
            None
        },
        _ => None,
    }
}

/// The largest palette index, 0 where there is none.
pub open spec fn last_index(p: Seq<(Seq<char>, Nbt)>) -> int
    decreases p.len(),
{
    if p.len() == 0 {
        0
    } else {
        let before = last_index(p.drop_last());
        match assigned(p.last()) {
            Some(i) => if i > before {
                i
            } else {
                before
            },
            None => before,
        }
    }
}

/// The block state at a palette index: that of the last entry that assigns it, or air.
pub open spec fn state_at(p: Seq<(Seq<char>, Nbt)>, i: int) -> PaletteView
    decreases p.len(),
{
    if p.len() == 0 {
        PaletteView { name: "minecraft:air"@, properties: Seq::empty() }
    } else if assigned(p.last()) == Some(i) {
        state_in(p.last().0)
    } else {
        state_at(p.drop_last(), i)
    }
}

/// The palette that some entries make up, without gaps.
pub open spec fn schem_palette(p: Seq<(Seq<char>, Nbt)>) -> Seq<PaletteView> {
    Seq::new((last_index(p) + 1) as nat, |i: int| state_at(p, i))
}

/// Every block state in a palette can be taken apart.
pub open spec fn palette_readable(p: Seq<(Seq<char>, Nbt)>) -> bool {
    forall|k: int|
        0 <= k < p.len() && assigned(#[trigger] p[k]) is Some ==> well_bracketed(p[k].0)
}

/// The block entity that a compound describes, its place given by `Pos` or by `x`, `y` and `z`.
pub open spec fn block_entity(c: Seq<(Seq<char>, Nbt)>) -> TileView {
    let pos = ints_in(c, "Pos"@);
    if pos is Some && pos->0.len() >= 3 {
        TileView { x: pos->0[0], y: pos->0[1], z: pos->0[2], raw_nbt: file_bytes(c) }
    } else {
        TileView {
            x: int_or_zero(c, "x"@),
            y: int_or_zero(c, "y"@),
            z: int_or_zero(c, "z"@),
            raw_nbt: file_bytes(c),
        }
    }
}

/// The block entities that the compounds of a list describe.
pub open spec fn block_entities(l: Seq<Nbt>) -> Seq<TileView>
    decreases l.len(),
{
    if l.len() == 0 {
        Seq::empty()
    } else {
        let before = block_entities(l.drop_last());
        match l.last() {
            Nbt::Compound(c) => before.push(block_entity(c)),
            _ => before,
        }
    }
}

/// The block entities in a compound: those under `BlockEntities`, or else under `TileEntities`.
pub open spec fn block_entities_in(c: Seq<(Seq<char>, Nbt)>) -> Seq<TileView> {
    let key = if has_name(c, "BlockEntities"@) {
        "BlockEntities"@
    } else {
        "TileEntities"@
    };
    match list_in(c, key) {
        Some(l) => block_entities(l),
        None => Seq::empty(),
    }
}

/// The region that a `.schem` file describes, given its size, palette and block data. There must be
/// a palette index for every block; data behind them is left alone.
pub open spec fn schem_region(
    c: Seq<(Seq<char>, Nbt)>,
    size: Seq<i32>,
    p: Seq<(Seq<char>, Nbt)>,
    data: Seq<i8>,
) -> Result<RegionView, Seq<char>> {
    if last_index(p) >= 65536 {
        Err("Palette too large ("@ + decimal(last_index(p) + 1) + " entries)"@)
    } else {
        match volume_of(size) {
            Err(m) => Err(m),
            Ok(total) => match varints_at(data, 0, total as nat) {
                Err(m) => Err(m),
                Ok(block_indices) => if block_indices.len() != total {
                    Err("Unexpected end of varint data"@)
                } else {
                    Ok(
                        RegionView {
                            name: "main"@,
                            position: seq![0i32, 0i32, 0i32],
                            size,
                            palette: schem_palette(p),
                            block_indices,
                            tile_entities: match compound_in(c, "Blocks"@) {
                                Some(b) => block_entities_in(b),
                                None => block_entities_in(c),
                            },
                        },
                    )
                },
            },
        }
    }
}

/// The schematic that a file of NBT describes, in the `.schem` format.
pub open spec fn schem_of(raw: Seq<u8>, filename: Seq<char>) -> Result<SchematicView, Seq<char>> {
    match file_value(raw) {
        Err(m) => Err(m),
        Ok(root) => match schem_size(schem_root(root)) {
            Err(m) => Err(m),
            Ok(size) => match schem_blocks(schem_root(root)) {
                Err(m) => Err(m),
                Ok((p, data)) => match schem_region(schem_root(root), size, p, data) {
                    Err(m) => Err(m),
                    Ok(region) => Ok(
                        SchematicView {
                            name: trim_all(filename, ".schem"@),
                            regions: seq![region],
                        },
                    ),
                },
            },
        },
    }
}

/// Where a file of NBT gets as far as its palette, every block state there can be taken apart.
pub open spec fn schem_readable(raw: Seq<u8>) -> bool {
    match file_value(raw) {
        Err(_) => true,
        Ok(root) => match (schem_size(schem_root(root)), schem_blocks(schem_root(root))) {
            (Ok(_), Ok((p, _))) => palette_readable(p),
            _ => true,
        },
    }
}

/// The schematic in a `.schem` file.
pub open spec fn schem_file(data: Seq<u8>, filename: Seq<char>) -> Result<
    SchematicView,
    Seq<char>,
> {
    match gunzipped(data) {
        Err(m) => Err("GZIP decode failed: "@ + m),
        Ok(raw) => schem_of(raw, filename),
    }
}

/// Where a `.schem` file gets as far as its palette, every block state there can be taken apart.
pub open spec fn schem_file_readable(data: Seq<u8>) -> bool {
    match gunzipped(data) {
        Err(_) => true,
        Ok(raw) => schem_readable(raw),
    }
}

/// The schematic in a file, in the format that the file's name tells.
pub open spec fn schematic_file(data: Seq<u8>, filename: Seq<char>) -> Result<
    SchematicView,
    Seq<char>,
> {
    if ends_with(filename, ".schem"@) {
        schem_file(data, filename)
    } else {
        litematica_file(data)
    }
}

/// The compound that describes the schematic.
fn find_root(root: &NameMap<NbtValue>) -> (r: &NameMap<NbtValue>)
    ensures
        entries_view(r.entries@) == schem_root(entries_view(root.entries@)),
{
    match get_compound(root, "Schematic") {
        Some(s) => s,
        None => root,
    }
}

/// Width, height and length.
fn get_size(c: &NameMap<NbtValue>) -> (r: Result<[i32; 3], String>)
    ensures
        match (r, schem_size(entries_view(c.entries@))) {
            (Ok(v), Ok(s)) => v@ == s,
            (Err(e), Err(m)) => e@ == m,
            _ => false,
        },
{
    let width = match get_short(c, "Width") {
        Some(v) => v,
        None => return Err("Missing Width".to_string()),
    };
    let height = match get_short(c, "Height") {
        Some(v) => v,
        None => return Err("Missing Height".to_string()),
    };
    let length = match get_short(c, "Length") {
        Some(v) => v,
        None => return Err("Missing Length".to_string()),
    };
    let r = [width as i32, height as i32, length as i32];
    assert(r@ =~= seq![width as i32, height as i32, length as i32]);
    Ok(r)
}

/// The palette and the block data.
fn get_blocks(c: &NameMap<NbtValue>) -> (r: Result<(&NameMap<NbtValue>, Vec<i8>), String>)
    ensures
        match (r, schem_blocks(entries_view(c.entries@))) {
            (Ok((p, d)), Ok((ps, ds))) => entries_view(p.entries@) == ps && d@ == ds,
            (Err(e), Err(m)) => e@ == m,
            _ => false,
        },
{
    match get_compound(c, "Blocks") {
        Some(b) => {
            let p = match get_compound(b, "Palette") {
                Some(p) => p,
                None => return Err("Missing Blocks.Palette".to_string()),
            };
            match get_byte_array(b, "Data") {
                Some(d) => Ok((p, d)),
                None => Err("Missing Blocks.Data".to_string()),
            }
        },
        None => {
            let p = match get_compound(c, "Palette") {
                Some(p) => p,
                None => return Err("Missing Palette".to_string()),
            };
            match get_byte_array(c, "BlockData") {
                Some(d) => Ok((p, d)),
                None => Err("Missing BlockData".to_string()),
            }
        },
    }
}

/// The palette index that a value stands for.
fn assigned_index(v: &NbtValue) -> (r: Option<usize>)
    ensures
        match (r, assigned((Seq::empty(), v@))) {
            (Some(i), Some(n)) => i == n,
            (None, None) => true,
            _ => false,
        },
{
    match v {
        NbtValue::Int(i) => if *i >= 0 {
            Some(*i as usize)
        } else {
            None
        },
        _ => None,
    }
}

/// Every palette index lies between 0 and the largest.
proof fn lemma_last_index(p: Seq<(Seq<char>, Nbt)>)
    ensures
        0 <= last_index(p) <= i32::MAX,
        forall|k: int|
            0 <= k < p.len() ==> (assigned(#[trigger] p[k]) matches Some(i) ==> 0 <= i <= last_index(
                p,
            )),
    decreases p.len(),
{
    if p.len() > 0 {
        let q = p.drop_last();
        lemma_last_index(q);
        assert forall|k: int| 0 <= k < p.len() implies (assigned(#[trigger] p[k]) matches Some(i)
            ==> 0 <= i <= last_index(p)) by {
            if k < q.len() {
                assert(p[k] == q[k]);
            }
        }
    }
}

/// The palette without gaps, if it is not too large.
fn build_palette(map: &NameMap<NbtValue>) -> (r: Result<Vec<PaletteEntry>, String>)
    requires
        palette_readable(entries_view(map.entries@)),
    ensures
        ({
            let p = entries_view(map.entries@);
            match r {
                Ok(v) => last_index(p) < 65536 && palette_view(v@) == schem_palette(p),
                Err(e) => last_index(p) >= 65536 && e@ == "Palette too large ("@ + decimal(
                    last_index(p) + 1,
                ) + " entries)"@,
            }
        }),
{
    let ghost p = entries_view(map.entries@);
    let n: usize = map.entries.len();
    let mut max: usize = 0;
    let mut i: usize = 0;
    proof {
        lemma_last_index(p);
    }
    while i < n
        invariant
            i <= n,
            n == map.entries@.len(),
            p == entries_view(map.entries@),
            max == last_index(p.take(i as int)),
        decreases n - i,
    {
        proof {
            assert(p.take(i + 1).drop_last() =~= p.take(i as int));
            assert(p.take(i + 1).last() == p[i as int]);
        }
        if let Some(k) = assigned_index(&map.entries[i].1) {
            if k > max {
                max = k;
            }
        }
        i += 1;
    }
    assert(p.take(n as int) =~= p);
    if max >= 65536 {
        let mut e = "Palette too large (".to_string();
        e.append(decimal_u64(max as u64 + 1).as_str());
        e.append(" entries)");
        return Err(e);
    }
    let mut palette: Vec<PaletteEntry> = Vec::with_capacity(max + 1);
    i = 0;
    while i < max + 1
        invariant
            i <= max + 1,
            max < 65536,
            palette@.len() == i,
            forall|k: int|
                0 <= k < i ==> (#[trigger] palette@[k])@ == state_at(Seq::empty(), k),
        decreases max + 1 - i,
    {
        let entry = PaletteEntry { name: "minecraft:air".to_string(), properties: NameMap::new() };
        assert(text_pairs(entry.properties@) =~= Seq::empty());
        palette.push(entry);
        i += 1;
    }
    i = 0;
    assert(p.take(0) =~= Seq::empty());
    while i < n
        invariant
            i <= n,
            n == map.entries@.len(),
            p == entries_view(map.entries@),
            max == last_index(p),
            palette_readable(p),
            palette@.len() == max + 1,
            forall|k: int|
                0 <= k <= max ==> (#[trigger] palette@[k])@ == state_at(p.take(i as int), k),
        decreases n - i,
    {
        proof {
            assert(p.take(i + 1).drop_last() =~= p.take(i as int));
            assert(p.take(i + 1).last() == p[i as int]);
            lemma_last_index(p);
        }
        if let Some(k) = assigned_index(&map.entries[i].1) {
            assert(assigned(p[i as int]) == Some(k as int));
            let (name, properties) = parse_block_state_string(map.entries[i].0.as_str());
            let entry = PaletteEntry { name, properties };
            palette.set(k, entry);
        }
        i += 1;
    }
    assert(p.take(n as int) =~= p);
    assert(palette_view(palette@) =~= schem_palette(p));
    Ok(palette)
}

/// The block entity that a compound describes.
fn parse_block_entity(entry: &NbtValue, c: &NameMap<NbtValue>) -> (r: TileEntity)
    requires
        *entry == NbtValue::Compound(*c),
    ensures
        r@ == block_entity(entries_view(c.entries@)),
{
    let raw_nbt = serialize_nbt_value(entry);
    if let Some(NbtValue::IntArray(pos)) = get_value(c, "Pos") {
        if pos.len() >= 3 {
            return TileEntity { x: pos[0], y: pos[1], z: pos[2], raw_nbt };
        }
    }
    let x = match get_int(c, "x") {
        Some(v) => v,
        None => 0,
    };
    let y = match get_int(c, "y") {
        Some(v) => v,
        None => 0,
    };
    let z = match get_int(c, "z") {
        Some(v) => v,
        None => 0,
    };
    TileEntity { x, y, z, raw_nbt }
}

/// The block entities in a compound.
pub fn parse_schem_block_entities(schem_data: &NameMap<NbtValue>) -> (r: Vec<TileEntity>)
    ensures
        tiles_view(r@) == block_entities_in(entries_view(schem_data.entries@)),
{
    let mut tiles: Vec<TileEntity> = Vec::new();
    proof {
        lemma_slot_view(*schem_data, "BlockEntities"@);
    }
    let key = match schem_data.position("BlockEntities") {
        Some(_) => "BlockEntities",
        None => "TileEntities",
    };
    let list = match get_list(schem_data, key) {
        Some(list) => list,
        None => {
            assert(tiles_view(tiles@) =~= Seq::empty());
            return tiles;
        },
    };
    let ghost l = list_view(list@);
    let mut i: usize = 0;
    assert(tiles_view(tiles@) =~= block_entities(l.take(0)));
    while i < list.len()
        invariant
            i <= list@.len(),
            l == list_view(list@),
            tiles_view(tiles@) == block_entities(l.take(i as int)),
        decreases list@.len() - i,
    {
        proof {
            assert(l.take(i + 1).drop_last() =~= l.take(i as int));
            assert(l.take(i + 1).last() == l[i as int]);
        }
        if let NbtValue::Compound(compound) = &list[i] {
            let tile = parse_block_entity(&list[i], compound);
            let ghost before = tiles@;
            tiles.push(tile);
            assert(tiles_view(tiles@) =~= tiles_view(before).push(tile@));
        }
        i += 1;
    }
    assert(l.take(i as int) =~= l);
    tiles
}

/// Whether every block state in a palette can be taken apart.
fn is_palette_readable(map: &NameMap<NbtValue>) -> (r: bool)
    ensures
        r == palette_readable(entries_view(map.entries@)),
{
    let ghost p = entries_view(map.entries@);
    let mut i: usize = 0;
    while i < map.entries.len()
        invariant
            i <= map.entries@.len(),
            p == entries_view(map.entries@),
            forall|k: int|
                0 <= k < i && assigned(#[trigger] p[k]) is Some ==> well_bracketed(p[k].0),
        decreases map.entries@.len() - i,
    {
        assert(p[i as int] == (map.entries@[i as int].0@, map.entries@[i as int].1@));
        if assigned_index(&map.entries[i].1).is_some() {
            if !is_well_bracketed(map.entries[i].0.as_str()) {
                return false;
            }
        }
        i += 1;
    }
    true
}

/// Whether a file of NBT that gets as far as its palette has only block states there that can be
/// taken apart.
pub fn is_schem_readable(raw: &[u8]) -> (r: bool)
    ensures
        r == schem_readable(raw@),
{
    match parse_nbt(raw) {
        Ok(NbtValue::Compound(root)) => {
            let c = find_root(&root);
            match (get_size(c), get_blocks(c)) {
                (Ok(_), Ok((p, _))) => is_palette_readable(p),
                _ => true,
            }
        },
        _ => true,
    }
}

/// The schematic in an unpacked `.schem` file.
pub fn schem_from_nbt(raw: &[u8], filename: &str) -> (r: Result<Schematic, String>)
    requires
        schem_readable(raw@),
    ensures
        match (r, schem_of(raw@, filename@)) {
            (Ok(v), Ok(s)) => v@ == s,
            (Err(e), Err(m)) => e@ == m,
            _ => false,
        },
{
    let nbt = match parse_nbt(raw) {
        Ok(v) => v,
        Err(e) => return Err(e),
    };
    let root = match nbt {
        NbtValue::Compound(map) => map,
        _ => return Err("Root is not a compound".to_string()),
    };
    let c = find_root(&root);
    let size = match get_size(c) {
        Ok(size) => size,
        Err(e) => return Err(e),
    };
    let (palette_map, data) = match get_blocks(c) {
        Ok(blocks) => blocks,
        Err(e) => return Err(e),
    };
    let palette = match build_palette(palette_map) {
        Ok(p) => p,
        Err(e) => return Err(e),
    };
    let total: usize = match checked_volume(size) {
        Ok(t) => t,
        Err(e) => return Err(e),
    };
    let block_indices = match decode_varint_array(data.as_slice(), total) {
        Ok(b) => b,
        Err(e) => return Err(e),
    };
    if block_indices.len() != total {
        return Err("Unexpected end of varint data".to_string());
    }
    let tile_entities = match get_compound(c, "Blocks") {
        Some(b) => parse_schem_block_entities(b),
        None => parse_schem_block_entities(c),
    };
    let name = trim_suffixes(filename, ".schem");
    let position = [0i32, 0i32, 0i32];
    assert(position@ =~= seq![0i32, 0i32, 0i32]);
    let region = Region {
        name: "main".to_string(),
        position,
        size,
        palette,
        block_indices,
        tile_entities,
    };
    let mut regions: Vec<Region> = Vec::new();
    regions.push(region);
    assert(regions_view(regions@) =~= seq![region@]);
    Ok(Schematic { name, regions })
}

/// The schematic in a `.schem` file.
pub fn parse_schem(data: &[u8], filename: &str) -> (r: Result<Schematic, String>)
    requires
        schem_file_readable(data@),
    ensures
        match (r, schem_file(data@, filename@)) {
            (Ok(v), Ok(s)) => v@ == s,
            (Err(e), Err(m)) => e@ == m,
            _ => false,
        },
{
    match gunzip(data) {
        Ok(raw) => schem_from_nbt(raw.as_slice(), filename),
        Err(m) => {
            let mut e = "GZIP decode failed: ".to_string();
            e.append(m.as_str());
            Err(e)
        },
    }
}

/// The schematic in a file, in the format that the file's name tells.
pub fn parse_schematic(data: &[u8], filename: &str) -> (r: Result<Schematic, String>)
    requires
        ends_with(filename@, ".schem"@) ==> schem_file_readable(data@),
    ensures
        match (r, schematic_file(data@, filename@)) {
            (Ok(v), Ok(s)) => v@ == s,
            (Err(e), Err(m)) => e@ == m,
            _ => false,
        },
{
    if has_suffix(filename, ".schem") {
        parse_schem(data, filename)
    } else {
        parse_litematica(data)
    }
}

/// The schematic in a file, in the format that the file's name tells, or nothing where a block
/// state in the file cannot be taken apart.
pub fn try_parse_schematic(data: &[u8], filename: &str) -> (r: Option<Result<Schematic, String>>)
    ensures
        match r {
            Some(Ok(v)) => {
                &&& ends_with(filename@, ".schem"@) ==> schem_file_readable(data@)
                &&& schematic_file(data@, filename@) == Ok::<SchematicView, Seq<char>>(v@)
            },
            Some(Err(e)) => {
                &&& ends_with(filename@, ".schem"@) ==> schem_file_readable(data@)
                &&& schematic_file(data@, filename@) == Err::<SchematicView, Seq<char>>(e@)
            },
            None => ends_with(filename@, ".schem"@) && !schem_file_readable(data@),
        },
{
    if has_suffix(filename, ".schem") {
        if let Ok(raw) = gunzip(data) {
            if !is_schem_readable(raw.as_slice()) {
                return None;
            }
        }
    }
    Some(parse_schematic(data, filename))
}

/// Whichever its format, a file that is read has in every region one palette index per block.
pub proof fn law_one_index_per_block(data: Seq<u8>, filename: Seq<char>)
    ensures
        schematic_file(data, filename) matches Ok(s) ==> forall|k: int|
            0 <= k < s.regions.len() ==> indexed(#[trigger] s.regions[k]),
{
    if !ends_with(filename, ".schem"@) {
        if let Ok(raw) = gunzipped(data) {
            if let Ok(root) = file_value(raw) {
                if let Some(s) = compound_in(root, "Regions"@) {
                    lemma_regions_indexed(s);
                }
            }
        }
    }
}

} // verus!
