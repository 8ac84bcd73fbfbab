//! Litematica files.
use vstd::prelude::*;
use vstd::string::*;

use crate::block_string::lemma_text_put;
use crate::gzip::{gunzip, gunzipped};
use crate::names::{put, NameMap};
use crate::nbt::{
    compound_in, entries_view, get_compound, get_int, get_list, get_long_array, get_string, int_in,
    list_in, list_view, longs_in, text_in, Nbt, NbtValue,
};
use crate::nbt_read::{file_value, parse_nbt};
use crate::nbt_write::{file_bytes, serialize_nbt_value};
use crate::packing::{index_width, lemma_width, packed_index, unpack_litematica};
use crate::schematic::{
    checked_volume, indexed, lemma_volume, palette_view, regions_view, text_pairs, tiles_view, volume_of, PaletteEntry,
    PaletteView, Region, RegionView, Schematic, SchematicView, TileEntity, TileView,
};

verus! {

/// The three numbers `x`, `y` and `z` of the compound under a name.
pub open spec fn triple_in(c: Seq<(Seq<char>, Nbt)>, key: Seq<char>) -> Result<
    Seq<i32>,
    Seq<char>,
> {
    match compound_in(c, key) {
        None => Err("Missing '"@ + key + "'"@),
        Some(t) => match (int_in(t, "x"@), int_in(t, "y"@), int_in(t, "z"@)) {
            (None, _, _) => Err("Missing '"@ + key + ".x'"@),
            (_, None, _) => Err("Missing '"@ + key + ".y'"@),
            (_, _, None) => Err("Missing '"@ + key + ".z'"@),
            (Some(x), Some(y), Some(z)) => Ok(seq![x, y, z]),
        },
    }
}

/// The entries that are strings.
pub open spec fn string_entries(c: Seq<(Seq<char>, Nbt)>) -> Seq<(Seq<char>, Seq<char>)>
    decreases c.len(),
{
    if c.len() == 0 {
        Seq::empty()
    } else {
        let before = string_entries(c.drop_last());
        match c.last().1 {
            Nbt::Text(s) => put(before, c.last().0, s),
            _ => before,
        }
    }
}

/// The block type that an entry of a palette describes.
pub open spec fn palette_entry(c: Seq<(Seq<char>, Nbt)>) -> PaletteView {
    PaletteView {
        name: match text_in(c, "Name"@) {
            Some(s) => s,
            None => Seq::empty(),
        },
        properties: match compound_in(c, "Properties"@) {
            Some(p) => string_entries(p),
            None => Seq::empty(),
        },
    }
}

/// The block types that the compounds of a list describe.
pub open spec fn palette_entries(l: Seq<Nbt>) -> Seq<PaletteView>
    decreases l.len(),
{
    if l.len() == 0 {
        Seq::empty()
    } else {
        let before = palette_entries(l.drop_last());
        match l.last() {
            Nbt::Compound(c) => before.push(palette_entry(c)),
            _ => before,
        }
    }
}

/// The block types of a region.
pub open spec fn palette_in(c: Seq<(Seq<char>, Nbt)>) -> Result<Seq<PaletteView>, Seq<char>> {
    match list_in(c, "BlockStatePalette"@) {
        Some(l) => Ok(palette_entries(l)),
        None => Err("Missing BlockStatePalette"@),
    }
}

/// The number under a name, 0 where there is none.
pub open spec fn int_or_zero(c: Seq<(Seq<char>, Nbt)>, key: Seq<char>) -> i32 {
    match int_in(c, key) {
        Some(v) => v,
        None => 0,
    }
}

/// The block entity that a compound describes. Its data is the whole compound.
pub open spec fn tile_entity(c: Seq<(Seq<char>, Nbt)>) -> TileView {
    TileView {
        x: int_or_zero(c, "x"@),
        y: int_or_zero(c, "y"@),
        z: int_or_zero(c, "z"@),
        raw_nbt: file_bytes(c),
    }
}

/// The block entities that the compounds of a list describe.
pub open spec fn tile_entities(l: Seq<Nbt>) -> Seq<TileView>
    decreases l.len(),
{
    if l.len() == 0 {
        Seq::empty()
    } else {
        let before = tile_entities(l.drop_last());
        match l.last() {
            Nbt::Compound(c) => before.push(tile_entity(c)),
            _ => before,
        }
    }
}

/// The block entities of a region.
pub open spec fn tiles_in(c: Seq<(Seq<char>, Nbt)>) -> Seq<TileView> {
    match list_in(c, "TileEntities"@) {
        Some(l) => tile_entities(l),
        None => Seq::empty(),
    }
}

/// The region that a compound describes.
pub open spec fn region_of(name: Seq<char>, c: Seq<(Seq<char>, Nbt)>) -> Result<
    RegionView,
    Seq<char>,
> {
    match triple_in(c, "Position"@) {
        Err(m) => Err(m),
        Ok(position) => match triple_in(c, "Size"@) {
            Err(m) => Err(m),
            Ok(size) => match palette_in(c) {
                Err(m) => Err(m),
                Ok(palette) => match longs_in(c, "BlockStates"@) {
                    None => Err(
                        "Missing or invalid '"@ + "BlockStates"@ + "' (expected LongArray)"@,
                    ),
                    Some(packed) => match volume_of(size) {
                        Err(m) => Err(m),
                        Ok(total) => Ok(
                            RegionView {
                                name,
                                position,
                                size,
                                palette,
                                block_indices: Seq::new(
                                    total as nat,
                                    |i: int| packed_index(packed, index_width(palette.len()), i),
                                ),
                                tile_entities: tiles_in(c),
                            },
                        ),
                    },
                },
            },
        },
    }
}

/// The regions that the compounds among some entries describe, up to the first error.
pub open spec fn regions_of(s: Seq<(Seq<char>, Nbt)>) -> Result<Seq<RegionView>, Seq<char>>
    decreases s.len(),
{
    if s.len() == 0 {
        Ok(Seq::empty())
    } else {
        match regions_of(s.drop_last()) {
            Err(m) => Err(m),
            Ok(before) => match s.last().1 {
                Nbt::Compound(c) => match region_of(s.last().0, c) {
                    Err(m) => Err(m),
                    Ok(v) => Ok(before.push(v)),
                },
                _ => Ok(before),
            },
        }
    }
}

/// The name of a litematica schematic.
pub open spec fn litematica_name(root: Seq<(Seq<char>, Nbt)>) -> Seq<char> {
    match compound_in(root, "Metadata"@) {
        None => "unknown"@,
        Some(m) => match text_in(m, "Name"@) {
            None => "unknown"@,
            Some(s) => s,
        },
    }
}

/// The schematic that a file of NBT describes, in the litematica format.
pub open spec fn litematica_of(raw: Seq<u8>) -> Result<SchematicView, Seq<char>> {
    match file_value(raw) {
        Err(m) => Err(m),
        Ok(root) => match compound_in(root, "Regions"@) {
            None => Err("Missing 'Regions' tag"@),
            Some(s) => match regions_of(s) {
                Err(m) => Err(m),
                Ok(regions) => Ok(SchematicView { name: litematica_name(root), regions }),
            },
        },
    }
}

/// The schematic in a litematica file.
pub open spec fn litematica_file(data: Seq<u8>) -> Result<SchematicView, Seq<char>> {
    match gunzipped(data) {
        Err(m) => Err("GZIP decode failed: "@ + m),
        Ok(raw) => litematica_of(raw),
    }
}

/// An error in some first regions is the error of all.
proof fn lemma_first_error(s: Seq<(Seq<char>, Nbt)>, i: int)
    requires
        0 <= i <= s.len(),
    ensures
        regions_of(s.take(i)) matches Err(m) ==> regions_of(s) == Err::<Seq<RegionView>, Seq<char>>(
            m,
        ),
    decreases s.len() - i,
{
    if i < s.len() {
        lemma_first_error(s, i + 1);
        assert(s.take(i + 1).drop_last() =~= s.take(i));
    } else {
        assert(s.take(i) =~= s);
    }
}

/// A region that is read has one palette index per block.
pub proof fn lemma_regions_indexed(s: Seq<(Seq<char>, Nbt)>)
    ensures
        regions_of(s) matches Ok(rs) ==> forall|k: int|
            0 <= k < rs.len() ==> indexed(#[trigger] rs[k]),
    decreases s.len(),
{
    if s.len() > 0 {
        lemma_regions_indexed(s.drop_last());
        if let Nbt::Compound(c) = s.last().1 {
            if let Ok(size) = triple_in(c, "Size"@) {
                lemma_volume(size);
            }
        }
    }
}

fn missing(key: &str, tail: &str) -> (r: String)
    ensures
        r@ == "Missing '"@ + key@ + tail@,
{
    let mut e = "Missing '".to_string();
    e.append(key);
    e.append(tail);
    e
}

/// The three numbers `x`, `y` and `z` of the compound under a name.
pub fn get_int_triple(compound: &NameMap<NbtValue>, key: &str) -> (r: Result<[i32; 3], String>)
    ensures
        match (r, triple_in(entries_view(compound.entries@), key@)) {
            (Ok(v), Ok(s)) => v@ == s,
            (Err(e), Err(m)) => e@ == m,
            _ => false,
        },
{
    let inner = match get_compound(compound, key) {
        Some(inner) => inner,
        None => return Err(missing(key, "'")),
    };
    let x = match get_int(inner, "x") {
        Some(x) => x,
        None => return Err(missing(key, ".x'")),
    };
    let y = match get_int(inner, "y") {
        Some(y) => y,
        None => return Err(missing(key, ".y'")),
    };
    let z = match get_int(inner, "z") {
        Some(z) => z,
        None => return Err(missing(key, ".z'")),
    };
    let r = [x, y, z];
    assert(r@ =~= seq![x, y, z]);
    Ok(r)
}

/// The entries that are strings.
fn get_string_entries(map: &NameMap<NbtValue>) -> (r: NameMap<String>)
    ensures
        text_pairs(r@) == string_entries(entries_view(map.entries@)),
{
    let mut out: NameMap<String> = NameMap::new();
    let ghost c = entries_view(map.entries@);
    let mut i: usize = 0;
    assert(text_pairs(out@) =~= string_entries(c.take(0)));
    while i < map.entries.len()
        invariant
            i <= map.entries@.len(),
            c == entries_view(map.entries@),
            text_pairs(out@) == string_entries(c.take(i as int)),
        decreases map.entries@.len() - i,
    {
        proof {
            assert(c.take(i + 1).drop_last() =~= c.take(i as int));
            assert(c.take(i + 1).last() == c[i as int]);
        }
        if let NbtValue::String(s) = &map.entries[i].1 {
            let key = map.entries[i].0.clone();
            let value = s.clone();
            proof {
                lemma_text_put(out@, key@, value);
            }
            out.insert(key, value);
        }
        i += 1;
    }
    assert(c.take(i as int) =~= c);
    out
}

/// The block types of a region.
pub fn parse_palette(region: &NameMap<NbtValue>) -> (r: Result<Vec<PaletteEntry>, String>)
    ensures
        match (r, palette_in(entries_view(region.entries@))) {
            (Ok(v), Ok(s)) => palette_view(v@) == s,
            (Err(e), Err(m)) => e@ == m,
            _ => false,
        },
{
    let list = match get_list(region, "BlockStatePalette") {
        Some(list) => list,
        None => return Err("Missing BlockStatePalette".to_string()),
    };
    let mut palette: Vec<PaletteEntry> = Vec::new();
    let ghost l = list_view(list@);
    let mut i: usize = 0;
    assert(palette_view(palette@) =~= palette_entries(l.take(0)));
    while i < list.len()
        invariant
            i <= list@.len(),
            l == list_view(list@),
            palette_view(palette@) == palette_entries(l.take(i as int)),
        decreases list@.len() - i,
    {
        proof {
            assert(l.take(i + 1).drop_last() =~= l.take(i as int));
            assert(l.take(i + 1).last() == l[i as int]);
        }
        if let NbtValue::Compound(compound) = &list[i] {
            let name = match get_string(compound, "Name") {
                Some(s) => s,
                None => String::new(),
            };
            let properties = match get_compound(compound, "Properties") {
                Some(p) => get_string_entries(p),
                None => NameMap::new(),
            };
            let ghost before = palette@;
            let entry = PaletteEntry { name, properties };
            proof {
                assert(text_pairs(Seq::empty()) =~= Seq::<(Seq<char>, Seq<char>)>::empty());
            }
            palette.push(entry);
            assert(palette_view(palette@) =~= palette_view(before).push(entry@));
        }
        i += 1;
    }
    assert(l.take(i as int) =~= l);
    Ok(palette)
}

fn int_or_0(map: &NameMap<NbtValue>, key: &str) -> (r: i32)
    ensures
        r == int_or_zero(entries_view(map.entries@), key@),
{
    match get_int(map, key) {
        Some(v) => v,
        None => 0,
    }
}

/// The block entities of a region.
pub fn parse_tile_entities(region: &NameMap<NbtValue>) -> (r: Vec<TileEntity>)
    ensures
        tiles_view(r@) == tiles_in(entries_view(region.entries@)),
{
    let mut tiles: Vec<TileEntity> = Vec::new();
    let list = match get_list(region, "TileEntities") {
        Some(list) => list,
        None => {
            assert(tiles_view(tiles@) =~= Seq::empty());
            return tiles;
        },
    };
    let ghost l = list_view(list@);
    let mut i: usize = 0;
    assert(tiles_view(tiles@) =~= tile_entities(l.take(0)));
    while i < list.len()
        invariant
            i <= list@.len(),
            l == list_view(list@),
            tiles_view(tiles@) == tile_entities(l.take(i as int)),
        decreases list@.len() - i,
    {
        proof {
            assert(l.take(i + 1).drop_last() =~= l.take(i as int));
            assert(l.take(i + 1).last() == l[i as int]);
        }
        if let NbtValue::Compound(compound) = &list[i] {
            let tile = TileEntity {
                x: int_or_0(compound, "x"),
                y: int_or_0(compound, "y"),
                z: int_or_0(compound, "z"),
                raw_nbt: serialize_nbt_value(&list[i]),
            };
            let ghost before = tiles@;
            tiles.push(tile);
            assert(tiles_view(tiles@) =~= tiles_view(before).push(tile@));
        }
        i += 1;
    }
    assert(l.take(i as int) =~= l);
    tiles
}

/// The region that a compound describes.
fn parse_region(name: &String, region: &NameMap<NbtValue>) -> (r: Result<Region, String>)
    ensures
        match (r, region_of(name@, entries_view(region.entries@))) {
            (Ok(v), Ok(s)) => v@ == s,
            (Err(e), Err(m)) => e@ == m,
            _ => false,
        },
{
    let position = match get_int_triple(region, "Position") {
        Ok(p) => p,
        Err(e) => return Err(e),
    };
    let size = match get_int_triple(region, "Size") {
        Ok(s) => s,
        Err(e) => return Err(e),
    };
    let palette = match parse_palette(region) {
        Ok(p) => p,
        Err(e) => return Err(e),
    };
    let packed = match get_long_array(region, "BlockStates") {
        Ok(p) => p,
        Err(e) => return Err(e),
    };
    let tile_entities = parse_tile_entities(region);
    let total: usize = match checked_volume(size) {
        Ok(t) => t,
        Err(e) => return Err(e),
    };
    proof {
        let w = index_width(palette@.len());
        lemma_width(palette@.len());
        assert(total * w <= 67108864 * 32) by (nonlinear_arith)
            requires
                0 <= total <= 67108864,
                0 <= w <= 32,
        ;
        assert(palette_view(palette@).len() == palette@.len());
    }
    let block_indices = unpack_litematica(packed.as_slice(), palette.len(), total);
    Ok(Region { name: name.clone(), position, size, palette, block_indices, tile_entities })
}

/// The schematic in an unpacked litematica file.
pub fn litematica_from_nbt(raw: &[u8]) -> (r: Result<Schematic, String>)
    ensures
        match (r, litematica_of(raw@)) {
            (Ok(v), Ok(s)) => v@ == s,
            (Err(e), Err(m)) => e@ == m,
            _ => false,
        },
{
    let nbt = match parse_nbt(raw) {
        Ok(v) => v,
        Err(e) => return Err(e),
    };
    let root = match nbt {
        NbtValue::Compound(map) => map,
        _ => return Err("Root is not a compound".to_string()),
    };
    let name = match get_compound(&root, "Metadata") {
        Some(m) => match get_string(m, "Name") {
            Some(s) => s,
            None => "unknown".to_string(),
        },
        None => "unknown".to_string(),
    };
    let map = match get_compound(&root, "Regions") {
        Some(map) => map,
        None => return Err("Missing 'Regions' tag".to_string()),
    };
    let mut regions: Vec<Region> = Vec::new();
    let ghost s = entries_view(map.entries@);
    let mut i: usize = 0;
    assert(regions_of(s.take(0)) == Ok::<Seq<RegionView>, Seq<char>>(Seq::empty()));
    assert(regions_view(regions@) =~= Seq::empty());
    while i < map.entries.len()
        invariant
            i <= map.entries@.len(),
            s == entries_view(map.entries@),
            regions_of(s.take(i as int)) == Ok::<Seq<RegionView>, Seq<char>>(
                regions_view(regions@),
            ),
            file_value(raw@) == Ok::<Seq<(Seq<char>, Nbt)>, Seq<char>>(entries_view(root.entries@)),
            compound_in(entries_view(root.entries@), "Regions"@) == Some(s),
        decreases map.entries@.len() - i,
    {
        proof {
            assert(s.take(i + 1).drop_last() =~= s.take(i as int));
            assert(s.take(i + 1).last() == s[i as int]);
        }
        if let NbtValue::Compound(compound) = &map.entries[i].1 {
            match parse_region(&map.entries[i].0, compound) {
                Ok(region) => {
                    let ghost before = regions@;
                    regions.push(region);
                    assert(regions_view(regions@) =~= regions_view(before).push(region@));
                },
                Err(e) => {
                    proof {
                        lemma_first_error(s, i + 1);
                    }
                    return Err(e);
                },
            }
        }
        i += 1;
    }
    assert(s.take(i as int) =~= s);
    Ok(Schematic { name, regions })
}

/// The schematic in a litematica file.
pub fn parse_litematica(data: &[u8]) -> (r: Result<Schematic, String>)
    ensures
        match (r, litematica_file(data@)) {
            (Ok(v), Ok(s)) => v@ == s,
            (Err(e), Err(m)) => e@ == m,
            _ => false,
        },
{
    match gunzip(data) {
        Ok(raw) => litematica_from_nbt(raw.as_slice()),
        Err(m) => {
            let mut e = "GZIP decode failed: ".to_string();
            e.append(m.as_str());
            Err(e)
        },
    }
}

} // verus!
