//! Which parts of a schematic file become which parts of a schematic.
use vstd::prelude::*;
use vstd::string::*;

use crate::block_string::{state_in, well_bracketed};
use crate::gzip::gunzipped;
use crate::litematica::{
    litematica_of, palette_entries, palette_entry, region_of, regions_of, string_entries,
    tile_entities, tile_entity,
};
use crate::names::{has_name, lemma_slot, lookup, put, slot};
use crate::nbt::{compound_in, short_in, Nbt};
use crate::nbt_read::file_value;
use crate::nbt_write::file_bytes;
use crate::packing::{index_width, packed_index};
use crate::schem::{
    assigned, block_entities, block_entities_in, block_entity, last_index, palette_readable,
    schem_blocks, schem_file_readable, schem_of, schem_palette, schem_readable, schem_root,
    schematic_file, state_at,
};
use crate::schem_write::{nbt_file, schem_compound};
use crate::schematic::{
    abs, indexed, volume_of, PaletteView, RegionView, SchematicView, TileView,
};
use crate::text::{decimal, lemma_first_is, trim_all};
use crate::text_laws::law_ends_are_told;
use crate::varint::{varints, varints_at};

verus! {

/// A name finds the value of the first entry that carries it, and nothing where none does.
pub proof fn law_name_finds_first_entry<W>(s: Seq<(Seq<char>, W)>, key: Seq<char>, i: int)
    ensures
        0 <= i < s.len() && s[i].0 == key && (forall|j: int|
            0 <= j < i ==> (#[trigger] s[j]).0 != key) ==> lookup(s, key) == Some(s[i].1) && has_name(
            s,
            key,
        ),
        (forall|j: int| 0 <= j < s.len() ==> (#[trigger] s[j]).0 != key) ==> lookup(s, key)
            == None::<W> && !has_name(s, key),
{
    lemma_slot(s, key);
}

/// What is stored under a name is found under it, and nothing else moves or changes.
pub proof fn law_stored_value_is_found<W>(
    s: Seq<(Seq<char>, W)>,
    key: Seq<char>,
    value: W,
    other: Seq<char>,
)
    ensures
        lookup(put(s, key, value), key) == Some(value),
        other != key ==> lookup(put(s, key, value), other) == lookup(s, other),
        lookup(s, key) is None ==> put(s, key, value) == s.push((key, value)),
        lookup(s, key) is Some ==> put(s, key, value).len() == s.len(),
        forall|i: int|
            0 <= i < s.len() ==> (#[trigger] put(s, key, value)[i]).0 == s[i].0 && (s[i].0 != key
                ==> put(s, key, value)[i] == s[i]),
{
    let t = put(s, key, value);
    lemma_slot(s, key);
    lemma_slot(t, key);
    lemma_slot(s, other);
    lemma_slot(t, other);
    let a = slot(s, key);
    let b = slot(t, key);
    if b < a {
        assert(s[b].0 != key);
        assert(t[b] == s[b]);
    } else if a < b {
        assert(t[a].0 != key);
    }
    if other != key {
        let p = slot(s, other);
        let q = slot(t, other);
        if p < q && p < s.len() {
            assert(t[p].0 != other);
        } else if q < p && q < t.len() {
            if q < s.len() {
                assert(s[q].0 != other);
            }
        }
    }
}

/// The number that an entry holds, 0 where it holds none.
pub open spec fn number_or_zero(v: Option<Nbt>) -> i32 {
    match v {
        Some(Nbt::Int(n)) => n,
        _ => 0,
    }
}

/// A block entity of a `.schem` file lies where the first three numbers under `Pos` say, in the
/// order x, y, z. Where there are no such numbers, it lies where those under `x`, `y` and `z` say.
pub proof fn law_block_entity_lies_at_its_pos(c: Seq<(Seq<char>, Nbt)>, pos: Seq<i32>)
    ensures
        lookup(c, "Pos"@) == Some(Nbt::IntArray(pos)) && pos.len() >= 3 ==> {
            &&& block_entity(c).x == pos[0]
            &&& block_entity(c).y == pos[1]
            &&& block_entity(c).z == pos[2]
        },
        lookup(c, "Pos"@) == Some(Nbt::IntArray(pos)) && pos.len() < 3 || !(lookup(c, "Pos"@) matches Some(
            Nbt::IntArray(_),
        )) ==> {
            &&& block_entity(c).x == number_or_zero(lookup(c, "x"@))
            &&& block_entity(c).y == number_or_zero(lookup(c, "y"@))
            &&& block_entity(c).z == number_or_zero(lookup(c, "z"@))
        },
{
}

/// A block entity of a litematica file lies where the numbers under `x`, `y` and `z` say.
pub proof fn law_tile_entity_lies_at_its_numbers(c: Seq<(Seq<char>, Nbt)>)
    ensures
        tile_entity(c).x == number_or_zero(lookup(c, "x"@)),
        tile_entity(c).y == number_or_zero(lookup(c, "y"@)),
        tile_entity(c).z == number_or_zero(lookup(c, "z"@)),
{
}

/// A list of block entities is read one by one, in order; what is no compound is passed over.
pub proof fn law_block_entities_are_read_in_order(a: Seq<Nbt>, b: Seq<Nbt>, v: Nbt)
    ensures
        block_entities(Seq::empty()) == Seq::<TileView>::empty(),
        block_entities(a + b) == block_entities(a) + block_entities(b),
        v matches Nbt::Compound(c) ==> block_entities(seq![v]) == seq![block_entity(c)],
        !(v is Compound) ==> block_entities(seq![v]).len() == 0,
        tile_entities(Seq::empty()) == Seq::<TileView>::empty(),
        tile_entities(a + b) == tile_entities(a) + tile_entities(b),
        v matches Nbt::Compound(c) ==> tile_entities(seq![v]) == seq![tile_entity(c)],
        !(v is Compound) ==> tile_entities(seq![v]).len() == 0,
    decreases b.len(),
{
    assert(seq![v].drop_last() =~= Seq::empty());
    assert(block_entities(Seq::empty()) =~= Seq::empty());
    assert(tile_entities(Seq::empty()) =~= Seq::empty());
    if b.len() > 0 {
        law_block_entities_are_read_in_order(a, b.drop_last(), v);
        assert((a + b).drop_last() =~= a + b.drop_last());
        assert((a + b).last() == b.last());
        assert(block_entities(a + b) =~= block_entities(a) + block_entities(b));
        assert(tile_entities(a + b) =~= tile_entities(a) + tile_entities(b));
    } else {
        assert(a + b =~= a);
        assert(block_entities(b) =~= Seq::empty());
        assert(tile_entities(b) =~= Seq::empty());
        assert(block_entities(a + b) =~= block_entities(a) + block_entities(b));
        assert(tile_entities(a + b) =~= tile_entities(a) + tile_entities(b));
    }
}

/// The block entities of a `.schem` file are those under `BlockEntities`. Only a file without that
/// name has them under `TileEntities`.
pub proof fn law_block_entities_have_two_names(c: Seq<(Seq<char>, Nbt)>)
    ensures
        block_entities_in(c) == match lookup(c, "BlockEntities"@) {
            Some(Nbt::List(l)) => block_entities(l),
            Some(_) => Seq::empty(),
            None => match lookup(c, "TileEntities"@) {
                Some(Nbt::List(l)) => block_entities(l),
                _ => Seq::empty(),
            },
        },
{
}

/// Whether an entry of a palette gives the index to its block state.
pub open spec fn gives(e: (Seq<char>, Nbt), i: int) -> bool {
    e.1 matches Nbt::Int(n) && n == i && n >= 0
}

/// A palette has at every index the block state of the last entry that gives the index to it, and
/// air where none does. It reaches as far as the largest index, and has at least one place.
pub proof fn law_palette_holds_last_entry(p: Seq<(Seq<char>, Nbt)>, i: int, k: int)
    requires
        0 <= i,
    ensures
        0 <= k < p.len() && gives(p[k], i) ==> i < schem_palette(p).len(),
        0 <= k < p.len() && gives(p[k], i) && (forall|j: int|
            k < j < p.len() ==> !gives(#[trigger] p[j], i)) ==> schem_palette(p)[i] == state_in(
            p[k].0,
        ),
        i < schem_palette(p).len() && (forall|j: int|
            0 <= j < p.len() ==> !gives(#[trigger] p[j], i)) ==> schem_palette(p)[i] == (
        PaletteView { name: "minecraft:air"@, properties: Seq::empty() }),
        schem_palette(p).len() >= 1,
        schem_palette(p).len() > 1 ==> exists|j: int|
            0 <= j < p.len() && #[trigger] gives(p[j], schem_palette(p).len() - 1),
{
    lemma_palette(p, i, k);
    if last_index(p) > 0 {
        let j = choose|j: int| 0 <= j < p.len() && #[trigger] gives(p[j], last_index(p));
        assert(gives(p[j], schem_palette(p).len() - 1));
    }
}

proof fn lemma_palette(p: Seq<(Seq<char>, Nbt)>, i: int, k: int)
    ensures
        last_index(p) >= 0,
        0 <= k < p.len() && gives(p[k], i) ==> i <= last_index(p),
        0 <= k < p.len() && gives(p[k], i) && (forall|j: int|
            k < j < p.len() ==> !gives(#[trigger] p[j], i)) ==> state_at(p, i) == state_in(p[k].0),
        (forall|j: int| 0 <= j < p.len() ==> !gives(#[trigger] p[j], i)) ==> state_at(p, i) == (
        PaletteView { name: "minecraft:air"@, properties: Seq::empty() }),
        last_index(p) > 0 ==> exists|j: int|
            0 <= j < p.len() && #[trigger] gives(p[j], last_index(p)),
    decreases p.len(),
{
    if p.len() > 0 {
        let q = p.drop_last();
        let n = p.len() - 1;
        assert(p[n] == p.last());
        assert(forall|j: int| 0 <= j < q.len() ==> #[trigger] q[j] == p[j]);
        lemma_palette(q, i, k);
        if last_index(p) > 0 {
            if last_index(p) == last_index(q) {
                let j = choose|j: int| 0 <= j < q.len() && #[trigger] gives(q[j], last_index(q));
                assert(gives(p[j], last_index(p)));
            } else {
                assert(gives(p[n], last_index(p)));
            }
        }
        assert(gives(p[n], i) <==> assigned(p.last()) == Some(i));
        if forall|j: int| 0 <= j < p.len() ==> !gives(#[trigger] p[j], i) {
            assert forall|j: int| 0 <= j < q.len() implies !gives(#[trigger] q[j], i) by {
                assert(!gives(p[j], i));
            }
        }
        if 0 <= k < n && (forall|j: int| k < j < p.len() ==> !gives(#[trigger] p[j], i)) {
            assert forall|j: int| k < j < q.len() implies !gives(#[trigger] q[j], i) by {
                assert(!gives(p[j], i));
            }
        }
    }
}

/// The compound of a `.schem` file that describes the schematic.
pub open spec fn described_in(root: Seq<(Seq<char>, Nbt)>) -> Seq<(Seq<char>, Nbt)> {
    match lookup(root, "Schematic"@) {
        Some(Nbt::Compound(s)) => s,
        _ => root,
    }
}

/// Whether a file of NBT holds, in the `.schem` format, a schematic of the size with the palette and
/// the block data, and the block entities in the compound.
pub open spec fn describes_schem(
    raw: Seq<u8>,
    size: (i16, i16, i16),
    palette: Seq<(Seq<char>, Nbt)>,
    data: Seq<i8>,
    holder: Seq<(Seq<char>, Nbt)>,
) -> bool {
    file_value(raw) matches Ok(root) && {
        let c = described_in(root);
        &&& lookup(c, "Width"@) == Some(Nbt::Short(size.0))
        &&& lookup(c, "Height"@) == Some(Nbt::Short(size.1))
        &&& lookup(c, "Length"@) == Some(Nbt::Short(size.2))
        &&& match lookup(c, "Blocks"@) {
            Some(Nbt::Compound(b)) => {
                &&& lookup(b, "Palette"@) == Some(Nbt::Compound(palette))
                &&& lookup(b, "Data"@) == Some(Nbt::ByteArray(data))
                &&& holder == b
            },
            _ => {
                &&& lookup(c, "Palette"@) == Some(Nbt::Compound(palette))
                &&& lookup(c, "BlockData"@) == Some(Nbt::ByteArray(data))
                &&& holder == c
            },
        }
    }
}

/// A `.schem` file is one region at the origin: as wide, high and long as it says, with one palette
/// index per block.
pub proof fn law_schem_is_read_part_by_part(
    raw: Seq<u8>,
    filename: Seq<char>,
    size: (i16, i16, i16),
    palette: Seq<(Seq<char>, Nbt)>,
    data: Seq<i8>,
    holder: Seq<(Seq<char>, Nbt)>,
    indices: Seq<u16>,
)
    requires
        describes_schem(raw, size, palette, data, holder),
        forall|k: int|
            0 <= k < palette.len() ==> ((#[trigger] palette[k]).1 matches Nbt::Int(n) ==> n < 65536),
        abs(size.0 as int) * abs(size.1 as int) * abs(size.2 as int) == indices.len(),
        indices.len() <= 67108864,
        varints_at(data, 0, indices.len()) == Ok::<Seq<u16>, Seq<char>>(indices),
    ensures
        schem_of(raw, filename) == Ok::<SchematicView, Seq<char>>(
            SchematicView {
                name: trim_all(filename, ".schem"@),
                regions: seq![
                    RegionView {
                        name: "main"@,
                        position: seq![0i32, 0i32, 0i32],
                        size: seq![size.0 as i32, size.1 as i32, size.2 as i32],
                        palette: schem_palette(palette),
                        block_indices: indices,
                        tile_entities: block_entities_in(holder),
                    },
                ],
            },
        ),
{
    lemma_palette(palette, 0, 0);
    if last_index(palette) >= 65536 {
        let j = choose|j: int|
            0 <= j < palette.len() && #[trigger] gives(palette[j], last_index(palette));
        assert(palette[j].1 == Nbt::Int(last_index(palette) as i32));
    }
    let s = seq![size.0 as i32, size.1 as i32, size.2 as i32];
    assert(s[0] == size.0 && s[1] == size.1 && s[2] == size.2);
    assert(volume_of(s) == Ok::<int, Seq<char>>(indices.len() as int));
}

/// A `.schem` file that lacks a part is refused by that part's name.
pub proof fn law_incomplete_schem_is_refused(
    raw: Seq<u8>,
    filename: Seq<char>,
    root: Seq<(Seq<char>, Nbt)>,
)
    requires
        file_value(raw) == Ok::<Seq<(Seq<char>, Nbt)>, Seq<char>>(root),
    ensures
        ({
            let c = described_in(root);
            let has_width = lookup(c, "Width"@) matches Some(Nbt::Short(_));
            let has_height = lookup(c, "Height"@) matches Some(Nbt::Short(_));
            let has_length = lookup(c, "Length"@) matches Some(Nbt::Short(_));
            let sized = has_width && has_height && has_length;
            &&& !has_width ==> refused(schem_of(raw, filename), "Missing Width"@)
            &&& has_width && !has_height ==> refused(schem_of(raw, filename), "Missing Height"@)
            &&& has_width && has_height && !has_length ==> refused(
                schem_of(raw, filename),
                "Missing Length"@,
            )
            &&& match lookup(c, "Blocks"@) {
                Some(Nbt::Compound(b)) => {
                    let has_palette = lookup(b, "Palette"@) matches Some(Nbt::Compound(_));
                    let has_data = lookup(b, "Data"@) matches Some(Nbt::ByteArray(_));
                    &&& sized && !has_palette ==> refused(
                        schem_of(raw, filename),
                        "Missing Blocks.Palette"@,
                    )
                    &&& sized && has_palette && !has_data ==> refused(
                        schem_of(raw, filename),
                        "Missing Blocks.Data"@,
                    )
                },
                _ => {
                    let has_palette = lookup(c, "Palette"@) matches Some(Nbt::Compound(_));
                    let has_data = lookup(c, "BlockData"@) matches Some(Nbt::ByteArray(_));
                    &&& sized && !has_palette ==> refused(
                        schem_of(raw, filename),
                        "Missing Palette"@,
                    )
                    &&& sized && has_palette && !has_data ==> refused(
                        schem_of(raw, filename),
                        "Missing BlockData"@,
                    )
                },
            }
        }),
{
}

/// Whether a schematic is refused with the message.
pub open spec fn refused(r: Result<SchematicView, Seq<char>>, message: Seq<char>) -> bool {
    r == Err::<SchematicView, Seq<char>>(message)
}

/// The number of blocks in a box is the product of its extents, whatever their signs, and up to
/// sixty-four times two to the twentieth are accepted.
pub proof fn law_volume_is_the_product(dims: Seq<i32>)
    requires
        dims.len() == 3,
    ensures
        ({
            let n = abs(dims[0] as int) * abs(dims[1] as int) * abs(dims[2] as int);
            &&& n <= 67108864 ==> volume_of(dims) == Ok::<int, Seq<char>>(n)
            &&& 67108864 < n <= i64::MAX ==> volume_of(dims) == Err::<int, Seq<char>>(
                "Schematic too large ("@ + decimal(n) + " blocks, max 67108864)"@,
            )
            &&& n > i64::MAX ==> volume_of(dims) == Err::<int, Seq<char>>("Dimension overflow"@)
        }),
        forall|v: int| 0 <= v ==> #[trigger] abs(v) == v && abs(-v) == v,
{
}

/// Whether a compound has the three numbers under `x`, `y` and `z`.
pub open spec fn triple(v: Option<Nbt>, x: i32, y: i32, z: i32) -> bool {
    v matches Some(Nbt::Compound(t)) && lookup(t, "x"@) == Some(Nbt::Int(x)) && lookup(t, "y"@)
        == Some(Nbt::Int(y)) && lookup(t, "z"@) == Some(Nbt::Int(z))
}

/// A region of a litematica file has the position, the size, the palette, the packed indices and
/// the block entities that stand under their names.
pub proof fn law_litematica_region_is_read_part_by_part(
    name: Seq<char>,
    c: Seq<(Seq<char>, Nbt)>,
    p: (i32, i32, i32),
    s: (i32, i32, i32),
    palette: Seq<Nbt>,
    packed: Seq<i64>,
    total: nat,
)
    requires
        triple(lookup(c, "Position"@), p.0, p.1, p.2),
        triple(lookup(c, "Size"@), s.0, s.1, s.2),
        lookup(c, "BlockStatePalette"@) == Some(Nbt::List(palette)),
        lookup(c, "BlockStates"@) == Some(Nbt::LongArray(packed)),
        total == abs(s.0 as int) * abs(s.1 as int) * abs(s.2 as int),
        total <= 67108864,
    ensures
        region_of(name, c) matches Ok(r) && {
            &&& r.name == name
            &&& r.position == seq![p.0, p.1, p.2]
            &&& r.size == seq![s.0, s.1, s.2]
            &&& r.palette == palette_entries(palette)
            &&& r.block_indices.len() == total
            &&& forall|i: int|
                0 <= i < total ==> #[trigger] r.block_indices[i] == packed_index(
                    packed,
                    index_width(palette_entries(palette).len()),
                    i,
                )
            &&& r.tile_entities == match lookup(c, "TileEntities"@) {
                Some(Nbt::List(l)) => tile_entities(l),
                _ => Seq::empty(),
            }
        },
{
    let d = seq![s.0, s.1, s.2];
    assert(d[0] == s.0 && d[1] == s.1 && d[2] == s.2);
    assert(volume_of(d) == Ok::<int, Seq<char>>(total as int));
}

/// Whether a region is refused with the message.
pub open spec fn region_refused(r: Result<RegionView, Seq<char>>, message: Seq<char>) -> bool {
    r == Err::<RegionView, Seq<char>>(message)
}

/// Whether a value is a compound with a number under the name.
pub open spec fn has_number(v: Option<Nbt>, key: Seq<char>) -> bool {
    v matches Some(Nbt::Compound(t)) && lookup(t, key) matches Some(Nbt::Int(_))
}

/// Whether a value is a compound with numbers under `x`, `y` and `z`.
pub open spec fn is_triple(v: Option<Nbt>) -> bool {
    has_number(v, "x"@) && has_number(v, "y"@) && has_number(v, "z"@)
}

/// A region of a litematica file that lacks a part is refused by that part's name.
pub proof fn law_incomplete_litematica_region_is_refused(
    name: Seq<char>,
    c: Seq<(Seq<char>, Nbt)>,
)
    ensures
        ({
            let p = lookup(c, "Position"@);
            let s = lookup(c, "Size"@);
            let has_palette = lookup(c, "BlockStatePalette"@) matches Some(Nbt::List(_));
            let has_states = lookup(c, "BlockStates"@) matches Some(Nbt::LongArray(_));
            let r = region_of(name, c);
            &&& !(p matches Some(Nbt::Compound(_))) ==> region_refused(r, "Missing '"@ + "Position"@ + "'"@)
            &&& p matches Some(Nbt::Compound(_)) ==> {
                &&& !has_number(p, "x"@) ==> region_refused(r, "Missing '"@ + "Position"@ + ".x'"@)
                &&& has_number(p, "x"@) && !has_number(p, "y"@) ==> region_refused(
                    r,
                    "Missing '"@ + "Position"@ + ".y'"@,
                )
                &&& has_number(p, "x"@) && has_number(p, "y"@) && !has_number(p, "z"@)
                    ==> region_refused(r, "Missing '"@ + "Position"@ + ".z'"@)
            }
            &&& is_triple(p) && !(s matches Some(Nbt::Compound(_))) ==> region_refused(
                r,
                "Missing '"@ + "Size"@ + "'"@,
            )
            &&& is_triple(p) && (s matches Some(Nbt::Compound(_))) ==> {
                &&& !has_number(s, "x"@) ==> region_refused(r, "Missing '"@ + "Size"@ + ".x'"@)
                &&& has_number(s, "x"@) && !has_number(s, "y"@) ==> region_refused(
                    r,
                    "Missing '"@ + "Size"@ + ".y'"@,
                )
                &&& has_number(s, "x"@) && has_number(s, "y"@) && !has_number(s, "z"@)
                    ==> region_refused(r, "Missing '"@ + "Size"@ + ".z'"@)
            }
            &&& is_triple(p) && is_triple(s) && !has_palette ==> region_refused(
                r,
                "Missing BlockStatePalette"@,
            )
            &&& is_triple(p) && is_triple(s) && has_palette && !has_states ==> region_refused(
                r,
                "Missing or invalid '"@ + "BlockStates"@ + "' (expected LongArray)"@,
            )
        }),
{
}

/// A region of a litematica file with all its parts is refused if it has too many blocks.
pub proof fn law_large_litematica_region_is_refused(
    name: Seq<char>,
    c: Seq<(Seq<char>, Nbt)>,
    p: (i32, i32, i32),
    s: (i32, i32, i32),
    palette: Seq<Nbt>,
    packed: Seq<i64>,
)
    requires
        triple(lookup(c, "Position"@), p.0, p.1, p.2),
        triple(lookup(c, "Size"@), s.0, s.1, s.2),
        lookup(c, "BlockStatePalette"@) == Some(Nbt::List(palette)),
        lookup(c, "BlockStates"@) == Some(Nbt::LongArray(packed)),
    ensures
        ({
            let total = abs(s.0 as int) * abs(s.1 as int) * abs(s.2 as int);
            &&& 67108864 < total <= i64::MAX ==> region_refused(
                region_of(name, c),
                "Schematic too large ("@ + decimal(total) + " blocks, max 67108864)"@,
            )
            &&& total > i64::MAX ==> region_refused(region_of(name, c), "Dimension overflow"@)
        }),
{
    let d = seq![s.0, s.1, s.2];
    assert(d[0] == s.0 && d[1] == s.1 && d[2] == s.2);
}

/// A palette of a litematica file is read one by one, in order; what is no compound is passed over.
/// An entry has the name under `Name`, or none, and the properties under `Properties`.
pub proof fn law_litematica_palette_is_read_in_order(a: Seq<Nbt>, b: Seq<Nbt>, v: Nbt)
    ensures
        palette_entries(Seq::empty()) == Seq::<PaletteView>::empty(),
        palette_entries(a + b) == palette_entries(a) + palette_entries(b),
        v matches Nbt::Compound(c) ==> palette_entries(seq![v]) == seq![palette_entry(c)] && {
            &&& palette_entry(c).name == match lookup(c, "Name"@) {
                Some(Nbt::Text(s)) => s,
                _ => Seq::empty(),
            }
            &&& palette_entry(c).properties == match lookup(c, "Properties"@) {
                Some(Nbt::Compound(p)) => string_entries(p),
                _ => Seq::empty(),
            }
        },
        !(v is Compound) ==> palette_entries(seq![v]).len() == 0,
    decreases b.len(),
{
    assert(seq![v].drop_last() =~= Seq::empty());
    assert(palette_entries(Seq::empty()) =~= Seq::empty());
    if b.len() > 0 {
        law_litematica_palette_is_read_in_order(a, b.drop_last(), v);
        assert((a + b).drop_last() =~= a + b.drop_last());
        assert((a + b).last() == b.last());
        assert(palette_entries(a + b) =~= palette_entries(a) + palette_entries(b));
    } else {
        assert(a + b =~= a);
        assert(palette_entries(b) =~= Seq::empty());
        assert(palette_entries(a + b) =~= palette_entries(a) + palette_entries(b));
    }
}

/// The properties of a palette entry are the entries that are strings: each is found under its name,
/// and what is no string adds nothing.
pub proof fn law_properties_are_the_strings(p: Seq<(Seq<char>, Nbt)>, e: (Seq<char>, Nbt))
    ensures
        string_entries(Seq::empty()) == Seq::<(Seq<char>, Seq<char>)>::empty(),
        e.1 matches Nbt::Text(s) ==> string_entries(p.push(e)) == put(string_entries(p), e.0, s),
        !(e.1 is Text) ==> string_entries(p.push(e)) == string_entries(p),
{
    assert(p.push(e).drop_last() =~= p);
    assert(string_entries(Seq::empty()) =~= Seq::empty());
}

/// The regions of a litematica file are its compounds under `Regions`, in order, under their names;
/// what is no compound is passed over. The first that is refused is the answer.
pub proof fn law_litematica_regions_are_read_in_order(
    s: Seq<(Seq<char>, Nbt)>,
    e: (Seq<char>, Nbt),
)
    ensures
        regions_of(Seq::empty()) == Ok::<Seq<RegionView>, Seq<char>>(Seq::empty()),
        regions_of(s) matches Err(m) ==> regions_of(s.push(e)) == Err::<Seq<RegionView>, Seq<char>>(
            m,
        ),
        regions_of(s) matches Ok(rs) ==> match e.1 {
            Nbt::Compound(c) => match region_of(e.0, c) {
                Ok(r) => regions_of(s.push(e)) == Ok::<Seq<RegionView>, Seq<char>>(rs.push(r)),
                Err(m) => regions_of(s.push(e)) == Err::<Seq<RegionView>, Seq<char>>(m),
            },
            _ => regions_of(s.push(e)) == Ok::<Seq<RegionView>, Seq<char>>(rs),
        },
{
    assert(s.push(e).drop_last() =~= s);
}

/// A litematica file has the name under `Metadata`, or else is unknown by name, and the regions
/// under `Regions`, without which it is refused.
pub proof fn law_litematica_is_read_part_by_part(raw: Seq<u8>, root: Seq<(Seq<char>, Nbt)>)
    requires
        file_value(raw) == Ok::<Seq<(Seq<char>, Nbt)>, Seq<char>>(root),
    ensures
        match lookup(root, "Regions"@) {
            Some(Nbt::Compound(s)) => match regions_of(s) {
                Ok(rs) => litematica_of(raw) matches Ok(v) && v.regions == rs && v.name == match lookup(
                    root,
                    "Metadata"@,
                ) {
                    Some(Nbt::Compound(m)) => match lookup(m, "Name"@) {
                        Some(Nbt::Text(name)) => name,
                        _ => "unknown"@,
                    },
                    _ => "unknown"@,
                },
                Err(m) => refused(litematica_of(raw), m),
            },
            _ => refused(litematica_of(raw), "Missing 'Regions' tag"@),
        },
{
}

/// A file whose name ends in `.schem` is read in that format and any other in that of litematica, as
/// soon as it is unpacked. A file that cannot be unpacked is refused.
pub proof fn law_file_name_tells_the_format(data: Seq<u8>, name: Seq<char>)
    ensures
        gunzipped(data) matches Err(m) ==> refused(
            schematic_file(data, name),
            "GZIP decode failed: "@ + m,
        ),
        gunzipped(data) matches Ok(raw) ==> schematic_file(data, name + ".schem"@) == schem_of(
            raw,
            name + ".schem"@,
        ),
        gunzipped(data) matches Ok(raw) ==> (!(exists|stem: Seq<char>|
            name == #[trigger] (stem + ".schem"@)) ==> schematic_file(data, name) == litematica_of(
            raw,
        )),
{
    law_ends_are_told(name, ".schem"@, name);
}

/// A palette can be read exactly if the texts of all entries that give an index can be taken apart,
/// and a file that gets as far as its palette exactly if its palette can.
pub proof fn law_readable_files_have_readable_palettes(
    raw: Seq<u8>,
    size: (i16, i16, i16),
    palette: Seq<(Seq<char>, Nbt)>,
    data: Seq<i8>,
    holder: Seq<(Seq<char>, Nbt)>,
)
    ensures
        palette_readable(palette) <==> forall|k: int|
            0 <= k < palette.len() ==> ((#[trigger] palette[k]).1 matches Nbt::Int(n) ==> n < 0
                || well_bracketed(palette[k].0)),
        describes_schem(raw, size, palette, data, holder) ==> schem_readable(raw)
            == palette_readable(palette),
        file_value(raw) is Err ==> schem_readable(raw),
{
    let p = palette;
    if forall|k: int|
        0 <= k < palette.len() ==> ((#[trigger] palette[k]).1 matches Nbt::Int(n) ==> n < 0
            || well_bracketed(palette[k].0)) {
        assert forall|k: int| 0 <= k < p.len() && assigned(#[trigger] p[k]) is Some implies well_bracketed(
            p[k].0,
        ) by {
            let e = palette[k];
        }
    }
    if palette_readable(palette) {
        assert forall|k: int| 0 <= k < palette.len() implies ((#[trigger] palette[k]).1 matches Nbt::Int(
            n,
        ) ==> n < 0 || well_bracketed(palette[k].0)) by {
            assert(assigned(palette[k]) is Some ==> well_bracketed(palette[k].0));
        }
    }
}

/// A block state's text can be taken apart if it has no bracket, or if something of a single byte
/// stands at its end behind the first bracket.
pub proof fn law_brackets_need_an_end(name: Seq<char>, inner: Seq<char>, end: char)
    requires
        !name.contains('['),
    ensures
        well_bracketed(name),
        !well_bracketed(name.push('[')),
        well_bracketed(name.push('[') + inner.push(end)) <==> (end as u32) < 128,
{
    lemma_first_is(name, '[', name.len() as int);
    let s = name.push('[') + inner.push(end);
    let t = name.push('[');
    assert forall|k: int| 0 <= k < name.len() implies s[k] != '[' && t[k] != '[' by {
        assert(name.contains(name[k]));
    }
    assert(s[name.len() as int] == '[' && t[name.len() as int] == '[');
    lemma_first_is(s, '[', name.len() as int);
    lemma_first_is(t, '[', name.len() as int);
    assert(s.last() == end);
}

/// The compound that is saved has the version of the format and of the data, the size cut to sixteen
/// bits, the palette with its indices, and the indices of the blocks.
pub proof fn law_saved_compound_has_its_parts(
    palette: Seq<(Seq<char>, u16)>,
    indices: Seq<u16>,
    size: (i32, i32, i32),
    k: int,
)
    ensures
        ({
            let c = schem_compound(palette, indices, size);
            &&& c.len() == 8
            &&& c[0] == ("Version"@, Nbt::Int(2))
            &&& c[1] == ("DataVersion"@, Nbt::Int(3837))
            &&& c[2].0 == "Width"@ && cut_to(c[2].1, size.0)
            &&& c[3].0 == "Height"@ && cut_to(c[3].1, size.1)
            &&& c[4].0 == "Length"@ && cut_to(c[4].1, size.2)
            &&& c[5].0 == "Palette"@ && (c[5].1 matches Nbt::Compound(p) && p.len()
                == palette.len() && (0 <= k < palette.len() ==> p[k] == (
                palette[k].0,
                Nbt::Int(palette[k].1 as i32),
            )))
            &&& c[6] == ("BlockData"@, Nbt::ByteArray(varints(indices)))
            &&& c[7] == ("Metadata"@, Nbt::Compound(Seq::empty()))
            &&& nbt_file(Nbt::Compound(c)) == file_bytes(c)
        }),
{
    lemma_cut(size.0);
    lemma_cut(size.1);
    lemma_cut(size.2);
}

/// Whether a value is the number's lowest sixteen bits.
pub open spec fn cut_to(v: Nbt, n: i32) -> bool {
    v matches Nbt::Short(s) && (n - s) % 65536 == 0
}

proof fn lemma_cut(n: i32)
    ensures
        (n - (n as i16)) % 65536 == 0,
{
    assert((n as i64 - (n as i16) as i64) % 65536 == 0) by (bit_vector);
}

/// A `.schem` file with all its parts is refused if its palette is too large, if it has too many
/// blocks, if an index cannot be read, or if there are too few indices; in this order.
pub proof fn law_unfit_schem_is_refused(
    raw: Seq<u8>,
    filename: Seq<char>,
    size: (i16, i16, i16),
    palette: Seq<(Seq<char>, Nbt)>,
    data: Seq<i8>,
    holder: Seq<(Seq<char>, Nbt)>,
)
    requires
        describes_schem(raw, size, palette, data, holder),
    ensures
        ({
            let places = schem_palette(palette).len();
            let total = abs(size.0 as int) * abs(size.1 as int) * abs(size.2 as int);
            let r = schem_of(raw, filename);
            &&& places > 65536 ==> refused(
                r,
                "Palette too large ("@ + decimal(places as int) + " entries)"@,
            )
            &&& places <= 65536 && total > 67108864 ==> refused(
                r,
                "Schematic too large ("@ + decimal(total) + " blocks, max 67108864)"@,
            )
            &&& places <= 65536 && total <= 67108864 ==> match varints_at(data, 0, total as nat) {
                Err(m) => refused(r, m),
                Ok(indices) => if indices.len() == total {
                    r is Ok
                } else {
                    refused(r, "Unexpected end of varint data"@)
                },
            }
        }),
{
    lemma_palette(palette, 0, 0);
    let s = seq![size.0 as i32, size.1 as i32, size.2 as i32];
    assert(s[0] == size.0 && s[1] == size.1 && s[2] == size.2);
    let (a, b, c) = (abs(size.0 as int), abs(size.1 as int), abs(size.2 as int));
    assert(a * b <= 32768 * 32768) by (nonlinear_arith)
        requires
            0 <= a <= 32768,
            0 <= b <= 32768,
    ;
    assert(a * b * c <= 32768 * 32768 * 32768) by (nonlinear_arith)
        requires
            a * b <= 32768 * 32768,
            0 <= c <= 32768,
    ;
}

/// A region has one palette index per block exactly if it has as many as the product of its extents.
pub proof fn law_indexed_regions_have_an_index_per_block(r: RegionView)
    ensures
        indexed(r) <==> r.block_indices.len() == abs(r.size[0] as int) * abs(r.size[1] as int) * abs(
            r.size[2] as int,
        ),
{
}

/// A file can be read exactly if its palette can, where it gets that far.
pub proof fn law_only_palettes_keep_files_from_being_read(data: Seq<u8>, raw: Seq<u8>)
    ensures
        schem_readable(raw) <==> forall|
            size: (i16, i16, i16),
            palette: Seq<(Seq<char>, Nbt)>,
            blocks: Seq<i8>,
            holder: Seq<(Seq<char>, Nbt)>,
        | #[trigger]
            describes_schem(raw, size, palette, blocks, holder) ==> palette_readable(palette),
        gunzipped(data) is Err ==> schem_file_readable(data),
        gunzipped(data) == Ok::<Seq<u8>, Seq<char>>(raw) ==> schem_file_readable(data)
            == schem_readable(raw),
{
    if !schem_readable(raw) {
        let root = file_value(raw)->Ok_0;
        let c = schem_root(root);
        let (p, d) = schem_blocks(c)->Ok_0;
        let size = (
            short_in(c, "Width"@)->0,
            short_in(c, "Height"@)->0,
            short_in(c, "Length"@)->0,
        );
        let holder = match compound_in(c, "Blocks"@) {
            Some(b) => b,
            None => c,
        };
        assert(c == described_in(root));
        assert(describes_schem(raw, size, p, d, holder));
        assert(!palette_readable(p));
    }
}

} // verus!
