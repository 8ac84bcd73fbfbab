//! Writing `.schem` files, and what reading gives back of them.
use vstd::prelude::*;
use vstd::string::*;
use vstd::utf8::*;

use crate::block_string::{state_in, well_bracketed};
use crate::gzip::{gunzipped, gzip, gzipped};
use crate::names::{distinct, has_name, lemma_lookup_entry, lemma_slot_is, NameMap};
use crate::nbt::{entries_view, Nbt, NbtValue};
use crate::nbt_laws::{entries_writable, law_file_reads_back, short_text, writable};
use crate::nbt_write::{payload, serialize_nbt_value};
use crate::schem::{
    assigned, last_index, palette_readable, schem_blocks, schem_file, schem_of, schem_palette,
    schem_readable, schem_root, schem_size, state_at,
};
use crate::schematic::{abs, volume_of, RegionView, SchematicView, MAX_SCHEM_BLOCKS};
use crate::text::trim_all;
use crate::varint::{encode_varint_array, law_varints_read_back, lemma_varints_len, varints};

verus! {

/// The palette as a compound: each block state's text with its index.
pub open spec fn palette_compound(palette: Seq<(Seq<char>, u16)>) -> Seq<(Seq<char>, Nbt)> {
    palette.map_values(|e: (Seq<char>, u16)| (e.0, Nbt::Int(e.1 as i32)))
}

/// The compound that a `.schem` file of the second version holds.
pub open spec fn schem_compound(
    palette: Seq<(Seq<char>, u16)>,
    indices: Seq<u16>,
    size: (i32, i32, i32),
) -> Seq<(Seq<char>, Nbt)> {
    seq![
        ("Version"@, Nbt::Int(2)),
        ("DataVersion"@, Nbt::Int(3837)),
        ("Width"@, Nbt::Short(size.0 as i16)),
        ("Height"@, Nbt::Short(size.1 as i16)),
        ("Length"@, Nbt::Short(size.2 as i16)),
        ("Palette"@, Nbt::Compound(palette_compound(palette))),
        ("BlockData"@, Nbt::ByteArray(varints(indices))),
        ("Metadata"@, Nbt::Compound(Seq::empty())),
    ]
}

/// Puts a new entry behind the others.
fn push_entry(map: &mut NameMap<NbtValue>, name: String, value: NbtValue)
    ensures
        entries_view(final(map).entries@) == entries_view(old(map).entries@).push((name@, value@)),
{
    let ghost before = entries_view(map.entries@);
    let ghost e = (name@, value@);
    map.entries.push((name, value));
    assert(entries_view(map.entries@) =~= before.push(e));
}

/// The compound that a `.schem` file holds, for blocks in YZX order. A size that does not fit
/// sixteen bits is cut off.
pub fn build_schem_nbt(
    palette_strings: &NameMap<u16>,
    indices: &[u16],
    size: (i32, i32, i32),
) -> (r: NbtValue)
    ensures
        r@ == Nbt::Compound(schem_compound(palette_strings@, indices@, size)),
{
    let mut palette: NameMap<NbtValue> = NameMap::new();
    let ghost p = palette_strings@;
    let mut i: usize = 0;
    assert(palette@.len() == 0);
    assert(entries_view(palette.entries@) =~= palette_compound(p.take(0)));
    while i < palette_strings.entries.len()
        invariant
            i <= palette_strings.entries@.len(),
            p == palette_strings@,
            entries_view(palette.entries@) == palette_compound(p.take(i as int)),
        decreases palette_strings.entries@.len() - i,
    {
        let idx: u16 = palette_strings.entries[i].1;
        push_entry(
            &mut palette,
            palette_strings.entries[i].0.as_str().to_owned(),
            NbtValue::Int(idx as i32),
        );
        assert(palette_compound(p.take(i + 1)) =~= palette_compound(p.take(i as int)).push(
            (p[i as int].0, Nbt::Int(p[i as int].1 as i32)),
        ));
        i += 1;
    }
    assert(p.take(i as int) =~= p);
    let data = encode_varint_array(indices);
    let mut map: NameMap<NbtValue> = NameMap::new();
    let metadata: NameMap<NbtValue> = NameMap::new();
    assert(map@.len() == 0);
    assert(entries_view(map.entries@) =~= Seq::empty());
    push_entry(&mut map, "Version".to_string(), NbtValue::Int(2));
    push_entry(&mut map, "DataVersion".to_string(), NbtValue::Int(3837));
    push_entry(&mut map, "Width".to_string(), NbtValue::Short(#[verifier::truncate] (size.0 as i16)));
    push_entry(&mut map, "Height".to_string(), NbtValue::Short(#[verifier::truncate] (size.1 as i16)));
    push_entry(&mut map, "Length".to_string(), NbtValue::Short(#[verifier::truncate] (size.2 as i16)));
    push_entry(&mut map, "Palette".to_string(), NbtValue::Compound(palette));
    push_entry(&mut map, "BlockData".to_string(), NbtValue::ByteArray(data));
    push_entry(&mut map, "Metadata".to_string(), NbtValue::Compound(metadata));
    assert(metadata@.len() == 0);
    assert(entries_view(metadata.entries@) =~= Seq::empty());
    assert(entries_view(map.entries@) =~= schem_compound(p, indices@, size));
    NbtValue::Compound(map)
}

/// The bytes of a file of NBT before they are packed. A value that is no compound leaves only
/// the head.
pub open spec fn nbt_file(value: Nbt) -> Seq<u8> {
    seq![10u8, 0u8, 0u8] + (if value is Compound {
        payload(value)
    } else {
        Seq::empty()
    })
}

/// A packed file of NBT that holds the value. Unpacking it gives back what was packed.
pub fn write_schem_bytes(nbt: &NbtValue) -> (r: Result<Vec<u8>, String>)
    ensures
        match (r, gzipped(nbt_file(nbt@))) {
            (Ok(v), Ok(Ok(s))) => v@ == s && gunzipped(v@) == Ok::<Seq<u8>, Seq<char>>(
                nbt_file(nbt@),
            ),
            (Err(e), Ok(Err(m))) => e@ == "GZIP finish failed: "@ + m,
            (Err(e), Err(m)) => e@ == "GZIP encode failed: "@ + m,
            _ => false,
        },
{
    let raw = serialize_nbt_value(nbt);
    match gzip(raw.as_slice()) {
        Ok(Ok(bytes)) => Ok(bytes),
        Ok(Err(m)) => {
            let mut e = "GZIP finish failed: ".to_string();
            e.append(m.as_str());
            Err(e)
        },
        Err(m) => {
            let mut e = "GZIP encode failed: ".to_string();
            e.append(m.as_str());
            Err(e)
        },
    }
}

/// Text of few ASCII characters is short.
proof fn lemma_ascii_short(s: Seq<char>)
    requires
        s.len() <= 32767,
        is_ascii_chars(s),
    ensures
        short_text(s),
{
    is_ascii_chars_encode_utf8(s);
}

/// The names in a `.schem` file are distinct and short, and the ones of other layouts are
/// absent.
proof fn lemma_schem_names(
    palette: Seq<(Seq<char>, u16)>,
    indices: Seq<u16>,
    size: (i32, i32, i32),
)
    ensures
        ({
            let c = schem_compound(palette, indices, size);
            &&& distinct(c)
            &&& forall|i: int| 0 <= i < c.len() ==> short_text((#[trigger] c[i]).0)
            &&& !has_name(c, "Schematic"@)
            &&& !has_name(c, "Blocks"@)
            &&& !has_name(c, "BlockEntities"@)
            &&& !has_name(c, "TileEntities"@)
        }),
{
    let c = schem_compound(palette, indices, size);
    reveal_strlit("Version");
    reveal_strlit("DataVersion");
    reveal_strlit("Width");
    reveal_strlit("Height");
    reveal_strlit("Length");
    reveal_strlit("Palette");
    reveal_strlit("BlockData");
    reveal_strlit("Metadata");
    reveal_strlit("Schematic");
    reveal_strlit("Blocks");
    reveal_strlit("BlockEntities");
    reveal_strlit("TileEntities");
    assert("Version"@[0] != "Palette"@[0]);
    assert("Height"@[0] != "Length"@[0]);
    assert("Schematic"@[0] != "BlockData"@[0]);
    assert("Blocks"@[0] != "Height"@[0]);
    assert("Blocks"@[0] != "Length"@[0]);
    assert(c[0].0.len() == 7 && c[1].0.len() == 11 && c[2].0.len() == 5 && c[3].0.len() == 6);
    assert(c[4].0.len() == 6 && c[5].0.len() == 7 && c[6].0.len() == 9 && c[7].0.len() == 8);
    assert forall|k: int| 0 <= k < 8 implies (#[trigger] c[k]).0 != "Schematic"@ && c[k].0
        != "Blocks"@ && c[k].0 != "BlockEntities"@ && c[k].0 != "TileEntities"@ by {
        if k < 4 {
            assert(k == 0 || k == 1 || k == 2 || k == 3);
        } else {
            assert(k == 4 || k == 5 || k == 6 || k == 7);
        }
    }
    lemma_slot_is(c, "Schematic"@, 8);
    lemma_slot_is(c, "Blocks"@, 8);
    lemma_slot_is(c, "BlockEntities"@, 8);
    lemma_slot_is(c, "TileEntities"@, 8);
    lemma_ascii_short("Version"@);
    lemma_ascii_short("DataVersion"@);
    lemma_ascii_short("Width"@);
    lemma_ascii_short("Height"@);
    lemma_ascii_short("Length"@);
    lemma_ascii_short("Palette"@);
    lemma_ascii_short("BlockData"@);
    lemma_ascii_short("Metadata"@);
}

/// What loading gives of blocks that were saved with a palette and a size.
pub open spec fn loaded(
    palette: Seq<(Seq<char>, u16)>,
    indices: Seq<u16>,
    size: (i32, i32, i32),
    filename: Seq<char>,
) -> SchematicView {
    SchematicView {
        name: trim_all(filename, ".schem"@),
        regions: seq![
            RegionView {
                name: "main"@,
                position: seq![0i32, 0i32, 0i32],
                size: seq![size.0, size.1, size.2],
                palette: schem_palette(palette_compound(palette)),
                block_indices: indices,
                tile_entities: Seq::empty(),
            },
        ],
    }
}

/// Whether the format can hold a palette, block indices and a size: the size fits sixteen bits
/// and tells the number of blocks, which is not too large, and the palette's texts are distinct
/// and short.
pub open spec fn savable(
    palette: Seq<(Seq<char>, u16)>,
    indices: Seq<u16>,
    size: (i32, i32, i32),
) -> bool {
    &&& -32768 <= size.0 <= 32767
    &&& -32768 <= size.1 <= 32767
    &&& -32768 <= size.2 <= 32767
    &&& abs(size.0 as int) * abs(size.1 as int) * abs(size.2 as int) == indices.len()
    &&& indices.len() <= MAX_SCHEM_BLOCKS
    &&& distinct(palette)
    &&& forall|k: int| 0 <= k < palette.len() ==> short_text((#[trigger] palette[k]).0)
}

/// The palette indices are sixteen bits wide.
proof fn lemma_palette_bound(palette: Seq<(Seq<char>, u16)>)
    ensures
        0 <= last_index(palette_compound(palette)) < 65536,
    decreases palette.len(),
{
    if palette.len() > 0 {
        lemma_palette_bound(palette.drop_last());
        assert(palette_compound(palette).drop_last() =~= palette_compound(palette.drop_last()));
    }
}

/// The compound of a file can be written.
proof fn lemma_schem_writable(
    palette: Seq<(Seq<char>, u16)>,
    indices: Seq<u16>,
    size: (i32, i32, i32),
)
    requires
        savable(palette, indices, size),
    ensures
        writable(Nbt::Compound(schem_compound(palette, indices, size))),
{
    let c = schem_compound(palette, indices, size);
    let p = palette_compound(palette);
    lemma_schem_names(palette, indices, size);
    lemma_varints_len(indices);
    assert(distinct(p));
    assert forall|k: int| 0 <= k < p.len() implies short_text((#[trigger] p[k]).0) && writable(
        p[k].1,
    ) by {
        assert(p[k].0 == palette[k].0);
    }
    assert(writable(Nbt::Compound(p)));
    assert(writable(Nbt::Compound(Seq::empty())));
    assert(entries_writable(c)) by {
        assert forall|i: int| 0 <= i < c.len() implies short_text((#[trigger] c[i]).0) && writable(
            c[i].1,
        ) by {
            if i < 5 {
                assert(i == 0 || i == 1 || i == 2 || i == 3 || i == 4);
            } else {
                assert(i == 5 || i == 6 || i == 7);
            }
        }
    }
}

/// Blocks that were saved load again: a packed file that unpacks to what was written gives back
/// the size, the block indices and the palette, and only a palette text that cannot be taken
/// apart keeps the file from being read.
pub proof fn law_saved_schematic_loads(
    palette: Seq<(Seq<char>, u16)>,
    indices: Seq<u16>,
    size: (i32, i32, i32),
    bytes: Seq<u8>,
    filename: Seq<char>,
)
    requires
        savable(palette, indices, size),
    ensures
        schem_readable(nbt_file(Nbt::Compound(schem_compound(palette, indices, size)))) == (forall|
            k: int,
        |
            0 <= k < palette.len() ==> well_bracketed((#[trigger] palette[k]).0)),
        schem_of(nbt_file(Nbt::Compound(schem_compound(palette, indices, size))), filename) == Ok::<
            SchematicView,
            Seq<char>,
        >(loaded(palette, indices, size, filename)),
        gunzipped(bytes) == Ok::<Seq<u8>, Seq<char>>(
            nbt_file(Nbt::Compound(schem_compound(palette, indices, size))),
        ) ==> schem_file(bytes, filename) == Ok::<SchematicView, Seq<char>>(
            loaded(palette, indices, size, filename),
        ),
{
    let c = schem_compound(palette, indices, size);
    let p = palette_compound(palette);
    lemma_schem_names(palette, indices, size);
    lemma_schem_writable(palette, indices, size);
    lemma_palette_bound(palette);
    law_file_reads_back(c);
    assert(varints(indices).subrange(0, varints(indices).len() as int) =~= varints(indices));
    law_varints_read_back(varints(indices), 0, indices);
    lemma_lookup_entry(c, 2);
    lemma_lookup_entry(c, 3);
    lemma_lookup_entry(c, 4);
    lemma_lookup_entry(c, 5);
    lemma_lookup_entry(c, 6);
    assert(schem_root(c) == c);
    assert(size.0 as i16 == size.0 && size.1 as i16 == size.1 && size.2 as i16 == size.2);
    let dims = seq![size.0, size.1, size.2];
    assert(schem_size(c)->Ok_0 =~= dims);
    assert(schem_blocks(c) == Ok::<(Seq<(Seq<char>, Nbt)>, Seq<i8>), Seq<char>>(
        (p, varints(indices)),
    ));
    assert(volume_of(dims) == Ok::<int, Seq<char>>(indices.len() as int));
    assert(palette_readable(p) == (forall|k: int|
        0 <= k < palette.len() ==> well_bracketed((#[trigger] palette[k]).0))) by {
        assert forall|k: int| 0 <= k < palette.len() implies (#[trigger] palette[k]).0 == p[k].0
            && assigned(p[k]) is Some by {}
        if palette_readable(p) {
            assert forall|k: int| 0 <= k < palette.len() implies well_bracketed(
                (#[trigger] palette[k]).0,
            ) by {
                assert(well_bracketed(p[k].0));
            }
        }
    }
}

/// An index of a saved palette loads as the block state of the last text that was saved with it.
pub proof fn law_saved_palette_loads(palette: Seq<(Seq<char>, u16)>, k: int)
    requires
        0 <= k < palette.len(),
        forall|j: int| k < j < palette.len() ==> (#[trigger] palette[j]).1 != palette[k].1,
    ensures
        palette[k].1 < schem_palette(palette_compound(palette)).len(),
        schem_palette(palette_compound(palette))[palette[k].1 as int] == state_in(palette[k].0),
    decreases palette.len(),
{
    let p = palette_compound(palette);
    lemma_palette_bound(palette);
    assert(p.drop_last() =~= palette_compound(palette.drop_last()));
    assert(p.last() == (palette.last().0, Nbt::Int(palette.last().1 as i32)));
    if k < palette.len() - 1 {
        assert(palette[palette.len() - 1].1 != palette[k].1);
        let q = palette.drop_last();
        assert forall|j: int| k < j < q.len() implies (#[trigger] q[j]).1 != q[k].1 by {
            assert(q[j] == palette[j]);
        }
        law_saved_palette_loads(q, k);
        assert(state_at(p, palette[k].1 as int) == state_at(p.drop_last(), palette[k].1 as int));
    }
}

} // verus!
