//! That the views of values show what the values hold, field by field and entry by entry.
use vstd::prelude::*;

use crate::clipboard::{placed_tiles, Clipboard};
use crate::commands::{clip_view, fails, tells, Refusal};
use crate::grid::BlockPos;
use crate::history::PlayerHistory;
use crate::host::{info_view, BlockStateInfo};
use crate::ipc::{fields_view, found_view, result_view, AppError, HostPath, JsonField, JsonView};
use crate::messages::{notices_view, Notice};
use crate::names::{lookup, NameMap};
use crate::nbt::{
    bytes_in, compound_in, entries_view, int_in, ints_in, list_in, list_view, longs_in, short_in,
    text_in, Nbt, NbtValue,
};
use crate::placement::{queued_tiles, TileEntityPlacement};
use crate::schematic::{PaletteEntry, Region, Schematic, TileEntity};
use crate::selection::map_view;

verus! {

/// A clipboard's view has its name, size, offset, blocks and block entities.
pub proof fn law_clipboard_view_shows_the_fields(c: Clipboard, k: int)
    ensures
        c@.name == c.name@,
        c@.blocks == c.blocks@,
        c@.size_x == c.size_x && c@.size_y == c.size_y && c@.size_z == c.size_z,
        c@.offset == c.offset,
        c@.tile_entities.len() == c.tile_entities@.len(),
        0 <= k < c.tile_entities@.len() ==> c@.tile_entities[k] == (
            c.tile_entities@[k].0,
            c.tile_entities@[k].1@,
        ),
{
}

/// Block entities to be stored are shown with their positions and data.
pub proof fn law_stored_entities_show_place_and_data(
    a: Seq<(BlockPos, Vec<u8>)>,
    b: Seq<TileEntityPlacement>,
    k: int,
)
    ensures
        placed_tiles(a).len() == a.len(),
        queued_tiles(b).len() == b.len(),
        0 <= k < a.len() ==> placed_tiles(a)[k] == (a[k].0, a[k].1@),
        0 <= k < b.len() ==> queued_tiles(b)[k] == (b[k].pos, b[k].nbt@),
{
}

/// A region's view has its name, position, size, palette, indices and block entities.
pub proof fn law_region_view_shows_the_fields(r: Region, s: Schematic, k: int)
    ensures
        r@.name == r.name@,
        r@.position == r.position@ && r@.size == r.size@,
        r@.block_indices == r.block_indices@,
        r@.palette.len() == r.palette@.len(),
        r@.tile_entities.len() == r.tile_entities@.len(),
        0 <= k < r.palette@.len() ==> r@.palette[k] == r.palette@[k]@,
        0 <= k < r.tile_entities@.len() ==> r@.tile_entities[k] == r.tile_entities@[k]@,
        s@.name == s.name@,
        s@.regions.len() == s.regions@.len(),
        0 <= k < s.regions@.len() ==> s@.regions[k] == s.regions@[k]@,
{
}

/// A palette entry's view has its name and properties, and a block entity's its place and data.
pub proof fn law_entry_views_show_the_fields(
    p: PaletteEntry,
    t: TileEntity,
    b: BlockStateInfo,
    k: int,
)
    ensures
        p@.name == p.name@,
        p@.properties.len() == p.properties@.len(),
        0 <= k < p.properties@.len() ==> p@.properties[k] == (
            p.properties@[k].0,
            p.properties@[k].1@,
        ),
        t@.x == t.x && t@.y == t.y && t@.z == t.z && t@.raw_nbt == t.raw_nbt@,
        b@.name == b.name@,
        b@.properties.len() == b.properties@.len(),
        0 <= k < b.properties@.len() ==> b@.properties[k] == (
            b.properties@[k].0@,
            b.properties@[k].1@,
        ),
        info_view(Some(b)) == Some(b@),
        info_view(None) is None,
{
}

/// The view of an NBT value has the same type and contents.
pub proof fn law_nbt_view_shows_the_value(v: NbtValue, k: int)
    ensures
        v matches NbtValue::Byte(n) ==> v@ == Nbt::Byte(n),
        v matches NbtValue::Short(n) ==> v@ == Nbt::Short(n),
        v matches NbtValue::Int(n) ==> v@ == Nbt::Int(n),
        v matches NbtValue::Long(n) ==> v@ == Nbt::Long(n),
        v matches NbtValue::Float(n) ==> v@ == Nbt::Float(n),
        v matches NbtValue::Double(n) ==> v@ == Nbt::Double(n),
        v matches NbtValue::ByteArray(a) ==> v@ == Nbt::ByteArray(a@),
        v matches NbtValue::IntArray(a) ==> v@ == Nbt::IntArray(a@),
        v matches NbtValue::LongArray(a) ==> v@ == Nbt::LongArray(a@),
        v matches NbtValue::String(s) ==> v@ == Nbt::Text(s@),
        v matches NbtValue::List(l) ==> (v@ matches Nbt::List(w) && w.len() == l@.len() && (0 <= k
            < w.len() ==> w[k] == l@[k]@)),
        v matches NbtValue::Compound(m) ==> (v@ matches Nbt::Compound(w) && w.len()
            == m.entries@.len() && (0 <= k < w.len() ==> w[k] == (
            m.entries@[k].0@,
            m.entries@[k].1@,
        ))),
{
    if let NbtValue::List(l) = v {
        assert(list_view(l@).len() == l@.len());
    }
    if let NbtValue::Compound(m) = v {
        assert(entries_view(m.entries@).len() == m.entries@.len());
    }
}

/// A value is found under its name if it has the type that is asked for, and only then.
pub proof fn law_values_are_found_by_type(c: Seq<(Seq<char>, Nbt)>, key: Seq<char>)
    ensures
        short_in(c, key) == (match lookup(c, key) {
            Some(Nbt::Short(v)) => Some(v),
            _ => None,
        }),
        int_in(c, key) == (match lookup(c, key) {
            Some(Nbt::Int(v)) => Some(v),
            _ => None,
        }),
        text_in(c, key) == (match lookup(c, key) {
            Some(Nbt::Text(v)) => Some(v),
            _ => None,
        }),
        list_in(c, key) == (match lookup(c, key) {
            Some(Nbt::List(v)) => Some(v),
            _ => None,
        }),
        compound_in(c, key) == (match lookup(c, key) {
            Some(Nbt::Compound(v)) => Some(v),
            _ => None,
        }),
        bytes_in(c, key) == (match lookup(c, key) {
            Some(Nbt::ByteArray(v)) => Some(v),
            _ => None,
        }),
        ints_in(c, key) == (match lookup(c, key) {
            Some(Nbt::IntArray(v)) => Some(v),
            _ => None,
        }),
        longs_in(c, key) == (match lookup(c, key) {
            Some(Nbt::LongArray(v)) => Some(v),
            _ => None,
        }),
{
}

/// Messages and refusals are shown as they are.
pub proof fn law_messages_are_shown_as_they_are(
    n: Notice,
    s: Seq<Notice>,
    e: AppError,
    r: Refusal,
    text: Seq<char>,
    k: int,
)
    ensures
        n@ == (n.level, n.text@),
        notices_view(s).len() == s.len(),
        0 <= k < s.len() ==> notices_view(s)[k] == (s[k].level, s[k].text@),
        e@ == (e.code@, e.message@),
        tells(r, text) <==> (r matches Refusal::Message(t) && t@ == text),
        fails(r, text) <==> (r matches Refusal::Failure(t) && t@ == text),
{
}

/// The fields of a reply are shown with their names and values.
pub proof fn law_fields_are_shown_as_they_are(f: JsonField, s: Seq<(String, JsonField)>, k: int)
    ensures
        f matches JsonField::Bool(b) ==> f@ == JsonView::Bool(b),
        f matches JsonField::Num(n) ==> f@ == JsonView::Num(n),
        f matches JsonField::Text(t) ==> f@ == JsonView::Text(t@),
        f matches JsonField::List(l) ==> (f@ matches JsonView::List(w) && w.len() == l@.len() && (0
            <= k < w.len() ==> w[k] == l@[k]@)),
        fields_view(s).len() == s.len(),
        0 <= k < s.len() ==> fields_view(s)[k] == (s[k].0@, s[k].1@),
{
}

/// A history's view has its two stacks.
pub proof fn law_history_view_shows_the_stacks(h: PlayerHistory)
    ensures
        h@.undo == h.undo_stack@,
        h@.redo == h.redo_stack@,
{
}

/// A map's view has its entries in order, and the map is well formed exactly if no name occurs twice.
pub proof fn law_map_view_shows_the_entries<V>(m: NameMap<V>, k: int)
    ensures
        m@.len() == m.entries@.len(),
        0 <= k < m.entries@.len() ==> m@[k] == (m.entries@[k].0@, m.entries@[k].1),
        m.wf() <==> forall|i: int, j: int|
            0 <= i < j < m@.len() ==> (#[trigger] m@[i]).0 != (#[trigger] m@[j]).0,
{
}

/// What is there is shown as it is, and so is that nothing is there.
pub proof fn law_what_is_there_is_shown<V>(
    m: &NameMap<V>,
    c: &Clipboard,
    fields: Vec<(String, JsonField)>,
    e: AppError,
    p: HostPath,
    reason: String,
)
    ensures
        map_view(Some(m)) == Some(m@),
        map_view(None::<&NameMap<V>>) is None,
        clip_view(Some(c)) == Some(c@),
        clip_view(None) is None,
        result_view(Ok(fields)) == Ok::<Seq<(Seq<char>, JsonView)>, (Seq<char>, Seq<char>)>(
            fields_view(fields@),
        ),
        result_view(Err(e)) == Err::<Seq<(Seq<char>, JsonView)>, (Seq<char>, Seq<char>)>(e@),
        found_view(Err(reason)) == Err::<(bool, Seq<bool>, Option<Seq<char>>), Seq<char>>(reason@),
        found_view(Ok(p)) matches Ok((is_file, inside, text)) && is_file == p.is_file && inside
            == p.inside@ && match p.text {
            Some(t) => text == Some(t@),
            None => text is None,
        },
{
}

} // verus!
