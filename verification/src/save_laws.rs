//! What loading gives back of a clipboard that was saved.
use vstd::prelude::*;

use crate::assemble::{
    assembled, box_min, box_tiles, box_volume, breadth, cell, highest, lowest, region_cell,
    region_tiles, state_of,
};
use crate::block_string::{add_pair, pairs_in, state_in, well_bracketed};
use crate::clipboard::ClipboardView;
use crate::grid::{lemma_extents, lemma_place, x_at, y_at, z_at, BlockPos};
use crate::names::{distinct, has_name, lemma_slot, lemma_slot_is, put, slot};
use crate::palette::{
    appearing, block_indices, joined, law_appearing_lists_states, law_palette_numbers_texts,
    palette_of, state_text,
};
use crate::schem_write::{law_saved_palette_loads, loaded, palette_compound, savable};
use crate::schem::schem_palette;
use crate::schematic::{index_of, PaletteView, Region, MAX_SCHEM_BLOCKS};
use crate::nbt_laws::short_text;
use crate::text::{first, is_white, lemma_first, lemma_first_is, trim};

verus! {

/// Each block's palette index loads as the block state of the block's text.
pub proof fn law_saved_index_loads(blocks: Seq<u16>, texts: Seq<Seq<char>>, i: int)
    requires
        texts.len() == appearing(blocks).len(),
        texts.len() <= 65536,
        0 <= i < blocks.len(),
    ensures
        ({
            let states = appearing(blocks);
            let k = block_indices(blocks, states, texts)[i];
            let p = schem_palette(palette_compound(palette_of(texts)));
            k < p.len() && p[k as int] == state_in(texts[states.index_of(blocks[i])])
        }),
{
    let states = appearing(blocks);
    let p = palette_of(texts);
    law_appearing_lists_states(blocks);
    law_palette_numbers_texts(texts);
    assert(states.contains(blocks[i]));
    let j = states.index_of(blocks[i]);
    assert(has_name(p, texts[j]));
    lemma_slot(p, texts[j]);
    let k = slot(p, texts[j]);
    assert(p[k].1 == k);
    assert forall|m: int| k < m < p.len() implies (#[trigger] p[m]).1 != p[k].1 by {
        assert(p[m].1 == m);
    }
    law_saved_palette_loads(p, k);
}

/// A region that was loaded from a saved clipboard makes up a clipboard of the same size with the
/// same blocks, if its palette resolves each block's index to the block's state.
pub proof fn law_saved_clipboard_loads(
    c: ClipboardView,
    texts: Seq<Seq<char>>,
    region: Region,
    states: Seq<Option<u16>>,
    filename: Seq<char>,
    name: Seq<char>,
)
    requires
        c.wf(),
        texts.len() == appearing(c.blocks).len(),
        c.blocks.len() <= MAX_SCHEM_BLOCKS,
        region@ == loaded(
            palette_of(texts),
            block_indices(c.blocks, appearing(c.blocks), texts),
            (c.size_x, c.size_y, c.size_z),
            filename,
        ).regions[0],
        forall|i: int|
            0 <= i < c.blocks.len() ==> state_of(
                states,
                #[trigger] block_indices(c.blocks, appearing(c.blocks), texts)[i],
            ) == c.blocks[i],
    ensures
        assembled(name, seq![region], seq![states]) == Ok::<ClipboardView, Seq<char>>(
            ClipboardView {
                name,
                blocks: c.blocks,
                tile_entities: Seq::empty(),
                size_x: c.size_x,
                size_y: c.size_y,
                size_z: c.size_z,
                offset: BlockPos { x: 0, y: 0, z: 0 },
            },
        ),
{
    let rs = seq![region];
    let ss = seq![states];
    let sx = c.size_x as int;
    let sy = c.size_y as int;
    let sz = c.size_z as int;
    let indices = block_indices(c.blocks, appearing(c.blocks), texts);
    assert(region.size@ =~= seq![c.size_x, c.size_y, c.size_z]);
    assert(region.position@ =~= seq![0i32, 0i32, 0i32]);
    assert(rs.drop_last() =~= Seq::empty());
    assert(lowest(rs.drop_last(), 0) == i32::MAX && highest(rs.drop_last(), 0) == i32::MIN);
    assert(lowest(rs.drop_last(), 1) == i32::MAX && highest(rs.drop_last(), 1) == i32::MIN);
    assert(lowest(rs.drop_last(), 2) == i32::MAX && highest(rs.drop_last(), 2) == i32::MIN);
    assert(box_min(rs) == (0int, 0int, 0int));
    assert(breadth(rs, 0) == sx && breadth(rs, 1) == sy && breadth(rs, 2) == sz);
    assert(box_volume(rs) == c.blocks.len());
    lemma_extents(sx, sy, sz);
    let out = assembled(name, rs, ss)->Ok_0;
    assert forall|i: int| 0 <= i < c.blocks.len() implies out.blocks[i] == c.blocks[i] by {
        lemma_place(i, sx, sy, sz);
        let x = x_at(i, sx);
        let y = y_at(i, sx, sz);
        let z = z_at(i, sx, sz);
        assert(region.palette_index_at(x, y, z) == indices[i]);
        assert(region_cell(region, states, (0, 0, 0), x, y, z) == c.blocks[i]);
        assert(cell(rs.drop_last(), ss, (0, 0, 0), x, y, z) == 0);
    }
    assert(out.blocks =~= c.blocks);
    assert(region.tile_entities@.len() == 0) by {
        assert(region@.tile_entities.len() == 0);
    }
    assert(box_tiles(rs.drop_last(), box_min(rs)) =~= Seq::empty());
    assert(region_tiles(region, box_min(rs)) =~= Seq::empty());
    assert(out.tile_entities =~= Seq::empty());
}

/// A clipboard whose size fits sixteen bits and whose texts are short can be saved.
pub proof fn law_clipboard_is_savable(c: ClipboardView, texts: Seq<Seq<char>>)
    requires
        c.wf(),
        c.size_x <= 32767,
        c.size_y <= 32767,
        c.size_z <= 32767,
        c.blocks.len() <= MAX_SCHEM_BLOCKS,
        texts.len() <= 65536,
        forall|k: int| 0 <= k < texts.len() ==> short_text(#[trigger] texts[k]),
    ensures
        savable(
            palette_of(texts),
            block_indices(c.blocks, appearing(c.blocks), texts),
            (c.size_x, c.size_y, c.size_z),
        ),
{
    let p = palette_of(texts);
    law_palette_numbers_texts(texts);
    assert forall|k: int| 0 <= k < p.len() implies short_text((#[trigger] p[k]).0) by {
        assert(texts.contains(p[k].0));
        let j = texts.index_of(p[k].0);
        assert(short_text(texts[j]));
    }
}

/// Whether a text holds a character.
pub open spec fn holds_char(s: Seq<char>, c: char) -> bool {
    first(s, c) < s.len()
}

/// Whether a text neither starts nor ends with white space.
pub open spec fn tidy(s: Seq<char>) -> bool {
    s.len() > 0 ==> !is_white(s[0]) && !is_white(s.last())
}

/// Whether a property can be told apart in a text of properties.
pub open spec fn plain_property(e: (Seq<char>, Seq<char>)) -> bool {
    &&& tidy(e.0)
    &&& tidy(e.1)
    &&& !holds_char(e.0, ',')
    &&& !holds_char(e.0, '=')
    &&& !holds_char(e.1, ',')
}

/// Whether a block state can be told from its text: no `[` in its name, no property twice, and no
/// separator or outer white space in the properties.
pub open spec fn plain_state(block: PaletteView) -> bool {
    &&& !holds_char(block.name, '[')
    &&& distinct(block.properties)
    &&& forall|k: int|
        0 <= k < block.properties.len() ==> plain_property(#[trigger] block.properties[k])
}

/// Tidy text is not trimmed.
proof fn lemma_tidy(s: Seq<char>)
    requires
        tidy(s),
    ensures
        trim(s) == s,
{
}

/// The text of a pair is stored as that pair.
proof fn lemma_pair(acc: Seq<(Seq<char>, Seq<char>)>, e: (Seq<char>, Seq<char>))
    requires
        plain_property(e),
    ensures
        add_pair(acc, e.0 + "="@ + e.1) == put(acc, e.0, e.1),
        !holds_char(e.0 + "="@ + e.1, ','),
{
    reveal_strlit("=");
    let s = e.0 + "="@ + e.1;
    lemma_first(e.0, '=');
    lemma_first(e.0, ',');
    lemma_first(e.1, ',');
    lemma_tidy(e.0);
    lemma_tidy(e.1);
    assert(s[0] == (if e.0.len() > 0 {
        e.0[0]
    } else {
        '='
    }));
    assert(s.last() == (if e.1.len() > 0 {
        e.1.last()
    } else {
        '='
    }));
    lemma_tidy(s);
    assert forall|k: int| 0 <= k < e.0.len() implies s[k] != '=' && s[k] != ',' by {
        assert(s[k] == e.0[k]);
    }
    lemma_first_is(s, '=', e.0.len() as int);
    assert(s.take(e.0.len() as int) =~= e.0);
    assert(s.skip(e.0.len() as int + 1) =~= e.1);
    assert forall|k: int| 0 <= k < s.len() implies s[k] != ',' by {
        if k > e.0.len() {
            assert(s[k] == e.1[k - e.0.len() - 1]);
        }
    }
    lemma_first_is(s, ',', s.len() as int);
}

/// A pair behind a comma is stored behind the pairs before it.
proof fn lemma_one_more_pair(s: Seq<char>, t: Seq<char>, acc: Seq<(Seq<char>, Seq<char>)>)
    requires
        !holds_char(t, ','),
    ensures
        pairs_in(s + ","@ + t, acc) == add_pair(pairs_in(s, acc), t),
    decreases s.len(),
{
    reveal_strlit(",");
    let w = s + ","@ + t;
    lemma_first(s, ',');
    lemma_first(t, ',');
    let i = first(s, ',');
    assert forall|k: int| 0 <= k < i implies w[k] != ',' by {
        assert(w[k] == s[k]);
    }
    lemma_first_is(w, ',', i);
    assert(w.take(i) =~= s.take(i));
    assert(pairs_in(w, acc) == pairs_in(w.skip(i + 1), add_pair(acc, s.take(i))));
    if i < s.len() {
        assert(w.skip(i + 1) =~= s.skip(i + 1) + ","@ + t);
        lemma_one_more_pair(s.skip(i + 1), t, add_pair(acc, s.take(i)));
    } else {
        assert(s.take(i) =~= s);
        assert(w.skip(i + 1) =~= t);
        assert(pairs_in(s, acc) == add_pair(acc, s));
        assert(pairs_in(t, add_pair(acc, s)) == add_pair(add_pair(acc, s), t));
    }
}

/// Properties that were written read back.
proof fn lemma_joined(p: Seq<(Seq<char>, Seq<char>)>)
    requires
        p.len() > 0,
        distinct(p),
        forall|k: int| 0 <= k < p.len() ==> plain_property(#[trigger] p[k]),
    ensures
        pairs_in(joined(p), Seq::empty()) == p,
    decreases p.len(),
{
    let t = p.drop_last();
    let e = p.last();
    let pair = e.0 + "="@ + e.1;
    assert(p[p.len() - 1] == e);
    lemma_first(pair, ',');
    if t.len() == 0 {
        lemma_pair(Seq::empty(), e);
        assert(pairs_in(pair, Seq::empty()) == add_pair(Seq::empty(), pair));
        assert(put(Seq::<(Seq<char>, Seq<char>)>::empty(), e.0, e.1) =~= p);
    } else {
        assert forall|k: int| 0 <= k < t.len() implies plain_property(#[trigger] t[k]) by {
            assert(t[k] == p[k]);
        }
        assert forall|i: int, j: int| 0 <= i < j < t.len() implies (#[trigger] t[i]).0 != (
        #[trigger] t[j]).0 by {
            assert(t[i] == p[i] && t[j] == p[j]);
        }
        lemma_joined(t);
        lemma_pair(t, e);
        lemma_one_more_pair(joined(t), pair, Seq::empty());
        assert forall|k: int| 0 <= k < t.len() implies (#[trigger] t[k]).0 != e.0 by {
            assert(t[k] == p[k]);
        }
        lemma_slot_is(t, e.0, t.len() as int);
        assert(t.push(e) =~= p);
    }
}

/// A block state that was written as text reads back, and its text can be taken apart.
pub proof fn law_state_text_reads_back(block: PaletteView)
    requires
        plain_state(block),
    ensures
        well_bracketed(state_text(block)),
        state_in(state_text(block)) == block,
{
    let s = state_text(block);
    let n = block.name;
    let p = block.properties;
    lemma_first(n, '[');
    if p.len() == 0 {
        assert(p =~= Seq::empty());
    } else {
        reveal_strlit("[");
        reveal_strlit("]");
        let b = n.len() as int;
        assert forall|k: int| 0 <= k < b implies s[k] != '[' by {
            assert(s[k] == n[k]);
        }
        lemma_first_is(s, '[', b);
        assert(s.take(b) =~= n);
        assert(s.subrange(b + 1, s.len() - 1) =~= joined(p));
        assert(s.last() == ']');
        lemma_joined(p);
    }
}

} // verus!
