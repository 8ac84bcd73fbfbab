//! From the blocks of a clipboard to the palette and indices of a `.schem` file.
use vstd::prelude::*;
use vstd::set_lib::{lemma_int_range, lemma_len_subset, set_int_range};
use vstd::string::*;

use crate::clipboard::Clipboard;
use crate::host::{describe, describes, info_view, BlockStateInfo};
use crate::names::{distinct, has_name, lemma_slot, lemma_slot_is, slot, NameMap};
use crate::schematic::PaletteView;

verus! {

/// The states of some blocks, each once, in the order in which they first appear.
pub open spec fn appearing(blocks: Seq<u16>) -> Seq<u16>
    decreases blocks.len(),
{
    if blocks.len() == 0 {
        Seq::empty()
    } else {
        let before = appearing(blocks.drop_last());
        if before.contains(blocks.last()) {
            before
        } else {
            before.push(blocks.last())
        }
    }
}

/// The properties of a block state, as `name=value` pairs separated by commas.
pub open spec fn joined(p: Seq<(Seq<char>, Seq<char>)>) -> Seq<char>
    decreases p.len(),
{
    if p.len() == 0 {
        Seq::empty()
    } else {
        let pair = p.last().0 + "="@ + p.last().1;
        if p.len() == 1 {
            pair
        } else {
            joined(p.drop_last()) + ","@ + pair
        }
    }
}

/// A block state written as text.
pub open spec fn state_text(block: PaletteView) -> Seq<char> {
    if block.properties.len() == 0 {
        block.name
    } else {
        block.name + "["@ + joined(block.properties) + "]"@
    }
}

/// The text of a state: nothing is air, and what the registry does not know is stone.
pub open spec fn block_text(state_id: u16, info: Option<PaletteView>) -> Seq<char> {
    if state_id == 0 {
        "minecraft:air"@
    } else {
        match info {
            Some(b) => state_text(b),
            None => "minecraft:stone"@,
        }
    }
}

/// The texts of some states.
pub open spec fn block_texts(states: Seq<u16>, infos: Seq<Option<PaletteView>>) -> Seq<Seq<char>> {
    Seq::new(states.len(), |k: int| block_text(states[k], infos[k]))
}

/// The palette of some texts: each once, numbered in the order in which they first appear.
pub open spec fn palette_of(texts: Seq<Seq<char>>) -> Seq<(Seq<char>, u16)>
    decreases texts.len(),
{
    if texts.len() == 0 {
        Seq::empty()
    } else {
        let before = palette_of(texts.drop_last());
        if has_name(before, texts.last()) {
            before
        } else {
            before.push((texts.last(), before.len() as u16))
        }
    }
}

/// The number of states that the registry does not know.
pub open spec fn unknown(states: Seq<u16>, infos: Seq<Option<PaletteView>>) -> nat
    decreases states.len(),
{
    if states.len() == 0 {
        0
    } else {
        unknown(states.drop_last(), infos) + (if states.last() != 0 && infos[states.len() - 1] is None {
            1nat
        } else {
            0nat
        })
    }
}

/// The palette index of each block.
pub open spec fn block_indices(
    blocks: Seq<u16>,
    states: Seq<u16>,
    texts: Seq<Seq<char>>,
) -> Seq<u16> {
    Seq::new(
        blocks.len(),
        |i: int| slot(palette_of(texts), texts[states.index_of(blocks[i])]) as u16,
    )
}

/// What the registry answered for some states.
pub open spec fn infos_view(s: Seq<Option<BlockStateInfo>>) -> Seq<Option<PaletteView>> {
    s.map_values(|a: Option<BlockStateInfo>| info_view(a))
}

/// The appearing states are those of the blocks, each once.
pub proof fn law_appearing_lists_states(blocks: Seq<u16>)
    ensures
        forall|i: int| 0 <= i < blocks.len() ==> appearing(blocks).contains(#[trigger] blocks[i]),
        forall|k: int|
            0 <= k < appearing(blocks).len() ==> blocks.contains(#[trigger] appearing(blocks)[k]),
        appearing(blocks).no_duplicates(),
    decreases blocks.len(),
{
    if blocks.len() > 0 {
        let b = blocks.drop_last();
        let before = appearing(b);
        let now = appearing(blocks);
        law_appearing_lists_states(b);
        assert forall|i: int| 0 <= i < blocks.len() implies now.contains(#[trigger] blocks[i]) by {
            if i < b.len() {
                assert(b[i] == blocks[i]);
                assert(before.contains(b[i]));
                let k = before.index_of(b[i]);
                assert(now[k] == b[i]);
            } else if !before.contains(blocks.last()) {
                assert(now[now.len() - 1] == blocks[i]);
            }
        }
        assert forall|k: int| 0 <= k < now.len() implies blocks.contains(#[trigger] now[k]) by {
            if k < before.len() {
                assert(b.contains(before[k]));
                let i = b.index_of(before[k]);
                assert(blocks[i] == before[k]);
            } else {
                assert(blocks[blocks.len() - 1] == now[k]);
            }
        }
    }
}

/// A palette numbers its texts in order, has none twice, and has each text that it was made for.
pub proof fn law_palette_numbers_texts(texts: Seq<Seq<char>>)
    requires
        texts.len() <= 65536,
    ensures
        palette_of(texts).len() <= texts.len(),
        distinct(palette_of(texts)),
        forall|k: int|
            0 <= k < palette_of(texts).len() ==> (#[trigger] palette_of(texts)[k]).1 == k,
        forall|k: int|
            0 <= k < palette_of(texts).len() ==> texts.contains((#[trigger] palette_of(texts)[k]).0),
        forall|j: int| 0 <= j < texts.len() ==> has_name(palette_of(texts), #[trigger] texts[j]),
    decreases texts.len(),
{
    if texts.len() > 0 {
        let t = texts.drop_last();
        let before = palette_of(t);
        let now = palette_of(texts);
        law_palette_numbers_texts(t);
        lemma_slot(before, texts.last());
        assert forall|k: int| 0 <= k < now.len() implies texts.contains((#[trigger] now[k]).0) by {
            if k < before.len() {
                assert(t.contains(before[k].0));
                let j = t.index_of(before[k].0);
                assert(texts[j] == before[k].0);
            } else {
                assert(texts[texts.len() - 1] == now[k].0);
            }
        }
        assert forall|j: int| 0 <= j < texts.len() implies has_name(now, #[trigger] texts[j]) by {
            if j < t.len() {
                assert(t[j] == texts[j]);
                assert(has_name(before, t[j]));
                lemma_slot(before, t[j]);
                lemma_grown(before, now, t[j]);
            } else if !has_name(before, texts[j]) {
                lemma_slot_is(now, texts[j], before.len() as int);
            }
        }
        assert(distinct(now)) by {
            assert forall|i: int, j: int| 0 <= i < j < now.len() implies (#[trigger] now[i]).0 != (
            #[trigger] now[j]).0 by {
                if j < before.len() {
                    assert(now[i] == before[i] && now[j] == before[j]);
                } else {
                    assert(now[i] == before[i]);
                }
            }
        }
    }
}

/// A name keeps its slot when an entry is put behind the others.
proof fn lemma_grown(s: Seq<(Seq<char>, u16)>, t: Seq<(Seq<char>, u16)>, key: Seq<char>)
    requires
        has_name(s, key),
        s.len() <= t.len(),
        forall|i: int| 0 <= i < s.len() ==> s[i] == t[i],
    ensures
        slot(t, key) == slot(s, key),
{
    lemma_slot(s, key);
    lemma_slot_is(t, key, slot(s, key));
}

/// There are no more than 65536 distinct numbers of sixteen bits.
pub proof fn lemma_few_states(s: Seq<u16>)
    requires
        s.no_duplicates(),
    ensures
        s.len() <= 65536,
{
    let t = s.map_values(|v: u16| v as int);
    let all = set_int_range(0, 65536);
    assert(t.no_duplicates()) by {
        assert forall|i: int, j: int| 0 <= i < t.len() && 0 <= j < t.len() && i != j implies t[i]
            != t[j] by {
            assert(s[i] != s[j]);
        }
    }
    t.unique_seq_to_set();
    lemma_int_range(0, 65536);
    assert(t.to_set().subset_of(all)) by {
        assert forall|v: int| t.to_set().contains(v) implies all.contains(v) by {
            let i = t.index_of(v);
            assert(t[i] == s[i]);
        }
    }
    lemma_len_subset(t.to_set(), all);
}

/// The states of some blocks, each once, in the order in which they first appear.
pub fn distinct_states(blocks: &Vec<u16>) -> (r: Vec<u16>)
    ensures
        r@ == appearing(blocks@),
        r@.len() <= 65536,
{
    let mut seen: Vec<bool> = vec![false; 65536];
    let mut states: Vec<u16> = Vec::new();
    let mut i: usize = 0;
    assert(blocks@.take(0) =~= Seq::empty());
    while i < blocks.len()
        invariant
            i <= blocks@.len(),
            seen@.len() == 65536,
            states@ == appearing(blocks@.take(i as int)),
            forall|v: u16| #[trigger] seen@[v as int] == states@.contains(v),
        decreases blocks@.len() - i,
    {
        let id: u16 = blocks[i];
        let ghost before = states@;
        assert(blocks@.take(i + 1).drop_last() =~= blocks@.take(i as int));
        if !seen[id as usize] {
            seen.set(id as usize, true);
            states.push(id);
            assert forall|v: u16| #[trigger] seen@[v as int] == states@.contains(v) by {
                if v == id {
                    assert(states@[before.len() as int] == id);
                } else if before.contains(v) {
                    assert(states@[before.index_of(v)] == v);
                }
            }
        }
        i += 1;
    }
    assert(blocks@.take(i as int) =~= blocks@);
    proof {
        law_appearing_lists_states(blocks@);
        lemma_few_states(states@);
    }
    states
}

/// A block state written as text.
pub fn write_state(block: &BlockStateInfo) -> (r: String)
    ensures
        r@ == state_text(block@),
{
    let n: usize = block.properties.len();
    let mut r = block.name.as_str().to_owned();
    if n == 0 {
        return r;
    }
    let ghost p = block@.properties;
    let ghost head = block.name@ + "["@;
    r.append("[");
    let mut i: usize = 0;
    assert(r@ =~= head + joined(p.take(0)));
    while i < n
        invariant
            i <= n,
            n == block.properties@.len(),
            p == block@.properties,
            r@ == head + joined(p.take(i as int)),
        decreases n - i,
    {
        let ghost before = r@;
        assert(p.take(i + 1).drop_last() =~= p.take(i as int));
        if i > 0 {
            r.append(",");
        }
        r.append(block.properties[i].0.as_str());
        r.append("=");
        r.append(block.properties[i].1.as_str());
        assert(p[i as int] == (block.properties@[i as int].0@, block.properties@[i as int].1@));
        assert(p.take(i + 1).last() == p[i as int]);
        assert(r@ =~= head + joined(p.take(i + 1)));
        i += 1;
    }
    assert(p.take(n as int) =~= p);
    r.append("]");
    r
}

/// The text of a state.
fn write_block(state_id: u16, info: &Option<BlockStateInfo>) -> (r: String)
    ensures
        r@ == block_text(state_id, info_view(*info)),
{
    if state_id == 0 {
        return "minecraft:air".to_string();
    }
    match info {
        Some(b) => write_state(b),
        None => "minecraft:stone".to_string(),
    }
}

/// The palette, the palette index of each block, and the number of states that the registry does
/// not know, given the appearing states and what the registry answered for them.
pub fn schem_data(
    blocks: &Vec<u16>,
    states: &Vec<u16>,
    infos: &Vec<Option<BlockStateInfo>>,
) -> (r: (NameMap<u16>, Vec<u16>, usize))
    requires
        states@ == appearing(blocks@),
        infos@.len() == states@.len(),
    ensures
        ({
            let texts = block_texts(states@, infos_view(infos@));
            &&& r.0@ == palette_of(texts)
            &&& r.1@ == block_indices(blocks@, states@, texts)
            &&& r.2 == unknown(states@, infos_view(infos@))
        }),
{
    let ghost views = infos_view(infos@);
    let ghost texts = block_texts(states@, views);
    let n: usize = states.len();
    let mut palette: NameMap<u16> = NameMap::new();
    let mut table: Vec<u16> = vec![0u16; 65536];
    let mut missing: usize = 0;
    let mut k: usize = 0;
    proof {
        law_appearing_lists_states(blocks@);
        lemma_few_states(states@);
        assert(texts.take(0) =~= Seq::empty());
        assert(states@.take(0) =~= Seq::empty());
    }
    while k < n
        invariant
            k <= n,
            n == states@.len(),
            n == infos@.len(),
            n <= 65536,
            states@.no_duplicates(),
            views == infos_view(infos@),
            texts == block_texts(states@, views),
            table@.len() == 65536,
            palette@ == palette_of(texts.take(k as int)),
            missing <= k,
            missing == unknown(states@.take(k as int), views),
            forall|j: int|
                0 <= j < k ==> has_name(palette@, texts[j]) && table@[#[trigger] states@[j] as int]
                    == slot(palette@, texts[j]),
        decreases n - k,
    {
        let id: u16 = states[k];
        let text = write_block(id, &infos[k]);
        let ghost before = palette@;
        let ghost key = texts[k as int];
        proof {
            assert(views[k as int] == info_view(infos@[k as int]));
            assert(text@ == key);
            assert(texts.take(k + 1).drop_last() =~= texts.take(k as int));
            assert(states@.take(k + 1).drop_last() =~= states@.take(k as int));
            law_palette_numbers_texts(texts.take(k as int));
            lemma_slot(palette@, key);
        }
        if id != 0 && infos[k].is_none() {
            missing += 1;
        }
        let idx: u16 = match palette.position(text.as_str()) {
            Some(i) => i as u16,
            None => {
                let i: u16 = palette.entries.len() as u16;
                palette.insert(text, i);
                proof {
                    lemma_slot_is(palette@, key, before.len() as int);
                }
                i
            },
        };
        table.set(id as usize, idx);
        assert forall|j: int| 0 <= j < k + 1 implies has_name(palette@, texts[j])
            && table@[#[trigger] states@[j] as int] == slot(palette@, texts[j]) by {
            if j < k {
                assert(states@[j] != states@[k as int]);
                lemma_slot(before, texts[j]);
                lemma_grown(before, palette@, texts[j]);
            }
        }
        k += 1;
    }
    assert(texts.take(n as int) =~= texts);
    assert(states@.take(n as int) =~= states@);
    let mut indices: Vec<u16> = Vec::with_capacity(blocks.len());
    let mut i: usize = 0;
    while i < blocks.len()
        invariant
            i <= blocks@.len(),
            n == states@.len(),
            table@.len() == 65536,
            palette@ == palette_of(texts),
            forall|j: int| 0 <= j < blocks@.len() ==> states@.contains(#[trigger] blocks@[j]),
            forall|j: int|
                0 <= j < n ==> table@[#[trigger] states@[j] as int] == slot(palette@, texts[j]),
            indices@ == block_indices(blocks@, states@, texts).take(i as int),
        decreases blocks@.len() - i,
    {
        let id: u16 = blocks[i];
        assert(states@.contains(blocks@[i as int]));
        assert(states@[states@.index_of(id)] == id);
        indices.push(table[id as usize]);
        assert(indices@ =~= block_indices(blocks@, states@, texts).take(i + 1));
        i += 1;
    }
    assert(indices@ =~= block_indices(blocks@, states@, texts));
    (palette, indices, missing)
}

/// Whether the registry may have answered this for the states that are not nothing.
pub open spec fn all_described(states: Seq<u16>, infos: Seq<Option<PaletteView>>) -> bool {
    infos.len() == states.len() && forall|k: int|
        0 <= k < states.len() && states[k] != 0 ==> describes(states[k], #[trigger] infos[k])
}

/// The palette of a clipboard, the palette index of each block, and the number of states that the
/// registry does not know.
pub fn clipboard_to_schem_data(clip: &Clipboard) -> (r: (NameMap<u16>, Vec<u16>, usize))
    ensures
        exists|infos: Seq<Option<PaletteView>>| #[trigger]
            all_described(appearing(clip@.blocks), infos) && ({
                let states = appearing(clip@.blocks);
                let texts = block_texts(states, infos);
                &&& r.0@ == palette_of(texts)
                &&& r.1@ == block_indices(clip@.blocks, states, texts)
                &&& r.2 == unknown(states, infos)
            }),
{
    let states = distinct_states(&clip.blocks);
    let mut infos: Vec<Option<BlockStateInfo>> = Vec::new();
    let mut k: usize = 0;
    while k < states.len()
        invariant
            k <= states@.len(),
            infos@.len() == k,
            forall|j: int|
                0 <= j < k && states@[j] != 0 ==> describes(
                    states@[j],
                    info_view(#[trigger] infos@[j]),
                ),
        decreases states@.len() - k,
    {
        if states[k] == 0 {
            infos.push(None);
        } else {
            infos.push(describe(states[k]));
        }
        k += 1;
    }
    let ghost views = infos_view(infos@);
    proof {
        assert forall|j: int| 0 <= j < states@.len() && states@[j] != 0 implies describes(
            states@[j],
            #[trigger] views[j],
        ) by {
            assert(views[j] == info_view(infos@[j]));
        }
        assert(all_described(states@, views));
    }
    let r = schem_data(&clip.blocks, &states, &infos);
    assert(all_described(appearing(clip@.blocks), views) && ({
        let states = appearing(clip@.blocks);
        let texts = block_texts(states, views);
        &&& r.0@ == palette_of(texts)
        &&& r.1@ == block_indices(clip@.blocks, states, texts)
        &&& r.2 == unknown(states, views)
    }));
    r
}

} // verus!
