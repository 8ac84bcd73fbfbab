//! What comes of the registry's answers, where it answers each question in one way.
use vstd::prelude::*;
use vstd::string::*;
use vstd::utf8::*;

use crate::assemble::{assembled, assembles};
use crate::block_state::becomes;
use crate::clipboard::{all_become, moved, Clipboard, ClipboardView, Motion};
use crate::commands::{
    load_outcome, may_count, may_load, may_save, save_filename, save_outcome, Loaded, Refusal, SaveJob,
};
use crate::block_string::state_in;
use crate::gzip::{gunzipped, gzipped};
use crate::grid::{lemma_index_bounds, BlockPos};
use crate::host::{describes, resolves};
use crate::ipc::{
    fields_view, info_outcome, may_inform, may_paste, paste_outcome, AppError, IpcPaste, JsonField,
    JsonView,
};
use crate::messages::{load_notices, notices_view, Level, Notice};
use crate::motion_laws::law_motion_carries_blocks;
use crate::names::{has_name, lemma_slot, slot};
use crate::nbt_laws::short_text;
use crate::nbt_write::file_bytes;
use crate::palette::{
    all_described, appearing, block_indices, block_text, block_texts, joined,
    law_appearing_lists_states, law_palette_numbers_texts, lemma_few_states, palette_of, state_text,
    unknown,
};
use crate::placement::{block_queue, filled, placeable, queued_tiles, tile_queue};
use crate::resolve::{
    all_resolved, fallback_resolves, is_air, may_build, missing_in, missing_states, palette_states,
    regions_resolved, regions_settled,
};
use crate::save_laws::{
    law_clipboard_is_savable, law_saved_index_loads, law_state_text_reads_back, plain_state,
};
use crate::schem::schem_of;
use crate::schem_write::{law_saved_schematic_loads, schem_compound};
use crate::schematic::{palette_view, PaletteView, Region, Schematic};
use crate::selection::pos_text;
use crate::text::{lemma_first_is, trim_all};

verus! {

/// Whether the registry answers every question for the number of a block state by the function.
pub open spec fn answers_by(g: spec_fn(PaletteView) -> Option<u16>) -> bool {
    forall|block: PaletteView, answer: Option<u16>| #[trigger]
        resolves(block, answer) ==> answer == g(block)
}

/// Whether the registry answers every question for what a number stands for by the function.
pub open spec fn describes_by(h: spec_fn(u16) -> Option<PaletteView>) -> bool {
    forall|id: u16, answer: Option<PaletteView>| #[trigger]
        describes(id, answer) ==> answer == h(id)
}

/// The state that a state changes to: air stays air, and a block that the registry does not know,
/// that does not change, or whose changed state it does not know stays as it is.
pub open spec fn changed_state(
    g: spec_fn(PaletteView) -> Option<u16>,
    h: spec_fn(u16) -> Option<PaletteView>,
    change: spec_fn(PaletteView) -> Option<PaletteView>,
    id: u16,
) -> u16 {
    if id == 0 || h(id) is None || change(h(id)->0) is None || g(change(h(id)->0)->0) is None {
        id
    } else {
        g(change(h(id)->0)->0)->0
    }
}

/// A block that is turned or mirrored gets the number that the registry has for its changed state.
pub proof fn law_block_takes_its_changed_state(
    g: spec_fn(PaletteView) -> Option<u16>,
    h: spec_fn(u16) -> Option<PaletteView>,
    change: spec_fn(PaletteView) -> Option<PaletteView>,
    id: u16,
    r: u16,
)
    requires
        answers_by(g),
        describes_by(h),
        becomes(id, change, r),
    ensures
        r == changed_state(g, h, change, id),
{
}

/// When a clipboard is turned or mirrored, every block comes to lie where the motion carries it, in
/// its changed state, and the height and the name stay.
pub proof fn law_moved_blocks_take_their_changed_states(
    g: spec_fn(PaletteView) -> Option<u16>,
    h: spec_fn(u16) -> Option<PaletteView>,
    change: spec_fn(PaletteView) -> Option<PaletteView>,
    c: ClipboardView,
    m: Motion,
    states: Seq<u16>,
    x: int,
    y: int,
    z: int,
)
    requires
        answers_by(g),
        describes_by(h),
        c.wf(),
        all_become(c.blocks, change, states),
        c.covers(x, y, z),
    ensures
        ({
            let sx = c.size_x as int;
            let sz = c.size_z as int;
            let d = moved(c, m, states);
            let s = changed_state(g, h, change, c.at(x, y, z));
            &&& d.name == c.name
            &&& d.size_y == c.size_y
            &&& d.tile_entities.len() == c.tile_entities.len()
            &&& m is Quarter || m is ThreeQuarters ==> d.size_x == sz && d.size_z == sx
            &&& m is Half || m is MirrorX || m is MirrorZ ==> d.size_x == sx && d.size_z == sz
            &&& m is Quarter ==> d.at(sz - 1 - z, y, x) == s
            &&& m is Half ==> d.at(sx - 1 - x, y, sz - 1 - z) == s
            &&& m is ThreeQuarters ==> d.at(z, y, sx - 1 - x) == s
            &&& m is MirrorX ==> d.at(sx - 1 - x, y, z) == s
            &&& m is MirrorZ ==> d.at(x, y, sz - 1 - z) == s
        }),
{
    law_motion_carries_blocks(c, m, states, x, y, z);
    lemma_index_bounds(
        x,
        y,
        z,
        c.size_x as int,
        c.size_y as int,
        c.size_z as int,
    );
    let i = c.place(x, y, z);
    assert(becomes(c.blocks[i], change, states[i]));
    law_block_takes_its_changed_state(g, h, change, c.blocks[i], states[i]);
}

/// The state of an entry of a palette: 0 for air, what the registry has, or else the fallback.
pub open spec fn entry_state(
    g: spec_fn(PaletteView) -> Option<u16>,
    block: PaletteView,
    fallback: Option<u16>,
) -> Option<u16> {
    if block.name == "minecraft:air"@ || block.name == "air"@ {
        Some(0u16)
    } else if g(block) is Some {
        g(block)
    } else {
        fallback
    }
}

/// The states of the palettes of some regions.
pub open spec fn region_states(
    g: spec_fn(PaletteView) -> Option<u16>,
    rs: Seq<Region>,
    fallback: Option<u16>,
) -> Seq<Seq<Option<u16>>> {
    Seq::new(
        rs.len(),
        |k: int|
            Seq::new(
                rs[k].palette@.len(),
                |i: int| entry_state(g, rs[k].palette@[i]@, fallback),
            ),
    )
}

/// The fallback is what the registry has for its name without properties, and nothing where it is
/// `skip`.
pub open spec fn fallback_state(
    g: spec_fn(PaletteView) -> Option<u16>,
    name: Seq<char>,
) -> Option<u16> {
    if name == "skip"@ {
        None
    } else {
        g(PaletteView { name, properties: Seq::empty() })
    }
}

/// Palettes are settled entry by entry.
pub proof fn law_palettes_are_settled_entry_by_entry(
    g: spec_fn(PaletteView) -> Option<u16>,
    rs: Seq<Region>,
    fallback: Option<u16>,
    states: Seq<Seq<Option<u16>>>,
    palette: Seq<PaletteView>,
    answers: Seq<Option<u16>>,
    i: int,
)
    requires
        answers_by(g),
    ensures
        regions_settled(rs, fallback, states) ==> states == region_states(g, rs, fallback),
        all_resolved(palette, answers) && 0 <= i < palette.len() ==> palette_states(
            palette,
            answers,
            fallback,
        ).len() == palette.len() && palette_states(palette, answers, fallback)[i] == entry_state(
            g,
            palette[i],
            fallback,
        ),
{
    if all_resolved(palette, answers) && 0 <= i < palette.len() {
        assert(answers.len() == palette.len());
        let a = answers[i];
    }
    if regions_settled(rs, fallback, states) {
        let all = choose|answers: Seq<Seq<Option<u16>>>| #[trigger]
            regions_resolved(rs, answers) && states == Seq::new(
                rs.len(),
                |k: int| palette_states(palette_view(rs[k].palette@), answers[k], fallback),
            );
        let wanted = region_states(g, rs, fallback);
        assert forall|k: int| 0 <= k < rs.len() implies states[k] == wanted[k] by {
            let p = palette_view(rs[k].palette@);
            let a = all[k];
            assert(all_resolved(p, a));
            assert forall|j: int| 0 <= j < p.len() implies states[k][j] == wanted[k][j] by {
                assert(p[j] == rs[k].palette@[j]@);
                let x = a[j];
            }
            assert(states[k] =~= wanted[k]);
        }
        assert(states =~= wanted);
    }
}

/// The fallback that a schematic is loaded with.
pub proof fn law_fallback_is_resolved_by_name(
    g: spec_fn(PaletteView) -> Option<u16>,
    name: Seq<char>,
    r: Option<u16>,
)
    requires
        answers_by(g),
        fallback_resolves(name, r),
    ensures
        r == fallback_state(g, name),
{
}

/// The clipboard of a schematic is put together with the states of its palettes.
pub proof fn law_built_clipboard_has_the_registrys_states(
    g: spec_fn(PaletteView) -> Option<u16>,
    name: Seq<char>,
    rs: Seq<Region>,
    fallback: Option<u16>,
    r: Option<Result<Clipboard, String>>,
)
    requires
        answers_by(g),
        may_build(name, rs, fallback, r),
    ensures
        ({
            let states = region_states(g, rs, fallback);
            &&& r is None <==> !assembles(rs, states)
            &&& r matches Some(Ok(c)) ==> assembled(name, rs, states) == Ok::<
                ClipboardView,
                Seq<char>,
            >(c@)
            &&& r matches Some(Err(e)) ==> assembled(name, rs, states) == Err::<
                ClipboardView,
                Seq<char>,
            >(e@)
        }),
{
    let states = choose|states: Seq<Seq<Option<u16>>>| #[trigger]
        regions_settled(rs, fallback, states) && (r is Some) == assembles(rs, states) && (
        r matches Some(v) ==> match (v, assembled(name, rs, states)) {
            (Ok(c), Ok(s)) => c@ == s && s.wf(),
            (Err(e), Err(m)) => e@ == m,
            _ => false,
        });
    law_palettes_are_settled_entry_by_entry(
        g,
        rs,
        fallback,
        states,
        Seq::empty(),
        Seq::empty(),
        0,
    );
}

/// Block types are counted as missing one by one: those that are not air and for which the registry
/// has no answer.
pub proof fn law_missing_types_are_counted_one_by_one(
    p: Seq<PaletteView>,
    e: PaletteView,
    answers: Seq<Option<u16>>,
    rs: Seq<Region>,
    r: Region,
    all: Seq<Seq<Option<u16>>>,
)
    ensures
        missing_states(Seq::empty(), answers) == 0,
        missing_states(p.push(e), answers) == missing_states(p, answers) + (if e.name
            != "minecraft:air"@ && e.name != "air"@ && answers[p.len() as int] is None {
            1int
        } else {
            0
        }),
        missing_in(Seq::empty(), all) == 0,
        missing_in(rs.push(r), all) == missing_in(rs, all) + missing_states(
            palette_view(r.palette@),
            all[rs.len() as int],
        ),
{
    assert(p.push(e).drop_last() =~= p);
    assert(rs.push(r).drop_last() =~= rs);
}

/// How many entries of a palette are not air and unknown to the registry.
pub open spec fn unknown_entries(
    g: spec_fn(PaletteView) -> Option<u16>,
    p: Seq<PaletteView>,
) -> nat
    decreases p.len(),
{
    if p.len() == 0 {
        0
    } else {
        unknown_entries(g, p.drop_last()) + (if entry_state(g, p.last(), None) is None {
            1nat
        } else {
            0nat
        })
    }
}

/// How many entries of the palettes of some regions are not air and unknown to the registry.
pub open spec fn unknown_types(
    g: spec_fn(PaletteView) -> Option<u16>,
    rs: Seq<Region>,
) -> nat
    decreases rs.len(),
{
    if rs.len() == 0 {
        0
    } else {
        unknown_types(g, rs.drop_last()) + unknown_entries(g, palette_view(rs.last().palette@))
    }
}

proof fn lemma_unknown_entries(
    g: spec_fn(PaletteView) -> Option<u16>,
    p: Seq<PaletteView>,
    answers: Seq<Option<u16>>,
)
    requires
        answers_by(g),
        answers.len() >= p.len(),
        forall|i: int|
            0 <= i < p.len() && !is_air(p[i].name) ==> resolves(
                p[i],
                #[trigger] answers[i],
            ),
    ensures
        missing_states(p, answers) == unknown_entries(g, p),
    decreases p.len(),
{
    if p.len() > 0 {
        let q = p.drop_last();
        assert forall|i: int|
            0 <= i < q.len() && !is_air(q[i].name) implies resolves(
            q[i],
            #[trigger] answers[i],
        ) by {
            assert(q[i] == p[i]);
        }
        lemma_unknown_entries(g, q, answers);
        let a = answers[p.len() - 1];
        assert(p[p.len() - 1] == p.last());
    }
}

proof fn lemma_unknown_types(
    g: spec_fn(PaletteView) -> Option<u16>,
    rs: Seq<Region>,
    answers: Seq<Seq<Option<u16>>>,
)
    requires
        answers_by(g),
        answers.len() >= rs.len(),
        forall|k: int|
            0 <= k < rs.len() ==> all_resolved(palette_view(rs[k].palette@), #[trigger] answers[k]),
    ensures
        missing_in(rs, answers) == unknown_types(g, rs),
    decreases rs.len(),
{
    if rs.len() > 0 {
        let q = rs.drop_last();
        assert forall|k: int| 0 <= k < q.len() implies all_resolved(
            palette_view(q[k].palette@),
            #[trigger] answers[k],
        ) by {
            assert(q[k] == rs[k]);
        }
        lemma_unknown_types(g, q, answers);
        assert(rs[rs.len() - 1] == rs.last());
        assert(all_resolved(palette_view(rs.last().palette@), answers[rs.len() - 1]));
        lemma_unknown_entries(g, palette_view(rs.last().palette@), answers[rs.len() - 1]);
    }
}

/// The number of unknown block types of a schematic is that of all palettes together.
pub proof fn law_unknown_types_are_counted(
    g: spec_fn(PaletteView) -> Option<u16>,
    rs: Seq<Region>,
    n: int,
)
    requires
        answers_by(g),
        may_count(rs, n),
    ensures
        unknown_types(g, rs) <= usize::MAX ==> n == unknown_types(g, rs),
        unknown_types(g, rs) > usize::MAX ==> n == usize::MAX,
{
    let answers = choose|answers: Seq<Seq<Option<u16>>>| #[trigger]
        regions_resolved(rs, answers) && n == (if missing_in(rs, answers) <= usize::MAX {
            missing_in(rs, answers) as int
        } else {
            usize::MAX as int
        });
    lemma_unknown_types(g, rs, answers);
}

/// A schematic that is loaded becomes the clipboard of its regions in the registry's states, and the
/// player is told its name, its regions and its blocks, and of the unknown block types.
pub proof fn law_loaded_schematic_is_its_clipboard(
    g: spec_fn(PaletteView) -> Option<u16>,
    schematic: Schematic,
    fallback_block: Seq<char>,
    r: Option<Result<Loaded, Notice>>,
)
    requires
        answers_by(g),
        may_load(schematic, fallback_block, r),
        unknown_types(g, schematic.regions@) <= usize::MAX,
    ensures
        ({
            let fallback = fallback_state(g, fallback_block);
            let states = region_states(g, schematic.regions@, fallback);
            let built = assembled(schematic.name@, schematic.regions@, states);
            &&& r is None <==> !assembles(schematic.regions@, states)
            &&& r matches Some(Err(n)) ==> built matches Err(m) && n@ == (
                Level::Error,
                "Cannot load: "@ + m,
            )
            &&& r matches Some(Ok(l)) ==> built == Ok::<ClipboardView, Seq<char>>(l.clip@)
                && notices_view(l.notices@) == load_notices(
                schematic.name@,
                schematic.regions@.len() as int,
                filled(l.clip@.blocks).len() as int,
                unknown_types(g, schematic.regions@) as int,
                fallback is None,
                fallback_block,
            )
        }),
{
    let (fallback, unresolved, built) = choose|
        fallback: Option<u16>,
        unresolved: int,
        built: Option<Result<Clipboard, String>>,
    |
        {
            &&& fallback_resolves(fallback_block, fallback)
            &&& may_count(schematic.regions@, unresolved)
            &&& may_build(schematic.name@, schematic.regions@, fallback, built)
            &&& #[trigger] load_outcome(
                schematic,
                fallback,
                unresolved,
                built,
                fallback_block,
                r,
            )
        };
    law_fallback_is_resolved_by_name(g, fallback_block, fallback);
    law_unknown_types_are_counted(g, schematic.regions@, unresolved);
    law_built_clipboard_has_the_registrys_states(
        g,
        schematic.name@,
        schematic.regions@,
        fallback,
        built,
    );
}

/// The block state as which a block is saved: air for nothing, what the registry describes, and
/// stone where it knows nothing.
pub open spec fn saved_state(h: spec_fn(u16) -> Option<PaletteView>, id: u16) -> PaletteView {
    if id == 0 {
        PaletteView { name: "minecraft:air"@, properties: Seq::empty() }
    } else if h(id) is None {
        PaletteView { name: "minecraft:stone"@, properties: Seq::empty() }
    } else {
        h(id)->0
    }
}

proof fn lemma_plain_names()
    ensures
        short_text("minecraft:air"@),
        short_text("minecraft:stone"@),
        state_in("minecraft:air"@) == (PaletteView {
            name: "minecraft:air"@,
            properties: Seq::empty(),
        }),
        state_in("minecraft:stone"@) == (PaletteView {
            name: "minecraft:stone"@,
            properties: Seq::empty(),
        }),
{
    reveal_strlit("minecraft:air");
    reveal_strlit("minecraft:stone");
    is_ascii_chars_encode_utf8("minecraft:air"@);
    is_ascii_chars_encode_utf8("minecraft:stone"@);
    lemma_first_is("minecraft:air"@, '[', 13);
    lemma_first_is("minecraft:stone"@, '[', 15);
}

/// A clipboard that is saved loads as a region of its size in which every block has the block state
/// that the registry describes for it, and the number of unknown block states is told.
pub proof fn law_saved_blocks_load_as_described(
    h: spec_fn(u16) -> Option<PaletteView>,
    name: Seq<char>,
    c: ClipboardView,
    job: SaveJob,
    i: int,
)
    requires
        describes_by(h),
        c.wf(),
        c.size_x <= 32767,
        c.size_y <= 32767,
        c.size_z <= 32767,
        c.blocks.len() <= 67108864,
        forall|k: int|
            0 <= k < c.blocks.len() && h(#[trigger] c.blocks[k]) is Some ==> short_text(
                state_text(h(c.blocks[k])->0),
            ),
        may_save(name, c, Ok(job)),
        0 <= i < c.blocks.len(),
        plain_state(saved_state(h, c.blocks[i])),
    ensures
        job.filename@ == save_filename(name),
        gunzipped(job.bytes@) matches Ok(raw) && schem_of(raw, job.filename@) matches Ok(s) && {
            &&& s.name == trim_all(job.filename@, ".schem"@)
            &&& s.regions.len() == 1
            &&& s.regions[0].position == seq![0i32, 0i32, 0i32]
            &&& s.regions[0].size == seq![c.size_x, c.size_y, c.size_z]
            &&& s.regions[0].block_indices.len() == c.blocks.len()
            &&& s.regions[0].block_indices[i] < s.regions[0].palette.len()
            &&& s.regions[0].palette[s.regions[0].block_indices[i] as int] == saved_state(
                h,
                c.blocks[i],
            )
        },
{
    let states = appearing(c.blocks);
    let infos = choose|infos: Seq<Option<PaletteView>>| #[trigger]
        all_described(states, infos) && save_outcome(
            name,
            palette_of(block_texts(states, infos)),
            block_indices(c.blocks, states, block_texts(states, infos)),
            (c.size_x, c.size_y, c.size_z),
            unknown(states, infos) as int,
            Ok(job),
        );
    let texts = block_texts(states, infos);
    law_appearing_lists_states(c.blocks);
    lemma_plain_names();
    lemma_few_states(states);
    assert forall|k: int| 0 <= k < texts.len() implies short_text(#[trigger] texts[k]) by {
        assert(c.blocks.contains(states[k]));
        let j = c.blocks.index_of(states[k]);
        assert(c.blocks[j] == states[k]);
        let a = infos[k];
    }
    law_clipboard_is_savable(c, texts);
    law_saved_schematic_loads(
        palette_of(texts),
        block_indices(c.blocks, states, texts),
        (c.size_x, c.size_y, c.size_z),
        job.bytes@,
        job.filename@,
    );
    law_saved_index_loads(c.blocks, texts, i);
    assert(states.contains(c.blocks[i]));
    let k = states.index_of(c.blocks[i]);
    let a = infos[k];
    assert(texts[k] == block_text(c.blocks[i], a));
    if c.blocks[i] != 0 && h(c.blocks[i]) is Some {
        law_state_text_reads_back(h(c.blocks[i])->0);
    }
}

/// Unknown block states are counted one by one: those that are not air and that the registry does
/// not describe.
pub proof fn law_unknown_states_are_counted_one_by_one(
    states: Seq<u16>,
    id: u16,
    infos: Seq<Option<PaletteView>>,
)
    ensures
        unknown(Seq::empty(), infos) == 0,
        unknown(states.push(id), infos) == unknown(states, infos) + (if id != 0
            && infos[states.len() as int] is None {
            1int
        } else {
            0
        }),
{
    assert(states.push(id).drop_last() =~= states);
}

/// The number of unknown block states that a save tells of is that of the states that appear.
pub proof fn law_save_tells_of_unknown_states(
    h: spec_fn(u16) -> Option<PaletteView>,
    name: Seq<char>,
    c: ClipboardView,
    job: SaveJob,
)
    requires
        describes_by(h),
        may_save(name, c, Ok(job)),
    ensures
        job.unresolved == appearing(c.blocks).filter(
            |id: u16| id != 0 && h(id) is None,
        ).len(),
{
    let states = appearing(c.blocks);
    let infos = choose|infos: Seq<Option<PaletteView>>| #[trigger]
        all_described(states, infos) && save_outcome(
            name,
            palette_of(block_texts(states, infos)),
            block_indices(c.blocks, states, block_texts(states, infos)),
            (c.size_x, c.size_y, c.size_z),
            unknown(states, infos) as int,
            Ok(job),
        );
    lemma_unknown(h, states, infos);
}

proof fn lemma_unknown(
    h: spec_fn(u16) -> Option<PaletteView>,
    states: Seq<u16>,
    infos: Seq<Option<PaletteView>>,
)
    requires
        describes_by(h),
        infos.len() >= states.len(),
        forall|k: int|
            0 <= k < states.len() && states[k] != 0 ==> describes(states[k], #[trigger] infos[k]),
    ensures
        unknown(states, infos) == states.filter(|id: u16| id != 0 && h(id) is None).len(),
    decreases states.len(),
{
    reveal(Seq::filter);
    if states.len() > 0 {
        let q = states.drop_last();
        assert forall|k: int| 0 <= k < q.len() && q[k] != 0 implies describes(
            q[k],
            #[trigger] infos[k],
        ) by {
            assert(q[k] == states[k]);
        }
        lemma_unknown(h, q, infos);
        let a = infos[states.len() - 1];
        assert(states[states.len() - 1] == states.last());
    }
}

/// What is said of a schematic to another plugin: its name, how many regions and blocks it has, and
/// how many of its block types are unknown.
pub proof fn law_information_is_of_the_clipboard(
    g: spec_fn(PaletteView) -> Option<u16>,
    schematic: Schematic,
    fallback_block: Seq<char>,
    r: Option<Result<Vec<(String, JsonField)>, AppError>>,
)
    requires
        answers_by(g),
        may_inform(schematic, fallback_block, r),
        unknown_types(g, schematic.regions@) <= usize::MAX,
    ensures
        ({
            let states = region_states(
                g,
                schematic.regions@,
                fallback_state(g, fallback_block),
            );
            let built = assembled(schematic.name@, schematic.regions@, states);
            &&& r is None <==> !assembles(schematic.regions@, states)
            &&& r matches Some(Err(e)) ==> built matches Err(m) && e@ == ("INVALID_SCHEMATIC"@, m)
            &&& r matches Some(Ok(f)) ==> built matches Ok(c) && fields_view(f@) == seq![
                ("name"@, JsonView::Text(c.name)),
                ("regions"@, JsonView::Num(schematic.regions@.len() as u64)),
                ("blocks"@, JsonView::Num(filled(c.blocks).len() as u64)),
                ("unresolved"@, JsonView::Num(unknown_types(g, schematic.regions@) as u64)),
            ]
        }),
{
    let (fallback, unresolved, built) = choose|
        fallback: Option<u16>,
        unresolved: int,
        built: Option<Result<Clipboard, String>>,
    |
        {
            &&& #[trigger] may_build(schematic.name@, schematic.regions@, fallback, built)
            &&& fallback_resolves(fallback_block, fallback)
            &&& #[trigger] may_count(schematic.regions@, unresolved)
            &&& info_outcome(schematic, unresolved, built, r)
        };
    law_fallback_is_resolved_by_name(g, fallback_block, fallback);
    law_unknown_types_are_counted(g, schematic.regions@, unresolved);
    law_built_clipboard_has_the_registrys_states(
        g,
        schematic.name@,
        schematic.regions@,
        fallback,
        built,
    );
}

/// What another plugin has pasted is the clipboard of the schematic, its lowest corner at the origin,
/// and the number of its blocks is the reply.
pub proof fn law_request_pastes_the_clipboard(
    g: spec_fn(PaletteView) -> Option<u16>,
    schematic: Schematic,
    fallback_block: Seq<char>,
    origin: BlockPos,
    sender: Seq<char>,
    r: Option<Result<IpcPaste, AppError>>,
)
    requires
        answers_by(g),
        may_paste(schematic, fallback_block, origin, sender, r),
    ensures
        ({
            let states = region_states(
                g,
                schematic.regions@,
                fallback_state(g, fallback_block),
            );
            let built = assembled(schematic.name@, schematic.regions@, states);
            &&& r is None <==> !assembles(schematic.regions@, states) || (built matches Ok(c)
                && !placeable(c, origin, true))
            &&& r matches Some(Err(e)) ==> built matches Err(m) && e@ == ("INVALID_SCHEMATIC"@, m)
            &&& r matches Some(Ok(p)) ==> built matches Ok(c) && {
                &&& p.queue@ == block_queue(c, origin, true)
                &&& queued_tiles(p.tile_entities@) == tile_queue(c, origin, true)
                &&& p.owner@ == "ipc:"@ + sender
                &&& p.description@ == "IPC paste '"@ + c.name + "' at "@ + pos_text(origin)
                &&& fields_view(p.reply@) == seq![
                    ("accepted"@, JsonView::Bool(true)),
                    ("blocks"@, JsonView::Num(p.queue@.len() as u64)),
                ]
            }
        }),
{
    let (fallback, built) = choose|
        fallback: Option<u16>,
        built: Option<Result<Clipboard, String>>,
    |
        {
            &&& #[trigger] may_build(schematic.name@, schematic.regions@, fallback, built)
            &&& fallback_resolves(fallback_block, fallback)
            &&& paste_outcome(built, origin, sender, r)
        };
    law_fallback_is_resolved_by_name(g, fallback_block, fallback);
    law_built_clipboard_has_the_registrys_states(
        g,
        schematic.name@,
        schematic.regions@,
        fallback,
        built,
    );
}

/// States and texts are listed in the order in which they first appear.
pub proof fn law_first_appearance_gives_the_order(
    blocks: Seq<u16>,
    id: u16,
    texts: Seq<Seq<char>>,
    text: Seq<char>,
)
    ensures
        appearing(Seq::empty()) == Seq::<u16>::empty(),
        appearing(blocks.push(id)) == (if blocks.contains(id) {
            appearing(blocks)
        } else {
            appearing(blocks).push(id)
        }),
        palette_of(Seq::empty()) == Seq::<(Seq<char>, u16)>::empty(),
        texts.len() < 65536 ==> palette_of(texts.push(text)) == (if texts.contains(text) {
            palette_of(texts)
        } else {
            palette_of(texts).push((text, palette_of(texts).len() as u16))
        }),
{
    let b = blocks.push(id);
    assert(b.drop_last() =~= blocks);
    assert(appearing(Seq::empty()) =~= Seq::<u16>::empty());
    law_appearing_lists_states(blocks);
    if blocks.contains(id) {
        let i = blocks.index_of(id);
        assert(appearing(blocks).contains(blocks[i]));
    } else if appearing(blocks).contains(id) {
        let k = appearing(blocks).index_of(id);
        assert(blocks.contains(appearing(blocks)[k]));
    }
    assert(texts.push(text).drop_last() =~= texts);
    assert(palette_of(Seq::empty()) =~= Seq::<(Seq<char>, u16)>::empty());
    if texts.len() < 65536 {
        law_palette_numbers_texts(texts);
        lemma_slot(palette_of(texts), text);
        if texts.contains(text) {
            let i = texts.index_of(text);
            assert(has_name(palette_of(texts), texts[i]));
        } else if has_name(palette_of(texts), text) {
            let k = slot(palette_of(texts), text);
            assert(texts.contains(palette_of(texts)[k].0));
        }
    }
}

/// A block state's text is its name, with the properties in brackets if it has any, as pairs
/// separated by commas.
pub proof fn law_properties_are_joined_by_commas(
    name: Seq<char>,
    p: Seq<(Seq<char>, Seq<char>)>,
    e: (Seq<char>, Seq<char>),
)
    ensures
        state_text(PaletteView { name, properties: Seq::empty() }) == name,
        p.len() > 0 ==> state_text(PaletteView { name, properties: p }) == name + "["@ + joined(p)
            + "]"@,
        joined(seq![e]) == e.0 + "="@ + e.1,
        p.len() > 0 ==> joined(p.push(e)) == joined(p) + ","@ + (e.0 + "="@ + e.1),
{
    assert(p.push(e).drop_last() =~= p);
}

/// The text of a state: nothing is air, what the registry describes is its text, and all else is
/// stone.
pub proof fn law_states_are_written_as_described(
    states: Seq<u16>,
    infos: Seq<Option<PaletteView>>,
    k: int,
)
    requires
        0 <= k < states.len(),
    ensures
        block_texts(states, infos).len() == states.len(),
        states[k] == 0 ==> block_texts(states, infos)[k] == "minecraft:air"@,
        states[k] != 0 ==> block_texts(states, infos)[k] == match infos[k] {
            Some(b) => state_text(b),
            None => "minecraft:stone"@,
        },
{
}

/// A file that is saved holds the palette, the indices and the size that were given, and a failure is
/// told with what went wrong.
pub proof fn law_saving_gives_the_file_or_the_reason(
    name: Seq<char>,
    palette: Seq<(Seq<char>, u16)>,
    indices: Seq<u16>,
    size: (i32, i32, i32),
    unresolved: int,
    r: Result<SaveJob, Refusal>,
)
    requires
        save_outcome(name, palette, indices, size, unresolved, r),
    ensures
        ({
            let raw = file_bytes(schem_compound(palette, indices, size));
            match gzipped(raw) {
                Ok(Ok(b)) => r matches Ok(job) && {
                    &&& job.filename@ == save_filename(name)
                    &&& job.bytes@ == b
                    &&& gunzipped(b) == Ok::<Seq<u8>, Seq<char>>(raw)
                    &&& job.unresolved == unresolved
                },
                Ok(Err(m)) => r matches Err(Refusal::Message(t)) && t@
                    == "Failed to encode schematic: "@ + ("GZIP finish failed: "@ + m),
                Err(m) => r matches Err(Refusal::Message(t)) && t@
                    == "Failed to encode schematic: "@ + ("GZIP encode failed: "@ + m),
            }
        }),
{
}

/// The palette index of a block is the place of its text in the palette.
pub proof fn law_index_is_the_place_of_the_text(
    blocks: Seq<u16>,
    texts: Seq<Seq<char>>,
    i: int,
    k: int,
)
    requires
        texts.len() == appearing(blocks).len(),
        0 <= i < blocks.len(),
        0 <= k < texts.len(),
        appearing(blocks)[k] == blocks[i],
    ensures
        ({
            let indices = block_indices(blocks, appearing(blocks), texts);
            &&& indices.len() == blocks.len()
            &&& indices[i] < palette_of(texts).len()
            &&& palette_of(texts)[indices[i] as int].0 == texts[k]
        }),
{
    law_appearing_lists_states(blocks);
    lemma_few_states(appearing(blocks));
    law_palette_numbers_texts(texts);
    assert(appearing(blocks).contains(blocks[i]));
    let j = appearing(blocks).index_of(blocks[i]);
    assert(appearing(blocks)[j] == appearing(blocks)[k]);
    assert(j == k);
    assert(has_name(palette_of(texts), texts[k]));
    lemma_slot(palette_of(texts), texts[k]);
}

/// What is saved of a clipboard of any size: the texts of its states as the registry describes them,
/// the index of each block, and the extents along x, y and z.
pub proof fn law_clipboard_is_saved_with_its_texts(
    h: spec_fn(u16) -> Option<PaletteView>,
    name: Seq<char>,
    c: ClipboardView,
    job: SaveJob,
)
    requires
        describes_by(h),
        may_save(name, c, Ok(job)),
    ensures
        ({
            let states = appearing(c.blocks);
            let texts = Seq::new(
                states.len(),
                |k: int|
                    if states[k] == 0 {
                        "minecraft:air"@
                    } else if h(states[k]) is Some {
                        state_text(h(states[k])->0)
                    } else {
                        "minecraft:stone"@
                    },
            );
            gunzipped(job.bytes@) == Ok::<Seq<u8>, Seq<char>>(
                file_bytes(
                    schem_compound(
                        palette_of(texts),
                        block_indices(c.blocks, states, texts),
                        (c.size_x, c.size_y, c.size_z),
                    ),
                ),
            )
        }),
        job.filename@ == save_filename(name),
{
    let states = appearing(c.blocks);
    let infos = choose|infos: Seq<Option<PaletteView>>| #[trigger]
        all_described(states, infos) && save_outcome(
            name,
            palette_of(block_texts(states, infos)),
            block_indices(c.blocks, states, block_texts(states, infos)),
            (c.size_x, c.size_y, c.size_z),
            unknown(states, infos) as int,
            Ok(job),
        );
    let texts = Seq::new(
        states.len(),
        |k: int|
            if states[k] == 0 {
                "minecraft:air"@
            } else if h(states[k]) is Some {
                state_text(h(states[k])->0)
            } else {
                "minecraft:stone"@
            },
    );
    assert forall|k: int| 0 <= k < states.len() implies block_texts(states, infos)[k] == texts[k] by {
        let a = infos[k];
    }
    assert(block_texts(states, infos) =~= texts);
}

} // verus!
