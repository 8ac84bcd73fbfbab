//! From the palettes of a schematic to the block states of the server.
use vstd::prelude::*;
use vstd::string::*;

use crate::assemble::{assembled, assembles, maps_view, try_schematic_to_clipboard};
use crate::clipboard::Clipboard;
use crate::config::PluginConfig;
use crate::host::{pairs_view, resolve, resolves, BlockStateInfo};
use crate::schematic::{palette_view, text_pairs, PaletteEntry, PaletteView, Region, Schematic};
use crate::text::same;

verus! {

/// Whether a block type is air, which every server knows as 0.
pub open spec fn is_air(name: Seq<char>) -> bool {
    name == "minecraft:air"@ || name == "air"@
}

/// Whether a block type is air.
fn names_air(name: &str) -> (r: bool)
    ensures
        r == is_air(name@),
{
    same(name, "minecraft:air") || same(name, "air")
}

/// Whether the registry may have answered this for the block states that are not air.
pub open spec fn all_resolved(palette: Seq<PaletteView>, answers: Seq<Option<u16>>) -> bool {
    answers.len() == palette.len() && forall|i: int|
        0 <= i < palette.len() && !is_air(palette[i].name) ==> resolves(
            palette[i],
            #[trigger] answers[i],
        )
}

/// The states of a palette: 0 for air, what the registry answered, or else the fallback.
pub open spec fn palette_states(
    palette: Seq<PaletteView>,
    answers: Seq<Option<u16>>,
    fallback: Option<u16>,
) -> Seq<Option<u16>> {
    Seq::new(
        palette.len(),
        |i: int|
            if is_air(palette[i].name) {
                Some(0u16)
            } else if answers[i] is Some {
                answers[i]
            } else {
                fallback
            },
    )
}

/// The number of block states that are not air and for which the registry had no answer.
pub open spec fn missing_states(palette: Seq<PaletteView>, answers: Seq<Option<u16>>) -> nat
    decreases palette.len(),
{
    if palette.len() == 0 {
        0
    } else {
        missing_states(palette.drop_last(), answers) + (if !is_air(palette.last().name)
            && answers[palette.len() - 1] is None {
            1nat
        } else {
            0nat
        })
    }
}

/// What the registry answers for the block states of a palette that are not air.
fn ask_palette(palette: &Vec<PaletteEntry>) -> (r: Vec<Option<u16>>)
    ensures
        all_resolved(palette_view(palette@), r@),
{
    let ghost p = palette_view(palette@);
    let mut answers: Vec<Option<u16>> = Vec::new();
    let mut i: usize = 0;
    while i < palette.len()
        invariant
            i <= palette@.len(),
            p == palette_view(palette@),
            answers@.len() == i,
            forall|k: int|
                0 <= k < i && !is_air(p[k].name) ==> resolves(p[k], #[trigger] answers@[k]),
        decreases palette@.len() - i,
    {
        assert(p[i as int] == palette@[i as int]@);
        if names_air(palette[i].name.as_str()) {
            answers.push(None);
        } else {
            let block = block_of(&palette[i]);
            answers.push(resolve(&block));
        }
        i += 1;
    }
    answers
}

/// A palette entry as the registry names it.
fn block_of(entry: &PaletteEntry) -> (r: BlockStateInfo)
    ensures
        r@ == entry@,
{
    let mut properties: Vec<(String, String)> = Vec::new();
    let mut i: usize = 0;
    while i < entry.properties.entries.len()
        invariant
            i <= entry.properties.entries@.len(),
            properties@.len() == i,
            forall|k: int|
                0 <= k < i ==> (#[trigger] properties@[k]).0@ == entry.properties.entries@[k].0@
                    && properties@[k].1@ == entry.properties.entries@[k].1@,
        decreases entry.properties.entries@.len() - i,
    {
        let e = &entry.properties.entries[i];
        properties.push((e.0.as_str().to_owned(), e.1.as_str().to_owned()));
        i += 1;
    }
    assert(pairs_view(properties@) =~= text_pairs(entry.properties@));
    BlockStateInfo { name: entry.name.as_str().to_owned(), properties }
}

/// The states of a palette, given what the registry answered.
pub fn settle_palette(
    palette: &Vec<PaletteEntry>,
    answers: &Vec<Option<u16>>,
    fallback: Option<u16>,
) -> (r: Vec<Option<u16>>)
    requires
        answers@.len() == palette@.len(),
    ensures
        r@ == palette_states(palette_view(palette@), answers@, fallback),
{
    let ghost p = palette_view(palette@);
    let mut states: Vec<Option<u16>> = Vec::new();
    let mut i: usize = 0;
    while i < palette.len()
        invariant
            i <= palette@.len(),
            p == palette_view(palette@),
            answers@.len() == palette@.len(),
            states@ == palette_states(p, answers@, fallback).take(i as int),
        decreases palette@.len() - i,
    {
        assert(p[i as int] == palette@[i as int]@);
        let state: Option<u16> = if names_air(palette[i].name.as_str()) {
            Some(0)
        } else {
            match answers[i] {
                Some(id) => Some(id),
                None => fallback,
            }
        };
        states.push(state);
        assert(states@ =~= palette_states(p, answers@, fallback).take(i + 1));
        i += 1;
    }
    assert(states@ =~= palette_states(p, answers@, fallback));
    states
}

/// The states of a palette, by the registry, with a fallback for what it does not know.
pub fn resolve_palette(palette: &Vec<PaletteEntry>, fallback: Option<u16>) -> (r: Vec<Option<u16>>)
    ensures
        exists|answers: Seq<Option<u16>>| #[trigger]
            all_resolved(palette_view(palette@), answers) && r@ == palette_states(
                palette_view(palette@),
                answers,
                fallback,
            ),
{
    let answers = ask_palette(palette);
    settle_palette(palette, &answers, fallback)
}

/// The number of block states that are not air and for which the registry had no answer, given
/// what it answered.
pub fn count_missing(palette: &Vec<PaletteEntry>, answers: &Vec<Option<u16>>) -> (r: usize)
    requires
        answers@.len() == palette@.len(),
    ensures
        r == missing_states(palette_view(palette@), answers@),
        r <= palette@.len(),
{
    let ghost p = palette_view(palette@);
    let mut n: usize = 0;
    let mut i: usize = 0;
    assert(p.take(0) =~= Seq::empty());
    while i < palette.len()
        invariant
            i <= palette@.len(),
            p == palette_view(palette@),
            answers@.len() == palette@.len(),
            n <= i,
            n == missing_states(p.take(i as int), answers@),
        decreases palette@.len() - i,
    {
        assert(p.take(i + 1).drop_last() =~= p.take(i as int));
        assert(p.take(i + 1).last() == palette@[i as int]@);
        if !names_air(palette[i].name.as_str()) && answers[i].is_none() {
            n += 1;
        }
        i += 1;
    }
    assert(p.take(i as int) =~= p);
    n
}

/// The number of block states of some regions for which the registry had no answer.
pub open spec fn missing_in(rs: Seq<Region>, answers: Seq<Seq<Option<u16>>>) -> nat
    decreases rs.len(),
{
    if rs.len() == 0 {
        0
    } else {
        missing_in(rs.drop_last(), answers) + missing_states(
            palette_view(rs.last().palette@),
            answers[rs.len() - 1],
        )
    }
}

/// Whether the registry may have answered this for the palettes of some regions.
pub open spec fn regions_resolved(rs: Seq<Region>, answers: Seq<Seq<Option<u16>>>) -> bool {
    answers.len() == rs.len() && forall|k: int|
        0 <= k < rs.len() ==> all_resolved(palette_view(rs[k].palette@), #[trigger] answers[k])
}

/// The number of block states of a schematic that the registry does not know. It stays at the
/// largest number where there are more.
pub fn count_unresolved(schematic: &Schematic) -> (r: usize)
    ensures
        exists|answers: Seq<Seq<Option<u16>>>| #[trigger]
            regions_resolved(schematic.regions@, answers) && r as int == (if missing_in(
                schematic.regions@,
                answers,
            ) <= usize::MAX {
                missing_in(schematic.regions@, answers) as int
            } else {
                usize::MAX as int
            }),
{
    let ghost rs = schematic.regions@;
    let ghost mut answers: Seq<Seq<Option<u16>>> = Seq::empty();
    let mut n: usize = 0;
    let mut k: usize = 0;
    assert(rs.take(0) =~= Seq::empty());
    while k < schematic.regions.len()
        invariant
            k <= rs.len(),
            rs == schematic.regions@,
            answers.len() == k,
            forall|j: int|
                0 <= j < k ==> all_resolved(palette_view(rs[j].palette@), #[trigger] answers[j]),
            n as int == (if missing_in(rs.take(k as int), answers) <= usize::MAX {
                missing_in(rs.take(k as int), answers) as int
            } else {
                usize::MAX as int
            }),
        decreases rs.len() - k,
    {
        let palette = &schematic.regions[k].palette;
        let got = ask_palette(palette);
        let m: usize = count_missing(palette, &got);
        let ghost before = answers;
        proof {
            answers = answers.push(got@);
            assert(rs.take(k + 1).drop_last() =~= rs.take(k as int));
            lemma_missing_prefix(rs.take(k as int), before, answers);
        }
        n = match n.checked_add(m) {
            Some(v) => v,
            None => usize::MAX,
        };
        k += 1;
    }
    assert(rs.take(k as int) =~= rs);
    assert(regions_resolved(rs, answers));
    n
}

/// Answers for later regions do not matter.
proof fn lemma_missing_prefix(
    rs: Seq<Region>,
    a: Seq<Seq<Option<u16>>>,
    b: Seq<Seq<Option<u16>>>,
)
    requires
        rs.len() <= a.len(),
        rs.len() <= b.len(),
        forall|k: int| 0 <= k < rs.len() ==> a[k] == b[k],
    ensures
        missing_in(rs, a) == missing_in(rs, b),
    decreases rs.len(),
{
    if rs.len() > 0 {
        lemma_missing_prefix(rs.drop_last(), a, b);
    }
}

/// Whether the registry may give this for the fallback block: nothing if it is `skip`.
pub open spec fn fallback_resolves(fallback_block: Seq<char>, r: Option<u16>) -> bool {
    if fallback_block == "skip"@ {
        r is None
    } else {
        resolves(PaletteView { name: fallback_block, properties: Seq::empty() }, r)
    }
}

/// The state that stands in for a block that cannot be resolved, if there is to be one.
pub fn resolve_fallback_block(config: &PluginConfig) -> (r: Option<u16>)
    ensures
        fallback_resolves(config.fallback_block@, r),
{
    if same(config.fallback_block.as_str(), "skip") {
        return None;
    }
    resolve_name(config.fallback_block.as_str())
}

/// The state of a block type without properties, by the registry.
pub fn resolve_name(name: &str) -> (r: Option<u16>)
    ensures
        resolves(PaletteView { name: name@, properties: Seq::empty() }, r),
{
    let block = BlockStateInfo { name: name.to_owned(), properties: Vec::new() };
    assert(pairs_view(block.properties@) =~= Seq::empty());
    resolve(&block)
}

/// Whether these may be the states of the palettes of some regions.
pub open spec fn regions_settled(
    rs: Seq<Region>,
    fallback: Option<u16>,
    states: Seq<Seq<Option<u16>>>,
) -> bool {
    exists|answers: Seq<Seq<Option<u16>>>| #[trigger]
        regions_resolved(rs, answers) && states == Seq::new(
            rs.len(),
            |k: int| palette_states(palette_view(rs[k].palette@), answers[k], fallback),
        )
}

/// The states of the palettes of some regions.
pub fn resolve_regions(regions: &Vec<Region>, fallback: Option<u16>) -> (r: Vec<Vec<Option<u16>>>)
    ensures
        regions_settled(regions@, fallback, maps_view(r@)),
{
    let ghost rs = regions@;
    let ghost mut answers: Seq<Seq<Option<u16>>> = Seq::empty();
    let mut maps: Vec<Vec<Option<u16>>> = Vec::new();
    let mut k: usize = 0;
    while k < regions.len()
        invariant
            k <= rs.len(),
            rs == regions@,
            answers.len() == k,
            maps@.len() == k,
            forall|j: int|
                0 <= j < k ==> all_resolved(palette_view(rs[j].palette@), #[trigger] answers[j]),
            forall|j: int|
                0 <= j < k ==> (#[trigger] maps@[j])@ == palette_states(
                    palette_view(rs[j].palette@),
                    answers[j],
                    fallback,
                ),
        decreases rs.len() - k,
    {
        let palette = &regions[k].palette;
        let states = resolve_palette(palette, fallback);
        proof {
            let got = choose|a: Seq<Option<u16>>| #[trigger]
                all_resolved(palette_view(palette@), a) && states@ == palette_states(
                    palette_view(palette@),
                    a,
                    fallback,
                );
            answers = answers.push(got);
        }
        maps.push(states);
        k += 1;
    }
    assert(regions_resolved(rs, answers));
    assert(maps_view(maps@) =~= Seq::new(
        rs.len(),
        |k: int| palette_states(palette_view(rs[k].palette@), answers[k], fallback),
    ));
    maps
}

/// Whether this may be the clipboard of a schematic: with the states that the registry gives for
/// its palettes, or nothing where a step leaves the range of machine integers.
pub open spec fn may_build(
    name: Seq<char>,
    rs: Seq<Region>,
    fallback: Option<u16>,
    r: Option<Result<Clipboard, String>>,
) -> bool {
    exists|states: Seq<Seq<Option<u16>>>| #[trigger]
        regions_settled(rs, fallback, states) && (r is Some) == assembles(rs, states) && (
        r matches Some(v) ==> match (v, assembled(name, rs, states)) {
            (Ok(c), Ok(s)) => c@ == s && s.wf(),
            (Err(e), Err(m)) => e@ == m,
            _ => false,
        })
}

/// The clipboard of a schematic, with the states that the registry gives for its palettes, or
/// nothing where a step leaves the range of machine integers.
pub fn build_clipboard(schematic: &Schematic, fallback: Option<u16>) -> (r: Option<
    Result<Clipboard, String>,
>)
    ensures
        may_build(schematic.name@, schematic.regions@, fallback, r),
{
    let palette_map = resolve_regions(&schematic.regions, fallback);
    let r = try_schematic_to_clipboard(
        schematic.name.as_str().to_owned(),
        schematic,
        &palette_map,
    );
    assert(regions_settled(schematic.regions@, fallback, maps_view(palette_map@)));
    r
}

/// Air is air, whatever the registry answers and whatever the fallback is.
pub proof fn law_air_stays_air(
    palette: Seq<PaletteView>,
    answers: Seq<Option<u16>>,
    fallback: Option<u16>,
    i: int,
)
    requires
        0 <= i < palette.len(),
        is_air(palette[i].name),
    ensures
        palette_states(palette, answers, fallback)[i] == Some(0u16),
{
}

/// With a fallback every block state gets one; without, exactly those that the registry does not
/// know are left out.
pub proof fn law_fallback_fills_gaps(
    palette: Seq<PaletteView>,
    answers: Seq<Option<u16>>,
    fallback: Option<u16>,
    i: int,
)
    requires
        0 <= i < palette.len(),
    ensures
        palette_states(palette, answers, fallback)[i] is None <==> fallback is None && !is_air(
            palette[i].name,
        ) && answers[i] is None,
{
}

} // verus!
