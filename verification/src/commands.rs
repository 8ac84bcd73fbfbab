//! What the commands decide, do and say.
use vstd::prelude::*;
use vstd::string::*;

use crate::block_state::FlipAxis;
use crate::clipboard::{placed_tiles, Clipboard, ClipboardView};
use crate::config::PluginConfig;
use crate::grid::BlockPos;
use crate::gzip::{gunzipped, gzipped};
use crate::host::resolves;
use crate::messages::{
    between, joined_text, load_notices, notices_view, push_size, single, size_text, tell_loaded,
    Level, Notice,
};
use crate::names::{lookup, NameMap};
use crate::nbt::Nbt;
use crate::palette::{
    all_described, appearing, block_indices, block_texts, clipboard_to_schem_data, palette_of,
    unknown,
};
use crate::placement::{
    block_queue, count_filled, filled, placeable, queued_tiles, tile_queue, BlockPlacement,
    TileEntityPlacement,
};
use crate::resolve::{
    build_clipboard, count_unresolved, fallback_resolves, may_build, missing_in, regions_resolved,
    resolve_fallback_block, resolve_name,
};
use crate::schem::{schem_file_readable, schematic_file, try_parse_schematic};
use crate::schem_write::{build_schem_nbt, nbt_file, schem_compound, write_schem_bytes};
use crate::schematic::{PaletteView, Region, Schematic};
use crate::selection::{
    bounds_of, map_view, pos_text, push_pos, selection_bounds, Selection, SelectionBounds,
};
use crate::text::{
    chars_of, contains_char, decimal, decimal_i64, ends_with, has_suffix, i32_in, parse_i32,
    push_decimal, same,
};

verus! {

/// Why a command is not carried out.
#[derive(Debug)]
pub enum Refusal {
    /// The player is told, as of an error.
    Message(String),
    /// The command fails with a text.
    Failure(String),
}

/// Whether a refusal is a message with a text.
pub open spec fn tells(r: Refusal, text: Seq<char>) -> bool {
    r matches Refusal::Message(t) && t@ == text
}

/// Whether a refusal is a failure with a text.
pub open spec fn fails(r: Refusal, text: Seq<char>) -> bool {
    r matches Refusal::Failure(t) && t@ == text
}

/// Whether a file's name cannot lead out of a directory: it is not empty and has no separator, no
/// two dots behind each other and no zero character.
pub open spec fn safe_name(name: Seq<char>) -> bool {
    &&& name.len() > 0
    &&& !name.contains('/')
    &&& !name.contains('\\')
    &&& !name.contains('\0')
    &&& forall|i: int| 0 <= i < name.len() - 1 ==> !(#[trigger] name[i] == '.' && name[i + 1] == '.')
}

/// Whether a file's name cannot lead out of a directory.
pub fn is_safe_filename(name: &str) -> (r: bool)
    ensures
        r == safe_name(name@),
{
    let cs = chars_of(name);
    let n: usize = cs.len();
    if n == 0 || contains_char(name, '/') || contains_char(name, '\\') || contains_char(
        name,
        '\0',
    ) {
        return false;
    }
    let mut i: usize = 1;
    while i < n
        invariant
            1 <= i <= n,
            n == cs@.len(),
            cs@ == name@,
            forall|k: int|
                0 <= k < i - 1 ==> !(#[trigger] name@[k] == '.' && name@[k + 1] == '.'),
        decreases n - i,
    {
        if cs[i - 1] == '.' && cs[i] == '.' {
            assert(name@[i - 1] == '.' && name@[i - 1 + 1] == '.');
            return false;
        }
        i += 1;
    }
    true
}

/// Where a file that is to be loaded lies, unless its name is unsafe.
pub fn load_path(dir: &str, file: &str) -> (r: Result<String, Refusal>)
    ensures
        match r {
            Ok(path) => safe_name(file@) && path@ == dir@ + "/"@ + file@,
            Err(e) => !safe_name(file@) && tells(e, "Invalid file name."@),
        },
{
    if is_safe_filename(file) {
        Ok(between(dir, "/", file))
    } else {
        Err(Refusal::Message("Invalid file name.".to_string()))
    }
}

/// A schematic that was loaded, and what is said about it.
#[derive(Debug)]
pub struct Loaded {
    pub clip: Clipboard,
    pub notices: Vec<Notice>,
}

/// Whether this may be the number of block types of some regions that the registry does not know.
pub open spec fn may_count(rs: Seq<Region>, n: int) -> bool {
    exists|answers: Seq<Seq<Option<u16>>>| #[trigger]
        regions_resolved(rs, answers) && n == (if missing_in(rs, answers) <= usize::MAX {
            missing_in(rs, answers) as int
        } else {
            usize::MAX as int
        })
}

/// What loading gives, once the file is read, the fallback and the unknown block types are known,
/// and the clipboard is built.
pub open spec fn load_outcome(
    schematic: Schematic,
    fallback: Option<u16>,
    unresolved: int,
    built: Option<Result<Clipboard, String>>,
    fallback_block: Seq<char>,
    r: Option<Result<Loaded, Notice>>,
) -> bool {
    match built {
        None => r is None,
        Some(Err(e)) => r matches Some(Err(n)) && n@ == (Level::Error, "Cannot load: "@ + e@),
        Some(Ok(clip)) => {
            &&& r matches Some(Ok(l))
            &&& l.clip == clip
            &&& notices_view(l.notices@) == load_notices(
                schematic.name@,
                schematic.regions@.len() as int,
                filled(clip.blocks@).len() as int,
                unresolved,
                fallback is None,
                fallback_block,
            )
        },
    }
}

/// Whether a schematic may load like this, by the registry.
pub open spec fn may_load(
    schematic: Schematic,
    fallback_block: Seq<char>,
    r: Option<Result<Loaded, Notice>>,
) -> bool {
    exists|fallback: Option<u16>, unresolved: int, built: Option<Result<Clipboard, String>>|
        {
            &&& fallback_resolves(fallback_block, fallback)
            &&& may_count(schematic.regions@, unresolved)
            &&& may_build(schematic.name@, schematic.regions@, fallback, built)
            &&& #[trigger] load_outcome(
                schematic,
                fallback,
                unresolved,
                built,
                fallback_block,
                r,
            )
        }
}

/// The messages and the clipboard of a schematic that was read, given how many of its block types
/// are unknown and what clipboard it makes up.
pub fn settle_load(
    schematic: &Schematic,
    fallback: Option<u16>,
    unresolved: usize,
    built: Option<Result<Clipboard, String>>,
    fallback_block: &str,
) -> (r: Option<Result<Loaded, Notice>>)
    ensures
        load_outcome(*schematic, fallback, unresolved as int, built, fallback_block@, r),
{
    match built {
        None => None,
        Some(Err(e)) => Some(
            Err(
                Notice {
                    level: Level::Error,
                    text: joined_text("Cannot load: ", e.as_str()),
                },
            ),
        ),
        Some(Ok(clip)) => {
            let notices = tell_loaded(
                schematic.name.as_str(),
                schematic.regions.len(),
                count_filled(&clip.blocks),
                unresolved,
                fallback.is_none(),
                fallback_block,
            );
            Some(Ok(Loaded { clip, notices }))
        },
    }
}

/// Loads a file into a clipboard. There is no outcome where a block state in the file cannot be
/// taken apart or a step leaves the range of machine integers.
pub fn load(data: &[u8], file: &str, config: &PluginConfig) -> (r: Option<Result<Loaded, Notice>>)
    ensures
        if ends_with(file@, ".schem"@) && !schem_file_readable(data@) {
            r is None
        } else {
            match schematic_file(data@, file@) {
                Err(m) => r matches Some(Err(n)) && n@ == (Level::Error, "Parse error: "@ + m),
                Ok(s) => exists|schematic: Schematic|
                    schematic@ == s && #[trigger] may_load(
                        schematic,
                        config.fallback_block@,
                        r,
                    ),
            }
        },
        r matches Some(Ok(l)) ==> l.clip@.wf(),
{
    let schematic = match try_parse_schematic(data, file) {
        None => return None,
        Some(Err(e)) => {
            return Some(
                Err(
                    Notice {
                        level: Level::Error,
                        text: joined_text("Parse error: ", e.as_str()),
                    },
                ),
            );
        },
        Some(Ok(s)) => s,
    };
    let fallback: Option<u16> = resolve_fallback_block(config);
    let unresolved: usize = count_unresolved(&schematic);
    assert(may_count(schematic.regions@, unresolved as int));
    let built = build_clipboard(&schematic, fallback);
    let ghost b = built;
    let r = settle_load(
        &schematic,
        fallback,
        unresolved,
        built,
        config.fallback_block.as_str(),
    );
    assert(load_outcome(
        schematic,
        fallback,
        unresolved as int,
        b,
        config.fallback_block@,
        r,
    ));
    assert(may_load(schematic, config.fallback_block@, r));
    r
}

/// Blocks and block entities that are to be placed, and what is said about it.
#[derive(Debug)]
pub struct PasteJob {
    pub queue: Vec<BlockPlacement>,
    pub tile_entities: Vec<TileEntityPlacement>,
    pub description: String,
    pub notice: Notice,
}

/// How a paste is described.
pub open spec fn paste_description(name: Seq<char>, origin: BlockPos) -> Seq<char> {
    "Paste '"@ + name + "' at "@ + pos_text(origin)
}

/// What tells the player that blocks are being pasted.
pub open spec fn paste_text(name: Seq<char>, blocks: int) -> Seq<char> {
    "Pasting '"@ + name + "' ("@ + decimal(blocks) + " blocks)..."@
}

/// The view of a clipboard that is there, if one is.
pub open spec fn clip_view(clip: Option<&Clipboard>) -> Option<ClipboardView> {
    match clip {
        Some(c) => Some(c@),
        None => None,
    }
}

/// Starts a paste of a clipboard with its lowest corner at the player's feet, unless the server is
/// busy or there is no clipboard. There is no outcome where a coordinate leaves thirty-two bits.
pub fn start_paste(
    clip: Option<&Clipboard>,
    origin: BlockPos,
    active: usize,
    max_concurrent_pastes: usize,
) -> (r: Option<Result<PasteJob, Refusal>>)
    requires
        clip matches Some(c) ==> c@.wf(),
    ensures
        if active >= max_concurrent_pastes {
            r matches Some(Err(e)) && tells(e, "Server is busy. Please wait and try again."@)
        } else {
            match clip_view(clip) {
                None => r matches Some(Err(e)) && fails(
                    e,
                    "Nothing to paste. Use /schematic copy or /schematic load <file>"@,
                ),
                Some(c) => if placeable(c, origin, true) {
                    &&& r matches Some(Ok(job))
                    &&& job.queue@ == block_queue(c, origin, true)
                    &&& queued_tiles(job.tile_entities@) == tile_queue(c, origin, true)
                    &&& job.description@ == paste_description(c.name, origin)
                    &&& job.notice@ == (
                        Level::Info,
                        paste_text(c.name, block_queue(c, origin, true).len() as int),
                    )
                } else {
                    r is None
                },
            }
        },
{
    if active >= max_concurrent_pastes {
        return Some(
            Err(Refusal::Message("Server is busy. Please wait and try again.".to_string())),
        );
    }
    let c = match clip {
        Some(c) => c,
        None => {
            return Some(
                Err(
                    Refusal::Failure(
                        "Nothing to paste. Use /schematic copy or /schematic load <file>".to_string(),
                    ),
                ),
            );
        },
    };
    let (queue, tile_entities) = match c.try_work_queue(origin, true) {
        Some(q) => q,
        None => return None,
    };
    let mut text = "Pasting '".to_string();
    text.append(c.name.as_str());
    text.append("' (");
    push_decimal(&mut text, queue.len() as u64);
    text.append(" blocks)...");
    let mut description = "Paste '".to_string();
    description.append(c.name.as_str());
    description.append("' at ");
    push_pos(&mut description, origin);
    Some(
        Ok(
            PasteJob {
                queue,
                tile_entities,
                description,
                notice: Notice { level: Level::Info, text },
            },
        ),
    )
}

/// The clipboard of what was read of a selection, and what is said about it.
pub fn finish_copy(
    blocks: Vec<u16>,
    tile_entities: Vec<(BlockPos, Vec<u8>)>,
    size: (i32, i32, i32),
) -> (r: (Clipboard, Notice))
    ensures
        r.0@ == (ClipboardView {
            name: "clipboard"@,
            blocks: blocks@,
            tile_entities: placed_tiles(tile_entities@),
            size_x: size.0,
            size_y: size.1,
            size_z: size.2,
            offset: BlockPos { x: 0, y: 0, z: 0 },
        }),
        r.1@ == (
            Level::Success,
            "Copied "@ + decimal(filled(blocks@).len() as int) + " blocks ("@ + size_text(
                size.0 as int,
                size.1 as int,
                size.2 as int,
            ) + ")"@,
        ),
{
    let mut text = "Copied ".to_string();
    push_decimal(&mut text, count_filled(&blocks) as u64);
    text.append(" blocks (");
    push_size(&mut text, size.0, size.1, size.2);
    text.append(")");
    let clip = Clipboard {
        name: "clipboard".to_string(),
        blocks,
        tile_entities,
        size_x: size.0,
        size_y: size.1,
        size_z: size.2,
        offset: BlockPos { x: 0, y: 0, z: 0 },
    };
    (clip, Notice { level: Level::Success, text })
}

/// The name of the file in which a clipboard is saved.
pub open spec fn save_filename(name: Seq<char>) -> Seq<char> {
    if ends_with(name, ".schem"@) {
        name
    } else {
        name + ".schem"@
    }
}

/// The name of the file in which a clipboard is saved.
pub fn filename_for(name: &str) -> (r: String)
    ensures
        r@ == save_filename(name@),
{
    if has_suffix(name, ".schem") {
        name.to_owned()
    } else {
        joined_text(name, ".schem")
    }
}

/// A file that is to be written.
#[derive(Debug)]
pub struct SaveJob {
    pub filename: String,
    pub bytes: Vec<u8>,
    /// The number of block types that the registry does not know.
    pub unresolved: usize,
}

/// The bytes of a `.schem` file before they are packed.
pub open spec fn schem_bytes(
    palette: Seq<(Seq<char>, u16)>,
    indices: Seq<u16>,
    size: (i32, i32, i32),
) -> Seq<u8> {
    nbt_file(Nbt::Compound(schem_compound(palette, indices, size)))
}

/// What saving gives, once the palette and the indices are known.
pub open spec fn save_outcome(
    name: Seq<char>,
    palette: Seq<(Seq<char>, u16)>,
    indices: Seq<u16>,
    size: (i32, i32, i32),
    unresolved: int,
    r: Result<SaveJob, Refusal>,
) -> bool {
    match (r, gzipped(schem_bytes(palette, indices, size))) {
        (Ok(job), Ok(Ok(b))) => {
            &&& job.filename@ == save_filename(name)
            &&& job.bytes@ == b
            &&& gunzipped(b) == Ok::<Seq<u8>, Seq<char>>(schem_bytes(palette, indices, size))
            &&& job.unresolved == unresolved
        },
        (Err(e), Ok(Err(m))) => tells(
            e,
            "Failed to encode schematic: "@ + ("GZIP finish failed: "@ + m),
        ),
        (Err(e), Err(m)) => tells(e, "Failed to encode schematic: "@ + ("GZIP encode failed: "@ + m)),
        _ => false,
    }
}

/// Whether a clipboard may be saved like this, by the registry.
pub open spec fn may_save(name: Seq<char>, c: ClipboardView, r: Result<SaveJob, Refusal>) -> bool {
    exists|infos: Seq<Option<PaletteView>>| #[trigger]
        all_described(appearing(c.blocks), infos) && save_outcome(
            name,
            palette_of(block_texts(appearing(c.blocks), infos)),
            block_indices(
                c.blocks,
                appearing(c.blocks),
                block_texts(appearing(c.blocks), infos),
            ),
            (c.size_x, c.size_y, c.size_z),
            unknown(appearing(c.blocks), infos) as int,
            r,
        )
}

/// The file of a palette and indices.
pub fn encode_save(
    name: &str,
    palette: &NameMap<u16>,
    indices: &[u16],
    size: (i32, i32, i32),
    unresolved: usize,
) -> (r: Result<SaveJob, Refusal>)
    ensures
        save_outcome(name@, palette@, indices@, size, unresolved as int, r),
{
    let nbt = build_schem_nbt(palette, indices, size);
    match write_schem_bytes(&nbt) {
        Ok(bytes) => Ok(SaveJob { filename: filename_for(name), bytes, unresolved }),
        Err(e) => Err(Refusal::Message(joined_text("Failed to encode schematic: ", e.as_str()))),
    }
}

/// Makes the file of a clipboard, unless the name is unsafe or there is no clipboard.
pub fn save(name: &str, clip: Option<&Clipboard>) -> (r: Result<SaveJob, Refusal>)
    ensures
        if !safe_name(name@) {
            r matches Err(e) && tells(e, "Invalid schematic name."@)
        } else {
            match clip_view(clip) {
                None => r matches Err(e) && fails(e, "No clipboard. Use /schematic copy first."@),
                Some(c) => may_save(name@, c, r),
            }
        },
{
    if !is_safe_filename(name) {
        return Err(Refusal::Message("Invalid schematic name.".to_string()));
    }
    let c = match clip {
        Some(c) => c,
        None => {
            return Err(Refusal::Failure("No clipboard. Use /schematic copy first.".to_string()));
        },
    };
    let (palette, indices, unresolved) = clipboard_to_schem_data(c);
    encode_save(
        name,
        &palette,
        indices.as_slice(),
        (c.size_x, c.size_y, c.size_z),
        unresolved,
    )
}

/// What tells the player that a file was written.
pub open spec fn saved_notices(filename: Seq<char>, len: int, unresolved: int) -> Seq<
    (Level, Seq<char>),
> {
    let done = (Level::Success, "Saved '"@ + filename + "' ("@ + decimal(len) + " bytes)"@);
    if unresolved == 0 {
        seq![done]
    } else {
        seq![
            done,
            (
                Level::Warn,
                decimal(unresolved)
                    + " block type(s) could not be identified and were saved as stone."@,
            ),
        ]
    }
}

/// The messages about a file that was written.
pub fn tell_saved(job: &SaveJob) -> (r: Vec<Notice>)
    ensures
        notices_view(r@) == saved_notices(
            job.filename@,
            job.bytes@.len() as int,
            job.unresolved as int,
        ),
{
    let mut text = "Saved '".to_string();
    text.append(job.filename.as_str());
    text.append("' (");
    push_decimal(&mut text, job.bytes.len() as u64);
    text.append(" bytes)");
    let mut r = single(Level::Success, text);
    if job.unresolved > 0 {
        let mut warning = String::new();
        push_decimal(&mut warning, job.unresolved as u64);
        assert(warning@ =~= decimal(job.unresolved as int));
        warning.append(" block type(s) could not be identified and were saved as stone.");
        let ghost before = notices_view(r@);
        let ghost w = (Level::Warn, warning@);
        r.push(Notice { level: Level::Warn, text: warning });
        assert(notices_view(r@) =~= before.push(w));
        assert(before.push(w) =~= seq![before[0], w]);
    }
    r
}

/// The angle of a turn by one, two or three quarters.
pub fn parse_degrees(text: &str) -> (r: Result<i32, Refusal>)
    ensures
        match i32_in(text@) {
            Some(d) => if d == 90 || d == 180 || d == 270 {
                r == Ok::<i32, Refusal>(d)
            } else {
                r matches Err(e) && tells(e, "Degrees must be 90, 180, or 270."@)
            },
            None => r matches Err(e) && tells(e, "Degrees must be 90, 180, or 270."@),
        },
{
    match parse_i32(text) {
        Some(d) => if d == 90 || d == 180 || d == 270 {
            Ok(d)
        } else {
            Err(Refusal::Message("Degrees must be 90, 180, or 270.".to_string()))
        },
        None => Err(Refusal::Message("Degrees must be 90, 180, or 270.".to_string())),
    }
}

/// The message about a clipboard that was turned.
pub fn tell_rotated(degrees: i32, clip: &Clipboard) -> (r: Notice)
    ensures
        r@ == (
            Level::Success,
            "Rotated "@ + decimal(degrees as int) + "°. Size: "@ + size_text(
                clip.size_x as int,
                clip.size_y as int,
                clip.size_z as int,
            ),
        ),
{
    let mut text = "Rotated ".to_string();
    text.append(decimal_i64(degrees as i64).as_str());
    text.append("°. Size: ");
    push_size(&mut text, clip.size_x, clip.size_y, clip.size_z);
    Notice { level: Level::Success, text }
}

/// The axis that a text names, in either case.
pub open spec fn axis_in(text: Seq<char>) -> Option<FlipAxis> {
    if text == "x"@ || text == "X"@ {
        Some(FlipAxis::X)
    } else if text == "z"@ || text == "Z"@ {
        Some(FlipAxis::Z)
    } else {
        None
    }
}

/// The axis of a mirroring.
pub fn parse_axis(text: &str) -> (r: Result<FlipAxis, Refusal>)
    ensures
        match axis_in(text@) {
            Some(a) => r == Ok::<FlipAxis, Refusal>(a),
            None => r matches Err(e) && tells(e, "Axis must be x or z."@),
        },
{
    if same(text, "x") || same(text, "X") {
        Ok(FlipAxis::X)
    } else if same(text, "z") || same(text, "Z") {
        Ok(FlipAxis::Z)
    } else {
        Err(Refusal::Message("Axis must be x or z.".to_string()))
    }
}

/// The message about a clipboard that was mirrored.
pub fn tell_flipped(axis: &str) -> (r: Notice)
    ensures
        r@ == (Level::Success, "Flipped along "@ + axis@ + " axis."@),
{
    Notice { level: Level::Success, text: between("Flipped along ", axis, " axis.") }
}

/// What a command fails with where the registry does not know a block.
pub open spec fn unknown_text(name: Seq<char>) -> Seq<char> {
    "Unknown block: "@ + name
}

/// A block type without properties.
pub open spec fn bare(name: Seq<char>) -> PaletteView {
    PaletteView { name, properties: Seq::empty() }
}

/// Whether these are the bounds of a selection that may be used, or the text of why there is
/// none.
pub open spec fn bounded(
    selections: Option<Seq<(Seq<char>, Selection)>>,
    player: Seq<char>,
    max_volume: int,
    r: Result<SelectionBounds, Seq<char>>,
) -> bool {
    match (r, bounds_of(selections, player, max_volume)) {
        (Ok(b), Ok(s)) => {
            &&& s.area().wf()
            &&& b.min == s.area().min
            &&& b.max == s.area().max
            &&& b.size.0 == s.area().size_x()
            &&& b.size.1 == s.area().size_y()
            &&& b.size.2 == s.area().size_z()
            &&& b.volume == s.area().volume()
        },
        (Err(e), Err(m)) => e == m,
        _ => false,
    }
}

/// Whether a fill may start like this, given what the registry answered for the block.
pub open spec fn fill_outcome(
    block: Seq<char>,
    answer: Option<u16>,
    selections: Option<Seq<(Seq<char>, Selection)>>,
    player: Seq<char>,
    max_volume: int,
    r: Result<(u16, SelectionBounds), String>,
) -> bool {
    match answer {
        None => r matches Err(e) && e@ == unknown_text(block),
        Some(id) => match r {
            Ok((state_id, b)) => state_id == id && bounded(
                selections,
                player,
                max_volume,
                Ok::<SelectionBounds, Seq<char>>(b),
            ),
            Err(e) => bounded(
                selections,
                player,
                max_volume,
                Err::<SelectionBounds, Seq<char>>(e@),
            ),
        },
    }
}

/// The state and the bounds of a fill, given what the registry answered for the block.
pub fn settle_fill(
    block: &str,
    answer: Option<u16>,
    selections: Option<&NameMap<Selection>>,
    player_name: &str,
    max_volume: u64,
) -> (r: Result<(u16, SelectionBounds), String>)
    requires
        map_view(selections) matches Some(m) ==> (lookup(m, player_name@) matches Some(s)
            ==> s.countable()),
    ensures
        fill_outcome(
            block@,
            answer,
            map_view(selections),
            player_name@,
            max_volume as int,
            r,
        ),
{
    match answer {
        None => Err(joined_text("Unknown block: ", block)),
        Some(id) => match selection_bounds(selections, player_name, max_volume) {
            Ok(b) => Ok((id, b)),
            Err(e) => Err(e),
        },
    }
}

/// Starts a fill of a player's selection: the block must be known and the selection usable.
pub fn start_fill(
    block: &str,
    selections: Option<&NameMap<Selection>>,
    player_name: &str,
    max_volume: u64,
) -> (r: Result<(u16, SelectionBounds), String>)
    requires
        map_view(selections) matches Some(m) ==> (lookup(m, player_name@) matches Some(s)
            ==> s.countable()),
    ensures
        exists|answer: Option<u16>| #[trigger]
            resolves(bare(block@), answer) && fill_outcome(
                block@,
                answer,
                map_view(selections),
                player_name@,
                max_volume as int,
                r,
            ),
{
    let answer: Option<u16> = resolve_name(block);
    assert(resolves(bare(block@), answer));
    settle_fill(block, answer, selections, player_name, max_volume)
}

/// Starts a replacement in a player's selection: the block to be replaced must be known, then the
/// block that replaces it, and then the selection must be usable.
pub fn start_replace(
    from: &str,
    to: &str,
    selections: Option<&NameMap<Selection>>,
    player_name: &str,
    max_volume: u64,
) -> (r: Result<(u16, u16, SelectionBounds), String>)
    requires
        map_view(selections) matches Some(m) ==> (lookup(m, player_name@) matches Some(s)
            ==> s.countable()),
    ensures
        exists|answer: Option<u16>| #[trigger]
            resolves(bare(from@), answer) && match answer {
                None => r matches Err(e) && e@ == unknown_text(from@),
                Some(id) => exists|other: Option<u16>| #[trigger]
                    resolves(bare(to@), other) && fill_outcome(
                        to@,
                        other,
                        map_view(selections),
                        player_name@,
                        max_volume as int,
                        match r {
                            Ok((_, state_id, b)) => Ok((state_id, b)),
                            Err(e) => Err(e),
                        },
                    ) && (r matches Ok((from_id, _, _)) ==> from_id == id),
            },
{
    let answer: Option<u16> = resolve_name(from);
    assert(resolves(bare(from@), answer));
    let from_id: u16 = match answer {
        Some(id) => id,
        None => return Err(joined_text("Unknown block: ", from)),
    };
    match start_fill(to, selections, player_name, max_volume) {
        Ok((to_id, b)) => Ok((from_id, to_id, b)),
        Err(e) => Err(e),
    }
}

/// How a change of a selection is described and announced.
#[derive(Debug)]
pub struct EditText {
    pub description: String,
    pub notice: Notice,
}

/// The texts of a fill.
pub fn tell_fill(block: &str, count: usize) -> (r: EditText)
    ensures
        r.description@ == "Set "@ + block@,
        r.notice@ == (
            Level::Info,
            "Setting "@ + decimal(count as int) + " blocks to "@ + block@ + "..."@,
        ),
{
    let mut text = "Setting ".to_string();
    push_decimal(&mut text, count as u64);
    text.append(" blocks to ");
    text.append(block);
    text.append("...");
    EditText {
        description: joined_text("Set ", block),
        notice: Notice { level: Level::Info, text },
    }
}

/// The texts of a replacement, or of why there is none: no block is to be replaced.
pub fn tell_replace(from: &str, to: &str, count: usize) -> (r: Result<EditText, Notice>)
    ensures
        match r {
            Ok(t) => {
                &&& count > 0
                &&& t.description@ == "Replace "@ + from@ + " -> "@ + to@
                &&& t.notice@ == (
                    Level::Info,
                    "Replacing "@ + decimal(count as int) + " blocks: "@ + from@ + " -> "@ + to@
                        + "..."@,
                )
            },
            Err(n) => count == 0 && n@ == (Level::Warn, "No matching blocks found."@),
        },
{
    if count == 0 {
        return Err(
            Notice { level: Level::Warn, text: "No matching blocks found.".to_string() },
        );
    }
    let mut text = "Replacing ".to_string();
    push_decimal(&mut text, count as u64);
    text.append(" blocks: ");
    text.append(from);
    text.append(" -> ");
    text.append(to);
    text.append("...");
    let mut description = between("Replace ", from, " -> ");
    description.append(to);
    Ok(EditText { description, notice: Notice { level: Level::Info, text } })
}

/// The message about an operation that is done.
pub fn tell_completed(description: &str) -> (r: Notice)
    ensures
        r@ == (Level::Success, "Completed: "@ + description@),
{
    Notice { level: Level::Success, text: joined_text("Completed: ", description) }
}

/// A safe name stays in its directory: it is a single part of a path, and not that of the parent.
pub proof fn law_safe_name_has_no_parent(name: Seq<char>)
    requires
        safe_name(name),
    ensures
        name != ".."@,
        !name.contains('/'),
        !name.contains('\\'),
{
    reveal_strlit("..");
    if name == ".."@ {
        let i = 0int;
        assert(name[i] == '.' && name[i + 1] == '.');
    }
}

/// A saved file is loaded as a `.schem` file again, and its name is as safe as the one that was
/// asked for.
pub proof fn law_saved_name_is_schem(name: Seq<char>)
    requires
        safe_name(name),
    ensures
        ends_with(save_filename(name), ".schem"@),
        ends_with(name, ".schem"@) || name.last() != '.' ==> safe_name(save_filename(name)),
{
    reveal_strlit(".schem");
    let f = save_filename(name);
    let tail = ".schem"@;
    if !ends_with(name, tail) {
        assert(f.skip(f.len() - tail.len()) =~= tail);
        if name.last() != '.' {
            assert forall|c: char| !name.contains(c) && !tail.contains(c) implies !f.contains(c) by {
                if f.contains(c) {
                    let i = f.index_of(c);
                    if i < name.len() {
                        assert(name[i] == c);
                    } else {
                        assert(tail[i - name.len()] == c);
                    }
                }
            }
            assert(!tail.contains('/') && !tail.contains('\\') && !tail.contains('\0'));
            assert forall|i: int| 0 <= i < f.len() - 1 implies !(#[trigger] f[i] == '.' && f[i + 1]
                == '.') by {
                if i + 1 < name.len() {
                    assert(!(name[i] == '.' && name[i + 1] == '.'));
                }
            }
        }
    }
}

} // verus!
