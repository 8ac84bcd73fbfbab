//! What players and other plugins get for what they ask: selections, steps of the history, files and
//! replies.
use vstd::prelude::*;
use vstd::string::*;

use crate::block_state::FlipAxis;
use crate::clipboard::ClipboardView;
use crate::commands::{
    axis_in, fill_outcome, paste_description, paste_text, safe_name, save_filename,
    saved_notices, unknown_text,
};
use crate::grid::BlockPos;
use crate::history::{
    carries_out, nothing_text, pushed, stack_for, stepped, BlockSnapshot, HistoryStep, HistoryView,
    UndoEntry,
};
use crate::ipc::{
    display_of, external_of, ipc_description, kinds, op_of, reply_fields, source_of, JsonView, Op, MAX_MESSAGE_LEN,
};
use crate::listing::{
    last_place, list_notices, names_schematic, ordered, schematics_among, sorted,
};
use crate::messages::{
    command_help, info_notices, load_notices, reload_text, size_text, status_notice, Level,
};
use crate::names::lookup;
use crate::paste::{found_snapshots, new_snapshots, tick_of, PasteState};
use crate::placement::{filled, BlockPlacement};
use crate::selection::{
    bounds_of, clicked_corner, corner_text, holds_wand, plain_item, pos_text, with_corner, Click, Selection, SelectionBounds,
};
use crate::text::{decimal, starts_with};
use crate::text_laws::law_ends_are_told;

verus! {

/// A selection holds exactly the positions between its corners, in every direction.
pub proof fn law_selection_lies_between_its_corners(s: Selection, p: BlockPos)
    ensures
        s.area().holds(p) <==> ((s.pos1.x <= p.x <= s.pos2.x || s.pos2.x <= p.x <= s.pos1.x) && (
        s.pos1.y <= p.y <= s.pos2.y || s.pos2.y <= p.y <= s.pos1.y) && (s.pos1.z <= p.z
            <= s.pos2.z || s.pos2.z <= p.z <= s.pos1.z)),
{
}

/// A coordinate's distance from another.
pub open spec fn between(a: int, b: int) -> int {
    if a <= b {
        b - a
    } else {
        a - b
    }
}

/// The extents of a selection are one more than the distances of its corners, and its volume is
/// their product.
pub proof fn law_selection_is_measured_by_its_corners(s: Selection)
    ensures
        s.area().size_x() == between(s.pos1.x as int, s.pos2.x as int) + 1,
        s.area().size_y() == between(s.pos1.y as int, s.pos2.y as int) + 1,
        s.area().size_z() == between(s.pos1.z as int, s.pos2.z as int) + 1,
        s.area().volume() == s.area().size_x() * s.area().size_y() * s.area().size_z(),
        s.area().min.x <= s.pos1.x && s.area().min.x <= s.pos2.x,
        s.area().min.y <= s.pos1.y && s.area().min.y <= s.pos2.y,
        s.area().min.z <= s.pos1.z && s.area().min.z <= s.pos2.z,
        s.area().min.x == s.pos1.x || s.area().min.x == s.pos2.x,
        s.area().min.y == s.pos1.y || s.area().min.y == s.pos2.y,
        s.area().min.z == s.pos1.z || s.area().min.z == s.pos2.z,
        s.area().max.x - s.area().min.x == between(s.pos1.x as int, s.pos2.x as int),
        s.area().max.y - s.area().min.y == between(s.pos1.y as int, s.pos2.y as int),
        s.area().max.z - s.area().min.z == between(s.pos1.z as int, s.pos2.z as int),
{
}

/// A command works on the player's own selection, if that has no more blocks than allowed.
pub proof fn law_command_needs_a_selection(
    m: Seq<(Seq<char>, Selection)>,
    player: Seq<char>,
    max_volume: int,
)
    ensures
        bounds_of(None, player, max_volume) == Err::<Selection, Seq<char>>("No selection set."@),
        lookup(m, player) is None ==> bounds_of(Some(m), player, max_volume) == Err::<
            Selection,
            Seq<char>,
        >("No selection set. Use wand or /schematic pos1/pos2."@),
        lookup(m, player) matches Some(s) ==> {
            &&& s.area().volume() <= max_volume ==> bounds_of(Some(m), player, max_volume) == Ok::<
                Selection,
                Seq<char>,
            >(s)
            &&& s.area().volume() > max_volume ==> bounds_of(Some(m), player, max_volume) == Err::<
                Selection,
                Seq<char>,
            >(
                "Selection too large ("@ + decimal(s.area().volume()) + " blocks, max "@ + decimal(
                    max_volume,
                ) + ")."@,
            )
        },
{
}

/// A fill places the state that the registry has for its block, in the player's selection. An
/// unknown block is told first.
pub proof fn law_fill_works_on_the_selection(
    block: Seq<char>,
    answer: Option<u16>,
    m: Seq<(Seq<char>, Selection)>,
    player: Seq<char>,
    max_volume: int,
    r: Result<(u16, SelectionBounds), String>,
)
    requires
        fill_outcome(block, answer, Some(m), player, max_volume, r),
    ensures
        answer is None ==> (r matches Err(e) && e@ == "Unknown block: "@ + block),
        answer is Some ==> (r is Ok <==> (lookup(m, player) matches Some(s) && s.area().volume()
            <= max_volume)),
        r matches Ok((id, b)) ==> lookup(m, player) matches Some(s) && {
            &&& answer == Some(id)
            &&& forall|p: BlockPos|
                #![trigger s.area().holds(p)]
                (b.min.x <= p.x <= b.max.x && b.min.y <= p.y <= b.max.y && b.min.z <= p.z
                    <= b.max.z) <==> s.area().holds(p)
            &&& b.size.0 == between(s.pos1.x as int, s.pos2.x as int) + 1
            &&& b.size.1 == between(s.pos1.y as int, s.pos2.y as int) + 1
            &&& b.size.2 == between(s.pos1.z as int, s.pos2.z as int) + 1
            &&& b.volume == b.size.0 * b.size.1 * b.size.2
        },
{
}

/// A fill of a known block that does not start says what is wrong with the selection.
pub proof fn law_fill_tells_of_the_selection(
    block: Seq<char>,
    id: u16,
    selections: Option<Seq<(Seq<char>, Selection)>>,
    player: Seq<char>,
    max_volume: int,
    r: Result<(u16, SelectionBounds), String>,
)
    requires
        fill_outcome(block, Some(id), selections, player, max_volume, r),
    ensures
        bounds_of(selections, player, max_volume) is Ok <==> r is Ok,
        r matches Err(e) ==> bounds_of(selections, player, max_volume) == Err::<
            Selection,
            Seq<char>,
        >(e@),
{
}

/// A corner that is set is the player's new first or second corner; the other one stays.
pub proof fn law_corner_is_set(s: Selection, pos: BlockPos)
    ensures
        with_corner(Some(s), true, pos).pos1 == pos && with_corner(Some(s), true, pos).pos2
            == s.pos2,
        with_corner(Some(s), false, pos).pos2 == pos && with_corner(Some(s), false, pos).pos1
            == s.pos1,
        with_corner(None, true, pos) == (Selection { pos1: pos, pos2: pos }),
        with_corner(None, false, pos) == (Selection { pos1: pos, pos2: pos }),
{
}

/// The wand is told by its name, with or without the default namespace on either side.
pub proof fn law_wand_is_told_by_its_name(a: Seq<char>, b: Seq<char>)
    requires
        !starts_with(a, "minecraft:"@),
        !starts_with(b, "minecraft:"@),
    ensures
        holds_wand(Some(a), b) <==> a == b,
        holds_wand(Some("minecraft:"@ + a), b) <==> a == b,
        holds_wand(Some(a), "minecraft:"@ + b) <==> a == b,
        holds_wand(Some("minecraft:"@ + a), "minecraft:"@ + b) <==> a == b,
        !holds_wand(None, b),
{
    let n = "minecraft:"@;
    law_ends_are_told(n, a, a);
    law_ends_are_told(n, b, b);
    assert((n + a).skip(n.len() as int) =~= a);
    assert((n + b).skip(n.len() as int) =~= b);
}

/// With the wand in hand a left click on a block sets the first corner there and a right click the
/// second; anything else sets none.
pub proof fn law_clicks_set_corners(
    item: Option<Seq<char>>,
    wand: Seq<char>,
    clicked: Option<BlockPos>,
    click: Click,
    pos: BlockPos,
)
    ensures
        holds_wand(item, wand) ==> clicked_corner(item, wand, Some(pos), Click::Left) == Some(
            (true, pos),
        ) && clicked_corner(item, wand, Some(pos), Click::Right) == Some((false, pos)),
        !holds_wand(item, wand) || clicked is None || click is Other ==> clicked_corner(
            item,
            wand,
            clicked,
            click,
        ) is None,
{
}

/// An undo places the old states of an operation where they were, in their order, and a redo the new
/// ones.
pub proof fn law_step_places_the_states(step: HistoryStep, e: UndoEntry, is_undo: bool)
    requires
        carries_out(step, e, is_undo),
    ensures
        is_undo ==> step.queue@.len() == e.old_states@.len() && forall|i: int|
            0 <= i < step.queue@.len() ==> (#[trigger] step.queue@[i]).pos == e.old_states@[i].pos
                && step.queue@[i].state_id == e.old_states@[i].state_id,
        !is_undo ==> step.queue@.len() == e.new_states@.len() && forall|i: int|
            0 <= i < step.queue@.len() ==> (#[trigger] step.queue@[i]).pos == e.new_states@[i].pos
                && step.queue@[i].state_id == e.new_states@[i].state_id,
        step.dimension@ == e.dimension@,
        step.description@ == (if is_undo {
            "Undo: "@
        } else {
            "Redo: "@
        }) + e.description@,
        step.message@ == (if is_undo {
            "Undoing: "@
        } else {
            "Redoing: "@
        }) + e.description@ + " ("@ + decimal(step.queue@.len() as int) + " blocks)..."@,
        nothing_text(true) == "Nothing to undo."@,
        nothing_text(false) == "Nothing to redo."@,
{
}

/// What is noted of a placing is its position with the state that it puts, and with the state that
/// was found there.
pub proof fn law_snapshots_note_placings(q: Seq<BlockPlacement>, found: Seq<u16>, i: int)
    requires
        0 <= i < q.len(),
    ensures
        new_snapshots(q).len() == q.len(),
        found_snapshots(q, found).len() == q.len(),
        new_snapshots(q)[i] == (BlockSnapshot { pos: q[i].pos, state_id: q[i].state_id }),
        found_snapshots(q, found)[i] == (BlockSnapshot { pos: q[i].pos, state_id: found[i] }),
{
}

/// An operation that is to be undone has noted, of every block that it placed so far and in their
/// order, its position and the state that was put, and the position of what was found.
pub proof fn law_placed_blocks_are_noted(s: PasteState, i: int)
    requires
        s.wf(),
    ensures
        s.block_idx <= s.blocks@.len(),
        s.te_idx <= s.tile_entities@.len(),
        s.record_undo ==> s.new_snapshots@.len() == s.block_idx && s.old_snapshots@.len()
            == s.block_idx,
        s.record_undo && 0 <= i < s.block_idx ==> s.new_snapshots@[i].pos == s.blocks@[i].pos
            && s.new_snapshots@[i].state_id == s.blocks@[i].state_id && s.old_snapshots@[i].pos
            == s.blocks@[i].pos,
        !s.record_undo ==> s.new_snapshots@.len() == 0 && s.old_snapshots@.len() == 0,
{
}

/// A tick goes on where the last one stopped and handles as many blocks as it may, or all that are
/// left. Block entities are stored once no block is left, and an operation is finished once neither
/// is left to be handled in the tick.
pub proof fn law_tick_handles_what_it_may(s: PasteState, n: int)
    requires
        s.wf(),
        0 <= n,
    ensures
        ({
            let t = tick_of(s, n);
            let blocks = s.blocks@.len() - s.block_idx;
            let tiles = s.tile_entities@.len() - s.te_idx;
            &&& t.from == s.block_idx
            &&& t.tile_from == s.te_idx
            &&& n <= blocks ==> t.to == s.block_idx + n
            &&& n >= blocks ==> t.to == s.blocks@.len()
            &&& n < blocks ==> t.tile_to == s.te_idx && !t.finished
            &&& n >= blocks && n <= tiles ==> t.tile_to == s.te_idx + n
            &&& n >= blocks && n >= tiles ==> t.tile_to == s.tile_entities@.len()
            &&& n >= blocks ==> (t.finished <==> tiles == 0)
        }),
{
}

/// A saved file has the name that was asked for, with `.schem` behind it unless it is there.
pub proof fn law_saved_file_is_named(name: Seq<char>)
    ensures
        save_filename(name + ".schem"@) == name + ".schem"@,
        !(exists|stem: Seq<char>| name == #[trigger] (stem + ".schem"@)) ==> save_filename(name)
            == name + ".schem"@,
{
    law_ends_are_told(name, ".schem"@, name);
}

/// A name is safe exactly if it is not empty and leads nowhere: no separators, no two dots behind
/// each other, no zero character.
pub proof fn law_safe_names_lead_nowhere(a: Seq<char>, c: char, b: Seq<char>)
    requires
        c == '/' || c == '\\' || c == '\0',
    ensures
        !safe_name(Seq::empty()),
        !safe_name(a + seq![c] + b),
        !safe_name(a + seq!['.', '.'] + b),
        a.len() > 0 && (forall|i: int|
            0 <= i < a.len() ==> #[trigger] a[i] != '.' && a[i] != '/' && a[i] != '\\' && a[i]
                != '\0') ==> safe_name(a) && safe_name(a + seq!['.'] + a),
{
    let s = a + seq![c] + b;
    assert(s[a.len() as int] == c);
    let t = a + seq!['.', '.'] + b;
    let k = a.len() as int;
    assert(t[k] == '.' && t[k + 1] == '.');
    if forall|i: int|
        0 <= i < a.len() ==> #[trigger] a[i] != '.' && a[i] != '/' && a[i] != '\\' && a[i] != '\0' {
        let d = a + seq!['.'] + a;
        assert forall|i: int| 0 <= i < d.len() implies #[trigger] d[i] != '/' && d[i] != '\\'
            && d[i] != '\0' && (i != k ==> d[i] != '.') by {
            if i < k {
                assert(d[i] == a[i]);
            } else if i > k {
                assert(d[i] == a[i - k - 1]);
            }
        }
    }
}

/// An axis is named by its letter, in either case.
pub proof fn law_axis_is_named_by_its_letter(text: Seq<char>)
    ensures
        axis_in("x"@) == Some(FlipAxis::X) && axis_in("X"@) == Some(FlipAxis::X),
        axis_in("z"@) == Some(FlipAxis::Z) && axis_in("Z"@) == Some(FlipAxis::Z),
        text != "x"@ && text != "X"@ && text != "z"@ && text != "Z"@ ==> axis_in(text) is None,
{
    reveal_strlit("x");
    reveal_strlit("X");
    reveal_strlit("z");
    reveal_strlit("Z");
    assert("x"@[0] == 'x' && "X"@[0] == 'X' && "z"@[0] == 'z' && "Z"@[0] == 'Z');
}

/// The schematics among some files are listed in order, one for each name that is a schematic's.
pub proof fn law_schematics_are_picked_by_name(
    a: Seq<Seq<char>>,
    b: Seq<Seq<char>>,
    name: Seq<char>,
)
    ensures
        schematics_among(Seq::empty()) == Seq::<Seq<char>>::empty(),
        schematics_among(seq![name]) == (if names_schematic(name) {
            seq![name]
        } else {
            Seq::empty()
        }),
        schematics_among(a + b) == schematics_among(a) + schematics_among(b),
    decreases b.len(),
{
    assert(seq![name].drop_last() =~= Seq::empty());
    assert(schematics_among(Seq::empty()) =~= Seq::<Seq<char>>::empty());
    assert(Seq::<Seq<char>>::empty().push(name) =~= seq![name]);
    if b.len() > 0 {
        law_schematics_are_picked_by_name(a, b.drop_last(), name);
        assert((a + b).drop_last() =~= a + b.drop_last());
        assert((a + b).last() == b.last());
        assert(schematics_among(a + b) =~= schematics_among(a) + schematics_among(b));
    } else {
        assert(a + b =~= a);
        assert(schematics_among(b) =~= Seq::<Seq<char>>::empty());
        assert(schematics_among(a + b) =~= schematics_among(a) + schematics_among(b));
    }
}

/// Files are announced by their number and then one by one, each on a line of its own.
pub proof fn law_files_are_announced(files: Seq<Seq<char>>, i: int)
    ensures
        files.len() == 0 ==> list_notices(files) == seq![(Level::Warn, "No schematics found."@)],
        files.len() > 0 ==> list_notices(files).len() == files.len() + 1 && list_notices(files)[0]
            == (Level::Info, "Available schematics ("@ + decimal(files.len() as int) + "):"@),
        0 <= i < files.len() ==> list_notices(files)[i + 1] == (Level::Detail, "  - "@ + files[i]),
{
}

/// A schematic that was loaded is announced by name, regions and blocks. A warning tells of unknown
/// block types if there are any: that they are left out, or what stands in for them.
pub proof fn law_loading_is_announced(
    name: Seq<char>,
    regions: int,
    blocks: int,
    unresolved: int,
    skipped: bool,
    fallback: Seq<char>,
)
    ensures
        ({
            let n = load_notices(name, regions, blocks, unresolved, skipped, fallback);
            &&& n.len() == (if unresolved == 0 {
                1int
            } else {
                2
            })
            &&& n[0] == (
                Level::Success,
                "Loaded '"@ + name + "' - "@ + decimal(regions) + " region(s), "@ + decimal(blocks)
                    + " blocks"@,
            )
            &&& unresolved != 0 && skipped ==> n[1] == (
                Level::Warn,
                decimal(unresolved)
                    + " block type(s) skipped (unsupported). Use /schematic info for details."@,
            )
            &&& unresolved != 0 && !skipped ==> n[1] == (
                Level::Warn,
                decimal(unresolved) + " block type(s) replaced with "@ + fallback
                    + ". Use /schematic info for details."@,
            )
        }),
{
}

/// A file that was saved is announced by name and size. A warning tells of unknown block states if
/// there are any.
pub proof fn law_saving_is_announced(filename: Seq<char>, len: int, unresolved: int)
    ensures
        ({
            let n = saved_notices(filename, len, unresolved);
            &&& n.len() == (if unresolved == 0 {
                1int
            } else {
                2
            })
            &&& n[0] == (Level::Success, "Saved '"@ + filename + "' ("@ + decimal(len) + " bytes)"@)
            &&& unresolved != 0 ==> n[1] == (
                Level::Warn,
                decimal(unresolved)
                    + " block type(s) could not be identified and were saved as stone."@,
            )
        }),
{
}

/// The texts that speak of sizes, positions and numbers name them in the order x, y, z.
pub proof fn law_texts_name_x_y_z(
    p: BlockPos,
    x: int,
    y: int,
    z: int,
    name: Seq<char>,
    n: int,
)
    ensures
        size_text(x, y, z) == decimal(x) + "x"@ + decimal(y) + "x"@ + decimal(z),
        pos_text(p) == "("@ + decimal(p.x as int) + ", "@ + decimal(p.y as int) + ", "@ + decimal(
            p.z as int,
        ) + ")"@,
        corner_text(true, p) == "Pos1"@ + " set to "@ + pos_text(p),
        corner_text(false, p) == "Pos2"@ + " set to "@ + pos_text(p),
        paste_description(name, p) == "Paste '"@ + name + "' at "@ + pos_text(p),
        ipc_description(name, p) == "IPC paste '"@ + name + "' at "@ + pos_text(p),
        paste_text(name, n) == "Pasting '"@ + name + "' ("@ + decimal(n) + " blocks)..."@,
        unknown_text(name) == "Unknown block: "@ + name,
        reload_text(name, x, y) == "Config reloaded. Wand: "@ + name + ", blocks/tick: "@ + decimal(
            x,
        ) + ", max pastes: "@ + decimal(y),
        status_notice(0) == (Level::Info, "No active paste operations."@),
        n != 0 ==> status_notice(n) == (
            Level::Warn,
            decimal(n) + " paste operation(s) in progress."@,
        ),
{
}

/// Each kind of request asks for its own operation, all five are announced, and no other is known.
pub proof fn law_each_kind_has_its_operation(kind: Seq<char>)
    ensures
        op_of("pumpkinetica:capabilities/v1"@) == Some(Op::Capabilities),
        op_of("pumpkinetica:list/v1"@) == Some(Op::List),
        op_of("pumpkinetica:info/v1"@) == Some(Op::Info),
        op_of("pumpkinetica:paste/v1"@) == Some(Op::Paste),
        op_of("pumpkinetica:status/v1"@) == Some(Op::Status),
        op_of(kind) is Some <==> kinds().contains(kind),
        kinds().len() == 5,
{
    reveal_strlit("pumpkinetica:capabilities/v1");
    reveal_strlit("pumpkinetica:list/v1");
    reveal_strlit("pumpkinetica:info/v1");
    reveal_strlit("pumpkinetica:paste/v1");
    reveal_strlit("pumpkinetica:status/v1");
    assert("pumpkinetica:list/v1"@[13] != "pumpkinetica:info/v1"@[13]);
    assert("pumpkinetica:paste/v1"@.len() == 21 && "pumpkinetica:status/v1"@.len() == 22);
    assert("pumpkinetica:capabilities/v1"@.len() == 28);
    assert("pumpkinetica:list/v1"@.len() == 20 && "pumpkinetica:info/v1"@.len() == 20);
    let k = kinds();
    if op_of(kind) is Some {
        assert(k[0] == "pumpkinetica:capabilities/v1"@);
        assert(k[1] == "pumpkinetica:list/v1"@);
        assert(k[2] == "pumpkinetica:info/v1"@);
        assert(k[3] == "pumpkinetica:paste/v1"@);
        assert(k[4] == "pumpkinetica:status/v1"@);
    }
}

/// A reply has the fields of the outcome and that it is well, or three fields that say why not.
pub proof fn law_reply_has_the_outcome(
    fields: Seq<(Seq<char>, JsonView)>,
    code: Seq<char>,
    message: Seq<char>,
)
    ensures
        reply_fields(Ok(fields)) == fields.push(("ok"@, JsonView::Bool(true))),
        reply_fields(Err((code, message))) == seq![
            ("ok"@, JsonView::Bool(false)),
            ("code"@, JsonView::Text(code)),
            ("message"@, JsonView::Text(message)),
        ],
{
}

/// A request names a schematic by a file of the directory or by a path, and not by both. A file is
/// read in the directory under its own name, if that is safe. A path is looked up as it is, where
/// paths are allowed.
pub proof fn law_request_names_one_schematic(
    name: Seq<char>,
    raw: Seq<char>,
    dir: Option<Seq<char>>,
    d: Seq<char>,
    leave: bool,
    dirs: int,
)
    ensures
        source_of(Some(name), Some(raw), dir, leave, dirs) == Err::<
            Result<(Seq<char>, Seq<char>), Seq<char>>,
            (Seq<char>, Seq<char>),
        >(("BAD_REQUEST"@, "specify either 'schematic' or 'path', not both"@)),
        source_of(None, None, dir, leave, dirs) == Err::<
            Result<(Seq<char>, Seq<char>), Seq<char>>,
            (Seq<char>, Seq<char>),
        >(("BAD_REQUEST"@, "missing 'schematic' or 'path'"@)),
        !safe_name(name) ==> source_of(Some(name), None, dir, leave, dirs) == Err::<
            Result<(Seq<char>, Seq<char>), Seq<char>>,
            (Seq<char>, Seq<char>),
        >(("BAD_REQUEST"@, "invalid file name"@)),
        safe_name(name) ==> source_of(Some(name), None, None, leave, dirs) == Err::<
            Result<(Seq<char>, Seq<char>), Seq<char>>,
            (Seq<char>, Seq<char>),
        >(("NOT_INITIALIZED"@, "plugin not initialized"@)),
        safe_name(name) ==> source_of(Some(name), None, Some(d), leave, dirs) == Ok::<
            Result<(Seq<char>, Seq<char>), Seq<char>>,
            (Seq<char>, Seq<char>),
        >(Ok((d + "/"@ + name, name))),
        !leave ==> source_of(None, Some(raw), dir, leave, dirs) == Err::<
            Result<(Seq<char>, Seq<char>), Seq<char>>,
            (Seq<char>, Seq<char>),
        >(("PATH_DISABLED"@, "external paths are disabled on this server"@)),
        leave && (raw.len() == 0 || raw.contains('\0')) ==> source_of(
            None,
            Some(raw),
            dir,
            leave,
            dirs,
        ) == Err::<Result<(Seq<char>, Seq<char>), Seq<char>>, (Seq<char>, Seq<char>)>(
            ("BAD_REQUEST"@, "invalid path"@),
        ),
        leave && raw.len() > 0 && !raw.contains('\0') && dirs == 0 ==> source_of(
            None,
            Some(raw),
            dir,
            leave,
            dirs,
        ) == Err::<Result<(Seq<char>, Seq<char>), Seq<char>>, (Seq<char>, Seq<char>)>(
            ("PATH_DENIED"@, "no allowed paste directories are configured"@),
        ),
        leave && raw.len() > 0 && !raw.contains('\0') && dirs != 0 ==> source_of(
            None,
            Some(raw),
            dir,
            leave,
            dirs,
        ) == Ok::<Result<(Seq<char>, Seq<char>), Seq<char>>, (Seq<char>, Seq<char>)>(Err(raw)),
{
}

/// A path is read as it is if it leads to a file inside an allowed directory, and is known by its last
/// part.
pub proof fn law_path_is_read_inside_allowed_directories(
    inside: Seq<bool>,
    text: Option<Seq<char>>,
    reason: Seq<char>,
)
    ensures
        external_of(Err(reason)) == Err::<(Seq<char>, Seq<char>), (Seq<char>, Seq<char>)>(
            ("NOT_FOUND"@, "resolve path: "@ + reason),
        ),
        external_of(Ok((false, inside, text))) == Err::<
            (Seq<char>, Seq<char>),
            (Seq<char>, Seq<char>),
        >(("BAD_REQUEST"@, "path is not a file"@)),
        !inside.contains(true) ==> external_of(Ok((true, inside, text))) == Err::<
            (Seq<char>, Seq<char>),
            (Seq<char>, Seq<char>),
        >(("PATH_DENIED"@, "path is outside all allowed directories"@)),
        inside.contains(true) && text is None ==> external_of(Ok((true, inside, text))) == Err::<
            (Seq<char>, Seq<char>),
            (Seq<char>, Seq<char>),
        >(("BAD_REQUEST"@, "path is not valid UTF-8"@)),
        inside.contains(true) && text is Some ==> external_of(Ok((true, inside, text))) == Ok::<
            (Seq<char>, Seq<char>),
            (Seq<char>, Seq<char>),
        >((text->0, display_of(text->0))),
{
}

proof fn lemma_last_place_in(s: Seq<char>, t: Seq<char>, c: char)
    requires
        !t.contains(c),
    ensures
        last_place(s + t, c) == last_place(s, c),
    decreases t.len(),
{
    if t.len() > 0 {
        let r = t.drop_last();
        assert(!r.contains(c)) by {
            if r.contains(c) {
                let i = choose|i: int| 0 <= i < r.len() && r[i] == c;
                assert(t[i] == c);
            }
        }
        lemma_last_place_in(s, r, c);
        assert(t.contains(t[t.len() - 1]));
        assert((s + t).last() == t[t.len() - 1]);
        assert((s + t).drop_last() =~= s + r);
    } else {
        assert(s + t =~= s);
    }
}

proof fn lemma_last_place_below(s: Seq<char>, c: char)
    ensures
        last_place(s, c) < s.len(),
        last_place(s, c) >= -1,
    decreases s.len(),
{
    if s.len() > 0 {
        lemma_last_place_below(s.drop_last(), c);
    }
}

/// The last part of a path is what stands behind its last separator, of either kind. A path without
/// one, or with nothing behind it, is taken as a whole.
pub proof fn law_last_part_of_a_path(dir: Seq<char>, separator: char, part: Seq<char>)
    requires
        separator == '/' || separator == '\\',
        !part.contains('/'),
        !part.contains('\\'),
    ensures
        part.len() > 0 ==> display_of(dir.push(separator) + part) == part,
        part.len() == 0 ==> display_of(dir.push(separator) + part) == dir.push(separator) + part,
        display_of(part) == part,
{
    let d = dir.push(separator);
    lemma_last_place_in(d, part, '/');
    lemma_last_place_in(d, part, '\\');
    assert(d.drop_last() =~= dir);
    lemma_last_place_below(dir, '/');
    lemma_last_place_below(dir, '\\');
    assert((d + part).skip(d.len() as int) =~= part);
    lemma_last_place_in(Seq::empty(), part, '/');
    lemma_last_place_in(Seq::empty(), part, '\\');
    assert(Seq::<char>::empty() + part =~= part);
    assert(part.skip(0) =~= part);
}

/// A clipboard is told by its name, its size, and the numbers of its blocks and block entities.
pub proof fn law_clipboard_is_told(c: ClipboardView)
    ensures
        info_notices(c).len() == 2,
        info_notices(c)[0] == (Level::Info, "Schematic: "@ + c.name),
        info_notices(c)[1] == (
            Level::Detail,
            "  "@ + size_text(c.size_x as int, c.size_y as int, c.size_z as int) + ", "@ + decimal(
                filled(c.blocks).len() as int,
            ) + " blocks, "@ + decimal(c.tile_entities.len() as int) + " tile entities"@,
        ),
{
}

/// A request of up to 65536 bytes is taken.
pub proof fn law_requests_are_bounded(len: usize)
    ensures
        len <= MAX_MESSAGE_LEN <==> len <= 65536,
{
}

/// A selection can be counted exactly if its extents fit thirty-two bits and its volume sixty-four.
pub proof fn law_countable_selections_fit_machine_integers(s: Selection)
    ensures
        ({
            let x = between(s.pos1.x as int, s.pos2.x as int) + 1;
            let y = between(s.pos1.y as int, s.pos2.y as int) + 1;
            let z = between(s.pos1.z as int, s.pos2.z as int) + 1;
            s.countable() <==> x <= i32::MAX && y <= i32::MAX && z <= i32::MAX && x * y * z
                <= u64::MAX
        }),
{
}

/// The commands are told in sixteen lines, each with a text of its own.
pub proof fn law_every_command_is_told()
    ensures
        command_help().len() == 16,
        command_help()[0] == ("/schem load <file>"@, "Load a schematic file"@),
        command_help()[1] == ("/schem paste"@, "Paste clipboard or loaded schematic"@),
        command_help()[2] == ("/schem list"@, "List available schematic files"@),
        command_help()[3] == ("/schem info"@, "Show details of loaded schematic"@),
        command_help()[4] == ("/schem status"@, "Show active operations"@),
        command_help()[5] == ("/schem reload"@, "Reload config from disk"@),
        command_help()[6] == ("/schem wand"@, "Get the selection wand"@),
        command_help()[7] == ("/schem pos1/pos2"@, "Set selection at looked-at block"@),
        command_help()[8] == ("/schem copy"@, "Copy selection to clipboard"@),
        command_help()[9] == ("/schem save <name>"@, "Save clipboard to .schem file"@),
        command_help()[10] == ("/schem rotate <90|180|270>"@, "Rotate clipboard"@),
        command_help()[11] == ("/schem flip <x|z>"@, "Mirror clipboard"@),
        command_help()[12] == ("/schem undo"@, "Undo last operation"@),
        command_help()[13] == ("/schem redo"@, "Redo last undone operation"@),
        command_help()[14] == ("/schem replace <from> <to>"@, "Replace blocks in selection"@),
        command_help()[15] == ("/schem set <block>"@, "Fill selection with a block"@),
{
}

/// An undo takes the last operation off the one side of the history and puts it on top of the other,
/// and a redo takes it back. A new operation goes on top of those that can be undone.
pub proof fn law_operations_change_sides(h: HistoryView, entry: UndoEntry, max_depth: int)
    ensures
        stack_for(h, true) == h.undo,
        stack_for(h, false) == h.redo,
        h.undo.len() > 0 ==> stepped(h, true).undo == h.undo.drop_last() && stepped(h, true).redo
            == h.redo.push(h.undo.last()),
        h.redo.len() > 0 ==> stepped(h, false).redo == h.redo.drop_last() && stepped(h, false).undo
            == h.undo.push(h.redo.last()),
        max_depth > h.undo.len() ==> pushed(h, entry, max_depth).undo == h.undo.push(entry),
        pushed(h, entry, max_depth).redo.len() == 0,
{
    if max_depth > h.undo.len() {
        assert(h.undo.skip(0) =~= h.undo);
    }
}

/// Names are in order exactly if each comes before all that stand behind it.
pub proof fn law_sorted_names_are_in_order(s: Seq<Seq<char>>)
    ensures
        sorted(s) <==> forall|i: int, j: int|
            0 <= i < j < s.len() ==> ordered(#[trigger] s[i], #[trigger] s[j]),
{
}

/// The default namespace is left out once, wherever it stands in front.
pub proof fn law_default_namespace_is_left_out(a: Seq<char>, b: Seq<char>)
    ensures
        plain_item("minecraft:"@ + a) == a,
        !(exists|r: Seq<char>| a == #[trigger] ("minecraft:"@ + r)) ==> plain_item(a) == a,
        holds_wand(Some(a), b) <==> plain_item(a) == plain_item(b),
{
    let n = "minecraft:"@;
    law_ends_are_told(n, a, a);
    assert((n + a).skip(n.len() as int) =~= a);
}

/// A name without separators, zero characters and two dots behind each other is safe.
pub proof fn law_names_that_lead_nowhere_are_safe(name: Seq<char>)
    requires
        name.len() > 0,
        !name.contains('/'),
        !name.contains('\\'),
        !name.contains('\0'),
        !(exists|a: Seq<char>, b: Seq<char>| name == #[trigger] (a + ".."@ + b)),
    ensures
        safe_name(name),
{
    assert forall|i: int| 0 <= i < name.len() - 1 implies !(#[trigger] name[i] == '.' && name[i + 1]
        == '.') by {
        if name[i] == '.' && name[i + 1] == '.' {
            let a = name.take(i);
            let b = name.skip(i + 2);
            reveal_strlit("..");
            assert(name =~= a + ".."@ + b);
        }
    }
}

} // verus!
