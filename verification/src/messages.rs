//! What the plugin tells players.
use vstd::prelude::*;
use vstd::string::*;

use crate::clipboard::{Clipboard, ClipboardView};
use crate::config::PluginConfig;
use crate::placement::{count_filled, filled};
use crate::text::{decimal, decimal_i64, push_decimal};

verus! {

/// How a message is meant, which decides its colour.
#[derive(Clone, Copy, Debug, PartialEq, Eq, Structural)]
pub enum Level {
    Error,
    Success,
    Info,
    Warn,
    /// A line of detail, without the plugin's name in front.
    Detail,
}

/// A message.
#[derive(Debug)]
pub struct Notice {
    pub level: Level,
    pub text: String,
}

impl View for Notice {
    type V = (Level, Seq<char>);

    open spec fn view(&self) -> (Level, Seq<char>) {
        (self.level, self.text@)
    }
}

/// Some messages.
pub open spec fn notices_view(s: Seq<Notice>) -> Seq<(Level, Seq<char>)> {
    s.map_values(|n: Notice| n@)
}

/// A list of one message.
pub fn single(level: Level, text: String) -> (r: Vec<Notice>)
    ensures
        notices_view(r@) == seq![(level, text@)],
{
    let mut r: Vec<Notice> = Vec::new();
    let ghost t = text@;
    r.push(Notice { level, text });
    assert(notices_view(r@) =~= seq![(level, t)]);
    r
}

/// A list of two messages.
fn pair(a: Notice, b: Notice) -> (r: Vec<Notice>)
    ensures
        notices_view(r@) == seq![a@, b@],
{
    let mut r: Vec<Notice> = Vec::new();
    r.push(a);
    r.push(b);
    assert(notices_view(r@) =~= seq![a@, b@]);
    r
}

/// Text between two others.
pub fn between(head: &str, middle: &str, tail: &str) -> (r: String)
    ensures
        r@ == head@ + middle@ + tail@,
{
    let mut r = head.to_owned();
    r.append(middle);
    r.append(tail);
    r
}

/// A text behind another.
pub fn joined_text(head: &str, tail: &str) -> (r: String)
    ensures
        r@ == head@ + tail@,
{
    let mut r = head.to_owned();
    r.append(tail);
    r
}

/// A size in a message.
pub open spec fn size_text(x: int, y: int, z: int) -> Seq<char> {
    decimal(x) + "x"@ + decimal(y) + "x"@ + decimal(z)
}

/// Writes a size into a message.
pub fn push_size(out: &mut String, x: i32, y: i32, z: i32)
    ensures
        final(out)@ == old(out)@ + size_text(x as int, y as int, z as int),
{
    out.append(decimal_i64(x as i64).as_str());
    out.append("x");
    out.append(decimal_i64(y as i64).as_str());
    out.append("x");
    out.append(decimal_i64(z as i64).as_str());
    assert(out@ =~= old(out)@ + size_text(x as int, y as int, z as int));
}

/// What tells the player that a schematic was loaded, and what became of the block types that the
/// server does not know.
pub open spec fn load_notices(
    name: Seq<char>,
    regions: int,
    blocks: int,
    unresolved: int,
    skipped: bool,
    fallback_block: Seq<char>,
) -> Seq<(Level, Seq<char>)> {
    let done = (
        Level::Success,
        "Loaded '"@ + name + "' - "@ + decimal(regions) + " region(s), "@ + decimal(blocks)
            + " blocks"@,
    );
    if unresolved == 0 {
        seq![done]
    } else if skipped {
        seq![
            done,
            (
                Level::Warn,
                decimal(unresolved)
                    + " block type(s) skipped (unsupported). Use /schematic info for details."@,
            ),
        ]
    } else {
        seq![
            done,
            (
                Level::Warn,
                decimal(unresolved) + " block type(s) replaced with "@ + fallback_block
                    + ". Use /schematic info for details."@,
            ),
        ]
    }
}

/// The messages about a schematic that was loaded.
pub fn tell_loaded(
    name: &str,
    regions: usize,
    blocks: usize,
    unresolved: usize,
    skipped: bool,
    fallback_block: &str,
) -> (r: Vec<Notice>)
    ensures
        notices_view(r@) == load_notices(
            name@,
            regions as int,
            blocks as int,
            unresolved as int,
            skipped,
            fallback_block@,
        ),
{
    let mut text = "Loaded '".to_string();
    text.append(name);
    text.append("' - ");
    push_decimal(&mut text, regions as u64);
    text.append(" region(s), ");
    push_decimal(&mut text, blocks as u64);
    text.append(" blocks");
    if unresolved == 0 {
        return single(Level::Success, text);
    }
    let mut warning = String::new();
    push_decimal(&mut warning, unresolved as u64);
    assert(warning@ =~= decimal(unresolved as int));
    if skipped {
        warning.append(" block type(s) skipped (unsupported). Use /schematic info for details.");
    } else {
        warning.append(" block type(s) replaced with ");
        warning.append(fallback_block);
        warning.append(". Use /schematic info for details.");
    }
    pair(
        Notice { level: Level::Success, text },
        Notice { level: Level::Warn, text: warning },
    )
}

/// What tells the player about a clipboard.
pub open spec fn info_notices(c: ClipboardView) -> Seq<(Level, Seq<char>)> {
    seq![
        (Level::Info, "Schematic: "@ + c.name),
        (
            Level::Detail,
            "  "@ + size_text(c.size_x as int, c.size_y as int, c.size_z as int) + ", "@ + decimal(
                filled(c.blocks).len() as int,
            ) + " blocks, "@ + decimal(c.tile_entities.len() as int) + " tile entities"@,
        ),
    ]
}

/// The messages about a clipboard.
pub fn tell_info(clip: &Clipboard) -> (r: Vec<Notice>)
    ensures
        notices_view(r@) == info_notices(clip@),
{
    let head = joined_text("Schematic: ", clip.name.as_str());
    let mut detail = "  ".to_string();
    push_size(&mut detail, clip.size_x, clip.size_y, clip.size_z);
    detail.append(", ");
    push_decimal(&mut detail, count_filled(&clip.blocks) as u64);
    detail.append(" blocks, ");
    push_decimal(&mut detail, clip.tile_entities.len() as u64);
    detail.append(" tile entities");
    pair(
        Notice { level: Level::Info, text: head },
        Notice { level: Level::Detail, text: detail },
    )
}

/// What tells the player how many pastes are going on.
pub open spec fn status_notice(active: int) -> (Level, Seq<char>) {
    if active == 0 {
        (Level::Info, "No active paste operations."@)
    } else {
        (Level::Warn, decimal(active) + " paste operation(s) in progress."@)
    }
}

/// The message about how many pastes are going on.
pub fn tell_status(active: usize) -> (r: Notice)
    ensures
        r@ == status_notice(active as int),
{
    if active == 0 {
        return Notice { level: Level::Info, text: "No active paste operations.".to_string() };
    }
    let mut text = String::new();
    push_decimal(&mut text, active as u64);
    assert(text@ =~= decimal(active as int));
    text.append(" paste operation(s) in progress.");
    Notice { level: Level::Warn, text }
}

/// What tells the player which settings were read.
pub open spec fn reload_text(wand: Seq<char>, blocks_per_tick: int, max_pastes: int) -> Seq<char> {
    "Config reloaded. Wand: "@ + wand + ", blocks/tick: "@ + decimal(blocks_per_tick)
        + ", max pastes: "@ + decimal(max_pastes)
}

/// The message about the settings that were read.
pub fn tell_reloaded(config: &PluginConfig) -> (r: Notice)
    ensures
        r@ == (
            Level::Success,
            reload_text(
                config.wand_item@,
                config.blocks_per_tick as int,
                config.max_concurrent_pastes as int,
            ),
        ),
{
    let mut text = "Config reloaded. Wand: ".to_string();
    text.append(config.wand_item.as_str());
    text.append(", blocks/tick: ");
    push_decimal(&mut text, config.blocks_per_tick as u64);
    text.append(", max pastes: ");
    push_decimal(&mut text, config.max_concurrent_pastes as u64);
    Notice { level: Level::Success, text }
}

/// The message about a wand that was given.
pub fn tell_wand(wand_item: &str) -> (r: Notice)
    ensures
        r@ == (
            Level::Success,
            "Gave selection wand ("@ + wand_item@ + "). Left-click: pos1, Right-click: pos2"@,
        ),
{
    Notice {
        level: Level::Success,
        text: between(
            "Gave selection wand (",
            wand_item,
            "). Left-click: pos1, Right-click: pos2",
        ),
    }
}

/// The version of the plugin.
pub fn plugin_version() -> (r: &'static str)
    ensures
        r@ == "0.2.0"@,
{
    "0.2.0"
}

/// The commands with what they do.
pub open spec fn command_help() -> Seq<(Seq<char>, Seq<char>)> {
    seq![
        ("/schem load <file>"@, "Load a schematic file"@),
        ("/schem paste"@, "Paste clipboard or loaded schematic"@),
        ("/schem list"@, "List available schematic files"@),
        ("/schem info"@, "Show details of loaded schematic"@),
        ("/schem status"@, "Show active operations"@),
        ("/schem reload"@, "Reload config from disk"@),
        ("/schem wand"@, "Get the selection wand"@),
        ("/schem pos1/pos2"@, "Set selection at looked-at block"@),
        ("/schem copy"@, "Copy selection to clipboard"@),
        ("/schem save <name>"@, "Save clipboard to .schem file"@),
        ("/schem rotate <90|180|270>"@, "Rotate clipboard"@),
        ("/schem flip <x|z>"@, "Mirror clipboard"@),
        ("/schem undo"@, "Undo last operation"@),
        ("/schem redo"@, "Redo last undone operation"@),
        ("/schem replace <from> <to>"@, "Replace blocks in selection"@),
        ("/schem set <block>"@, "Fill selection with a block"@),
    ]
}

/// The text of pairs.
pub open spec fn help_view(s: Seq<(&'static str, &'static str)>) -> Seq<(Seq<char>, Seq<char>)> {
    s.map_values(|e: (&'static str, &'static str)| (e.0@, e.1@))
}

/// The commands with what they do.
pub fn help_lines() -> (r: Vec<(&'static str, &'static str)>)
    ensures
        help_view(r@) == command_help(),
{
    let r: Vec<(&'static str, &'static str)> = vec![
        ("/schem load <file>", "Load a schematic file"),
        ("/schem paste", "Paste clipboard or loaded schematic"),
        ("/schem list", "List available schematic files"),
        ("/schem info", "Show details of loaded schematic"),
        ("/schem status", "Show active operations"),
        ("/schem reload", "Reload config from disk"),
        ("/schem wand", "Get the selection wand"),
        ("/schem pos1/pos2", "Set selection at looked-at block"),
        ("/schem copy", "Copy selection to clipboard"),
        ("/schem save <name>", "Save clipboard to .schem file"),
        ("/schem rotate <90|180|270>", "Rotate clipboard"),
        ("/schem flip <x|z>", "Mirror clipboard"),
        ("/schem undo", "Undo last operation"),
        ("/schem redo", "Redo last undone operation"),
        ("/schem replace <from> <to>", "Replace blocks in selection"),
        ("/schem set <block>", "Fill selection with a block"),
    ];
    assert(help_view(r@) =~= command_help());
    r
}

} // verus!
