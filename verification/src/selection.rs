//! Selections: two corners that a player set, with the wand or by command.
use vstd::prelude::*;
use vstd::string::*;

use crate::grid::BlockPos;
use crate::names::{lookup, put, NameMap};
use crate::survey::{lower, upper, Area};
use crate::text::{decimal, decimal_i64, push_decimal, same, starts_with, without_prefix};

verus! {

/// Two corners of a box, in any order.
#[derive(Clone, Copy, Debug, PartialEq, Eq, Structural)]
pub struct Selection {
    pub pos1: BlockPos,
    pub pos2: BlockPos,
}

impl Selection {
    /// The box between the corners.
    pub open spec fn area(self) -> Area {
        Area {
            min: BlockPos {
                x: lower(self.pos1.x as int, self.pos2.x as int) as i32,
                y: lower(self.pos1.y as int, self.pos2.y as int) as i32,
                z: lower(self.pos1.z as int, self.pos2.z as int) as i32,
            },
            max: BlockPos {
                x: upper(self.pos1.x as int, self.pos2.x as int) as i32,
                y: upper(self.pos1.y as int, self.pos2.y as int) as i32,
                z: upper(self.pos1.z as int, self.pos2.z as int) as i32,
            },
        }
    }

    /// Whether the extents of the box fit thirty-two bits.
    pub open spec fn measurable(self) -> bool {
        &&& self.area().size_x() <= i32::MAX
        &&& self.area().size_y() <= i32::MAX
        &&& self.area().size_z() <= i32::MAX
    }

    /// Whether the extents of the box fit thirty-two bits and its volume fits sixty-four.
    pub open spec fn countable(self) -> bool {
        self.measurable() && self.area().volume() <= u64::MAX
    }

    /// The lowest and the highest corner.
    pub fn bounds(&self) -> (r: (BlockPos, BlockPos))
        ensures
            r.0 == self.area().min,
            r.1 == self.area().max,
            self.area().wf(),
    {
        (
            BlockPos {
                x: smaller(self.pos1.x, self.pos2.x),
                y: smaller(self.pos1.y, self.pos2.y),
                z: smaller(self.pos1.z, self.pos2.z),
            },
            BlockPos {
                x: larger(self.pos1.x, self.pos2.x),
                y: larger(self.pos1.y, self.pos2.y),
                z: larger(self.pos1.z, self.pos2.z),
            },
        )
    }

    /// The extents along x, y and z.
    pub fn dimensions(&self) -> (r: (i32, i32, i32))
        requires
            self.measurable(),
        ensures
            r.0 == self.area().size_x(),
            r.1 == self.area().size_y(),
            r.2 == self.area().size_z(),
    {
        let (min, max) = self.bounds();
        (extent(min.x, max.x), extent(min.y, max.y), extent(min.z, max.z))
    }

    /// The number of blocks.
    pub fn volume(&self) -> (r: u64)
        requires
            self.countable(),
        ensures
            r == self.area().volume(),
    {
        let (sx, sy, sz) = self.dimensions();
        proof {
            crate::grid::lemma_extents(sx as int, sy as int, sz as int);
        }
        sx as u64 * sy as u64 * sz as u64
    }

    /// Whether the extents of the box fit thirty-two bits and its volume fits sixty-four.
    pub fn is_countable(&self) -> (r: bool)
        ensures
            r == self.countable(),
    {
        let (min, max) = self.bounds();
        let sx: i64 = max.x as i64 - min.x as i64 + 1;
        let sy: i64 = max.y as i64 - min.y as i64 + 1;
        let sz: i64 = max.z as i64 - min.z as i64 + 1;
        let limit: i64 = i32::MAX as i64;
        if sx > limit || sy > limit || sz > limit {
            return false;
        }
        assert(0 <= sx * sy <= 0x7fff_ffff * 0x7fff_ffff) by (nonlinear_arith)
            requires
                0 <= sx <= 0x7fff_ffff,
                0 <= sy <= 0x7fff_ffff,
        ;
        let base: u64 = sx as u64 * sy as u64;
        base.checked_mul(sz as u64).is_some()
    }
}

/// The smaller of two numbers.
fn smaller(a: i32, b: i32) -> (r: i32)
    ensures
        r == lower(a as int, b as int),
{
    if a < b {
        a
    } else {
        b
    }
}

/// The larger of two numbers.
fn larger(a: i32, b: i32) -> (r: i32)
    ensures
        r == upper(a as int, b as int),
{
    if a < b {
        b
    } else {
        a
    }
}

/// The number of coordinates from one to another, both included.
fn extent(a: i32, b: i32) -> (r: i32)
    requires
        a <= b,
        b - a + 1 <= i32::MAX,
    ensures
        r == b - a + 1,
{
    (b as i64 - a as i64 + 1) as i32
}

/// A selection that may be used: its corners, its extents and its number of blocks.
#[derive(Clone, Copy, Debug, PartialEq, Eq)]
pub struct SelectionBounds {
    pub min: BlockPos,
    pub max: BlockPos,
    pub size: (i32, i32, i32),
    pub volume: u64,
}

/// What tells the player that a selection is too large.
pub open spec fn too_large_text(volume: int, max_volume: int) -> Seq<char> {
    "Selection too large ("@ + decimal(volume) + " blocks, max "@ + decimal(max_volume) + ")."@
}

/// The selection of a player, which may be missing or too large.
pub open spec fn bounds_of(
    selections: Option<Seq<(Seq<char>, Selection)>>,
    player: Seq<char>,
    max_volume: int,
) -> Result<Selection, Seq<char>> {
    match selections {
        None => Err("No selection set."@),
        Some(m) => match lookup(m, player) {
            None => Err("No selection set. Use wand or /schematic pos1/pos2."@),
            Some(s) => if s.area().volume() > max_volume {
                Err(too_large_text(s.area().volume(), max_volume))
            } else {
                Ok(s)
            },
        },
    }
}

/// The map that is there, if one is.
pub open spec fn map_view<V>(m: Option<&NameMap<V>>) -> Option<Seq<(Seq<char>, V)>> {
    match m {
        Some(m) => Some(m@),
        None => None,
    }
}

/// The selection of a player, rejected if it is missing or exceeds the volume limit.
pub fn selection_bounds(
    selections: Option<&NameMap<Selection>>,
    player_name: &str,
    max_volume: u64,
) -> (r: Result<SelectionBounds, String>)
    requires
        map_view(selections) matches Some(m) ==> (lookup(m, player_name@) matches Some(s)
            ==> s.countable()),
    ensures
        match (r, bounds_of(map_view(selections), player_name@, max_volume as int)) {
            (Ok(b), Ok(s)) => {
                &&& s.countable()
                &&& s.area().wf()
                &&& b.min == s.area().min
                &&& b.max == s.area().max
                &&& b.size.0 == s.area().size_x()
                &&& b.size.1 == s.area().size_y()
                &&& b.size.2 == s.area().size_z()
                &&& b.volume == s.area().volume()
            },
            (Err(e), Err(m)) => e@ == m,
            _ => false,
        },
{
    let map = match selections {
        Some(map) => map,
        None => return Err("No selection set.".to_string()),
    };
    let s = match map.get(player_name) {
        Some(s) => s,
        None => return Err("No selection set. Use wand or /schematic pos1/pos2.".to_string()),
    };
    let volume: u64 = s.volume();
    if volume > max_volume {
        let mut e = "Selection too large (".to_string();
        push_decimal(&mut e, volume);
        e.append(" blocks, max ");
        push_decimal(&mut e, max_volume);
        e.append(").");
        return Err(e);
    }
    let (min, max) = s.bounds();
    Ok(SelectionBounds { min, max, size: s.dimensions(), volume })
}

/// A selection with one corner set. Where there was none, both corners are set.
pub open spec fn with_corner(s: Option<Selection>, is_pos1: bool, pos: BlockPos) -> Selection {
    match s {
        Some(s) => if is_pos1 {
            Selection { pos1: pos, pos2: s.pos2 }
        } else {
            Selection { pos1: s.pos1, pos2: pos }
        },
        None => Selection { pos1: pos, pos2: pos },
    }
}

/// A position in a message.
pub open spec fn pos_text(p: BlockPos) -> Seq<char> {
    "("@ + decimal(p.x as int) + ", "@ + decimal(p.y as int) + ", "@ + decimal(p.z as int) + ")"@
}

/// What tells the player that a corner was set.
pub open spec fn corner_text(is_pos1: bool, pos: BlockPos) -> Seq<char> {
    (if is_pos1 {
        "Pos1"@
    } else {
        "Pos2"@
    }) + " set to "@ + pos_text(pos)
}

/// Writes a position into a message.
pub fn push_pos(out: &mut String, p: BlockPos)
    ensures
        final(out)@ == old(out)@ + pos_text(p),
{
    out.append("(");
    out.append(decimal_i64(p.x as i64).as_str());
    out.append(", ");
    out.append(decimal_i64(p.y as i64).as_str());
    out.append(", ");
    out.append(decimal_i64(p.z as i64).as_str());
    out.append(")");
    assert(out@ =~= old(out)@ + pos_text(p));
}

/// Sets a corner of a player's selection, and says so.
pub fn set_corner(
    selections: &mut NameMap<Selection>,
    player_name: &str,
    is_pos1: bool,
    pos: BlockPos,
) -> (r: String)
    ensures
        final(selections)@ == put(
            old(selections)@,
            player_name@,
            with_corner(lookup(old(selections)@, player_name@), is_pos1, pos),
        ),
        r@ == corner_text(is_pos1, pos),
        old(selections).wf() ==> final(selections).wf(),
{
    let s = match selections.get(player_name) {
        Some(s) => if is_pos1 {
            Selection { pos1: pos, pos2: s.pos2 }
        } else {
            Selection { pos1: s.pos1, pos2: pos }
        },
        None => Selection { pos1: pos, pos2: pos },
    };
    selections.insert(player_name.to_owned(), s);
    let mut text = if is_pos1 {
        "Pos1".to_string()
    } else {
        "Pos2".to_string()
    };
    text.append(" set to ");
    push_pos(&mut text, pos);
    text
}

/// An item's name without the default namespace.
pub open spec fn plain_item(name: Seq<char>) -> Seq<char> {
    if starts_with(name, "minecraft:"@) {
        name.skip("minecraft:"@.len() as int)
    } else {
        name
    }
}

/// An item's name without the default namespace.
pub fn normalize_item_name(name: &str) -> (r: &str)
    ensures
        r@ == plain_item(name@),
{
    without_prefix(name, "minecraft:")
}

/// Whether the item in a hand is the wand.
pub open spec fn holds_wand(item: Option<Seq<char>>, wand_item: Seq<char>) -> bool {
    match item {
        Some(key) => plain_item(key) == plain_item(wand_item),
        None => false,
    }
}

/// The text that is there, if one is.
pub open spec fn text_view(s: Option<&str>) -> Option<Seq<char>> {
    match s {
        Some(s) => Some(s@),
        None => None,
    }
}

/// Whether the item in a hand is the wand.
pub fn is_wand(item: Option<&str>, wand_item: &str) -> (r: bool)
    ensures
        r == holds_wand(text_view(item), wand_item@),
{
    match item {
        Some(key) => same(normalize_item_name(key), normalize_item_name(wand_item)),
        None => false,
    }
}

/// How a player interacts with a block.
#[derive(Clone, Copy, Debug, PartialEq, Eq, Structural)]
pub enum Click {
    Left,
    Right,
    Other,
}

/// The corner that a click sets, if the wand is in hand and a block was clicked: the first with
/// the left button, the second with the right. Such a click has no other effect.
pub open spec fn clicked_corner(
    item: Option<Seq<char>>,
    wand_item: Seq<char>,
    clicked: Option<BlockPos>,
    click: Click,
) -> Option<(bool, BlockPos)> {
    if holds_wand(item, wand_item) {
        match (clicked, click) {
            (Some(pos), Click::Left) => Some((true, pos)),
            (Some(pos), Click::Right) => Some((false, pos)),
            _ => None,
        }
    } else {
        None
    }
}

/// The corner that a click sets, if the wand is in hand and a block was clicked.
pub fn wand_click(
    item: Option<&str>,
    wand_item: &str,
    clicked: Option<BlockPos>,
    click: Click,
) -> (r: Option<(bool, BlockPos)>)
    ensures
        r == clicked_corner(text_view(item), wand_item@, clicked, click),
{
    if !is_wand(item, wand_item) {
        return None;
    }
    match (clicked, click) {
        (Some(pos), Click::Left) => Some((true, pos)),
        (Some(pos), Click::Right) => Some((false, pos)),
        _ => None,
    }
}

/// The order of the corners does not matter, and a selection's box holds both.
pub proof fn law_corners_in_any_order(s: Selection)
    ensures
        (Selection { pos1: s.pos2, pos2: s.pos1 }).area() == s.area(),
        s.area().wf(),
        s.area().holds(s.pos1),
        s.area().holds(s.pos2),
{
}

/// Setting both corners, in either order, gives the same selection, whatever was there.
pub proof fn law_corners_are_independent(s: Option<Selection>, a: BlockPos, b: BlockPos)
    ensures
        with_corner(Some(with_corner(s, true, a)), false, b) == (Selection { pos1: a, pos2: b }),
        with_corner(Some(with_corner(s, false, b)), true, a) == (Selection { pos1: a, pos2: b }),
{
}

} // verus!
